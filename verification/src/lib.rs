//! Transfigure keeps named shortcuts for long commands and turns them into
//! direct process invocations or shell scripts. This crate holds the rules:
//! parsing of definitions and placeholders, name validation, the shortcut
//! store, argument planning and script generation.

use vstd::prelude::*;

pub mod config;
pub mod paths;
pub mod runner;
pub mod store;
pub mod text;

verus! {

/// Version of the configuration format written by this library.
pub const CONFIG_VERSION: u32 = 1;

/// Name of the program; no shortcut may take it.
pub const APP_NAME: &'static str = "transfigure";

/// An error of the library, carrying the message shown to the user.
#[derive(Debug, PartialEq, Eq)]
pub enum Error {
    Message(String),
}

impl View for Error {
    type V = Seq<char>;

    open spec fn view(&self) -> Seq<char> {
        match self {
            Error::Message(m) => m@,
        }
    }
}

impl Error {
    /// An error with the given message.
    pub fn msg(m: String) -> (e: Error)
        ensures
            e@ == m@,
    {
        Error::Message(m)
    }

    /// The message shown to the user.
    pub fn message(&self) -> (r: String)
        ensures
            r@ == self@,
    {
        match self {
            Error::Message(m) => m.clone(),
        }
    }
}

pub type Result<T> = std::result::Result<T, Error>;

/// A result seen through the views of its value and of its error message.
pub open spec fn result_view<T: View>(r: Result<T>) -> std::result::Result<T::V, Seq<char>> {
    match r {
        Ok(v) => Ok(v@),
        Err(e) => Err(e@),
    }
}

/// How a run of a shortcut ended.
#[derive(Debug, Clone, Copy, PartialEq, Eq, Structural)]
pub enum RunResult {
    Success,
    ChildExit(i32),
}

} // verus!
