//! Where the configuration file and the launchers live, and what a user is
//! told when the launcher directory is not on `PATH`.

use vstd::prelude::*;

use crate::text::{eq_ignore_ascii_case, eq_ignore_case};

verus! {

/// The per-user locations of the program: its configuration file and the
/// directory of the launchers.
#[derive(Debug, Clone)]
pub struct AppPaths {
    pub config_file: String,
    pub bin_dir: String,
}

/// The advice given when the launcher directory `bin` is not on `PATH`.
pub open spec fn path_guidance_text(bin: Seq<char>, on_windows: bool) -> Seq<char> {
    if on_windows {
        "Add '"@ + bin + "' to your user PATH, then open a new terminal."@
    } else {
        "Add this line to your shell profile, then open a new terminal:\nexport PATH=\""@ + bin
            + ":$PATH\""@
    }
}

/// Compares two paths with `Path::eq`, component by component.
/// Trusted: how paths split into components depends on the platform, so only
/// this is stated: equal texts are equal paths.
#[verifier::external_body]
fn same_path(left: &str, right: &str) -> (r: bool)
    ensures
        left@ == right@ ==> r,
{
    std::path::Path::new(left) == std::path::Path::new(right)
}

/// Whether two paths name the same place: on Windows their texts compared
/// without regard to ASCII case, elsewhere `Path` equality.
pub fn paths_equal(left: &str, right: &str, on_windows: bool) -> (r: bool)
    ensures
        on_windows ==> r == eq_ignore_case(left@, right@),
        !on_windows ==> (left@ == right@ ==> r),
{
    if on_windows {
        eq_ignore_ascii_case(left, right)
    } else {
        same_path(left, right)
    }
}

impl AppPaths {
    /// What to do to put the launcher directory on `PATH`.
    pub fn path_guidance(&self, on_windows: bool) -> (r: String)
        ensures
            r@ == path_guidance_text(self.bin_dir@, on_windows),
    {
        if on_windows {
            let mut m = "Add '".to_owned();
            m.append(self.bin_dir.as_str());
            m.append("' to your user PATH, then open a new terminal.");
            m
        } else {
            let mut m = "Add this line to your shell profile, then open a new terminal:\nexport PATH=\"".to_owned();
            m.append(self.bin_dir.as_str());
            m.append(":$PATH\"");
            m
        }
    }

    /// Whether the launcher directory is one of the entries of `PATH`.
    pub fn bin_is_listed(&self, entries: &Vec<String>, on_windows: bool) -> (r: bool)
        ensures
            on_windows ==> (r <==> exists|i: int|
                0 <= i < entries@.len() && eq_ignore_case(#[trigger] entries@[i]@, self.bin_dir@)),
            !on_windows ==> ((exists|i: int| 0 <= i < entries@.len() && #[trigger] entries@[i]@ == self.bin_dir@) ==> r),
    {
        let mut i: usize = 0;
        while i < entries.len()
            invariant
                0 <= i <= entries.len(),
                on_windows ==> forall|j: int| 0 <= j < i ==> !eq_ignore_case(#[trigger] entries@[j]@, self.bin_dir@),
                !on_windows ==> forall|j: int| 0 <= j < i ==> #[trigger] entries@[j]@ != self.bin_dir@,
            decreases entries.len() - i,
        {
            if paths_equal(entries[i].as_str(), self.bin_dir.as_str(), on_windows) {
                return true;
            }
            i = i + 1;
        }
        false
    }
}

} // verus!
