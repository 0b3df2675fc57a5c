//! Scenarios of the command line, played against the library's decisions.

use transfigure::config::{validate_name, Shortcut};
use transfigure::store::{shortcut_lines_of, Store};
use transfigure::runner::{direct_step, failed_step, sh_script, ArgumentPlan, ResolvedArgument};
use transfigure::RunResult;

fn tokens(values: &[&str]) -> Vec<String> {
    values.iter().map(|value| value.to_string()).collect()
}

fn create(store: &mut Store, name: &str, definition: &[&str], chain: bool) -> Result<(), String> {
    validate_name(name).map_err(|e| e.message())?;
    let shortcut = Shortcut::parse(tokens(definition), chain, None).map_err(|e| e.message())?;
    store.require_absent(name).map_err(|e| e.message())?;
    store.insert(name.to_string(), shortcut);
    Ok(())
}

#[test]
fn creates_lists_and_removes_a_shortcut() {
    let mut store = Store::new();
    create(&mut store, "download", &["yt-dlp", "-f", "best video"], false).unwrap();
    let listing = store.listing().join("\n");
    assert!(listing.contains("download"));
    let name = store.stored_name("download").unwrap();
    assert!(store.remove(&name).is_some());
    assert_eq!(store.listing(), ["No shortcuts configured."]);
}

#[test]
fn propagates_a_child_exit_code() {
    let shortcut = Shortcut::parse(tokens(&["sh", "-c", "exit 7"]), false, None).unwrap();
    let (result, message) = failed_step(false, Some(7), &shortcut, 0).unwrap();
    assert_eq!(result, RunResult::ChildExit(7));
    assert!(message.is_none());
}

#[test]
fn rejects_case_insensitive_duplicates() {
    let mut store = Store::new();
    create(&mut store, "build", &["tool"], false).unwrap();
    let error = create(&mut store, "BUILD", &["other"], false).unwrap_err();
    assert!(error.contains("already exists"));
}

#[test]
fn shell_chain_keeps_directory_and_binds_middle_placeholder() {
    let shortcut = Shortcut::parse(
        tokens(&["cd", "/tmp/shell work", "--then", "touch", "{1}", "--then", "ls"]),
        true,
        None,
    )
    .unwrap();
    let plan = ArgumentPlan::for_shortcut(&shortcut).unwrap();
    assert!(plan.validate(1).is_ok());
    let script = sh_script(&shortcut, 1, &plan).unwrap();
    let cd = script.find("'cd' '/tmp/shell work'\n").unwrap();
    let touch = script
        .find("'touch' \"${TRANSFIGURE_RUNTIME_ARGUMENT_0}\"\n")
        .unwrap();
    let ls = script.find("'ls'\n").unwrap();
    assert!(cd < touch && touch < ls);
}

#[test]
fn reports_missing_and_unused_arguments_of_a_templated_shortcut() {
    let shortcut = Shortcut::parse(tokens(&["unused-tool", "{1}"]), false, None).unwrap();
    let plan = ArgumentPlan::for_shortcut(&shortcut).unwrap();
    assert!(plan
        .validate(0)
        .unwrap_err()
        .message()
        .contains("requires invocation argument 1"));
    assert!(plan
        .validate(2)
        .unwrap_err()
        .message()
        .contains("argument 2 is unused"));
}

#[test]
fn shell_chain_stops_before_later_steps() {
    let shortcut = Shortcut::parse(
        tokens(&["sh", "-c", "exit 7", "--then", "touch", "/tmp/should-not-exist"]),
        true,
        None,
    )
    .unwrap();
    let plan = ArgumentPlan::for_shortcut(&shortcut).unwrap();
    let script = sh_script(&shortcut, 0, &plan).unwrap();
    let first_exit = script.find("  exit \"$tf_status\"\n").unwrap();
    let touch = script.find("'touch'").unwrap();
    assert!(first_exit < touch);
}

#[test]
fn accepts_a_definition_without_the_separator() {
    let mut store = Store::new();
    create(&mut store, "compact", &["example-program", "fixed-argument"], false).unwrap();
    let (name, shortcut) = store.get("compact").unwrap();
    let shown = shortcut_lines_of(name, shortcut).join("\n");
    assert!(shown.contains("example-program fixed-argument"));
}

#[test]
fn expands_all_placeholder_arguments_in_direct_mode() {
    let shortcut = Shortcut::parse(tokens(&["printf", "<%s>\\n", "{*}"]), false, None).unwrap();
    let plan = ArgumentPlan::for_shortcut(&shortcut).unwrap();
    assert!(plan.validate(2).is_ok());
    let step = direct_step(&shortcut, 0, 2, &plan).unwrap();
    assert_eq!(
        step.arguments,
        [
            ResolvedArgument::Text("<%s>\\n".to_string()),
            ResolvedArgument::Invocation(0),
            ResolvedArgument::Invocation(1)
        ]
    );
}

#[test]
fn chain_written_with_literal_escapes_reads_back() {
    // Commands `a --then` and `--literal x`, written as one chain definition.
    let shortcut = Shortcut::parse(
        tokens(&[
            "a", "--literal", "--then", "--then", "--literal", "--literal", "x",
        ]),
        true,
        None,
    )
    .unwrap();
    assert_eq!(shortcut.commands.len(), 2);
    assert_eq!(shortcut.commands[0].program, "a");
    assert_eq!(shortcut.commands[0].args, ["--then"]);
    assert_eq!(shortcut.commands[1].program, "--literal");
    assert_eq!(shortcut.commands[1].args, ["x"]);
}

#[test]
fn created_and_updated_shortcuts_keep_the_store_valid() {
    let mut store = Store::new();
    create(&mut store, "fetch", &["prepare", "--then", "yt-dlp", "{1}"], true).unwrap();
    create(&mut store, "Build.local", &["make", "{*}"], false).unwrap();
    assert!(store.validate().is_ok());
    let name = store.stored_name("BUILD.LOCAL").unwrap();
    let previous = store.insert(
        name,
        Shortcut::parse(tokens(&["cargo", "build"]), false, None).unwrap(),
    );
    assert!(previous.is_some());
    assert!(store.validate().is_ok());
    assert_eq!(store.find("build.local").unwrap().1.commands[0].program, "cargo");
    store.remove("fetch");
    assert!(store.validate().is_ok());
    assert!(store.find_name("fetch").is_none());
}
