use transfigure::config::{CommandSpec, Shortcut};
use transfigure::paths::{paths_equal, AppPaths};
use transfigure::runner::{
    argument_environment_name, direct_step, failed_step, is_powershell_parameter, literal_value,
    powershell_quote, powershell_script, resolved_arguments, sh_quote, sh_script, shell_name,
    ArgumentPlan, ResolvedArgument, ResolvedShell,
};
use transfigure::config::ShellKind;
use transfigure::RunResult;

fn tokens(values: &[&str]) -> Vec<String> {
    values.iter().map(|value| value.to_string()).collect()
}

fn parse(values: &[&str], chain: bool) -> Shortcut {
    Shortcut::parse(tokens(values), chain, None).unwrap()
}

#[test]
fn plan_collects_placeholders() {
    let plan = ArgumentPlan::for_shortcut(&parse(&["a", "{2}", "--then", "b", "{1}", "x"], true))
        .unwrap();
    assert!(plan.uses_placeholders);
    assert!(!plan.all);
    assert_eq!(plan.positional.iter().copied().collect::<Vec<_>>(), [0, 1]);

    let plan = ArgumentPlan::for_shortcut(&parse(&["a", "x", "{*}"], false)).unwrap();
    assert!(plan.uses_placeholders);
    assert!(plan.all);

    let plan = ArgumentPlan::for_shortcut(&parse(&["a", "x", "{{1}}"], false)).unwrap();
    assert!(!plan.uses_placeholders);
}

#[test]
fn reports_missing_and_unused_placeholder_arguments() {
    let plan = ArgumentPlan::for_shortcut(&parse(&["unused-tool", "{1}"], false)).unwrap();
    assert_eq!(
        plan.validate(0).unwrap_err().message(),
        "shortcut requires invocation argument 1 for placeholder {1}"
    );
    assert_eq!(
        plan.validate(2).unwrap_err().message(),
        "invocation argument 2 is unused; add placeholder {2} or {*} to the shortcut"
    );
    assert!(plan.validate(1).is_ok());

    let plan = ArgumentPlan::for_shortcut(&parse(&["t", "{3}", "{5}"], false)).unwrap();
    assert_eq!(
        plan.validate(1).unwrap_err().message(),
        "shortcut requires invocation argument 3 for placeholder {3}"
    );
    assert_eq!(
        plan.validate(5).unwrap_err().message(),
        "invocation argument 1 is unused; add placeholder {1} or {*} to the shortcut"
    );

    let plan = ArgumentPlan::for_shortcut(&parse(&["t", "{2}", "{*}"], false)).unwrap();
    assert!(plan.validate(7).is_ok());

    let plan = ArgumentPlan::for_shortcut(&parse(&["t", "x"], false)).unwrap();
    assert!(plan.validate(9).is_ok());
}

#[test]
fn direct_steps_append_arguments_only_to_the_last_step() {
    let shortcut = parse(&["first", "a", "--then", "second", "b"], true);
    let plan = ArgumentPlan::for_shortcut(&shortcut).unwrap();
    let step = direct_step(&shortcut, 0, 2, &plan).unwrap();
    assert_eq!(step.program, "first");
    assert_eq!(step.arguments, [ResolvedArgument::Text("a".to_string())]);
    let step = direct_step(&shortcut, 1, 2, &plan).unwrap();
    assert_eq!(step.program, "second");
    assert_eq!(
        step.arguments,
        [
            ResolvedArgument::Text("b".to_string()),
            ResolvedArgument::Invocation(0),
            ResolvedArgument::Invocation(1)
        ]
    );
}

#[test]
fn direct_steps_resolve_placeholders() {
    let shortcut = parse(&["printf", "<%s>\\n", "{*}", "{1}", "{{1}}"], false);
    let plan = ArgumentPlan::for_shortcut(&shortcut).unwrap();
    let step = direct_step(&shortcut, 0, 2, &plan).unwrap();
    assert_eq!(
        step.arguments,
        [
            ResolvedArgument::Text("<%s>\\n".to_string()),
            ResolvedArgument::Invocation(0),
            ResolvedArgument::Invocation(1),
            ResolvedArgument::Invocation(0),
            ResolvedArgument::Text("{1}".to_string())
        ]
    );
    assert_eq!(
        resolved_arguments(&tokens(&["{0}"]), 1).unwrap_err().message(),
        "placeholder indexes start at {1}; {0} is invalid"
    );
}

#[test]
fn literal_values_refuse_placeholders() {
    assert_eq!(literal_value("{{1}}").unwrap(), "{1}");
    assert_eq!(literal_value("tool").unwrap(), "tool");
    assert_eq!(
        literal_value("{1}").unwrap_err().message(),
        "placeholders cannot be used as command program names"
    );
}

#[test]
fn failed_steps_report_where_a_chain_stopped() {
    let chain = parse(&["a", "--then", "b"], true);
    assert_eq!(failed_step(true, Some(0), &chain, 0), None);
    let (result, message) = failed_step(false, Some(7), &chain, 1).unwrap();
    assert_eq!(result, RunResult::ChildExit(7));
    assert_eq!(
        message.unwrap(),
        "transfigure: chain stopped at step 2 (`b`) with exit code 7"
    );
    let (result, message) = failed_step(false, None, &parse(&["a"], false), 0).unwrap();
    assert_eq!(result, RunResult::ChildExit(1));
    assert!(message.is_none());
    let (_, message) = failed_step(false, Some(-3), &chain, 0).unwrap();
    assert_eq!(
        message.unwrap(),
        "transfigure: chain stopped at step 1 (`a`) with exit code -3"
    );
}

#[test]
fn shells_by_kind_and_platform() {
    assert_eq!(
        ResolvedShell::from_kind(ShellKind::Auto, true),
        ResolvedShell::Powershell("powershell.exe")
    );
    assert_eq!(ResolvedShell::from_kind(ShellKind::Auto, false), ResolvedShell::Sh);
    assert_eq!(
        ResolvedShell::from_kind(ShellKind::Powershell, false),
        ResolvedShell::Powershell("pwsh")
    );
    assert_eq!(
        ResolvedShell::from_kind(ShellKind::Pwsh, true),
        ResolvedShell::Powershell("pwsh")
    );
    assert_eq!(ResolvedShell::from_kind(ShellKind::Sh, true), ResolvedShell::Sh);
    assert_eq!(shell_name(ResolvedShell::Sh), "POSIX");
    assert_eq!(shell_name(ResolvedShell::Powershell("pwsh")), "PowerShell");
    assert_eq!(argument_environment_name(12), "TRANSFIGURE_RUNTIME_ARGUMENT_12");
}

#[test]
fn quoting_for_shells() {
    assert_eq!(sh_quote("it's"), "'it'\\''s'");
    assert_eq!(sh_quote(""), "''");
    assert_eq!(powershell_quote("it's"), "'it''s'");
    assert!(is_powershell_parameter("-ItemType"));
    assert!(is_powershell_parameter("-a-1"));
    assert!(!is_powershell_parameter("-1a"));
    assert!(!is_powershell_parameter("-"));
    assert!(!is_powershell_parameter("Name"));
    assert!(!is_powershell_parameter("-a b"));
}

#[test]
fn sh_script_runs_steps_and_stops_on_failure() {
    let shortcut = parse(&["cd", "my dir", "--then", "touch", "{1}"], true);
    let plan = ArgumentPlan::for_shortcut(&shortcut).unwrap();
    let script = sh_script(&shortcut, 1, &plan).unwrap();
    let expected = [
        "'cd' 'my dir'\n",
        "tf_status=$?\n",
        "if [ \"$tf_status\" -ne 0 ]; then\n",
        "  printf '%s\\n' 'transfigure: shell chain stopped at step 1 (`cd`) with exit code '\"$tf_status\" >&2\n",
        "  exit \"$tf_status\"\n",
        "fi\n",
        "'touch' \"${TRANSFIGURE_RUNTIME_ARGUMENT_0}\"\n",
        "tf_status=$?\n",
        "if [ \"$tf_status\" -ne 0 ]; then\n",
        "  printf '%s\\n' 'transfigure: shell chain stopped at step 2 (`touch`) with exit code '\"$tf_status\" >&2\n",
        "  exit \"$tf_status\"\n",
        "fi\n",
    ]
    .concat();
    assert_eq!(script, expected);
}

#[test]
fn sh_script_appends_arguments_to_the_last_step_without_placeholders() {
    let shortcut = parse(&["echo", "hi"], false);
    let plan = ArgumentPlan::for_shortcut(&shortcut).unwrap();
    let script = sh_script(&shortcut, 2, &plan).unwrap();
    assert!(script.starts_with(
        "'echo' 'hi' \"${TRANSFIGURE_RUNTIME_ARGUMENT_0}\" \"${TRANSFIGURE_RUNTIME_ARGUMENT_1}\"\n"
    ));
}

#[test]
fn powershell_script_runs_steps_and_stops_on_failure() {
    let shortcut = parse(&["New-Item", "-ItemType", "File", "-Name", "{*}"], false);
    let plan = ArgumentPlan::for_shortcut(&shortcut).unwrap();
    let script = powershell_script(&shortcut, 1, &plan).unwrap();
    let expected = [
        "$ErrorActionPreference = 'Stop'\n",
        "trap { [Console]::Error.WriteLine(\"transfigure: shell step failed: $($_.Exception.Message)\"); exit 1 }\n",
        "$LASTEXITCODE = 0\n",
        "& 'New-Item' -ItemType 'File' -Name $env:TRANSFIGURE_RUNTIME_ARGUMENT_0\n",
        "$tfSucceeded = $?\n",
        "$tfExitCode = $LASTEXITCODE\n",
        "if (-not $tfSucceeded -or $tfExitCode -ne 0) {\n",
        "  if ($tfExitCode -eq 0) { $tfExitCode = 1 }\n",
        "  [Console]::Error.WriteLine('transfigure: shell chain stopped at step 1 (`New-Item`) with exit code ' + $tfExitCode)\n",
        "  exit $tfExitCode\n",
        "}\n",
    ]
    .concat();
    assert_eq!(script, expected);
}

#[test]
fn scripts_report_template_errors() {
    let shortcut = Shortcut {
        commands: vec![CommandSpec {
            program: "tool".to_string(),
            args: tokens(&["{0}"]),
        }],
        shell: None,
    };
    let plan = ArgumentPlan::for_shortcut(&parse(&["x"], false)).unwrap();
    assert!(sh_script(&shortcut, 0, &plan).is_err());
    assert!(powershell_script(&shortcut, 0, &plan).is_err());
    assert!(ArgumentPlan::for_shortcut(&shortcut).is_err());
}

#[test]
fn paths_compare_and_guide() {
    assert!(paths_equal("C:\\Tools", "c:\\tools", true));
    assert!(!paths_equal("C:\\Tools", "C:\\Other", true));
    assert!(paths_equal("/a/b", "/a//b/", false));
    assert!(!paths_equal("/a/b", "/a/c", false));
    let paths = AppPaths {
        config_file: "/home/u/.config/transfigure/config.json".to_string(),
        bin_dir: "/home/u/bin".to_string(),
    };
    assert_eq!(
        paths.path_guidance(false),
        "Add this line to your shell profile, then open a new terminal:\nexport PATH=\"/home/u/bin:$PATH\""
    );
    assert_eq!(
        paths.path_guidance(true),
        "Add '/home/u/bin' to your user PATH, then open a new terminal."
    );
    assert!(paths.bin_is_listed(&tokens(&["/usr/bin", "/home/u/bin/"]), false));
    assert!(!paths.bin_is_listed(&tokens(&["/usr/bin"]), false));
    assert!(paths.bin_is_listed(&tokens(&["/HOME/U/BIN"]), true));
}
