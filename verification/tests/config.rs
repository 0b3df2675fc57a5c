use transfigure::config::{
    parse_argument_template, validate_name, ArgumentTemplate, CommandSpec, ShellKind, Shortcut,
};
use transfigure::store::{shortcut_lines_of, Store};
use transfigure::CONFIG_VERSION;

fn tokens(values: &[&str]) -> Vec<String> {
    values.iter().map(|value| value.to_string()).collect()
}

fn single(program: &str, args: &[&str]) -> Shortcut {
    Shortcut {
        commands: vec![CommandSpec {
            program: program.to_string(),
            args: tokens(args),
        }],
        shell: None,
    }
}

#[test]
fn parses_single_command_without_treating_then_as_control() {
    let shortcut = Shortcut::parse(tokens(&["tool", "--then", "value"]), false, None).unwrap();
    assert_eq!(shortcut.commands[0].args, ["--then", "value"]);
}

#[test]
fn parses_chain_and_literal_control_token() {
    let shortcut = Shortcut::parse(
        tokens(&["first", "--literal", "--then", "--then", "second"]),
        true,
        None,
    )
    .unwrap();
    assert_eq!(shortcut.commands.len(), 2);
    assert_eq!(shortcut.commands[0].args, ["--then"]);
    assert_eq!(shortcut.commands[1].program, "second");
}

#[test]
fn chain_requires_two_nonempty_steps() {
    assert!(Shortcut::parse(tokens(&["only"]), true, None).is_err());
    assert!(Shortcut::parse(tokens(&["one", "--then"]), true, None).is_err());
}

#[test]
fn validates_portable_names() {
    for valid in ["download", "yt-dlp", "build_2", "tool.local"] {
        assert!(validate_name(valid).is_ok(), "{valid}");
    }
    for invalid in ["", "-bad", "two words", "transfigure", "CON", "LPT1"] {
        assert!(validate_name(invalid).is_err(), "{invalid}");
    }
}

#[test]
fn rejects_invalid_loaded_shortcuts() {
    let mut store = Store::new();
    store.insert("../escape".to_string(), single("tool", &[]));
    assert_eq!(store.version, CONFIG_VERSION);
    assert!(store.validate().is_err());
}

#[test]
fn parses_and_escapes_argument_placeholders() {
    assert_eq!(
        parse_argument_template("{1}").unwrap(),
        ArgumentTemplate::Positional(0)
    );
    assert_eq!(parse_argument_template("{*}").unwrap(), ArgumentTemplate::All);
    assert_eq!(
        parse_argument_template("{{1}}").unwrap(),
        ArgumentTemplate::Literal("{1}".to_string())
    );
    assert!(parse_argument_template("{0}").is_err());
}

#[test]
fn rejects_placeholder_programs() {
    let error = Shortcut::parse(tokens(&["{1}", "value"]), false, None)
        .unwrap_err()
        .message();
    assert!(error.contains("program"));
}

#[test]
fn migrates_version_one_shortcuts_to_direct_mode() {
    let mut store = Store::new();
    store.version = 1;
    store.insert("old".to_string(), single("tool", &[]));
    let store = store.check_loaded("config.json").unwrap();
    assert_eq!(store.version, CONFIG_VERSION);
    let (_, shortcut) = store.find("old").unwrap();
    assert_eq!(shortcut.shell, None);
}

// Placeholders

#[test]
fn placeholder_texts_and_their_meaning() {
    assert_eq!(
        parse_argument_template("{12}").unwrap(),
        ArgumentTemplate::Positional(11)
    );
    assert_eq!(
        parse_argument_template("{{*}}").unwrap(),
        ArgumentTemplate::Literal("{*}".to_string())
    );
    assert_eq!(
        parse_argument_template("{{}}").unwrap(),
        ArgumentTemplate::Literal("{{}}".to_string())
    );
    assert_eq!(
        parse_argument_template("{}").unwrap(),
        ArgumentTemplate::Literal("{}".to_string())
    );
    assert_eq!(
        parse_argument_template("{1a}").unwrap(),
        ArgumentTemplate::Literal("{1a}".to_string())
    );
    assert_eq!(
        parse_argument_template("plain").unwrap(),
        ArgumentTemplate::Literal("plain".to_string())
    );
    assert_eq!(
        parse_argument_template("{{12}}").unwrap(),
        ArgumentTemplate::Literal("{12}".to_string())
    );
}

#[test]
fn placeholder_errors_name_the_problem() {
    assert_eq!(
        parse_argument_template("{0}").unwrap_err().message(),
        "placeholder indexes start at {1}; {0} is invalid"
    );
    assert_eq!(
        parse_argument_template("{99999999999999999999999}")
            .unwrap_err()
            .message(),
        "placeholder '{99999999999999999999999}' has an invalid argument number"
    );
}

// Definitions

#[test]
fn definition_errors() {
    let message = |t: &[&str], chain: bool| {
        Shortcut::parse(tokens(t), chain, None)
            .unwrap_err()
            .message()
    };
    assert_eq!(message(&[], false), "a command definition is required");
    assert_eq!(message(&[""], false), "each command needs a program");
    assert_eq!(
        message(&["{*}"], false),
        "placeholders are allowed only in command arguments, not the program name"
    );
    assert_eq!(
        message(&["tool", "{0}"], false),
        "placeholder indexes start at {1}; {0} is invalid"
    );
    assert_eq!(
        message(&["--then", "tool"], true),
        "each chain step must contain a program"
    );
    assert_eq!(
        message(&["a", "--literal"], true),
        "`--literal` must be followed by a value"
    );
    assert_eq!(
        message(&["a", "--then"], true),
        "a chain cannot end with `--then` or an empty step"
    );
    assert_eq!(
        message(&["only"], true),
        "`--chain` requires at least two commands separated by `--then`"
    );
}

#[test]
fn chain_keeps_shell_and_splits_steps() {
    let shortcut = Shortcut::parse(
        tokens(&["a", "x", "--then", "b", "--then", "c", "{1}"]),
        true,
        Some(ShellKind::Sh),
    )
    .unwrap();
    assert_eq!(shortcut.shell, Some(ShellKind::Sh));
    assert_eq!(shortcut.commands.len(), 3);
    assert_eq!(shortcut.commands[0].program, "a");
    assert_eq!(shortcut.commands[0].args, ["x"]);
    assert_eq!(shortcut.commands[1].program, "b");
    assert!(shortcut.commands[1].args.is_empty());
    assert_eq!(shortcut.commands[2].args, ["{1}"]);
}

#[test]
fn literal_escapes_the_literal_token_too() {
    let shortcut = Shortcut::parse(
        tokens(&["a", "--literal", "--literal", "--then", "b"]),
        true,
        None,
    )
    .unwrap();
    assert_eq!(shortcut.commands[0].args, ["--literal"]);
    assert_eq!(shortcut.commands[1].program, "b");
}

// Display

#[test]
fn display_quotes_only_words_that_need_it() {
    let command = CommandSpec {
        program: "yt-dlp".to_string(),
        args: tokens(&["-f", "best video", "a\"b", ""]),
    };
    assert_eq!(
        command.display(),
        "yt-dlp -f \"best video\" \"a\\\"b\" \"\""
    );
}

#[test]
fn summary_joins_commands_and_names_the_shell() {
    let mut shortcut = Shortcut::parse(tokens(&["a", "--then", "b", "c d"]), true, None).unwrap();
    assert_eq!(shortcut.summary(), "a -> b \"c d\"");
    shortcut.shell = Some(ShellKind::Pwsh);
    assert_eq!(shortcut.summary(), "[shell:pwsh] a -> b \"c d\"");
    assert_eq!(ShellKind::Powershell.name(), "powershell");
    assert_eq!(ShellKind::Auto.name(), "auto");
    assert_eq!(ShellKind::default(), ShellKind::Auto);
}

// Names

#[test]
fn name_errors_and_reserved_names() {
    assert_eq!(
        validate_name("bad name").unwrap_err().message(),
        "invalid shortcut name 'bad name'; use 1-64 ASCII letters, numbers, '.', '-', or '_', starting with a letter or number"
    );
    assert_eq!(
        validate_name("Transfigure").unwrap_err().message(),
        "shortcut name 'Transfigure' is reserved"
    );
    assert!(validate_name("nul.txt").is_err());
    assert!(validate_name("com9").is_err());
    assert!(validate_name("com0").is_ok());
    assert!(validate_name("com10").is_ok());
    assert!(validate_name("lpt").is_ok());
    assert!(validate_name("ends.").is_err());
    assert!(validate_name(&"a".repeat(64)).is_ok());
    assert!(validate_name(&"a".repeat(65)).is_err());
    assert!(validate_name("caf\u{e9}").is_err());
}

// Store

#[test]
fn store_keeps_names_in_order_and_finds_them_in_any_case() {
    let mut store = Store::new();
    assert!(store.is_empty());
    assert!(store.insert("zeta".to_string(), single("z", &[])).is_none());
    assert!(store.insert("Alpha".to_string(), single("a", &[])).is_none());
    assert!(store.insert("beta".to_string(), single("b", &[])).is_none());
    assert_eq!(store.len(), 3);
    assert_eq!(store.entry(0).0, "Alpha");
    assert_eq!(store.entry(1).0, "beta");
    assert_eq!(store.entry(2).0, "zeta");
    assert_eq!(store.find_name("ALPHA"), Some("Alpha"));
    let (name, shortcut) = store.find("BeTa").unwrap();
    assert_eq!(name, "beta");
    assert_eq!(shortcut.commands[0].program, "b");
    assert_eq!(store.find_name("gamma"), None);
    let previous = store.insert("beta".to_string(), single("b2", &[])).unwrap();
    assert_eq!(previous.commands[0].program, "b");
    assert_eq!(store.len(), 3);
    assert_eq!(store.find("beta").unwrap().1.commands[0].program, "b2");
    let removed = store.remove("zeta").unwrap();
    assert_eq!(removed.commands[0].program, "z");
    assert!(store.remove("zeta").is_none());
    assert_eq!(store.find_name("zeta"), None);
}

#[test]
fn store_decisions_for_commands() {
    let mut store = Store::default();
    store.insert("build".to_string(), single("tool", &[]));
    assert_eq!(
        store.require_absent("BUILD").unwrap_err().message(),
        "shortcut 'BUILD' already exists; use `transfigure update BUILD -- ...`"
    );
    assert!(store.require_absent("other").is_ok());
    assert_eq!(store.stored_name("Build").unwrap(), "build");
    assert_eq!(
        store.stored_name("missing").unwrap_err().message(),
        "shortcut 'missing' does not exist"
    );
    assert_eq!(store.get("BUILD").unwrap().0, "build");
    assert!(store.get("nothing").is_err());
}

#[test]
fn store_validation_errors() {
    let mut store = Store::new();
    store.insert("Tool".to_string(), single("a", &[]));
    store.insert("tool".to_string(), single("b", &[]));
    assert_eq!(
        store.validate().unwrap_err().message(),
        "configuration contains duplicate shortcut name 'tool'"
    );

    let mut store = Store::new();
    store.insert(
        "empty".to_string(),
        Shortcut {
            commands: vec![],
            shell: None,
        },
    );
    assert_eq!(
        store.validate().unwrap_err().message(),
        "shortcut 'empty' has an invalid empty command"
    );

    let mut store = Store::new();
    store.insert("blank".to_string(), single("", &[]));
    assert_eq!(
        store.validate().unwrap_err().message(),
        "shortcut 'blank' has an invalid empty command"
    );

    let mut store = Store::new();
    store.insert("holder".to_string(), single("{2}", &[]));
    assert_eq!(
        store.validate().unwrap_err().message(),
        "shortcut 'holder' uses a placeholder as a program; placeholders are allowed only in arguments"
    );

    let mut store = Store::new();
    store.insert("args".to_string(), single("tool", &["{0}"]));
    assert_eq!(
        store.validate().unwrap_err().message(),
        "placeholder indexes start at {1}; {0} is invalid"
    );

    let mut store = Store::new();
    store.insert("fine".to_string(), single("tool", &["{1}", "{{2}}"]));
    assert!(store.validate().is_ok());
}

#[test]
fn unsupported_versions_are_refused() {
    let mut store = Store::new();
    store.version = 7;
    assert_eq!(
        store.check_loaded("/home/u/config.json").unwrap_err().message(),
        "unsupported configuration version 7 in /home/u/config.json; expected version 1"
    );
}

#[test]
fn listing_and_showing() {
    let store = Store::new();
    assert_eq!(store.listing(), ["No shortcuts configured."]);
    let mut store = Store::new();
    store.insert(
        "fetch".to_string(),
        Shortcut::parse(tokens(&["prepare", "--then", "yt-dlp", "-f", "best"]), true, None)
            .unwrap(),
    );
    store.insert("ls".to_string(), single("ls", &["-l"]));
    assert_eq!(
        store.listing(),
        ["fetch\tprepare -> yt-dlp -f best", "ls\tls -l"]
    );
    let (name, shortcut) = store.get("FETCH").unwrap();
    assert_eq!(
        shortcut_lines_of(name, shortcut),
        ["fetch", "  1: prepare", "  2: yt-dlp -f best"]
    );
}
