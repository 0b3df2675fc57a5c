//! Shortcut definitions: placeholders in arguments, single commands and
//! chains, how commands are shown, and portable shortcut names.

use vstd::prelude::*;

use crate::text::{
    all_digits, chars_of, digits_value, eq_ignore_ascii_case, eq_ignore_case, is_alnum,
    is_alnum_char, is_digit, is_digit_char, join, to_ascii_uppercase, upper, upper_seq,
};
use crate::{result_view, Error, Result, APP_NAME};

verus! {

// ---------------------------------------------------------------------------
// Argument templates
// ---------------------------------------------------------------------------

/// What an argument of a stored command stands for when the shortcut runs.
#[derive(Debug, PartialEq, Eq)]
pub enum ArgumentTemplate {
    /// The text itself (with `{{n}}` and `{{*}}` unescaped to `{n}` and `{*}`).
    Literal(String),
    /// The invocation argument with this zero-based index (`{n}` is index `n - 1`).
    Positional(usize),
    /// All invocation arguments (`{*}`).
    All,
}

/// The meaning of an argument template, with its text as a character sequence.
pub enum TemplateModel {
    Literal(Seq<char>),
    Positional(usize),
    All,
}

impl View for ArgumentTemplate {
    type V = TemplateModel;

    open spec fn view(&self) -> TemplateModel {
        match self {
            ArgumentTemplate::Literal(s) => TemplateModel::Literal(s@),
            ArgumentTemplate::Positional(i) => TemplateModel::Positional(*i),
            ArgumentTemplate::All => TemplateModel::All,
        }
    }
}

/// `{*}`
pub open spec fn is_all_placeholder(s: Seq<char>) -> bool {
    s =~= seq!['{', '*', '}']
}

/// `{{n}}` or `{{*}}`: a placeholder written with doubled braces, which stands
/// for the placeholder's own text.
pub open spec fn is_escaped_placeholder(s: Seq<char>) -> bool {
    &&& s.len() >= 4
    &&& s[0] == '{' && s[1] == '{'
    &&& s[s.len() - 2] == '}' && s[s.len() - 1] == '}'
    &&& {
        ||| is_all_placeholder(s.subrange(1, s.len() - 1))
        ||| (s.len() > 4 && all_digits(s.subrange(2, s.len() - 2)))
    }
}

/// `{n}` with `n` one or more decimal digits.
pub open spec fn is_numbered_placeholder(s: Seq<char>) -> bool {
    &&& s.len() >= 3
    &&& s[0] == '{'
    &&& s[s.len() - 1] == '}'
    &&& all_digits(s.subrange(1, s.len() - 1))
}

pub open spec fn invalid_number_message(s: Seq<char>) -> Seq<char> {
    "placeholder '"@ + s + "' has an invalid argument number"@
}

pub open spec fn zero_index_message() -> Seq<char> {
    "placeholder indexes start at {1}; {0} is invalid"@
}

/// The meaning of an argument, or the message of the error it gives.
pub open spec fn template_of(s: Seq<char>) -> std::result::Result<TemplateModel, Seq<char>> {
    if is_all_placeholder(s) {
        Ok(TemplateModel::All)
    } else if is_escaped_placeholder(s) {
        Ok(TemplateModel::Literal(s.subrange(1, s.len() - 1)))
    } else if is_numbered_placeholder(s) {
        let n = digits_value(s.subrange(1, s.len() - 1));
        if n > usize::MAX {
            Err(invalid_number_message(s))
        } else if n == 0 {
            Err(zero_index_message())
        } else {
            Ok(TemplateModel::Positional((n - 1) as usize))
        }
    } else {
        Ok(TemplateModel::Literal(s))
    }
}

/// `cs[lo..hi]` is non-empty and made of ASCII digits.
fn digits_between(cs: &Vec<char>, lo: usize, hi: usize) -> (r: bool)
    requires
        lo <= hi <= cs.len(),
    ensures
        r == (lo < hi && all_digits(cs@.subrange(lo as int, hi as int))),
{
    if lo == hi {
        return false;
    }
    let mut i = lo;
    while i < hi
        invariant
            lo <= i <= hi <= cs.len(),
            forall|j: int| lo <= j < i ==> is_digit(cs@[j]),
        decreases hi - i,
    {
        if !is_digit_char(cs[i]) {
            proof {
                assert(!is_digit(cs@.subrange(lo as int, hi as int)[i - lo]));
            }
            return false;
        }
        i = i + 1;
    }
    true
}

proof fn lemma_digits_value_prefix_grows(s: Seq<char>, k: int)
    requires
        0 <= k <= s.len(),
        all_digits(s),
    ensures
        digits_value(s.take(k)) <= digits_value(s),
    decreases s.len() - k,
{
    if k < s.len() {
        let t = s.take(k + 1);
        assert(t.drop_last() =~= s.take(k));
        lemma_digits_value_prefix_grows(s, k + 1);
    } else {
        assert(s.take(k) =~= s);
    }
}

/// The number written by the digits `cs[lo..hi]`, or `None` when it does not
/// fit in `usize`.
fn parse_digits(cs: &Vec<char>, lo: usize, hi: usize) -> (r: Option<usize>)
    requires
        lo <= hi <= cs.len(),
        all_digits(cs@.subrange(lo as int, hi as int)),
    ensures
        ({
            let n = digits_value(cs@.subrange(lo as int, hi as int));
            if n <= usize::MAX {
                r == Some(n as usize)
            } else {
                r is None
            }
        }),
{
    let ghost s = cs@.subrange(lo as int, hi as int);
    let mut v: usize = 0;
    let mut i = lo;
    while i < hi
        invariant
            lo <= i <= hi <= cs.len(),
            s == cs@.subrange(lo as int, hi as int),
            all_digits(s),
            v as nat == digits_value(s.take(i - lo)),
        decreases hi - i,
    {
        let c = cs[i];
        assert(is_digit(s[i - lo]));
        let d: usize = ((c as u32) - ('0' as u32)) as usize;
        assert(s.take(i - lo + 1).drop_last() =~= s.take(i - lo));
        assert(s.take(i - lo + 1).last() == c);
        if v > (usize::MAX - d) / 10 {
            proof {
                assert(digits_value(s.take(i - lo + 1)) == v * 10 + d);
                assert(v * 10 + d > usize::MAX) by (nonlinear_arith)
                    requires
                        v > (usize::MAX - d) / 10,
                        d <= 9,
                ;
                lemma_digits_value_prefix_grows(s, i - lo + 1);
            }
            return None;
        }
        assert(v * 10 + d <= usize::MAX) by (nonlinear_arith)
            requires
                v <= (usize::MAX - d) / 10,
                d <= 9,
        ;
        v = v * 10 + d;
        i = i + 1;
    }
    assert(s.take(i - lo) =~= s);
    Some(v)
}

/// Reads an argument of a stored command: `{*}` is every invocation argument,
/// `{n}` (n from 1) is invocation argument n, `{{n}}` and `{{*}}` are the
/// literal texts `{n}` and `{*}`, and everything else is literal text.
pub fn parse_argument_template(value: &str) -> (r: Result<ArgumentTemplate>)
    ensures
        result_view(r) == template_of(value@),
{
    let cs = chars_of(value);
    let n = cs.len();
    if n == 3 && cs[0] == '{' && cs[1] == '*' && cs[2] == '}' {
        return Ok(ArgumentTemplate::All);
    }
    proof {
        assert(!is_all_placeholder(value@));
    }
    if n >= 4 && cs[0] == '{' && cs[1] == '{' && cs[n - 2] == '}' && cs[n - 1] == '}' {
        let star = n == 5 && cs[2] == '*';
        assert(star == is_all_placeholder(value@.subrange(1, n - 1)));
        if star || digits_between(&cs, 2, n - 2) {
            let inner = value.substring_char(1, n - 1);
            return Ok(ArgumentTemplate::Literal(inner.to_owned()));
        }
    }
    proof {
        assert(!is_escaped_placeholder(value@));
    }
    if n >= 3 && cs[0] == '{' && cs[n - 1] == '}' && digits_between(&cs, 1, n - 1) {
        match parse_digits(&cs, 1, n - 1) {
            None => {
                let mut m = "placeholder '".to_owned();
                m.append(value);
                m.append("' has an invalid argument number");
                return Err(Error::msg(m));
            },
            Some(k) => {
                if k == 0 {
                    return Err(Error::msg("placeholder indexes start at {1}; {0} is invalid".to_owned()));
                }
                return Ok(ArgumentTemplate::Positional(k - 1));
            },
        }
    }
    Ok(ArgumentTemplate::Literal(value.to_owned()))
}

// ---------------------------------------------------------------------------
// Commands and shortcuts
// ---------------------------------------------------------------------------

/// The shell that a shortcut's commands run in, when they do not run directly.
#[derive(Debug, Clone, Copy, PartialEq, Eq, Structural)]
pub enum ShellKind {
    Auto,
    Powershell,
    Pwsh,
    Sh,
}

/// The name under which a shell kind is written.
pub open spec fn shell_kind_name(kind: ShellKind) -> Seq<char> {
    match kind {
        ShellKind::Auto => "auto"@,
        ShellKind::Powershell => "powershell"@,
        ShellKind::Pwsh => "pwsh"@,
        ShellKind::Sh => "sh"@,
    }
}

impl ShellKind {
    /// The name under which this shell kind is written.
    pub fn name(&self) -> (r: String)
        ensures
            r@ == shell_kind_name(*self),
    {
        match self {
            ShellKind::Auto => "auto".to_owned(),
            ShellKind::Powershell => "powershell".to_owned(),
            ShellKind::Pwsh => "pwsh".to_owned(),
            ShellKind::Sh => "sh".to_owned(),
        }
    }
}

impl Default for ShellKind {
    fn default() -> (r: ShellKind)
        ensures
            r == ShellKind::Auto,
    {
        ShellKind::Auto
    }
}

/// The views of a list of strings.
pub open spec fn views(v: Seq<String>) -> Seq<Seq<char>> {
    v.map_values(|s: String| s@)
}

/// One program with its argument templates.
#[derive(Debug, PartialEq, Eq)]
pub struct CommandSpec {
    pub program: String,
    pub args: Vec<String>,
}

pub struct CommandModel {
    pub program: Seq<char>,
    pub args: Seq<Seq<char>>,
}

impl View for CommandSpec {
    type V = CommandModel;

    open spec fn view(&self) -> CommandModel {
        CommandModel { program: self.program@, args: views(self.args@) }
    }
}

/// A named shortcut: the commands it runs in order, and the shell, if any,
/// that runs them.
#[derive(Debug, PartialEq, Eq)]
pub struct Shortcut {
    pub commands: Vec<CommandSpec>,
    pub shell: Option<ShellKind>,
}

pub struct ShortcutModel {
    pub commands: Seq<CommandModel>,
    pub shell: Option<ShellKind>,
}

/// The views of a list of commands.
pub open spec fn command_views(v: Seq<CommandSpec>) -> Seq<CommandModel> {
    v.map_values(|c: CommandSpec| c@)
}

impl View for Shortcut {
    type V = ShortcutModel;

    open spec fn view(&self) -> ShortcutModel {
        ShortcutModel { commands: command_views(self.commands@), shell: self.shell }
    }
}

/// The error of the first argument, from the left, that is no valid template.
pub open spec fn first_template_error(args: Seq<Seq<char>>) -> Option<Seq<char>>
    decreases args.len(),
{
    if args.len() == 0 {
        None
    } else {
        match first_template_error(args.drop_last()) {
            Some(e) => Some(e),
            None => match template_of(args.last()) {
                Err(e) => Some(e),
                Ok(_) => None,
            },
        }
    }
}

pub open spec fn needs_program_message() -> Seq<char> {
    "each command needs a program"@
}

pub open spec fn placeholder_program_message() -> Seq<char> {
    "placeholders are allowed only in command arguments, not the program name"@
}

/// The command that a list of tokens defines: the first token is the program,
/// which must be non-empty literal text; the others are its argument templates.
pub open spec fn command_of(tokens: Seq<Seq<char>>) -> std::result::Result<CommandModel, Seq<char>> {
    if tokens.len() == 0 || tokens[0].len() == 0 {
        Err(needs_program_message())
    } else {
        match template_of(tokens[0]) {
            Err(e) => Err(e),
            Ok(TemplateModel::Literal(_)) => match first_template_error(tokens.drop_first()) {
                Some(e) => Err(e),
                None => Ok(CommandModel { program: tokens[0], args: tokens.drop_first() }),
            },
            Ok(_) => Err(placeholder_program_message()),
        }
    }
}

/// The two strings are equal.
pub fn str_eq(a: &str, b: &str) -> (r: bool)
    ensures
        r == (a@ == b@),
{
    let x = chars_of(a);
    let y = chars_of(b);
    if x.len() != y.len() {
        return false;
    }
    let mut i: usize = 0;
    while i < x.len()
        invariant
            x@ == a@,
            y@ == b@,
            x.len() == y.len(),
            0 <= i <= x.len(),
            forall|j: int| 0 <= j < i ==> x@[j] == y@[j],
        decreases x.len() - i,
    {
        if x[i] != y[i] {
            return false;
        }
        i = i + 1;
    }
    assert(x@ =~= y@);
    true
}

/// The first argument template, from the left, that does not parse.
pub(crate) fn check_argument_templates(args: &Vec<String>, from: usize) -> (r: Result<()>)
    requires
        from <= args.len(),
    ensures
        match first_template_error(views(args@).skip(from as int)) {
            Some(e) => r matches Err(x) && x@ == e,
            None => r is Ok,
        },
{
    let ghost a = views(args@).skip(from as int);
    let mut i = from;
    while i < args.len()
        invariant
            from <= i <= args.len(),
            a == views(args@).skip(from as int),
            first_template_error(a.take(i - from)) is None,
        decreases args.len() - i,
    {
        let t = parse_argument_template(args[i].as_str());
        assert(a.take(i - from + 1).drop_last() =~= a.take(i - from));
        assert(a.take(i - from + 1).last() == args@[i as int]@);
        match t {
            Err(e) => {
                proof {
                    lemma_first_error_extends(a, i - from + 1);
                }
                return Err(e);
            },
            Ok(_) => {},
        }
        i = i + 1;
    }
    assert(a.take(i - from) =~= a);
    Ok(())
}

/// An error in a prefix is the error of the whole list.
proof fn lemma_first_error_extends(s: Seq<Seq<char>>, k: int)
    requires
        0 <= k <= s.len(),
        first_template_error(s.take(k)) is Some,
    ensures
        first_template_error(s) == first_template_error(s.take(k)),
    decreases s.len() - k,
{
    if k < s.len() {
        assert(s.take(k + 1).drop_last() =~= s.take(k));
        lemma_first_error_extends(s, k + 1);
    } else {
        assert(s.take(k) =~= s);
    }
}

/// Builds a command from its tokens: the first is the program, the rest are
/// its argument templates.
fn command_from_tokens(tokens: Vec<String>) -> (r: Result<CommandSpec>)
    ensures
        result_view(r) == command_of(views(tokens@)),
{
    let mut tokens = tokens;
    if tokens.len() == 0 || tokens[0].as_str().is_empty() {
        return Err(Error::msg("each command needs a program".to_owned()));
    }
    let ghost toks = views(tokens@);
    match parse_argument_template(tokens[0].as_str()) {
        Err(e) => {
            return Err(e);
        },
        Ok(ArgumentTemplate::Literal(_)) => {},
        Ok(_) => {
            return Err(
                Error::msg(
                    "placeholders are allowed only in command arguments, not the program name".to_owned(),
                ),
            );
        },
    }
    match check_argument_templates(&tokens, 1) {
        Err(e) => {
            assert(views(tokens@).skip(1) =~= toks.drop_first());
            return Err(e);
        },
        Ok(()) => {},
    }
    let program = tokens.remove(0);
    proof {
        assert(views(tokens@) =~= toks.drop_first());
    }
    Ok(CommandSpec { program, args: tokens })
}

pub open spec fn definition_required_message() -> Seq<char> {
    "a command definition is required"@
}

pub open spec fn empty_step_message() -> Seq<char> {
    "each chain step must contain a program"@
}

pub open spec fn dangling_literal_message() -> Seq<char> {
    "`--literal` must be followed by a value"@
}

pub open spec fn chain_end_message() -> Seq<char> {
    "a chain cannot end with `--then` or an empty step"@
}

pub open spec fn chain_too_short_message() -> Seq<char> {
    "`--chain` requires at least two commands separated by `--then`"@
}

/// The token that ends one step of a chain.
pub open spec fn then_token() -> Seq<char> {
    "--then"@
}

/// The token that makes the next token part of the current step, whatever it is.
pub open spec fn literal_token() -> Seq<char> {
    "--literal"@
}

/// Reads a chain from token `i` on, given the commands already finished and
/// the tokens of the step being read: `--then` closes the current step,
/// `--literal` adds the token after it to the step, any other token is added
/// to the step. At the end the last step is closed, and at least two commands
/// must have been read.
pub open spec fn chain_from(
    tokens: Seq<Seq<char>>,
    i: int,
    commands: Seq<CommandModel>,
    current: Seq<Seq<char>>,
) -> std::result::Result<Seq<CommandModel>, Seq<char>>
    decreases tokens.len() - i,
{
    if i < 0 || i >= tokens.len() {
        if current.len() == 0 {
            Err(chain_end_message())
        } else {
            match command_of(current) {
                Err(e) => Err(e),
                Ok(c) => if commands.len() + 1 < 2 {
                    Err(chain_too_short_message())
                } else {
                    Ok(commands.push(c))
                },
            }
        }
    } else if tokens[i] == then_token() {
        if current.len() == 0 {
            Err(empty_step_message())
        } else {
            match command_of(current) {
                Err(e) => Err(e),
                Ok(c) => chain_from(tokens, i + 1, commands.push(c), Seq::empty()),
            }
        }
    } else if tokens[i] == literal_token() {
        if i + 1 >= tokens.len() {
            Err(dangling_literal_message())
        } else {
            chain_from(tokens, i + 2, commands, current.push(tokens[i + 1]))
        }
    } else {
        chain_from(tokens, i + 1, commands, current.push(tokens[i]))
    }
}

/// The shortcut that a definition describes. Without `chain` all tokens form
/// one command, `--then` included; with it the tokens form a chain.
pub open spec fn shortcut_of(
    tokens: Seq<Seq<char>>,
    chain: bool,
    shell: Option<ShellKind>,
) -> std::result::Result<ShortcutModel, Seq<char>> {
    if tokens.len() == 0 {
        Err(definition_required_message())
    } else if !chain {
        match command_of(tokens) {
            Err(e) => Err(e),
            Ok(c) => Ok(ShortcutModel { commands: seq![c], shell }),
        }
    } else {
        match chain_from(tokens, 0, Seq::empty(), Seq::empty()) {
            Err(e) => Err(e),
            Ok(cs) => Ok(ShortcutModel { commands: cs, shell }),
        }
    }
}

impl Shortcut {
    /// Reads a shortcut definition.
    pub fn parse(tokens: Vec<String>, chain: bool, shell: Option<ShellKind>) -> (r: Result<Shortcut>)
        ensures
            result_view(r) == shortcut_of(views(tokens@), chain, shell),
    {
        if tokens.len() == 0 {
            return Err(Error::msg("a command definition is required".to_owned()));
        }
        if !chain {
            let c = command_from_tokens(tokens)?;
            let mut commands: Vec<CommandSpec> = Vec::new();
            commands.push(c);
            proof {
                assert(command_views(commands@) =~= seq![commands@[0]@]);
            }
            return Ok(Shortcut { commands, shell });
        }
        let ghost toks = views(tokens@);
        let mut commands: Vec<CommandSpec> = Vec::new();
        let mut current: Vec<String> = Vec::new();
        let mut i: usize = 0;
        proof {
            assert(command_views(commands@) =~= Seq::<CommandModel>::empty());
            assert(views(current@) =~= Seq::<Seq<char>>::empty());
        }
        while i < tokens.len()
            invariant
                toks == views(tokens@),
                chain,
                tokens.len() > 0,
                i <= tokens.len(),
                chain_from(toks, 0, Seq::empty(), Seq::empty()) == chain_from(
                    toks,
                    i as int,
                    command_views(commands@),
                    views(current@),
                ),
            decreases tokens.len() - i,
        {
            let ghost before_commands = command_views(commands@);
            let ghost before_current = views(current@);
            assert(toks[i as int] == tokens@[i as int]@);
            if str_eq(tokens[i].as_str(), "--then") {
                if current.len() == 0 {
                    return Err(Error::msg("each chain step must contain a program".to_owned()));
                }
                let mut step: Vec<String> = Vec::new();
                std::mem::swap(&mut step, &mut current);
                let c = command_from_tokens(step)?;
                commands.push(c);
                proof {
                    assert(command_views(commands@) =~= before_commands.push(c@));
                    assert(views(current@) =~= Seq::<Seq<char>>::empty());
                }
                i = i + 1;
            } else if str_eq(tokens[i].as_str(), "--literal") {
                if i + 1 >= tokens.len() {
                    return Err(Error::msg("`--literal` must be followed by a value".to_owned()));
                }
                let literal = tokens[i + 1].clone();
                current.push(literal);
                proof {
                    assert(views(current@) =~= before_current.push(toks[i + 1]));
                }
                i = i + 2;
            } else {
                let token = tokens[i].clone();
                current.push(token);
                proof {
                    assert(views(current@) =~= before_current.push(toks[i as int]));
                }
                i = i + 1;
            }
        }
        if current.len() == 0 {
            return Err(Error::msg("a chain cannot end with `--then` or an empty step".to_owned()));
        }
        let ghost before_commands = command_views(commands@);
        let c = command_from_tokens(current)?;
        commands.push(c);
        proof {
            assert(command_views(commands@) =~= before_commands.push(c@));
        }
        if commands.len() < 2 {
            return Err(
                Error::msg("`--chain` requires at least two commands separated by `--then`".to_owned()),
            );
        }
        Ok(Shortcut { commands, shell })
    }
}

// ---------------------------------------------------------------------------
// Display
// ---------------------------------------------------------------------------

/// What `<str as Debug>::fmt` writes for a string: the string between double
/// quotes, with quotes, backslashes and non-printable characters escaped.
pub uninterp spec fn debug_quoted(s: Seq<char>) -> Seq<char>;

/// Formats a string with `<str as Debug>::fmt` (`format!("{:?}", value)`).
/// Trusted: the result is `debug_quoted` of the argument, a function of the
/// argument alone; nothing else is said of the escaping rules of std.
#[verifier::external_body]
fn debug_string(value: &str) -> (r: String)
    ensures
        r@ == debug_quoted(value@),
{
    format!("{:?}", value)
}

/// A character that a displayed command shows without quoting.
pub open spec fn is_plain_char(c: char) -> bool {
    is_alnum(c) || c == '-' || c == '_' || c == '.' || c == '/' || c == ':' || c == '='
        || c == '+' || c == '@'
}

/// A non-empty string of plain characters.
pub open spec fn is_plain(s: Seq<char>) -> bool {
    s.len() > 0 && forall|i: int| 0 <= i < s.len() ==> is_plain_char(#[trigger] s[i])
}

/// How a command shows one of its words: plain words as they are, all other
/// words quoted and escaped as Rust writes a string literal.
pub open spec fn quoted(s: Seq<char>) -> Seq<char> {
    if is_plain(s) {
        s
    } else {
        debug_quoted(s)
    }
}

/// How a command is shown: its program and arguments, each quoted when
/// needed, separated by single spaces.
pub open spec fn command_display(c: CommandModel) -> Seq<char> {
    join(seq![c.program].add(c.args).map_values(|w: Seq<char>| quoted(w)), " "@)
}

/// How a shortcut is summarized: its commands joined by ` -> `, after
/// `[shell:NAME] ` when it runs in a shell.
pub open spec fn shortcut_summary(s: ShortcutModel) -> Seq<char> {
    let commands = join(s.commands.map_values(|c: CommandModel| command_display(c)), " -> "@);
    match s.shell {
        Some(k) => "[shell:"@ + shell_kind_name(k) + "] "@ + commands,
        None => commands,
    }
}

fn is_plain_char_exec(c: char) -> (r: bool)
    ensures
        r == is_plain_char(c),
{
    is_alnum_char(c) || c == '-' || c == '_' || c == '.' || c == '/' || c == ':' || c == '='
        || c == '+' || c == '@'
}

/// Shows one word of a command.
fn quote(value: &str) -> (r: String)
    ensures
        r@ == quoted(value@),
{
    let cs = chars_of(value);
    let mut plain = cs.len() > 0;
    let mut i: usize = 0;
    while i < cs.len()
        invariant
            cs@ == value@,
            0 <= i <= cs.len(),
            plain == (cs.len() > 0 && forall|j: int| 0 <= j < i ==> is_plain_char(#[trigger] cs@[j])),
        decreases cs.len() - i,
    {
        if !is_plain_char_exec(cs[i]) {
            plain = false;
        }
        i = i + 1;
    }
    if plain {
        value.to_owned()
    } else {
        debug_string(value)
    }
}

/// Joining one more item adds the separator and the item, unless the list was empty.
proof fn lemma_join_push(list: Seq<Seq<char>>, sep: Seq<char>, item: Seq<char>)
    ensures
        join(list.push(item), sep) == if list.len() == 0 {
            item
        } else {
            join(list, sep) + sep + item
        },
{
    assert(list.push(item).drop_last() =~= list);
    if list.len() == 0 {
        assert(list.push(item).len() == 1);
    }
}

impl CommandSpec {
    /// The command as one line: program and arguments, quoted when needed.
    pub fn display(&self) -> (r: String)
        ensures
            r@ == command_display(self@),
    {
        let ghost words = seq![self.program@].add(views(self.args@));
        let ghost shown = words.map_values(|w: Seq<char>| quoted(w));
        let mut out = quote(self.program.as_str());
        proof {
            lemma_join_push(Seq::empty(), " "@, quoted(self.program@));
            assert(shown.take(1) =~= Seq::<Seq<char>>::empty().push(quoted(self.program@)));
        }
        let mut i: usize = 0;
        while i < self.args.len()
            invariant
                0 <= i <= self.args.len(),
                words == seq![self.program@].add(views(self.args@)),
                shown == words.map_values(|w: Seq<char>| quoted(w)),
                out@ == join(shown.take(i + 1), " "@),
            decreases self.args.len() - i,
        {
            let q = quote(self.args[i].as_str());
            out.append(" ");
            out.append(q.as_str());
            proof {
                assert(shown[i + 1] == quoted(self.args@[i as int]@));
                assert(shown.take(i + 2) =~= shown.take(i + 1).push(shown[i + 1]));
                lemma_join_push(shown.take(i + 1), " "@, shown[i + 1]);
            }
            i = i + 1;
        }
        proof {
            assert(shown.take(i + 1) =~= shown);
        }
        out
    }
}

impl Shortcut {
    /// One line describing the shortcut.
    pub fn summary(&self) -> (r: String)
        ensures
            r@ == shortcut_summary(self@),
    {
        let ghost shown = command_views(self.commands@).map_values(
            |c: CommandModel| command_display(c),
        );
        let mut commands = String::new();
        let mut i: usize = 0;
        proof {
            assert(shown.take(0) =~= Seq::<Seq<char>>::empty());
        }
        while i < self.commands.len()
            invariant
                0 <= i <= self.commands.len(),
                shown == command_views(self.commands@).map_values(
                    |c: CommandModel| command_display(c),
                ),
                commands@ == join(shown.take(i as int), " -> "@),
            decreases self.commands.len() - i,
        {
            let d = self.commands[i].display();
            if i > 0 {
                commands.append(" -> ");
            }
            commands.append(d.as_str());
            proof {
                assert(shown[i as int] == command_display(self.commands@[i as int]@));
                assert(shown.take(i + 1) =~= shown.take(i as int).push(shown[i as int]));
                lemma_join_push(shown.take(i as int), " -> "@, shown[i as int]);
            }
            i = i + 1;
        }
        proof {
            assert(shown.take(i as int) =~= shown);
        }
        match self.shell {
            Some(k) => {
                let mut out = "[shell:".to_owned();
                let name = k.name();
                out.append(name.as_str());
                out.append("] ");
                out.append(commands.as_str());
                out
            },
            None => commands,
        }
    }
}

// ---------------------------------------------------------------------------
// Shortcut names
// ---------------------------------------------------------------------------

/// A character allowed in a shortcut name.
pub open spec fn is_name_char(c: char) -> bool {
    is_alnum(c) || c == '-' || c == '_' || c == '.'
}

/// 1 to 64 ASCII letters, digits, `.`, `-` or `_`, starting with a letter or
/// a digit and not ending with `.`.
pub open spec fn is_well_formed_name(s: Seq<char>) -> bool {
    &&& 1 <= s.len() <= 64
    &&& is_alnum(s[0])
    &&& forall|i: int| 0 <= i < s.len() ==> is_name_char(#[trigger] s[i])
    &&& s.last() != '.'
}

/// The part of a name before its first `.`.
pub open spec fn stem(s: Seq<char>) -> Seq<char>
    decreases s.len(),
{
    if s.len() == 0 {
        s
    } else if s[0] == '.' {
        Seq::empty()
    } else {
        seq![s[0]] + stem(s.drop_first())
    }
}

/// An upper-cased stem that Windows reserves for devices: CON, PRN, AUX, NUL,
/// and COM1 to COM9 and LPT1 to LPT9.
pub open spec fn is_device_name(u: Seq<char>) -> bool {
    ||| u =~= seq!['C', 'O', 'N']
    ||| u =~= seq!['P', 'R', 'N']
    ||| u =~= seq!['A', 'U', 'X']
    ||| u =~= seq!['N', 'U', 'L']
    ||| {
        &&& u.len() == 4
        &&& (u.take(3) =~= seq!['C', 'O', 'M'] || u.take(3) =~= seq!['L', 'P', 'T'])
        &&& is_digit(u[3])
        &&& u[3] != '0'
    }
}

/// A well-formed name that may still not be used: the program's own name, in
/// any case, or a Windows device name.
pub open spec fn is_reserved_name(s: Seq<char>) -> bool {
    eq_ignore_case(s, APP_NAME@) || is_device_name(upper_seq(stem(s)))
}

pub open spec fn invalid_name_message(s: Seq<char>) -> Seq<char> {
    "invalid shortcut name '"@ + s
        + "'; use 1-64 ASCII letters, numbers, '.', '-', or '_', starting with a letter or number"@
}

pub open spec fn reserved_name_message(s: Seq<char>) -> Seq<char> {
    "shortcut name '"@ + s + "' is reserved"@
}

/// Whether a name can be a shortcut's name, and if not, why.
pub open spec fn name_check(s: Seq<char>) -> std::result::Result<(), Seq<char>> {
    if !is_well_formed_name(s) {
        Err(invalid_name_message(s))
    } else if is_reserved_name(s) {
        Err(reserved_name_message(s))
    } else {
        Ok(())
    }
}

proof fn lemma_stem_is_prefix(s: Seq<char>, k: int)
    requires
        0 <= k <= s.len(),
        forall|j: int| 0 <= j < k ==> s[j] != '.',
        k == s.len() || s[k] == '.',
    ensures
        stem(s) == s.take(k),
    decreases k,
{
    if k == 0 {
        if s.len() > 0 {
            assert(s[0] == '.');
        }
        assert(s.take(0) =~= Seq::<char>::empty());
        if s.len() == 0 {
            assert(s =~= Seq::<char>::empty());
        }
    } else {
        let t = s.drop_first();
        assert forall|j: int| 0 <= j < k - 1 implies t[j] != '.' by {
            assert(t[j] == s[j + 1]);
        }
        lemma_stem_is_prefix(t, k - 1);
        assert(s.take(k) =~= seq![s[0]] + t.take(k - 1));
    }
}

fn is_name_char_exec(c: char) -> (r: bool)
    ensures
        r == is_name_char(c),
{
    is_alnum_char(c) || c == '-' || c == '_' || c == '.'
}

/// Windows device names are refused in any case and with any extension: a
/// well-formed name whose part before the first `.` is CON, PRN, AUX, NUL,
/// COM1 to COM9 or LPT1 to LPT9, ignoring ASCII case, is reserved.
pub proof fn law_device_names_are_reserved(d: Seq<char>, rest: Seq<char>)
    requires
        is_well_formed_name(d + rest),
        rest.len() == 0 || rest[0] == '.',
        ({
            let u = upper_seq(d);
            ||| u == seq!['C', 'O', 'N']
            ||| u == seq!['P', 'R', 'N']
            ||| u == seq!['A', 'U', 'X']
            ||| u == seq!['N', 'U', 'L']
            ||| (u.len() == 4 && ((u[0] == 'C' && u[1] == 'O' && u[2] == 'M') || (u[0] == 'L'
                && u[1] == 'P' && u[2] == 'T')) && '1' <= u[3] && u[3] <= '9')
        }),
    ensures
        name_check(d + rest) == Err::<(), Seq<char>>(
            "shortcut name '"@ + (d + rest) + "' is reserved"@,
        ),
{
    let s = d + rest;
    let u = upper_seq(d);
    assert forall|j: int| 0 <= j < d.len() implies s[j] != '.' by {
        assert(s[j] == d[j]);
        assert(u[j] == upper(d[j]));
    }
    lemma_stem_is_prefix(s, d.len() as int);
    assert(s.take(d.len() as int) =~= d);
    if u.len() == 4 {
        assert(u.take(3) =~= seq![u[0], u[1], u[2]]);
    }
    assert(is_device_name(u));
}

/// Checks that a shortcut name is portable and not reserved.
pub fn validate_name(name: &str) -> (r: Result<()>)
    ensures
        result_view(r) == name_check(name@),
{
    let cs = chars_of(name);
    let n = cs.len();
    let mut valid = 1 <= n && n <= 64 && is_alnum_char(cs[0]) && cs[n - 1] != '.';
    let mut i: usize = 0;
    while i < n
        invariant
            cs@ == name@,
            n == cs.len(),
            0 <= i <= n,
            valid == (1 <= n <= 64 && is_alnum(cs@[0]) && cs@[n - 1] != '.' && forall|j: int|
                0 <= j < i ==> is_name_char(#[trigger] cs@[j])),
        decreases n - i,
    {
        if !is_name_char_exec(cs[i]) {
            valid = false;
        }
        i = i + 1;
    }
    if !valid {
        let mut m = "invalid shortcut name '".to_owned();
        m.append(name);
        m.append(
            "'; use 1-64 ASCII letters, numbers, '.', '-', or '_', starting with a letter or number",
        );
        return Err(Error::msg(m));
    }
    let mut k: usize = 0;
    while k < n && cs[k] != '.'
        invariant
            cs@ == name@,
            n == cs.len(),
            0 <= k <= n,
            forall|j: int| 0 <= j < k ==> cs@[j] != '.',
        decreases n - k,
    {
        k = k + 1;
    }
    proof {
        lemma_stem_is_prefix(name@, k as int);
    }
    let st = name.substring_char(0, k);
    let u = to_ascii_uppercase(st);
    let uc = chars_of(u.as_str());
    let device = (uc.len() == 3 && ((uc[0] == 'C' && uc[1] == 'O' && uc[2] == 'N') || (uc[0] == 'P'
        && uc[1] == 'R' && uc[2] == 'N') || (uc[0] == 'A' && uc[1] == 'U' && uc[2] == 'X') || (uc[0]
        == 'N' && uc[1] == 'U' && uc[2] == 'L'))) || (uc.len() == 4 && ((uc[0] == 'C' && uc[1]
        == 'O' && uc[2] == 'M') || (uc[0] == 'L' && uc[1] == 'P' && uc[2] == 'T')) && is_digit_char(
        uc[3],
    ) && uc[3] != '0');
    proof {
        let v = upper_seq(stem(name@));
        assert(uc@ == v);
        if uc.len() == 4 {
            assert(v.take(3) =~= seq![v[0], v[1], v[2]]);
        }
        assert(device == is_device_name(v));
    }
    if eq_ignore_ascii_case(name, APP_NAME) || device {
        let mut m = "shortcut name '".to_owned();
        m.append(name);
        m.append("' is reserved");
        return Err(Error::msg(m));
    }
    Ok(())
}

// ---------------------------------------------------------------------------
// Laws of definitions
// ---------------------------------------------------------------------------

/// Doubling the braces of a placeholder gives the placeholder's own text as a
/// literal argument: `{{n}}` stands for `{n}` and `{{*}}` for `{*}`.
pub proof fn law_doubled_braces_are_literal(s: Seq<char>)
    requires
        is_all_placeholder(s) || is_numbered_placeholder(s),
    ensures
        template_of(seq!['{'] + s + seq!['}']) == Ok::<TemplateModel, Seq<char>>(
            TemplateModel::Literal(s),
        ),
{
    let t = seq!['{'] + s + seq!['}'];
    assert(t.subrange(1, t.len() - 1) =~= s);
    if is_numbered_placeholder(s) {
        assert(t.subrange(2, t.len() - 2) =~= s.subrange(1, s.len() - 1));
    }
    assert(!is_all_placeholder(t));
}

/// Without `--chain` every token after the first is an argument of the one
/// command, `--then` and `--literal` included.
pub proof fn law_single_command_keeps_every_token(tokens: Seq<Seq<char>>, shell: Option<ShellKind>)
    requires
        command_of(tokens) is Ok,
    ensures
        shortcut_of(tokens, false, shell) == Ok::<ShortcutModel, Seq<char>>(
            ShortcutModel {
                commands: seq![CommandModel { program: tokens[0], args: tokens.drop_first() }],
                shell,
            },
        ),
{
}

/// The tokens that stand for one word inside a chain: `--then` and
/// `--literal` behind `--literal`, any other word alone.
pub open spec fn escape_token(t: Seq<char>) -> Seq<Seq<char>> {
    if t == then_token() || t == literal_token() {
        seq![literal_token(), t]
    } else {
        seq![t]
    }
}

/// The tokens that stand for a list of words inside a chain.
pub open spec fn escape_tokens(ts: Seq<Seq<char>>) -> Seq<Seq<char>>
    decreases ts.len(),
{
    if ts.len() == 0 {
        Seq::empty()
    } else {
        escape_token(ts[0]) + escape_tokens(ts.drop_first())
    }
}

/// The words of a command: its program, then its arguments.
pub open spec fn command_words(c: CommandModel) -> Seq<Seq<char>> {
    seq![c.program] + c.args
}

/// The steps of a chain after its first, each behind `--then`.
pub open spec fn chain_tail(cs: Seq<CommandModel>) -> Seq<Seq<char>>
    decreases cs.len(),
{
    if cs.len() == 0 {
        Seq::empty()
    } else {
        seq![then_token()] + escape_tokens(command_words(cs[0])) + chain_tail(cs.drop_first())
    }
}

/// A chain definition that writes the given commands.
pub open spec fn chain_definition(cs: Seq<CommandModel>) -> Seq<Seq<char>> {
    escape_tokens(command_words(cs[0])) + chain_tail(cs.drop_first())
}

proof fn lemma_escape_tokens_len(ts: Seq<Seq<char>>)
    ensures
        escape_tokens(ts).len() >= ts.len(),
    decreases ts.len(),
{
    if ts.len() > 0 {
        lemma_escape_tokens_len(ts.drop_first());
    }
}

proof fn lemma_then_not_literal()
    ensures
        then_token() != literal_token(),
{
    reveal_strlit("--then");
    reveal_strlit("--literal");
    assert(then_token().len() != literal_token().len());
}

/// A window of a sequence that holds `a + b` holds `a`, then `b`.
proof fn lemma_window_split(all: Seq<Seq<char>>, i: int, a: Seq<Seq<char>>, b: Seq<Seq<char>>)
    requires
        0 <= i,
        i + a.len() + b.len() <= all.len(),
        all.subrange(i, i + a.len() + b.len()) == a + b,
    ensures
        all.subrange(i, i + a.len()) == a,
        all.subrange(i + a.len(), i + a.len() + b.len()) == b,
{
    assert forall|k: int| 0 <= k < a.len() implies all[i + k] == a[k] by {
        assert(all.subrange(i, i + a.len() + b.len())[k] == (a + b)[k]);
    }
    assert forall|k: int| 0 <= k < b.len() implies all[i + a.len() + k] == b[k] by {
        assert(all.subrange(i, i + a.len() + b.len())[a.len() + k] == (a + b)[a.len() + k]);
    }
    assert(all.subrange(i, i + a.len()) =~= a);
    assert(all.subrange(i + a.len(), i + a.len() + b.len()) =~= b);
}

/// Reading escaped words adds exactly those words to the current step.
proof fn lemma_read_escaped(
    all: Seq<Seq<char>>,
    i: int,
    ts: Seq<Seq<char>>,
    commands: Seq<CommandModel>,
    current: Seq<Seq<char>>,
)
    requires
        0 <= i,
        i + escape_tokens(ts).len() <= all.len(),
        all.subrange(i, i + escape_tokens(ts).len()) == escape_tokens(ts),
    ensures
        chain_from(all, i, commands, current) == chain_from(
            all,
            i + escape_tokens(ts).len(),
            commands,
            current + ts,
        ),
    decreases ts.len(),
{
    if ts.len() == 0 {
        assert(current + ts =~= current);
    } else {
        let head = escape_token(ts[0]);
        let rest = ts.drop_first();
        assert(escape_tokens(ts) == head + escape_tokens(rest));
        lemma_escape_tokens_len(rest);
        lemma_window_split(all, i, head, escape_tokens(rest));
        lemma_read_escaped(all, i + head.len(), rest, commands, current.push(ts[0]));
        assert(current.push(ts[0]) + rest =~= current + ts);
        lemma_then_not_literal();
        if ts[0] == then_token() || ts[0] == literal_token() {
            assert(all[i] == escape_tokens(ts)[0]);
            assert(all[i + 1] == escape_tokens(ts)[1]);
        } else {
            assert(all[i] == escape_tokens(ts)[0]);
        }
    }
}

/// Reading the rest of a chain whose current step holds a valid command.
proof fn lemma_read_chain_tail(
    all: Seq<Seq<char>>,
    i: int,
    cs: Seq<CommandModel>,
    commands: Seq<CommandModel>,
    current: Seq<Seq<char>>,
    c: CommandModel,
)
    requires
        0 <= i <= all.len(),
        all.subrange(i, all.len() as int) == chain_tail(cs),
        current.len() > 0,
        command_of(current) == Ok::<CommandModel, Seq<char>>(c),
        forall|k: int| 0 <= k < cs.len() ==> command_of(command_words(#[trigger] cs[k])) == Ok::<
            CommandModel,
            Seq<char>,
        >(cs[k]),
        commands.len() + 1 + cs.len() >= 2,
    ensures
        chain_from(all, i, commands, current) == Ok::<Seq<CommandModel>, Seq<char>>(
            commands.push(c) + cs,
        ),
    decreases cs.len(),
{
    if cs.len() == 0 {
        assert(commands.push(c) + cs =~= commands.push(c));
    } else {
        let words = command_words(cs[0]);
        let esc = escape_tokens(words);
        let rest = cs.drop_first();
        lemma_escape_tokens_len(words);
        assert(chain_tail(cs) == seq![then_token()] + esc + chain_tail(rest));
        assert(all[i] == chain_tail(cs)[0]);
        lemma_window_split(all, i, seq![then_token()] + esc, chain_tail(rest));
        lemma_window_split(all, i, seq![then_token()], esc);
        lemma_read_escaped(all, i + 1, words, commands.push(c), Seq::empty());
        assert(Seq::<Seq<char>>::empty() + words =~= words);
        assert(command_of(words) == Ok::<CommandModel, Seq<char>>(cs[0]));
        assert forall|k: int| 0 <= k < rest.len() implies command_of(
            command_words(#[trigger] rest[k]),
        ) == Ok::<CommandModel, Seq<char>>(rest[k]) by {
            assert(rest[k] == cs[k + 1]);
        }
        lemma_read_chain_tail(all, i + 1 + esc.len(), rest, commands.push(c), words, cs[0]);
        assert(commands.push(c).push(cs[0]) + rest =~= commands.push(c) + cs);
    }
}

/// Reading the steps of a chain tail, when more tokens may follow: every
/// step but the last is finished, and the last one is the current step.
proof fn lemma_read_steps(
    all: Seq<Seq<char>>,
    i: int,
    cs: Seq<CommandModel>,
    commands: Seq<CommandModel>,
    current: Seq<Seq<char>>,
    c: CommandModel,
)
    requires
        0 <= i,
        i + chain_tail(cs).len() <= all.len(),
        all.subrange(i, i + chain_tail(cs).len()) == chain_tail(cs),
        cs.len() > 0,
        current.len() > 0,
        command_of(current) == Ok::<CommandModel, Seq<char>>(c),
        forall|k: int| 0 <= k < cs.len() ==> command_of(command_words(#[trigger] cs[k])) == Ok::<
            CommandModel,
            Seq<char>,
        >(cs[k]),
    ensures
        chain_from(all, i, commands, current) == chain_from(
            all,
            i + chain_tail(cs).len(),
            commands.push(c) + cs.drop_last(),
            command_words(cs.last()),
        ),
    decreases cs.len(),
{
    let words = command_words(cs[0]);
    let esc = escape_tokens(words);
    let rest = cs.drop_first();
    lemma_escape_tokens_len(words);
    assert(chain_tail(cs) == seq![then_token()] + esc + chain_tail(rest));
    lemma_window_split(all, i, seq![then_token()] + esc, chain_tail(rest));
    lemma_window_split(all, i, seq![then_token()], esc);
    assert(all.subrange(i, i + 1)[0] == all[i]);
    assert(all[i] == then_token());
    lemma_read_escaped(all, i + 1, words, commands.push(c), Seq::empty());
    assert(Seq::<Seq<char>>::empty() + words =~= words);
    assert(command_of(words) == Ok::<CommandModel, Seq<char>>(cs[0]));
    if rest.len() == 0 {
        assert(cs.drop_last() =~= Seq::<CommandModel>::empty());
        assert(commands.push(c) + cs.drop_last() =~= commands.push(c));
        assert(chain_tail(rest) =~= Seq::<Seq<char>>::empty());
    } else {
        assert forall|k: int| 0 <= k < rest.len() implies command_of(
            command_words(#[trigger] rest[k]),
        ) == Ok::<CommandModel, Seq<char>>(rest[k]) by {
            assert(rest[k] == cs[k + 1]);
        }
        lemma_read_steps(all, i + 1 + esc.len(), rest, commands.push(c), words, cs[0]);
        assert(commands.push(c).push(cs[0]) + rest.drop_last() =~= commands.push(c)
            + cs.drop_last());
        assert(rest.last() == cs.last());
    }
}

/// Every step of a chain must hold a program: a `--then` that would close
/// an empty step makes the definition fail, whether it comes first or right
/// after the `--then` that ends any steps written before it.
pub proof fn law_empty_chain_step_is_refused(
    cs: Seq<CommandModel>,
    rest: Seq<Seq<char>>,
    shell: Option<ShellKind>,
)
    requires
        cs.len() >= 1,
        forall|k: int| 0 <= k < cs.len() ==> command_of(command_words(#[trigger] cs[k])) == Ok::<
            CommandModel,
            Seq<char>,
        >(cs[k]),
    ensures
        shortcut_of(seq!["--then"@] + rest, true, shell) == Err::<ShortcutModel, Seq<char>>(
            "each chain step must contain a program"@,
        ),
        shortcut_of(chain_definition(cs) + seq!["--then"@, "--then"@] + rest, true, shell)
            == Err::<ShortcutModel, Seq<char>>("each chain step must contain a program"@),
{
    let first = seq!["--then"@] + rest;
    assert(first[0] == then_token());
    let all = chain_definition(cs) + seq!["--then"@, "--then"@] + rest;
    let words = command_words(cs[0]);
    let esc = escape_tokens(words);
    let others = cs.drop_first();
    let def = chain_definition(cs);
    lemma_escape_tokens_len(words);
    assert(def == esc + chain_tail(others));
    assert(all.subrange(0, esc.len() as int) =~= esc);
    lemma_read_escaped(all, 0, words, Seq::empty(), Seq::empty());
    assert(Seq::<Seq<char>>::empty() + words =~= words);
    assert(command_of(words) == Ok::<CommandModel, Seq<char>>(cs[0]));
    let n = def.len() as int;
    assert(all[n] == then_token());
    assert(all[n + 1] == then_token());
    let empty = Seq::<Seq<char>>::empty();
    if others.len() == 0 {
        assert(chain_tail(others) =~= Seq::<Seq<char>>::empty());
        assert(esc.len() == n);
        let cmds = Seq::<CommandModel>::empty();
        assert(chain_from(all, n + 1, cmds.push(cs[0]), empty) == Err::<
            Seq<CommandModel>,
            Seq<char>,
        >(empty_step_message()));
        assert(chain_from(all, n, cmds, words) == chain_from(all, n + 1, cmds.push(cs[0]), empty));
    } else {
        assert(all.subrange(esc.len() as int, n) =~= chain_tail(others));
        assert forall|k: int| 0 <= k < others.len() implies command_of(
            command_words(#[trigger] others[k]),
        ) == Ok::<CommandModel, Seq<char>>(others[k]) by {
            assert(others[k] == cs[k + 1]);
        }
        lemma_read_steps(all, esc.len() as int, others, Seq::empty(), words, cs[0]);
        let last = command_words(others.last());
        assert(last.len() > 0);
        assert(command_of(last) == Ok::<CommandModel, Seq<char>>(others.last()));
        let cmds = Seq::<CommandModel>::empty().push(cs[0]) + others.drop_last();
        assert(chain_from(all, n + 1, cmds.push(others.last()), empty) == Err::<
            Seq<CommandModel>,
            Seq<char>,
        >(empty_step_message()));
        assert(chain_from(all, n, cmds, last) == chain_from(
            all,
            n + 1,
            cmds.push(others.last()),
            empty,
        ));
    }
    assert(all.len() > 0);
}

/// A chain written with `--then` between its commands, and `--literal`
/// before every word that is `--then` or `--literal`, reads back as exactly
/// those commands.
pub proof fn law_chain_definition_reads_back(cs: Seq<CommandModel>, shell: Option<ShellKind>)
    requires
        cs.len() >= 2,
        forall|k: int| 0 <= k < cs.len() ==> command_of(command_words(#[trigger] cs[k])) == Ok::<
            CommandModel,
            Seq<char>,
        >(cs[k]),
    ensures
        shortcut_of(chain_definition(cs), true, shell) == Ok::<ShortcutModel, Seq<char>>(
            ShortcutModel { commands: cs, shell },
        ),
{
    let all = chain_definition(cs);
    let words = command_words(cs[0]);
    let esc = escape_tokens(words);
    let rest = cs.drop_first();
    lemma_escape_tokens_len(words);
    assert(all.subrange(0, esc.len() as int) =~= esc);
    lemma_read_escaped(all, 0, words, Seq::empty(), Seq::empty());
    assert(Seq::<Seq<char>>::empty() + words =~= words);
    assert(all.subrange(esc.len() as int, all.len() as int) =~= chain_tail(rest));
    assert(command_of(words) == Ok::<CommandModel, Seq<char>>(cs[0]));
    assert forall|k: int| 0 <= k < rest.len() implies command_of(command_words(#[trigger] rest[k]))
        == Ok::<CommandModel, Seq<char>>(rest[k]) by {
        assert(rest[k] == cs[k + 1]);
    }
    lemma_read_chain_tail(all, esc.len() as int, rest, Seq::empty(), words, cs[0]);
    assert(Seq::<CommandModel>::empty().push(cs[0]) + rest =~= cs);
    assert(all.len() > 0);
}

/// A command as the store accepts it: a non-empty program that reads as
/// literal text, and arguments that all read as templates.
pub open spec fn is_storable_command(c: CommandModel) -> bool {
    &&& c.program.len() > 0
    &&& template_of(c.program) matches Ok(t) && t is Literal
    &&& first_template_error(c.args) is None
}

proof fn lemma_command_of_storable(tokens: Seq<Seq<char>>)
    requires
        command_of(tokens) is Ok,
    ensures
        is_storable_command(command_of(tokens)->Ok_0),
{
}

proof fn lemma_chain_from_storable(
    tokens: Seq<Seq<char>>,
    i: int,
    commands: Seq<CommandModel>,
    current: Seq<Seq<char>>,
)
    requires
        forall|k: int| 0 <= k < commands.len() ==> is_storable_command(#[trigger] commands[k]),
        chain_from(tokens, i, commands, current) is Ok,
    ensures
        ({
            let cs = chain_from(tokens, i, commands, current)->Ok_0;
            &&& cs.len() >= 2
            &&& forall|k: int| 0 <= k < cs.len() ==> is_storable_command(#[trigger] cs[k])
        }),
    decreases tokens.len() - i,
{
    if i < 0 || i >= tokens.len() {
        let c = command_of(current)->Ok_0;
        lemma_command_of_storable(current);
        let cs = commands.push(c);
        assert forall|k: int| 0 <= k < cs.len() implies is_storable_command(#[trigger] cs[k]) by {
            if k < commands.len() {
                assert(cs[k] == commands[k]);
            }
        }
    } else if tokens[i] == then_token() {
        let c = command_of(current)->Ok_0;
        lemma_command_of_storable(current);
        let cs = commands.push(c);
        assert forall|k: int| 0 <= k < cs.len() implies is_storable_command(#[trigger] cs[k]) by {
            if k < commands.len() {
                assert(cs[k] == commands[k]);
            }
        }
        lemma_chain_from_storable(tokens, i + 1, cs, Seq::empty());
    } else if tokens[i] == literal_token() {
        lemma_chain_from_storable(tokens, i + 2, commands, current.push(tokens[i + 1]));
    } else {
        lemma_chain_from_storable(tokens, i + 1, commands, current.push(tokens[i]));
    }
}

/// A shortcut as the store accepts it: at least one command, each storable.
pub open spec fn is_storable_shortcut(s: ShortcutModel) -> bool {
    &&& s.commands.len() > 0
    &&& forall|k: int| 0 <= k < s.commands.len() ==> is_storable_command(#[trigger] s.commands[k])
}

/// Every shortcut that a definition gives is one that the store accepts, and
/// a chain has at least two commands.
pub proof fn law_parsed_shortcuts_are_storable(
    tokens: Seq<Seq<char>>,
    chain: bool,
    shell: Option<ShellKind>,
)
    requires
        shortcut_of(tokens, chain, shell) is Ok,
    ensures
        is_storable_shortcut(shortcut_of(tokens, chain, shell)->Ok_0),
        chain ==> shortcut_of(tokens, chain, shell)->Ok_0.commands.len() >= 2,
        !chain ==> shortcut_of(tokens, chain, shell)->Ok_0.commands.len() == 1,
{
    if chain {
        lemma_chain_from_storable(tokens, 0, Seq::empty(), Seq::empty());
    } else {
        lemma_command_of_storable(tokens);
    }
}

} // verus!
