//! Running a shortcut: which invocation arguments its placeholders take, the
//! arguments of each direct step, and the scripts that run a shortcut in a
//! POSIX shell or in PowerShell.

use std::collections::BTreeSet;

use vstd::prelude::*;
use vstd::std_specs::iter::IteratorSpec;

use crate::config::{
    first_template_error, parse_argument_template, template_of, views, ArgumentTemplate,
    CommandModel, ShellKind, Shortcut, TemplateModel,
};
use crate::text::decimal;
use crate::text::decimal_string;
use crate::text::{
    chars_of, is_alnum, is_alnum_char, is_alpha, is_alpha_char, push_char, replace_char,
    replace_char_with,
};
use crate::{result_view, Error, Result};

verus! {

// ---------------------------------------------------------------------------
// Argument plans
// ---------------------------------------------------------------------------

/// The arguments of all commands of a shortcut, in order.
pub open spec fn all_arguments(cs: Seq<CommandModel>) -> Seq<Seq<char>>
    decreases cs.len(),
{
    if cs.len() == 0 {
        Seq::empty()
    } else {
        all_arguments(cs.drop_last()) + cs.last().args
    }
}

/// Which invocation arguments a shortcut takes through its placeholders.
pub struct ArgumentPlan {
    /// Some argument is a placeholder.
    pub uses_placeholders: bool,
    /// The zero-based indexes that `{n}` placeholders name.
    pub positional: BTreeSet<usize>,
    /// Some argument is `{*}`.
    pub all: bool,
}

pub struct PlanModel {
    pub uses_placeholders: bool,
    pub positional: Set<usize>,
    pub all: bool,
}

impl View for ArgumentPlan {
    type V = PlanModel;

    open spec fn view(&self) -> PlanModel {
        PlanModel {
            uses_placeholders: self.uses_placeholders,
            positional: self.positional@,
            all: self.all,
        }
    }
}

/// The argument `a` is `{n}` or `{*}`.
pub open spec fn is_placeholder(a: Seq<char>) -> bool {
    template_of(a) matches Ok(t) && !(t is Literal)
}

/// The argument `a` is `{n}` for index `i` (`n == i + 1`).
pub open spec fn names_index(a: Seq<char>, i: usize) -> bool {
    template_of(a) matches Ok(t) && t == TemplateModel::Positional(i)
}

/// The argument `a` is `{*}`.
pub open spec fn is_all(a: Seq<char>) -> bool {
    template_of(a) matches Ok(t) && t is All
}

/// The plan of a list of arguments: the first template error, if any;
/// otherwise which placeholders occur.
pub open spec fn plan_of(args: Seq<Seq<char>>) -> std::result::Result<PlanModel, Seq<char>> {
    match first_template_error(args) {
        Some(m) => Err(m),
        None => Ok(
            PlanModel {
                uses_placeholders: exists|k: int| 0 <= k < args.len() && is_placeholder(#[trigger] args[k]),
                positional: Set::new(
                    |i: usize| exists|k: int| 0 <= k < args.len() && names_index(#[trigger] args[k], i),
                ),
                all: exists|k: int| 0 <= k < args.len() && is_all(#[trigger] args[k]),
            },
        ),
    }
}

impl ArgumentPlan {
    /// The plan of all arguments of all commands of a shortcut.
    pub fn for_shortcut(shortcut: &Shortcut) -> (r: Result<ArgumentPlan>)
        ensures
            result_view(r) == plan_of(all_arguments(shortcut@.commands)),
    {
        let ghost cs = shortcut@.commands;
        let mut uses_placeholders = false;
        let mut positional: BTreeSet<usize> = BTreeSet::new();
        let mut all = false;
        let ghost mut seen: Seq<Seq<char>> = Seq::empty();
        let mut c: usize = 0;
        while c < shortcut.commands.len()
            invariant
                cs == shortcut@.commands,
                cs.len() == shortcut.commands.len(),
                0 <= c <= shortcut.commands.len(),
                seen == all_arguments(cs.take(c as int)),
                first_template_error(seen) is None,
                uses_placeholders == exists|k: int| 0 <= k < seen.len() && is_placeholder(#[trigger] seen[k]),
                positional@ == Set::new(
                    |i: usize| exists|k: int| 0 <= k < seen.len() && names_index(#[trigger] seen[k], i),
                ),
                all == exists|k: int| 0 <= k < seen.len() && is_all(#[trigger] seen[k]),
            decreases shortcut.commands.len() - c,
        {
            let args = &shortcut.commands[c].args;
            let ghost base = seen;
            assert(cs[c as int].args == views(args@));
            let mut j: usize = 0;
            while j < args.len()
                invariant
                    cs == shortcut@.commands,
                    0 <= c < cs.len(),
                    args == &shortcut.commands@[c as int].args,
                    cs[c as int].args == views(args@),
                    base == all_arguments(cs.take(c as int)),
                    0 <= j <= args.len(),
                    seen == base + views(args@).take(j as int),
                    first_template_error(seen) is None,
                    uses_placeholders == exists|k: int| 0 <= k < seen.len() && is_placeholder(#[trigger] seen[k]),
                    positional@ == Set::new(
                        |i: usize| exists|k: int| 0 <= k < seen.len() && names_index(#[trigger] seen[k], i),
                    ),
                    all == exists|k: int| 0 <= k < seen.len() && is_all(#[trigger] seen[k]),
                decreases args.len() - j,
            {
                let a = &args[j];
                let ghost prev = seen;
                let t = parse_argument_template(a.as_str());
                proof {
                    seen = prev.push(a@);
                    assert(seen.drop_last() =~= prev);
                    assert(seen =~= base + views(args@).take(j + 1));
                }
                match t {
                    Err(e) => {
                        proof {
                            lemma_plan_error(cs, c as int, j as int, seen);
                        }
                        return Err(e);
                    },
                    Ok(ArgumentTemplate::Literal(_)) => {},
                    Ok(ArgumentTemplate::Positional(index)) => {
                        uses_placeholders = true;
                        positional.insert(index);
                    },
                    Ok(ArgumentTemplate::All) => {
                        uses_placeholders = true;
                        all = true;
                    },
                }
                proof {
                    assert(seen[prev.len() as int] == a@);
                    assert forall|k: int| 0 <= k < prev.len() implies seen[k] == prev[k] by {}
                    assert(uses_placeholders == exists|k: int|
                        0 <= k < seen.len() && is_placeholder(#[trigger] seen[k]));
                    assert(all == exists|k: int| 0 <= k < seen.len() && is_all(#[trigger] seen[k]));
                    assert(positional@ =~= Set::new(
                        |i: usize| exists|k: int| 0 <= k < seen.len() && names_index(#[trigger] seen[k], i),
                    ));
                }
                j = j + 1;
            }
            proof {
                assert(cs.take(c + 1).drop_last() =~= cs.take(c as int));
                assert(views(args@).take(j as int) =~= views(args@));
            }
            c = c + 1;
        }
        assert(cs.take(c as int) =~= cs);
        Ok(ArgumentPlan { uses_placeholders, positional, all })
    }
}

/// An error met in the middle of the arguments is the plan's error.
proof fn lemma_plan_error(cs: Seq<CommandModel>, c: int, j: int, seen: Seq<Seq<char>>)
    requires
        0 <= c < cs.len(),
        0 <= j < cs[c].args.len(),
        seen == all_arguments(cs.take(c)) + cs[c].args.take(j + 1),
        first_template_error(seen) is Some,
    ensures
        plan_of(all_arguments(cs)) == Err::<PlanModel, Seq<char>>(first_template_error(seen)->0),
{
    let whole = all_arguments(cs);
    lemma_all_arguments_prefix(cs, c);
    assert(whole.take(seen.len() as int) =~= seen);
    lemma_first_error_prefix(whole, seen.len() as int);
}

/// The arguments of the first `c` commands and part of command `c` are a
/// prefix of all arguments.
proof fn lemma_all_arguments_prefix(cs: Seq<CommandModel>, c: int)
    requires
        0 <= c < cs.len(),
    ensures
        all_arguments(cs).len() >= all_arguments(cs.take(c)).len() + cs[c].args.len(),
        forall|k: int|
            0 <= k < all_arguments(cs.take(c)).len() + cs[c].args.len() ==> #[trigger] all_arguments(
                cs,
            )[k] == (all_arguments(cs.take(c)) + cs[c].args)[k],
    decreases cs.len() - c,
{
    if c + 1 == cs.len() {
        assert(cs.drop_last() =~= cs.take(c));
    } else {
        lemma_all_arguments_prefix(cs.drop_last(), c);
        assert(cs.drop_last().take(c) =~= cs.take(c));
        assert(cs.drop_last()[c] == cs[c]);
    }
}

/// An error in a prefix is the error of the whole list.
proof fn lemma_first_error_prefix(s: Seq<Seq<char>>, k: int)
    requires
        0 <= k <= s.len(),
        first_template_error(s.take(k)) is Some,
    ensures
        first_template_error(s) == first_template_error(s.take(k)),
    decreases s.len() - k,
{
    if k < s.len() {
        assert(s.take(k + 1).drop_last() =~= s.take(k));
        lemma_first_error_prefix(s, k + 1);
    } else {
        assert(s.take(k) =~= s);
    }
}

pub open spec fn missing_argument_message(n: nat) -> Seq<char> {
    "shortcut requires invocation argument "@ + decimal(n) + " for placeholder {"@ + decimal(n)
        + "}"@
}

pub open spec fn unused_argument_message(n: nat) -> Seq<char> {
    "invocation argument "@ + decimal(n) + " is unused; add placeholder {"@ + decimal(n)
        + "} or {*} to the shortcut"@
}

/// `i` is the least index named by a placeholder that is not below `count`.
pub open spec fn is_least_missing(p: PlanModel, count: usize, i: usize) -> bool {
    &&& p.positional.contains(i)
    &&& i >= count
    &&& forall|j: usize| p.positional.contains(j) && j >= count ==> i <= j
}

/// `i` is the least index below `count` that no placeholder names.
pub open spec fn is_least_unused(p: PlanModel, count: usize, i: usize) -> bool {
    &&& i < count
    &&& !p.positional.contains(i)
    &&& forall|j: usize| j < i ==> p.positional.contains(j)
}

/// Whether `count` invocation arguments suit a plan. A shortcut without
/// placeholders takes any number of them. Otherwise each `{n}` needs its
/// argument, and without `{*}` each argument must be named by some `{n}`.
/// The error names the first argument that is missing, or else the first
/// that is unused.
pub open spec fn plan_check(p: PlanModel, count: usize) -> std::result::Result<(), Seq<char>> {
    if !p.uses_placeholders {
        Ok(())
    } else if exists|i: usize| p.positional.contains(i) && i >= count {
        let i = choose|i: usize| is_least_missing(p, count, i);
        Err(missing_argument_message((i + 1) as nat))
    } else if !p.all && exists|i: usize| i < count && !p.positional.contains(i) {
        let i = choose|i: usize| is_least_unused(p, count, i);
        Err(unused_argument_message((i + 1) as nat))
    } else {
        Ok(())
    }
}

fn argument_message(prefix: &str, n: u128, middle: &str, suffix: &str) -> (r: String)
    ensures
        r@ == prefix@ + decimal(n as nat) + middle@ + decimal(n as nat) + suffix@,
{
    let number = decimal_string(n);
    let mut m = prefix.to_owned();
    m.append(number.as_str());
    m.append(middle);
    m.append(number.as_str());
    m.append(suffix);
    m
}

impl ArgumentPlan {
    /// Checks that `argument_count` invocation arguments suit the plan.
    pub fn validate(&self, argument_count: usize) -> (r: Result<()>)
        ensures
            result_view(r) == plan_check(self@, argument_count),
    {
        if !self.uses_placeholders {
            return Ok(());
        }
        let ghost p = self@;
        let mut least: Option<usize> = None;
        let ghost elems = vstd::std_specs::btree::spec_btree_keys_iter(&self.positional).remaining();
        assert(elems.unref().to_set() == p.positional);
        for x in it: self.positional.iter()
            invariant
                p == self@,
                it.seq() == elems,
                match least {
                    Some(m) => p.positional.contains(m) && m >= argument_count && (forall|k: int|
                        0 <= k < it.index() && *it.seq()[k] >= argument_count ==> m <= *it.seq()[k])
                        && exists|k: int| 0 <= k < it.index() && *it.seq()[k] == m,
                    None => forall|k: int|
                        0 <= k < it.index() ==> *it.seq()[k] < argument_count,
                },
        {
            if *x >= argument_count {
                match least {
                    Some(m) => {
                        if *x < m {
                            least = Some(*x);
                        }
                    },
                    None => {
                        least = Some(*x);
                    },
                }
            }
        }
        proof {
            assert forall|k: int| 0 <= k < elems.len() implies p.positional.contains(
                *elems[k],
            ) by {
                assert(elems.unref()[k] == *elems[k]);
                assert(elems.unref().contains(*elems[k]));
            }
            assert forall|v: usize| p.positional.contains(v) implies exists|k: int|
                0 <= k < elems.len() && *elems[k] == v by {
                assert(elems.unref().contains(v));
                let k = choose|k: int| 0 <= k < elems.unref().len() && elems.unref()[k] == v;
                assert(*elems[k] == v);
            }
        }
        match least {
            Some(m) => {
                proof {
                    assert(is_least_missing(p, argument_count, m));
                    let i = choose|i: usize| is_least_missing(p, argument_count, i);
                    assert(i == m);
                }
                return Err(
                    Error::msg(
                        argument_message(
                            "shortcut requires invocation argument ",
                            m as u128 + 1,
                            " for placeholder {",
                            "}",
                        ),
                    ),
                );
            },
            None => {
                assert(!exists|i: usize| p.positional.contains(i) && i >= argument_count);
            },
        }
        if !self.all {
            let mut i: usize = 0;
            while i < argument_count
                invariant
                    p == self@,
                    p.uses_placeholders,
                    !p.all,
                    !exists|i: usize| p.positional.contains(i) && i >= argument_count,
                    0 <= i <= argument_count,
                    forall|j: usize| j < i ==> p.positional.contains(j),
                decreases argument_count - i,
            {
                if !self.positional.contains(&i) {
                    proof {
                        assert(is_least_unused(p, argument_count, i));
                        let k = choose|k: usize| is_least_unused(p, argument_count, k);
                        assert(k == i);
                    }
                    return Err(
                        Error::msg(
                            argument_message(
                                "invocation argument ",
                                i as u128 + 1,
                                " is unused; add placeholder {",
                                "} or {*} to the shortcut",
                            ),
                        ),
                    );
                }
                i = i + 1;
            }
        }
        Ok(())
    }
}

// ---------------------------------------------------------------------------
// Direct runs
// ---------------------------------------------------------------------------

pub open spec fn placeholder_as_program_message() -> Seq<char> {
    "placeholders cannot be used as command program names"@
}

/// The text of a value that must be literal, such as a program name.
pub open spec fn literal_of(s: Seq<char>) -> std::result::Result<Seq<char>, Seq<char>> {
    match template_of(s) {
        Err(m) => Err(m),
        Ok(TemplateModel::Literal(t)) => Ok(t),
        Ok(_) => Err(placeholder_as_program_message()),
    }
}

/// The text of a value that must be literal, such as a program name.
pub fn literal_value(value: &str) -> (r: Result<String>)
    ensures
        result_view(r) == literal_of(value@),
{
    match parse_argument_template(value)? {
        ArgumentTemplate::Literal(v) => Ok(v),
        _ => Err(Error::msg("placeholders cannot be used as command program names".to_owned())),
    }
}

/// One argument handed to a program: text, or an invocation argument by its
/// zero-based index.
#[derive(Debug, PartialEq, Eq)]
pub enum ResolvedArgument {
    Text(String),
    Invocation(usize),
}

pub enum ResolvedModel {
    Text(Seq<char>),
    Invocation(usize),
}

impl View for ResolvedArgument {
    type V = ResolvedModel;

    open spec fn view(&self) -> ResolvedModel {
        match self {
            ResolvedArgument::Text(t) => ResolvedModel::Text(t@),
            ResolvedArgument::Invocation(i) => ResolvedModel::Invocation(*i),
        }
    }
}

/// The views of a list of resolved arguments.
pub open spec fn resolved_views(v: Seq<ResolvedArgument>) -> Seq<ResolvedModel> {
    v.map_values(|a: ResolvedArgument| a@)
}

/// Every invocation argument, in order.
pub open spec fn all_invocation(count: nat) -> Seq<ResolvedModel> {
    Seq::new(count, |i: int| ResolvedModel::Invocation(i as usize))
}

/// What one argument template becomes when `count` invocation arguments are
/// given.
pub open spec fn resolve_template(t: TemplateModel, count: nat) -> Seq<ResolvedModel> {
    match t {
        TemplateModel::Literal(v) => seq![ResolvedModel::Text(v)],
        TemplateModel::Positional(i) => seq![ResolvedModel::Invocation(i)],
        TemplateModel::All => all_invocation(count),
    }
}

/// What a list of argument templates becomes, or the first template error.
pub open spec fn resolve_templates(ts: Seq<Seq<char>>, count: nat) -> std::result::Result<
    Seq<ResolvedModel>,
    Seq<char>,
>
    decreases ts.len(),
{
    if ts.len() == 0 {
        Ok(Seq::empty())
    } else {
        match resolve_templates(ts.drop_last(), count) {
            Err(m) => Err(m),
            Ok(r) => match template_of(ts.last()) {
                Err(m) => Err(m),
                Ok(t) => Ok(r + resolve_template(t, count)),
            },
        }
    }
}

/// A program and the arguments it is started with.
pub struct DirectStep {
    pub program: String,
    pub arguments: Vec<ResolvedArgument>,
}

pub struct DirectStepModel {
    pub program: Seq<char>,
    pub arguments: Seq<ResolvedModel>,
}

impl View for DirectStep {
    type V = DirectStepModel;

    open spec fn view(&self) -> DirectStepModel {
        DirectStepModel { program: self.program@, arguments: resolved_views(self.arguments@) }
    }
}

/// Step `index` of a shortcut run without a shell: its literal program, its
/// resolved templates, and, on the last step of a shortcut without
/// placeholders, every invocation argument after them.
pub open spec fn direct_step_of(
    cs: Seq<CommandModel>,
    index: int,
    count: nat,
    uses_placeholders: bool,
) -> std::result::Result<DirectStepModel, Seq<char>> {
    match literal_of(cs[index].program) {
        Err(m) => Err(m),
        Ok(program) => match resolve_templates(cs[index].args, count) {
            Err(m) => Err(m),
            Ok(args) => Ok(
                DirectStepModel {
                    program,
                    arguments: if !uses_placeholders && index + 1 == cs.len() {
                        args + all_invocation(count)
                    } else {
                        args
                    },
                },
            ),
        },
    }
}

fn push_all_invocation(out: &mut Vec<ResolvedArgument>, count: usize)
    ensures
        resolved_views(final(out)@) == resolved_views(old(out)@) + all_invocation(count as nat),
{
    let ghost start = resolved_views(out@);
    let mut i: usize = 0;
    while i < count
        invariant
            0 <= i <= count,
            resolved_views(out@) =~= start + all_invocation(i as nat),
        decreases count - i,
    {
        let ghost before = resolved_views(out@);
        out.push(ResolvedArgument::Invocation(i));
        assert(resolved_views(out@) =~= before.push(ResolvedModel::Invocation(i)));
        assert(all_invocation((i + 1) as nat) =~= all_invocation(i as nat).push(
            ResolvedModel::Invocation(i),
        ));
        i = i + 1;
    }
}

/// What argument templates become when `count` invocation arguments are given.
pub fn resolved_arguments(templates: &Vec<String>, count: usize) -> (r: Result<Vec<ResolvedArgument>>)
    ensures
        match r {
            Ok(v) => resolve_templates(views(templates@), count as nat) == Ok::<
                Seq<ResolvedModel>,
                Seq<char>,
            >(resolved_views(v@)),
            Err(e) => resolve_templates(views(templates@), count as nat) == Err::<
                Seq<ResolvedModel>,
                Seq<char>,
            >(e@),
        },
{
    let ghost ts = views(templates@);
    let mut out: Vec<ResolvedArgument> = Vec::new();
    let mut i: usize = 0;
    assert(ts.take(0) =~= Seq::<Seq<char>>::empty());
    assert(resolved_views(out@) =~= Seq::<ResolvedModel>::empty());
    while i < templates.len()
        invariant
            ts == views(templates@),
            0 <= i <= templates.len(),
            resolve_templates(ts.take(i as int), count as nat) == Ok::<
                Seq<ResolvedModel>,
                Seq<char>,
            >(resolved_views(out@)),
        decreases templates.len() - i,
    {
        let ghost before = resolved_views(out@);
        assert(ts.take(i + 1).drop_last() =~= ts.take(i as int));
        assert(ts.take(i + 1).last() == templates@[i as int]@);
        match parse_argument_template(templates[i].as_str()) {
            Err(e) => {
                proof {
                    lemma_resolve_error_prefix(ts, i + 1, count as nat);
                }
                return Err(e);
            },
            Ok(ArgumentTemplate::Literal(v)) => {
                out.push(ResolvedArgument::Text(v));
                assert(resolved_views(out@) =~= before + seq![ResolvedModel::Text(v@)]);
            },
            Ok(ArgumentTemplate::Positional(index)) => {
                out.push(ResolvedArgument::Invocation(index));
                assert(resolved_views(out@) =~= before + seq![ResolvedModel::Invocation(index)]);
            },
            Ok(ArgumentTemplate::All) => {
                push_all_invocation(&mut out, count);
            },
        }
        i = i + 1;
    }
    assert(ts.take(i as int) =~= ts);
    Ok(out)
}

proof fn lemma_resolve_error_prefix(s: Seq<Seq<char>>, k: int, count: nat)
    requires
        0 <= k <= s.len(),
        resolve_templates(s.take(k), count) is Err,
    ensures
        resolve_templates(s, count) == resolve_templates(s.take(k), count),
    decreases s.len() - k,
{
    if k < s.len() {
        assert(s.take(k + 1).drop_last() =~= s.take(k));
        lemma_resolve_error_prefix(s, k + 1, count);
    } else {
        assert(s.take(k) =~= s);
    }
}

/// The program and arguments of step `index` of a shortcut run without a
/// shell, when `count` invocation arguments are given.
pub fn direct_step(shortcut: &Shortcut, index: usize, count: usize, plan: &ArgumentPlan) -> (r:
    Result<DirectStep>)
    requires
        index < shortcut@.commands.len(),
    ensures
        result_view(r) == direct_step_of(
            shortcut@.commands,
            index as int,
            count as nat,
            plan.uses_placeholders,
        ),
{
    assert(shortcut.commands.len() == shortcut@.commands.len());
    let command = &shortcut.commands[index];
    assert(shortcut@.commands[index as int] == command@);
    let program = literal_value(command.program.as_str())?;
    let mut arguments = resolved_arguments(&command.args, count)?;
    if !plan.uses_placeholders && index + 1 == shortcut.commands.len() {
        push_all_invocation(&mut arguments, count);
    }
    Ok(DirectStep { program, arguments })
}

pub open spec fn chain_stopped_message(n: nat, program: Seq<char>, code: int) -> Seq<char> {
    "transfigure: chain stopped at step "@ + decimal(n) + " (`"@ + program + "`) with exit code "@
        + crate::text::signed_decimal(code)
}

/// The outcome of a step that has finished: nothing when it succeeded (the
/// run goes on); otherwise the run's result, the child's exit code or 1 when
/// it has none, and, in a chain, the message that says where it stopped.
pub fn failed_step(succeeded: bool, code: Option<i32>, shortcut: &Shortcut, index: usize) -> (r:
    Option<(crate::RunResult, Option<String>)>)
    requires
        index < shortcut@.commands.len(),
    ensures
        succeeded ==> r is None,
        !succeeded ==> (r matches Some(p) && {
            let c = match code {
                Some(c) => c,
                None => 1i32,
            };
            &&& p.0 == crate::RunResult::ChildExit(c)
            &&& if shortcut@.commands.len() > 1 {
                p.1 matches Some(m) && m@ == chain_stopped_message(
                    (index + 1) as nat,
                    shortcut@.commands[index as int].program,
                    c as int,
                )
            } else {
                p.1 is None
            }
        }),
{
    if succeeded {
        return None;
    }
    let c = match code {
        Some(c) => c,
        None => 1i32,
    };
    if shortcut.commands.len() > 1 {
        let mut m = "transfigure: chain stopped at step ".to_owned();
        let n = decimal_string(index as u128 + 1);
        m.append(n.as_str());
        m.append(" (`");
        m.append(shortcut.commands[index].program.as_str());
        m.append("`) with exit code ");
        let cs = crate::text::signed_decimal_string(c);
        m.append(cs.as_str());
        assert(shortcut@.commands[index as int].program == shortcut.commands@[index as int].program@);
        Some((crate::RunResult::ChildExit(c), Some(m)))
    } else {
        Some((crate::RunResult::ChildExit(c), None))
    }
}

// ---------------------------------------------------------------------------
// Shells
// ---------------------------------------------------------------------------

/// The shell program that runs a script.
#[derive(Debug, Clone, Copy, PartialEq, Eq)]
pub enum ResolvedShell {
    /// PowerShell, started under this program name.
    Powershell(&'static str),
    /// A POSIX shell, `sh`.
    Sh,
}

/// The shell program for a shell kind: `auto` is PowerShell on Windows and
/// `sh` elsewhere; `powershell` is `powershell.exe` on Windows and `pwsh`
/// elsewhere.
pub open spec fn resolved_shell_of(kind: ShellKind, on_windows: bool) -> Option<Seq<char>> {
    match kind {
        ShellKind::Auto => if on_windows {
            Some("powershell.exe"@)
        } else {
            None
        },
        ShellKind::Powershell => if on_windows {
            Some("powershell.exe"@)
        } else {
            Some("pwsh"@)
        },
        ShellKind::Pwsh => Some("pwsh"@),
        ShellKind::Sh => None,
    }
}

/// On Windows `auto` and `powershell` both run Windows PowerShell,
/// `powershell.exe`, and only `pwsh` runs `pwsh`; elsewhere `powershell`
/// and `pwsh` both run `pwsh` and `auto` runs `sh`; `sh` always runs `sh`.
pub proof fn law_shell_programs(kind: ShellKind, on_windows: bool)
    ensures
        on_windows ==> (resolved_shell_of(kind, on_windows) == Some("pwsh"@) <==> kind
            == ShellKind::Pwsh),
        on_windows && (kind == ShellKind::Auto || kind == ShellKind::Powershell)
            ==> resolved_shell_of(kind, on_windows) == Some("powershell.exe"@),
        !on_windows && (kind == ShellKind::Powershell || kind == ShellKind::Pwsh)
            ==> resolved_shell_of(kind, on_windows) == Some("pwsh"@),
        resolved_shell_of(kind, on_windows) is None <==> (kind == ShellKind::Sh || (kind
            == ShellKind::Auto && !on_windows)),
{
    reveal_strlit("pwsh");
    reveal_strlit("powershell.exe");
    assert("pwsh"@ != "powershell.exe"@) by {
        assert("pwsh"@.len() != "powershell.exe"@.len());
    }
}

impl ResolvedShell {
    /// The shell program for a shell kind on this platform.
    pub fn from_kind(kind: ShellKind, on_windows: bool) -> (r: ResolvedShell)
        ensures
            match resolved_shell_of(kind, on_windows) {
                Some(p) => r matches ResolvedShell::Powershell(q) && q@ == p,
                None => r == ResolvedShell::Sh,
            },
    {
        match kind {
            ShellKind::Auto => if on_windows {
                ResolvedShell::Powershell("powershell.exe")
            } else {
                ResolvedShell::Sh
            },
            ShellKind::Powershell => if on_windows {
                ResolvedShell::Powershell("powershell.exe")
            } else {
                ResolvedShell::Powershell("pwsh")
            },
            ShellKind::Pwsh => ResolvedShell::Powershell("pwsh"),
            ShellKind::Sh => ResolvedShell::Sh,
        }
    }
}

/// The name of a shell family, for messages.
pub fn shell_name(shell: ResolvedShell) -> (r: &'static str)
    ensures
        r@ == match shell {
            ResolvedShell::Powershell(_) => "PowerShell"@,
            ResolvedShell::Sh => "POSIX"@,
        },
{
    match shell {
        ResolvedShell::Powershell(_) => "PowerShell",
        ResolvedShell::Sh => "POSIX",
    }
}

/// The environment variable that carries invocation argument `i` (from 0)
/// to a shell script.
pub open spec fn environment_name(i: nat) -> Seq<char> {
    "TRANSFIGURE_RUNTIME_ARGUMENT_"@ + decimal(i)
}

/// The environment variable that carries invocation argument `index`.
pub fn argument_environment_name(index: usize) -> (r: String)
    ensures
        r@ == environment_name(index as nat),
{
    let mut name = "TRANSFIGURE_RUNTIME_ARGUMENT_".to_owned();
    let number = decimal_string(index as u128);
    name.append(number.as_str());
    name
}

/// The message a script prints when step `n` fails, before the exit code.
pub open spec fn shell_stop_message(n: nat, program: Seq<char>) -> Seq<char> {
    "transfigure: shell chain stopped at step "@ + decimal(n) + " (`"@ + program
        + "`) with exit code "@
}

fn shell_stop_message_of(n: usize, program: &str) -> (r: String)
    requires
        n < usize::MAX,
    ensures
        r@ == shell_stop_message((n + 1) as nat, program@),
{
    let mut m = "transfigure: shell chain stopped at step ".to_owned();
    let number = decimal_string(n as u128 + 1);
    m.append(number.as_str());
    m.append(" (`");
    m.append(program);
    m.append("`) with exit code ");
    m
}

// ---------------------------------------------------------------------------
// POSIX shell scripts
// ---------------------------------------------------------------------------

/// A word quoted for a POSIX shell: between single quotes, each single quote
/// written as `'\''`.
pub open spec fn sh_quoted(s: Seq<char>) -> Seq<char> {
    seq!['\''] + replace_char(s, '\'', "'\\''"@) + seq!['\'']
}

/// Quotes a word for a POSIX shell.
pub fn sh_quote(value: &str) -> (r: String)
    ensures
        r@ == sh_quoted(value@),
{
    let mut q = String::new();
    push_char(&mut q, '\'');
    let body = replace_char_with(value, '\'', "'\\''");
    q.append(body.as_str());
    push_char(&mut q, '\'');
    assert(q@ =~= sh_quoted(value@));
    q
}

/// A POSIX shell reference to invocation argument `i`, after a space.
pub open spec fn sh_reference(i: nat) -> Seq<char> {
    " \"${"@ + environment_name(i) + "}\""@
}

/// References to the first `count` invocation arguments.
pub open spec fn sh_references(count: nat) -> Seq<char>
    decreases count,
{
    if count == 0 {
        Seq::empty()
    } else {
        sh_references((count - 1) as nat) + sh_reference((count - 1) as nat)
    }
}

/// What a template adds to a POSIX shell command line.
pub open spec fn sh_template_text(t: TemplateModel, count: nat) -> Seq<char> {
    match t {
        TemplateModel::Literal(v) => seq![' '] + sh_quoted(v),
        TemplateModel::Positional(i) => sh_reference(i as nat),
        TemplateModel::All => sh_references(count),
    }
}

/// What a list of templates adds to a POSIX shell command line, or the first
/// template error.
pub open spec fn sh_templates_text(ts: Seq<Seq<char>>, count: nat) -> std::result::Result<
    Seq<char>,
    Seq<char>,
>
    decreases ts.len(),
{
    if ts.len() == 0 {
        Ok(Seq::empty())
    } else {
        match sh_templates_text(ts.drop_last(), count) {
            Err(m) => Err(m),
            Ok(r) => match template_of(ts.last()) {
                Err(m) => Err(m),
                Ok(t) => Ok(r + sh_template_text(t, count)),
            },
        }
    }
}

/// The arguments of a POSIX shell command line, with every invocation
/// argument after them when `append` holds.
pub open spec fn sh_arguments_text(ts: Seq<Seq<char>>, count: nat, append: bool) -> std::result::Result<
    Seq<char>,
    Seq<char>,
> {
    match sh_templates_text(ts, count) {
        Err(m) => Err(m),
        Ok(t) => Ok(
            if append {
                t + sh_references(count)
            } else {
                t
            },
        ),
    }
}

/// Appends a reference to invocation argument `index`.
pub fn append_sh_runtime_argument(script: &mut String, index: usize)
    ensures
        final(script)@ == old(script)@ + sh_reference(index as nat),
{
    script.append(" \"${");
    let name = argument_environment_name(index);
    script.append(name.as_str());
    script.append("}\"");
}

/// Appends references to the first `count` invocation arguments.
pub fn append_sh_runtime_arguments(script: &mut String, count: usize)
    ensures
        final(script)@ == old(script)@ + sh_references(count as nat),
{
    let ghost start = script@;
    let mut index: usize = 0;
    while index < count
        invariant
            0 <= index <= count,
            script@ =~= start + sh_references(index as nat),
        decreases count - index,
    {
        append_sh_runtime_argument(script, index);
        index = index + 1;
    }
}

/// Appends the arguments of a command to a POSIX shell command line.
pub fn append_sh_arguments(
    script: &mut String,
    templates: &Vec<String>,
    runtime_argument_count: usize,
    append_runtime_arguments: bool,
) -> (r: Result<()>)
    ensures
        match sh_arguments_text(
            views(templates@),
            runtime_argument_count as nat,
            append_runtime_arguments,
        ) {
            Ok(t) => r is Ok && final(script)@ == old(script)@ + t,
            Err(m) => r matches Err(e) && e@ == m,
        },
{
    let ghost ts = views(templates@);
    let ghost start = script@;
    let count = runtime_argument_count;
    let mut i: usize = 0;
    assert(ts.take(0) =~= Seq::<Seq<char>>::empty());
    while i < templates.len()
        invariant
            ts == views(templates@),
            count == runtime_argument_count,
            0 <= i <= templates.len(),
            sh_templates_text(ts.take(i as int), count as nat) matches Ok(t) && script@ =~= start + t,
        decreases templates.len() - i,
    {
        let ghost before = script@;
        assert(ts.take(i + 1).drop_last() =~= ts.take(i as int));
        assert(ts.take(i + 1).last() == templates@[i as int]@);
        match parse_argument_template(templates[i].as_str()) {
            Err(e) => {
                proof {
                    assert(sh_templates_text(ts.take(i + 1), count as nat) == Err::<
                        Seq<char>,
                        Seq<char>,
                    >(e@));
                    lemma_sh_error_prefix(ts, i + 1, count as nat);
                    assert(sh_templates_text(ts, count as nat) == Err::<Seq<char>, Seq<char>>(e@));
                }
                return Err(e);
            },
            Ok(ArgumentTemplate::Literal(value)) => {
                push_char(script, ' ');
                let q = sh_quote(value.as_str());
                script.append(q.as_str());
                assert(script@ =~= before + (seq![' '] + sh_quoted(value@)));
            },
            Ok(ArgumentTemplate::Positional(index)) => {
                append_sh_runtime_argument(script, index);
            },
            Ok(ArgumentTemplate::All) => {
                append_sh_runtime_arguments(script, count);
            },
        }
        i = i + 1;
    }
    assert(ts.take(i as int) =~= ts);
    if append_runtime_arguments {
        append_sh_runtime_arguments(script, count);
    }
    Ok(())
}

proof fn lemma_sh_error_prefix(s: Seq<Seq<char>>, k: int, count: nat)
    requires
        0 <= k <= s.len(),
        sh_templates_text(s.take(k), count) is Err,
    ensures
        sh_templates_text(s, count) == sh_templates_text(s.take(k), count),
    decreases s.len() - k,
{
    if k < s.len() {
        assert(s.take(k + 1).drop_last() =~= s.take(k));
        lemma_sh_error_prefix(s, k + 1, count);
    } else {
        assert(s.take(k) =~= s);
    }
}

/// What a POSIX shell script runs after each step: it stops the script with
/// the step's status, and a message, when the step failed.
pub open spec fn sh_check_head() -> Seq<char> {
    "\ntf_status=$?\nif [ \"$tf_status\" -ne 0 ]; then\n  printf '%s\\n' "@
}

pub open spec fn sh_check_tail() -> Seq<char> {
    "\"$tf_status\" >&2\n  exit \"$tf_status\"\nfi\n"@
}

/// The POSIX shell text of step `n` (from 1) of a script.
pub open spec fn sh_step_text(c: CommandModel, n: nat, count: nat, append: bool) -> std::result::Result<
    Seq<char>,
    Seq<char>,
> {
    match literal_of(c.program) {
        Err(m) => Err(m),
        Ok(p) => match sh_arguments_text(c.args, count, append) {
            Err(m) => Err(m),
            Ok(a) => Ok(
                sh_quoted(p) + a + sh_check_head() + sh_quoted(shell_stop_message(n, c.program))
                    + sh_check_tail(),
            ),
        },
    }
}

/// The POSIX shell text of the first `k` steps; invocation arguments are
/// added to the last step of a shortcut without placeholders.
pub open spec fn sh_steps_text(cs: Seq<CommandModel>, k: nat, count: nat, uses_placeholders: bool) -> std::result::Result<
    Seq<char>,
    Seq<char>,
>
    decreases k,
{
    if k == 0 {
        Ok(Seq::empty())
    } else {
        match sh_steps_text(cs, (k - 1) as nat, count, uses_placeholders) {
            Err(m) => Err(m),
            Ok(s) => match sh_step_text(
                cs[k - 1],
                k,
                count,
                !uses_placeholders && k == cs.len(),
            ) {
                Err(m) => Err(m),
                Ok(t) => Ok(s + t),
            },
        }
    }
}

proof fn lemma_sh_steps_error(cs: Seq<CommandModel>, k: nat, count: nat, uses: bool)
    requires
        k <= cs.len(),
        sh_steps_text(cs, k, count, uses) is Err,
    ensures
        sh_steps_text(cs, cs.len(), count, uses) == sh_steps_text(cs, k, count, uses),
    decreases cs.len() - k,
{
    if k < cs.len() {
        lemma_sh_steps_error(cs, k + 1, count, uses);
    }
}

/// Appends step `index + 1` of a POSIX shell script.
fn append_sh_step(
    script: &mut String,
    command: &crate::config::CommandSpec,
    index: usize,
    count: usize,
    append: bool,
) -> (r: Result<()>)
    requires
        index < usize::MAX,
    ensures
        match sh_step_text(command@, (index + 1) as nat, count as nat, append) {
            Ok(t) => r is Ok && final(script)@ == old(script)@ + t,
            Err(m) => r matches Err(e) && e@ == m,
        },
{
    let ghost before = script@;
    let program = literal_value(command.program.as_str())?;
    let q = sh_quote(program.as_str());
    script.append(q.as_str());
    let ghost after_program = script@;
    append_sh_arguments(script, &command.args, count, append)?;
    let ghost t = sh_arguments_text(command@.args, count as nat, append)->Ok_0;
    assert(script@ == after_program + t);
    script.append("\ntf_status=$?\nif [ \"$tf_status\" -ne 0 ]; then\n  printf '%s\\n' ");
    let message = shell_stop_message_of(index, command.program.as_str());
    let qm = sh_quote(message.as_str());
    script.append(qm.as_str());
    script.append("\"$tf_status\" >&2\n  exit \"$tf_status\"\nfi\n");
    assert(script@ =~= before + (sh_quoted(program@) + t + sh_check_head() + sh_quoted(
        shell_stop_message((index + 1) as nat, command@.program),
    ) + sh_check_tail()));
    Ok(())
}

/// The POSIX shell script that runs a shortcut's steps in order and stops at
/// the first that fails.
pub fn sh_script(shortcut: &Shortcut, runtime_argument_count: usize, plan: &ArgumentPlan) -> (r:
    Result<String>)
    ensures
        result_view(r) == sh_steps_text(
            shortcut@.commands,
            shortcut@.commands.len(),
            runtime_argument_count as nat,
            plan.uses_placeholders,
        ),
{
    let ghost cs = shortcut@.commands;
    let ghost count = runtime_argument_count as nat;
    let ghost uses = plan.uses_placeholders;
    let mut script = String::new();
    let mut index: usize = 0;
    while index < shortcut.commands.len()
        invariant
            cs == shortcut@.commands,
            cs.len() == shortcut.commands.len(),
            count == runtime_argument_count as nat,
            uses == plan.uses_placeholders,
            0 <= index <= shortcut.commands.len(),
            sh_steps_text(cs, index as nat, count, uses) == Ok::<Seq<char>, Seq<char>>(script@),
        decreases shortcut.commands.len() - index,
    {
        let command = &shortcut.commands[index];
        assert(cs[index as int] == command@);
        let append = !plan.uses_placeholders && index + 1 == shortcut.commands.len();
        match append_sh_step(&mut script, command, index, runtime_argument_count, append) {
            Ok(()) => {},
            Err(e) => {
                proof {
                    lemma_sh_steps_error(cs, (index + 1) as nat, count, uses);
                }
                return Err(e);
            },
        }
        index = index + 1;
    }
    Ok(script)
}

// ---------------------------------------------------------------------------
// PowerShell scripts
// ---------------------------------------------------------------------------

/// A word quoted for PowerShell: between single quotes, each single quote
/// doubled.
pub open spec fn ps_quoted(s: Seq<char>) -> Seq<char> {
    seq!['\''] + replace_char(s, '\'', "''"@) + seq!['\'']
}

/// Quotes a word for PowerShell.
pub fn powershell_quote(value: &str) -> (r: String)
    ensures
        r@ == ps_quoted(value@),
{
    let mut q = String::new();
    push_char(&mut q, '\'');
    let body = replace_char_with(value, '\'', "''");
    q.append(body.as_str());
    push_char(&mut q, '\'');
    assert(q@ =~= ps_quoted(value@));
    q
}

/// A PowerShell parameter name such as `-ItemType`: a `-`, an ASCII letter,
/// then ASCII letters, digits and `-`.
pub open spec fn is_ps_parameter(s: Seq<char>) -> bool {
    &&& s.len() >= 2
    &&& s[0] == '-'
    &&& is_alpha(s[1])
    &&& forall|k: int| 2 <= k < s.len() ==> is_alnum(#[trigger] s[k]) || s[k] == '-'
}

/// Whether a literal argument is written bare, as a PowerShell parameter.
pub fn is_powershell_parameter(value: &str) -> (r: bool)
    ensures
        r == is_ps_parameter(value@),
{
    let cs = chars_of(value);
    if cs.len() < 2 || cs[0] != '-' || !is_alpha_char(cs[1]) {
        return false;
    }
    let mut k: usize = 2;
    while k < cs.len()
        invariant
            cs@ == value@,
            2 <= k <= cs.len(),
            forall|j: int| 2 <= j < k ==> is_alnum(#[trigger] cs@[j]) || cs@[j] == '-',
        decreases cs.len() - k,
    {
        if !(is_alnum_char(cs[k]) || cs[k] == '-') {
            return false;
        }
        k = k + 1;
    }
    true
}

/// A PowerShell reference to invocation argument `i`, after a space.
pub open spec fn ps_reference(i: nat) -> Seq<char> {
    " $env:"@ + environment_name(i)
}

/// References to the first `count` invocation arguments.
pub open spec fn ps_references(count: nat) -> Seq<char>
    decreases count,
{
    if count == 0 {
        Seq::empty()
    } else {
        ps_references((count - 1) as nat) + ps_reference((count - 1) as nat)
    }
}

/// What a template adds to a PowerShell command line: literal text quoted
/// unless it is a parameter name.
pub open spec fn ps_template_text(t: TemplateModel, count: nat) -> Seq<char> {
    match t {
        TemplateModel::Literal(v) => seq![' '] + if is_ps_parameter(v) {
            v
        } else {
            ps_quoted(v)
        },
        TemplateModel::Positional(i) => ps_reference(i as nat),
        TemplateModel::All => ps_references(count),
    }
}

/// What a list of templates adds to a PowerShell command line, or the first
/// template error.
pub open spec fn ps_templates_text(ts: Seq<Seq<char>>, count: nat) -> std::result::Result<
    Seq<char>,
    Seq<char>,
>
    decreases ts.len(),
{
    if ts.len() == 0 {
        Ok(Seq::empty())
    } else {
        match ps_templates_text(ts.drop_last(), count) {
            Err(m) => Err(m),
            Ok(r) => match template_of(ts.last()) {
                Err(m) => Err(m),
                Ok(t) => Ok(r + ps_template_text(t, count)),
            },
        }
    }
}

/// The arguments of a PowerShell command line, with every invocation
/// argument after them when `append` holds.
pub open spec fn ps_arguments_text(ts: Seq<Seq<char>>, count: nat, append: bool) -> std::result::Result<
    Seq<char>,
    Seq<char>,
> {
    match ps_templates_text(ts, count) {
        Err(m) => Err(m),
        Ok(t) => Ok(
            if append {
                t + ps_references(count)
            } else {
                t
            },
        ),
    }
}

fn append_powershell_runtime_argument(script: &mut String, index: usize)
    ensures
        final(script)@ == old(script)@ + ps_reference(index as nat),
{
    script.append(" $env:");
    let name = argument_environment_name(index);
    script.append(name.as_str());
}

/// Appends references to the first `count` invocation arguments.
pub fn append_powershell_runtime_arguments(script: &mut String, count: usize)
    ensures
        final(script)@ == old(script)@ + ps_references(count as nat),
{
    let ghost start = script@;
    let mut index: usize = 0;
    while index < count
        invariant
            0 <= index <= count,
            script@ =~= start + ps_references(index as nat),
        decreases count - index,
    {
        append_powershell_runtime_argument(script, index);
        index = index + 1;
    }
}

proof fn lemma_ps_error_prefix(s: Seq<Seq<char>>, k: int, count: nat)
    requires
        0 <= k <= s.len(),
        ps_templates_text(s.take(k), count) is Err,
    ensures
        ps_templates_text(s, count) == ps_templates_text(s.take(k), count),
    decreases s.len() - k,
{
    if k < s.len() {
        assert(s.take(k + 1).drop_last() =~= s.take(k));
        lemma_ps_error_prefix(s, k + 1, count);
    } else {
        assert(s.take(k) =~= s);
    }
}

/// Appends the arguments of a command to a PowerShell command line.
pub fn append_powershell_arguments(
    script: &mut String,
    templates: &Vec<String>,
    runtime_argument_count: usize,
    append_runtime_arguments: bool,
) -> (r: Result<()>)
    ensures
        match ps_arguments_text(
            views(templates@),
            runtime_argument_count as nat,
            append_runtime_arguments,
        ) {
            Ok(t) => r is Ok && final(script)@ == old(script)@ + t,
            Err(m) => r matches Err(e) && e@ == m,
        },
{
    let ghost ts = views(templates@);
    let ghost start = script@;
    let count = runtime_argument_count;
    let mut i: usize = 0;
    assert(ts.take(0) =~= Seq::<Seq<char>>::empty());
    while i < templates.len()
        invariant
            ts == views(templates@),
            count == runtime_argument_count,
            0 <= i <= templates.len(),
            ps_templates_text(ts.take(i as int), count as nat) matches Ok(t) && script@ =~= start + t,
        decreases templates.len() - i,
    {
        let ghost before = script@;
        assert(ts.take(i + 1).drop_last() =~= ts.take(i as int));
        assert(ts.take(i + 1).last() == templates@[i as int]@);
        match parse_argument_template(templates[i].as_str()) {
            Err(e) => {
                proof {
                    assert(ps_templates_text(ts.take(i + 1), count as nat) == Err::<
                        Seq<char>,
                        Seq<char>,
                    >(e@));
                    lemma_ps_error_prefix(ts, i + 1, count as nat);
                }
                return Err(e);
            },
            Ok(ArgumentTemplate::Literal(value)) => {
                push_char(script, ' ');
                if is_powershell_parameter(value.as_str()) {
                    script.append(value.as_str());
                } else {
                    let q = powershell_quote(value.as_str());
                    script.append(q.as_str());
                }
                assert(script@ =~= before + ps_template_text(TemplateModel::Literal(value@), count as nat));
            },
            Ok(ArgumentTemplate::Positional(index)) => {
                append_powershell_runtime_argument(script, index);
            },
            Ok(ArgumentTemplate::All) => {
                append_powershell_runtime_arguments(script, count);
            },
        }
        i = i + 1;
    }
    assert(ts.take(i as int) =~= ts);
    if append_runtime_arguments {
        append_powershell_runtime_arguments(script, count);
    }
    Ok(())
}

/// What a PowerShell script starts with: stop on errors, and report an
/// unexpected failure with exit code 1.
pub open spec fn ps_header() -> Seq<char> {
    "$ErrorActionPreference = 'Stop'\ntrap { [Console]::Error.WriteLine(\"transfigure: shell step failed: $($_.Exception.Message)\"); exit 1 }\n"@
}

pub open spec fn ps_step_head() -> Seq<char> {
    "$LASTEXITCODE = 0\n& "@
}

pub open spec fn ps_check_head() -> Seq<char> {
    "\n$tfSucceeded = $?\n$tfExitCode = $LASTEXITCODE\nif (-not $tfSucceeded -or $tfExitCode -ne 0) {\n  if ($tfExitCode -eq 0) { $tfExitCode = 1 }\n  [Console]::Error.WriteLine("@
}

pub open spec fn ps_check_tail() -> Seq<char> {
    " + $tfExitCode)\n  exit $tfExitCode\n}\n"@
}

/// The PowerShell text of step `n` (from 1) of a script.
pub open spec fn ps_step_text(c: CommandModel, n: nat, count: nat, append: bool) -> std::result::Result<
    Seq<char>,
    Seq<char>,
> {
    match literal_of(c.program) {
        Err(m) => Err(m),
        Ok(p) => match ps_arguments_text(c.args, count, append) {
            Err(m) => Err(m),
            Ok(a) => Ok(
                ps_step_head() + ps_quoted(p) + a + ps_check_head() + ps_quoted(
                    shell_stop_message(n, c.program),
                ) + ps_check_tail(),
            ),
        },
    }
}

/// The PowerShell text of the first `k` steps.
pub open spec fn ps_steps_text(cs: Seq<CommandModel>, k: nat, count: nat, uses_placeholders: bool) -> std::result::Result<
    Seq<char>,
    Seq<char>,
>
    decreases k,
{
    if k == 0 {
        Ok(Seq::empty())
    } else {
        match ps_steps_text(cs, (k - 1) as nat, count, uses_placeholders) {
            Err(m) => Err(m),
            Ok(s) => match ps_step_text(
                cs[k - 1],
                k,
                count,
                !uses_placeholders && k == cs.len(),
            ) {
                Err(m) => Err(m),
                Ok(t) => Ok(s + t),
            },
        }
    }
}

proof fn lemma_ps_steps_error(cs: Seq<CommandModel>, k: nat, count: nat, uses: bool)
    requires
        k <= cs.len(),
        ps_steps_text(cs, k, count, uses) is Err,
    ensures
        ps_steps_text(cs, cs.len(), count, uses) == ps_steps_text(cs, k, count, uses),
    decreases cs.len() - k,
{
    if k < cs.len() {
        lemma_ps_steps_error(cs, k + 1, count, uses);
    }
}

/// Appends step `index + 1` of a PowerShell script.
fn append_powershell_step(
    script: &mut String,
    command: &crate::config::CommandSpec,
    index: usize,
    count: usize,
    append: bool,
) -> (r: Result<()>)
    requires
        index < usize::MAX,
    ensures
        match ps_step_text(command@, (index + 1) as nat, count as nat, append) {
            Ok(t) => r is Ok && final(script)@ == old(script)@ + t,
            Err(m) => r matches Err(e) && e@ == m,
        },
{
    let ghost before = script@;
    script.append("$LASTEXITCODE = 0\n& ");
    let program = literal_value(command.program.as_str())?;
    let q = powershell_quote(program.as_str());
    script.append(q.as_str());
    let ghost after_program = script@;
    append_powershell_arguments(script, &command.args, count, append)?;
    let ghost t = ps_arguments_text(command@.args, count as nat, append)->Ok_0;
    assert(script@ == after_program + t);
    script.append(
        "\n$tfSucceeded = $?\n$tfExitCode = $LASTEXITCODE\nif (-not $tfSucceeded -or $tfExitCode -ne 0) {\n  if ($tfExitCode -eq 0) { $tfExitCode = 1 }\n  [Console]::Error.WriteLine(",
    );
    let message = shell_stop_message_of(index, command.program.as_str());
    let qm = powershell_quote(message.as_str());
    script.append(qm.as_str());
    script.append(" + $tfExitCode)\n  exit $tfExitCode\n}\n");
    assert(script@ =~= before + (ps_step_head() + ps_quoted(program@) + t + ps_check_head()
        + ps_quoted(shell_stop_message((index + 1) as nat, command@.program)) + ps_check_tail()));
    Ok(())
}

/// The PowerShell script that runs a shortcut's steps in order and stops at
/// the first that fails.
pub fn powershell_script(shortcut: &Shortcut, runtime_argument_count: usize, plan: &ArgumentPlan) -> (r:
    Result<String>)
    ensures
        match ps_steps_text(
            shortcut@.commands,
            shortcut@.commands.len(),
            runtime_argument_count as nat,
            plan.uses_placeholders,
        ) {
            Ok(t) => r matches Ok(s) && s@ == ps_header() + t,
            Err(m) => r matches Err(e) && e@ == m,
        },
{
    let ghost cs = shortcut@.commands;
    let ghost count = runtime_argument_count as nat;
    let ghost uses = plan.uses_placeholders;
    let mut script = "$ErrorActionPreference = 'Stop'\ntrap { [Console]::Error.WriteLine(\"transfigure: shell step failed: $($_.Exception.Message)\"); exit 1 }\n".to_owned();
    let ghost header = script@;
    let mut index: usize = 0;
    assert(header == header + Seq::<char>::empty());
    while index < shortcut.commands.len()
        invariant
            cs == shortcut@.commands,
            cs.len() == shortcut.commands.len(),
            count == runtime_argument_count as nat,
            uses == plan.uses_placeholders,
            header == ps_header(),
            0 <= index <= shortcut.commands.len(),
            ps_steps_text(cs, index as nat, count, uses) matches Ok(t) && script@ =~= header + t,
        decreases shortcut.commands.len() - index,
    {
        let command = &shortcut.commands[index];
        assert(cs[index as int] == command@);
        let append = !plan.uses_placeholders && index + 1 == shortcut.commands.len();
        match append_powershell_step(&mut script, command, index, runtime_argument_count, append) {
            Ok(()) => {},
            Err(e) => {
                proof {
                    lemma_ps_steps_error(cs, (index + 1) as nat, count, uses);
                }
                return Err(e);
            },
        }
        index = index + 1;
    }
    Ok(script)
}

// ---------------------------------------------------------------------------
// Laws of runs
// ---------------------------------------------------------------------------

/// The argument reads as literal text.
pub open spec fn is_literal_argument(a: Seq<char>) -> bool {
    template_of(a) matches Ok(t) && t is Literal
}

/// Arguments that are all literal resolve to text only.
proof fn lemma_literal_arguments_resolve_to_text(ts: Seq<Seq<char>>, count: nat)
    requires
        forall|k: int| 0 <= k < ts.len() ==> is_literal_argument(#[trigger] ts[k]),
    ensures
        resolve_templates(ts, count) matches Ok(r) && r.len() == ts.len() && forall|k: int|
            0 <= k < r.len() ==> #[trigger] r[k] is Text,
    decreases ts.len(),
{
    if ts.len() > 0 {
        let d = ts.drop_last();
        assert forall|k: int| 0 <= k < d.len() implies is_literal_argument(#[trigger] d[k]) by {
            assert(d[k] == ts[k]);
        }
        lemma_literal_arguments_resolve_to_text(d, count);
        assert(is_literal_argument(ts[ts.len() - 1]));
    }
}

/// With no template error in a list, every template reads.
proof fn lemma_no_error_each_ok(args: Seq<Seq<char>>)
    requires
        first_template_error(args) is None,
    ensures
        forall|k: int| 0 <= k < args.len() ==> template_of(#[trigger] args[k]) is Ok,
    decreases args.len(),
{
    if args.len() > 0 {
        let d = args.drop_last();
        lemma_no_error_each_ok(d);
        assert forall|k: int| 0 <= k < args.len() implies template_of(#[trigger] args[k]) is Ok by {
            if k < d.len() {
                assert(args[k] == d[k]);
            }
        }
    }
}

/// Without placeholders and without a shell, invocation arguments go to the
/// last step only, after its own arguments; every other step gets its own
/// arguments alone, as text.
pub proof fn law_arguments_reach_only_the_last_step(cs: Seq<CommandModel>, count: nat, index: int)
    requires
        plan_of(all_arguments(cs)) matches Ok(p) && !p.uses_placeholders,
        0 <= index < cs.len(),
        literal_of(cs[index].program) is Ok,
    ensures
        direct_step_of(cs, index, count, false) matches Ok(step) && {
            let own = (step.arguments.len() - (if index + 1 == cs.len() {
                count as int
            } else {
                0
            })) as int;
            &&& own == cs[index].args.len()
            &&& forall|k: int| 0 <= k < own ==> #[trigger] step.arguments[k] is Text
            &&& index + 1 == cs.len() ==> step.arguments.subrange(own, step.arguments.len() as int)
                == all_invocation(count)
        },
{
    let all = all_arguments(cs);
    let args = cs[index].args;
    lemma_no_error_each_ok(all);
    lemma_all_arguments_prefix(cs, index);
    let base = all_arguments(cs.take(index)).len();
    assert forall|k: int| 0 <= k < args.len() implies is_literal_argument(#[trigger] args[k]) by {
        assert(all[base + k] == (all_arguments(cs.take(index)) + args)[base + k]);
        assert(all[base + k] == args[k]);
        assert(template_of(all[base + k]) is Ok);
        if !is_literal_argument(args[k]) {
            assert(is_placeholder(all[base + k]));
        }
    }
    lemma_literal_arguments_resolve_to_text(args, count);
    let r = resolve_templates(args, count)->Ok_0;
    if index + 1 == cs.len() {
        assert((r + all_invocation(count)).subrange(r.len() as int, (r + all_invocation(count)).len() as int)
            =~= all_invocation(count));
        assert forall|k: int| 0 <= k < r.len() implies #[trigger] (r + all_invocation(count))[k] is Text by {
            assert((r + all_invocation(count))[k] == r[k]);
        }
    }
}

/// The strings of `parts`, one after the other.
pub open spec fn concat(parts: Seq<Seq<char>>) -> Seq<char>
    decreases parts.len(),
{
    if parts.len() == 0 {
        Seq::empty()
    } else {
        concat(parts.drop_last()) + parts.last()
    }
}

/// The text that an argument stands for when it reads as literal text.
pub open spec fn literal_text(a: Seq<char>) -> Seq<char> {
    match template_of(a) {
        Ok(TemplateModel::Literal(t)) => t,
        _ => a,
    }
}

/// Literal arguments on a POSIX shell command line: each after a space, quoted.
pub open spec fn sh_literal_words(args: Seq<Seq<char>>) -> Seq<char> {
    concat(args.map_values(|a: Seq<char>| seq![' '] + sh_quoted(literal_text(a))))
}

/// Literal arguments on a PowerShell command line: each after a space, bare
/// when it is a parameter name, quoted otherwise.
pub open spec fn ps_literal_words(args: Seq<Seq<char>>) -> Seq<char> {
    concat(
        args.map_values(
            |a: Seq<char>|
                seq![' '] + if is_ps_parameter(literal_text(a)) {
                    literal_text(a)
                } else {
                    ps_quoted(literal_text(a))
                },
        ),
    )
}

/// The POSIX shell text of step `n` of a shortcut without placeholders: the
/// quoted program and its own arguments, then, on the last step only, every
/// invocation argument, then the check that stops a failed chain.
pub open spec fn sh_plain_step(c: CommandModel, n: nat, count: nat, last: bool) -> Seq<char> {
    sh_quoted(literal_text(c.program)) + sh_literal_words(c.args) + (if last {
        sh_references(count)
    } else {
        Seq::empty()
    }) + sh_check_head() + sh_quoted(shell_stop_message(n, c.program)) + sh_check_tail()
}

/// The PowerShell text of step `n` of a shortcut without placeholders.
pub open spec fn ps_plain_step(c: CommandModel, n: nat, count: nat, last: bool) -> Seq<char> {
    ps_step_head() + ps_quoted(literal_text(c.program)) + ps_literal_words(c.args) + (if last {
        ps_references(count)
    } else {
        Seq::empty()
    }) + ps_check_head() + ps_quoted(shell_stop_message(n, c.program)) + ps_check_tail()
}

/// In a shortcut without placeholders every argument reads as literal text.
proof fn lemma_no_placeholders_literal(cs: Seq<CommandModel>, index: int)
    requires
        plan_of(all_arguments(cs)) matches Ok(p) && !p.uses_placeholders,
        0 <= index < cs.len(),
    ensures
        forall|k: int|
            0 <= k < cs[index].args.len() ==> is_literal_argument(#[trigger] cs[index].args[k]),
{
    let all = all_arguments(cs);
    let args = cs[index].args;
    lemma_no_error_each_ok(all);
    lemma_all_arguments_prefix(cs, index);
    let base = all_arguments(cs.take(index)).len();
    assert forall|k: int| 0 <= k < args.len() implies is_literal_argument(#[trigger] args[k]) by {
        assert(all[base + k] == (all_arguments(cs.take(index)) + args)[base + k]);
        assert(all[base + k] == args[k]);
        assert(template_of(all[base + k]) is Ok);
        if !is_literal_argument(args[k]) {
            assert(is_placeholder(all[base + k]));
        }
    }
}

proof fn lemma_sh_literal_words(ts: Seq<Seq<char>>, count: nat)
    requires
        forall|k: int| 0 <= k < ts.len() ==> is_literal_argument(#[trigger] ts[k]),
    ensures
        sh_templates_text(ts, count) == Ok::<Seq<char>, Seq<char>>(sh_literal_words(ts)),
    decreases ts.len(),
{
    if ts.len() > 0 {
        let d = ts.drop_last();
        assert forall|k: int| 0 <= k < d.len() implies is_literal_argument(#[trigger] d[k]) by {
            assert(d[k] == ts[k]);
        }
        lemma_sh_literal_words(d, count);
        let f = |a: Seq<char>| seq![' '] + sh_quoted(literal_text(a));
        assert(ts.map_values(f).drop_last() =~= d.map_values(f));
        assert(is_literal_argument(ts.last()));
    }
}

proof fn lemma_ps_literal_words(ts: Seq<Seq<char>>, count: nat)
    requires
        forall|k: int| 0 <= k < ts.len() ==> is_literal_argument(#[trigger] ts[k]),
    ensures
        ps_templates_text(ts, count) == Ok::<Seq<char>, Seq<char>>(ps_literal_words(ts)),
    decreases ts.len(),
{
    if ts.len() > 0 {
        let d = ts.drop_last();
        assert forall|k: int| 0 <= k < d.len() implies is_literal_argument(#[trigger] d[k]) by {
            assert(d[k] == ts[k]);
        }
        lemma_ps_literal_words(d, count);
        let f = |a: Seq<char>|
            seq![' '] + if is_ps_parameter(literal_text(a)) {
                literal_text(a)
            } else {
                ps_quoted(literal_text(a))
            };
        assert(ts.map_values(f).drop_last() =~= d.map_values(f));
        assert(is_literal_argument(ts.last()));
    }
}

/// The steps of a shortcut without placeholders, as the POSIX shell law
/// states them.
pub open spec fn sh_plain_steps(cs: Seq<CommandModel>, count: nat) -> Seq<Seq<char>> {
    Seq::new(cs.len(), |k: int| sh_plain_step(cs[k], (k + 1) as nat, count, k + 1 == cs.len()))
}

/// The steps of a shortcut without placeholders, as the PowerShell law
/// states them.
pub open spec fn ps_plain_steps(cs: Seq<CommandModel>, count: nat) -> Seq<Seq<char>> {
    Seq::new(cs.len(), |k: int| ps_plain_step(cs[k], (k + 1) as nat, count, k + 1 == cs.len()))
}

proof fn lemma_sh_plain_prefix(cs: Seq<CommandModel>, count: nat, k: nat)
    requires
        plan_of(all_arguments(cs)) matches Ok(p) && !p.uses_placeholders,
        forall|j: int| 0 <= j < cs.len() ==> literal_of(#[trigger] cs[j].program) is Ok,
        k <= cs.len(),
    ensures
        sh_steps_text(cs, k, count, false) == Ok::<Seq<char>, Seq<char>>(
            concat(sh_plain_steps(cs, count).take(k as int)),
        ),
    decreases k,
{
    let parts = sh_plain_steps(cs, count);
    if k == 0 {
        assert(parts.take(0) =~= Seq::<Seq<char>>::empty());
    } else {
        lemma_sh_plain_prefix(cs, count, (k - 1) as nat);
        let c = cs[k - 1];
        lemma_no_placeholders_literal(cs, k - 1);
        lemma_sh_literal_words(c.args, count);
        let last = k == cs.len();
        let p = literal_of(c.program)->Ok_0;
        assert(p == literal_text(c.program));
        let words = sh_literal_words(c.args);
        let a = if last {
            words + sh_references(count)
        } else {
            words
        };
        assert(sh_arguments_text(c.args, count, last) == Ok::<Seq<char>, Seq<char>>(a));
        assert(parts[k - 1] == sh_plain_step(c, k, count, last));
        assert(sh_step_text(c, k, count, last) == Ok::<Seq<char>, Seq<char>>(parts[k - 1])) by {
            if last {
                assert(sh_plain_step(c, k, count, last) =~= sh_quoted(p) + a + sh_check_head()
                    + sh_quoted(shell_stop_message(k, c.program)) + sh_check_tail());
            } else {
                assert(sh_plain_step(c, k, count, last) =~= sh_quoted(p) + a + sh_check_head()
                    + sh_quoted(shell_stop_message(k, c.program)) + sh_check_tail());
            }
        }
        assert(parts.take(k as int).drop_last() =~= parts.take(k - 1));
    }
}

proof fn lemma_ps_plain_prefix(cs: Seq<CommandModel>, count: nat, k: nat)
    requires
        plan_of(all_arguments(cs)) matches Ok(p) && !p.uses_placeholders,
        forall|j: int| 0 <= j < cs.len() ==> literal_of(#[trigger] cs[j].program) is Ok,
        k <= cs.len(),
    ensures
        ps_steps_text(cs, k, count, false) == Ok::<Seq<char>, Seq<char>>(
            concat(ps_plain_steps(cs, count).take(k as int)),
        ),
    decreases k,
{
    let parts = ps_plain_steps(cs, count);
    if k == 0 {
        assert(parts.take(0) =~= Seq::<Seq<char>>::empty());
    } else {
        lemma_ps_plain_prefix(cs, count, (k - 1) as nat);
        let c = cs[k - 1];
        lemma_no_placeholders_literal(cs, k - 1);
        lemma_ps_literal_words(c.args, count);
        let last = k == cs.len();
        let p = literal_of(c.program)->Ok_0;
        assert(p == literal_text(c.program));
        let words = ps_literal_words(c.args);
        let a = if last {
            words + ps_references(count)
        } else {
            words
        };
        assert(ps_arguments_text(c.args, count, last) == Ok::<Seq<char>, Seq<char>>(a));
        assert(parts[k - 1] == ps_plain_step(c, k, count, last));
        assert(ps_step_text(c, k, count, last) == Ok::<Seq<char>, Seq<char>>(parts[k - 1])) by {
            assert(ps_plain_step(c, k, count, last) =~= ps_step_head() + ps_quoted(p) + a
                + ps_check_head() + ps_quoted(shell_stop_message(k, c.program)) + ps_check_tail());
        }
        assert(parts.take(k as int).drop_last() =~= parts.take(k - 1));
    }
}

/// Invocation arguments reach only the last step of a POSIX shell script for
/// a shortcut without placeholders: every step is its quoted program and its
/// own quoted arguments, and only the last step is followed by references to
/// all invocation arguments, in order.
pub proof fn law_sh_arguments_reach_only_the_last_step(cs: Seq<CommandModel>, count: nat)
    requires
        plan_of(all_arguments(cs)) matches Ok(p) && !p.uses_placeholders,
        forall|j: int| 0 <= j < cs.len() ==> literal_of(#[trigger] cs[j].program) is Ok,
    ensures
        sh_steps_text(cs, cs.len(), count, false) == Ok::<Seq<char>, Seq<char>>(
            concat(sh_plain_steps(cs, count)),
        ),
{
    lemma_sh_plain_prefix(cs, count, cs.len());
    assert(sh_plain_steps(cs, count).take(cs.len() as int) =~= sh_plain_steps(cs, count));
}

/// Invocation arguments reach only the last step of a PowerShell script for a
/// shortcut without placeholders, and they do reach it: the last step's line
/// ends, after its own arguments, with references to all invocation
/// arguments, in order.
pub proof fn law_ps_arguments_reach_only_the_last_step(cs: Seq<CommandModel>, count: nat)
    requires
        plan_of(all_arguments(cs)) matches Ok(p) && !p.uses_placeholders,
        forall|j: int| 0 <= j < cs.len() ==> literal_of(#[trigger] cs[j].program) is Ok,
    ensures
        ps_steps_text(cs, cs.len(), count, false) == Ok::<Seq<char>, Seq<char>>(
            concat(ps_plain_steps(cs, count)),
        ),
{
    lemma_ps_plain_prefix(cs, count, cs.len());
    assert(ps_plain_steps(cs, count).take(cs.len() as int) =~= ps_plain_steps(cs, count));
}

} // verus!
