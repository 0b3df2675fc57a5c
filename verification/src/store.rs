//! The store of shortcuts: names kept in order, searches that ignore ASCII
//! case, validation of what was read from the configuration file, and the
//! decisions that the commands of the program take on it.

use vstd::prelude::*;

use crate::config::{
    check_argument_templates, command_display, command_views, first_template_error,
    is_storable_command, law_parsed_shortcuts_are_storable, name_check, parse_argument_template, shortcut_of, shortcut_summary, str_eq, template_of,
    validate_name, views, ArgumentTemplate, CommandModel, CommandSpec, ShellKind, Shortcut,
    ShortcutModel, TemplateModel,
};
use crate::text::{
    chars_of, decimal, decimal_string, eq_ignore_ascii_case, eq_ignore_case, push_char,
};
use crate::{result_view, Error, Result, CONFIG_VERSION};

verus! {

// ---------------------------------------------------------------------------
// The store
// ---------------------------------------------------------------------------

/// The order of shortcut names: character by character, by code point, a
/// proper prefix first (the order of `String`, whose bytes are UTF-8).
pub open spec fn name_less(a: Seq<char>, b: Seq<char>) -> bool
    decreases a.len(),
{
    if a.len() == 0 {
        b.len() > 0
    } else if b.len() == 0 {
        false
    } else if a[0] != b[0] {
        a[0] < b[0]
    } else {
        name_less(a.drop_first(), b.drop_first())
    }
}

proof fn lemma_name_less_irreflexive(a: Seq<char>)
    ensures
        !name_less(a, a),
    decreases a.len(),
{
    if a.len() > 0 {
        lemma_name_less_irreflexive(a.drop_first());
    }
}

proof fn lemma_name_less_transitive(a: Seq<char>, b: Seq<char>, c: Seq<char>)
    requires
        name_less(a, b),
        name_less(b, c),
    ensures
        name_less(a, c),
    decreases a.len(),
{
    if a.len() > 0 && b.len() > 0 && c.len() > 0 {
        if a[0] == b[0] && b[0] == c[0] {
            lemma_name_less_transitive(a.drop_first(), b.drop_first(), c.drop_first());
        }
    }
}

proof fn lemma_name_less_total(a: Seq<char>, b: Seq<char>)
    ensures
        a == b || name_less(a, b) || name_less(b, a),
    decreases a.len(),
{
    if a.len() > 0 && b.len() > 0 && a[0] == b[0] {
        lemma_name_less_total(a.drop_first(), b.drop_first());
        if a.drop_first() == b.drop_first() {
            assert(a =~= seq![a[0]] + a.drop_first());
            assert(b =~= seq![b[0]] + b.drop_first());
        }
    } else if a.len() == 0 && b.len() == 0 {
        assert(a =~= b);
    }
}

/// `a` comes before `b` in the order of names.
fn name_less_exec(a: &str, b: &str) -> (r: bool)
    ensures
        r == name_less(a@, b@),
{
    let x = chars_of(a);
    let y = chars_of(b);
    let mut i: usize = 0;
    assert(a@.skip(0) =~= a@);
    assert(b@.skip(0) =~= b@);
    while i < x.len() && i < y.len() && x[i] == y[i]
        invariant
            x@ == a@,
            y@ == b@,
            0 <= i <= x.len(),
            i <= y.len(),
            name_less(a@, b@) == name_less(a@.skip(i as int), b@.skip(i as int)),
        decreases x.len() - i,
    {
        proof {
            let s = a@.skip(i as int);
            let t = b@.skip(i as int);
            assert(s.drop_first() =~= a@.skip(i + 1));
            assert(t.drop_first() =~= b@.skip(i + 1));
        }
        i = i + 1;
    }
    assert(a@.skip(i as int).len() == x.len() - i);
    if i < x.len() && i < y.len() {
        assert(a@.skip(i as int)[0] == x@[i as int]);
        assert(b@.skip(i as int)[0] == y@[i as int]);
    }
    if i == x.len() {
        i < y.len()
    } else if i == y.len() {
        false
    } else {
        x[i] < y[i]
    }
}

/// The shortcuts of the user, by name, with the version of the format they
/// were stored in. The names are kept in increasing order, each once.
#[derive(Debug)]
pub struct Store {
    pub version: u32,
    entries: Vec<(String, Shortcut)>,
}

pub struct StoreModel {
    pub version: u32,
    pub entries: Seq<(Seq<char>, ShortcutModel)>,
}

/// The views of the entries of a store.
pub open spec fn entry_views(v: Seq<(String, Shortcut)>) -> Seq<(Seq<char>, ShortcutModel)> {
    v.map_values(|e: (String, Shortcut)| (e.0@, e.1@))
}

impl View for Store {
    type V = StoreModel;

    closed spec fn view(&self) -> StoreModel {
        StoreModel { version: self.version, entries: entry_views(self.entries@) }
    }
}

/// Names in strictly increasing order.
pub open spec fn names_sorted(e: Seq<(Seq<char>, ShortcutModel)>) -> bool {
    forall|i: int, j: int| 0 <= i < j < e.len() ==> name_less(#[trigger] e[i].0, #[trigger] e[j].0)
}

/// The shortcut stored under a name, if any.
pub open spec fn lookup(e: Seq<(Seq<char>, ShortcutModel)>, name: Seq<char>) -> Option<ShortcutModel> {
    if exists|i: int| 0 <= i < e.len() && e[i].0 == name {
        let i = choose|i: int| 0 <= i < e.len() && e[i].0 == name;
        Some(e[i].1)
    } else {
        None
    }
}

/// The first entry whose name equals `requested` without regard to ASCII case.
pub open spec fn first_match(e: Seq<(Seq<char>, ShortcutModel)>, requested: Seq<char>) -> Option<int> {
    if exists|i: int| 0 <= i < e.len() && eq_ignore_case(e[i].0, requested) {
        Some(
            choose|i: int|
                0 <= i < e.len() && eq_ignore_case(e[i].0, requested) && forall|j: int|
                    0 <= j < i ==> !eq_ignore_case(#[trigger] e[j].0, requested),
        )
    } else {
        None
    }
}

proof fn lemma_first_match(e: Seq<(Seq<char>, ShortcutModel)>, requested: Seq<char>, i: int)
    requires
        0 <= i < e.len(),
        eq_ignore_case(e[i].0, requested),
        forall|j: int| 0 <= j < i ==> !eq_ignore_case(#[trigger] e[j].0, requested),
    ensures
        first_match(e, requested) == Some(i),
{
    let k = choose|k: int|
        0 <= k < e.len() && eq_ignore_case(e[k].0, requested) && forall|j: int|
            0 <= j < k ==> !eq_ignore_case(#[trigger] e[j].0, requested);
    assert(0 <= k < e.len() && eq_ignore_case(e[k].0, requested) && forall|j: int|
        0 <= j < k ==> !eq_ignore_case(#[trigger] e[j].0, requested));
    if k < i {
        assert(!eq_ignore_case(e[k].0, requested));
    }
    if i < k {
        assert(!eq_ignore_case(e[i].0, requested));
    }
}

/// Where a name goes among sorted entries: after every entry whose name comes
/// before it.
pub open spec fn insert_position(e: Seq<(Seq<char>, ShortcutModel)>, name: Seq<char>) -> int
    decreases e.len(),
{
    if e.len() == 0 {
        0
    } else if name_less(e[0].0, name) {
        1 + insert_position(e.drop_first(), name)
    } else {
        0
    }
}

/// The entries after storing `s` under `name`: the entry of that name gets
/// the new shortcut, or a new entry goes in its place in the order of names.
pub open spec fn with_entry(e: Seq<(Seq<char>, ShortcutModel)>, name: Seq<char>, s: ShortcutModel) -> Seq<
    (Seq<char>, ShortcutModel),
> {
    let p = insert_position(e, name);
    if p < e.len() && e[p].0 == name {
        e.update(p, (name, s))
    } else {
        e.insert(p, (name, s))
    }
}

/// The entries without the one named exactly `name`, if there is one.
pub open spec fn without_entry(e: Seq<(Seq<char>, ShortcutModel)>, name: Seq<char>) -> Seq<
    (Seq<char>, ShortcutModel),
> {
    if exists|i: int| 0 <= i < e.len() && e[i].0 == name {
        e.remove(index_of_name(e, name))
    } else {
        e
    }
}

/// The position of the entry named exactly `name`, when there is one.
pub open spec fn index_of_name(e: Seq<(Seq<char>, ShortcutModel)>, name: Seq<char>) -> int {
    choose|i: int| 0 <= i < e.len() && e[i].0 == name
}

proof fn lemma_insert_position(e: Seq<(Seq<char>, ShortcutModel)>, name: Seq<char>, p: int)
    requires
        0 <= p <= e.len(),
        forall|i: int| 0 <= i < p ==> name_less(#[trigger] e[i].0, name),
        p == e.len() || !name_less(e[p].0, name),
    ensures
        insert_position(e, name) == p,
    decreases p,
{
    if p > 0 {
        let t = e.drop_first();
        assert forall|i: int| 0 <= i < p - 1 implies name_less(#[trigger] t[i].0, name) by {
            assert(t[i] == e[i + 1]);
        }
        lemma_insert_position(t, name, p - 1);
    }
}

/// Sorted names are distinct.
proof fn lemma_sorted_distinct(e: Seq<(Seq<char>, ShortcutModel)>, i: int, j: int)
    requires
        names_sorted(e),
        0 <= i < e.len(),
        0 <= j < e.len(),
        e[i].0 == e[j].0,
    ensures
        i == j,
{
    if i < j {
        assert(name_less(e[i].0, e[j].0));
        lemma_name_less_irreflexive(e[i].0);
    } else if j < i {
        assert(name_less(e[j].0, e[i].0));
        lemma_name_less_irreflexive(e[i].0);
    }
}

proof fn lemma_lookup_at(e: Seq<(Seq<char>, ShortcutModel)>, p: int)
    requires
        names_sorted(e),
        0 <= p < e.len(),
    ensures
        lookup(e, e[p].0) == Some(e[p].1),
{
    let i = choose|i: int| 0 <= i < e.len() && e[i].0 == e[p].0;
    lemma_sorted_distinct(e, i, p);
}

impl Store {
    /// Its names are in strictly increasing order.
    pub open spec fn wf(&self) -> bool {
        names_sorted(self@.entries)
    }

    /// An empty store of the current format.
    pub fn new() -> (r: Store)
        ensures
            r.wf(),
            r@.version == CONFIG_VERSION,
            r@.entries.len() == 0,
    {
        let r = Store { version: CONFIG_VERSION, entries: Vec::new() };
        assert(entry_views(r.entries@) =~= Seq::empty());
        r
    }

    /// How many shortcuts the store holds.
    pub fn len(&self) -> (r: usize)
        ensures
            r == self@.entries.len(),
    {
        self.entries.len()
    }

    /// The store holds no shortcut.
    pub fn is_empty(&self) -> (r: bool)
        ensures
            r == (self@.entries.len() == 0),
    {
        self.entries.len() == 0
    }

    /// The entry at a position in the order of names.
    pub fn entry(&self, i: usize) -> (r: (&String, &Shortcut))
        requires
            i < self@.entries.len(),
        ensures
            (r.0@, r.1@) == self@.entries[i as int],
    {
        let e = &self.entries[i];
        (&e.0, &e.1)
    }

    /// The name of the first shortcut, in the order of names, whose name
    /// equals `requested` when ASCII case is ignored.
    pub fn find_name(&self, requested: &str) -> (r: Option<&str>)
        ensures
            match first_match(self@.entries, requested@) {
                Some(i) => r matches Some(n) && n@ == self@.entries[i].0,
                None => r is None,
            },
    {
        match self.find_index(requested) {
            Some(i) => {
                assert(self@.entries[i as int].0 == self.entries@[i as int].0@);
                Some(self.entries[i].0.as_str())
            },
            None => None,
        }
    }

    /// The first shortcut, in the order of names, whose name equals
    /// `requested` when ASCII case is ignored, with its stored name.
    pub fn find(&self, requested: &str) -> (r: Option<(&str, &Shortcut)>)
        ensures
            match first_match(self@.entries, requested@) {
                Some(i) => r matches Some(p) && (p.0@, p.1@) == self@.entries[i],
                None => r is None,
            },
    {
        match self.find_index(requested) {
            Some(i) => {
                let e = &self.entries[i];
                assert(self@.entries[i as int] == (e.0@, e.1@));
                Some((e.0.as_str(), &e.1))
            },
            None => None,
        }
    }

    /// Stores a shortcut under a name, in its place in the order of names,
    /// and gives back the shortcut that the name held before, if any.
    pub fn insert(&mut self, name: String, shortcut: Shortcut) -> (r: Option<Shortcut>)
        requires
            old(self).wf(),
        ensures
            final(self).wf(),
            final(self)@.version == old(self)@.version,
            final(self)@.entries == with_entry(old(self)@.entries, name@, shortcut@),
            match r {
                Some(v) => lookup(old(self)@.entries, name@) == Some(v@),
                None => lookup(old(self)@.entries, name@) is None,
            },
    {
        let ghost e = entry_views(self.entries@);
        let ghost item = (name@, shortcut@);
        let mut p: usize = 0;
        while p < self.entries.len() && name_less_exec(self.entries[p].0.as_str(), name.as_str())
            invariant
                e == entry_views(self.entries@),
                names_sorted(e),
                0 <= p <= self.entries.len(),
                forall|i: int| 0 <= i < p ==> name_less(#[trigger] e[i].0, name@),
            decreases self.entries.len() - p,
        {
            assert(e[p as int].0 == self.entries@[p as int].0@);
            p = p + 1;
        }
        proof {
            assert forall|i: int| p <= i < e.len() implies name_less(name@, #[trigger] e[i].0)
                || e[i].0 == name@ && i == p by {
                assert(e[p as int].0 == self.entries@[p as int].0@);
                lemma_name_less_total(name@, e[p as int].0);
                if i > p {
                    if e[p as int].0 == name@ {
                        assert(name_less(e[p as int].0, e[i].0));
                    } else {
                        lemma_name_less_transitive(name@, e[p as int].0, e[i].0);
                    }
                }
            }
            assert forall|i: int| 0 <= i < e.len() && i != p implies e[i].0 != name@ by {
                if i < p {
                    lemma_name_less_irreflexive(name@);
                } else {
                    if name_less(name@, e[i].0) {
                        lemma_name_less_irreflexive(name@);
                    }
                }
            }
        }
        proof {
            lemma_insert_position(e, name@, p as int);
            assert(old(self)@.entries == e);
        }
        if p < self.entries.len() && str_eq(self.entries[p].0.as_str(), name.as_str()) {
            let old_entry = self.entries.remove(p);
            self.entries.insert(p, (name, shortcut));
            proof {
                assert(entry_views(self.entries@) =~= e.update(p as int, item));
                assert(old_entry.1@ == e[p as int].1);
                assert(old(self)@.entries == e);
                assert(e[p as int].0 == name@);
                lemma_lookup_at(e, p as int);
                let f = entry_views(self.entries@);
                assert forall|i: int, j: int| 0 <= i < j < f.len() implies name_less(
                    #[trigger] f[i].0,
                    #[trigger] f[j].0,
                ) by {
                    assert(f[i].0 == e[i].0);
                    assert(f[j].0 == e[j].0);
                }
            }
            Some(old_entry.1)
        } else {
            self.entries.insert(p, (name, shortcut));
            proof {
                let f = entry_views(self.entries@);
                assert(f =~= e.insert(p as int, item));
                assert(!exists|i: int| 0 <= i < e.len() && e[i].0 == name@);
                if p < e.len() {
                    assert(e[p as int].0 != name@);
                }
                assert forall|i: int, j: int| 0 <= i < j < f.len() implies name_less(
                    #[trigger] f[i].0,
                    #[trigger] f[j].0,
                ) by {
                    if j < p {
                    } else if j == p {
                    } else if i < p {
                        assert(name_less(e[i].0, name@));
                        assert(name_less(name@, e[j - 1].0));
                        lemma_name_less_transitive(e[i].0, name@, e[j - 1].0);
                    } else if i == p {
                        assert(f[j].0 == e[j - 1].0);
                    } else {
                        assert(f[i].0 == e[i - 1].0);
                        assert(f[j].0 == e[j - 1].0);
                    }
                }
            }
            None
        }
    }

    /// Takes the shortcut stored under exactly this name out of the store.
    pub fn remove(&mut self, name: &str) -> (r: Option<Shortcut>)
        requires
            old(self).wf(),
        ensures
            final(self).wf(),
            final(self)@.version == old(self)@.version,
            final(self)@.entries == without_entry(old(self)@.entries, name@),
            match r {
                Some(v) => lookup(old(self)@.entries, name@) == Some(v@),
                None => lookup(old(self)@.entries, name@) is None,
            },
    {
        let ghost e = entry_views(self.entries@);
        let mut p: usize = 0;
        while p < self.entries.len()
            invariant
                e == entry_views(self.entries@),
                self.entries@ == old(self).entries@,
                self.version == old(self).version,
                names_sorted(e),
                0 <= p <= self.entries.len(),
                forall|i: int| 0 <= i < p ==> #[trigger] e[i].0 != name@,
            decreases self.entries.len() - p,
        {
            assert(e[p as int].0 == self.entries@[p as int].0@);
            if str_eq(self.entries[p].0.as_str(), name) {
                let old_entry = self.entries.remove(p);
                proof {
                    let f = entry_views(self.entries@);
                    assert(f =~= e.remove(p as int));
                    assert(old(self)@.entries == e);
                    assert(e[p as int].1 == old_entry.1@);
                    let q = index_of_name(e, name@);
                    lemma_sorted_distinct(e, q, p as int);
                    lemma_lookup_at(e, p as int);
                    assert forall|i: int, j: int| 0 <= i < j < f.len() implies name_less(
                        #[trigger] f[i].0,
                        #[trigger] f[j].0,
                    ) by {
                        if i < p {
                            assert(f[i].0 == e[i].0);
                        } else {
                            assert(f[i].0 == e[i + 1].0);
                        }
                        if j < p {
                            assert(f[j].0 == e[j].0);
                        } else {
                            assert(f[j].0 == e[j + 1].0);
                        }
                    }
                }
                return Some(old_entry.1);
            }
            p = p + 1;
        }
        None
    }

    fn find_index(&self, requested: &str) -> (r: Option<usize>)
        ensures
            match first_match(self@.entries, requested@) {
                Some(i) => r matches Some(k) && k as int == i,
                None => r is None,
            },
            r matches Some(k) ==> k < self@.entries.len(),
    {
        let ghost e = self@.entries;
        let mut i: usize = 0;
        while i < self.entries.len()
            invariant
                e == self@.entries,
                e.len() == self.entries.len(),
                0 <= i <= self.entries.len(),
                forall|j: int| 0 <= j < i ==> !eq_ignore_case(#[trigger] e[j].0, requested@),
            decreases self.entries.len() - i,
        {
            assert(e[i as int].0 == self.entries@[i as int].0@);
            if eq_ignore_ascii_case(self.entries[i].0.as_str(), requested) {
                proof {
                    lemma_first_match(e, requested@, i as int);
                }
                return Some(i);
            }
            i = i + 1;
        }
        None
    }
}

pub open spec fn duplicate_name_message(name: Seq<char>) -> Seq<char> {
    "configuration contains duplicate shortcut name '"@ + name + "'"@
}

pub open spec fn empty_command_message(name: Seq<char>) -> Seq<char> {
    "shortcut '"@ + name + "' has an invalid empty command"@
}

pub open spec fn stored_placeholder_program_message(name: Seq<char>) -> Seq<char> {
    "shortcut '"@ + name
        + "' uses a placeholder as a program; placeholders are allowed only in arguments"@
}

/// What is wrong with one stored command, if anything: its program must be
/// literal text and each argument a valid template.
pub open spec fn stored_command_error(name: Seq<char>, c: CommandModel) -> Option<Seq<char>> {
    match template_of(c.program) {
        Err(m) => Some(m),
        Ok(TemplateModel::Literal(_)) => first_template_error(c.args),
        Ok(_) => Some(stored_placeholder_program_message(name)),
    }
}

/// The first stored command, in order, with an error.
pub open spec fn stored_commands_error(name: Seq<char>, cs: Seq<CommandModel>) -> Option<Seq<char>>
    decreases cs.len(),
{
    if cs.len() == 0 {
        None
    } else {
        match stored_commands_error(name, cs.drop_last()) {
            Some(m) => Some(m),
            None => stored_command_error(name, cs.last()),
        }
    }
}

/// What is wrong with a stored entry given the entries before it: its name
/// must be valid and differ, ignoring ASCII case, from every earlier name; it
/// must have commands, none with an empty program, and valid templates.
pub open spec fn stored_entry_error(
    earlier: Seq<(Seq<char>, ShortcutModel)>,
    entry: (Seq<char>, ShortcutModel),
) -> Option<Seq<char>> {
    let (name, shortcut) = entry;
    match name_check(name) {
        Err(m) => Some(m),
        Ok(_) => if exists|j: int| 0 <= j < earlier.len() && eq_ignore_case(earlier[j].0, name) {
            Some(duplicate_name_message(name))
        } else if shortcut.commands.len() == 0 || exists|k: int|
            0 <= k < shortcut.commands.len() && shortcut.commands[k].program.len() == 0 {
            Some(empty_command_message(name))
        } else {
            stored_commands_error(name, shortcut.commands)
        },
    }
}

/// The error of the first entry, in the order of names, that is not valid.
pub open spec fn store_error(e: Seq<(Seq<char>, ShortcutModel)>) -> Option<Seq<char>>
    decreases e.len(),
{
    if e.len() == 0 {
        None
    } else {
        match store_error(e.drop_last()) {
            Some(m) => Some(m),
            None => stored_entry_error(e.drop_last(), e.last()),
        }
    }
}

/// The error of the first stored command with one.
fn check_stored_commands(name: &str, commands: &Vec<CommandSpec>) -> (r: Result<()>)
    ensures
        match stored_commands_error(name@, command_views(commands@)) {
            Some(m) => r matches Err(x) && x@ == m,
            None => r is Ok,
        },
{
    let ghost cs = command_views(commands@);
    let mut i: usize = 0;
    while i < commands.len()
        invariant
            cs == command_views(commands@),
            0 <= i <= commands.len(),
            stored_commands_error(name@, cs.take(i as int)) is None,
        decreases commands.len() - i,
    {
        let c = &commands[i];
        assert(cs.take(i + 1).drop_last() =~= cs.take(i as int));
        assert(cs.take(i + 1).last() == c@);
        let step: Result<()> = match parse_argument_template(c.program.as_str()) {
            Err(e) => Err(e),
            Ok(ArgumentTemplate::Literal(_)) => {
                let r = check_argument_templates(&c.args, 0);
                assert(views(c.args@).skip(0) =~= views(c.args@));
                r
            },
            Ok(_) => {
                let mut m = "shortcut '".to_owned();
                m.append(name);
                m.append("' uses a placeholder as a program; placeholders are allowed only in arguments");
                Err(Error::msg(m))
            },
        };
        if step.is_err() {
            proof {
                lemma_stored_error_extends(name@, cs, i + 1);
            }
            return step;
        }
        i = i + 1;
    }
    assert(cs.take(i as int) =~= cs);
    Ok(())
}

proof fn lemma_stored_error_extends(name: Seq<char>, s: Seq<CommandModel>, k: int)
    requires
        0 <= k <= s.len(),
        stored_commands_error(name, s.take(k)) is Some,
    ensures
        stored_commands_error(name, s) == stored_commands_error(name, s.take(k)),
    decreases s.len() - k,
{
    if k < s.len() {
        assert(s.take(k + 1).drop_last() =~= s.take(k));
        lemma_stored_error_extends(name, s, k + 1);
    } else {
        assert(s.take(k) =~= s);
    }
}

proof fn lemma_store_error_extends(s: Seq<(Seq<char>, ShortcutModel)>, k: int)
    requires
        0 <= k <= s.len(),
        store_error(s.take(k)) is Some,
    ensures
        store_error(s) == store_error(s.take(k)),
    decreases s.len() - k,
{
    if k < s.len() {
        assert(s.take(k + 1).drop_last() =~= s.take(k));
        lemma_store_error_extends(s, k + 1);
    } else {
        assert(s.take(k) =~= s);
    }
}

pub open spec fn unsupported_version_message(version: u32, path: Seq<char>) -> Seq<char> {
    "unsupported configuration version "@ + decimal(version as nat) + " in "@ + path
        + "; expected version "@ + decimal(CONFIG_VERSION as nat)
}

pub open spec fn already_exists_message(name: Seq<char>) -> Seq<char> {
    "shortcut '"@ + name + "' already exists; use `transfigure update "@ + name + " -- ...`"@
}

pub open spec fn missing_shortcut_message(name: Seq<char>) -> Seq<char> {
    "shortcut '"@ + name + "' does not exist"@
}

fn missing_shortcut(name: &str) -> (e: Error)
    ensures
        e@ == missing_shortcut_message(name@),
{
    let mut m = "shortcut '".to_owned();
    m.append(name);
    m.append("' does not exist");
    Error::msg(m)
}

impl Default for Store {
    fn default() -> (r: Store)
        ensures
            r.wf(),
            r@.version == CONFIG_VERSION,
            r@.entries.len() == 0,
    {
        Store::new()
    }
}

impl Store {
    /// Checks every stored shortcut: valid and distinct names, at least one
    /// command each, non-empty literal programs and valid templates.
    pub fn validate(&self) -> (r: Result<()>)
        ensures
            match store_error(self@.entries) {
                Some(m) => r matches Err(x) && x@ == m,
                None => r is Ok,
            },
    {
        let ghost e = self@.entries;
        let mut i: usize = 0;
        while i < self.entries.len()
            invariant
                e == self@.entries,
                e.len() == self.entries.len(),
                0 <= i <= self.entries.len(),
                store_error(e.take(i as int)) is None,
            decreases self.entries.len() - i,
        {
            let name = &self.entries[i].0;
            let shortcut = &self.entries[i].1;
            let ghost earlier = e.take(i as int);
            assert(e.take(i + 1).drop_last() =~= earlier);
            assert(e.take(i + 1).last() == (name@, shortcut@));
            let step = self.check_entry(i);
            if step.is_err() {
                proof {
                    lemma_store_error_extends(e, i + 1);
                }
                return step;
            }
            i = i + 1;
        }
        assert(e.take(i as int) =~= e);
        Ok(())
    }

    /// The check of the entry at position `i`, given those before it.
    fn check_entry(&self, i: usize) -> (r: Result<()>)
        requires
            i < self@.entries.len(),
        ensures
            match stored_entry_error(self@.entries.take(i as int), self@.entries[i as int]) {
                Some(m) => r matches Err(x) && x@ == m,
                None => r is Ok,
            },
    {
        let ghost e = self@.entries;
        let ghost earlier = e.take(i as int);
        let name = &self.entries[i].0;
        let shortcut = &self.entries[i].1;
        assert(e[i as int] == (name@, shortcut@));
        validate_name(name.as_str())?;
        let mut j: usize = 0;
        while j < i
            invariant
                e == self@.entries,
                e.len() == self.entries.len(),
                earlier == e.take(i as int),
                i < self.entries.len(),
                name == &self.entries@[i as int].0,
                e[i as int].0 == name@,
                name_check(name@) is Ok,
                0 <= j <= i,
                forall|k: int| 0 <= k < j ==> !eq_ignore_case(#[trigger] earlier[k].0, name@),
            decreases i - j,
        {
            assert(earlier[j as int].0 == self.entries@[j as int].0@);
            if eq_ignore_ascii_case(self.entries[j].0.as_str(), name.as_str()) {
                assert(eq_ignore_case(earlier[j as int].0, name@));
                let mut m = "configuration contains duplicate shortcut name '".to_owned();
                m.append(name.as_str());
                m.append("'");
                return Err(Error::msg(m));
            }
            j = j + 1;
        }
        let mut empty = shortcut.commands.len() == 0;
        let mut k: usize = 0;
        while k < shortcut.commands.len()
            invariant
                0 <= k <= shortcut.commands.len(),
                empty == (shortcut.commands.len() == 0 || exists|q: int|
                    0 <= q < k && (#[trigger] shortcut.commands@[q]).program@.len() == 0),
            decreases shortcut.commands.len() - k,
        {
            if shortcut.commands[k].program.as_str().is_empty() {
                empty = true;
            }
            k = k + 1;
        }
        if empty {
            proof {
                if shortcut.commands.len() > 0 {
                    let q = choose|q: int|
                        0 <= q < k && (#[trigger] shortcut.commands@[q]).program@.len() == 0;
                    assert(shortcut@.commands[q].program.len() == 0);
                }
            }
            let mut m = "shortcut '".to_owned();
            m.append(name.as_str());
            m.append("' has an invalid empty command");
            return Err(Error::msg(m));
        }
        proof {
            assert forall|q: int| 0 <= q < shortcut@.commands.len() implies (
            #[trigger] shortcut@.commands[q]).program.len() != 0 by {
                assert(shortcut@.commands[q].program == shortcut.commands@[q].program@);
            }
        }
        check_stored_commands(name.as_str(), &shortcut.commands)
    }

    /// Accepts a store read from the configuration file at `path`: version 1
    /// is the current format, other versions are refused, and the shortcuts
    /// must pass `validate`.
    pub fn check_loaded(self, path: &str) -> (r: Result<Store>)
        requires
            self.wf(),
        ensures
            self@.version != CONFIG_VERSION ==> result_view(r) == Err::<StoreModel, Seq<char>>(
                unsupported_version_message(self@.version, path@),
            ),
            self@.version == CONFIG_VERSION ==> match store_error(self@.entries) {
                Some(m) => r matches Err(x) && x@ == m,
                None => r matches Ok(s) && s@ == self@ && s.wf(),
            },
    {
        let mut store = self;
        if store.version == 1 {
            store.version = CONFIG_VERSION;
        } else if store.version != CONFIG_VERSION {
            let mut m = "unsupported configuration version ".to_owned();
            let v = decimal_string(store.version as u128);
            m.append(v.as_str());
            m.append(" in ");
            m.append(path);
            m.append("; expected version ");
            let c = decimal_string(CONFIG_VERSION as u128);
            m.append(c.as_str());
            return Err(Error::msg(m));
        }
        store.validate()?;
        Ok(store)
    }

    /// Refuses a new shortcut name that an existing shortcut has, in any case.
    pub fn require_absent(&self, name: &str) -> (r: Result<()>)
        ensures
            first_match(self@.entries, name@) is Some ==> result_view(r) == Err::<(), Seq<char>>(
                already_exists_message(name@),
            ),
            first_match(self@.entries, name@) is None ==> r is Ok,
    {
        if self.find_name(name).is_some() {
            let mut m = "shortcut '".to_owned();
            m.append(name);
            m.append("' already exists; use `transfigure update ");
            m.append(name);
            m.append(" -- ...`");
            return Err(Error::msg(m));
        }
        Ok(())
    }

    /// The stored name of the shortcut that `requested` names, in any case.
    pub fn stored_name(&self, requested: &str) -> (r: Result<String>)
        ensures
            match first_match(self@.entries, requested@) {
                Some(i) => r matches Ok(n) && n@ == self@.entries[i].0,
                None => result_view(r) == Err::<Seq<char>, Seq<char>>(
                    missing_shortcut_message(requested@),
                ),
            },
    {
        match self.find_name(requested) {
            Some(n) => Ok(n.to_owned()),
            None => Err(missing_shortcut(requested)),
        }
    }

    /// The shortcut that `requested` names, in any case, with its stored name.
    pub fn get(&self, requested: &str) -> (r: Result<(&str, &Shortcut)>)
        ensures
            match first_match(self@.entries, requested@) {
                Some(i) => r matches Ok(p) && (p.0@, p.1@) == self@.entries[i],
                None => r matches Err(e) && e@ == missing_shortcut_message(requested@),
            },
    {
        match self.find(requested) {
            Some(p) => Ok(p),
            None => Err(missing_shortcut(requested)),
        }
    }
}

/// The lines that list a store: one per shortcut, its name, a tab and its
/// summary; or a single line saying that there are none.
pub open spec fn listing(e: Seq<(Seq<char>, ShortcutModel)>) -> Seq<Seq<char>> {
    if e.len() == 0 {
        seq!["No shortcuts configured."@]
    } else {
        e.map_values(|x: (Seq<char>, ShortcutModel)| x.0 + seq!['\t'] + shortcut_summary(x.1))
    }
}

/// The lines that show one shortcut: its name, then each command numbered
/// from 1.
pub open spec fn shortcut_lines(name: Seq<char>, s: ShortcutModel) -> Seq<Seq<char>> {
    seq![name] + Seq::new(
        s.commands.len(),
        |i: int| "  "@ + decimal((i + 1) as nat) + ": "@ + command_display(s.commands[i]),
    )
}

impl Store {
    /// The lines that list the store.
    pub fn listing(&self) -> (r: Vec<String>)
        ensures
            views(r@) == listing(self@.entries),
    {
        let mut lines: Vec<String> = Vec::new();
        if self.entries.len() == 0 {
            lines.push("No shortcuts configured.".to_owned());
            assert(views(lines@) =~= listing(self@.entries));
            return lines;
        }
        let ghost e = self@.entries;
        let ghost want = listing(e);
        let mut i: usize = 0;
        while i < self.entries.len()
            invariant
                e == self@.entries,
                e.len() == self.entries.len(),
                e.len() > 0,
                want == listing(e),
                0 <= i <= self.entries.len(),
                views(lines@) =~= want.take(i as int),
            decreases self.entries.len() - i,
        {
            let entry = &self.entries[i];
            assert(e[i as int] == (entry.0@, entry.1@));
            let mut line = entry.0.clone();
            push_char(&mut line, '\t');
            let summary = entry.1.summary();
            line.append(summary.as_str());
            assert(line@ =~= entry.0@ + seq!['\t'] + shortcut_summary(entry.1@));
            let ghost before = views(lines@);
            lines.push(line);
            proof {
                assert(views(lines@) =~= before.push(line@));
                assert(want[i as int] == e[i as int].0 + seq!['\t'] + shortcut_summary(e[i as int].1));
                assert(views(lines@) =~= want.take(i + 1));
            }
            i = i + 1;
        }
        lines
    }
}

/// The lines that show one shortcut under its stored name.
pub fn shortcut_lines_of(name: &str, shortcut: &Shortcut) -> (r: Vec<String>)
    ensures
        views(r@) == shortcut_lines(name@, shortcut@),
{
    let ghost want = shortcut_lines(name@, shortcut@);
    let mut lines: Vec<String> = Vec::new();
    lines.push(name.to_owned());
    let mut i: usize = 0;
    while i < shortcut.commands.len()
        invariant
            want == shortcut_lines(name@, shortcut@),
            0 <= i <= shortcut.commands.len(),
            views(lines@) =~= want.take(i + 1),
        decreases shortcut.commands.len() - i,
    {
        let mut line = "  ".to_owned();
        let number = decimal_string(i as u128 + 1);
        line.append(number.as_str());
        line.append(": ");
        let shown = shortcut.commands[i].display();
        line.append(shown.as_str());
        let ghost before = views(lines@);
        lines.push(line);
        proof {
            assert(views(lines@) =~= before.push(line@));
            assert(want[i + 1] == "  "@ + decimal((i + 1) as nat) + ": "@ + command_display(
                shortcut@.commands[i as int],
            ));
            assert(views(lines@) =~= want.take(i + 2));
        }
        i = i + 1;
    }
    assert(want.take(i + 1) =~= want);
    lines
}

// ---------------------------------------------------------------------------
// Laws of the store
// ---------------------------------------------------------------------------

proof fn lemma_before_insert_position(e: Seq<(Seq<char>, ShortcutModel)>, name: Seq<char>)
    ensures
        0 <= insert_position(e, name) <= e.len(),
        forall|j: int| 0 <= j < insert_position(e, name) ==> name_less(#[trigger] e[j].0, name),
        insert_position(e, name) < e.len() ==> !name_less(e[insert_position(e, name)].0, name),
    decreases e.len(),
{
    if e.len() > 0 && name_less(e[0].0, name) {
        let t = e.drop_first();
        lemma_before_insert_position(t, name);
        assert forall|j: int| 0 <= j < insert_position(e, name) implies name_less(
            #[trigger] e[j].0,
            name,
        ) by {
            if j > 0 {
                assert(e[j] == t[j - 1]);
            }
        }
        if insert_position(e, name) < e.len() {
            assert(e[insert_position(e, name)] == t[insert_position(t, name)]);
        }
    }
}

proof fn lemma_eq_ignore_case_refl(a: Seq<char>)
    ensures
        eq_ignore_case(a, a),
{
}

/// Storing keeps the names sorted.
pub proof fn law_insert_keeps_order(e: Seq<(Seq<char>, ShortcutModel)>, name: Seq<char>, s: ShortcutModel)
    requires
        names_sorted(e),
    ensures
        names_sorted(with_entry(e, name, s)),
{
    let p = insert_position(e, name);
    let f = with_entry(e, name, s);
    lemma_before_insert_position(e, name);
    if p < e.len() && e[p].0 == name {
        assert forall|i: int, j: int| 0 <= i < j < f.len() implies name_less(
            #[trigger] f[i].0,
            #[trigger] f[j].0,
        ) by {
            assert(f[i].0 == e[i].0);
            assert(f[j].0 == e[j].0);
        }
    } else {
        assert forall|j: int| p <= j < e.len() implies name_less(name, #[trigger] e[j].0) by {
            lemma_name_less_total(name, e[p].0);
            if j > p {
                lemma_name_less_transitive(name, e[p].0, e[j].0);
            }
        }
        assert forall|i: int, j: int| 0 <= i < j < f.len() implies name_less(
            #[trigger] f[i].0,
            #[trigger] f[j].0,
        ) by {
            if j < p {
            } else if j == p {
            } else if i < p {
                lemma_name_less_transitive(e[i].0, name, e[j - 1].0);
            } else if i == p {
            } else {
            }
        }
    }
}

/// Read after write: a shortcut just stored under a name is what a search
/// for that name finds, when no other stored name equals it ignoring ASCII
/// case.
pub proof fn law_find_after_insert(e: Seq<(Seq<char>, ShortcutModel)>, name: Seq<char>, s: ShortcutModel)
    requires
        names_sorted(e),
        forall|i: int| 0 <= i < e.len() && e[i].0 != name ==> !eq_ignore_case(#[trigger] e[i].0, name),
    ensures
        first_match(with_entry(e, name, s), name) matches Some(i) && with_entry(e, name, s)[i] == (
        name,
        s,
        ),
{
    let p = insert_position(e, name);
    let f = with_entry(e, name, s);
    lemma_before_insert_position(e, name);
    lemma_eq_ignore_case_refl(name);
    assert(f[p] == (name, s));
    assert forall|j: int| 0 <= j < p implies !eq_ignore_case(#[trigger] f[j].0, name) by {
        assert(f[j] == e[j]);
        assert(name_less(e[j].0, name));
        lemma_name_less_irreflexive(name);
    }
    lemma_first_match(f, name, p);
}

/// A name just removed is no longer found, when no other stored name equals
/// it ignoring ASCII case.
pub proof fn law_find_after_remove(e: Seq<(Seq<char>, ShortcutModel)>, name: Seq<char>)
    requires
        names_sorted(e),
        forall|i: int| 0 <= i < e.len() && e[i].0 != name ==> !eq_ignore_case(#[trigger] e[i].0, name),
    ensures
        first_match(without_entry(e, name), name) is None,
{
    let f = without_entry(e, name);
    if exists|i: int| 0 <= i < e.len() && e[i].0 == name {
        let q = index_of_name(e, name);
        e.remove_ensures(q);
        assert(f == e.remove(q));
        assert forall|j: int| 0 <= j < f.len() implies !eq_ignore_case(#[trigger] f[j].0, name) by {
            let k = if j < q {
                j
            } else {
                j + 1
            };
            assert(f[j] == e[k]);
            if e[k].0 == name {
                lemma_sorted_distinct(e, k, q);
            }
        }
    } else {
        assert forall|j: int| 0 <= j < f.len() implies !eq_ignore_case(#[trigger] f[j].0, name) by {
            assert(f[j].0 != name);
        }
    }
}

/// Storing under a name changes what that name holds and nothing else.
pub proof fn law_lookup_after_insert(
    e: Seq<(Seq<char>, ShortcutModel)>,
    name: Seq<char>,
    s: ShortcutModel,
    other: Seq<char>,
)
    requires
        names_sorted(e),
    ensures
        lookup(with_entry(e, name, s), name) == Some(s),
        other != name ==> lookup(with_entry(e, name, s), other) == lookup(e, other),
{
    let p = insert_position(e, name);
    let f = with_entry(e, name, s);
    lemma_before_insert_position(e, name);
    law_insert_keeps_order(e, name, s);
    assert(f[p] == (name, s));
    lemma_lookup_at(f, p);
    if other != name {
        if exists|i: int| 0 <= i < e.len() && e[i].0 == other {
            let i = choose|i: int| 0 <= i < e.len() && e[i].0 == other;
            lemma_lookup_at(e, i);
            let k = if p < e.len() && e[p].0 == name {
                i
            } else if i < p {
                i
            } else {
                i + 1
            };
            assert(f[k] == e[i]);
            lemma_lookup_at(f, k);
        } else {
            assert forall|j: int| 0 <= j < f.len() implies f[j].0 != other by {
                if f[j].0 == other {
                    let k = if p < e.len() && e[p].0 == name {
                        j
                    } else if j < p {
                        j
                    } else {
                        j - 1
                    };
                    assert(f[j] == e[k]);
                }
            }
        }
    }
}

/// Removing a name takes away what it held and nothing else.
pub proof fn law_lookup_after_remove(e: Seq<(Seq<char>, ShortcutModel)>, name: Seq<char>, other: Seq<char>)
    requires
        names_sorted(e),
    ensures
        lookup(without_entry(e, name), name) is None,
        other != name ==> lookup(without_entry(e, name), other) == lookup(e, other),
{
    let f = without_entry(e, name);
    if exists|i: int| 0 <= i < e.len() && e[i].0 == name {
        let q = index_of_name(e, name);
        e.remove_ensures(q);
        assert(f == e.remove(q));
        assert forall|j: int| 0 <= j < f.len() implies f[j].0 != name by {
            let k = if j < q {
                j
            } else {
                j + 1
            };
            assert(f[j] == e[k]);
            if e[k].0 == name {
                lemma_sorted_distinct(e, k, q);
            }
        }
        assert(names_sorted(f)) by {
            assert forall|i: int, j: int| 0 <= i < j < f.len() implies name_less(
                #[trigger] f[i].0,
                #[trigger] f[j].0,
            ) by {
                let a = if i < q {
                    i
                } else {
                    i + 1
                };
                let b = if j < q {
                    j
                } else {
                    j + 1
                };
                assert(f[i] == e[a]);
                assert(f[j] == e[b]);
            }
        }
        if other != name && exists|i: int| 0 <= i < e.len() && e[i].0 == other {
            let i = choose|i: int| 0 <= i < e.len() && e[i].0 == other;
            lemma_lookup_at(e, i);
            assert(i != q);
            let k = if i < q {
                i
            } else {
                i - 1
            };
            assert(f[k] == e[i]);
            lemma_lookup_at(f, k);
        } else if other != name {
            assert forall|j: int| 0 <= j < f.len() implies f[j].0 != other by {
                let k = if j < q {
                    j
                } else {
                    j + 1
                };
                assert(f[j] == e[k]);
            }
        }
    }
}

/// A store that passes validation has valid names, no two of which are equal
/// ignoring ASCII case, and each shortcut has commands whose programs are
/// non-empty literal text.
pub proof fn law_validated_store(e: Seq<(Seq<char>, ShortcutModel)>)
    requires
        store_error(e) is None,
    ensures
        forall|i: int| 0 <= i < e.len() ==> name_check(#[trigger] e[i].0) is Ok,
        forall|i: int, j: int|
            0 <= i < j < e.len() ==> !eq_ignore_case(#[trigger] e[i].0, #[trigger] e[j].0),
        forall|i: int| 0 <= i < e.len() ==> (#[trigger] e[i].1).commands.len() > 0,
        forall|i: int, k: int|
            0 <= i < e.len() && 0 <= k < e[i].1.commands.len() ==> (#[trigger] e[i].1.commands[k]).program.len()
                > 0,
    decreases e.len(),
{
    if e.len() > 0 {
        let d = e.drop_last();
        law_validated_store(d);
        let last = e.last();
        assert(stored_entry_error(d, last) is None);
        assert forall|i: int| 0 <= i < e.len() implies name_check(#[trigger] e[i].0) is Ok by {
            if i < d.len() {
                assert(e[i] == d[i]);
            }
        }
        assert forall|i: int, j: int| 0 <= i < j < e.len() implies !eq_ignore_case(
            #[trigger] e[i].0,
            #[trigger] e[j].0,
        ) by {
            assert(e[i] == d[i]);
            if j < d.len() {
                assert(e[j] == d[j]);
            } else {
                if eq_ignore_case(e[i].0, e[j].0) {
                    assert(eq_ignore_case(d[i].0, last.0));
                }
            }
        }
        assert forall|i: int| 0 <= i < e.len() implies (#[trigger] e[i].1).commands.len() > 0 by {
            if i < d.len() {
                assert(e[i] == d[i]);
            }
        }
        assert forall|i: int, k: int|
            0 <= i < e.len() && 0 <= k < e[i].1.commands.len() implies (
            #[trigger] e[i].1.commands[k]).program.len() > 0 by {
            if i < d.len() {
                assert(e[i] == d[i]);
                assert(d[i].1.commands[k] == e[i].1.commands[k]);
            }
        }
    }
}

/// Storable commands give no error in the store.
pub(crate) proof fn lemma_storable_commands_no_error(name: Seq<char>, cs: Seq<CommandModel>)
    requires
        forall|k: int| 0 <= k < cs.len() ==> is_storable_command(#[trigger] cs[k]),
    ensures
        stored_commands_error(name, cs) is None,
    decreases cs.len(),
{
    if cs.len() > 0 {
        let d = cs.drop_last();
        assert forall|k: int| 0 <= k < d.len() implies is_storable_command(#[trigger] d[k]) by {
            assert(d[k] == cs[k]);
        }
        lemma_storable_commands_no_error(name, d);
        assert(is_storable_command(cs[cs.len() - 1]));
    }
}

/// Entries that validation accepts, entry by entry: valid names, no two equal
/// ignoring ASCII case, and shortcuts that the store accepts.
pub open spec fn valid_entries(e: Seq<(Seq<char>, ShortcutModel)>) -> bool {
    &&& forall|i: int| 0 <= i < e.len() ==> name_check(#[trigger] e[i].0) is Ok
    &&& forall|i: int, j: int|
        0 <= i < j < e.len() ==> !eq_ignore_case(#[trigger] e[i].0, #[trigger] e[j].0)
    &&& forall|i: int| 0 <= i < e.len() ==> (#[trigger] e[i].1).commands.len() > 0
    &&& forall|i: int, k: int|
        0 <= i < e.len() && 0 <= k < e[i].1.commands.len() ==> (
        #[trigger] e[i].1.commands[k]).program.len() > 0
    &&& forall|i: int|
        0 <= i < e.len() ==> stored_commands_error((#[trigger] e[i]).0, e[i].1.commands) is None
}

/// Validation accepts exactly the entries that are valid one by one.
pub proof fn law_validation_is_entrywise(e: Seq<(Seq<char>, ShortcutModel)>)
    ensures
        store_error(e) is None <==> valid_entries(e),
    decreases e.len(),
{
    if e.len() > 0 {
        let d = e.drop_last();
        let last = e.last();
        law_validation_is_entrywise(d);
        if store_error(e) is None {
            law_validated_store(e);
            assert forall|i: int| 0 <= i < e.len() implies stored_commands_error(
                (#[trigger] e[i]).0,
                e[i].1.commands,
            ) is None by {
                if i < d.len() {
                    assert(e[i] == d[i]);
                }
            }
        }
        if valid_entries(e) {
            assert forall|i: int| 0 <= i < d.len() implies name_check(#[trigger] d[i].0) is Ok by {
                assert(d[i] == e[i]);
            }
            assert forall|i: int, j: int| 0 <= i < j < d.len() implies !eq_ignore_case(
                #[trigger] d[i].0,
                #[trigger] d[j].0,
            ) by {
                assert(d[i] == e[i]);
                assert(d[j] == e[j]);
            }
            assert forall|i: int| 0 <= i < d.len() implies (#[trigger] d[i].1).commands.len() > 0 by {
                assert(d[i] == e[i]);
            }
            assert forall|i: int, k: int|
                0 <= i < d.len() && 0 <= k < d[i].1.commands.len() implies (
                #[trigger] d[i].1.commands[k]).program.len() > 0 by {
                assert(d[i] == e[i]);
                assert(d[i].1.commands[k] == e[i].1.commands[k]);
            }
            assert forall|i: int| 0 <= i < d.len() implies stored_commands_error(
                (#[trigger] d[i]).0,
                d[i].1.commands,
            ) is None by {
                assert(d[i] == e[i]);
            }
            let n = e.len() - 1;
            assert(e[n] == last);
            assert(name_check(last.0) is Ok);
            assert(!exists|j: int| 0 <= j < d.len() && eq_ignore_case(d[j].0, last.0)) by {
                if exists|j: int| 0 <= j < d.len() && eq_ignore_case(d[j].0, last.0) {
                    let j = choose|j: int| 0 <= j < d.len() && eq_ignore_case(d[j].0, last.0);
                    assert(d[j] == e[j]);
                    assert(!eq_ignore_case(e[j].0, e[n].0));
                }
            }
            assert(!exists|k: int|
                0 <= k < last.1.commands.len() && last.1.commands[k].program.len() == 0) by {
                if exists|k: int| 0 <= k < last.1.commands.len() && last.1.commands[k].program.len() == 0 {
                    let k = choose|k: int|
                        0 <= k < last.1.commands.len() && last.1.commands[k].program.len() == 0;
                    assert(e[n].1.commands[k].program.len() > 0);
                }
            }
            assert(stored_commands_error(e[n].0, e[n].1.commands) is None);
        }
    }
}

proof fn lemma_eq_ignore_case_symmetric(a: Seq<char>, b: Seq<char>)
    ensures
        eq_ignore_case(a, b) == eq_ignore_case(b, a),
{
}

/// What a new shortcut stores, a later load accepts: storing a shortcut read
/// from a definition, under a valid name that no stored name equals ignoring
/// ASCII case, keeps a valid store valid.
pub proof fn law_create_keeps_store_valid(
    e: Seq<(Seq<char>, ShortcutModel)>,
    name: Seq<char>,
    tokens: Seq<Seq<char>>,
    chain: bool,
    shell: Option<ShellKind>,
)
    requires
        names_sorted(e),
        store_error(e) is None,
        name_check(name) is Ok,
        first_match(e, name) is None,
        shortcut_of(tokens, chain, shell) is Ok,
    ensures
        store_error(with_entry(e, name, shortcut_of(tokens, chain, shell)->Ok_0)) is None,
{
    let s = shortcut_of(tokens, chain, shell)->Ok_0;
    law_parsed_shortcuts_are_storable(tokens, chain, shell);
    lemma_storable_commands_no_error(name, s.commands);
    law_validation_is_entrywise(e);
    let p = insert_position(e, name);
    lemma_before_insert_position(e, name);
    lemma_eq_ignore_case_refl(name);
    assert forall|i: int| 0 <= i < e.len() implies !eq_ignore_case(#[trigger] e[i].0, name) by {
        if eq_ignore_case(e[i].0, name) {
            assert(exists|i: int| 0 <= i < e.len() && eq_ignore_case(e[i].0, name));
        }
    }
    if p < e.len() && e[p].0 == name {
        assert(eq_ignore_case(e[p].0, name));
    }
    let f = e.insert(p, (name, s));
    assert(with_entry(e, name, s) == f);
    assert forall|i: int| 0 <= i < f.len() implies name_check(#[trigger] f[i].0) is Ok by {
        if i < p {
            assert(f[i] == e[i]);
        } else if i > p {
            assert(f[i] == e[i - 1]);
        }
    }
    assert forall|i: int, j: int| 0 <= i < j < f.len() implies !eq_ignore_case(
        #[trigger] f[i].0,
        #[trigger] f[j].0,
    ) by {
        let a = if i < p {
            i
        } else {
            i - 1
        };
        let b = if j < p {
            j
        } else {
            j - 1
        };
        if i == p {
            assert(f[j] == e[b]);
            lemma_eq_ignore_case_symmetric(e[b].0, name);
        } else if j == p {
            assert(f[i] == e[a]);
        } else {
            assert(f[i] == e[a]);
            assert(f[j] == e[b]);
        }
    }
    assert forall|i: int| 0 <= i < f.len() implies (#[trigger] f[i].1).commands.len() > 0 by {
        if i < p {
            assert(f[i] == e[i]);
        } else if i > p {
            assert(f[i] == e[i - 1]);
        }
    }
    assert forall|i: int, k: int|
        0 <= i < f.len() && 0 <= k < f[i].1.commands.len() implies (
        #[trigger] f[i].1.commands[k]).program.len() > 0 by {
        if i < p {
            assert(f[i] == e[i]);
        } else if i > p {
            assert(f[i] == e[i - 1]);
        } else {
            assert(is_storable_command(s.commands[k]));
        }
    }
    assert forall|i: int| 0 <= i < f.len() implies stored_commands_error(
        (#[trigger] f[i]).0,
        f[i].1.commands,
    ) is None by {
        if i < p {
            assert(f[i] == e[i]);
        } else if i > p {
            assert(f[i] == e[i - 1]);
        }
    }
    law_validation_is_entrywise(f);
}

/// Replacing the shortcut of a stored name by one read from a definition
/// keeps a valid store valid.
pub proof fn law_update_keeps_store_valid(
    e: Seq<(Seq<char>, ShortcutModel)>,
    name: Seq<char>,
    tokens: Seq<Seq<char>>,
    chain: bool,
    shell: Option<ShellKind>,
)
    requires
        names_sorted(e),
        store_error(e) is None,
        lookup(e, name) is Some,
        shortcut_of(tokens, chain, shell) is Ok,
    ensures
        store_error(with_entry(e, name, shortcut_of(tokens, chain, shell)->Ok_0)) is None,
{
    let s = shortcut_of(tokens, chain, shell)->Ok_0;
    law_parsed_shortcuts_are_storable(tokens, chain, shell);
    lemma_storable_commands_no_error(name, s.commands);
    law_validation_is_entrywise(e);
    let q = choose|i: int| 0 <= i < e.len() && e[i].0 == name;
    let p = insert_position(e, name);
    lemma_before_insert_position(e, name);
    if p < q {
        assert(name_less(e[p].0, e[q].0));
    } else if q < p {
        assert(name_less(e[q].0, name));
        lemma_name_less_irreflexive(name);
    }
    assert(p == q);
    let f = e.update(q, (name, s));
    assert(with_entry(e, name, s) == f);
    assert forall|i: int| 0 <= i < f.len() implies name_check(#[trigger] f[i].0) is Ok by {
        assert(f[i].0 == e[i].0);
    }
    assert forall|i: int, j: int| 0 <= i < j < f.len() implies !eq_ignore_case(
        #[trigger] f[i].0,
        #[trigger] f[j].0,
    ) by {
        assert(f[i].0 == e[i].0);
        assert(f[j].0 == e[j].0);
    }
    assert forall|i: int| 0 <= i < f.len() implies (#[trigger] f[i].1).commands.len() > 0 by {
        if i != q {
            assert(f[i] == e[i]);
        }
    }
    assert forall|i: int, k: int|
        0 <= i < f.len() && 0 <= k < f[i].1.commands.len() implies (
        #[trigger] f[i].1.commands[k]).program.len() > 0 by {
        if i != q {
            assert(f[i] == e[i]);
        } else {
            assert(is_storable_command(s.commands[k]));
        }
    }
    assert forall|i: int| 0 <= i < f.len() implies stored_commands_error(
        (#[trigger] f[i]).0,
        f[i].1.commands,
    ) is None by {
        if i != q {
            assert(f[i] == e[i]);
        }
    }
    law_validation_is_entrywise(f);
}

/// Removing a shortcut keeps a valid store valid.
pub proof fn law_remove_keeps_store_valid(e: Seq<(Seq<char>, ShortcutModel)>, name: Seq<char>)
    requires
        store_error(e) is None,
    ensures
        store_error(without_entry(e, name)) is None,
{
    law_validation_is_entrywise(e);
    if exists|i: int| 0 <= i < e.len() && e[i].0 == name {
        let q = index_of_name(e, name);
        e.remove_ensures(q);
        let f = e.remove(q);
        assert(without_entry(e, name) == f);
        assert forall|i: int| 0 <= i < f.len() implies name_check(#[trigger] f[i].0) is Ok by {
            if i < q {
                assert(f[i] == e[i]);
            } else {
                assert(f[i] == e[i + 1]);
            }
        }
        assert forall|i: int, j: int| 0 <= i < j < f.len() implies !eq_ignore_case(
            #[trigger] f[i].0,
            #[trigger] f[j].0,
        ) by {
            let a = if i < q {
                i
            } else {
                i + 1
            };
            let b = if j < q {
                j
            } else {
                j + 1
            };
            assert(f[i] == e[a]);
            assert(f[j] == e[b]);
        }
        assert forall|i: int| 0 <= i < f.len() implies (#[trigger] f[i].1).commands.len() > 0 by {
            if i < q {
                assert(f[i] == e[i]);
            } else {
                assert(f[i] == e[i + 1]);
            }
        }
        assert forall|i: int, k: int|
            0 <= i < f.len() && 0 <= k < f[i].1.commands.len() implies (
            #[trigger] f[i].1.commands[k]).program.len() > 0 by {
            if i < q {
                assert(f[i] == e[i]);
            } else {
                assert(f[i] == e[i + 1]);
            }
        }
        assert forall|i: int| 0 <= i < f.len() implies stored_commands_error(
            (#[trigger] f[i]).0,
            f[i].1.commands,
        ) is None by {
            if i < q {
                assert(f[i] == e[i]);
            } else {
                assert(f[i] == e[i + 1]);
            }
        }
        law_validation_is_entrywise(f);
    }
}

} // verus!
