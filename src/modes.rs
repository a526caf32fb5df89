//! The mode graph: a default list of keyphrase commands plus named sub-modes that
//! commands can switch into.

use vstd::prelude::*;

use crate::error::{ConfigError, ConfigErrorSpec, PhonemeConvertionError};
use crate::text::{
    all_distinct, first_repeat, lemma_first_repeat_none, lemma_first_repeat_prefix,
    lemma_first_repeat_step, repeats_earlier, str_eq,
};

verus! {

/// The characters of an optional string.
pub open spec fn opt_view(o: Option<String>) -> Option<Seq<char>> {
    match o {
        Some(s) => Some(s@),
        None => None,
    }
}

/// A command as plain values.
pub struct CommandSpec {
    pub message: Seq<char>,
    pub action: Option<Seq<char>>,
    pub next_mode: Option<Seq<char>>,
}

/// A named mode as plain values.
pub struct ModeSpec {
    pub name: Seq<char>,
    pub commands: Seq<CommandSpec>,
}

/// A mode graph as plain values.
pub struct ModeGraphSpec {
    pub default: Seq<CommandSpec>,
    pub modes: Seq<ModeSpec>,
}

/// The keyphrase used to run a command.
#[derive(Debug, Clone)]
pub struct CommandMessage {
    raw: String,
}

impl View for CommandMessage {
    type V = Seq<char>;

    closed spec fn view(&self) -> Seq<char> {
        self.raw@
    }
}

impl CommandMessage {
    /// Wraps a keyphrase.
    pub fn from_raw(raw: String) -> (r: Result<Self, PhonemeConvertionError>)
        ensures
            r is Ok,
            r->Ok_0@ == raw@,
    {
        Ok(Self { raw })
    }
}

/// A single keyphrase-activated action to run.
#[derive(Debug, Clone)]
pub struct Command {
    message: CommandMessage,
    command: Option<String>,
    next_mode: Option<String>,
}

impl View for Command {
    type V = CommandSpec;

    closed spec fn view(&self) -> CommandSpec {
        CommandSpec {
            message: self.message@,
            action: opt_view(self.command),
            next_mode: opt_view(self.next_mode),
        }
    }
}

/// The plain values of a list of commands.
pub open spec fn commands_view(v: Seq<Command>) -> Seq<CommandSpec> {
    v.map_values(|c: Command| c@)
}

/// The keyphrases of a list of commands, in order.
pub open spec fn messages(v: Seq<CommandSpec>) -> Seq<Seq<char>> {
    v.map_values(|c: CommandSpec| c.message)
}

impl Command {
    /// A command with keyphrase `message`, the terminal command `command` to run when it is
    /// matched, and the mode `next_mode` to switch to afterwards.
    pub fn new(message: CommandMessage, command: Option<String>, next_mode: Option<String>) -> (r:
        Self)
        ensures
            r@ == (CommandSpec {
                message: message@,
                action: opt_view(command),
                next_mode: opt_view(next_mode),
            }),
    {
        Self { message, command, next_mode }
    }

    /// The terminal command that will be run if the keyphrase is matched.
    pub fn command(&self) -> (r: Option<&str>)
        ensures
            r is Some == self@.action is Some,
            r is Some ==> Some(r->0@) == self@.action,
    {
        match &self.command {
            Some(s) => Some(s.as_str()),
            None => None,
        }
    }

    /// The mode to switch to after this command; `None` ends the current exchange.
    pub fn next_mode(&self) -> (r: Option<&str>)
        ensures
            r is Some == self@.next_mode is Some,
            r is Some ==> Some(r->0@) == self@.next_mode,
    {
        match &self.next_mode {
            Some(s) => Some(s.as_str()),
            None => None,
        }
    }

    /// The keyphrase used to run this command.
    pub fn message(&self) -> (r: &str)
        ensures
            r@ == self@.message,
    {
        self.message.raw.as_str()
    }

    pub(crate) fn message_string(&self) -> (r: &String)
        ensures
            r@ == self@.message,
    {
        &self.message.raw
    }

    pub(crate) fn next_mode_string(&self) -> (r: &Option<String>)
        ensures
            opt_view(*r) == self@.next_mode,
    {
        &self.next_mode
    }
}

/// A named mode and its commands.
#[derive(Debug, Clone)]
struct CommandMode {
    name: String,
    commands: Vec<Command>,
}

impl View for CommandMode {
    type V = ModeSpec;

    closed spec fn view(&self) -> ModeSpec {
        ModeSpec { name: self.name@, commands: commands_view(self.commands@) }
    }
}

/// The plain values of a list of modes.
spec fn modes_view(v: Seq<CommandMode>) -> Seq<ModeSpec> {
    v.map_values(|m: CommandMode| m@)
}

/// The names of a list of modes, in order.
pub open spec fn names(v: Seq<ModeSpec>) -> Seq<Seq<char>> {
    v.map_values(|m: ModeSpec| m.name)
}

/// The default mode's commands and the named modes.
#[derive(Debug)]
pub struct ModeTree {
    default_mode_commands: Vec<Command>,
    submodes: Vec<CommandMode>,
}

impl View for ModeTree {
    type V = ModeGraphSpec;

    closed spec fn view(&self) -> ModeGraphSpec {
        ModeGraphSpec {
            default: commands_view(self.default_mode_commands@),
            modes: modes_view(self.submodes@),
        }
    }
}

/// A construction result as plain values.
pub open spec fn result_view(r: Result<ModeTree, ConfigError>) -> Result<
    ModeGraphSpec,
    ConfigErrorSpec,
> {
    match r {
        Ok(t) => Ok(t@),
        Err(e) => Err(e@),
    }
}

/// What construction keeps true: within each mode keyphrases differ, and mode names differ.
pub open spec fn well_formed(g: ModeGraphSpec) -> bool {
    &&& all_distinct(messages(g.default))
    &&& forall|i: int| 0 <= i < g.modes.len() ==> all_distinct(messages(#[trigger] g.modes[i].commands))
    &&& all_distinct(names(g.modes))
}

/// `g` with `cmds` added after its default commands; refused on a repeated keyphrase.
pub open spec fn add_commands(g: ModeGraphSpec, cmds: Seq<CommandSpec>) -> Result<
    ModeGraphSpec,
    ConfigErrorSpec,
> {
    let d = g.default + cmds;
    match first_repeat(messages(d)) {
        Some(m) => Err(ConfigErrorSpec::DuplicateMessage(m)),
        None => Ok(ModeGraphSpec { default: d, modes: g.modes }),
    }
}

/// Whether some named mode of `g` is called `name`.
pub open spec fn is_mode_name(g: ModeGraphSpec, name: Seq<char>) -> bool {
    exists|i: int| 0 <= i < g.modes.len() && #[trigger] g.modes[i].name == name
}

/// `g` with a named mode added last; refused on a taken name or a repeated keyphrase.
pub open spec fn add_mode(g: ModeGraphSpec, name: Seq<char>, cmds: Seq<CommandSpec>) -> Result<
    ModeGraphSpec,
    ConfigErrorSpec,
> {
    if is_mode_name(g, name) {
        Err(ConfigErrorSpec::DuplicateMode(name))
    } else {
        match first_repeat(messages(cmds)) {
            Some(m) => Err(ConfigErrorSpec::DuplicateMessage(m)),
            None => Ok(
                ModeGraphSpec { default: g.default, modes: g.modes.push(ModeSpec { name, commands: cmds }) },
            ),
        }
    }
}

/// `a` followed by `b`: default commands and named modes are concatenated; refused on a
/// repeated default keyphrase, then on a repeated mode name.
pub open spec fn merge(a: ModeGraphSpec, b: ModeGraphSpec) -> Result<
    ModeGraphSpec,
    ConfigErrorSpec,
> {
    match add_commands(a, b.default) {
        Err(e) => Err(e),
        Ok(g) => {
            let ms = g.modes + b.modes;
            match first_repeat(names(ms)) {
                Some(n) => Err(ConfigErrorSpec::DuplicateMode(n)),
                None => Ok(ModeGraphSpec { default: g.default, modes: ms }),
            }
        },
    }
}

/// The commands of the default mode (`b == 0`) or of named mode `b - 1`.
pub open spec fn block(g: ModeGraphSpec, b: int) -> Seq<CommandSpec> {
    if b == 0 {
        g.default
    } else {
        g.modes[b - 1].commands
    }
}

/// Whether command `k` of block `b` exists and switches to a mode that `g` does not define.
pub open spec fn dangling_at(g: ModeGraphSpec, b: int, k: int) -> bool {
    &&& 0 <= b <= g.modes.len()
    &&& 0 <= k < block(g, b).len()
    &&& block(g, b)[k].next_mode is Some
    &&& !is_mode_name(g, block(g, b)[k].next_mode->0)
}

/// Whether (`b1`, `k1`) comes before (`b2`, `k2`): blocks in order, commands in order.
pub open spec fn comes_before(b1: int, k1: int, b2: int, k2: int) -> bool {
    b1 < b2 || (b1 == b2 && k1 < k2)
}

/// Whether command `k` of block `b` is the first dangling one.
pub open spec fn first_dangling_at(g: ModeGraphSpec, b: int, k: int) -> bool {
    &&& dangling_at(g, b, k)
    &&& forall|b2: int, k2: int| comes_before(b2, k2, b, k) ==> !dangling_at(g, b2, k2)
}

/// Whether some command of `cmds` switches to the mode called `name`.
pub open spec fn leads_to(cmds: Seq<CommandSpec>, name: Seq<char>) -> bool {
    exists|k: int| 0 <= k < cmds.len() && #[trigger] cmds[k].next_mode == Some(name)
}

/// Whether named mode `i` is switched to from the default mode, or, within `steps` more
/// switches, from a named mode that is.
pub open spec fn reachable_within(g: ModeGraphSpec, i: int, steps: nat) -> bool
    decreases steps,
{
    ||| leads_to(g.default, g.modes[i].name)
    ||| steps > 0 && exists|j: int|
        0 <= j < g.modes.len() && reachable_within(g, j, (steps - 1) as nat) && #[trigger] leads_to(
            g.modes[j].commands,
            g.modes[i].name,
        )
}

/// Whether named mode `i` can be reached from the default mode along mode switches.
pub open spec fn reachable(g: ModeGraphSpec, i: int) -> bool {
    exists|steps: nat| reachable_within(g, i, steps)
}

/// Whether named mode `i` is the first without commands.
pub open spec fn first_empty_at(g: ModeGraphSpec, i: int) -> bool {
    &&& 0 <= i < g.modes.len()
    &&& g.modes[i].commands.len() == 0
    &&& forall|j: int| 0 <= j < i ==> #[trigger] g.modes[j].commands.len() > 0
}

/// Whether named mode `i` is the first that cannot be reached from the default mode.
pub open spec fn first_unreachable_at(g: ModeGraphSpec, i: int) -> bool {
    &&& 0 <= i < g.modes.len()
    &&& !reachable(g, i)
    &&& forall|j: int| 0 <= j < i ==> #[trigger] reachable(g, j)
}

/// The number of set flags.
pub open spec fn count_set(s: Seq<bool>) -> nat
    decreases s.len(),
{
    if s.len() == 0 {
        0
    } else {
        count_set(s.take(s.len() - 1)) + if s.last() {
            1nat
        } else {
            0nat
        }
    }
}

proof fn lemma_count_bound(s: Seq<bool>)
    ensures
        count_set(s) <= s.len(),
    decreases s.len(),
{
    if s.len() > 0 {
        lemma_count_bound(s.take(s.len() - 1));
    }
}

/// Setting more flags never lowers the count, and setting one more raises it.
proof fn lemma_count_grows(a: Seq<bool>, b: Seq<bool>, i: int)
    requires
        a.len() == b.len(),
        forall|k: int| 0 <= k < a.len() && a[k] ==> b[k],
    ensures
        count_set(a) <= count_set(b),
        0 <= i < a.len() && !a[i] && b[i] ==> count_set(a) < count_set(b),
    decreases a.len(),
{
    if a.len() > 0 {
        let a1 = a.take(a.len() - 1);
        let b1 = b.take(b.len() - 1);
        lemma_count_grows(a1, b1, i);
    }
}

proof fn lemma_reach_step(g: ModeGraphSpec, j: int, i: int)
    requires
        0 <= j < g.modes.len(),
        reachable(g, j),
        leads_to(g.modes[j].commands, g.modes[i].name),
    ensures
        reachable(g, i),
{
    let s = choose|s: nat| reachable_within(g, j, s);
    assert(reachable_within(g, i, s + 1));
}

/// Marks that hold every mode switched to from the default mode, and every mode switched to
/// from a marked mode, hold every reachable mode.
proof fn lemma_closed_marks_complete(g: ModeGraphSpec, marked: Seq<bool>, i: int, steps: nat)
    requires
        marked.len() == g.modes.len(),
        0 <= i < g.modes.len(),
        forall|k: int| 0 <= k < g.modes.len() && leads_to(g.default, g.modes[k].name) ==> marked[k],
        forall|k: int, j: int|
            0 <= k < g.modes.len() && 0 <= j < g.modes.len() && marked[j] && #[trigger] leads_to(
                g.modes[j].commands,
                g.modes[k].name,
            ) ==> marked[k],
        reachable_within(g, i, steps),
    ensures
        marked[i],
    decreases steps,
{
    if !leads_to(g.default, g.modes[i].name) {
        let j = choose|j: int|
            0 <= j < g.modes.len() && reachable_within(g, j, (steps - 1) as nat) && #[trigger] leads_to(
                g.modes[j].commands,
                g.modes[i].name,
            );
        lemma_closed_marks_complete(g, marked, j, (steps - 1) as nat);
    }
}

/// The outcome of checking `g`: the default mode must have commands, then every named mode,
/// then every mode switch must name a defined mode, then every named mode must be reachable
/// from the default mode along mode switches. The first failure in that order is reported.
pub open spec fn validate(g: ModeGraphSpec) -> Result<(), ConfigErrorSpec> {
    if g.default.len() == 0 {
        Err(ConfigErrorSpec::NoCommands)
    } else if exists|i: int| first_empty_at(g, i) {
        Err(ConfigErrorSpec::EmptyMode(g.modes[choose|i: int| first_empty_at(g, i)].name))
    } else if exists|b: int, k: int| first_dangling_at(g, b, k) {
        let (b, k) = choose|b: int, k: int| first_dangling_at(g, b, k);
        Err(ConfigErrorSpec::ModeNotFound(block(g, b)[k].next_mode->0))
    } else if exists|i: int| first_unreachable_at(g, i) {
        Err(
            ConfigErrorSpec::UnreachableMode(
                g.modes[choose|i: int| first_unreachable_at(g, i)].name,
            ),
        )
    } else {
        Ok(())
    }
}

/// The characters of an optional string slice.
pub open spec fn opt_str_view(o: Option<&str>) -> Option<Seq<char>> {
    match o {
        Some(s) => Some(s@),
        None => None,
    }
}

/// The index of the first of `modes[0..n]` called `name`, if any.
pub open spec fn first_mode_named(modes: Seq<ModeSpec>, name: Seq<char>, n: nat) -> Option<int>
    decreases n,
{
    if n == 0 {
        None
    } else {
        match first_mode_named(modes, name, (n - 1) as nat) {
            Some(i) => Some(i),
            None => if modes[n - 1].name == name {
                Some(n - 1)
            } else {
                None
            },
        }
    }
}

proof fn lemma_first_mode_named_extend(modes: Seq<ModeSpec>, name: Seq<char>, k: nat, n: nat)
    requires
        k <= n,
        first_mode_named(modes, name, k) is Some,
    ensures
        first_mode_named(modes, name, n) == first_mode_named(modes, name, k),
    decreases n - k,
{
    if k < n {
        lemma_first_mode_named_extend(modes, name, k, (n - 1) as nat);
    }
}

/// The commands offered in `mode`: those of the first named mode so called, or those of
/// the default mode where `mode` is `None` or names no mode.
pub open spec fn commands_for(g: ModeGraphSpec, mode: Option<Seq<char>>) -> Seq<CommandSpec> {
    match mode {
        Some(m) => match first_mode_named(g.modes, m, g.modes.len()) {
            Some(i) => g.modes[i].commands,
            None => g.default,
        },
        None => g.default,
    }
}

/// The default commands and named modes of `a` followed by those of `b`.
pub open spec fn union(a: ModeGraphSpec, b: ModeGraphSpec) -> ModeGraphSpec {
    ModeGraphSpec { default: a.default + b.default, modes: a.modes + b.modes }
}

/// Whether `a` and `b` share no default keyphrase and no mode name.
pub open spec fn disjoint(a: ModeGraphSpec, b: ModeGraphSpec) -> bool {
    &&& forall|i: int, j: int|
        0 <= i < a.default.len() && 0 <= j < b.default.len() ==> a.default[i].message
            != b.default[j].message
    &&& forall|i: int, j: int|
        0 <= i < a.modes.len() && 0 <= j < b.modes.len() ==> a.modes[i].name != b.modes[j].name
}

/// Whether the default keyphrases of `g` differ, and so do its mode names.
pub open spec fn distinct_keys(g: ModeGraphSpec) -> bool {
    all_distinct(messages(g.default)) && all_distinct(names(g.modes))
}

proof fn lemma_distinct_concat(s: Seq<Seq<char>>, t: Seq<Seq<char>>)
    requires
        all_distinct(s),
        all_distinct(t),
        forall|i: int, j: int| 0 <= i < s.len() && 0 <= j < t.len() ==> s[i] != t[j],
    ensures
        all_distinct(s + t),
{
    let u = s + t;
    assert forall|i: int, j: int| 0 <= i < j < u.len() implies u[i] != u[j] by {
        if j < s.len() {
        } else if i < s.len() {
            assert(u[i] == s[i] && u[j] == t[j - s.len()]);
        } else {
            assert(u[i] == t[i - s.len()] && u[j] == t[j - s.len()]);
        }
    }
}

proof fn lemma_merge_disjoint(a: ModeGraphSpec, b: ModeGraphSpec)
    requires
        distinct_keys(a),
        distinct_keys(b),
        disjoint(a, b),
    ensures
        merge(a, b) == Ok::<ModeGraphSpec, ConfigErrorSpec>(union(a, b)),
        distinct_keys(union(a, b)),
{
    let ms = messages(a.default + b.default);
    assert(ms =~= messages(a.default) + messages(b.default));
    assert forall|i: int, j: int|
        0 <= i < messages(a.default).len() && 0 <= j < messages(b.default).len() implies messages(
        a.default,
    )[i] != messages(b.default)[j] by {
        assert(messages(a.default)[i] == a.default[i].message);
        assert(messages(b.default)[j] == b.default[j].message);
    }
    lemma_distinct_concat(messages(a.default), messages(b.default));
    lemma_first_repeat_none(ms);
    let ns = names(a.modes + b.modes);
    assert(ns =~= names(a.modes) + names(b.modes));
    assert forall|i: int, j: int|
        0 <= i < names(a.modes).len() && 0 <= j < names(b.modes).len() implies names(a.modes)[i]
        != names(b.modes)[j] by {
        assert(names(a.modes)[i] == a.modes[i].name);
        assert(names(b.modes)[j] == b.modes[j].name);
    }
    lemma_distinct_concat(names(a.modes), names(b.modes));
    lemma_first_repeat_none(ns);
}

/// Merging graphs whose default keyphrases and mode names are distinct, and distinct from
/// each other's, succeeds and gives the union of the two; and merging three such graphs
/// gives the same union whichever two are merged first.
pub proof fn lemma_merge_associative(a: ModeGraphSpec, b: ModeGraphSpec, c: ModeGraphSpec)
    requires
        distinct_keys(a),
        distinct_keys(b),
        distinct_keys(c),
        disjoint(a, b),
        disjoint(b, c),
        disjoint(a, c),
    ensures
        merge(a, b) == Ok::<ModeGraphSpec, ConfigErrorSpec>(union(a, b)),
        merge(b, c) == Ok::<ModeGraphSpec, ConfigErrorSpec>(union(b, c)),
        merge(union(a, b), c) == Ok::<ModeGraphSpec, ConfigErrorSpec>(union(union(a, b), c)),
        merge(a, union(b, c)) == Ok::<ModeGraphSpec, ConfigErrorSpec>(union(union(a, b), c)),
{
    lemma_merge_disjoint(a, b);
    lemma_merge_disjoint(b, c);
    let ab = union(a, b);
    let bc = union(b, c);
    assert(disjoint(ab, c)) by {
        assert forall|i: int, j: int|
            0 <= i < ab.default.len() && 0 <= j < c.default.len() implies ab.default[i].message
            != c.default[j].message by {
            if i >= a.default.len() {
                assert(ab.default[i] == b.default[i - a.default.len()]);
            }
        }
        assert forall|i: int, j: int|
            0 <= i < ab.modes.len() && 0 <= j < c.modes.len() implies ab.modes[i].name
            != c.modes[j].name by {
            if i >= a.modes.len() {
                assert(ab.modes[i] == b.modes[i - a.modes.len()]);
            }
        }
    }
    assert(disjoint(a, bc)) by {
        assert forall|i: int, j: int|
            0 <= i < a.default.len() && 0 <= j < bc.default.len() implies a.default[i].message
            != bc.default[j].message by {
            if j >= b.default.len() {
                assert(bc.default[j] == c.default[j - b.default.len()]);
            }
        }
        assert forall|i: int, j: int|
            0 <= i < a.modes.len() && 0 <= j < bc.modes.len() implies a.modes[i].name
            != bc.modes[j].name by {
            if j >= b.modes.len() {
                assert(bc.modes[j] == c.modes[j - b.modes.len()]);
            }
        }
    }
    lemma_merge_disjoint(ab, c);
    lemma_merge_disjoint(a, bc);
    assert(union(a, bc) =~= union(ab, c)) by {
        assert(a.default + (b.default + c.default) =~= (a.default + b.default) + c.default);
        assert(a.modes + (b.modes + c.modes) =~= (a.modes + b.modes) + c.modes);
    }
}

/// Adding commands to a well-formed graph, where accepted, keeps it well formed.
pub proof fn lemma_add_commands_well_formed(g: ModeGraphSpec, cmds: Seq<CommandSpec>)
    requires
        well_formed(g),
        add_commands(g, cmds) is Ok,
    ensures
        well_formed(add_commands(g, cmds)->Ok_0),
{
    lemma_first_repeat_none(messages(g.default + cmds));
}

/// Adding a mode to a well-formed graph, where accepted, keeps it well formed.
pub proof fn lemma_add_mode_well_formed(g: ModeGraphSpec, name: Seq<char>, cmds: Seq<CommandSpec>)
    requires
        well_formed(g),
        add_mode(g, name, cmds) is Ok,
    ensures
        well_formed(add_mode(g, name, cmds)->Ok_0),
{
    lemma_first_repeat_none(messages(cmds));
    let ms = g.modes.push(ModeSpec { name, commands: cmds });
    assert forall|i: int| 0 <= i < ms.len() implies all_distinct(
        messages(#[trigger] ms[i].commands),
    ) by {
        if i < g.modes.len() {
            assert(ms[i] == g.modes[i]);
        }
    }
    assert forall|i: int, j: int| 0 <= i < j < names(ms).len() implies names(ms)[i] != names(
        ms,
    )[j] by {
        assert(names(ms)[i] == ms[i].name);
        assert(names(ms)[j] == ms[j].name);
        if j < g.modes.len() {
            assert(names(g.modes)[i] == g.modes[i].name);
            assert(names(g.modes)[j] == g.modes[j].name);
        } else {
            assert(ms[i] == g.modes[i]);
            assert(g.modes[i].name != name);
        }
    }
}

/// Merging two well-formed graphs, where accepted, gives a well-formed graph.
pub proof fn lemma_merge_well_formed(a: ModeGraphSpec, b: ModeGraphSpec)
    requires
        well_formed(a),
        well_formed(b),
        merge(a, b) is Ok,
    ensures
        well_formed(merge(a, b)->Ok_0),
{
    lemma_first_repeat_none(messages(a.default + b.default));
    let ms = a.modes + b.modes;
    lemma_first_repeat_none(names(ms));
    assert forall|i: int| 0 <= i < ms.len() implies all_distinct(
        messages(#[trigger] ms[i].commands),
    ) by {
        if i < a.modes.len() {
            assert(ms[i] == a.modes[i]);
        } else {
            assert(ms[i] == b.modes[i - a.modes.len()]);
        }
    }
}

proof fn lemma_first_empty_exists(g: ModeGraphSpec, i: int)
    requires
        0 <= i < g.modes.len(),
        g.modes[i].commands.len() == 0,
    ensures
        exists|j: int| first_empty_at(g, j),
    decreases i,
{
    if !first_empty_at(g, i) {
        let j = choose|j: int| 0 <= j < i && !(#[trigger] g.modes[j].commands.len() > 0);
        lemma_first_empty_exists(g, j);
    }
}

proof fn lemma_first_dangling_exists(g: ModeGraphSpec, b: int, k: int)
    requires
        dangling_at(g, b, k),
    ensures
        exists|b2: int, k2: int| first_dangling_at(g, b2, k2),
    decreases b, k,
{
    if !first_dangling_at(g, b, k) {
        let (b2, k2) = choose|b2: int, k2: int|
            comes_before(b2, k2, b, k) && dangling_at(g, b2, k2);
        lemma_first_dangling_exists(g, b2, k2);
    }
}

proof fn lemma_first_unreachable_exists(g: ModeGraphSpec, i: int)
    requires
        0 <= i < g.modes.len(),
        !reachable(g, i),
    ensures
        exists|j: int| first_unreachable_at(g, j),
    decreases i,
{
    if !first_unreachable_at(g, i) {
        let j = choose|j: int| 0 <= j < i && !#[trigger] reachable(g, j);
        lemma_first_unreachable_exists(g, j);
    }
}

/// What a graph that checks out satisfies, check by check.
proof fn lemma_validate_ok(g: ModeGraphSpec)
    requires
        validate(g) == Ok::<(), ConfigErrorSpec>(()),
    ensures
        g.default.len() > 0,
        forall|i: int| 0 <= i < g.modes.len() ==> #[trigger] g.modes[i].commands.len() > 0,
        forall|b: int, k: int| !dangling_at(g, b, k),
        forall|i: int| 0 <= i < g.modes.len() ==> reachable(g, i),
{
    assert forall|i: int| 0 <= i < g.modes.len() implies #[trigger] g.modes[i].commands.len()
        > 0 by {
        if g.modes[i].commands.len() == 0 {
            lemma_first_empty_exists(g, i);
        }
    }
    assert forall|b: int, k: int| !dangling_at(g, b, k) by {
        if dangling_at(g, b, k) {
            lemma_first_dangling_exists(g, b, k);
        }
    }
    assert forall|i: int| 0 <= i < g.modes.len() implies reachable(g, i) by {
        if !reachable(g, i) {
            lemma_first_unreachable_exists(g, i);
        }
    }
}

proof fn lemma_leads_to_concat(x: Seq<CommandSpec>, y: Seq<CommandSpec>, name: Seq<char>)
    ensures
        leads_to(x, name) ==> leads_to(x + y, name),
        leads_to(y, name) ==> leads_to(x + y, name),
{
    if leads_to(x, name) {
        let k = choose|k: int| 0 <= k < x.len() && #[trigger] x[k].next_mode == Some(name);
        assert((x + y)[k] == x[k]);
    }
    if leads_to(y, name) {
        let k = choose|k: int| 0 <= k < y.len() && #[trigger] y[k].next_mode == Some(name);
        assert((x + y)[x.len() + k] == y[k]);
    }
}

proof fn lemma_reach_in_union_left(a: ModeGraphSpec, b: ModeGraphSpec, i: int, steps: nat)
    requires
        0 <= i < a.modes.len(),
        reachable_within(a, i, steps),
    ensures
        reachable_within(union(a, b), i, steps),
    decreases steps,
{
    let u = union(a, b);
    assert(u.modes[i] == a.modes[i]);
    lemma_leads_to_concat(a.default, b.default, a.modes[i].name);
    if !leads_to(a.default, a.modes[i].name) {
        let j = choose|j: int|
            0 <= j < a.modes.len() && reachable_within(a, j, (steps - 1) as nat) && #[trigger] leads_to(
                a.modes[j].commands,
                a.modes[i].name,
            );
        lemma_reach_in_union_left(a, b, j, (steps - 1) as nat);
        assert(u.modes[j] == a.modes[j]);
        assert(leads_to(u.modes[j].commands, u.modes[i].name));
    }
}

proof fn lemma_reach_in_union_right(a: ModeGraphSpec, b: ModeGraphSpec, i: int, steps: nat)
    requires
        0 <= i < b.modes.len(),
        reachable_within(b, i, steps),
    ensures
        reachable_within(union(a, b), a.modes.len() + i, steps),
    decreases steps,
{
    let u = union(a, b);
    let ui = a.modes.len() + i;
    assert(u.modes[ui] == b.modes[i]);
    lemma_leads_to_concat(a.default, b.default, b.modes[i].name);
    if !leads_to(b.default, b.modes[i].name) {
        let j = choose|j: int|
            0 <= j < b.modes.len() && reachable_within(b, j, (steps - 1) as nat) && #[trigger] leads_to(
                b.modes[j].commands,
                b.modes[i].name,
            );
        lemma_reach_in_union_right(a, b, j, (steps - 1) as nat);
        assert(u.modes[a.modes.len() + j] == b.modes[j]);
        assert(leads_to(u.modes[a.modes.len() + j].commands, u.modes[ui].name));
    }
}

proof fn lemma_mode_name_in_union(a: ModeGraphSpec, b: ModeGraphSpec, n: Seq<char>)
    ensures
        is_mode_name(a, n) ==> is_mode_name(union(a, b), n),
        is_mode_name(b, n) ==> is_mode_name(union(a, b), n),
{
    let u = union(a, b);
    if is_mode_name(a, n) {
        let i = choose|i: int| 0 <= i < a.modes.len() && #[trigger] a.modes[i].name == n;
        assert(u.modes[i] == a.modes[i]);
    }
    if is_mode_name(b, n) {
        let i = choose|i: int| 0 <= i < b.modes.len() && #[trigger] b.modes[i].name == n;
        assert(u.modes[a.modes.len() + i] == b.modes[i]);
    }
}

/// Merging two well-formed graphs that check out and share no default keyphrase and no
/// mode name succeeds, gives their union, and that union is well formed and checks out.
pub proof fn lemma_merge_valid(a: ModeGraphSpec, b: ModeGraphSpec)
    requires
        well_formed(a),
        well_formed(b),
        validate(a) == Ok::<(), ConfigErrorSpec>(()),
        validate(b) == Ok::<(), ConfigErrorSpec>(()),
        disjoint(a, b),
    ensures
        merge(a, b) == Ok::<ModeGraphSpec, ConfigErrorSpec>(union(a, b)),
        well_formed(union(a, b)),
        validate(union(a, b)) == Ok::<(), ConfigErrorSpec>(()),
{
    lemma_merge_disjoint(a, b);
    lemma_merge_well_formed(a, b);
    lemma_validate_ok(a);
    lemma_validate_ok(b);
    let u = union(a, b);
    let na = a.modes.len();
    assert forall|i: int| 0 <= i < u.modes.len() implies #[trigger] u.modes[i].commands.len()
        > 0 by {
        if i < na {
            assert(u.modes[i] == a.modes[i]);
        } else {
            assert(u.modes[i] == b.modes[i - na]);
        }
    }
    assert(!exists|i: int| first_empty_at(u, i));
    assert forall|bb: int, k: int| !dangling_at(u, bb, k) by {
        if dangling_at(u, bb, k) {
            let c = block(u, bb)[k];
            let n = c.next_mode->0;
            lemma_mode_name_in_union(a, b, n);
            if bb == 0 {
                if k < a.default.len() {
                    assert(c == block(a, 0)[k]);
                    assert(!dangling_at(a, 0, k));
                } else {
                    assert(c == block(b, 0)[k - a.default.len()]);
                    assert(!dangling_at(b, 0, k - a.default.len()));
                }
            } else if bb <= na {
                assert(u.modes[bb - 1] == a.modes[bb - 1]);
                assert(!dangling_at(a, bb, k));
            } else {
                assert(u.modes[bb - 1] == b.modes[bb - 1 - na]);
                assert(block(u, bb) == block(b, bb - na));
                assert(!dangling_at(b, bb - na, k));
            }
        }
    }
    assert(!exists|bb: int, k: int| first_dangling_at(u, bb, k));
    assert forall|i: int| 0 <= i < u.modes.len() implies #[trigger] reachable(u, i) by {
        if i < na {
            assert(reachable(a, i));
            let st = choose|st: nat| reachable_within(a, i, st);
            lemma_reach_in_union_left(a, b, i, st);
        } else {
            let j = i - na;
            assert(reachable(b, j));
            let st = choose|st: nat| reachable_within(b, j, st);
            lemma_reach_in_union_right(a, b, j, st);
        }
    }
    assert(!exists|i: int| first_unreachable_at(u, i));
}

/// The first repeated keyphrase of `cmds`, if any.
fn first_repeated_message(cmds: &Vec<Command>) -> (r: Option<String>)
    ensures
        opt_view(r) == first_repeat(messages(commands_view(cmds@))),
{
    let ghost ms = messages(commands_view(cmds@));
    let n = cmds.len();
    assert(ms.take(0).len() == 0);
    for i in 0..n
        invariant
            n == cmds@.len(),
            ms == messages(commands_view(cmds@)),
            first_repeat(ms.take(i as int)) is None,
    {
        proof {
            lemma_first_repeat_step(ms, i as int);
        }
        for j in 0..i
            invariant
                n == cmds@.len(),
                i < n,
                ms == messages(commands_view(cmds@)),
                first_repeat(ms.take(i as int)) is None,
                forall|k: int| 0 <= k < j ==> ms[k] != ms[i as int],
        {
            proof {
                assert(commands_view(cmds@)[j as int] == cmds@[j as int]@);
                assert(commands_view(cmds@)[i as int] == cmds@[i as int]@);
                assert(ms[j as int] == cmds@[j as int]@.message);
                assert(ms[i as int] == cmds@[i as int]@.message);
            }
            if str_eq(cmds[j].message(), cmds[i].message()) {
                proof {
                    assert(ms[j as int] == ms[i as int]);
                    assert(repeats_earlier(ms, i as int));
                    lemma_first_repeat_step(ms, i as int);
                    lemma_first_repeat_prefix(ms, i + 1);
                }
                return Some(cmds[i].message_string().clone());
            }
        }
        proof {
            assert(!repeats_earlier(ms, i as int));
        }
    }
    assert(ms.take(n as int) =~= ms);
    None
}

/// The first repeated name among `modes`, if any.
fn first_repeated_name(modes: &Vec<CommandMode>) -> (r: Option<String>)
    ensures
        opt_view(r) == first_repeat(names(modes_view(modes@))),
{
    let ghost ms = names(modes_view(modes@));
    let n = modes.len();
    assert(ms.take(0).len() == 0);
    for i in 0..n
        invariant
            n == modes@.len(),
            ms == names(modes_view(modes@)),
            first_repeat(ms.take(i as int)) is None,
    {
        proof {
            lemma_first_repeat_step(ms, i as int);
        }
        for j in 0..i
            invariant
                n == modes@.len(),
                i < n,
                ms == names(modes_view(modes@)),
                first_repeat(ms.take(i as int)) is None,
                forall|k: int| 0 <= k < j ==> ms[k] != ms[i as int],
        {
            proof {
                assert(modes_view(modes@)[j as int] == modes@[j as int]@);
                assert(modes_view(modes@)[i as int] == modes@[i as int]@);
                assert(ms[j as int] == modes@[j as int]@.name);
                assert(ms[i as int] == modes@[i as int]@.name);
            }
            if modes[j].name == modes[i].name {
                proof {
                    assert(ms[j as int] == ms[i as int]);
                    assert(repeats_earlier(ms, i as int));
                    lemma_first_repeat_step(ms, i as int);
                    lemma_first_repeat_prefix(ms, i + 1);
                }
                return Some(modes[i].name.clone());
            }
        }
        proof {
            assert(!repeats_earlier(ms, i as int));
        }
    }
    assert(ms.take(n as int) =~= ms);
    None
}

impl ModeTree {
    #[verifier::type_invariant]
    spec fn keys_distinct(self) -> bool {
        well_formed(self@)
    }

    /// A graph with no commands and no named modes.
    pub fn empty() -> (r: Self)
        ensures
            r@ == (ModeGraphSpec { default: Seq::empty(), modes: Seq::empty() }),
            well_formed(r@),
    {
        let default_mode_commands: Vec<Command> = Vec::new();
        let submodes: Vec<CommandMode> = Vec::new();
        assert(commands_view(default_mode_commands@) =~= Seq::empty());
        assert(modes_view(submodes@) =~= Seq::empty());
        assert(messages(Seq::<CommandSpec>::empty()) =~= Seq::empty());
        assert(names(Seq::<ModeSpec>::empty()) =~= Seq::empty());
        Self { default_mode_commands, submodes }
    }

    /// Adds `commands` after the default mode's commands; refused where two default
    /// commands would share a keyphrase, naming the first repeated one.
    pub fn with_commands(self, commands: Vec<Command>) -> (r: Result<Self, ConfigError>)
        ensures
            result_view(r) == add_commands(self@, commands_view(commands@)),
    {
        proof {
            use_type_invariant(&self);
            if add_commands(self@, commands_view(commands@)) is Ok {
                lemma_add_commands_well_formed(self@, commands_view(commands@));
            }
        }
        let ghost old_default = self.default_mode_commands@;
        let mut commands = commands;
        let ghost added = commands@;
        let ModeTree { default_mode_commands, submodes } = self;
        let mut new_default_mode = default_mode_commands;
        new_default_mode.append(&mut commands);
        assert(commands_view(new_default_mode@) =~= commands_view(old_default) + commands_view(
            added,
        ));
        match first_repeated_message(&new_default_mode) {
            Some(m) => Err(ConfigError::DuplicateMessage(m)),
            None => Ok(ModeTree { default_mode_commands: new_default_mode, submodes }),
        }
    }

    /// Adds a named mode after the others; refused where the name is taken or two of
    /// `commands` share a keyphrase.
    pub fn with_mode(self, name: String, commands: Vec<Command>) -> (r: Result<Self, ConfigError>)
        ensures
            result_view(r) == add_mode(self@, name@, commands_view(commands@)),
    {
        proof {
            use_type_invariant(&self);
            if add_mode(self@, name@, commands_view(commands@)) is Ok {
                lemma_add_mode_well_formed(self@, name@, commands_view(commands@));
            }
        }
        if self.has_mode(name.as_str()) {
            return Err(ConfigError::DuplicateMode(name));
        }
        match first_repeated_message(&commands) {
            Some(m) => Err(ConfigError::DuplicateMessage(m)),
            None => {
                let ModeTree { default_mode_commands, submodes } = self;
                let ghost old_modes = submodes@;
                let mut submodes = submodes;
                let new_mode = CommandMode { name, commands };
                submodes.push(new_mode);
                assert(modes_view(submodes@) =~= modes_view(old_modes).push(new_mode@));
                Ok(ModeTree { default_mode_commands, submodes })
            },
        }
    }

    /// Combines `self` with `other`: the default commands and named modes of `other` come
    /// after those of `self`. Refused on a repeated default keyphrase, then on a repeated
    /// mode name.
    pub fn or_else(self, other: Self) -> (r: Result<Self, ConfigError>)
        ensures
            result_view(r) == merge(self@, other@),
    {
        proof {
            use_type_invariant(&self);
            use_type_invariant(&other);
            if merge(self@, other@) is Ok {
                lemma_merge_well_formed(self@, other@);
            }
        }
        let ModeTree { default_mode_commands: other_default, submodes: other_modes } = other;
        let mut other_modes = other_modes;
        let ghost theirs = other_modes@;
        match self.with_commands(other_default) {
            Err(e) => Err(e),
            Ok(retvl) => {
                let ModeTree { default_mode_commands, submodes } = retvl;
                let ghost ours = submodes@;
                let mut new_submodes = submodes;
                new_submodes.append(&mut other_modes);
                assert(modes_view(new_submodes@) =~= modes_view(ours) + modes_view(theirs));
                match first_repeated_name(&new_submodes) {
                    Some(n) => Err(ConfigError::DuplicateMode(n)),
                    None => Ok(ModeTree { default_mode_commands, submodes: new_submodes }),
                }
            },
        }
    }

    /// Whether a named mode is called `name`.
    fn has_mode(&self, name: &str) -> (r: bool)
        ensures
            r == is_mode_name(self@, name@),
    {
        let n = self.submodes.len();
        for i in 0..n
            invariant
                n == self.submodes@.len(),
                forall|k: int| 0 <= k < i ==> self@.modes[k].name != name@,
        {
            proof {
                assert(self@.modes[i as int] == self.submodes@[i as int]@);
            }
            if str_eq(self.submodes[i].name.as_str(), name) {
                assert(self@.modes[i as int].name == name@);
                return true;
            }
        }
        false
    }
    /// The commands offered in `mode`: those of the first named mode so called, or those of
    /// the default mode where `mode` is `None` or names no mode.
    pub fn commands_for_mode(&self, mode: Option<&str>) -> (r: &Vec<Command>)
        ensures
            commands_view(r@) == commands_for(self@, opt_str_view(mode)),
    {
        match mode {
            None => &self.default_mode_commands,
            Some(m) => {
                let n = self.submodes.len();
                for i in 0..n
                    invariant
                        n == self@.modes.len(),
                        opt_str_view(mode) == Some(m@),
                        first_mode_named(self@.modes, m@, i as nat) is None,
                {
                    proof {
                        assert(self@.modes[i as int] == self.submodes@[i as int]@);
                    }
                    if str_eq(self.submodes[i].name.as_str(), m) {
                        proof {
                            lemma_first_mode_named_extend(
                                self@.modes,
                                m@,
                                (i + 1) as nat,
                                self@.modes.len(),
                            );
                        }
                        return &self.submodes[i].commands;
                    }
                }
                &self.default_mode_commands
            },
        }
    }

    /// The commands of the default mode (`b == 0`) or of named mode `b - 1`.
    fn block_commands(&self, b: usize) -> (r: &Vec<Command>)
        requires
            b <= self@.modes.len(),
        ensures
            commands_view(r@) == block(self@, b as int),
    {
        if b == 0 {
            &self.default_mode_commands
        } else {
            proof {
                assert(self@.modes[b - 1] == self.submodes@[b - 1]@);
            }
            &self.submodes[b - 1].commands
        }
    }

    /// The target of the first command of `cmds`, block `b` of the graph, that switches to an
    /// undefined mode.
    fn dangling_in(&self, cmds: &Vec<Command>, b: Ghost<int>) -> (r: Option<String>)
        requires
            0 <= b@ <= self@.modes.len(),
            commands_view(cmds@) == block(self@, b@),
        ensures
            r is None ==> forall|k: int| !dangling_at(self@, b@, k),
            r is Some ==> exists|k: int|
                dangling_at(self@, b@, k) && (forall|k2: int| 0 <= k2 < k ==> !dangling_at(self@, b@, k2))
                    && block(self@, b@)[k].next_mode == Some(r->0@),
    {
        let m = cmds.len();
        for k in 0..m
            invariant
                0 <= b@ <= self@.modes.len(),
                m == cmds@.len(),
                commands_view(cmds@) == block(self@, b@),
                forall|k2: int| 0 <= k2 < k ==> !dangling_at(self@, b@, k2),
        {
            proof {
                assert(block(self@, b@)[k as int] == cmds@[k as int]@);
            }
            match cmds[k].next_mode_string() {
                Some(target) => {
                    if !self.has_mode(target.as_str()) {
                        proof {
                            assert(dangling_at(self@, b@, k as int));
                        }
                        return Some(target.clone());
                    }
                },
                None => {},
            }
        }
        None
    }

    /// The target of the first mode switch to an undefined mode, if any.
    fn first_dangling(&self) -> (r: Option<String>)
        ensures
            r is None ==> forall|b: int, k: int| !dangling_at(self@, b, k),
            r is Some ==> exists|b: int, k: int|
                first_dangling_at(self@, b, k) && block(self@, b)[k].next_mode == Some(r->0@),
    {
        let n = self.submodes.len();
        assert(n == self@.modes.len());
        match self.dangling_in(&self.default_mode_commands, Ghost(0)) {
            Some(target) => {
                proof {
                    let k = choose|k: int|
                        dangling_at(self@, 0, k) && (forall|k2: int|
                            0 <= k2 < k ==> !dangling_at(self@, 0, k2)) && block(self@, 0)[k].next_mode
                            == Some(target@);
                    assert(first_dangling_at(self@, 0, k));
                }
                return Some(target);
            },
            None => {},
        }
        for i in 0..n
            invariant
                n == self@.modes.len(),
                forall|b2: int, k2: int| 0 <= b2 <= i ==> !dangling_at(self@, b2, k2),
        {
            proof {
                assert(self@.modes[i as int] == self.submodes@[i as int]@);
            }
            match self.dangling_in(&self.submodes[i].commands, Ghost(i + 1)) {
                Some(target) => {
                    proof {
                        let b = i + 1;
                        let k = choose|k: int|
                            dangling_at(self@, b, k) && (forall|k2: int|
                                0 <= k2 < k ==> !dangling_at(self@, b, k2)) && block(self@, b)[k].next_mode
                                == Some(target@);
                        assert(first_dangling_at(self@, b, k));
                    }
                    return Some(target);
                },
                None => {},
            }
        }
        None
    }

    /// Whether some command of `cmds`, block `b` of the graph, switches to the mode `name`.
    fn refers_in(&self, cmds: &Vec<Command>, b: Ghost<int>, name: &String) -> (r: bool)
        requires
            0 <= b@ <= self@.modes.len(),
            commands_view(cmds@) == block(self@, b@),
        ensures
            r == leads_to(block(self@, b@), name@),
    {
        let m = cmds.len();
        for k in 0..m
            invariant
                0 <= b@ <= self@.modes.len(),
                m == cmds@.len(),
                commands_view(cmds@) == block(self@, b@),
                forall|k2: int|
                    0 <= k2 < k ==> #[trigger] block(self@, b@)[k2].next_mode != Some(name@),
        {
            proof {
                assert(block(self@, b@)[k as int] == cmds@[k as int]@);
            }
            match cmds[k].next_mode_string() {
                Some(target) => {
                    if *target == *name {
                        return true;
                    }
                },
                None => {},
            }
        }
        false
    }

    /// For each named mode, whether it can be reached from the default mode.
    fn reachable_modes(&self) -> (r: Vec<bool>)
        ensures
            r@.len() == self@.modes.len(),
            forall|i: int| 0 <= i < self@.modes.len() ==> r@[i] == reachable(self@, i),
    {
        let ghost g = self@;
        let n = self.submodes.len();
        let mut marked: Vec<bool> = Vec::new();
        for i in 0..n
            invariant
                n == g.modes.len(),
                g == self@,
                marked@.len() == i,
                forall|k: int| 0 <= k < i ==> marked@[k] == leads_to(g.default, g.modes[k].name),
        {
            proof {
                assert(g.modes[i as int] == self.submodes@[i as int]@);
            }
            let m = self.refers_in(&self.default_mode_commands, Ghost(0), &self.submodes[i].name);
            marked.push(m);
        }
        proof {
            assert forall|k: int| 0 <= k < n && marked@[k] implies reachable(g, k) by {
                assert(reachable_within(g, k, 0));
            }
            lemma_count_bound(marked@);
        }
        let mut stable = false;
        while !stable
            invariant
                n == g.modes.len(),
                g == self@,
                marked@.len() == n,
                count_set(marked@) <= n,
                forall|k: int| 0 <= k < n && marked@[k] ==> reachable(g, k),
                forall|k: int| 0 <= k < n && leads_to(g.default, g.modes[k].name) ==> marked@[k],
                stable ==> forall|k: int, j: int|
                    0 <= k < n && 0 <= j < n && marked@[j] && #[trigger] leads_to(
                        g.modes[j].commands,
                        g.modes[k].name,
                    ) ==> marked@[k],
            decreases (n - count_set(marked@)) * 2 + if stable {
                0int
            } else {
                1int
            },
        {
            let ghost before = marked@;
            let mut changed = false;
            for i in 0..n
                invariant
                    n == g.modes.len(),
                    g == self@,
                    marked@.len() == n,
                    before.len() == n,
                    forall|k: int| 0 <= k < n && marked@[k] ==> reachable(g, k),
                    forall|k: int| 0 <= k < n && leads_to(g.default, g.modes[k].name) ==> marked@[k],
                    forall|k: int| 0 <= k < n && before[k] ==> marked@[k],
                    changed ==> count_set(before) < count_set(marked@),
                    !changed ==> marked@ == before,
                    !changed ==> forall|k: int, j: int|
                        0 <= k < i && 0 <= j < n && before[j] && #[trigger] leads_to(
                            g.modes[j].commands,
                            g.modes[k].name,
                        ) ==> before[k],
            {
                if !marked[i] {
                    let mut found = false;
                    let mut j: usize = 0;
                    while j < n && !found
                        invariant
                            n == g.modes.len(),
                            g == self@,
                            marked@.len() == n,
                            i < n,
                            j <= n,
                            found ==> exists|j2: int|
                                0 <= j2 < n && marked@[j2] && #[trigger] leads_to(
                                    g.modes[j2].commands,
                                    g.modes[i as int].name,
                                ),
                            !found ==> forall|j2: int|
                                0 <= j2 < j && marked@[j2] ==> !#[trigger] leads_to(
                                    g.modes[j2].commands,
                                    g.modes[i as int].name,
                                ),
                        decreases n - j,
                    {
                        proof {
                            assert(g.modes[j as int] == self.submodes@[j as int]@);
                            assert(g.modes[i as int] == self.submodes@[i as int]@);
                        }
                        if marked[j] && self.refers_in(
                            &self.submodes[j].commands,
                            Ghost(j + 1),
                            &self.submodes[i].name,
                        ) {
                            proof {
                                assert(block(g, j + 1) == g.modes[j as int].commands);
                                assert(leads_to(g.modes[j as int].commands, g.modes[i as int].name));
                            }
                            found = true;
                        }
                        j = j + 1;
                    }
                    if found {
                        let ghost old_marks = marked@;
                        proof {
                            let j2 = choose|j2: int|
                                0 <= j2 < n && marked@[j2] && #[trigger] leads_to(
                                    g.modes[j2].commands,
                                    g.modes[i as int].name,
                                );
                            lemma_reach_step(g, j2, i as int);
                        }
                        marked.set(i, true);
                        proof {
                            lemma_count_grows(old_marks, marked@, i as int);
                            lemma_count_grows(before, old_marks, 0);
                        }
                        changed = true;
                    }
                }
            }
            if !changed {
                stable = true;
            }
            proof {
                lemma_count_bound(marked@);
            }
        }
        proof {
            assert forall|i: int| 0 <= i < n implies marked@[i] == reachable(g, i) by {
                if reachable(g, i) {
                    let s = choose|s: nat| reachable_within(g, i, s);
                    lemma_closed_marks_complete(g, marked@, i, s);
                }
            }
        }
        marked
    }

    /// Checks the graph: the default mode must have commands, then every named mode, then
    /// every mode switch must name a defined mode, then every named mode must be reachable
    /// from the default mode along mode switches. The first failure in that order is returned.
    pub fn verify(&self) -> (r: Result<(), ConfigError>)
        ensures
            match r {
                Ok(()) => validate(self@) == Ok::<(), ConfigErrorSpec>(()),
                Err(e) => validate(self@) == Err::<(), ConfigErrorSpec>(e@),
            },
            well_formed(self@),
    {
        proof {
            use_type_invariant(self);
        }
        let ghost g = self@;
        if self.default_mode_commands.len() == 0 {
            return Err(ConfigError::NoCommands);
        }
        let n = self.submodes.len();
        for i in 0..n
            invariant
                n == g.modes.len(),
                g == self@,
                well_formed(g),
                g.default.len() > 0,
                forall|j: int| 0 <= j < i ==> #[trigger] g.modes[j].commands.len() > 0,
        {
            proof {
                assert(g.modes[i as int] == self.submodes@[i as int]@);
            }
            if self.submodes[i].commands.len() == 0 {
                proof {
                    assert(first_empty_at(g, i as int));
                    assert forall|i2: int| first_empty_at(g, i2) implies i2 == i by {
                        if i2 < i {
                            assert(g.modes[i2].commands.len() > 0);
                        } else if i2 > i {
                            assert(g.modes[i as int].commands.len() > 0);
                        }
                    }
                }
                return Err(ConfigError::EmptyMode(self.submodes[i].name.clone()));
            }
        }
        assert(!exists|i: int| first_empty_at(g, i));
        match self.first_dangling() {
            Some(target) => {
                proof {
                    let (b, k) = choose|b: int, k: int|
                        first_dangling_at(g, b, k) && block(g, b)[k].next_mode == Some(target@);
                    assert forall|b2: int, k2: int| first_dangling_at(g, b2, k2) implies b2 == b
                        && k2 == k by {
                        if comes_before(b2, k2, b, k) {
                        } else if comes_before(b, k, b2, k2) {
                        }
                    }
                }
                return Err(ConfigError::ModeNotFound(target));
            },
            None => {},
        }
        assert(!exists|b: int, k: int| first_dangling_at(g, b, k));
        let reach = self.reachable_modes();
        for i in 0..n
            invariant
                n == g.modes.len(),
                g == self@,
                well_formed(g),
                reach@.len() == n,
                forall|k: int| 0 <= k < n ==> reach@[k] == reachable(g, k),
                !exists|i: int| first_empty_at(g, i),
                !exists|b: int, k: int| first_dangling_at(g, b, k),
                g.default.len() > 0,
                forall|j: int| 0 <= j < i ==> #[trigger] reachable(g, j),
        {
            if !reach[i] {
                proof {
                    assert(g.modes[i as int] == self.submodes@[i as int]@);
                    assert(first_unreachable_at(g, i as int));
                    assert forall|i2: int| first_unreachable_at(g, i2) implies i2 == i by {
                        if i2 < i {
                        } else if i2 > i {
                        }
                    }
                }
                return Err(ConfigError::UnreachableMode(self.submodes[i].name.clone()));
            }
        }
        assert(!exists|i: int| first_unreachable_at(g, i));
        Ok(())
    }
}

} // verus!
