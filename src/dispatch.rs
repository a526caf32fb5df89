//! Matching a finished transcript to a path through the mode graph.
//!
//! The walk is greedy: in the current mode it picks the command whose keyphrase, appended
//! to the keyphrases matched so far, is closest to the transcript by edit distance, takes
//! that edge, and goes on in the mode it leads to. It never backtracks.

use vstd::prelude::*;
use vstd::string::StringSliceAdditionalSpecFns;
use vstd::utf8::encode_utf8;

use crate::metrics::{edit_distance, table_distance};
use crate::modes::{
    commands_for, commands_view, opt_str_view, opt_view, Command, CommandSpec, ModeGraphSpec,
    ModeTree,
};
use crate::text::{table_fits, table_size_fits, trim_str, trimmed};

verus! {

/// Whether a keyphrase is blank: such a command is the fallback edge of its mode.
pub open spec fn is_blank(message: Seq<char>) -> bool {
    trimmed(message).len() == 0
}

/// The bytes matched so far followed by a space and the bytes of `message`.
pub open spec fn joined(prefix: Seq<u8>, message: Seq<char>) -> Seq<u8> {
    prefix + seq![32u8] + encode_utf8(message)
}

/// Whether every edit table that one step of the walk computes fits in memory: the one for
/// the keyphrases matched so far, and one for each non-blank candidate.
pub open spec fn step_fits(cands: Seq<CommandSpec>, prefix: Seq<u8>, text: Seq<u8>) -> bool {
    &&& table_fits(text.len() as int, prefix.len() as int)
    &&& forall|k: int|
        0 <= k < cands.len() && !is_blank(#[trigger] cands[k].message) ==> table_fits(
            text.len() as int,
            joined(prefix, cands[k].message).len() as int,
        )
}

/// The candidate picked among the first `n` of `cands`, with the distance to beat.
/// A blank candidate is taken only while nothing is picked, and leaves the distance as it
/// is. Another is taken where its joined keyphrases are strictly closer to `text`, or where
/// nothing is matched yet at all (no prefix, nothing picked): then the first one is taken
/// whatever its distance.
pub open spec fn scan(cands: Seq<CommandSpec>, prefix: Seq<u8>, text: Seq<u8>, n: nat) -> (
    Option<int>,
    nat,
)
    decreases n,
{
    if n == 0 {
        (None, edit_distance(prefix, text))
    } else {
        let (picked, dist) = scan(cands, prefix, text, (n - 1) as nat);
        let c = cands[n - 1];
        if is_blank(c.message) {
            if picked is None {
                (Some(n - 1), dist)
            } else {
                (picked, dist)
            }
        } else {
            let d = edit_distance(joined(prefix, c.message), text);
            if d < dist || (prefix.len() == 0 && picked is None) {
                (Some(n - 1), d)
            } else {
                (picked, dist)
            }
        }
    }
}

/// The index of the command that one step of the walk takes, if any.
pub open spec fn chosen(cands: Seq<CommandSpec>, prefix: Seq<u8>, text: Seq<u8>) -> Option<int> {
    scan(cands, prefix, text, cands.len()).0
}

/// How far the keyphrases matched so far may still grow.
pub open spec fn room(prefix: Seq<u8>) -> nat {
    if prefix.len() < usize::MAX {
        (usize::MAX - prefix.len()) as nat
    } else {
        0
    }
}

/// The outcome of the walk from `mode`, with the keyphrase bytes `prefix` matched so far and
/// the actions `acts` collected so far: the actions and the mode to listen in next, or `None`
/// where an edit table would not fit in memory.
pub open spec fn walk(
    g: ModeGraphSpec,
    mode: Option<Seq<char>>,
    prefix: Seq<u8>,
    text: Seq<u8>,
    acts: Seq<Seq<char>>,
) -> Option<(Seq<Seq<char>>, Option<Seq<char>>)>
    decreases room(prefix),
{
    let cands = commands_for(g, mode);
    if !step_fits(cands, prefix, text) {
        None
    } else {
        match chosen(cands, prefix, text) {
            None => Some((acts, mode)),
            Some(k) => {
                let c = cands[k];
                let acts2 = match c.action {
                    Some(a) => acts.push(a),
                    None => acts,
                };
                match c.next_mode {
                    None => Some((acts2, None)),
                    Some(next) => if room(joined(prefix, c.message)) < room(prefix) {
                        walk(g, Some(next), joined(prefix, c.message), text, acts2)
                    } else {
                        None
                    },
                }
            },
        }
    }
}

/// The characters of each string.
pub open spec fn strings_view(v: Seq<String>) -> Seq<Seq<char>> {
    v.map_values(|s: String| s@)
}

/// The bytes of `prefix`, a space, and the bytes of `message`.
fn join_bytes(prefix: &Vec<u8>, message: &str) -> (r: Vec<u8>)
    ensures
        r@ == joined(prefix@, message@),
{
    let mut r: Vec<u8> = Vec::new();
    let n = prefix.len();
    for i in 0..n
        invariant
            n == prefix@.len(),
            r@ == prefix@.take(i as int),
    {
        r.push(prefix[i]);
        assert(r@ =~= prefix@.take(i + 1));
    }
    assert(prefix@.take(n as int) =~= prefix@);
    r.push(32u8);
    let bytes = message.as_bytes();
    let m = bytes.len();
    let ghost start = r@;
    for i in 0..m
        invariant
            m == bytes@.len(),
            bytes@ == message.spec_bytes(),
            r@ == start + bytes@.take(i as int),
    {
        r.push(bytes[i]);
        assert(r@ =~= start + bytes@.take(i + 1));
    }
    assert(bytes@.take(m as int) =~= bytes@);
    r
}

/// Whether every edit table of one step fits; see `step_fits`.
fn step_tables_fit(cands: &Vec<Command>, prefix: &Vec<u8>, text: &[u8]) -> (r: bool)
    ensures
        r == step_fits(commands_view(cands@), prefix@, text@),
{
    let ghost cs = commands_view(cands@);
    if !table_size_fits(text.len(), prefix.len()) {
        return false;
    }
    let n = cands.len();
    for k in 0..n
        invariant
            n == cands@.len(),
            cs == commands_view(cands@),
            table_fits(text@.len() as int, prefix@.len() as int),
            forall|k2: int|
                0 <= k2 < k && !is_blank(#[trigger] cs[k2].message) ==> table_fits(
                    text@.len() as int,
                    joined(prefix@, cs[k2].message).len() as int,
                ),
    {
        proof {
            assert(cs[k as int] == cands@[k as int]@);
        }
        let message = cands[k].message();
        proof {
            assert(message@ == cs[k as int].message);
            assert(joined(prefix@, message@).len() == prefix@.len() + 1 + message.spec_bytes().len());
        }
        if !trim_str(message).is_empty() {
            let pl = prefix.len();
            let ml = message.as_bytes().len();
            if pl == usize::MAX || ml > usize::MAX - pl - 1 {
                proof {
                    let jl = joined(prefix@, cs[k as int].message).len();
                    assert((text@.len() + 1) * (jl + 1) >= jl + 1) by (nonlinear_arith)
                        requires
                            jl >= 0,
                    ;
                }
                return false;
            }
            let l = pl + 1 + ml;
            proof {
                assert(!is_blank(cs[k as int].message));
                assert(l == joined(prefix@, cs[k as int].message).len());
            }
            if !table_size_fits(text.len(), l) {
                return false;
            }
        }
    }
    true
}

/// The index of the command one step of the walk takes; see `chosen`.
fn choose_command(cands: &Vec<Command>, prefix: &Vec<u8>, text: &[u8]) -> (r: Option<usize>)
    requires
        step_fits(commands_view(cands@), prefix@, text@),
    ensures
        match r {
            Some(k) => k < cands@.len() && chosen(commands_view(cands@), prefix@, text@) == Some(
                k as int,
            ),
            None => chosen(commands_view(cands@), prefix@, text@) is None,
        },
{
    let ghost cs = commands_view(cands@);
    let mut matched: Option<usize> = None;
    let mut matched_dist = table_distance(prefix.as_slice(), text, false);
    let n = cands.len();
    for k in 0..n
        invariant
            n == cands@.len(),
            cs == commands_view(cands@),
            step_fits(cs, prefix@, text@),
            match matched {
                Some(i) => i < k,
                None => true,
            },
            ({
                let (p, d) = scan(cs, prefix@, text@, k as nat);
                &&& d == matched_dist
                &&& match matched {
                    Some(i) => p == Some(i as int),
                    None => p is None,
                }
            }),
    {
        proof {
            assert(cs[k as int] == cands@[k as int]@);
        }
        let cur = &cands[k];
        let message = cur.message();
        if trim_str(message).is_empty() {
            if matched.is_none() {
                matched = Some(k);
            }
        } else {
            let cur_msg = join_bytes(prefix, message);
            let cur_dist = table_distance(cur_msg.as_slice(), text, false);
            let is_initial_cmd = prefix.len() == 0 && matched.is_none();
            if cur_dist < matched_dist || is_initial_cmd {
                matched = Some(k);
                matched_dist = cur_dist;
            }
        }
    }
    matched
}

/// Walks the mode graph `conf` from `current_mode` (`None`: the default mode) along the
/// transcript `raw_text`. Returns the terminal commands of the edges taken, in order, and the
/// mode to listen in next (`None`: the exchange is over). Returns `None` where an edit
/// table of the walk would not fit in memory.
pub fn match_commands(conf: &ModeTree, current_mode: Option<&str>, raw_text: &str) -> (r: Option<
    (Vec<String>, Option<String>),
>)
    ensures
        match r {
            Some((acts, next)) => walk(
                conf@,
                opt_str_view(current_mode),
                Seq::empty(),
                raw_text.spec_bytes(),
                Seq::empty(),
            ) == Some((strings_view(acts@), opt_view(next))),
            None => walk(
                conf@,
                opt_str_view(current_mode),
                Seq::empty(),
                raw_text.spec_bytes(),
                Seq::empty(),
            ) is None,
        },
{
    let text = raw_text.as_bytes();
    let ghost g = conf@;
    let ghost start = walk(
        g,
        opt_str_view(current_mode),
        Seq::empty(),
        raw_text.spec_bytes(),
        Seq::empty(),
    );
    let mut mode: Option<String> = match current_mode {
        Some(m) => Some(m.to_owned()),
        None => None,
    };
    let mut command_buff: Vec<String> = Vec::new();
    let mut str_buff: Vec<u8> = Vec::new();
    assert(strings_view(command_buff@) =~= Seq::empty());
    assert(str_buff@ =~= Seq::empty());
    loop
        invariant
            g == conf@,
            text@ == raw_text.spec_bytes(),
            start == walk(
                conf@,
                opt_str_view(current_mode),
                Seq::empty(),
                raw_text.spec_bytes(),
                Seq::empty(),
            ),
            start == walk(g, opt_view(mode), str_buff@, text@, strings_view(command_buff@)),
        decreases room(str_buff@),
    {
        let mode_str: Option<&str> = match &mode {
            Some(s) => Some(s.as_str()),
            None => None,
        };
        assert(opt_str_view(mode_str) == opt_view(mode));
        let current_commands = conf.commands_for_mode(mode_str);
        let ghost cands = commands_for(g, opt_view(mode));
        assert(commands_view(current_commands@) == cands);
        if !step_tables_fit(current_commands, &str_buff, text) {
            assert(walk(g, opt_view(mode), str_buff@, text@, strings_view(command_buff@)) is None);
            return None;
        }
        match choose_command(current_commands, &str_buff, text) {
            None => {
                return Some((command_buff, mode));
            },
            Some(k) => {
                let cmd = &current_commands[k];
                proof {
                    assert(commands_view(current_commands@)[k as int] == current_commands@[k as int]@);
                }
                match cmd.command() {
                    Some(term_cmd) => {
                        let ghost before = command_buff@;
                        command_buff.push(term_cmd.to_owned());
                        assert(strings_view(command_buff@) =~= strings_view(before).push(
                            term_cmd@,
                        ));
                    },
                    None => {},
                }
                match cmd.next_mode() {
                    None => {
                        return Some((command_buff, None));
                    },
                    Some(next) => {
                        let next_buff = join_bytes(&str_buff, cmd.message());
                        proof {
                            assert(step_fits(commands_view(current_commands@), str_buff@, text@));
                            assert((text@.len() + 1) * (str_buff@.len() + 1) >= str_buff@.len() + 1)
                                by (nonlinear_arith);
                            assert(room(next_buff@) < room(str_buff@));
                        }
                        str_buff = next_buff;
                        mode = Some(next.to_owned());
                    },
                }
            },
        }
    }
}

} // verus!
