//! Splitting strings on a marker.

use vstd::prelude::*;

use crate::dispatch::strings_view;

verus! {

/// The characters of `s` in order.
fn chars_of(s: &str) -> (r: Vec<char>)
    ensures
        r@ == s@,
{
    broadcast use vstd::string::axiom_spec_iter, vstd::string::next_postcondition;

    let mut r: Vec<char> = Vec::new();
    for c in it: s.chars()
        invariant
            r@.len() == it.index(),
            forall|i: int| 0 <= i < r@.len() ==> r@[i] == it.seq()[i],
            it.seq() == s@,
    {
        r.push(c);
    }
    assert(r@ =~= s@);
    r
}

/// Relies on collecting characters into a `String`: the string of exactly these characters.
#[verifier::external_body]
fn string_of(cs: &[char]) -> (r: String)
    ensures
        r@ == cs@,
{
    cs.iter().collect()
}

/// Whether `m` occurs in `s` starting at `i`.
pub open spec fn occurs_at(s: Seq<char>, m: Seq<char>, i: int) -> bool {
    0 <= i && i + m.len() <= s.len() && s.subrange(i, i + m.len()) == m
}

/// The first position below `n` where `m` occurs in `s`, if any.
pub open spec fn first_occurrence(s: Seq<char>, m: Seq<char>, n: nat) -> Option<int>
    decreases n,
{
    if n == 0 {
        None
    } else {
        match first_occurrence(s, m, (n - 1) as nat) {
            Some(i) => Some(i),
            None => if occurs_at(s, m, n - 1) {
                Some(n - 1)
            } else {
                None
            },
        }
    }
}

proof fn lemma_first_occurrence_extend(s: Seq<char>, m: Seq<char>, k: nat, n: nat)
    requires
        k <= n,
        first_occurrence(s, m, k) is Some,
    ensures
        first_occurrence(s, m, n) == first_occurrence(s, m, k),
    decreases n - k,
{
    if k < n {
        lemma_first_occurrence_extend(s, m, k, (n - 1) as nat);
    }
}

proof fn lemma_first_occurrence_none(s: Seq<char>, m: Seq<char>, k: nat, n: nat)
    requires
        k <= n,
        first_occurrence(s, m, k) is None,
        forall|i: int| k <= i < n ==> !occurs_at(s, m, i),
    ensures
        first_occurrence(s, m, n) is None,
    decreases n - k,
{
    if k < n {
        lemma_first_occurrence_none(s, m, k, (n - 1) as nat);
    }
}

/// Where `m` first occurs in `s`.
pub open spec fn find_spec(s: Seq<char>, m: Seq<char>) -> Option<int> {
    first_occurrence(s, m, (s.len() + 1) as nat)
}

/// The first position where `m` occurs in `s`.
fn find_chars(s: &Vec<char>, m: &Vec<char>) -> (r: Option<usize>)
    ensures
        match r {
            Some(i) => find_spec(s@, m@) == Some(i as int),
            None => find_spec(s@, m@) is None,
        },
{
    let n = s.len();
    let ml = m.len();
    if ml > n {
        proof {
            lemma_first_occurrence_none(s@, m@, 0, (n + 1) as nat);
        }
        return None;
    }
    if ml == 0 {
        proof {
            assert(s@.subrange(0, 0) =~= m@);
            assert(first_occurrence(s@, m@, 0) is None);
            assert(occurs_at(s@, m@, 0));
            assert(first_occurrence(s@, m@, 1) == Some(0int));
            lemma_first_occurrence_extend(s@, m@, 1, (n + 1) as nat);
        }
        return Some(0);
    }
    let last = n - ml;
    for i in 0..last + 1
        invariant
            n == s@.len(),
            ml == m@.len(),
            last == n - ml,
            first_occurrence(s@, m@, i as nat) is None,
    {
        let mut j: usize = 0;
        let mut same = true;
        while j < ml
            invariant
                n == s@.len(),
                ml == m@.len(),
                i <= last,
                last == n - ml,
                j <= ml,
                same == (forall|t: int| 0 <= t < j ==> s@[i + t] == m@[t]),
            decreases ml - j,
        {
            if s[i + j] != m[j] {
                same = false;
            }
            j = j + 1;
        }
        if same {
            proof {
                assert(s@.subrange(i as int, i + ml) =~= m@);
                lemma_first_occurrence_extend(s@, m@, (i + 1) as nat, (n + 1) as nat);
            }
            return Some(i);
        }
        proof {
            if occurs_at(s@, m@, i as int) {
                assert forall|t: int| 0 <= t < ml implies s@[i + t] == m@[t] by {
                    assert(s@.subrange(i as int, i + ml)[t] == s@[i + t]);
                }
            }
        }
    }
    proof {
        lemma_first_occurrence_none(s@, m@, (last + 1) as nat, (n + 1) as nat);
    }
    None
}

/// The pieces of an owned string between occurrences of a marker, handed out one by one.
pub struct SplitOwned {
    marker: Vec<char>,
    buffer: Vec<char>,
    finished: bool,
}

/// The state of a splitter as plain values.
pub struct SplitSpec {
    pub marker: Seq<char>,
    pub buffer: Seq<char>,
    pub finished: bool,
}

impl View for SplitOwned {
    type V = SplitSpec;

    closed spec fn view(&self) -> SplitSpec {
        SplitSpec { marker: self.marker@, buffer: self.buffer@, finished: self.finished }
    }
}

/// Whether the next step is defined: where the marker no longer occurs, what is left loses
/// as many trailing characters as the marker has, so there must be that many.
pub open spec fn next_defined(s: SplitSpec) -> bool {
    s.finished || find_spec(s.buffer, s.marker) is Some || s.buffer.len() == 0 || s.buffer.len()
        >= s.marker.len()
}

/// One step of splitting: the text up to the next marker (the marker dropped), or, where no
/// marker is left, the rest without its last marker-length characters. The splitter ends
/// once a step leaves nothing behind and hands out nothing.
pub open spec fn next_spec(s: SplitSpec) -> (Option<Seq<char>>, SplitSpec) {
    if s.finished {
        (None, s)
    } else {
        let end = match find_spec(s.buffer, s.marker) {
            Some(i) => i + s.marker.len(),
            None => s.buffer.len() as int,
        };
        let taken = s.buffer.take(end);
        let rest = s.buffer.skip(end);
        let piece = if taken.len() == 0 {
            taken
        } else {
            taken.take(taken.len() - s.marker.len())
        };
        (
            Some(piece),
            SplitSpec {
                marker: s.marker,
                buffer: rest,
                finished: piece.len() == 0 && rest.len() == 0,
            },
        )
    }
}

impl SplitOwned {
    /// The next piece, or `None` once the string is used up.
    pub fn next(&mut self) -> (r: Option<String>)
        requires
            next_defined(old(self)@),
        ensures
            ({
                let (piece, after) = next_spec(old(self)@);
                &&& final(self)@ == after
                &&& match r {
                    Some(p) => piece == Some(p@),
                    None => piece is None,
                }
            }),
    {
        if self.finished {
            return None;
        }
        let buffer_len = self.buffer.len();
        let end_idx = match find_chars(&self.buffer, &self.marker) {
            Some(idx) => {
                proof {
                    assert(occurs_at(self.buffer@, self.marker@, idx as int)) by {
                        lemma_first_occurrence_found(self.buffer@, self.marker@, (self.buffer@.len()
                            + 1) as nat);
                    }
                }
                idx + self.marker.len()
            },
            None => self.buffer.len(),
        };
        let ghost whole = self.buffer@;
        let mut retbuf = self.buffer.split_off(end_idx);
        std::mem::swap(&mut retbuf, &mut self.buffer);
        assert(retbuf@ == whole.take(end_idx as int));
        assert(self.buffer@ == whole.skip(end_idx as int));
        if retbuf.len() != 0 {
            let keep = retbuf.len() - self.marker.len();
            retbuf.truncate(keep);
        }
        if retbuf.len() == 0 && self.buffer.len() == 0 {
            self.finished = true;
        }
        Some(string_of(retbuf.as_slice()))
    }

    /// Every remaining piece, in order.
    pub fn collect_all(&mut self) -> (r: Vec<String>)
        requires
            pieces_from(old(self)@) is Some,
        ensures
            final(self)@.finished,
            strings_view(r@) == pieces_from(old(self)@)->0,
    {
        let mut out: Vec<String> = Vec::new();
        assert(strings_view(out@) + pieces_from(self@)->0 =~= pieces_from(self@)->0);
        while !self.finished
            invariant
                pieces_from(self@) is Some,
                pieces_from(old(self)@)->0 == strings_view(out@) + pieces_from(self@)->0,
            decreases split_measure(self@),
        {
            let ghost before = self@;
            let ghost seen = out@;
            match self.next() {
                Some(p) => {
                    out.push(p);
                    proof {
                        assert(strings_view(out@) =~= strings_view(seen).push(p@));
                        assert(pieces_from(before)->0 =~= seq![p@] + pieces_from(self@)->0);
                        assert(strings_view(seen) + pieces_from(before)->0 =~= strings_view(out@)
                            + pieces_from(self@)->0);
                    }
                },
                None => {},
            }
        }
        assert(strings_view(out@) + pieces_from(self@)->0 =~= strings_view(out@));
        out
    }
}

/// A measure that every step of splitting lowers, unless it would repeat forever.
pub open spec fn split_measure(s: SplitSpec) -> int {
    s.buffer.len() + if s.finished {
        0int
    } else {
        1int
    }
}

/// All pieces a splitter in state `s` hands out, in order; `None` where a step is
/// undefined or the splitting would never end (an empty marker in a non-empty string).
pub open spec fn pieces_from(s: SplitSpec) -> Option<Seq<Seq<char>>>
    decreases split_measure(s),
{
    if s.finished {
        Some(Seq::empty())
    } else if !next_defined(s) {
        None
    } else {
        let (piece, after) = next_spec(s);
        if 0 <= split_measure(after) < split_measure(s) {
            match pieces_from(after) {
                Some(rest) => Some(seq![piece->0] + rest),
                None => None,
            }
        } else {
            None
        }
    }
}

proof fn lemma_first_occurrence_found(s: Seq<char>, m: Seq<char>, n: nat)
    requires
        first_occurrence(s, m, n) is Some,
    ensures
        occurs_at(s, m, first_occurrence(s, m, n)->0),
        0 <= first_occurrence(s, m, n)->0 < n,
    decreases n,
{
    if n > 0 {
        if first_occurrence(s, m, (n - 1) as nat) is Some {
            lemma_first_occurrence_found(s, m, (n - 1) as nat);
        }
    }
}

/// The position of the first `marker` among `s[0..n]`, if any.
pub open spec fn first_char_at(s: Seq<char>, marker: char, n: nat) -> Option<int>
    decreases n,
{
    if n == 0 {
        None
    } else {
        match first_char_at(s, marker, (n - 1) as nat) {
            Some(i) => Some(i),
            None => if s[n - 1] == marker {
                Some(n - 1)
            } else {
                None
            },
        }
    }
}

proof fn lemma_first_char_extend(s: Seq<char>, marker: char, k: nat, n: nat)
    requires
        k <= n,
        first_char_at(s, marker, k) is Some,
    ensures
        first_char_at(s, marker, n) == first_char_at(s, marker, k),
    decreases n - k,
{
    if k < n {
        lemma_first_char_extend(s, marker, k, (n - 1) as nat);
    }
}

/// `s` split around the first `marker`, which is dropped; or all of `s` and nothing.
pub open spec fn split_first_spec(s: Seq<char>, marker: char) -> (Seq<char>, Seq<char>) {
    match first_char_at(s, marker, s.len()) {
        Some(i) => (s.take(i), s.skip(i + 1)),
        None => (s, Seq::empty()),
    }
}

/// Splits `inp` around the first `marker`, which is dropped; without one, the second part
/// is empty. The marker must be an ASCII character.
pub fn split_at_first(inp: &str, marker: char) -> (r: (String, String))
    requires
        (marker as u32) < 128,
    ensures
        (r.0@, r.1@) == split_first_spec(inp@, marker),
{
    let cs = chars_of(inp);
    let n = cs.len();
    for i in 0..n
        invariant
            n == cs@.len(),
            cs@ == inp@,
            first_char_at(cs@, marker, i as nat) is None,
    {
        if cs[i] == marker {
            proof {
                lemma_first_char_extend(cs@, marker, (i + 1) as nat, n as nat);
            }
            let (head, tail) = cs.as_slice().split_at(i);
            let (_, rest) = tail.split_at(1);
            let a = string_of(head);
            let b = string_of(rest);
            assert(a@ =~= inp@.take(i as int));
            assert(b@ =~= inp@.skip(i + 1));
            return (a, b);
        }
    }
    let a = string_of(cs.as_slice());
    let b = string_of(&[]);
    assert(b@ =~= Seq::<char>::empty());
    (a, b)
}

/// Splitting borrowed strings.
pub trait StrUtils {
    /// Splits `self` around the first `marker`, an ASCII character; see `split_at_first`.
    fn split_at_first(&self, marker: char) -> (String, String)
        requires
            (marker as u32) < 128,
    ;
}

impl StrUtils for str {
    fn split_at_first(&self, marker: char) -> (r: (String, String))
        ensures
            (r.0@, r.1@) == split_first_spec(self@, marker),
    {
        split_at_first(self, marker)
    }
}

/// Splitting owned strings.
pub trait StringUtils {
    /// Splits `self` on `marker`, handing the pieces out one by one.
    fn split_owned(self, marker: &str) -> SplitOwned;
}

impl StringUtils for String {
    fn split_owned(self, marker: &str) -> (r: SplitOwned)
        ensures
            r@ == (SplitSpec { marker: marker@, buffer: self@, finished: false }),
    {
        SplitOwned { marker: chars_of(marker), buffer: chars_of(self.as_str()), finished: false }
    }
}

} // verus!
