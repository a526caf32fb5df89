//! Small verified helpers on strings and sequences of strings.

use vstd::prelude::*;
use vstd::string::StringSliceAdditionalSpecFns;
use vstd::utf8::*;

verus! {

/// Whether two strings hold the same characters, compared byte by byte.
pub fn str_eq(a: &str, b: &str) -> (r: bool)
    ensures
        r == (a@ == b@),
{
    let ab = a.as_bytes();
    let bb = b.as_bytes();
    proof {
        encode_utf8_decode_utf8(a@);
        encode_utf8_decode_utf8(b@);
    }
    if ab.len() != bb.len() {
        return false;
    }
    let mut i: usize = 0;
    while i < ab.len()
        invariant
            ab@ == a.spec_bytes(),
            bb@ == b.spec_bytes(),
            ab@.len() == bb@.len(),
            i <= ab@.len(),
            forall|j: int| 0 <= j < i ==> ab@[j] == bb@[j],
        decreases ab@.len() - i,
    {
        if ab[i] != bb[i] {
            return false;
        }
        i = i + 1;
    }
    assert(ab@ =~= bb@);
    true
}

/// Whether `c` has the Unicode property White_Space, as `char::is_whitespace` tests.
pub open spec fn is_white_space(c: char) -> bool {
    let u = c as u32;
    ||| 0x9 <= u <= 0xD
    ||| u == 0x20
    ||| u == 0x85
    ||| u == 0xA0
    ||| u == 0x1680
    ||| 0x2000 <= u <= 0x200A
    ||| u == 0x2028
    ||| u == 0x2029
    ||| u == 0x202F
    ||| u == 0x205F
    ||| u == 0x3000
}

/// `s` without its leading whitespace.
pub open spec fn trim_start(s: Seq<char>) -> Seq<char>
    decreases s.len(),
{
    if s.len() > 0 && is_white_space(s[0]) {
        trim_start(s.drop_first())
    } else {
        s
    }
}

/// `s` without its trailing whitespace.
pub open spec fn trim_end(s: Seq<char>) -> Seq<char>
    decreases s.len(),
{
    if s.len() > 0 && is_white_space(s.last()) {
        trim_end(s.take(s.len() - 1))
    } else {
        s
    }
}

/// `s` without leading and trailing whitespace.
pub open spec fn trimmed(s: Seq<char>) -> Seq<char> {
    trim_end(trim_start(s))
}

/// Relies on `str::trim`: it returns `s` without leading and trailing whitespace, where
/// whitespace is what has the Unicode property White_Space.
#[verifier::external_body]
pub(crate) fn trim_str(s: &str) -> (r: &str)
    ensures
        r@ == trimmed(s@),
{
    s.trim()
}

/// Whether `len_a` + 1 by `len_b` + 1 cells fit in one table.
pub open spec fn table_fits(len_a: int, len_b: int) -> bool {
    (len_a + 1) * (len_b + 1) <= usize::MAX
}

/// Whether a table of `len_a` + 1 by `len_b` + 1 cells fits.
pub fn table_size_fits(len_a: usize, len_b: usize) -> (r: bool)
    ensures
        r == table_fits(len_a as int, len_b as int),
{
    match len_a.checked_add(1) {
        None => {
            assert((len_a + 1) * (len_b + 1) >= len_a + 1) by (nonlinear_arith);
            false
        },
        Some(a) => match len_b.checked_add(1) {
            None => {
                assert((len_a + 1) * (len_b + 1) >= len_b + 1) by (nonlinear_arith);
                false
            },
            Some(b) => a.checked_mul(b).is_some(),
        },
    }
}

/// Whether the item at `i` equals one before it.
pub open spec fn repeats_earlier(s: Seq<Seq<char>>, i: int) -> bool {
    exists|j: int| 0 <= j < i && s[j] == s[i]
}

/// The first item of `s` that equals an item before it, if any.
pub open spec fn first_repeat(s: Seq<Seq<char>>) -> Option<Seq<char>>
    decreases s.len(),
{
    if s.len() == 0 {
        None
    } else {
        match first_repeat(s.take(s.len() - 1)) {
            Some(m) => Some(m),
            None => if repeats_earlier(s, s.len() - 1) {
                Some(s.last())
            } else {
                None
            },
        }
    }
}

/// Whether all items of `s` differ.
pub open spec fn all_distinct(s: Seq<Seq<char>>) -> bool {
    forall|i: int, j: int| 0 <= i < j < s.len() ==> s[i] != s[j]
}

/// One more item of the prefix: the first repeat of `s.take(i + 1)`.
pub proof fn lemma_first_repeat_step(s: Seq<Seq<char>>, i: int)
    requires
        0 <= i < s.len(),
        first_repeat(s.take(i)) is None,
    ensures
        first_repeat(s.take(i + 1)) == if repeats_earlier(s, i) {
            Some(s[i])
        } else {
            None::<Seq<char>>
        },
{
    let t = s.take(i + 1);
    assert(t.take(i) =~= s.take(i));
    if repeats_earlier(s, i) {
        let j = choose|j: int| 0 <= j < i && s[j] == s[i];
        assert(t[j] == t[i]);
    }
    if repeats_earlier(t, i) {
        let j = choose|j: int| 0 <= j < i && t[j] == t[i];
        assert(s[j] == s[i]);
    }
}

/// A repeat found in a prefix is the first repeat of the whole sequence.
pub proof fn lemma_first_repeat_prefix(s: Seq<Seq<char>>, k: int)
    requires
        0 <= k <= s.len(),
        first_repeat(s.take(k)) is Some,
    ensures
        first_repeat(s) == first_repeat(s.take(k)),
    decreases s.len() - k,
{
    if k == s.len() {
        assert(s.take(k) =~= s);
    } else {
        let s1 = s.take(s.len() - 1);
        assert(s1.take(k) =~= s.take(k));
        lemma_first_repeat_prefix(s1, k);
    }
}

/// A sequence has no repeat exactly when its items all differ.
pub proof fn lemma_first_repeat_none(s: Seq<Seq<char>>)
    ensures
        first_repeat(s) is None <==> all_distinct(s),
    decreases s.len(),
{
    if s.len() > 0 {
        let s1 = s.take(s.len() - 1);
        lemma_first_repeat_none(s1);
        if all_distinct(s) {
            assert(all_distinct(s1)) by {
                assert forall|i: int, j: int| 0 <= i < j < s1.len() implies s1[i] != s1[j] by {
                    assert(s1[i] == s[i] && s1[j] == s[j]);
                }
            }
            assert(!repeats_earlier(s, s.len() - 1));
        }
        if first_repeat(s) is None {
            assert forall|i: int, j: int| 0 <= i < j < s.len() implies s[i] != s[j] by {
                if j < s.len() - 1 {
                    assert(s1[i] == s[i] && s1[j] == s[j]);
                } else {
                    assert(!repeats_earlier(s, s.len() - 1));
                }
            }
        }
    }
}

} // verus!
