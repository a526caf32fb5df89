//! Edit distances between byte strings, computed with a dynamic-programming table.

use vstd::prelude::*;
use vstd::string::StringSliceAdditionalSpecFns;

verus! {

/// The least of three naturals.
pub open spec fn min3(a: nat, b: nat, c: nat) -> nat {
    if a <= b && a <= c {
        a
    } else if b <= c {
        b
    } else {
        c
    }
}

/// The fewest single-byte insertions, deletions and substitutions that turn `a` into `b`.
/// Where `free_start` holds, a leading part of `b` may be skipped at no cost, so the result is
/// the cost of matching `a` against the best suffix of `b`.
pub open spec fn edit_cost(a: Seq<u8>, b: Seq<u8>, free_start: bool) -> nat
    decreases a.len() + b.len(),
{
    if a.len() == 0 {
        if free_start {
            0
        } else {
            b.len()
        }
    } else if b.len() == 0 {
        a.len()
    } else {
        let a1 = a.take(a.len() - 1);
        let b1 = b.take(b.len() - 1);
        let same: nat = if a.last() == b.last() {
            0
        } else {
            1
        };
        min3(
            edit_cost(a1, b, free_start) + 1,
            edit_cost(a, b1, free_start) + 1,
            edit_cost(a1, b1, free_start) + same,
        )
    }
}

/// The Levenshtein distance between two byte strings.
pub open spec fn edit_distance(a: Seq<u8>, b: Seq<u8>) -> nat {
    edit_cost(a, b, false)
}

/// The least cost of matching `needle` against a stretch of `haystack` that ends at one of
/// the first `n` + 1 positions (`0..=n`).
pub open spec fn best_infix_cost(needle: Seq<u8>, haystack: Seq<u8>, n: nat) -> nat
    decreases n,
{
    let here = edit_cost(needle, haystack.take(n as int), true);
    if n == 0 {
        here
    } else {
        let before = best_infix_cost(needle, haystack, (n - 1) as nat);
        if before <= here {
            before
        } else {
            here
        }
    }
}

/// The least edit cost of `needle` against any contiguous stretch of `haystack`.
pub open spec fn substring_distance(needle: Seq<u8>, haystack: Seq<u8>) -> nat {
    best_infix_cost(needle, haystack, haystack.len())
}

proof fn lemma_take_last(s: Seq<u8>, n: int)
    requires
        1 <= n <= s.len(),
    ensures
        s.take(n).take(n - 1) == s.take(n - 1),
        s.take(n).last() == s[n - 1],
        s.take(n).len() == n,
{
    assert(s.take(n).take(n - 1) =~= s.take(n - 1));
}

/// Unfolds the recurrence of the table at row `y` (a prefix of `a`) and column `x`.
proof fn lemma_cost_step(a: Seq<u8>, b: Seq<u8>, x: int, y: int, free_start: bool)
    requires
        1 <= y <= a.len(),
        1 <= x <= b.len(),
    ensures
        edit_cost(a.take(y), b.take(x), free_start) == min3(
            edit_cost(a.take(y - 1), b.take(x), free_start) + 1,
            edit_cost(a.take(y), b.take(x - 1), free_start) + 1,
            edit_cost(a.take(y - 1), b.take(x - 1), free_start) + if a[y - 1] == b[x - 1] {
                0nat
            } else {
                1nat
            },
        ),
{
    lemma_take_last(a, y);
    lemma_take_last(b, x);
}

proof fn lemma_cost_bound(a: Seq<u8>, b: Seq<u8>, free_start: bool)
    ensures
        edit_cost(a, b, free_start) <= a.len() + b.len(),
    decreases a.len() + b.len(),
{
    if a.len() > 0 && b.len() > 0 {
        lemma_cost_bound(a.take(a.len() - 1), b.take(b.len() - 1), free_start);
    }
}

proof fn lemma_index_distinct(w: int, x1: int, y1: int, x2: int, y2: int)
    requires
        0 <= x1 < w,
        0 <= x2 < w,
        0 <= y1,
        0 <= y2,
        x1 != x2 || y1 != y2,
    ensures
        x1 + y1 * w != x2 + y2 * w,
{
    if y1 == y2 {
    } else if y1 < y2 {
        assert(y1 * w + w <= y2 * w) by (nonlinear_arith)
            requires
                y1 < y2,
                w > 0,
        ;
    } else {
        assert(y2 * w + w <= y1 * w) by (nonlinear_arith)
            requires
                y2 < y1,
                w > 0,
        ;
    }
}

proof fn lemma_index_bound(w: int, h: int, x: int, y: int)
    requires
        0 <= x < w,
        0 <= y < h,
    ensures
        x + y * w < w * h,
{
    assert(y * w + w <= h * w) by (nonlinear_arith)
        requires
            y < h,
            w > 0,
    ;
    assert(h * w == w * h) by (nonlinear_arith);
}

/// A row-major two-dimensional table stored in one flat vector.
pub struct TwoDimBuffer<T> {
    buffer: Vec<T>,
    width: usize,
}

impl<T> TwoDimBuffer<T> {
    /// The cells, row after row.
    pub closed spec fn cells(&self) -> Seq<T> {
        self.buffer@
    }

    /// The number of cells in one row.
    pub closed spec fn row_width(&self) -> nat {
        self.width as nat
    }

    /// The cell in column `x` of row `y`.
    pub open spec fn at(&self, x: int, y: int) -> T {
        self.cells()[x + y * self.row_width()]
    }

    /// Wraps `data` as a table whose rows hold `width` cells each.
    pub fn new(width: usize, data: Vec<T>) -> (r: Self)
        ensures
            r.cells() == data@,
            r.row_width() == width,
    {
        Self { buffer: data, width }
    }

    /// The cell in column `xidx` of row `yidx`, or `None` past the end of the data.
    pub fn get(&self, xidx: usize, yidx: usize) -> (r: Option<&T>)
        requires
            xidx + yidx * self.row_width() <= usize::MAX,
        ensures
            ({
                let i = xidx + yidx * self.row_width();
                if i < self.cells().len() {
                    r == Some(&self.cells()[i])
                } else {
                    r.is_none()
                }
            }),
    {
        let i = xidx + yidx * self.width;
        if i < self.buffer.len() {
            Some(&self.buffer[i])
        } else {
            None
        }
    }

    /// A mutable reference to the cell in column `xidx` of row `yidx`, or `None` past the
    /// end of the data.
    pub fn get_mut(&mut self, xidx: usize, yidx: usize) -> (r: Option<&mut T>)
        requires
            xidx + yidx * old(self).row_width() <= usize::MAX,
        ensures
            ({
                let i = xidx + yidx * old(self).row_width();
                if i < old(self).cells().len() {
                    &&& r is Some
                    &&& *r->0 == old(self).cells()[i]
                    &&& final(self).row_width() == old(self).row_width()
                    &&& final(self).cells() == old(self).cells().update(i, *final(r->0))
                } else {
                    &&& r is None
                    &&& *final(self) == *old(self)
                }
            }),
    {
        let i = xidx + yidx * self.width;
        if i < self.buffer.len() {
            Some(&mut self.buffer[i])
        } else {
            None
        }
    }
}

impl<T: Default> TwoDimBuffer<T> {
    /// A table of `width` by `height` cells, each holding `T::default()`.
    pub fn new_with_size(width: usize, height: usize) -> (r: Self)
        requires
            width * height <= usize::MAX,
        ensures
            r.row_width() == width,
            r.cells().len() == width * height,
            forall|i: int|
                0 <= i < r.cells().len() ==> call_ensures(T::default, (), #[trigger] r.cells()[i]),
    {
        let size = width * height;
        let mut buffer: Vec<T> = Vec::with_capacity(size);
        let mut filled: usize = 0;
        while filled < size
            invariant
                filled <= size,
                buffer@.len() == filled,
                forall|i: int|
                    0 <= i < buffer@.len() ==> call_ensures(T::default, (), #[trigger] buffer@[i]),
            decreases size - filled,
        {
            buffer.push(T::default());
            filled = filled + 1;
        }
        Self::new(width, buffer)
    }
}

/// Every byte string is at distance zero from itself.
pub proof fn lemma_distance_to_self(s: Seq<u8>)
    ensures
        edit_distance(s, s) == 0,
    decreases s.len(),
{
    if s.len() > 0 {
        lemma_distance_to_self(s.take(s.len() - 1));
    }
}

/// The distance from `a` to `b` is the distance from `b` to `a`.
pub proof fn lemma_distance_symmetric(a: Seq<u8>, b: Seq<u8>)
    ensures
        edit_distance(a, b) == edit_distance(b, a),
    decreases a.len() + b.len(),
{
    if a.len() > 0 && b.len() > 0 {
        let a1 = a.take(a.len() - 1);
        let b1 = b.take(b.len() - 1);
        lemma_distance_symmetric(a1, b);
        lemma_distance_symmetric(a, b1);
        lemma_distance_symmetric(a1, b1);
    }
}

proof fn lemma_distance_length_gap(a: Seq<u8>, b: Seq<u8>)
    ensures
        edit_distance(a, b) + b.len() >= a.len(),
        edit_distance(a, b) + a.len() >= b.len(),
    decreases a.len() + b.len(),
{
    if a.len() > 0 && b.len() > 0 {
        let a1 = a.take(a.len() - 1);
        let b1 = b.take(b.len() - 1);
        lemma_distance_length_gap(a1, b);
        lemma_distance_length_gap(a, b1);
        lemma_distance_length_gap(a1, b1);
    }
}

/// Going from `a` to `c` never costs more than going through `b`.
pub proof fn lemma_distance_triangle(a: Seq<u8>, b: Seq<u8>, c: Seq<u8>)
    ensures
        edit_distance(a, c) <= edit_distance(a, b) + edit_distance(b, c),
    decreases a.len() + b.len() + c.len(),
{
    if a.len() == 0 {
        lemma_distance_length_gap(b, c);
    } else if c.len() == 0 {
        lemma_distance_length_gap(a, b);
    } else if b.len() == 0 {
        lemma_cost_bound(a, c, false);
    } else {
        let a1 = a.take(a.len() - 1);
        let b1 = b.take(b.len() - 1);
        let c1 = c.take(c.len() - 1);
        lemma_distance_triangle(a1, b, c);
        lemma_distance_triangle(a, b, c1);
        lemma_distance_triangle(a, b1, c);
        lemma_distance_triangle(a, b1, c1);
        lemma_distance_triangle(a1, b1, c);
        lemma_distance_triangle(a1, b1, c1);
    }
}

proof fn lemma_skip_take_last(b: Seq<u8>, i: int)
    requires
        0 <= i < b.len(),
    ensures
        b.skip(i).take(b.skip(i).len() - 1) == b.take(b.len() - 1).skip(i),
        b.skip(i).last() == b.last(),
        b.skip(i).len() > 0,
{
    assert(b.skip(i).take(b.skip(i).len() - 1) =~= b.take(b.len() - 1).skip(i));
}

/// With a free start, the cost is the least distance from `a` to a suffix of `b`.
proof fn lemma_free_start_is_best_suffix(a: Seq<u8>, b: Seq<u8>)
    ensures
        forall|i: int|
            0 <= i <= b.len() ==> edit_cost(a, b, true) <= #[trigger] edit_distance(a, b.skip(i)),
        exists|i: int|
            0 <= i <= b.len() && edit_cost(a, b, true) == #[trigger] edit_distance(a, b.skip(i)),
    decreases a.len() + b.len(),
{
    if a.len() == 0 {
        assert(b.skip(b.len() as int).len() == 0);
        assert(edit_distance(a, b.skip(b.len() as int)) == 0);
        assert(edit_cost(a, b, true) == edit_distance(a, b.skip(b.len() as int)));
    } else if b.len() == 0 {
        assert(b.skip(0) =~= b);
        assert(edit_cost(a, b, true) == edit_distance(a, b.skip(0)));
    } else {
        let a1 = a.take(a.len() - 1);
        let b1 = b.take(b.len() - 1);
        let d: nat = if a.last() == b.last() {
            0
        } else {
            1
        };
        lemma_free_start_is_best_suffix(a1, b);
        lemma_free_start_is_best_suffix(a, b1);
        lemma_free_start_is_best_suffix(a1, b1);
        let f = edit_cost(a, b, true);
        assert forall|i: int| 0 <= i <= b.len() implies f <= #[trigger] edit_distance(
            a,
            b.skip(i),
        ) by {
            if i == b.len() {
                assert(b.skip(i).len() == 0);
                assert(edit_distance(a1, b.skip(i)) == a1.len());
                assert(edit_cost(a1, b, true) <= edit_distance(a1, b.skip(i)));
            } else {
                lemma_skip_take_last(b, i);
                assert(edit_cost(a1, b, true) <= edit_distance(a1, b.skip(i)));
                assert(edit_cost(a, b1, true) <= edit_distance(a, b1.skip(i)));
                assert(edit_cost(a1, b1, true) <= edit_distance(a1, b1.skip(i)));
            }
        }
        if f == edit_cost(a1, b, true) + 1 {
            let i = choose|i: int|
                0 <= i <= b.len() && edit_cost(a1, b, true) == #[trigger] edit_distance(
                    a1,
                    b.skip(i),
                );
            if i == b.len() {
                assert(b.skip(i).len() == 0);
                assert(edit_distance(a1, b.skip(i)) == a1.len());
                assert(edit_distance(a, b.skip(i)) == a.len());
            } else {
                lemma_skip_take_last(b, i);
            }
            assert(f == edit_distance(a, b.skip(i)));
        } else if f == edit_cost(a, b1, true) + 1 {
            let i = choose|i: int|
                0 <= i <= b1.len() && edit_cost(a, b1, true) == #[trigger] edit_distance(
                    a,
                    b1.skip(i),
                );
            lemma_skip_take_last(b, i);
            assert(f == edit_distance(a, b.skip(i)));
        } else {
            let i = choose|i: int|
                0 <= i <= b1.len() && edit_cost(a1, b1, true) == #[trigger] edit_distance(
                    a1,
                    b1.skip(i),
                );
            lemma_skip_take_last(b, i);
            assert(f == edit_distance(a, b.skip(i)));
        }
    }
}

proof fn lemma_best_infix_bounds(needle: Seq<u8>, haystack: Seq<u8>, n: nat)
    ensures
        forall|x: int|
            0 <= x <= n ==> best_infix_cost(needle, haystack, n) <= #[trigger] edit_cost(
                needle,
                haystack.take(x),
                true,
            ),
        exists|x: int|
            0 <= x <= n && best_infix_cost(needle, haystack, n) == #[trigger] edit_cost(
                needle,
                haystack.take(x),
                true,
            ),
    decreases n,
{
    let here = edit_cost(needle, haystack.take(n as int), true);
    if n > 0 {
        lemma_best_infix_bounds(needle, haystack, (n - 1) as nat);
        if best_infix_cost(needle, haystack, n) != here {
            let x = choose|x: int|
                0 <= x <= n - 1 && best_infix_cost(needle, haystack, (n - 1) as nat)
                    == #[trigger] edit_cost(needle, haystack.take(x), true);
            assert(best_infix_cost(needle, haystack, n) == edit_cost(needle, haystack.take(x), true));
        }
    }
    assert(best_infix_cost(needle, haystack, n) == here || exists|x: int|
        0 <= x <= n && best_infix_cost(needle, haystack, n) == #[trigger] edit_cost(
            needle,
            haystack.take(x),
            true,
        ));
}

/// `substring_distance(needle, haystack)` is the least Levenshtein distance between
/// `needle` and a contiguous stretch `haystack[i..j]`, and some stretch attains it.
pub proof fn lemma_substring_distance_is_least(needle: Seq<u8>, haystack: Seq<u8>)
    ensures
        forall|i: int, j: int|
            0 <= i <= j <= haystack.len() ==> substring_distance(needle, haystack)
                <= #[trigger] edit_distance(needle, haystack.subrange(i, j)),
        exists|i: int, j: int|
            0 <= i <= j <= haystack.len() && substring_distance(needle, haystack)
                == #[trigger] edit_distance(needle, haystack.subrange(i, j)),
{
    let n = haystack.len();
    lemma_best_infix_bounds(needle, haystack, n);
    assert forall|i: int, j: int| 0 <= i <= j <= n implies substring_distance(needle, haystack)
        <= #[trigger] edit_distance(needle, haystack.subrange(i, j)) by {
        lemma_free_start_is_best_suffix(needle, haystack.take(j));
        assert(haystack.take(j).skip(i) =~= haystack.subrange(i, j));
        assert(edit_cost(needle, haystack.take(j), true) <= edit_distance(
            needle,
            haystack.take(j).skip(i),
        ));
    }
    let x = choose|x: int|
        0 <= x <= n && best_infix_cost(needle, haystack, n) == #[trigger] edit_cost(
            needle,
            haystack.take(x),
            true,
        );
    lemma_free_start_is_best_suffix(needle, haystack.take(x));
    let i = choose|i: int|
        0 <= i <= haystack.take(x).len() && edit_cost(needle, haystack.take(x), true)
            == #[trigger] edit_distance(needle, haystack.take(x).skip(i));
    assert(haystack.take(x).skip(i) =~= haystack.subrange(i, x));
    assert(substring_distance(needle, haystack) == edit_distance(needle, haystack.subrange(i, x)));
}

/// Whether cell (`x`, `y`) of `buf` holds the edit cost of the first `y` bytes of `command`
/// against the first `x` bytes of `text`.
spec fn cell_ok(
    buf: &TwoDimBuffer<usize>,
    command: Seq<u8>,
    text: Seq<u8>,
    free_start: bool,
    x: int,
    y: int,
) -> bool {
    buf.at(x, y) as int == edit_cost(command.take(y), text.take(x), free_start)
}

/// Fills the edit table of `command` (one row per prefix) against `text` (one column per
/// prefix) and reads the corner cell, or with `substring_match` the least cell of the last row.
pub(crate) fn table_distance(command: &[u8], text: &[u8], substring_match: bool) -> (r: usize)
    requires
        (text@.len() + 1) * (command@.len() + 1) <= usize::MAX,
    ensures
        r == if substring_match {
            substring_distance(command@, text@)
        } else {
            edit_distance(command@, text@)
        },
{
    let tl = text.len();
    let cl = command.len();
    proof {
        assert(tl + cl + 1 <= (tl + 1) * (cl + 1)) by (nonlinear_arith);
    }
    let w = tl + 1;
    let h = cl + 1;
    let ghost c = command@;
    let ghost t = text@;
    let ghost free = substring_match;
    let mut buf: TwoDimBuffer<usize> = TwoDimBuffer::new_with_size(w, h);
    for xidx in 0..w
        invariant
            free == substring_match,
            w == tl + 1,
            h == cl + 1,
            w * h <= usize::MAX,
            buf.row_width() == w,
            buf.cells().len() == w * h,
            forall|x: int| 0 <= x < xidx ==> #[trigger] buf.at(x, 0) == (if free { 0 } else { x }),
    {
        proof {
            lemma_index_bound(w as int, h as int, xidx as int, 0);
        }
        let ghost before = buf;
        let v: usize = if substring_match { 0 } else { xidx };
        if let Some(cell) = buf.get_mut(xidx, 0) {
            *cell = v;
        }
        proof {
            assert forall|x: int| 0 <= x < xidx + 1 implies #[trigger] buf.at(x, 0) == (if free {
                0
            } else {
                x
            }) by {
                lemma_index_bound(w as int, h as int, x, 0);
                if x != xidx {
                    lemma_index_distinct(w as int, x, 0, xidx as int, 0);
                    assert(buf.at(x, 0) == before.at(x, 0));
                }
            }
        }
    }
    for yidx in 0..h
        invariant
            w == tl + 1,
            h == cl + 1,
            w * h <= usize::MAX,
            buf.row_width() == w,
            buf.cells().len() == w * h,
            forall|x: int| 1 <= x < w ==> #[trigger] buf.at(x, 0) == (if free { 0 } else { x }),
            forall|y: int| 0 <= y < yidx ==> #[trigger] buf.at(0, y) == y,
    {
        proof {
            lemma_index_bound(w as int, h as int, 0, yidx as int);
        }
        let ghost before = buf;
        if let Some(cell) = buf.get_mut(0, yidx) {
            *cell = yidx;
        }
        proof {
            assert forall|y: int| 0 <= y < yidx + 1 implies #[trigger] buf.at(0, y) == y by {
                lemma_index_bound(w as int, h as int, 0, y);
                if y != yidx {
                    lemma_index_distinct(w as int, 0, y, 0, yidx as int);
                    assert(buf.at(0, y) == before.at(0, y));
                }
            }
            assert forall|x: int| 1 <= x < w implies #[trigger] buf.at(x, 0) == (if free {
                0
            } else {
                x
            }) by {
                lemma_index_bound(w as int, h as int, x, 0);
                lemma_index_distinct(w as int, x, 0, 0, yidx as int);
                assert(buf.at(x, 0) == before.at(x, 0));
            }
        }
    }
    proof {
        assert forall|x: int, y: int| 0 <= x < w && 0 <= y < h && (x == 0 || y == 0) implies
            #[trigger] cell_ok(&buf, c, t, free, x, y) by {
            if y == 0 {
                assert(c.take(0).len() == 0);
            } else {
                assert(t.take(0).len() == 0);
            }
        }
    }
    for yidx in 1..h
        invariant
            w == tl + 1,
            h == cl + 1,
            tl == t.len(),
            cl == c.len(),
            t == text@,
            c == command@,
            w * h <= usize::MAX,
            tl + cl + 1 <= w * h,
            buf.row_width() == w,
            buf.cells().len() == w * h,
            forall|x: int, y: int|
                0 <= x < w && 0 <= y < h && (y < yidx || x == 0) ==> #[trigger] cell_ok(
                    &buf,
                    c,
                    t,
                    free,
                    x,
                    y,
                ),
    {
        for xidx in 1..w
            invariant
                w == tl + 1,
                h == cl + 1,
                tl == t.len(),
                cl == c.len(),
                t == text@,
                c == command@,
                1 <= yidx < h,
                w * h <= usize::MAX,
                tl + cl + 1 <= w * h,
                buf.row_width() == w,
                buf.cells().len() == w * h,
                forall|x: int, y: int|
                    0 <= x < w && 0 <= y < h && (y < yidx || x == 0 || (y == yidx && x
                        < xidx)) ==> #[trigger] cell_ok(&buf, c, t, free, x, y),
        {
            let ghost xi = xidx as int;
            let ghost yi = yidx as int;
            proof {
                lemma_index_bound(w as int, h as int, xi, yi);
                lemma_index_bound(w as int, h as int, xi - 1, yi - 1);
                lemma_index_bound(w as int, h as int, xi - 1, yi);
                lemma_index_bound(w as int, h as int, xi, yi - 1);
                assert(cell_ok(&buf, c, t, free, xi - 1, yi - 1));
                assert(cell_ok(&buf, c, t, free, xi - 1, yi));
                assert(cell_ok(&buf, c, t, free, xi, yi - 1));
                lemma_cost_bound(c.take(yi - 1), t.take(xi - 1), free);
                lemma_cost_bound(c.take(yi), t.take(xi - 1), free);
                lemma_cost_bound(c.take(yi - 1), t.take(xi), free);
                lemma_cost_step(c, t, xi, yi, free);
            }
            let dsub: usize = if command[yidx - 1] != text[xidx - 1] { 1 } else { 0 };
            let subs = *buf.get(xidx - 1, yidx - 1).unwrap() + dsub;
            let del = *buf.get(xidx - 1, yidx).unwrap() + 1;
            let ins = *buf.get(xidx, yidx - 1).unwrap() + 1;
            let best = if ins <= del && ins <= subs {
                ins
            } else if del <= subs {
                del
            } else {
                subs
            };
            let ghost before = buf;
            if let Some(cell) = buf.get_mut(xidx, yidx) {
            *cell = best;
        }
            proof {
                assert forall|x: int, y: int|
                    0 <= x < w && 0 <= y < h && (y < yidx || x == 0 || (y == yidx && x < xidx
                        + 1)) implies #[trigger] cell_ok(&buf, c, t, free, x, y) by {
                    lemma_index_bound(w as int, h as int, x, y);
                    if x != xi || y != yi {
                        lemma_index_distinct(w as int, x, y, xi, yi);
                        assert(buf.at(x, y) == before.at(x, y));
                        assert(cell_ok(&before, c, t, free, x, y));
                    }
                }
            }
        }
    }
    proof {
        lemma_index_bound(w as int, h as int, tl as int, cl as int);
        assert(c.take(cl as int) =~= c);
        assert(t.take(tl as int) =~= t);
        assert(cell_ok(&buf, c, t, free, tl as int, cl as int));
    }
    if substring_match {
        proof {
            lemma_index_bound(w as int, h as int, 0, cl as int);
            assert(cell_ok(&buf, c, t, free, 0, cl as int));
        }
        let mut least = *buf.get(0, cl).unwrap();
        for xidx in 1..w
            invariant
                w == tl + 1,
                h == cl + 1,
                tl == t.len(),
                cl == c.len(),
                c.take(cl as int) == c,
                free,
                w * h <= usize::MAX,
                buf.row_width() == w,
                buf.cells().len() == w * h,
                forall|x: int, y: int|
                    0 <= x < w && 0 <= y < h ==> #[trigger] cell_ok(&buf, c, t, free, x, y),
                least == best_infix_cost(c, t, (xidx - 1) as nat),
        {
            proof {
                lemma_index_bound(w as int, h as int, xidx as int, cl as int);
                assert(cell_ok(&buf, c, t, free, xidx as int, cl as int));
            }
            let here = *buf.get(xidx, cl).unwrap();
            if here < least {
                least = here;
            }
        }
        least
    } else {
        *buf.get(tl, cl).unwrap()
    }
}

/// The Levenshtein distance between the bytes of `command` and the bytes of `text`, or with
/// `substring_match` the least such distance between `command` and any contiguous stretch of
/// `text`. Bytes are compared, which for ASCII keyphrases is comparing characters.
pub fn wagner_lev(command: &str, text: &str, substring_match: bool) -> (r: usize)
    requires
        (text.spec_bytes().len() + 1) * (command.spec_bytes().len() + 1) <= usize::MAX,
    ensures
        r == if substring_match {
            substring_distance(command.spec_bytes(), text.spec_bytes())
        } else {
            edit_distance(command.spec_bytes(), text.spec_bytes())
        },
        substring_match ==> forall|i: int, j: int|
            0 <= i <= j <= text.spec_bytes().len() ==> r <= #[trigger] edit_distance(
                command.spec_bytes(),
                text.spec_bytes().subrange(i, j),
            ),
        substring_match ==> exists|i: int, j: int|
            0 <= i <= j <= text.spec_bytes().len() && r == #[trigger] edit_distance(
                command.spec_bytes(),
                text.spec_bytes().subrange(i, j),
            ),
{
    proof {
        lemma_substring_distance_is_least(command.spec_bytes(), text.spec_bytes());
    }
    table_distance(command.as_bytes(), text.as_bytes(), substring_match)
}

/// The Levenshtein distance between the bytes of `command` and the bytes of `text`.
pub fn leven_dist(command: &str, text: &str) -> (r: usize)
    requires
        (text.spec_bytes().len() + 1) * (command.spec_bytes().len() + 1) <= usize::MAX,
    ensures
        r == edit_distance(command.spec_bytes(), text.spec_bytes()),
{
    wagner_lev(command, text, false)
}

} // verus!
