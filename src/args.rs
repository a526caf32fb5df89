//! Remembering which configuration paths were already taken, by their hashes.

use vstd::prelude::*;

use std::collections::hash_map::RandomState;
use std::hash::{BuildHasher, DefaultHasher, Hash, Hasher};
use std::path::PathBuf;

verus! {

/// A filesystem path.
#[verifier::external_type_specification]
#[verifier::external_body]
pub struct ExPathBuf(PathBuf);

/// Relies on `RandomState::new`: fresh random keys.
#[verifier::external_body]
fn new_random_state() -> RandomState {
    RandomState::new()
}

/// Relies on `BuildHasher::build_hasher` of `RandomState`: a hasher with these keys.
#[verifier::external_body]
fn start_hasher(state: &RandomState) -> DefaultHasher {
    state.build_hasher()
}

/// Relies on `Hash::hash` for paths: feeds the path to the hasher.
#[verifier::external_body]
fn feed_path(hasher: &mut DefaultHasher, path: &PathBuf) {
    path.as_path().hash(hasher)
}

/// The paths seen so far, kept as strictly increasing 128-bit hashes.
pub struct MyPathFilter {
    hashes: Vec<u128>,
    hasher: RandomState,
}

impl Default for MyPathFilter {
    fn default() -> (r: Self)
        ensures
            r.seen() == Set::<u128>::empty(),
    {
        let r = MyPathFilter { hashes: Vec::new(), hasher: new_random_state() };
        assert(r.seen() =~= Set::<u128>::empty());
        r
    }
}

impl MyPathFilter {
    #[verifier::type_invariant]
    spec fn increasing(self) -> bool {
        forall|i: int, j: int| 0 <= i < j < self.hashes@.len() ==> self.hashes@[i] < self.hashes@[j]
    }

    /// The hashes of the paths seen so far.
    pub closed spec fn seen(&self) -> Set<u128> {
        Set::new(|h: u128| self.hashes@.contains(h))
    }

    /// The hash of `path`: two 64-bit hashes of it in a row, with this filter's keys.
    fn hash_path(&self, path: &PathBuf) -> u128 {
        let mut hasher = start_hasher(&self.hasher);
        feed_path(&mut hasher, path);
        let high_bits = (hasher.finish() as u128) * 0x1_0000_0000_0000_0000;
        feed_path(&mut hasher, path);
        let low_bits = hasher.finish() as u128;
        high_bits + low_bits
    }

    /// Where `h` is, or where it would go.
    fn slot(&self, h: u128) -> (r: Result<usize, usize>)
        ensures
            match r {
                Ok(i) => i < self.hashes@.len() && self.hashes@[i as int] == h,
                Err(i) => i <= self.hashes@.len() && (forall|k: int|
                    0 <= k < i ==> self.hashes@[k] < h) && (forall|k: int|
                    i <= k < self.hashes@.len() ==> self.hashes@[k] > h),
            },
    {
        proof {
            use_type_invariant(self);
        }
        let mut lo: usize = 0;
        let mut hi: usize = self.hashes.len();
        while lo < hi
            invariant
                lo <= hi <= self.hashes@.len(),
                forall|i: int, j: int|
                    0 <= i < j < self.hashes@.len() ==> self.hashes@[i] < self.hashes@[j],
                forall|k: int| 0 <= k < lo ==> self.hashes@[k] < h,
                forall|k: int| hi <= k < self.hashes@.len() ==> self.hashes@[k] > h,
            decreases hi - lo,
        {
            let mid = lo + (hi - lo) / 2;
            if self.hashes[mid] == h {
                return Ok(mid);
            } else if self.hashes[mid] < h {
                lo = mid + 1;
            } else {
                hi = mid;
            }
        }
        Err(lo)
    }

    /// Whether `h` was seen before; it counts as seen afterwards.
    pub fn contains_or_insert_hash(&mut self, h: u128) -> (r: bool)
        ensures
            r == old(self).seen().contains(h),
            final(self).seen() == old(self).seen().insert(h),
    {
        proof {
            use_type_invariant(&*self);
        }
        match self.slot(h) {
            Ok(_) => {
                assert(self.seen() =~= self.seen().insert(h));
                true
            },
            Err(idx) => {
                let ghost before = self.hashes@;
                assert(!before.contains(h));
                let n = self.hashes.len();
                let mut next: Vec<u128> = Vec::new();
                for k in 0..idx
                    invariant
                        idx <= n,
                        n == before.len(),
                        before == self.hashes@,
                        next@ == before.take(k as int),
                {
                    next.push(self.hashes[k]);
                    assert(next@ =~= before.take(k + 1));
                }
                next.push(h);
                for k in idx..n
                    invariant
                        idx <= n,
                        n == before.len(),
                        before == self.hashes@,
                        next@ == before.take(idx as int).push(h) + before.subrange(idx as int, k as int),
                {
                    next.push(self.hashes[k]);
                    assert(next@ =~= before.take(idx as int).push(h) + before.subrange(
                        idx as int,
                        k + 1,
                    ));
                }
                proof {
                    let after = next@;
                    assert(after =~= before.insert(idx as int, h));
                    assert forall|i: int, j: int| 0 <= i < j < after.len() implies after[i]
                        < after[j] by {
                        if j < idx {
                        } else if i < idx && j == idx {
                        } else if i < idx {
                            assert(after[j] == before[j - 1]);
                        } else if i == idx {
                            assert(after[j] == before[j - 1]);
                        } else {
                            assert(after[i] == before[i - 1] && after[j] == before[j - 1]);
                        }
                    }
                    assert forall|x: u128| after.contains(x) <==> before.contains(x) || x
                        == h by {
                        if after.contains(x) {
                            let k = choose|k: int| 0 <= k < after.len() && after[k] == x;
                            if k < idx {
                                assert(before[k] == x);
                            } else if k > idx {
                                assert(before[k - 1] == x);
                            }
                        }
                        if before.contains(x) {
                            let k = choose|k: int| 0 <= k < before.len() && before[k] == x;
                            if k < idx {
                                assert(after[k] == x);
                            } else {
                                assert(after[k + 1] == x);
                            }
                        }
                        if x == h {
                            assert(after[idx as int] == h);
                        }
                    }
                }
                self.hashes = next;
                assert(self.seen() =~= old(self).seen().insert(h));
                false
            },
        }
    }

    /// Whether `h` was seen.
    pub fn contains_hash(&self, h: u128) -> (r: bool)
        ensures
            r == self.seen().contains(h),
    {
        match self.slot(h) {
            Ok(_) => true,
            Err(_) => {
                proof {
                    if self.hashes@.contains(h) {
                        let k = choose|k: int| 0 <= k < self.hashes@.len() && self.hashes@[k] == h;
                    }
                }
                false
            },
        }
    }

    /// Whether `path` was seen before; it counts as seen afterwards.
    pub fn contains_or_insert(&mut self, path: &PathBuf) -> (r: bool)
        ensures
            exists|h: u128|
                r == old(self).seen().contains(h) && final(self).seen() == old(self).seen().insert(h),
    {
        let h = self.hash_path(path);
        self.contains_or_insert_hash(h)
    }

    /// Marks `path` as seen.
    pub fn insert(&mut self, path: &PathBuf)
        ensures
            exists|h: u128| final(self).seen() == old(self).seen().insert(h),
    {
        self.contains_or_insert(path);
    }

    /// This filter with `path` marked as seen.
    pub fn with(self, path: &PathBuf) -> (r: Self)
        ensures
            exists|h: u128| r.seen() == self.seen().insert(h),
    {
        let mut this = self;
        this.insert(path);
        this
    }

    /// Whether `path` was seen.
    pub fn contains(&self, path: &PathBuf) -> (r: bool)
        ensures
            exists|h: u128| r == self.seen().contains(h),
    {
        let h = self.hash_path(path);
        self.contains_hash(h)
    }
}

} // verus!
