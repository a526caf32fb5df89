//! The state and decisions of a buffer that hands data from a producer thread to a
//! consumer that waits for a batch of it, with a time limit.

use vstd::prelude::*;

verus! {

/// The error returned when a wait for buffered data times out.
#[derive(Copy, Clone, Eq, PartialEq, Hash, Debug)]
pub struct Timeout {}

/// What a waiting consumer does next.
#[derive(Copy, Clone, Eq, PartialEq, Hash, Debug)]
pub enum WaitStep {
    /// Enough is buffered: take everything.
    Take,
    /// The time limit has passed with too little buffered.
    GiveUp,
    /// Wait for more data, at most this many nanoseconds.
    Sleep(u128),
}

/// The step of a consumer that wants `target` items, holds `buffered`, has waited
/// `elapsed_nanos` and may wait `timeout_nanos` in all. The length is checked first, so a
/// spurious wake-up or a late signal only leads back here; the time left is measured from
/// the fixed deadline, so repeated waits do not drift.
pub fn wait_step(buffered: usize, target: usize, elapsed_nanos: u128, timeout_nanos: u128) -> (r:
    WaitStep)
    ensures
        buffered >= target ==> r == WaitStep::Take,
        buffered < target && elapsed_nanos >= timeout_nanos ==> r == WaitStep::GiveUp,
        buffered < target && elapsed_nanos < timeout_nanos ==> r == WaitStep::Sleep(
            (timeout_nanos - elapsed_nanos) as u128,
        ),
{
    if buffered >= target {
        WaitStep::Take
    } else if elapsed_nanos >= timeout_nanos {
        WaitStep::GiveUp
    } else {
        WaitStep::Sleep(timeout_nanos - elapsed_nanos)
    }
}

/// The items a producer has handed over and no consumer has taken yet, in order.
pub struct HandoffQueue<T> {
    items: Vec<T>,
}

impl<T: Copy> View for HandoffQueue<T> {
    type V = Seq<T>;

    closed spec fn view(&self) -> Seq<T> {
        self.items@
    }
}

/// What taking from a queue holding `q` with threshold `target` yields, and what stays:
/// everything where at least `target` items are queued, else nothing.
pub open spec fn take_spec<T>(q: Seq<T>, target: nat) -> (Option<Seq<T>>, Seq<T>) {
    if q.len() >= target {
        (Some(q), Seq::empty())
    } else {
        (None, q)
    }
}

impl<T: Copy> HandoffQueue<T> {
    /// An empty queue.
    pub fn new() -> (r: Self)
        ensures
            r@ == Seq::<T>::empty(),
    {
        Self { items: Vec::new() }
    }

    /// The number of queued items.
    pub fn len(&self) -> (r: usize)
        ensures
            r == self@.len(),
    {
        self.items.len()
    }

    /// Appends `data` after the queued items.
    pub fn push_slice(&mut self, data: &[T])
        ensures
            final(self)@ == old(self)@ + data@,
    {
        let ghost start = self.items@;
        let n = data.len();
        for i in 0..n
            invariant
                n == data@.len(),
                self.items@ == start + data@.take(i as int),
        {
            self.items.push(data[i]);
            assert(self.items@ =~= start + data@.take(i + 1));
        }
        assert(data@.take(n as int) =~= data@);
    }

    /// Removes and returns every queued item where at least `target` are queued (possibly
    /// more than `target`); otherwise leaves the queue as it is and returns `None`.
    pub fn take_if_at_least(&mut self, target: usize) -> (r: Option<Vec<T>>)
        ensures
            ({
                let (out, rest) = take_spec(old(self)@, target as nat);
                &&& final(self)@ == rest
                &&& match r {
                    Some(v) => out == Some(v@),
                    None => out is None,
                }
            }),
    {
        if self.items.len() >= target {
            let mut retvl: Vec<T> = Vec::with_capacity(self.items.len());
            retvl.append(&mut self.items);
            Some(retvl)
        } else {
            None
        }
    }
}

/// What a queue that started empty holds after `chunks` were pushed one after another:
/// pushing one more chunk appends it, as `HandoffQueue::push_slice` ensures.
pub open spec fn pushed_all<T>(chunks: Seq<Seq<T>>) -> Seq<T>
    decreases chunks.len(),
{
    if chunks.len() == 0 {
        Seq::empty()
    } else {
        pushed_all(chunks.take(chunks.len() - 1)) + chunks.last()
    }
}

/// Pushing one more chunk after `chunks` appends it to what the queue holds.
pub proof fn lemma_pushed_all_step<T>(chunks: Seq<Seq<T>>, chunk: Seq<T>)
    ensures
        pushed_all(chunks.push(chunk)) == pushed_all(chunks) + chunk,
{
    assert(chunks.push(chunk).take(chunks.len() as int) =~= chunks);
}

/// Any number of chunks pushed into an empty queue come out all together and in push order
/// once the threshold is at most their total number, leaving the queue empty; with a higher
/// threshold nothing comes out and all of them stay queued for a later take.
pub proof fn lemma_push_then_take<T>(chunks: Seq<Seq<T>>, target: nat, later_target: nat)
    requires
        later_target <= pushed_all(chunks).len(),
    ensures
        target <= pushed_all(chunks).len() ==> take_spec(pushed_all(chunks), target) == (
            Some(pushed_all(chunks)),
            Seq::<T>::empty(),
        ),
        target > pushed_all(chunks).len() ==> take_spec(pushed_all(chunks), target) == (
            None::<Seq<T>>,
            pushed_all(chunks),
        ),
        target > pushed_all(chunks).len() ==> take_spec(
            take_spec(pushed_all(chunks), target).1,
            later_target,
        ) == (Some(pushed_all(chunks)), Seq::<T>::empty()),
{
}

} // verus!
