use assistant_rs::buffer::{wait_step, HandoffQueue, WaitStep};

#[test]
fn push_then_take_returns_items_in_order() {
    let mut q: HandoffQueue<i16> = HandoffQueue::new();
    q.push_slice(&[1, 2, 3]);
    q.push_slice(&[4, 5]);
    assert_eq!(Some(vec![1, 2, 3, 4, 5]), q.take_if_at_least(3));
    assert_eq!(0, q.len());
}

#[test]
fn take_below_threshold_leaves_items() {
    let mut q: HandoffQueue<i16> = HandoffQueue::new();
    q.push_slice(&[7, 8, 9]);
    assert_eq!(None, q.take_if_at_least(4));
    assert_eq!(3, q.len());
    assert_eq!(Some(vec![7, 8, 9]), q.take_if_at_least(3));
    assert_eq!(Some(vec![]), q.take_if_at_least(0));
}

#[test]
fn wait_steps() {
    assert_eq!(WaitStep::Take, wait_step(5, 5, 1_000, 10));
    assert_eq!(WaitStep::GiveUp, wait_step(4, 5, 10, 10));
    assert_eq!(WaitStep::Sleep(7), wait_step(4, 5, 3, 10));
}

#[test]
fn many_pushes_come_out_in_order() {
    let mut q: HandoffQueue<i16> = HandoffQueue::new();
    let mut expected = Vec::new();
    for k in 0..10i16 {
        let chunk: Vec<i16> = (0..k).map(|x| x * 10 + k).collect();
        q.push_slice(&chunk);
        expected.extend_from_slice(&chunk);
    }
    assert_eq!(None, q.take_if_at_least(expected.len() + 1));
    assert_eq!(Some(expected), q.take_if_at_least(1));
    assert_eq!(0, q.len());
}
