use async_example::joining::SimpleExecutor;
use async_example::{JoinHandle, Poll};

fn handle() -> JoinHandle<u64, &'static str> {
    let mut ex = SimpleExecutor::new();
    ex.spawn(())
}

#[test]
fn a_waiter_is_woken_when_the_value_is_there() {
    let mut h = handle();
    assert_eq!(h.poll("parent"), Poll::Pending);
    assert_eq!(h.complete(Poll::Pending), (Poll::Pending, None));
    assert_eq!(h.complete(Poll::Ready(42)), (Poll::Ready(()), Some(&"parent")));
    assert_eq!(h.poll("parent"), Poll::Ready(42));
}

#[test]
fn a_value_that_nobody_waits_for_is_kept() {
    let mut h = handle();
    assert_eq!(h.complete(Poll::Ready(7)), (Poll::Ready(()), None));
    assert_eq!(h.poll("late"), Poll::Ready(7));
}

#[test]
fn a_value_is_given_out_once() {
    let mut h = handle();
    h.complete(Poll::Ready(7));
    assert_eq!(h.poll("a"), Poll::Ready(7));
    assert_eq!(h.poll("a"), Poll::Pending);
    assert_eq!(h.poll_keeping("a"), Poll::Pending);
}

#[test]
fn the_last_waiter_is_woken() {
    let mut h = handle();
    assert_eq!(h.poll("first"), Poll::Pending);
    assert_eq!(h.poll("second"), Poll::Pending);
    assert_eq!(h.complete(Poll::Ready(1)).1, Some(&"second"));
}

#[test]
fn a_kept_waiter_is_the_first() {
    let mut h = handle();
    assert_eq!(h.poll_keeping("first"), Poll::Pending);
    assert_eq!(h.poll_keeping("second"), Poll::Pending);
    assert_eq!(h.complete(Poll::Ready(1)).1, Some(&"first"));
    assert_eq!(h.poll_keeping("third"), Poll::Ready(1));
}

#[test]
fn a_waker_stays_after_it_was_called() {
    let mut h = handle();
    assert_eq!(h.poll("w"), Poll::Pending);
    assert_eq!(h.complete(Poll::Ready(1)).1, Some(&"w"));
    assert_eq!(h.complete(Poll::Ready(2)).1, Some(&"w"));
    assert_eq!(h.poll("w"), Poll::Ready(2));
}
