use async_example::{count, Context, CountFuture, Poll};

#[test]
fn count_starts_at_zero() {
    assert_eq!(count(7), CountFuture { init: 7, count: 0 });
}

#[test]
fn count_is_pending_until_it_has_taken_its_steps() {
    let mut future = count(5);
    for step in 0..5u64 {
        assert_eq!(future.count, step);
        let mut cx = Context::new();
        assert_eq!(future.poll(&mut cx), Poll::Pending);
        assert_eq!(cx.wakes(), 1);
    }
    let mut cx = Context::new();
    assert_eq!(future.poll(&mut cx), Poll::Ready(5));
    assert_eq!(future.poll(&mut cx), Poll::Ready(5));
    assert_eq!(cx.wakes(), 0);
}

#[test]
fn count_to_zero_completes_at_once() {
    let mut cx = Context::new();
    assert_eq!(count(0).poll(&mut cx), Poll::Ready(0));
    assert_eq!(cx.wakes(), 0);
}

#[test]
fn count_past_its_end_completes_with_the_count() {
    let mut cx = Context::new();
    let mut future = CountFuture { init: 3, count: 8 };
    assert_eq!(future.peek(), Poll::Ready(8));
    assert_eq!(future.poll(&mut cx), Poll::Ready(8));
}

#[test]
fn count_to_the_largest_number_gets_there() {
    let mut cx = Context::new();
    let mut future = CountFuture { init: u64::MAX, count: u64::MAX - 1 };
    assert_eq!(future.poll(&mut cx), Poll::Pending);
    assert_eq!(future.poll(&mut cx), Poll::Ready(u64::MAX));
}

#[test]
fn peeking_does_not_advance_a_count() {
    let future = CountFuture { init: 2, count: 1 };
    for _ in 0..10 {
        assert_eq!(future.peek(), Poll::Pending);
    }
    assert_eq!(future, CountFuture { init: 2, count: 1 });
}

#[test]
fn context_counts_wakes() {
    let mut cx = Context::new();
    assert_eq!(cx.wakes(), 0);
    cx.wake_by_ref();
    cx.wake_by_ref();
    assert_eq!(cx.wakes(), 2);
}

#[test]
fn each_pending_poll_asks_for_one_wake() {
    let mut cx = Context::new();
    let mut future = count(4);
    for polls in 1..=4u64 {
        assert_eq!(future.poll(&mut cx), Poll::Pending);
        assert_eq!(cx.wakes(), polls);
    }
    assert_eq!(future.poll(&mut cx), Poll::Ready(4));
    assert_eq!(cx.wakes(), 4);
}
