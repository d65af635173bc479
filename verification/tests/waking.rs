use async_example::waking::SimpleExecutor;
use async_example::{count, Context, JoinHandle, Next, Poll};

// Spawns so many tasks that hand out nothing.
fn with_tasks(n: usize) -> SimpleExecutor {
    let mut ex = SimpleExecutor::new();
    for id in 0..n {
        let spawned: (usize, JoinHandle<(), ()>) = ex.spawn();
        assert_eq!(spawned.0, id);
    }
    ex
}

#[test]
fn waking_executor_without_tasks_is_done() {
    let mut ex = with_tasks(0);
    assert_eq!(ex.remaining(), 0);
    assert!(ex.has_free_id());
    assert_eq!(ex.run(None), Next::Finish);
}

#[test]
fn tasks_are_numbered_from_zero() {
    let mut ex = with_tasks(3);
    assert_eq!(ex.remaining(), 3);
    assert!(ex.is_live(0) && ex.is_live(2));
    assert!(!ex.is_live(3));
    assert_eq!(ex.run(None), Next::Poll(0));
    assert_eq!(ex.run(Some((0, Poll::Pending))), Next::Poll(1));
    assert_eq!(ex.run(Some((1, Poll::Pending))), Next::Poll(2));
}

#[test]
fn a_pending_task_waits_for_its_wake() {
    let mut ex = with_tasks(1);
    assert_eq!(ex.run(None), Next::Poll(0));
    assert_eq!(ex.run(Some((0, Poll::Pending))), Next::Wait);
    assert_eq!(ex.run(None), Next::Wait);
    ex.wake(0);
    assert_eq!(ex.run(None), Next::Poll(0));
    assert_eq!(ex.run(Some((0, Poll::Ready(())))), Next::Finish);
    assert_eq!(ex.remaining(), 0);
}

#[test]
fn a_task_that_is_woken_twice_is_queued_twice() {
    let mut ex = with_tasks(2);
    assert_eq!(ex.run(None), Next::Poll(0));
    ex.wake(0);
    ex.wake(0);
    assert_eq!(ex.run(Some((0, Poll::Pending))), Next::Poll(1));
    assert_eq!(ex.run(Some((1, Poll::Pending))), Next::Poll(0));
    assert_eq!(ex.run(Some((0, Poll::Pending))), Next::Poll(0));
    assert_eq!(ex.run(Some((0, Poll::Pending))), Next::Wait);
    assert_eq!(ex.remaining(), 2);
}

#[test]
fn woken_tasks_are_polled_in_order() {
    let mut ex = with_tasks(3);
    assert_eq!(ex.run(None), Next::Poll(0));
    ex.wake(2);
    assert_eq!(ex.run(Some((0, Poll::Pending))), Next::Poll(1));
    ex.wake(0);
    assert_eq!(ex.run(Some((1, Poll::Pending))), Next::Poll(2));
    assert_eq!(ex.run(Some((2, Poll::Pending))), Next::Poll(2));
    assert_eq!(ex.run(Some((2, Poll::Pending))), Next::Poll(0));
}

#[test]
fn a_finished_task_is_passed_over() {
    let mut ex = with_tasks(3);
    assert_eq!(ex.run(None), Next::Poll(0));
    ex.wake(2);
    assert_eq!(ex.run(Some((0, Poll::Pending))), Next::Poll(1));
    ex.wake(0);
    assert_eq!(ex.run(Some((1, Poll::Pending))), Next::Poll(2));
    assert_eq!(ex.run(Some((2, Poll::Ready(())))), Next::Poll(0));
    assert!(!ex.is_live(2));
    assert_eq!(ex.remaining(), 2);
    ex.wake(2);
    ex.wake(2);
    assert_eq!(ex.run(Some((0, Poll::Pending))), Next::Wait);
    ex.wake(2);
    ex.wake(1);
    assert_eq!(ex.run(None), Next::Poll(1));
    assert_eq!(ex.run(Some((1, Poll::Ready(())))), Next::Wait);
    assert_eq!(ex.remaining(), 1);
}

#[test]
fn a_finished_task_does_not_give_its_number_away() {
    let mut ex = with_tasks(1);
    assert_eq!(ex.run(None), Next::Poll(0));
    let (id, _): (usize, JoinHandle<(), ()>) = ex.spawn();
    assert_eq!(id, 1);
    assert_eq!(ex.run(Some((0, Poll::Ready(())))), Next::Poll(1));
    let (id, _): (usize, JoinHandle<(), ()>) = ex.spawn();
    assert_eq!(id, 2);
    ex.wake(0);
    assert_eq!(ex.run(Some((1, Poll::Ready(())))), Next::Poll(2));
    assert_eq!(ex.run(Some((2, Poll::Ready(())))), Next::Finish);
}

#[test]
fn the_run_ends_though_wakes_are_left() {
    let mut ex = with_tasks(1);
    assert_eq!(ex.run(None), Next::Poll(0));
    ex.wake(0);
    assert_eq!(ex.run(Some((0, Poll::Ready(())))), Next::Finish);
    assert_eq!(ex.run(None), Next::Finish);
}

#[test]
fn polls_make_up_the_wakes() {
    let mut ex = with_tasks(2);
    let wakes = [0, 1, 1, 0, 1];
    for id in wakes {
        ex.wake(id);
    }
    let mut polls = [0, 0];
    let mut next = ex.run(None);
    while let Next::Poll(id) = next {
        polls[id] += 1;
        next = ex.run(Some((id, Poll::Pending)));
    }
    assert_eq!(next, Next::Wait);
    assert_eq!(polls, [3, 4]);
}

fn joined(keeps: bool) -> (Option<String>, i32) {
    let mut ex = SimpleExecutor::new();
    let (_, mut first): (usize, JoinHandle<String, usize>) = ex.spawn();
    let (_, mut second): (usize, JoinHandle<u64, usize>) = ex.spawn();
    let (parent, _): (usize, JoinHandle<(), usize>) = ex.spawn();
    let mut five = count(5);
    let mut ten = count(10);
    let mut a = None;
    let mut joined = None;
    let mut parent_polls = 0;
    let mut next = ex.run(None);
    while let Next::Poll(task) = next {
        let mut cx = Context::new();
        let outcome = match task {
            0 => {
                let polled = match five.poll(&mut cx) {
                    Poll::Ready(n) => Poll::Ready(format!("done-{n}")),
                    Poll::Pending => Poll::Pending,
                };
                let (outcome, waiter) = first.complete(polled);
                if let Some(waiter) = waiter {
                    ex.wake(*waiter);
                }
                outcome
            }
            1 => {
                let polled = ten.poll(&mut cx);
                let (outcome, waiter) = second.complete(polled);
                if let Some(waiter) = waiter {
                    ex.wake(*waiter);
                }
                outcome
            }
            _ => {
                parent_polls += 1;
                if a.is_none() {
                    let polled =
                        if keeps { first.poll_keeping(parent) } else { first.poll(parent) };
                    if let Poll::Ready(v) = polled {
                        a = Some(v);
                    }
                }
                let b = match (&a, keeps) {
                    (None, _) => Poll::Pending,
                    (Some(_), true) => second.poll_keeping(parent),
                    (Some(_), false) => second.poll(parent),
                };
                match (&a, b) {
                    (Some(a), Poll::Ready(b)) => {
                        joined = Some(format!("joined: a={a}, b={b}"));
                        Poll::Ready(())
                    }
                    _ => Poll::Pending,
                }
            }
        };
        for _ in 0..cx.wakes() {
            ex.wake(task);
        }
        next = ex.run(Some((task, outcome)));
    }
    assert_eq!(next, Next::Finish);
    (joined, parent_polls)
}

#[test]
fn a_parent_is_woken_by_its_children() {
    assert_eq!(joined(false), (Some("joined: a=done-5, b=10".to_string()), 3));
}

#[test]
fn a_parent_that_asked_first_is_woken_by_its_children() {
    assert_eq!(joined(true), (Some("joined: a=done-5, b=10".to_string()), 3));
}

#[test]
fn counts_that_wake_themselves_complete_in_order() {
    let mut futures = [count(7), count(0), count(3), count(3), count(1)];
    let mut ex = with_tasks(futures.len());
    let mut log = Vec::new();
    let mut polls = 0;
    let mut next = ex.run(None);
    while let Next::Poll(task) = next {
        polls += 1;
        let mut cx = Context::new();
        let outcome = match futures[task].poll(&mut cx) {
            Poll::Ready(n) => {
                log.push(n);
                Poll::Ready(())
            }
            Poll::Pending => Poll::Pending,
        };
        for _ in 0..cx.wakes() {
            ex.wake(task);
        }
        next = ex.run(Some((task, outcome)));
    }
    assert_eq!(next, Next::Finish);
    assert_eq!(log, vec![0, 1, 3, 3, 7]);
    assert_eq!(polls, 19);
}
