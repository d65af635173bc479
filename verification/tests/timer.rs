use async_example::timer::{Reaction, Sleep, Timer, TimerReactor};
use async_example::waking::SimpleExecutor;
use async_example::{JoinHandle, Next, Poll};

fn started() -> Timer<&'static str> {
    TimerReactor::start().1
}

#[test]
fn a_new_timer_waits_for_work() {
    let mut timer = started();
    assert!(!timer.take_notice());
    assert!(timer.has_free_id());
    assert_eq!(TimerReactor::turn(&mut timer, 5), Reaction::WaitForWork);
}

#[test]
fn ids_count_from_one() {
    let mut timer = started();
    assert_eq!(timer.register(10, "a"), 1);
    assert_eq!(timer.register(10, "b"), 2);
    timer.cancel(2);
    assert_eq!(timer.register(10, "c"), 3);
}

#[test]
fn only_a_registration_is_announced() {
    let mut timer = started();
    let id = timer.register(10, "a");
    assert!(timer.take_notice());
    assert!(!timer.take_notice());
    timer.update_waker(id, "b");
    timer.cancel(id);
    assert!(!timer.take_notice());
}

#[test]
fn the_worker_waits_for_the_first_deadline() {
    let mut timer = started();
    timer.register(80, "late");
    assert_eq!(TimerReactor::turn(&mut timer, 10), Reaction::WaitFor(70));
    timer.register(30, "early");
    assert_eq!(TimerReactor::turn(&mut timer, 10), Reaction::WaitFor(20));
    timer.cancel(2);
    assert_eq!(TimerReactor::turn(&mut timer, 10), Reaction::WaitFor(70));
}

#[test]
fn due_wakers_fire_in_the_order_of_their_deadlines() {
    let mut timer = started();
    timer.register(30, "c");
    timer.register(10, "a");
    timer.register(30, "d");
    timer.register(20, "b");
    timer.register(31, "e");
    assert_eq!(TimerReactor::turn(&mut timer, 30), Reaction::Fire(vec!["a", "b", "c", "d"]));
    assert_eq!(TimerReactor::turn(&mut timer, 30), Reaction::WaitFor(1));
    assert_eq!(TimerReactor::turn(&mut timer, 31), Reaction::Fire(vec!["e"]));
    assert_eq!(TimerReactor::turn(&mut timer, 31), Reaction::WaitForWork);
}

#[test]
fn firing_in_steps_calls_the_same_wakers() {
    let mut timer = started();
    for (when, waker) in [(5, "a"), (9, "b"), (7, "c"), (5, "d")] {
        timer.register(when, waker);
    }
    assert_eq!(TimerReactor::turn(&mut timer, 5), Reaction::Fire(vec!["a", "d"]));
    assert_eq!(TimerReactor::turn(&mut timer, 8), Reaction::Fire(vec!["c"]));
    assert_eq!(TimerReactor::turn(&mut timer, 9), Reaction::Fire(vec!["b"]));
}

#[test]
fn the_last_id_takes_the_place_of_a_cancelled_one() {
    let mut timer = started();
    let first = timer.register(5, "a");
    timer.register(5, "b");
    timer.register(5, "c");
    timer.cancel(first);
    assert_eq!(TimerReactor::turn(&mut timer, 5), Reaction::Fire(vec!["c", "b"]));
}

#[test]
fn what_is_cancelled_does_not_fire() {
    let mut timer = started();
    timer.register(5, "a");
    let id = timer.register(6, "b");
    timer.cancel(id);
    timer.cancel(id);
    timer.cancel(99);
    assert_eq!(TimerReactor::turn(&mut timer, 100), Reaction::Fire(vec!["a"]));
    assert_eq!(TimerReactor::turn(&mut timer, 100), Reaction::WaitForWork);
}

#[test]
fn cancelling_a_registration_undoes_it() {
    let mut timer = started();
    timer.register(5, "a");
    timer.register(5, "b");
    let id = timer.register(5, "c");
    timer.cancel(id);
    assert_eq!(TimerReactor::turn(&mut timer, 5), Reaction::Fire(vec!["a", "b"]));
}

#[test]
fn the_last_waker_left_is_called() {
    let mut timer = started();
    let id = timer.register(5, "old");
    timer.update_waker(id, "new");
    assert_eq!(TimerReactor::turn(&mut timer, 5), Reaction::Fire(vec!["new"]));
}

#[test]
fn a_waker_left_after_the_firing_is_never_called() {
    let mut timer = started();
    let id = timer.register(5, "a");
    assert_eq!(TimerReactor::turn(&mut timer, 5), Reaction::Fire(vec!["a"]));
    timer.update_waker(id, "late");
    assert_eq!(TimerReactor::turn(&mut timer, 1000), Reaction::WaitForWork);
    timer.cancel(id);
    assert_eq!(TimerReactor::turn(&mut timer, 1000), Reaction::WaitForWork);
}

#[test]
fn a_stopped_worker_leaves_its_loop() {
    let (mut reactor, mut timer) = TimerReactor::start();
    timer.register(5, "a");
    timer.take_notice();
    assert!(reactor.drop(&mut timer));
    assert!(timer.take_notice());
    assert_eq!(TimerReactor::turn(&mut timer, 5), Reaction::Stop);
}

#[test]
fn a_registration_outlives_a_stop_without_firing() {
    let (mut reactor, mut timer) = TimerReactor::start();
    let id = timer.register(5, "a");
    reactor.drop(&mut timer);
    timer.update_waker(id, "b");
    assert_eq!(TimerReactor::turn(&mut timer, 5), Reaction::Stop);
    assert_eq!(TimerReactor::turn(&mut timer, 6), Reaction::Stop);
}

#[test]
fn a_worker_is_joined_once() {
    let (mut reactor, mut timer): (TimerReactor, Timer<u8>) = TimerReactor::start();
    assert!(reactor.drop(&mut timer));
    assert!(!reactor.drop(&mut timer));
    assert_eq!(TimerReactor::turn(&mut timer, 0), Reaction::Stop);
}

#[test]
fn a_sleep_tells_when_it_has_to_do_with_the_timer() {
    let mut timer = started();
    let mut sleep = Sleep::new(10, 5);
    assert!(!sleep.is_registered());
    assert!(sleep.registers(14) && sleep.uses_timer(14));
    assert!(!sleep.registers(15) && !sleep.uses_timer(15));
    assert_eq!(sleep.poll(&mut timer, 14, "w"), Poll::Pending);
    assert!(sleep.is_registered());
    assert!(!sleep.registers(14) && sleep.uses_timer(14));
    assert!(!sleep.registers(15) && sleep.uses_timer(15));
    assert_eq!(sleep.poll(&mut timer, 15, "w"), Poll::Ready(()));
    assert!(!sleep.is_registered());
    assert!(!sleep.uses_timer(15));
}

#[test]
fn the_largest_deadline_can_be_reached() {
    let mut timer = started();
    timer.register(u128::MAX, "end");
    assert_eq!(TimerReactor::turn(&mut timer, u128::MAX - 1), Reaction::WaitFor(1));
    assert_eq!(TimerReactor::turn(&mut timer, u128::MAX), Reaction::Fire(vec!["end"]));
}

#[test]
fn a_sleep_registers_once_and_completes_at_its_deadline() {
    let mut timer = started();
    let mut sleep = timer.sleep(100, 50);
    assert!(!timer.take_notice());
    assert_eq!(sleep.poll(&mut timer, 120, "first"), Poll::Pending);
    assert!(timer.take_notice());
    assert_eq!(sleep.poll(&mut timer, 149, "second"), Poll::Pending);
    assert!(!timer.take_notice());
    assert_eq!(TimerReactor::turn(&mut timer, 149), Reaction::WaitFor(1));
    assert_eq!(TimerReactor::turn(&mut timer, 150), Reaction::Fire(vec!["second"]));
    assert_eq!(sleep.poll(&mut timer, 150, "third"), Poll::Ready(()));
    assert_eq!(TimerReactor::turn(&mut timer, 150), Reaction::WaitForWork);
}

#[test]
fn a_sleep_that_is_over_registers_nothing() {
    let mut timer = started();
    let mut sleep = timer.sleep(7, 0);
    assert_eq!(sleep.poll(&mut timer, 7, "w"), Poll::Ready(()));
    assert_eq!(TimerReactor::turn(&mut timer, 1000), Reaction::WaitForWork);
    assert_eq!(timer.register(1, "x"), 1);
}

#[test]
fn a_sleep_that_completes_before_the_worker_runs_clears_up() {
    let mut timer = started();
    let mut sleep = timer.sleep(0, 5);
    assert_eq!(sleep.poll(&mut timer, 1, "w"), Poll::Pending);
    assert_eq!(sleep.poll(&mut timer, 5, "w"), Poll::Ready(()));
    assert_eq!(TimerReactor::turn(&mut timer, 5), Reaction::WaitForWork);
}

#[test]
fn a_dropped_sleep_is_cancelled() {
    let mut timer = started();
    let mut sleep = timer.sleep(0, 5);
    assert_eq!(sleep.poll(&mut timer, 1, "w"), Poll::Pending);
    sleep.drop(&mut timer);
    assert_eq!(TimerReactor::turn(&mut timer, 5), Reaction::WaitForWork);
    sleep.drop(&mut timer);
}

// Task 0 sleeps for 50 and then for 30, task 1 for 10.
#[test]
fn sleeping_tasks_are_woken_in_time() {
    let mut timer: Timer<usize> = TimerReactor::start().1;
    let mut ex = SimpleExecutor::new();
    let _: (usize, JoinHandle<(), usize>) = ex.spawn();
    let _: (usize, JoinHandle<(), usize>) = ex.spawn();
    let mut sleeps: [Option<Sleep>; 2] = [None, None];
    let mut later = [vec![50, 30], vec![10]];
    let mut log = Vec::new();
    let mut now: u128 = 0;
    let mut next = ex.run(None);
    loop {
        match next {
            Next::Finish => break,
            Next::Wait => {
                match TimerReactor::turn(&mut timer, now) {
                    Reaction::WaitFor(time) => now += time,
                    Reaction::Fire(wakers) => {
                        for task in wakers {
                            ex.wake(task);
                        }
                    }
                    other => panic!("unexpected: {other:?}"),
                }
                next = ex.run(None);
            }
            Next::Poll(task) => {
                let outcome = loop {
                    if sleeps[task].is_none() {
                        if later[task].is_empty() {
                            break Poll::Ready(());
                        }
                        sleeps[task] = Some(timer.sleep(now, later[task].remove(0)));
                    }
                    if sleeps[task].as_mut().unwrap().poll(&mut timer, now, task) == Poll::Pending {
                        break Poll::Pending;
                    }
                    sleeps[task] = None;
                    log.push((task, now));
                };
                next = ex.run(Some((task, outcome)));
            }
        }
    }
    assert_eq!(log, vec![(1, 10), (0, 50), (0, 80)]);
}

#[test]
fn a_registration_stays_until_its_time_and_fires_once() {
    let mut timer = started();
    let other = timer.register(3, "other");
    let id = timer.register(9, "old");
    timer.register(4, "early");
    timer.cancel(other);
    timer.update_waker(id, "new");
    assert_eq!(TimerReactor::turn(&mut timer, 8), Reaction::Fire(vec!["early"]));
    timer.register(20, "later");
    assert_eq!(TimerReactor::turn(&mut timer, 12), Reaction::Fire(vec!["new"]));
    timer.register(9, "again");
    assert_eq!(TimerReactor::turn(&mut timer, 30), Reaction::Fire(vec!["again", "later"]));
    assert_eq!(TimerReactor::turn(&mut timer, 30), Reaction::WaitForWork);
}
