use async_example::joining::SimpleExecutor;
use async_example::{count, Context, JoinHandle, Next, Poll, Polled, Step};

#[test]
fn joining_executor_without_tasks_is_done() {
    let mut ex: SimpleExecutor<u8> = SimpleExecutor::new();
    assert_eq!(ex.remaining(), 0);
    assert_eq!(ex.run(None), Step { yields: false, next: Next::Finish });
}

#[test]
fn joining_executor_counts_unfinished_tasks() {
    let mut ex = SimpleExecutor::new();
    let _: JoinHandle<(), ()> = ex.spawn('a');
    let _: JoinHandle<(), ()> = ex.spawn('b');
    assert_eq!(ex.remaining(), 2);
    assert_eq!(ex.run(None), Step { yields: false, next: Next::Poll('a') });
    assert_eq!(ex.run(Some(Polled::Pending('a'))), Step { yields: true, next: Next::Poll('b') });
    assert_eq!(ex.remaining(), 2);
    assert_eq!(ex.run(Some(Polled::Ready)), Step { yields: true, next: Next::Poll('a') });
    assert_eq!(ex.remaining(), 1);
    assert_eq!(ex.run(Some(Polled::Ready)), Step { yields: true, next: Next::Finish });
    assert_eq!(ex.remaining(), 0);
}

#[test]
fn a_task_may_be_spawned_while_another_is_polled() {
    let mut ex = SimpleExecutor::new();
    let _: JoinHandle<(), ()> = ex.spawn('a');
    assert_eq!(ex.run(None).next, Next::Poll('a'));
    let _: JoinHandle<(), ()> = ex.spawn('b');
    assert_eq!(ex.run(Some(Polled::Pending('a'))).next, Next::Poll('b'));
    assert_eq!(ex.run(Some(Polled::Ready)).next, Next::Poll('a'));
    assert_eq!(ex.run(Some(Polled::Ready)).next, Next::Finish);
}

#[test]
fn a_run_inside_a_poll_has_to_wait() {
    let mut ex = SimpleExecutor::new();
    let _: JoinHandle<(), ()> = ex.spawn('a');
    assert_eq!(ex.run(None).next, Next::Poll('a'));
    assert_eq!(ex.run(None).next, Next::Wait);
}

#[test]
fn results_are_joined() {
    let mut ex = SimpleExecutor::new();
    let mut first: JoinHandle<String, ()> = ex.spawn(0);
    let mut second: JoinHandle<u64, ()> = ex.spawn(1);
    let _: JoinHandle<(), ()> = ex.spawn(2);
    let mut five = count(5);
    let mut ten = count(10);
    let mut a = None;
    let mut joined = None;
    let mut step = ex.run(None);
    while let Next::Poll(task) = step.next {
        let mut cx = Context::new();
        let outcome = match task {
            0 => {
                let polled = match five.poll(&mut cx) {
                    Poll::Ready(n) => Poll::Ready(format!("done-{n}")),
                    Poll::Pending => Poll::Pending,
                };
                first.complete(polled).0
            }
            1 => {
                let polled = ten.poll(&mut cx);
                second.complete(polled).0
            }
            _ => {
                if a.is_none() {
                    if let Poll::Ready(v) = first.poll(()) {
                        a = Some(v);
                    }
                }
                match (&a, if a.is_some() { second.poll(()) } else { Poll::Pending }) {
                    (Some(a), Poll::Ready(b)) => {
                        joined = Some(format!("joined: a={a}, b={b}"));
                        Poll::Ready(())
                    }
                    _ => Poll::Pending,
                }
            }
        };
        step = ex.run(Some(match outcome {
            Poll::Ready(()) => Polled::Ready,
            Poll::Pending => Polled::Pending(task),
        }));
    }
    assert_eq!(step.next, Next::Finish);
    assert_eq!(joined, Some("joined: a=done-5, b=10".to_string()));
}

#[test]
fn joining_executor_lets_tasks_take_turns() {
    let mut ex = SimpleExecutor::new();
    for task in ['a', 'b', 'c'] {
        let _: JoinHandle<(), ()> = ex.spawn(task);
    }
    assert_eq!(ex.run(None).next, Next::Poll('a'));
    let _: JoinHandle<(), ()> = ex.spawn('d');
    assert_eq!(ex.run(Some(Polled::Pending('a'))).next, Next::Poll('b'));
    let _: JoinHandle<(), ()> = ex.spawn('e');
    assert_eq!(ex.run(Some(Polled::Ready)).next, Next::Poll('c'));
    assert_eq!(ex.run(Some(Polled::Pending('c'))).next, Next::Poll('d'));
    assert_eq!(ex.run(Some(Polled::Ready)).next, Next::Poll('a'));
    assert_eq!(ex.remaining(), 3);
    assert_eq!(ex.run(Some(Polled::Ready)).next, Next::Poll('e'));
    assert_eq!(ex.run(Some(Polled::Ready)).next, Next::Poll('c'));
    assert_eq!(ex.run(Some(Polled::Ready)).next, Next::Finish);
    assert_eq!(ex.remaining(), 0);
}

// The second task waits for the first through a handle. Its own value stays as it is.
#[test]
fn a_task_that_waits_for_another_completes_once() {
    let mut ex = SimpleExecutor::new();
    let mut handle: JoinHandle<u64, ()> = ex.spawn("counts");
    let _: JoinHandle<(), ()> = ex.spawn("waits");
    let mut three = count(3);
    let mut polls = [0, 0];
    let mut joined = Vec::new();
    let mut next = ex.run(None).next;
    while let Next::Poll(task) = next {
        let mut cx = Context::new();
        let outcome = if task == "counts" {
            polls[0] += 1;
            handle.complete(three.poll(&mut cx)).0
        } else {
            polls[1] += 1;
            match handle.poll(()) {
                Poll::Ready(n) => {
                    joined.push(n);
                    Poll::Ready(())
                }
                Poll::Pending => Poll::Pending,
            }
        };
        next = ex
            .run(Some(match outcome {
                Poll::Ready(()) => Polled::Ready,
                Poll::Pending => Polled::Pending(task),
            }))
            .next;
    }
    assert_eq!(next, Next::Finish);
    assert_eq!(joined, vec![3]);
    assert_eq!(polls, [4, 4]);
}
