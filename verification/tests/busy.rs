use async_example::busy::SimpleExecutor;
use async_example::{count, Context, CountFuture, Next, Poll, Polled, Step};

// A task that awaits one count after the other and logs what each completes with.
struct Counts {
    current: CountFuture,
    rest: Vec<u64>,
}

fn counts(first: u64, rest: Vec<u64>) -> Counts {
    Counts { current: count(first), rest }
}

impl Counts {
    fn poll(&mut self, log: &mut Vec<u64>) -> Poll<()> {
        loop {
            let mut cx = Context::new();
            match self.current.poll(&mut cx) {
                Poll::Pending => return Poll::Pending,
                Poll::Ready(v) => log.push(v),
            }
            if self.rest.is_empty() {
                return Poll::Ready(());
            }
            self.current = count(self.rest.remove(0));
        }
    }
}

fn run_all(ex: &mut SimpleExecutor<Counts>) -> (Vec<u64>, usize) {
    let mut log = Vec::new();
    let mut polls = 0;
    let mut polled = None;
    loop {
        let first = polled.is_none();
        let step = ex.run(polled);
        match step.next {
            Next::Poll(mut task) => {
                assert_eq!(step.yields, !first);
                polls += 1;
                polled = Some(match task.poll(&mut log) {
                    Poll::Ready(()) => Polled::Ready,
                    Poll::Pending => Polled::Pending(task),
                });
            }
            Next::Finish => {
                assert!(!step.yields);
                return (log, polls);
            }
            Next::Wait => panic!("a busy executor never waits"),
        }
    }
}

#[test]
fn busy_executor_without_tasks_is_done() {
    let mut ex: SimpleExecutor<u8> = SimpleExecutor::new();
    assert_eq!(ex.run(None), Step { yields: false, next: Next::Finish });
}

#[test]
fn busy_executor_puts_pending_tasks_back() {
    let mut ex = SimpleExecutor::new();
    ex.spawn('a');
    ex.spawn('b');
    ex.spawn('c');
    assert_eq!(ex.run(None), Step { yields: false, next: Next::Poll('a') });
    assert_eq!(ex.run(Some(Polled::Pending('a'))), Step { yields: true, next: Next::Poll('b') });
    assert_eq!(ex.run(Some(Polled::Pending('b'))), Step { yields: true, next: Next::Poll('c') });
    assert_eq!(ex.run(Some(Polled::Pending('c'))), Step { yields: true, next: Next::Poll('a') });
    assert_eq!(ex.run(Some(Polled::Ready)), Step { yields: true, next: Next::Poll('b') });
    assert_eq!(ex.run(Some(Polled::Ready)), Step { yields: true, next: Next::Poll('c') });
    assert_eq!(ex.run(Some(Polled::Pending('c'))), Step { yields: true, next: Next::Poll('c') });
    assert_eq!(ex.run(Some(Polled::Ready)), Step { yields: false, next: Next::Finish });
}

#[test]
fn counts_run_side_by_side() {
    let mut ex = SimpleExecutor::new();
    ex.spawn(counts(5, vec![1 << 10]));
    ex.spawn(counts(10, vec![]));
    let (log, _) = run_all(&mut ex);
    assert_eq!(log, vec![5, 10, 1024]);
}

#[test]
fn every_count_completes_and_no_poll_is_wasted() {
    let mut ex = SimpleExecutor::new();
    for n in [7, 0, 3, 3, 1] {
        ex.spawn(counts(n, vec![]));
    }
    let (log, polls) = run_all(&mut ex);
    assert_eq!(log, vec![0, 1, 3, 3, 7]);
    assert_eq!(polls, 7 + 0 + 3 + 3 + 1 + 5);
}

#[test]
fn tasks_spawned_meanwhile_come_before_one_that_is_put_back() {
    let mut ex = SimpleExecutor::new();
    ex.spawn('a');
    ex.spawn('b');
    ex.spawn('c');
    assert_eq!(ex.run(None).next, Next::Poll('a'));
    ex.spawn('d');
    assert_eq!(ex.run(Some(Polled::Pending('a'))).next, Next::Poll('b'));
    ex.spawn('e');
    assert_eq!(ex.run(Some(Polled::Ready)).next, Next::Poll('c'));
    assert_eq!(ex.run(Some(Polled::Pending('c'))).next, Next::Poll('d'));
    assert_eq!(ex.run(Some(Polled::Ready)).next, Next::Poll('a'));
    assert_eq!(ex.run(Some(Polled::Ready)).next, Next::Poll('e'));
    assert_eq!(ex.run(Some(Polled::Ready)).next, Next::Poll('c'));
    assert_eq!(ex.run(Some(Polled::Ready)).next, Next::Finish);
}

// Each task is a name and how often it is still pending. The first spawns one more.
#[test]
fn each_task_completes_once_and_takes_one_poll_more_than_it_is_pending() {
    let pending = [2, 0, 5, 1, 3];
    let mut ex = SimpleExecutor::new();
    for name in 0..4 {
        ex.spawn((name, pending[name]));
    }
    let mut polls = [0; 5];
    let mut done = [0; 5];
    let mut next = ex.run(None).next;
    while let Next::Poll((name, left)) = next {
        if name == 0 && polls[name] == 0 {
            ex.spawn((4, pending[4]));
        }
        polls[name] += 1;
        next = if left == 0 {
            done[name] += 1;
            ex.run(Some(Polled::Ready)).next
        } else {
            ex.run(Some(Polled::Pending((name, left - 1)))).next
        };
    }
    assert_eq!(next, Next::Finish);
    assert_eq!(done, [1, 1, 1, 1, 1]);
    assert_eq!(polls, [3, 1, 6, 2, 4]);
}
