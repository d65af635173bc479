# async_example

A small asynchronous runtime whose decisions are verified.

- `count`: a task that counts up, one step for each poll.
- `slot`: `JoinHandle`, through which a task hands out its result. The value is stored
  before anybody is woken.
- `busy`: an executor that polls whatever is in its queue until the queue is empty.
  `busy_laws` says what holds of a whole run: who is polled when, and that every task
  completes once.
- `joining`: an executor that counts unfinished tasks and puts pending ones back.
  `joining_laws` carries what holds of busy runs over to it.
- `waking`: an executor that polls a task only when it has been woken. It knows tasks by
  number and never gives out one that is done. `waking_laws` says what holds whatever is
  spawned, woken and polled.
- `timer`: `Timer`, `Sleep` and `TimerReactor`. Tasks register a waker for a deadline, and a
  worker calls it when the deadline has come. `schedule` is the model, `timer_laws` says what
  holds across operations.

The library never blocks, never reads a clock and never polls a future of its caller's: an
executor says which task to poll and is told what came of it, and a timer is told the time.
Times are nanoseconds from an origin that the caller picks. `app/` supplies the futures, the
threads, the locks and the clock.
