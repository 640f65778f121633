use std::{
    cell::Cell,
    collections::HashMap,
    future::{poll_fn, Future},
    pin::Pin,
    sync::{
        atomic::{AtomicBool, AtomicUsize, Ordering},
        Arc, Mutex,
    },
    task::{Context, Poll, Wake, Waker},
};

use wie::error::WieError;
use wie::executor::{ExecutorInner, Tick, TickAction, TickEvent};
use wie::time::Instant;

type Task = Pin<Box<dyn Future<Output = Result<(), WieError>> + Send>>;

struct TaskWake(AtomicBool);

impl Wake for TaskWake {
    fn wake(self: Arc<Self>) {
        self.wake_by_ref();
    }

    fn wake_by_ref(self: &Arc<Self>) {
        self.0.store(true, Ordering::Release);
    }
}

struct Shared {
    inner: ExecutorInner,
    futures: HashMap<usize, Task>,
}

#[derive(Clone)]
struct Executor {
    shared: Arc<Mutex<Shared>>,
    wake: Arc<TaskWake>,
}

trait Outcome {
    fn failure(self) -> Option<WieError>;
}

impl Outcome for () {
    fn failure(self) -> Option<WieError> {
        None
    }
}

impl<R> Outcome for Result<R, WieError> {
    fn failure(self) -> Option<WieError> {
        self.err()
    }
}

impl Executor {
    fn new() -> Self {
        Self {
            shared: Arc::new(Mutex::new(Shared {
                inner: ExecutorInner::new(),
                futures: HashMap::new(),
            })),
            wake: Arc::new(TaskWake(AtomicBool::new(false))),
        }
    }

    fn spawn<C, F, R>(&self, callable: C) -> usize
    where
        C: FnOnce() -> F + Send + 'static,
        F: Future<Output = R> + Send + 'static,
        R: Outcome + Send,
    {
        let future: Task = Box::pin(async move {
            match callable().await.failure() {
                Some(error) => Err(error),
                None => Ok(()),
            }
        });
        let id = {
            let mut shared = self.shared.lock().unwrap();
            let id = shared.inner.spawn();
            if id == 0 {
                return 0;
            }
            shared.futures.insert(id, future);
            id
        };
        self.wake.wake_by_ref();
        id
    }

    fn sleep(&self, timeout: u64) {
        if self.shared.lock().unwrap().inner.sleep(timeout) {
            self.wake.wake_by_ref();
        }
    }

    fn shutdown(&self) {
        let futures = {
            let mut shared = self.shared.lock().unwrap();
            shared.inner.shutdown();
            std::mem::take(&mut shared.futures)
        };
        drop(futures);
    }

    fn tick(
        &mut self,
        now: impl Fn() -> Instant,
        budget_now: impl Fn() -> u64,
    ) -> Result<bool, WieError> {
        let waker = Waker::from(self.wake.clone());
        let mut tick = Tick::new();
        let mut event = TickEvent::Done;
        let mut polled: Option<Task> = None;
        loop {
            let action = {
                let mut shared = self.shared.lock().unwrap();
                let action = tick.step(&mut shared.inner, event);
                match action {
                    TickAction::Poll(id) => polled = shared.futures.remove(&id),
                    TickAction::Keep(id) => {
                        shared.futures.insert(id, polled.take().unwrap());
                    }
                    _ => {}
                }
                action
            };
            event = match action {
                TickAction::ReadBudget => TickEvent::Budget(budget_now()),
                TickAction::ReadClock => TickEvent::Clock(now()),
                TickAction::ReadWake => TickEvent::Woken(self.wake.0.load(Ordering::Acquire)),
                TickAction::ClearWake => {
                    self.wake.0.store(false, Ordering::Release);
                    TickEvent::Done
                }
                TickAction::Poll(_) => {
                    let task = polled.as_mut().unwrap();
                    match task.as_mut().poll(&mut Context::from_waker(&waker)) {
                        Poll::Pending => TickEvent::Pending,
                        Poll::Ready(Ok(())) => TickEvent::Ready,
                        Poll::Ready(Err(error)) => TickEvent::Failed(error),
                    }
                }
                TickAction::Keep(_) => TickEvent::Done,
                TickAction::Release(_) => {
                    drop(polled.take());
                    TickEvent::Done
                }
                TickAction::Finish(result) => return result,
            };
        }
    }
}

struct SleepFuture {
    timeout: u64,
    executor: Executor,
    sleeping: bool,
}

impl SleepFuture {
    fn new(timeout: u64, executor: &Executor) -> Self {
        Self {
            timeout,
            executor: executor.clone(),
            sleeping: false,
        }
    }
}

impl Future for SleepFuture {
    type Output = ();

    fn poll(mut self: Pin<&mut Self>, _: &mut Context<'_>) -> Poll<()> {
        if self.sleeping {
            return Poll::Ready(());
        }
        self.sleeping = true;
        self.executor.sleep(self.timeout);
        Poll::Pending
    }
}

struct YieldOnce(bool);

impl Future for YieldOnce {
    type Output = ();

    fn poll(mut self: Pin<&mut Self>, cx: &mut Context<'_>) -> Poll<()> {
        if self.0 {
            Poll::Ready(())
        } else {
            self.0 = true;
            cx.waker().wake_by_ref();
            Poll::Pending
        }
    }
}

fn advancing_clock(start: u64) -> impl Fn() -> Instant {
    let time = Cell::new(start);
    move || {
        let now = time.get();
        time.set(now + 1);
        Instant::from_epoch_millis(now)
    }
}

fn advancing_budget() -> impl Fn() -> u64 {
    let clock = advancing_clock(0);
    move || clock().raw()
}

#[test]
fn host_budget_expires_when_guest_time_is_frozen_or_moves_backwards() {
    for backwards in [false, true] {
        let mut executor = Executor::new();
        let polls = Arc::new(AtomicUsize::new(0));
        let observed = polls.clone();
        executor.spawn(move || async move {
            poll_fn(|cx| {
                observed.fetch_add(1, Ordering::Relaxed);
                cx.waker().wake_by_ref();
                Poll::<()>::Pending
            })
            .await;
        });
        let epoch = Cell::new(1000);
        let yielded = executor
            .tick(
                || {
                    if backwards {
                        epoch.set(epoch.get() - 1);
                    }
                    Instant::from_epoch_millis(epoch.get())
                },
                advancing_budget(),
            )
            .unwrap();
        assert!(yielded);
        assert_eq!(polls.load(Ordering::Relaxed), 7);
        executor.shutdown();
        assert!(!executor.tick(advancing_clock(1000), advancing_budget()).unwrap());
    }
}

#[test]
fn pending_tasks_only_repeat_within_a_tick_when_woken() {
    for wakes in [0, 2] {
        let mut executor = Executor::new();
        let polls = Arc::new(AtomicUsize::new(0));
        let observed = polls.clone();
        executor.spawn(move || async move {
            poll_fn(|cx| {
                if observed.fetch_add(1, Ordering::Relaxed) < wakes {
                    cx.waker().wake_by_ref();
                }
                Poll::<()>::Pending
            })
            .await;
        });
        assert!(!executor.tick(advancing_clock(0), advancing_budget()).unwrap());
        assert_eq!(polls.load(Ordering::Relaxed), wakes + 1);
        assert!(!executor.tick(advancing_clock(100), advancing_budget()).unwrap());
        assert_eq!(polls.load(Ordering::Relaxed), wakes + 2);
    }
}

#[test]
fn continuation_requires_work_that_is_ready_at_the_budget_boundary() {
    for timeout in [0, 100] {
        let mut executor = Executor::new();
        let sleeper = executor.clone();
        executor.spawn(move || async move {
            SleepFuture::new(timeout, &sleeper).await;
        });
        let budget = Cell::new(0);
        let yielded = executor
            .tick(
                || Instant::from_epoch_millis(0),
                || {
                    let now = budget.get();
                    budget.set(now + 4);
                    now
                },
            )
            .unwrap();
        assert_eq!(yielded, timeout == 0);
        assert!(!executor.tick(advancing_clock(100), advancing_budget()).unwrap());
    }

    let mut executor = Executor::new();
    executor.spawn(|| async {
        poll_fn(|cx| {
            cx.waker().wake_by_ref();
            Poll::Ready(())
        })
        .await;
    });
    assert!(!executor.tick(advancing_clock(0), advancing_budget()).unwrap());
}

#[test]
fn repeated_steps_reuse_task_storage_and_drop_completed_futures_outside_locks() {
    struct OnDrop(Executor);
    impl Future for OnDrop {
        type Output = Result<(), WieError>;

        fn poll(self: Pin<&mut Self>, _: &mut Context<'_>) -> Poll<Self::Output> {
            Poll::Ready(Ok(()))
        }
    }
    impl Drop for OnDrop {
        fn drop(&mut self) {
            let shared = self.0.shared.try_lock().unwrap();
            assert!(!shared.inner.is_polling());
        }
    }

    let mut executor = Executor::new();
    for _ in 0..32 {
        executor.spawn(|| std::future::pending::<()>());
    }
    let task = Box::pin(OnDrop(executor.clone()));
    {
        let mut shared = executor.shared.lock().unwrap();
        let id = shared.inner.spawn();
        assert_eq!(id, 33);
        shared.futures.insert(id, task);
    }
    executor.tick(|| Instant::from_epoch_millis(0), advancing_budget()).unwrap();
    let (capacity, ids) = {
        let shared = executor.shared.lock().unwrap();
        (shared.inner.task_capacity(), shared.inner.task_storage().as_ptr())
    };
    for now in 1..100 {
        executor.tick(|| Instant::from_epoch_millis(now), advancing_budget()).unwrap();
        let shared = executor.shared.lock().unwrap();
        assert_eq!(shared.inner.task_ids().len(), 32);
        assert_eq!(shared.futures.len(), 32);
        assert_eq!(shared.inner.task_capacity(), capacity);
        assert_eq!(shared.inner.task_storage().as_ptr(), ids);
        assert!(shared.inner.task_storage().is_empty());
    }
    executor.shutdown();
    assert!(executor.shared.lock().unwrap().inner.task_ids().is_empty());
}

#[test]
fn a_step_polls_every_task_whose_time_has_come() {
    let mut executor = Executor::new();
    let polled = Arc::new(Mutex::new(Vec::new()));
    for task in 0..4u64 {
        let sleeper = executor.clone();
        let polled = polled.clone();
        executor.spawn(move || async move {
            for _ in 0..9 {
                polled.lock().unwrap().push(task);
                SleepFuture::new(task * 10, &sleeper).await;
            }
        });
    }
    let frozen = |now: u64| move || Instant::from_epoch_millis(now);
    let mut turns = |now: u64| {
        let budget = Cell::new(0);
        let step = || budget.replace(budget.get() + 4);
        executor.tick(frozen(now), step).unwrap();
        let mut tasks = std::mem::take(&mut *polled.lock().unwrap());
        tasks.sort();
        tasks
    };
    assert_eq!(turns(0), vec![0, 1, 2, 3]);
    assert_eq!(turns(20), vec![0, 1, 2]);
    assert_eq!(turns(30), vec![0, 1, 3]);
}

#[test]
fn tasks_that_are_added_in_a_step_wait_for_the_next_one() {
    let mut inner = ExecutorInner::new();
    for _ in 0..3 {
        inner.spawn();
    }
    let mut steps: Vec<Vec<usize>> = Vec::new();
    for now in [5, 6, 20] {
        let mut tick = Tick::new();
        let mut event = TickEvent::Done;
        let mut polled = Vec::new();
        loop {
            event = match tick.step(&mut inner, event) {
                TickAction::ReadBudget => TickEvent::Budget(0),
                TickAction::ReadClock => TickEvent::Clock(Instant::from_epoch_millis(now)),
                TickAction::ReadWake => TickEvent::Woken(false),
                TickAction::Poll(id) => {
                    polled.push(id);
                    if id == 2 && now == 5 {
                        inner.spawn();
                        inner.sleep(10);
                    }
                    TickEvent::Pending
                }
                TickAction::Finish(result) => {
                    assert_eq!(result, Ok(false));
                    break;
                }
                _ => TickEvent::Done,
            };
        }
        polled.sort();
        steps.push(polled);
    }
    assert_eq!(steps, vec![vec![1, 2, 3], vec![1, 3, 4], vec![1, 2, 3, 4]]);
}

#[test]
fn ticks_that_run_at_once_settle_their_own_tasks() {
    fn polled(inner: &mut ExecutorInner, tick: &mut Tick) -> usize {
        let mut event = TickEvent::Done;
        loop {
            event = match tick.step(inner, event) {
                TickAction::ReadBudget => TickEvent::Budget(0),
                TickAction::ReadClock => TickEvent::Clock(Instant::from_epoch_millis(0)),
                TickAction::ClearWake => TickEvent::Done,
                TickAction::Poll(id) => return id,
                _ => panic!("expected a task"),
            };
        }
    }

    let mut inner = ExecutorInner::new();
    inner.spawn();
    inner.spawn();
    let (mut first, mut second) = (Tick::new(), Tick::new());
    let a = polled(&mut inner, &mut first);
    let b = polled(&mut inner, &mut second);
    assert_ne!(a, b);
    assert_eq!(inner.current_task_id(), b as u64);
    let TickAction::Release(done) = first.step(&mut inner, TickEvent::Ready) else {
        panic!("expected a release");
    };
    assert_eq!(done, a);
    assert_eq!(inner.current_task_id(), b as u64);
    let TickAction::Keep(kept) = second.step(&mut inner, TickEvent::Pending) else {
        panic!("expected the task to stay");
    };
    assert_eq!(kept, b);
    assert!(!inner.is_polling());
    assert_eq!(inner.task_ids(), vec![b]);
}

#[test]
fn zero_duration_sleeps_and_newly_spawned_tasks_resume_in_the_same_tick() {
    let mut executor = Executor::new();
    let completed = Arc::new(AtomicBool::new(false));
    let observed = completed.clone();
    let task_executor = executor.clone();
    executor.spawn(move || async move {
        SleepFuture::new(0, &task_executor).await;
        task_executor.spawn(move || async move {
            observed.store(true, Ordering::Relaxed);
        });
    });
    executor.tick(advancing_clock(0), advancing_budget()).unwrap();
    assert!(completed.load(Ordering::Relaxed));
}

#[test]
fn test_failed_task_preserves_others() {
    let mut executor = Executor::new();

    executor.spawn(|| async { Err::<(), _>(WieError::FatalError("test error".into())) });

    let completed = Arc::new(AtomicBool::new(false));
    let completed_clone = completed.clone();
    executor.spawn(move || async move {
        YieldOnce(false).await;
        completed_clone.store(true, Ordering::Relaxed);
    });

    assert!(executor.tick(advancing_clock(0), advancing_budget()).is_err());
    assert!(!completed.load(Ordering::Relaxed));

    executor.tick(advancing_clock(100), advancing_budget()).unwrap();
    assert!(completed.load(Ordering::Relaxed));
}

#[test]
fn test_failed_task_preserves_sleeping_tasks() {
    let mut executor = Executor::new();

    let completed = Arc::new(AtomicBool::new(false));
    let completed_clone = completed.clone();
    let executor_clone = executor.clone();
    executor.spawn(move || async move {
        executor_clone.sleep(100);
        YieldOnce(false).await;
        completed_clone.store(true, Ordering::Relaxed);
    });

    executor.spawn(|| async { Err::<(), _>(WieError::FatalError("test error".into())) });

    assert!(executor.tick(advancing_clock(0), advancing_budget()).is_err());
    assert!(!completed.load(Ordering::Relaxed));

    executor.tick(advancing_clock(50), advancing_budget()).unwrap();
    assert!(!completed.load(Ordering::Relaxed));

    executor.tick(advancing_clock(200), advancing_budget()).unwrap();
    assert!(completed.load(Ordering::Relaxed));
}

#[test]
fn test_all_ok_tasks_complete() {
    let mut executor = Executor::new();

    let completed_a = Arc::new(AtomicBool::new(false));
    let completed_a_clone = completed_a.clone();
    executor.spawn(move || async move {
        completed_a_clone.store(true, Ordering::Relaxed);
    });

    let completed_b = Arc::new(AtomicBool::new(false));
    let completed_b_clone = completed_b.clone();
    executor.spawn(move || async move {
        YieldOnce(false).await;
        completed_b_clone.store(true, Ordering::Relaxed);
    });

    executor.tick(advancing_clock(0), advancing_budget()).unwrap();

    assert!(completed_a.load(Ordering::Relaxed));
    assert!(completed_b.load(Ordering::Relaxed));
}

#[test]
fn shutdown_drops_tasks_outside_locks_and_does_not_requeue_them() {
    struct OnDrop(Executor, Arc<AtomicUsize>);
    impl Drop for OnDrop {
        fn drop(&mut self) {
            assert!(self.0.shared.try_lock().is_ok());
            assert_eq!(self.0.spawn(|| async {}), 0);
            self.1.fetch_add(1, Ordering::Relaxed);
        }
    }

    for stop_inside_poll in [false, true] {
        let mut executor = Executor::new();
        let weak = Arc::downgrade(&executor.shared);
        let drops = Arc::new(AtomicUsize::new(0));
        let guard = OnDrop(executor.clone(), drops.clone());
        executor.spawn(move || async move {
            let guard = guard;
            if stop_inside_poll {
                guard.0.shutdown();
            }
            std::future::pending::<()>().await;
            drop(guard);
        });
        executor.tick(advancing_clock(0), advancing_budget()).unwrap();
        executor.shutdown();
        executor.shutdown();
        assert_eq!(drops.load(Ordering::Relaxed), 1);
        assert!(executor.shared.lock().unwrap().inner.task_ids().is_empty());
        drop(executor);
        assert!(weak.upgrade().is_none());
    }
}

#[test]
fn the_first_failure_of_a_step_is_reported() {
    let mut inner = ExecutorInner::new();
    assert_eq!(inner.spawn(), 1);
    assert_eq!(inner.spawn(), 2);
    let mut tick = Tick::new();
    let mut event = TickEvent::Done;
    let mut failures = 0;
    let mut order = Vec::new();
    let error = loop {
        event = match tick.step(&mut inner, event) {
            TickAction::ReadBudget => TickEvent::Budget(0),
            TickAction::ReadClock => TickEvent::Clock(Instant::from_epoch_millis(3)),
            TickAction::ReadWake => TickEvent::Woken(false),
            TickAction::Poll(id) => {
                order.push(id);
                failures += 1;
                TickEvent::Failed(WieError::FatalError(format!("failure {failures}")))
            }
            TickAction::Finish(result) => break result.unwrap_err(),
            _ => TickEvent::Done,
        };
    };
    order.sort();
    assert_eq!(order, vec![1, 2]);
    assert_eq!(error, WieError::FatalError("failure 1".into()));
    assert!(inner.task_ids().is_empty());
    assert_eq!(inner.spawn(), 3);
}

#[test]
fn a_sleeping_task_is_passed_over_until_its_time() {
    let mut inner = ExecutorInner::new();
    inner.spawn();
    let mut polls = Vec::new();
    for now in [10, 14, 15] {
        let mut tick = Tick::new();
        let mut event = TickEvent::Done;
        loop {
            event = match tick.step(&mut inner, event) {
                TickAction::ReadBudget => TickEvent::Budget(0),
                TickAction::ReadClock => TickEvent::Clock(Instant::from_epoch_millis(now)),
                TickAction::ReadWake => TickEvent::Woken(false),
                TickAction::Poll(id) => {
                    polls.push((now, id));
                    assert_eq!(inner.current_task_id(), 1);
                    assert!(inner.sleep(5));
                    TickEvent::Pending
                }
                TickAction::Finish(result) => {
                    assert_eq!(result, Ok(false));
                    break;
                }
                _ => TickEvent::Done,
            };
        }
    }
    assert_eq!(polls, vec![(10, 1), (15, 1)]);
    inner.shutdown();
    assert!(inner.is_stopped());
    assert!(!inner.sleep(1));
    assert_eq!(inner.spawn(), 0);
}
