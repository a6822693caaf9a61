use bean_context::event::{
    AppEvent, AppEventListener, AppEventListenerAsync, DefaultExecutor, ErasedListener, EventExecutor,
    EventExecutorAsync, EventSource, FnAsyncListener, FnListener, Task,
};
use std::future::{ready, Future, Ready};
use std::pin::Pin;
use std::sync::atomic::{AtomicU32, Ordering};
use std::sync::{Arc, Mutex};
use std::task::{Context, Poll, Waker};

fn poll<F: Future<Output = ()> + Unpin>(mut f: F) -> bool {
    let mut ctx = Context::from_waker(Waker::noop());
    Pin::new(&mut f).poll(&mut ctx) == Poll::Ready(())
}

/// A listener that can be shared.
struct Shared(Arc<AtomicU32>);

impl AppEventListener for Shared {
    type EventType = u32;

    fn on_event(&self, event: u32) {
        self.0.fetch_add(event, Ordering::SeqCst);
    }
}

impl AppEventListenerAsync for Shared {
    type EventType = u32;
    type Reply = Ready<()>;

    fn on_event_async(&self, event: u32) -> Ready<()> {
        self.0.fetch_add(event, Ordering::SeqCst);
        ready(())
    }
}

#[test]
fn a_function_listens() {
    let sum = AtomicU32::new(0);
    let listener = FnListener::wrap(|e: u32| {
        sum.fetch_add(e, Ordering::SeqCst);
    });
    listener.on_event(3);
    listener.on_event(4);
    assert_eq!(sum.load(Ordering::SeqCst), 7);
}

#[test]
fn a_function_that_is_awaited_listens() {
    let sum = AtomicU32::new(0);
    let listener = FnAsyncListener::wrap(|e: u32| {
        sum.fetch_add(e, Ordering::SeqCst);
        ready(())
    });
    assert!(poll(listener.on_event_async(5)));
    assert_eq!(sum.load(Ordering::SeqCst), 5);
}

#[test]
fn the_default_executor_runs_at_once() {
    let sum = Arc::new(AtomicU32::new(0));
    EventExecutor::execute(&DefaultExecutor, Task::new(Arc::new(Shared(sum.clone())), 1));
    assert_eq!(sum.load(Ordering::SeqCst), 1);
    assert!(poll(EventExecutorAsync::execute(&DefaultExecutor, ready(()))));
}

#[test]
fn an_erased_listener_is_handed_the_event() {
    let sum = Arc::new(AtomicU32::new(0));
    let erased = ErasedListener::sync_one("u32", Shared(sum.clone()));
    assert!(!erased.is_async());
    assert_eq!(erased.event_type(), "u32");
    erased.deal_sync::<Shared, _>(6, &DefaultExecutor);
    erased.clone().deal_sync::<Shared, _>(1, &DefaultExecutor);
    assert_eq!(sum.load(Ordering::SeqCst), 7);
}

/// An executor that keeps what it is given for later.
struct Later(Mutex<Vec<Task>>);

impl EventExecutor for Later {
    fn execute(&self, task: Task) {
        self.0.lock().unwrap().push(task);
    }
}

#[test]
fn an_executor_is_given_one_task_to_run() {
    let sum = Arc::new(AtomicU32::new(0));
    let erased = ErasedListener::sync_one("u32", Shared(sum.clone()));
    let later = Later(Mutex::new(Vec::new()));
    let executor: &dyn EventExecutor = &later;
    erased.deal_sync::<Shared, _>(6, executor);
    assert_eq!(sum.load(Ordering::SeqCst), 0);
    let mut tasks = later.0.into_inner().unwrap();
    assert_eq!(tasks.len(), 1);
    tasks.pop().unwrap().run();
    assert_eq!(sum.load(Ordering::SeqCst), 6);
}

#[test]
fn an_erased_listener_may_be_awaited() {
    let sum = Arc::new(AtomicU32::new(0));
    let erased = ErasedListener::async_one("u32", Shared(sum.clone()));
    assert!(erased.is_async());
    assert!(erased.clone().is_async());
    assert!(poll(erased.deal_async::<Shared, _>(8, &DefaultExecutor)));
    assert_eq!(sum.load(Ordering::SeqCst), 8);
}

#[test]
fn an_event_is_cloned_with_its_source() {
    let event: AppEvent<String> = AppEvent {
        source: EventSource::Custom,
        timestamp: 12,
        is_async: true,
        data: String::from("e"),
    };
    let copy = event.clone();
    assert!(matches!(copy.source, EventSource::Custom));
    assert_eq!((copy.timestamp, copy.is_async, copy.data), (12, true, String::from("e")));
}
