//! Events, who listens to them, and what runs the listeners.
use crate::context::AppContextInner;
use crate::erased::{keeps, Erased};
use core::marker::PhantomData;
use std::future::Future;
use std::sync::Arc;
use vstd::prelude::*;

verus! {

/// event source.
/// an event can be omitted by `AppContext` or by user
pub enum EventSource {
    AppCtx(Arc<AppContextInner>),
    Custom,
}

impl Clone for EventSource {
    fn clone(&self) -> (copy: Self)
        ensures
            copy == *self,
    {
        match self {
            EventSource::AppCtx(inner) => EventSource::AppCtx(inner.clone()),
            EventSource::Custom => EventSource::Custom,
        }
    }
}

/// app event struct
pub struct AppEvent<T: Clone> {
    pub source: EventSource,
    pub timestamp: u128,
    pub is_async: bool,
    pub data: T,
}

impl<T: Clone> Clone for AppEvent<T> {
    fn clone(&self) -> (copy: Self)
        ensures
            copy.source == self.source,
            copy.timestamp == self.timestamp,
            copy.is_async == self.is_async,
            cloned(self.data, copy.data),
    {
        AppEvent {
            source: self.source.clone(),
            timestamp: self.timestamp,
            is_async: self.is_async,
            data: self.data.clone(),
        }
    }
}

/// a listener for dealing sync events
pub trait AppEventListener {
    type EventType;

    /// The listener can deal with `event`.
    open spec fn accepts(&self, event: Self::EventType) -> bool {
        true
    }

    /// The listener has dealt with `event`.
    open spec fn handled(&self, event: Self::EventType) -> bool {
        true
    }

    fn on_event(&self, event: Self::EventType)
        requires
            self.accepts(event),
        ensures
            self.handled(event),
    ;
}

/// basic wrapper for a single function
#[verifier::reject_recursive_types(E)]
pub struct FnListener<E, F> where F: Fn(E) {
    _event: PhantomData<E>,
    f: F,
}

impl<E, F> FnListener<E, F> where F: Fn(E) {
    /// The function.
    pub closed spec fn function(&self) -> F {
        self.f
    }

    pub fn wrap(f: F) -> (listener: Self)
        ensures
            listener.function() == f,
    {
        FnListener { _event: PhantomData, f }
    }
}

impl<E, F> AppEventListener for FnListener<E, F> where F: Fn(E) {
    type EventType = E;

    open spec fn accepts(&self, event: E) -> bool {
        call_requires(self.function(), (event,))
    }

    open spec fn handled(&self, event: E) -> bool {
        call_ensures(self.function(), (event,), ())
    }

    fn on_event(&self, event: E) {
        (self.f)(event)
    }
}

/// async version of `AppEventListener`: what it gives back is to be awaited
pub trait AppEventListenerAsync {
    type EventType;

    type Reply: Future<Output = ()>;

    /// The listener can deal with `event`.
    open spec fn accepts(&self, event: Self::EventType) -> bool {
        true
    }

    /// Awaiting `reply` is how the listener deals with `event`.
    open spec fn answers(&self, event: Self::EventType, reply: Self::Reply) -> bool {
        true
    }

    fn on_event_async(&self, event: Self::EventType) -> (reply: Self::Reply)
        requires
            self.accepts(event),
        ensures
            self.answers(event, reply),
    ;
}

/// basic wrapper for a single function
#[verifier::reject_recursive_types(E)]
#[verifier::reject_recursive_types(Fut)]
pub struct FnAsyncListener<E, F, Fut> where F: Fn(E) -> Fut, Fut: Future<Output = ()> {
    _event: PhantomData<E>,
    _fut: PhantomData<Fut>,
    f: F,
}

impl<E, F, Fut> FnAsyncListener<E, F, Fut> where F: Fn(E) -> Fut, Fut: Future<Output = ()> {
    /// The function.
    pub closed spec fn function(&self) -> F {
        self.f
    }

    pub fn wrap(f: F) -> (listener: Self)
        ensures
            listener.function() == f,
    {
        FnAsyncListener { _event: PhantomData, _fut: PhantomData, f }
    }
}

impl<E, F, Fut> AppEventListenerAsync for FnAsyncListener<E, F, Fut> where
    F: Fn(E) -> Fut,
    Fut: Future<Output = ()>,
 {
    type EventType = E;

    type Reply = Fut;

    open spec fn accepts(&self, event: E) -> bool {
        call_requires(self.function(), (event,))
    }

    open spec fn answers(&self, event: E, reply: Fut) -> bool {
        call_ensures(self.function(), (event,), reply)
    }

    fn on_event_async(&self, event: E) -> (reply: Fut) {
        (self.f)(event)
    }
}

/// Something to run: a boxed closure that hands an event to a listener.
#[verifier::external_body]
pub struct Task {
    f: Box<dyn FnOnce() + Send>,
}

/// `Box::new` on a closure that hands `event` to `listener`: whoever has run the box has
/// done so.
#[verifier::external_body]
fn task_new<G: AppEventListener + Send + Sync + 'static>(listener: Arc<G>, event: G::EventType) -> (task: Task) where
    G::EventType: Send + 'static,

    requires
        listener.accepts(event),
    ensures
        task.has_run() ==> listener.handled(event),
{
    Task { f: Box::new(move || listener.on_event(event)) }
}

/// `task` is to hand `event` to `listener`.
pub closed spec fn deals<G: AppEventListener + Send + Sync + 'static>(
    task: Task,
    listener: G,
    event: G::EventType,
) -> bool where G::EventType: Send + 'static {
    call_ensures(task_new::<G>, (Arc::new(listener), event), task)
}

/// Calls a boxed closure, with what it was made for.
#[verifier::external_body]
fn task_run(task: Task) {
    (task.f)()
}

impl Task {
    /// The task has been run.
    pub closed spec fn has_run(self) -> bool {
        exists|done: ()| #[trigger] call_ensures(task_run, (self,), done)
    }

    /// A task that hands `event` to `listener`.
    pub fn new<G: AppEventListener + Send + Sync + 'static>(listener: Arc<G>, event: G::EventType) -> (task: Task) where
        G::EventType: Send + 'static,

        requires
            listener.accepts(event),
        ensures
            deals(task, *listener, event),
    {
        let ghost given = listener;
        let task = task_new(listener, event);
        assert(Arc::new(*given) == given);
        task
    }

    /// Runs the task.
    pub fn run(self)
        ensures
            self.has_run(),
    {
        task_run(self)
    }
}

/// Running a task that is to hand an event to a listener is how the listener deals with
/// the event.
pub proof fn law_task_deals<G: AppEventListener + Send + Sync + 'static>(
    task: Task,
    listener: G,
    event: G::EventType,
) where G::EventType: Send + 'static
    requires
        deals(task, listener, event),
        task.has_run(),
    ensures
        listener.handled(event),
{
}

/// an executor to execute the events.
/// it can be either sync or async
pub trait EventExecutor {
    /// The executor has taken charge of `task`.
    open spec fn took(&self, task: Task) -> bool {
        true
    }

    fn execute(&self, task: Task)
        ensures
            self.took(task),
    ;
}

/// async version of `EventExecutor`: what it gives back is to be awaited
pub trait EventExecutorAsync<Fut: Future<Output = ()>> {
    type Running: Future<Output = ()>;

    /// Awaiting `running` is how the executor executes `f`.
    open spec fn executes(&self, f: Fut, running: Self::Running) -> bool {
        true
    }

    fn execute(&self, f: Fut) -> (running: Self::Running)
        ensures
            self.executes(f, running),
    ;
}

/// default implementation of executor.
/// because different async runtimes have different executors,
/// default executor only deal events synchronously
#[derive(Clone, Copy)]
pub struct DefaultExecutor;

impl EventExecutor for DefaultExecutor {
    open spec fn took(&self, task: Task) -> bool {
        task.has_run()
    }

    fn execute(&self, task: Task) {
        task.run()
    }
}

impl<Fut: Future<Output = ()>> EventExecutorAsync<Fut> for DefaultExecutor {
    type Running = Fut;

    open spec fn executes(&self, f: Fut, running: Fut) -> bool {
        running == f
    }

    fn execute(&self, f: Fut) -> (running: Fut) {
        f
    }
}

/// erased event listener for runtime
pub struct ErasedListener {
    is_async: bool,
    event_type: &'static str,
    inner: Erased,
}

/// What an erased listener is made of.
pub struct ListenerView {
    pub is_async: bool,
    pub event_type: Seq<char>,
    pub inner: Erased,
}

impl View for ErasedListener {
    type V = ListenerView;

    closed spec fn view(&self) -> ListenerView {
        ListenerView { is_async: self.is_async, event_type: self.event_type@, inner: self.inner }
    }
}

impl Clone for ErasedListener {
    fn clone(&self) -> (copy: Self)
        ensures
            copy@ == self@,
    {
        ErasedListener { is_async: self.is_async, event_type: self.event_type, inner: self.inner.clone() }
    }
}

impl ErasedListener {
    pub fn is_async(&self) -> (r: bool)
        ensures
            r == self@.is_async,
    {
        self.is_async
    }

    /// The type of the events that it listens to, by name.
    pub fn event_type(&self) -> (r: &'static str)
        ensures
            r@ == self@.event_type,
    {
        self.event_type
    }

    /// A listener for the events of type `event_type`.
    pub fn sync_one<G: AppEventListener + Send + Sync + 'static>(event_type: &'static str, listener: G) -> (erased:
        Self)
        ensures
            !erased@.is_async,
            erased@.event_type == event_type@,
            keeps(erased@.inner, listener),
    {
        ErasedListener { is_async: false, event_type, inner: Erased::new(listener) }
    }

    /// A listener for the events of type `event_type` that is to be awaited.
    pub fn async_one<G: AppEventListenerAsync + Send + Sync + 'static>(event_type: &'static str, listener: G) -> (erased:
        Self)
        ensures
            erased@.is_async,
            erased@.event_type == event_type@,
            keeps(erased@.inner, listener),
    {
        ErasedListener { is_async: true, event_type, inner: Erased::new(listener) }
    }

    /// Has `executor` hand `event` to the listener, which was made with `sync_one` of a `G`.
    pub fn deal_sync<G: AppEventListener + Send + Sync + 'static, X: EventExecutor + ?Sized>(
        &self,
        event: G::EventType,
        executor: &X,
    ) where G::EventType: Send + 'static
        requires
            !self@.is_async,
            exists|listener: G| #[trigger] keeps(self@.inner, listener) && listener.accepts(event),
        ensures
            forall|listener: G| #[trigger]
                keeps(self@.inner, listener) ==> exists|task: Task| #[trigger]
                    deals(task, listener, event) && executor.took(task),
    {
        let listener = self.inner.get::<G>();
        let task = Task::new(listener, event);
        executor.execute(task);
    }

    /// Has `executor` hand `event` to the listener, which was made with `async_one` of a `G`.
    /// What comes back is to be awaited.
    pub fn deal_async<G: AppEventListenerAsync + Send + Sync + 'static, X: EventExecutorAsync<G::Reply>>(
        &self,
        event: G::EventType,
        executor: &X,
    ) -> (running: X::Running)
        requires
            self@.is_async,
            exists|listener: G| #[trigger] keeps(self@.inner, listener) && listener.accepts(event),
        ensures
            forall|listener: G| #[trigger]
                keeps(self@.inner, listener) ==> exists|reply: G::Reply| #[trigger]
                    listener.answers(event, reply) && executor.executes(reply, running),
    {
        let listener = self.inner.get::<G>();
        executor.execute(listener.on_event_async(event))
    }
}

/// A function that listens is called with each event that the listener is given, and deals
/// with an event where a call of it came to an end.
pub proof fn law_function_listens<E, F: Fn(E)>(f: F, listener: FnListener<E, F>, events: Seq<E>)
    requires
        listener.function() == f,
    ensures
        forall|i: int|
            0 <= i < events.len() ==> listener.accepts(#[trigger] events[i]) == call_requires(
                f,
                (events[i],),
            ),
        forall|i: int|
            0 <= i < events.len() ==> listener.handled(#[trigger] events[i]) == call_ensures(
                f,
                (events[i],),
                (),
            ),
{
}

/// A function that is awaited is called with each event that the listener is given, and what
/// is to be awaited is what it gave.
pub proof fn law_awaited_function_listens<E, F: Fn(E) -> Fut, Fut: Future<Output = ()>>(
    f: F,
    listener: FnAsyncListener<E, F, Fut>,
    event: E,
    reply: Fut,
)
    requires
        listener.function() == f,
    ensures
        listener.accepts(event) == call_requires(f, (event,)),
        listener.answers(event, reply) == call_ensures(f, (event,), reply),
{
}

/// The default executor has run a task by the time it has taken charge of it, and what it is
/// given to await is what is to be awaited.
pub proof fn law_default_executor<Fut: Future<Output = ()>>(
    executor: DefaultExecutor,
    task: Task,
    f: Fut,
    running: Fut,
)
    ensures
        EventExecutor::took(&executor, task) == task.has_run(),
        EventExecutorAsync::executes(&executor, f, running) == (running == f),
{
}

/// A listener has dealt with an event by the time the default executor has taken charge of the
/// task to hand it over.
pub proof fn law_dealing_at_once<G: AppEventListener + Send + Sync + 'static>(
    executor: DefaultExecutor,
    task: Task,
    listener: G,
    event: G::EventType,
) where G::EventType: Send + 'static
    requires
        deals(task, listener, event),
        EventExecutor::took(&executor, task),
    ensures
        listener.handled(event),
{
    law_task_deals(task, listener, event);
}

} // verus!
