//! The registry: which beans there are, and what is known about each.
use bean_context::bean_ref::BeanRef;
use bean_context::context::{AppContext, AppContextBuilder};
use bean_context::erased::Erased;
use bean_context::error::{BeanError, BoxError};
use bean_context::lifecycle::{AsyncSetup, BuildFromContext, CallLog};
use bean_context::metadata::{BeanMetadata, BeanPriority, BeanType};
use bean_context::wrapper::{BeanStatus, BeanWrapper, CustomFnEnum};
use std::collections::HashSet;
use std::fmt;
use std::sync::atomic::{AtomicU32, Ordering};

type Built = Result<AppContext, BeanError>;

/// What the beans of these tests would be built from.
struct Source;

/// A bean that depends on bean `y`, counts how often it is initialized, and cannot be
/// finalized.
struct Counter {
    number: u32,
    inits: AtomicU32,
}

fn counter(number: u32) -> Counter {
    Counter { number, inits: AtomicU32::new(0) }
}

impl BuildFromContext<Source, u32, ()> for Counter {
    fn build_from(_ctx: &Source, extras: u32) -> Result<Self, ()> {
        Ok(counter(extras))
    }

    fn init_self(&self) -> Result<(), BoxError> {
        self.inits.fetch_add(1, Ordering::SeqCst);
        Ok(())
    }

    fn clean_self(&self) -> Result<(), BoxError> {
        Err(BoxError::new(fmt::Error, fmt::Error.to_string()))
    }

    fn priority() -> BeanPriority {
        BeanPriority::DependsOn(vec![meta("A", "y")])
    }
}

impl BuildFromContext<Source, u32, ()> for u32 {
    fn build_from(_ctx: &Source, extras: u32) -> Result<Self, ()> {
        Ok(extras)
    }
}

fn meta(bean_type: &'static str, bean_name: &'static str) -> BeanMetadata {
    BeanMetadata { bean_type, bean_name }
}

fn awaited(init: usize, destroy: usize) -> AsyncSetup {
    AsyncSetup {
        init: Erased::new(init),
        destroy: Erased::new(destroy),
        priority: BeanPriority::DependsOn(vec![meta("A", "z")]),
    }
}

/// The bean that a reference leads to, if it is there yet.
fn seen(r: &BeanRef<u32>) -> Option<u32> {
    r.try_acquire().ok().unwrap().get().copied()
}

fn ask(b: &mut AppContextBuilder, bean_type: &'static str, name: &'static str) -> BeanRef<u32> {
    b.acquire_bean_or_init(BeanType::named(bean_type), name)
}

fn construct(b: AppContextBuilder, bean_type: &'static str, name: &'static str, bean: u32) -> AppContextBuilder {
    b.construct_bean::<Source, u32, (), u32>(BeanType::named(bean_type), name, Ok(bean)).unwrap()
}

fn construct_async(b: AppContextBuilder, bean_type: &'static str, name: &'static str, bean: u32) -> AppContextBuilder {
    b.construct_bean_async(BeanType::named(bean_type), name, Ok::<u32, ()>(bean), awaited(3, 4)).unwrap()
}

fn unfinished(built: Built) -> BeanMetadata {
    match built {
        Err(BeanError::NotInitialized(m)) => m,
        _ => panic!("built"),
    }
}

#[test]
fn metadata_is_equal_by_what_it_says() {
    let built = BeanMetadata::build_meta(&BeanType::<u32>::named("B"), "b");
    assert_eq!(built, meta("B", "b"));
    assert_ne!(built, meta("B", "c"));
    assert_ne!(built, meta("A", "b"));
    let text = String::from("B!");
    let other: &'static str = Box::leak(text[..1].to_string().into_boxed_str());
    assert_eq!(built, meta(other, "b"));
    let mut keys = HashSet::new();
    assert!(keys.insert(built));
    assert!(!keys.insert(meta(other, "b")));
    assert!(keys.insert(meta("B", "c")));
}

#[test]
fn asking_again_gives_the_same_cell() {
    let mut b = AppContextBuilder::new();
    assert_eq!(b.inner().len(), 0);
    let first = ask(&mut b, "A", "x");
    let again = ask(&mut b, "A", "x");
    assert_eq!(b.inner().len(), 1);
    let y = ask(&mut b, "A", "y");
    let other = ask(&mut b, "B", "x");
    assert_eq!(b.inner().len(), 3);
    assert_eq!(*b.inner().at(2).meta(), meta("B", "x"));
    assert!(b.inner().get(&meta("B", "y")).is_none());
    let b = construct(b, "A", "x", 10);
    assert_eq!((seen(&first), seen(&again)), (Some(10), Some(10)));
    assert_eq!((seen(&y), seen(&other)), (None, None));
    assert_eq!(b.inner().len(), 3);
}

#[test]
fn a_bean_is_known_with_what_it_brings_along() {
    let mut b = AppContextBuilder::new();
    let early: BeanRef<Counter> = b.acquire_bean_or_init(BeanType::named("A"), "x");
    let b = b.construct_bean::<Source, u32, (), Counter>(BeanType::named("A"), "x", Ok(counter(10))).unwrap();
    let b = construct(b, "A", "y", 77);
    let held = early.try_acquire().ok().unwrap();
    assert_eq!(held.deref().number, 10);
    let x = b.inner().get(&meta("A", "x")).unwrap();
    assert!(x.initialized());
    assert!(!x.is_async());
    assert_eq!(*x.depends_on(), vec![meta("A", "y")]);
    assert!(x.init_fn().call(&mut CallLog::new()).is_ok());
    assert_eq!(held.deref().inits.load(Ordering::SeqCst), 1);
    assert!(x.destroy_fn().call(&mut CallLog::new()).is_err());
    assert_eq!(held.deref().inits.load(Ordering::SeqCst), 1);
    let y = b.inner().get(&meta("A", "y")).unwrap();
    assert!(y.initialized());
    assert!(y.depends_on().is_empty());
    assert!(y.init_fn().call(&mut CallLog::new()).is_ok());
    assert!(y.destroy_fn().call(&mut CallLog::new()).is_ok());
    assert_eq!(held.deref().inits.load(Ordering::SeqCst), 1);
}

#[test]
fn the_order_of_construction_makes_no_difference() {
    let mut asked = AppContextBuilder::new();
    ask(&mut asked, "A", "x");
    let one = construct(construct(asked, "A", "x", 1), "A", "y", 2);
    let mut asked = AppContextBuilder::new();
    ask(&mut asked, "A", "x");
    let two = construct(construct(asked, "A", "y", 2), "A", "x", 1);
    let one: Built = one.build_all();
    let two: Built = two.build_all();
    for ctx in vec![one.unwrap(), two.unwrap()] {
        assert_eq!(seen(&ctx.acquire_bean(BeanType::named("A"), "x")), Some(1));
        assert_eq!(seen(&ctx.acquire_bean(BeanType::named("A"), "y")), Some(2));
    }
}

#[test]
fn a_context_is_built_once_every_bean_is_constructed() {
    let mut b = AppContextBuilder::new();
    ask(&mut b, "A", "x");
    ask(&mut b, "A", "y");
    let r: Result<(), BeanError> = b.check_init_finished();
    match r {
        Err(BeanError::NotInitialized(m)) => assert_eq!(m, meta("A", "x")),
        _ => panic!("finished"),
    }
    let b = construct(b, "A", "x", 0);
    assert_eq!(unfinished(b.build_without_init()), meta("A", "y"));

    let mut b = AppContextBuilder::new();
    ask(&mut b, "A", "y");
    let b = construct(b, "A", "x", 0);
    assert_eq!(unfinished(b.build_all()), meta("A", "y"));

    let mut b = AppContextBuilder::new();
    let early = ask(&mut b, "A", "y");
    let b = construct(b, "A", "y", 6);
    let r: Result<(), BeanError> = b.check_init_finished();
    assert!(r.is_ok());
    let ctx: Built = b.build_without_init();
    let ctx = ctx.unwrap();
    assert!(early.is_active());
    assert_eq!(seen(&early), Some(6));
    assert_eq!(seen(&ctx.try_acquire_bean(BeanType::named("A"), "y").unwrap()), Some(6));
}

#[test]
fn an_empty_context_can_be_built() {
    let ctx: Built = AppContextBuilder::new().build_all();
    let ctx = ctx.unwrap();
    assert!(ctx.is_last_clone());
    assert!(ctx.try_acquire_bean(BeanType::<u32>::named("A"), "x").is_none());
    assert!(ctx.acquire_beans_by_type(BeanType::<u32>::named("A")).is_empty());
    let ctx: Built = AppContextBuilder::new().build_non_async(&mut CallLog::new());
    assert_eq!(ctx.unwrap().inner().len(), 0);
}

#[test]
fn awaited_beans_are_refused_where_nothing_is_awaited() {
    let b = construct_async(construct(AppContextBuilder::new(), "A", "x", 1), "A", "d", 2);
    assert!(b.inner().get(&meta("A", "d")).unwrap().is_async());
    let r: Result<(), BeanError> = b.check_contains_async();
    match r {
        Err(BeanError::HasAsync(m)) => assert_eq!(m, meta("A", "d")),
        _ => panic!("no async bean"),
    }
    let built: Built = b.build_non_async(&mut CallLog::new());
    match built {
        Err(BeanError::HasAsync(m)) => assert_eq!(m, meta("A", "d")),
        _ => panic!("built"),
    }

    let b = construct(AppContextBuilder::new(), "A", "x", 1);
    let r: Result<(), BeanError> = b.check_contains_async();
    assert!(r.is_ok());

    let mut b = construct_async(AppContextBuilder::new(), "A", "d", 2);
    ask(&mut b, "A", "y");
    let built: Built = b.build_non_async(&mut CallLog::new());
    assert_eq!(unfinished(built), meta("A", "y"));
}

#[test]
fn beans_are_found_by_type_and_by_name() {
    let b = construct(AppContextBuilder::new(), "A", "x", 1);
    let b = construct(b, "B", "x", 2);
    let b = construct(b, "A", "y", 3);
    let ctx: Built = b.build_all();
    let ctx = ctx.unwrap();
    let all = |refs: Vec<BeanRef<u32>>| -> Vec<u32> { refs.iter().map(|r| seen(r).unwrap()).collect() };
    assert_eq!(all(ctx.acquire_beans_by_type(BeanType::named("A"))), vec![1, 3]);
    assert_eq!(all(ctx.acquire_beans_by_type(BeanType::named("B"))), vec![2]);
    assert_eq!(all(ctx.acquire_beans_by_type(BeanType::named("C"))), vec![]);
    assert_eq!(all(ctx.acquire_beans_by_name("x")), vec![1, 2]);
    assert_eq!(all(ctx.acquire_beans_by_name("z")), vec![]);
    let x = ctx.try_acquire_bean(BeanType::named("B"), "x");
    assert_eq!(seen(&x.unwrap()), Some(2));
    assert!(ctx.try_acquire_bean(BeanType::<u32>::named("B"), "y").is_none());
}

#[test]
fn a_wrapper_goes_from_empty_to_constructed() {
    let mut w = BeanWrapper::empty::<Counter>(meta("A", "x"));
    assert!(!w.initialized());
    assert_eq!(w.status(), BeanStatus::NotInit);
    let early = w.clone();
    assert!(!early.initialized());
    w.set_inner_sync::<Source, u32, (), Counter>(counter(5));
    let copy = w.clone();
    for w in vec![w, copy] {
        assert!(w.initialized());
        assert_eq!(w.status(), BeanStatus::PostConstruct);
        assert!(!w.is_async());
        assert_eq!(*w.meta(), meta("A", "x"));
        assert_eq!(*w.depends_on(), vec![meta("A", "y")]);
        assert_eq!(w.build_bean_ref::<Counter>().acquire(w.handle()).deref().number, 5);
    }
    assert!(!early.initialized());

    let mut w = BeanWrapper::empty::<bool>(meta("A", "d"));
    w.set_inner_async(true, awaited(6, 7));
    assert!(w.initialized());
    assert!(w.is_async());
    assert_eq!(*w.run_init_fn_async().get::<usize>(), 6);
    assert_eq!(*w.run_destroy_fn_async().get::<usize>(), 7);
    assert_eq!(*w.clone().run_init_fn_async().get::<usize>(), 6);
    assert_eq!(*w.depends_on(), vec![meta("A", "z")]);
    assert!(*w.build_bean_ref::<bool>().acquire(w.handle()).deref());
}

#[test]
fn a_bean_constructed_at_once_is_like_one_that_was_asked_for() {
    let mut asked = BeanWrapper::empty::<Counter>(meta("A", "x"));
    asked.set_inner_sync::<Source, u32, (), Counter>(counter(5));
    let at_once = BeanWrapper::sync_one::<Source, u32, (), Counter>(counter(5), meta("A", "x"));
    for w in vec![asked, at_once] {
        assert_eq!(w.status(), BeanStatus::PostConstruct);
        assert!(!w.is_async());
        assert_eq!(*w.meta(), meta("A", "x"));
        assert_eq!(*w.depends_on(), vec![meta("A", "y")]);
        let held = w.build_bean_ref::<Counter>().acquire(w.handle());
        assert_eq!(held.deref().number, 5);
        assert!(w.init_fn().call(&mut CallLog::new()).is_ok());
        assert_eq!(held.deref().inits.load(Ordering::SeqCst), 1);
    }
}

#[test]
fn each_function_of_a_bean_is_run_on_the_bean() {
    let mut w = BeanWrapper::sync_one::<Source, u32, (), Counter>(counter(5), meta("A", "x"));
    let held = w.build_bean_ref::<Counter>().acquire(w.handle());
    let mut log = CallLog::new();
    assert!(w.run_init_fn(&mut log).is_ok());
    assert_eq!(held.deref().inits.load(Ordering::SeqCst), 1);
    assert_eq!(w.status(), BeanStatus::Using);
    match w.run_destroy_fn(&mut log) {
        Err(BeanError::Custom(m, e)) => {
            assert_eq!(m, meta("A", "x"));
            assert_eq!(e.message(), fmt::Error.to_string());
        }
        _ => panic!("destroyed"),
    }
    assert_eq!(w.status(), BeanStatus::Using);

    let mut w = BeanWrapper::sync_one::<Source, u32, (), u32>(6, meta("A", "u"));
    assert!(w.run_destroy_fn(&mut log).is_ok());
    assert_eq!(w.status(), BeanStatus::Destroyed);
    assert_eq!(held.deref().inits.load(Ordering::SeqCst), 1);
}

#[test]
fn what_is_awaited_moves_the_status_when_it_is_done() {
    let mut w = BeanWrapper::async_one(5u32, meta("A", "x"), awaited(21, 22));
    assert_eq!(*w.run_init_fn_async().get::<usize>(), 21);
    match w.init_done(Err(BoxError::new(fmt::Error, fmt::Error.to_string()))) {
        Err(BeanError::Custom(m, _)) => assert_eq!(m, meta("A", "x")),
        _ => panic!("done"),
    }
    assert_eq!(w.status(), BeanStatus::PostConstruct);
    assert!(w.init_done(Ok(())).is_ok());
    assert_eq!(w.status(), BeanStatus::Using);
    assert_eq!(*w.run_destroy_fn_async().get::<usize>(), 22);
    match w.destroy_done(Err(BoxError::new(fmt::Error, fmt::Error.to_string()))) {
        Err(BeanError::Custom(m, _)) => assert_eq!(m, meta("A", "x")),
        _ => panic!("done"),
    }
    assert_eq!(w.status(), BeanStatus::Using);
    assert!(w.destroy_done(Ok(())).is_ok());
    assert_eq!(w.status(), BeanStatus::Destroyed);
}

#[test]
fn the_kind_of_a_function_is_told_in_words() {
    let w = BeanWrapper::sync_one::<Source, u32, (), Counter>(counter(5), meta("A", "x"));
    assert_eq!(CustomFnEnum::Sync(w.init_fn().clone()).describe(), "`sync fn`");
    assert_eq!(CustomFnEnum::Async(Erased::new(1)).clone().describe(), "`async fn`");
}
