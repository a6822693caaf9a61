//! Contexts whose beans are of many types.
use bean_context::bean_ref::{BeanRef, RefWrapper};
use bean_context::context::{AppContext, AppContextBuilder};
use bean_context::erased::Erased;
use bean_context::error::{BeanError, BoxError};
use bean_context::lifecycle::{AsyncSetup, BuildFromContext, CallLog};
use bean_context::metadata::{BeanMetadata, BeanPriority, BeanType, BeanTypeOf};
use std::collections::HashMap;
use std::error::Error;
use std::fmt;
use std::marker::PhantomData;
use std::sync::atomic::{AtomicUsize, Ordering};
use std::sync::{Arc, Mutex};

type Built = Result<AppContext, BeanError>;

#[derive(Debug)]
struct Failure(&'static str);

impl fmt::Display for Failure {
    fn fmt(&self, f: &mut fmt::Formatter<'_>) -> fmt::Result {
        f.write_str(self.0)
    }
}

impl Error for Failure {}

fn boxed<T: Error + Send + Sync + 'static>(e: T) -> BoxError {
    let text = e.to_string();
    BoxError::new(e, text)
}

/// A builder that beans can reach while they are being built.
struct Builder(Mutex<AppContextBuilder>);

impl Builder {
    fn new() -> Builder {
        Builder(Mutex::new(AppContextBuilder::new()))
    }

    fn acquire_bean_or_init<T: Send + Sync + 'static>(&self, ty: BeanType<T>, name: &'static str) -> BeanRef<T> {
        self.0.lock().unwrap().acquire_bean_or_init(ty, name)
    }

    fn construct_bean<T, E, F>(self, ty: BeanType<T>, name: &'static str, extras: E) -> Result<Builder, F>
    where
        T: Send + Sync + BuildFromContext<Builder, E, F> + 'static,
    {
        let built = T::build_from(&self, extras);
        let inner = self.into_inner().construct_bean::<Builder, E, F, T>(ty, name, built)?;
        Ok(Builder(Mutex::new(inner)))
    }

    fn construct_bean_async<T, F>(self, ty: BeanType<T>, name: &'static str, built: Result<T, F>) -> Result<Builder, F>
    where
        T: Send + Sync + 'static,
    {
        let setup = AsyncSetup {
            init: Erased::new(0),
            destroy: Erased::new(1),
            priority: BeanPriority::DependsOn(Vec::new()),
        };
        let inner = self.into_inner().construct_bean_async(ty, name, built, setup)?;
        Ok(Builder(Mutex::new(inner)))
    }

    fn into_inner(self) -> AppContextBuilder {
        self.0.into_inner().unwrap()
    }
}

/// A bean of a context, which is held by the context while it is acquired.
fn acquire<T: BeanTypeOf<T> + Send + Sync + 'static>(ctx: &AppContext, name: &'static str) -> RefWrapper<T> {
    let held = ctx.inner().get(&BeanMetadata::build_meta(&T::BEAN_TYPE, name)).unwrap();
    ctx.acquire_bean(T::BEAN_TYPE, name).acquire(held.handle())
}

fn resolve<T: Send + Sync + 'static>(r: &BeanRef<T>) -> RefWrapper<T> {
    r.try_acquire().ok().unwrap()
}

pub struct ServiceA {
    svc_b: BeanRef<ServiceB>,
    dao: BeanRef<DaoC>,
    dropped: Arc<AtomicUsize>,
}

impl ServiceA {
    pub fn check(&self) -> &'static str {
        "svc a is ready"
    }
}

impl Drop for ServiceA {
    fn drop(&mut self) {
        self.dropped.fetch_add(1, Ordering::SeqCst);
    }
}

impl BeanTypeOf<ServiceA> for ServiceA {
    const BEAN_TYPE: BeanType<ServiceA> = BeanType { bean_type: "ServiceA", marker: PhantomData };
}

impl BuildFromContext<Builder, Arc<AtomicUsize>, ()> for ServiceA {
    fn build_from(ctx: &Builder, extras: Arc<AtomicUsize>) -> Result<Self, ()> {
        Ok(ServiceA {
            svc_b: ctx.acquire_bean_or_init(ServiceB::BEAN_TYPE, "b"),
            dao: ctx.acquire_bean_or_init(DaoC::BEAN_TYPE, "c"),
            dropped: extras,
        })
    }
}

pub struct ServiceB {
    svc_a: BeanRef<ServiceA>,
    dao: BeanRef<DaoC>,
    config_val: u32,
}

impl ServiceB {
    pub fn check(&self) -> &'static str {
        "svc b is ready"
    }
}

impl BeanTypeOf<ServiceB> for ServiceB {
    const BEAN_TYPE: BeanType<ServiceB> = BeanType { bean_type: "ServiceB", marker: PhantomData };
}

impl BuildFromContext<Builder, u32, ()> for ServiceB {
    fn build_from(ctx: &Builder, extras: u32) -> Result<Self, ()> {
        Ok(ServiceB {
            svc_a: ctx.acquire_bean_or_init(ServiceA::BEAN_TYPE, "a"),
            dao: ctx.acquire_bean_or_init(DaoC::BEAN_TYPE, "c"),
            config_val: extras,
        })
    }

    fn init_self(&self) -> Result<(), BoxError> {
        Err(boxed(Failure("b cannot start")))
    }

    fn clean_self(&self) -> Result<(), BoxError> {
        Err(boxed(Failure("b cannot stop")))
    }

    fn priority() -> BeanPriority {
        BeanPriority::DependsOn(vec![BeanMetadata::build_meta(&DaoC::BEAN_TYPE, "c")])
    }
}

pub struct DaoC {
    inner_map: HashMap<String, String>,
}

impl DaoC {
    pub fn check(&self) -> &'static str {
        "dao c is ready"
    }
}

impl BeanTypeOf<DaoC> for DaoC {
    const BEAN_TYPE: BeanType<DaoC> = BeanType { bean_type: "DaoC", marker: PhantomData };
}

impl BuildFromContext<Builder, HashMap<String, String>, ()> for DaoC {
    fn build_from(_ctx: &Builder, extras: HashMap<String, String>) -> Result<Self, ()> {
        Ok(DaoC { inner_map: extras })
    }
}

pub struct DaoD {
    inner_vec: Vec<i32>,
}

impl DaoD {
    pub fn check(&self) -> &'static str {
        "dao d is ready"
    }
}

impl BeanTypeOf<DaoD> for DaoD {
    const BEAN_TYPE: BeanType<DaoD> = BeanType { bean_type: "DaoD", marker: PhantomData };
}

pub struct Broken;

impl BeanTypeOf<Broken> for Broken {
    const BEAN_TYPE: BeanType<Broken> = BeanType { bean_type: "Broken", marker: PhantomData };
}

impl BuildFromContext<Builder, u8, String> for Broken {
    fn build_from(ctx: &Builder, extras: u8) -> Result<Self, String> {
        let _ = ctx.acquire_bean_or_init(DaoC::BEAN_TYPE, "c");
        Err(format!("broken by {}", extras))
    }
}

#[test]
fn it_works() {
    let dropped = Arc::new(AtomicUsize::new(0));
    let svc_a = {
        //register beans with circular references
        let ctx: Built = Builder::new()
            .construct_bean(ServiceA::BEAN_TYPE, "a", dropped.clone())
            .unwrap()
            .construct_bean(ServiceB::BEAN_TYPE, "b", 32)
            .unwrap()
            .construct_bean(DaoC::BEAN_TYPE, "c", HashMap::new())
            .unwrap()
            .construct_bean_async(DaoD::BEAN_TYPE, "d", Ok::<DaoD, String>(DaoD { inner_vec: Vec::with_capacity(5) }))
            .unwrap()
            .into_inner()
            .build_all();
        let ctx = ctx.unwrap();

        //test each bean
        let svc_a = ctx.acquire_bean(ServiceA::BEAN_TYPE, "a");
        let a = acquire::<ServiceA>(&ctx, "a");
        assert_eq!(a.deref().check(), "svc a is ready");

        let b = acquire::<ServiceB>(&ctx, "b");
        assert_eq!(b.deref().check(), "svc b is ready");
        assert_eq!(b.deref().config_val, 32);

        let c = acquire::<DaoC>(&ctx, "c");
        assert_eq!(c.deref().check(), "dao c is ready");

        let d = acquire::<DaoD>(&ctx, "d");
        assert_eq!(d.deref().check(), "dao d is ready");
        assert!(d.deref().inner_vec.capacity() >= 5);

        //the beans reach one another through the references they were built with
        let b_of_a = resolve(&a.deref().svc_b);
        assert_eq!(b_of_a.deref().config_val, 32);
        let a_of_b = resolve(&b.deref().svc_a);
        assert_eq!(a_of_b.deref().check(), "svc a is ready");
        assert!(resolve(&a.deref().dao).deref().inner_map.is_empty());
        assert!(b.deref().dao.is_active());

        assert!(ctx.is_last_clone());
        assert!(svc_a.is_active());
        assert_eq!(dropped.load(Ordering::SeqCst), 0);
        //finally, all beans should be dropped

        svc_a
    };
    //if the app context is dropped, all beans become invalid
    assert!(!svc_a.is_active());
    assert_eq!(dropped.load(Ordering::SeqCst), 1);

    //there will be an error if some beans are not set
    let ctx: Built = Builder::new()
        .construct_bean(ServiceA::BEAN_TYPE, "a", dropped.clone())
        .unwrap()
        .into_inner()
        .build_without_init();
    assert!(ctx.is_err());
}

#[test]
fn acquiring_from_a_dropped_context_is_an_error() {
    let builder = Builder::new();
    let dao = builder.acquire_bean_or_init(DaoC::BEAN_TYPE, "c");
    assert!(dao.try_acquire().is_ok());
    drop(builder);
    let e = dao.try_acquire().err().unwrap();
    assert_eq!(e.message(), "application context is dropped, all related beans are dropped too");
}

#[test]
fn a_bean_in_use_outlives_its_context() {
    let builder = Builder::new().construct_bean(DaoC::BEAN_TYPE, "c", HashMap::new()).unwrap();
    let ctx: Built = builder.into_inner().build_all();
    let ctx = ctx.unwrap();
    let weak = ctx.acquire_bean(DaoC::BEAN_TYPE, "c");
    let dao = acquire::<DaoC>(&ctx, "c");
    drop(ctx);
    assert!(weak.is_active());
    assert_eq!(dao.get().unwrap().check(), "dao c is ready");
    drop(dao);
    assert!(!weak.is_active());
}

#[test]
fn a_reference_from_before_construction_reaches_the_bean() {
    let builder = Builder::new();
    let early = builder.acquire_bean_or_init(DaoC::BEAN_TYPE, "c");
    assert!(resolve(&early).get().is_none());
    let mut extras = HashMap::new();
    extras.insert(String::from("k"), String::from("v"));
    let builder = builder.construct_bean(DaoC::BEAN_TYPE, "c", extras).unwrap();
    assert_eq!(resolve(&early).get().unwrap().inner_map["k"], "v");
    let again = builder.acquire_bean_or_init(DaoC::BEAN_TYPE, "c");
    assert_eq!(resolve(&again).deref().inner_map["k"], "v");
    assert_eq!(builder.into_inner().inner().len(), 1);
}

#[test]
fn a_cell_is_empty_until_the_bean_is_constructed() {
    let builder = Builder::new();
    let early = builder.acquire_bean_or_init(DaoD::BEAN_TYPE, "d");
    let wrapper = resolve(&early);
    assert!(wrapper.get().is_none());
    let builder = builder
        .construct_bean_async(DaoD::BEAN_TYPE, "d", Ok::<DaoD, String>(DaoD { inner_vec: vec![7] }))
        .unwrap();
    assert_eq!(wrapper.get().unwrap().inner_vec, vec![7]);
    assert_eq!(wrapper.deref().inner_vec, vec![7]);
    let inner = builder.into_inner();
    let d = inner.inner().at(0);
    assert!(d.is_async());
    assert_eq!(early.acquire(d.handle()).deref().inner_vec, vec![7]);
    assert_eq!(resolve(&d.build_bean_ref::<DaoD>()).deref().inner_vec, vec![7]);
}

#[test]
fn names_keep_beans_apart() {
    let builder = Builder::new();
    let one = builder.acquire_bean_or_init(DaoD::BEAN_TYPE, "one");
    let two = builder.acquire_bean_or_init(DaoD::BEAN_TYPE, "two");
    let builder = builder
        .construct_bean_async(DaoD::BEAN_TYPE, "one", Ok::<DaoD, String>(DaoD { inner_vec: vec![1] }))
        .unwrap();
    assert_eq!(resolve(&one).get().unwrap().inner_vec, vec![1]);
    assert!(resolve(&two).get().is_none());
    let built: Built = builder.into_inner().build_without_init();
    match built {
        Err(BeanError::NotInitialized(m)) => assert_eq!(m, BeanMetadata::build_meta(&DaoD::BEAN_TYPE, "two")),
        _ => panic!("built"),
    }
    assert!(!one.is_active());
}

#[test]
fn a_bean_that_cannot_be_built_is_reported() {
    let r = Builder::new().construct_bean(Broken::BEAN_TYPE, "x", 9);
    assert_eq!(r.err(), Some(String::from("broken by 9")));
    let r = Builder::new().construct_bean_async(DaoD::BEAN_TYPE, "d", Err(String::from("no d")));
    assert_eq!(r.err(), Some(String::from("no d")));
}

#[test]
fn a_clone_shares_the_beans() {
    let builder = Builder::new().construct_bean(DaoC::BEAN_TYPE, "c", HashMap::new()).unwrap();
    let ctx: Built = builder.into_inner().build_all();
    let ctx = ctx.unwrap();
    let other = ctx.clone();
    assert!(!ctx.is_last_clone());
    assert!(!other.is_last_clone());
    let weak = other.acquire_bean(DaoC::BEAN_TYPE, "c");
    drop(other);
    assert!(ctx.is_last_clone());
    assert!(weak.is_active());
}

#[test]
fn the_hooks_of_a_bean_are_reported_with_its_metadata() {
    let mut builder = Builder::new().construct_bean(ServiceB::BEAN_TYPE, "b", 1).unwrap().into_inner();
    let meta = BeanMetadata::build_meta(&ServiceB::BEAN_TYPE, "b");
    let wrapper = builder.inner_mut().get_mut(&meta).unwrap();
    let mut log = CallLog::new();
    assert_eq!(wrapper.init_fn().clone().call(&mut log).err().unwrap().message(), "b cannot start");
    assert_eq!(wrapper.destroy_fn().call(&mut log).err().unwrap().message(), "b cannot stop");
    match wrapper.run_init_fn(&mut log) {
        Err(BeanError::Custom(m, e)) => {
            assert_eq!(m, meta);
            assert_eq!(e.message(), "b cannot start");
        }
        other => panic!("unexpected {:?}", other),
    }
    match wrapper.run_destroy_fn(&mut log) {
        Err(BeanError::Custom(m, e)) => {
            assert_eq!(m, meta);
            assert_eq!(e.message(), "b cannot stop");
        }
        other => panic!("unexpected {:?}", other),
    }
    assert_eq!(*wrapper.depends_on(), vec![BeanMetadata::build_meta(&DaoC::BEAN_TYPE, "c")]);
    assert!(builder.inner_mut().get_mut(&BeanMetadata::build_meta(&ServiceB::BEAN_TYPE, "c")).is_none());
}

#[test]
fn a_bean_does_nothing_by_default() {
    let c = DaoC { inner_map: HashMap::new() };
    assert!(c.init_self().is_ok());
    assert!(c.clean_self().is_ok());
    let BeanPriority::DependsOn(deps) = DaoC::priority();
    assert!(deps.is_empty());
    let builder = Builder::new().construct_bean(DaoC::BEAN_TYPE, "c", HashMap::new()).unwrap().into_inner();
    let wrapper = builder.inner().at(0);
    assert!(wrapper.init_fn().call(&mut CallLog::new()).is_ok());
    assert!(wrapper.destroy_fn().call(&mut CallLog::new()).is_ok());
    assert!(wrapper.depends_on().is_empty());
}
