//! One registered bean and what is known about it.
use crate::bean_ref::{filled, paired, refers, typed, BeanRef, BeanWriter, Handle};
use crate::cells::{
    deps_get, deps_held, deps_new, deps_set, deps_with_value, flag_get, flag_held, flag_new, flag_set,
    flag_with_value, hook_get, hook_held, hook_new, hook_set, hook_with_value, status_held, status_load,
    status_new, status_swap, DepsCell, FlagCell, HookCell,
};
use crate::error::{BeanError, BoxError};
use crate::lifecycle::{
    AsyncSetup, BuildFromContext, Call, CallLog, CustomFn, CustomFnAsync, SyncSetup,
};
use crate::metadata::{meta_views, BeanMetadata, BeanPriority, MetaView};
use crossbeam::atomic::AtomicCell;
use vstd::pervasive::unreached;
use vstd::prelude::*;

verus! {

/// status of a bean.
/// a bean without construction is `NotInit`,
/// after initialization, it becomes `PostConstruct`,
/// after running of `PostConstruct`, it becomes `Using`,
/// after running of `PreDestroy`, it becomes `Destroyed`
/// after dropping of the bean, it becomes `Inactive`
#[derive(Clone, Copy, Eq, PartialEq, Debug, Structural)]
pub enum BeanStatus {
    NotInit,
    PostConstruct,
    Using,
    Destroyed,
    Inactive,
}

/// A function to run on a bean.
pub enum CustomFnEnum {
    Sync(CustomFn),
    Async(CustomFnAsync),
}

impl CustomFnEnum {
    /// Which of the two kinds of functions it is, in words.
    pub fn describe(&self) -> (text: &'static str)
        ensures
            text@ == match self {
                CustomFnEnum::Sync(_) => "`sync fn`"@,
                CustomFnEnum::Async(_) => "`async fn`"@,
            },
    {
        match self {
            CustomFnEnum::Sync(_) => "`sync fn`",
            CustomFnEnum::Async(_) => "`async fn`",
        }
    }
}

impl Clone for CustomFnEnum {
    fn clone(&self) -> (copy: Self)
        ensures
            copy == *self,
    {
        match self {
            CustomFnEnum::Sync(f) => CustomFnEnum::Sync(f.clone()),
            CustomFnEnum::Async(f) => CustomFnEnum::Async(f.clone()),
        }
    }
}

/// What is known about one bean.
#[verifier::ext_equal]
pub struct BeanView {
    /// Keeps the cell of the bean.
    pub bean: Handle,
    /// The right to put the bean into its cell, as long as that is not done.
    pub writer: Option<BeanWriter>,
    pub status: BeanStatus,
    pub meta: MetaView,
    pub is_async: Option<bool>,
    pub init_fn: Option<CustomFnEnum>,
    pub destroy_fn: Option<CustomFnEnum>,
    pub depends_on: Option<Seq<MetaView>>,
}

impl BeanView {
    /// A bean that was asked for and not constructed yet.
    pub open spec fn blank(bean: Handle, writer: BeanWriter, meta: MetaView) -> BeanView {
        BeanView {
            bean,
            writer: Some(writer),
            status: BeanStatus::NotInit,
            meta,
            is_async: None,
            init_fn: None,
            destroy_fn: None,
            depends_on: None,
        }
    }

    /// A bean that was constructed in one go.
    pub open spec fn of_sync(bean: Handle, meta: MetaView, setup: SyncSetup) -> BeanView {
        BeanView {
            bean,
            writer: None,
            status: BeanStatus::PostConstruct,
            meta,
            is_async: Some(false),
            init_fn: Some(CustomFnEnum::Sync(setup.init)),
            destroy_fn: Some(CustomFnEnum::Sync(setup.destroy)),
            depends_on: Some(setup.priority@),
        }
    }

    /// A bean whose construction was awaited.
    pub open spec fn of_async(bean: Handle, meta: MetaView, setup: AsyncSetup) -> BeanView {
        BeanView {
            bean,
            writer: None,
            status: BeanStatus::PostConstruct,
            meta,
            is_async: Some(true),
            init_fn: Some(CustomFnEnum::Async(setup.init)),
            destroy_fn: Some(CustomFnEnum::Async(setup.destroy)),
            depends_on: Some(setup.priority@),
        }
    }

    /// A bean of type `T` that was constructed in one go and is known with what it brings
    /// along.
    pub open spec fn constructed_as<C, E, F, T: BuildFromContext<C, E, F> + Send + Sync + 'static>(
        self,
    ) -> bool {
        exists|setup: SyncSetup|
            {
                &&& #[trigger] setup.brought_by::<C, E, F, T>(self.bean)
                &&& self == BeanView::of_sync(self.bean, self.meta, setup)
            }
    }

    pub open spec fn initialized(self) -> bool {
        self.status != BeanStatus::NotInit
    }

    /// The bean after its initialization was tried: a success takes it into use.
    pub open spec fn after_init(self, done: bool) -> BeanView {
        BeanView {
            status: if done {
                BeanStatus::Using
            } else {
                self.status
            },
            ..self
        }
    }

    /// The bean after its finalization was tried: a success makes it destroyed.
    pub open spec fn after_destroy(self, done: bool) -> BeanView {
        BeanView {
            status: if done {
                BeanStatus::Destroyed
            } else {
                self.status
            },
            ..self
        }
    }

    /// The bean can still be put into its cell, as a bean of type `T`.
    pub open spec fn reserved<T: Send + Sync + 'static>(self) -> bool {
        self.writer matches Some(writer) && paired::<T>(writer, self.bean)
    }

    /// The function that initializes the bean, where it is not to be awaited.
    pub open spec fn init_hook(self) -> CustomFn {
        self.init_fn->0->Sync_0
    }

    /// The same bean, whatever its status.
    pub open spec fn same_bean(self, other: BeanView) -> bool {
        self == (BeanView { status: self.status, ..other })
    }

    /// Nothing has been recorded of the bean.
    pub open spec fn unset(self) -> bool {
        &&& self.is_async is None
        &&& self.init_fn is None
        &&& self.destroy_fn is None
        &&& self.depends_on is None
    }

    /// Either nothing is known about the bean but its name, and it can still be put into
    /// its cell, or everything is, and its two functions are of the kind that the bean is
    /// of.
    pub open spec fn wf(self) -> bool {
        if self.initialized() {
            &&& self.depends_on is Some
            &&& self.is_async matches Some(is_async)
            &&& self.init_fn matches Some(init_fn)
            &&& self.destroy_fn matches Some(destroy_fn)
            &&& is_async == (init_fn is Async)
            &&& is_async == (destroy_fn is Async)
        } else {
            self.unset() && self.writer is Some
        }
    }
}

/// the bean with its helper data
pub struct BeanWrapper {
    bean: Handle,
    writer: Option<BeanWriter>,
    status: AtomicCell<BeanStatus>,
    meta: BeanMetadata,
    is_async: FlagCell,
    init_fn: HookCell,
    destroy_fn: HookCell,
    depends_on: DepsCell,
}

impl View for BeanWrapper {
    type V = BeanView;

    closed spec fn view(&self) -> BeanView {
        BeanView {
            bean: self.bean,
            writer: self.writer,
            status: status_held(self.status),
            meta: self.meta@,
            is_async: flag_held(self.is_async),
            init_fn: hook_held(self.init_fn),
            destroy_fn: hook_held(self.destroy_fn),
            depends_on: match deps_held(self.depends_on) {
                Some(metas) => Some(meta_views(metas)),
                None => None,
            },
        }
    }
}

/// A copy of a cell for a flag.
fn flag_clone(cell: &FlagCell) -> (copy: FlagCell)
    ensures
        flag_held(copy) == flag_held(*cell),
{
    match flag_get(cell) {
        Some(value) => flag_with_value(*value),
        None => flag_new(),
    }
}

/// A copy of a cell for a custom function.
fn hook_clone(cell: &HookCell) -> (copy: HookCell)
    ensures
        hook_held(copy) == hook_held(*cell),
{
    match hook_get(cell) {
        Some(value) => hook_with_value(value.clone()),
        None => hook_new(),
    }
}

/// A copy of a list of metadata.
pub(crate) fn metas_clone(metas: &Vec<BeanMetadata>) -> (copy: Vec<BeanMetadata>)
    ensures
        copy@ == metas@,
{
    let mut copy: Vec<BeanMetadata> = Vec::new();
    for i in 0..metas.len()
        invariant
            copy@ == metas@.take(i as int),
    {
        copy.push(metas[i]);
    }
    copy
}

/// A copy of a cell for a list of dependencies.
fn deps_clone(cell: &DepsCell) -> (copy: DepsCell)
    ensures
        deps_held(copy) == deps_held(*cell),
{
    match deps_get(cell) {
        Some(value) => deps_with_value(metas_clone(value)),
        None => deps_new(),
    }
}

impl Clone for BeanWrapper {
    /// A wrapper of its own around the same cell. The bean is still put into the cell
    /// through the wrapper that it was asked for with.
    fn clone(&self) -> (copy: Self)
        ensures
            copy@ == (BeanView { writer: None, ..self@ }),
    {
        BeanWrapper {
            bean: self.bean.clone(),
            writer: None,
            status: status_new(status_load(&self.status)),
            meta: self.meta,
            is_async: flag_clone(&self.is_async),
            init_fn: hook_clone(&self.init_fn),
            destroy_fn: hook_clone(&self.destroy_fn),
            depends_on: deps_clone(&self.depends_on),
        }
    }
}

impl BeanWrapper {
    /// A bean of type `T` that was asked for and not constructed yet.
    pub fn empty<T: Send + Sync + 'static>(meta: BeanMetadata) -> (wrapper: Self)
        ensures
            exists|bean: Handle, writer: BeanWriter|
                {
                    &&& #[trigger] paired::<T>(writer, bean)
                    &&& wrapper@ == BeanView::blank(bean, writer, meta@)
                },
            wrapper@.reserved::<T>(),
            wrapper@.wf(),
    {
        let (writer, bean) = Handle::reserve::<T>();
        let ghost made = (writer, bean);
        let wrapper = BeanWrapper {
            status: status_new(BeanStatus::NotInit),
            bean,
            writer: Some(writer),
            meta,
            is_async: flag_new(),
            init_fn: hook_new(),
            destroy_fn: hook_new(),
            depends_on: deps_new(),
        };
        proof {
            assert(wrapper@ == BeanView::blank(made.1, made.0, meta@));
        }
        wrapper
    }

    /// A bean that was constructed in one go.
    pub fn sync_one<C, E, F, T: BuildFromContext<C, E, F> + Send + Sync + 'static>(bean: T, meta: BeanMetadata) -> (wrapper: Self)
        ensures
            wrapper@.constructed_as::<C, E, F, T>(),
            wrapper@.meta == meta@,
            filled(wrapper@.bean, bean),
            wrapper@.wf(),
    {
        let (writer, handle) = Handle::reserve::<T>();
        writer.put(bean);
        let setup = SyncSetup::of::<C, E, F, T>(&handle);
        let ghost brought = setup;
        let BeanPriority::DependsOn(metas) = setup.priority;
        let wrapper = BeanWrapper {
            status: status_new(BeanStatus::PostConstruct),
            bean: handle,
            writer: None,
            meta,
            is_async: flag_with_value(false),
            init_fn: hook_with_value(CustomFnEnum::Sync(setup.init)),
            destroy_fn: hook_with_value(CustomFnEnum::Sync(setup.destroy)),
            depends_on: deps_with_value(metas),
        };
        assert(brought.brought_by::<C, E, F, T>(wrapper@.bean));
        wrapper
    }

    /// A bean whose construction was awaited.
    pub fn async_one<T: Send + Sync + 'static>(bean: T, meta: BeanMetadata, setup: AsyncSetup) -> (wrapper: Self)
        ensures
            wrapper@ == BeanView::of_async(wrapper@.bean, meta@, setup),
            filled(wrapper@.bean, bean),
            wrapper@.wf(),
    {
        let (writer, handle) = Handle::reserve::<T>();
        writer.put(bean);
        let BeanPriority::DependsOn(metas) = setup.priority;
        BeanWrapper {
            status: status_new(BeanStatus::PostConstruct),
            bean: handle,
            writer: None,
            meta,
            is_async: flag_with_value(true),
            init_fn: hook_with_value(CustomFnEnum::Async(setup.init)),
            destroy_fn: hook_with_value(CustomFnEnum::Async(setup.destroy)),
            depends_on: deps_with_value(metas),
        }
    }

    /// The status of the bean.
    pub fn status(&self) -> (status: BeanStatus)
        ensures
            status == self@.status,
    {
        status_load(&self.status)
    }

    /// Whether the bean has been constructed.
    pub fn initialized(&self) -> (r: bool)
        ensures
            r == self@.initialized(),
    {
        self.status() != BeanStatus::NotInit
    }

    /// build `BeanRef` from inner arc
    pub fn build_bean_ref<T: Send + Sync + 'static>(&self) -> (r: BeanRef<T>)
        requires
            typed::<T>(self@.bean),
        ensures
            refers(r.weak(), self@.bean),
    {
        BeanRef::to(&self.bean)
    }

    /// What keeps the cell of the bean.
    pub fn handle(&self) -> (handle: &Handle)
        ensures
            *handle == self@.bean,
    {
        &self.bean
    }

    /// What identifies the bean.
    pub fn meta(&self) -> (meta: &BeanMetadata)
        ensures
            meta@ == self@.meta,
    {
        &self.meta
    }

    /// Puts a bean that was constructed in one go into its cell, and records what it brings
    /// along.
    pub fn set_inner_sync<C, E, F, T: BuildFromContext<C, E, F> + Send + Sync + 'static>(&mut self, bean: T)
        requires
            old(self)@.unset(),
            old(self)@.reserved::<T>(),
        ensures
            final(self)@.constructed_as::<C, E, F, T>(),
            final(self)@.bean == old(self)@.bean,
            final(self)@.meta == old(self)@.meta,
            filled(old(self)@.bean, bean),
            final(self)@.wf(),
    {
        let writer = self.writer.take().unwrap();
        writer.put(bean);
        let setup = SyncSetup::of::<C, E, F, T>(&self.bean);
        let ghost brought = setup;
        let BeanPriority::DependsOn(metas) = setup.priority;
        let _ = hook_set(&mut self.init_fn, CustomFnEnum::Sync(setup.init));
        let _ = hook_set(&mut self.destroy_fn, CustomFnEnum::Sync(setup.destroy));
        let _ = deps_set(&mut self.depends_on, metas);
        let _ = flag_set(&mut self.is_async, false);
        let _ = status_swap(&mut self.status, BeanStatus::PostConstruct);
        proof {
            assert(brought.brought_by::<C, E, F, T>(self@.bean));
            assert(self@ == BeanView::of_sync(self@.bean, self@.meta, brought));
        }
    }

    /// Puts a bean whose construction was awaited into its cell, and records what it brings
    /// along.
    pub fn set_inner_async<T: Send + Sync + 'static>(&mut self, bean: T, setup: AsyncSetup)
        requires
            old(self)@.unset(),
            old(self)@.reserved::<T>(),
        ensures
            final(self)@ == BeanView::of_async(old(self)@.bean, old(self)@.meta, setup),
            filled(old(self)@.bean, bean),
            final(self)@.wf(),
    {
        let writer = self.writer.take().unwrap();
        writer.put(bean);
        let ghost brought = setup;
        let BeanPriority::DependsOn(metas) = setup.priority;
        let _ = hook_set(&mut self.init_fn, CustomFnEnum::Async(setup.init));
        let _ = hook_set(&mut self.destroy_fn, CustomFnEnum::Async(setup.destroy));
        let _ = deps_set(&mut self.depends_on, metas);
        let _ = flag_set(&mut self.is_async, true);
        let _ = status_swap(&mut self.status, BeanStatus::PostConstruct);
        assert(self@ == BeanView::of_async(old(self)@.bean, old(self)@.meta, brought));
    }

    /// Whether the construction of the bean was awaited.
    pub fn is_async(&self) -> (r: bool)
        requires
            self@.is_async is Some,
        ensures
            self@.is_async == Some(r),
    {
        match flag_get(&self.is_async) {
            Some(r) => *r,
            None => unreached(),
        }
    }

    /// What the bean depends on.
    pub fn depends_on(&self) -> (metas: &Vec<BeanMetadata>)
        requires
            self@.depends_on is Some,
        ensures
            self@.depends_on == Some(meta_views(metas@)),
    {
        deps_get(&self.depends_on).unwrap()
    }

    /// Runs the function that initializes the bean.
    pub fn run_init_fn(&mut self, log: &mut CallLog) -> (r: Result<(), BeanError>)
        requires
            old(self)@.wf(),
            old(self)@.init_fn matches Some(CustomFnEnum::Sync(_)),
        ensures
            called(old(log)@, final(log)@, old(self)@.init_hook(), old(self)@.meta, r),
            final(self)@ == old(self)@.after_init(r is Ok),
            final(self)@.wf(),
    {
        let outcome = self.init_fn().call(log);
        let ghost came = outcome;
        let r = self.init_done(outcome);
        assert(reported(old(self)@.meta, came, r));
        r
    }

    /// The function that initializes the bean.
    pub fn init_fn(&self) -> (f: &CustomFn)
        requires
            self@.init_fn matches Some(CustomFnEnum::Sync(_)),
        ensures
            self@.init_fn == Some(CustomFnEnum::Sync(*f)),
    {
        match hook_get(&self.init_fn).unwrap() {
            CustomFnEnum::Sync(f) => f,
            CustomFnEnum::Async(_) => unreached(),
        }
    }

    /// The function that initializes the bean,
    /// which is to be awaited. `init_done` takes what comes of it.
    pub fn run_init_fn_async(&self) -> (f: &CustomFnAsync)
        requires
            self@.init_fn matches Some(CustomFnEnum::Async(_)),
        ensures
            self@.init_fn == Some(CustomFnEnum::Async(*f)),
    {
        match hook_get(&self.init_fn).unwrap() {
            CustomFnEnum::Async(f) => f,
            CustomFnEnum::Sync(_) => unreached(),
        }
    }

    /// Takes what the function that initializes the bean came to.
    /// After a success the bean is `Using`.
    pub fn init_done(&mut self, outcome: Result<(), BoxError>) -> (r: Result<(), BeanError>)
        requires
            old(self)@.wf(),
            old(self)@.initialized(),
        ensures
            reported(old(self)@.meta, outcome, r),
            final(self)@ == old(self)@.after_init(outcome is Ok),
            final(self)@.wf(),
    {
        let r = self.hook_done(outcome);
        if r.is_ok() {
            let _ = status_swap(&mut self.status, BeanStatus::Using);
        }
        assert(self@ == old(self)@.after_init(outcome is Ok));
        r
    }

    /// Runs the function that finalizes the bean before its destruction.
    pub fn run_destroy_fn(&mut self, log: &mut CallLog) -> (r: Result<(), BeanError>)
        requires
            old(self)@.wf(),
            old(self)@.destroy_fn matches Some(CustomFnEnum::Sync(_)),
        ensures
            called(old(log)@, final(log)@, old(self)@.destroy_fn->0->Sync_0, old(self)@.meta, r),
            final(self)@ == old(self)@.after_destroy(r is Ok),
            final(self)@.wf(),
    {
        let outcome = self.destroy_fn().call(log);
        let ghost came = outcome;
        let r = self.destroy_done(outcome);
        assert(reported(old(self)@.meta, came, r));
        r
    }

    /// The function that finalizes the bean before its destruction.
    pub fn destroy_fn(&self) -> (f: &CustomFn)
        requires
            self@.destroy_fn matches Some(CustomFnEnum::Sync(_)),
        ensures
            self@.destroy_fn == Some(CustomFnEnum::Sync(*f)),
    {
        match hook_get(&self.destroy_fn).unwrap() {
            CustomFnEnum::Sync(f) => f,
            CustomFnEnum::Async(_) => unreached(),
        }
    }

    /// The function that finalizes the bean before its destruction,
    /// which is to be awaited. `destroy_done` takes what comes of it.
    pub fn run_destroy_fn_async(&self) -> (f: &CustomFnAsync)
        requires
            self@.destroy_fn matches Some(CustomFnEnum::Async(_)),
        ensures
            self@.destroy_fn == Some(CustomFnEnum::Async(*f)),
    {
        match hook_get(&self.destroy_fn).unwrap() {
            CustomFnEnum::Async(f) => f,
            CustomFnEnum::Sync(_) => unreached(),
        }
    }

    /// Takes what the function that finalizes the bean before its destruction came to.
    /// After a success the bean is `Destroyed`.
    pub fn destroy_done(&mut self, outcome: Result<(), BoxError>) -> (r: Result<(), BeanError>)
        requires
            old(self)@.wf(),
            old(self)@.initialized(),
        ensures
            reported(old(self)@.meta, outcome, r),
            final(self)@ == old(self)@.after_destroy(outcome is Ok),
            final(self)@.wf(),
    {
        let r = self.hook_done(outcome);
        if r.is_ok() {
            let _ = status_swap(&mut self.status, BeanStatus::Destroyed);
        }
        assert(self@ == old(self)@.after_destroy(outcome is Ok));
        r
    }

    /// What a function of the bean came to, as an error of the container: a failure
    /// is reported together with the bean that it came from.
    fn hook_done(&self, outcome: Result<(), BoxError>) -> (r: Result<(), BeanError>)
        ensures
            reported(self@.meta, outcome, r),
    {
        match outcome {
            Ok(_) => Ok(()),
            Err(e) => Err(BeanError::Custom(self.meta, e)),
        }
    }
}

/// `r` reports `outcome` of a function of the bean `meta`.
pub open spec fn reported(
    meta: MetaView,
    outcome: Result<(), BoxError>,
    r: Result<(), BeanError>,
) -> bool {
    match outcome {
        Ok(_) => r is Ok,
        Err(e) => r matches Err(BeanError::Custom(m, x)) && m@ == meta && x == e,
    }
}

/// The function `f` of the bean `meta` was called once, and `r` reports what came of it.
/// `before` and `after` are the calls on record.
pub open spec fn called(
    before: Seq<Call>,
    after: Seq<Call>,
    f: CustomFn,
    meta: MetaView,
    r: Result<(), BeanError>,
) -> bool {
    exists|outcome: Result<(), BoxError>|
        {
            &&& after == before.push(Call { f, r: outcome })
            &&& f.gave(outcome)
            &&& #[trigger] reported(meta, outcome, r)
        }
}

} // verus!
