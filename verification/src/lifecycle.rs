//! What a bean brings along: how it is built, and what it does after all beans have
//! been built and before they are destroyed.
use crate::bean_ref::{bean_in, filled, BeanRef, Handle};
use crate::erased::Erased;
use crate::error::BoxError;
use crate::metadata::{BeanPriority, MetaView};
pub use crate::record::{Call, CallLog};
use std::sync::Arc;
use vstd::prelude::*;

verus! {

/// A trait for beans which can be created from a context that is being built.
/// `ctx` is for acquiring lazy-initialized beans,
/// and `extras` are extra params for this build.
pub trait BuildFromContext<C, E, CtxErr = ()> {
    /// build the beans from
    fn build_from(ctx: &C, extras: E) -> Result<Self, CtxErr> where Self: Sized;

    /// initialization method after all beans have been built.
    /// because of potential cyclic invocations during the initialization, only
    /// immutable references are allowed
    fn init_self(&self) -> (r: Result<(), BoxError>)
        default_ensures
            r is Ok,
    {
        Ok(())
    }

    /// finalize method before beans' destruction.
    /// this function is not called by itself when a context is dropped
    fn clean_self(&self) -> (r: Result<(), BoxError>)
        default_ensures
            r is Ok,
    {
        Ok(())
    }

    /// the priority of the this bean.
    /// default is empty
    fn priority() -> (r: BeanPriority)
        default_ensures
            r@ == Seq::<MetaView>::empty(),
    {
        BeanPriority::DependsOn(Vec::new())
    }
}

/// The bean that is nothing more than there.
impl BuildFromContext<(), (), ()> for () {
    fn build_from(_ctx: &(), _extras: ()) -> (r: Result<Self, ()>)
        ensures
            r is Ok,
    {
        Ok(())
    }
}

/// Initializes the bean that `handle` keeps.
fn run_init_self<C, E, F, T: BuildFromContext<C, E, F> + Send + Sync + 'static>(handle: &Handle) -> (r: Result<
    (),
    BoxError,
>)
    requires
        exists|bean: T| filled(*handle, bean),
    ensures
        forall|bean: T| #[trigger] filled(*handle, bean) ==> call_ensures(T::init_self, (&bean,), r),
{
    let held = BeanRef::<T>::to(handle).acquire(handle);
    assert forall|bean: T| #[trigger] filled(*handle, bean) implies bean_in(held.cell(), bean) by {}
    held.deref().init_self()
}

/// Finalizes the bean that `handle` keeps, before its destruction.
fn run_clean_self<C, E, F, T: BuildFromContext<C, E, F> + Send + Sync + 'static>(handle: &Handle) -> (r: Result<
    (),
    BoxError,
>)
    requires
        exists|bean: T| filled(*handle, bean),
    ensures
        forall|bean: T| #[trigger] filled(*handle, bean) ==> call_ensures(T::clean_self, (&bean,), r),
{
    let held = BeanRef::<T>::to(handle).acquire(handle);
    assert forall|bean: T| #[trigger] filled(*handle, bean) implies bean_in(held.cell(), bean) by {}
    held.deref().clean_self()
}

/// A function of a bean, shared.
#[verifier::external_body]
pub struct CustomFn {
    f: Arc<dyn Fn() -> Result<(), BoxError> + Send + Sync>,
}

/// Calls a shared closure, with what it was made for. `_log` is the record that the caller
/// puts the call on.
#[verifier::external_body]
fn custom_fn_call(f: &CustomFn, _log: &CallLog) -> (r: Result<(), BoxError>) {
    (f.f)()
}

/// `Arc::clone`: the copy is the same function.
#[verifier::external_body]
fn custom_fn_clone(f: &CustomFn) -> (copy: CustomFn)
    ensures
        copy == *f,
{
    CustomFn { f: f.f.clone() }
}

/// `Arc::new` on a closure that initializes the bean that `handle` keeps: what calling it gives
/// is what the bean's own `init_self` gives.
#[verifier::external_body]
fn init_fn_new<C, E, F, T: BuildFromContext<C, E, F> + Send + Sync + 'static>(handle: Handle) -> (f: CustomFn)
    requires
        exists|bean: T| filled(handle, bean),
    ensures
        forall|r: Result<(), BoxError>, bean: T|
            f.gave(r) && filled(handle, bean) ==> call_ensures(T::init_self, (&bean,), r),
{
    CustomFn { f: Arc::new(move || run_init_self::<C, E, F, T>(&handle)) }
}

/// `f` initializes the bean of type `T` that `handle` keeps.
pub closed spec fn initializes<C, E, F, T: BuildFromContext<C, E, F> + Send + Sync + 'static>(
    f: CustomFn,
    handle: Handle,
) -> bool {
    call_ensures(init_fn_new::<C, E, F, T>, (handle,), f)
}

/// `Arc::new` on a closure that finalizes the bean that `handle` keeps: what calling it gives
/// is what the bean's own `clean_self` gives.
#[verifier::external_body]
fn destroy_fn_new<C, E, F, T: BuildFromContext<C, E, F> + Send + Sync + 'static>(handle: Handle) -> (f: CustomFn)
    requires
        exists|bean: T| filled(handle, bean),
    ensures
        forall|r: Result<(), BoxError>, bean: T|
            f.gave(r) && filled(handle, bean) ==> call_ensures(T::clean_self, (&bean,), r),
{
    CustomFn { f: Arc::new(move || run_clean_self::<C, E, F, T>(&handle)) }
}

/// `f` finalizes the bean of type `T` that `handle` keeps.
pub closed spec fn finalizes<C, E, F, T: BuildFromContext<C, E, F> + Send + Sync + 'static>(
    f: CustomFn,
    handle: Handle,
) -> bool {
    call_ensures(destroy_fn_new::<C, E, F, T>, (handle,), f)
}

impl CustomFn {
    /// Calling the function gave `r` at some moment.
    pub closed spec fn gave(self, r: Result<(), BoxError>) -> bool {
        exists|log: &CallLog| #[trigger] call_ensures(custom_fn_call, (&self, log), r)
    }

    /// Calls the function, on record.
    pub fn call(&self, log: &mut CallLog) -> (r: Result<(), BoxError>)
        ensures
            final(log)@ == old(log)@.push(Call { f: *self, r }),
            self.gave(r),
    {
        let r = custom_fn_call(self, log);
        let ghost call = Call { f: *self, r };
        log.note(Ghost(call));
        r
    }

    /// helper method to build the function that initializes a bean
    pub fn build_init_fn<C, E, F, T: BuildFromContext<C, E, F> + Send + Sync + 'static>(
        handle: &Handle,
    ) -> (f: CustomFn)
        requires
            exists|bean: T| filled(*handle, bean),
        ensures
            initializes::<C, E, F, T>(f, *handle),
    {
        init_fn_new::<C, E, F, T>(handle.clone())
    }

    /// helper method to build the function that finalizes a bean
    pub fn build_destroy_fn<C, E, F, T: BuildFromContext<C, E, F> + Send + Sync + 'static>(
        handle: &Handle,
    ) -> (f: CustomFn)
        requires
            exists|bean: T| filled(*handle, bean),
        ensures
            finalizes::<C, E, F, T>(f, *handle),
    {
        destroy_fn_new::<C, E, F, T>(handle.clone())
    }
}

impl Clone for CustomFn {
    fn clone(&self) -> (copy: Self)
        ensures
            copy == *self,
    {
        custom_fn_clone(self)
    }
}

/// Calling the function that initializes a bean is calling the bean's own `init_self`.
pub proof fn law_initializes<C, E, F, T: BuildFromContext<C, E, F> + Send + Sync + 'static>(
    f: CustomFn,
    handle: Handle,
    bean: T,
    r: Result<(), BoxError>,
)
    requires
        initializes::<C, E, F, T>(f, handle),
        filled(handle, bean),
        f.gave(r),
    ensures
        call_ensures(T::init_self, (&bean,), r),
{
}

/// Calling the function that finalizes a bean is calling the bean's own `clean_self`.
pub proof fn law_finalizes<C, E, F, T: BuildFromContext<C, E, F> + Send + Sync + 'static>(
    f: CustomFn,
    handle: Handle,
    bean: T,
    r: Result<(), BoxError>,
)
    requires
        finalizes::<C, E, F, T>(f, handle),
        filled(handle, bean),
        f.gave(r),
    ensures
        call_ensures(T::clean_self, (&bean,), r),
{
}

/// What a bean brings along that is constructed in one go.
pub struct SyncSetup {
    pub init: CustomFn,
    pub destroy: CustomFn,
    pub priority: BeanPriority,
}

impl SyncSetup {
    /// It is what a bean of type `T` brings along: the functions are the bean's own, and
    /// so is the priority.
    pub open spec fn brought_by<C, E, F, T: BuildFromContext<C, E, F> + Send + Sync + 'static>(
        self,
        handle: Handle,
    ) -> bool {
        &&& initializes::<C, E, F, T>(self.init, handle)
        &&& finalizes::<C, E, F, T>(self.destroy, handle)
        &&& call_ensures(T::priority, (), self.priority)
    }

    /// What the bean that `handle` keeps brings along.
    pub fn of<C, E, F, T: BuildFromContext<C, E, F> + Send + Sync + 'static>(handle: &Handle) -> (setup: Self)
        requires
            exists|bean: T| filled(*handle, bean),
        ensures
            setup.brought_by::<C, E, F, T>(*handle),
    {
        SyncSetup {
            init: CustomFn::build_init_fn::<C, E, F, T>(handle),
            destroy: CustomFn::build_destroy_fn::<C, E, F, T>(handle),
            priority: T::priority(),
        }
    }
}

/// A function of a bean that is to be awaited. Only the caller, who awaits it, knows its
/// type.
pub type CustomFnAsync = Erased;

/// What a bean brings along whose construction was awaited.
pub struct AsyncSetup {
    pub init: CustomFnAsync,
    pub destroy: CustomFnAsync,
    pub priority: BeanPriority,
}

} // verus!
