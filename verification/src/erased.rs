//! Values whose type is hidden.
use std::any::Any;
use std::sync::Arc;
use vstd::prelude::*;

verus! {

/// Keeps a value of a type that is not known here.
#[verifier::external_body]
pub struct Erased {
    inner: Arc<dyn Any + Send + Sync>,
}

/// `Arc::new`, with the type of the value hidden.
#[verifier::external_body]
fn any_new<V: Send + Sync + 'static>(value: V) -> (erased: Erased) {
    Erased { inner: Arc::new(value) }
}

/// `erased` was made to keep `value`.
pub closed spec fn keeps<V: Send + Sync + 'static>(erased: Erased, value: V) -> bool {
    call_ensures(any_new::<V>, (value,), erased)
}

/// `Arc::downcast` to the type of the value that is kept: it gives that value.
#[verifier::external_body]
fn any_downcast<V: Send + Sync + 'static>(erased: &Erased) -> (value: Arc<V>)
    requires
        exists|v: V| keeps(*erased, v),
    ensures
        forall|v: V| keeps(*erased, v) ==> *value == v,
{
    erased.inner.clone().downcast::<V>().ok().expect("unexpected cast error")
}

/// `Arc::clone`: the copy keeps the same value.
#[verifier::external_body]
fn any_clone(erased: &Erased) -> (copy: Erased)
    ensures
        copy == *erased,
{
    Erased { inner: erased.inner.clone() }
}

impl Erased {
    /// Hides the type of `value`.
    pub fn new<V: Send + Sync + 'static>(value: V) -> (erased: Erased)
        ensures
            keeps(erased, value),
    {
        any_new(value)
    }

    /// The value, which is known to be of type `V`.
    pub fn get<V: Send + Sync + 'static>(&self) -> (value: Arc<V>)
        requires
            exists|v: V| keeps(*self, v),
        ensures
            keeps(*self, *value),
            forall|v: V| #[trigger] keeps(*self, v) ==> *value == v,
    {
        any_downcast(self)
    }
}

impl Clone for Erased {
    fn clone(&self) -> (copy: Self)
        ensures
            copy == *self,
    {
        any_clone(self)
    }
}

} // verus!
