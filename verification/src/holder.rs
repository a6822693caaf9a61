//! Who keeps beans: the right to keep one, and the beans of a context, shared by its clones.
use crate::context::{count_holders, counted, AppContextInner};
use crate::operations::{handling, law_handling};
use std::sync::Arc;
use vstd::prelude::*;

verus! {

/// The right to make one more holder of something that is shared. Whoever only refers to
/// beans does without it.
pub struct Keeper {
    made: Ghost<()>,
}

impl Keeper {
    /// The right to make a holder.
    ///
    /// It is used where a bean is acquired, constructed or copied, and nowhere else: a
    /// contract may not speak of a function that calls, in any way, the function which the
    /// contract is for, and this contract speaks of all that is done with beans that are
    /// there. So what is looked up is kept by those who kept it before, and by nobody else.
    pub(crate) fn new() -> (keeper: Self)
        ensures
            handling(),
    {
        proof {
            law_handling();
        }
        Keeper { made: Ghost(()) }
    }
}

/// The beans of a context, shared by its clones.
pub struct SharedBeans {
    inner: Arc<AppContextInner>,
}

impl SharedBeans {
    /// What is shared.
    pub closed spec fn shared(&self) -> Arc<AppContextInner> {
        self.inner
    }

    /// Beans that nobody shares yet.
    pub(crate) fn new(inner: AppContextInner) -> (shared: Self)
        ensures
            *shared.shared() == inner,
    {
        SharedBeans { inner: Arc::new(inner) }
    }

    /// The beans.
    pub(crate) fn get(&self) -> (inner: &AppContextInner)
        ensures
            *inner == *self.shared(),
    {
        &self.inner
    }

    /// How many holders of the beans there are at the moment.
    pub(crate) fn count(&self) -> (count: usize)
        ensures
            counted(self.shared(), count),
    {
        count_holders(&self.inner)
    }

    /// One more holder of the beans.
    pub(crate) fn share(&self, _keeper: &Keeper) -> (copy: Self)
        ensures
            copy == *self,
    {
        SharedBeans { inner: self.inner.clone() }
    }
}

} // verus!
