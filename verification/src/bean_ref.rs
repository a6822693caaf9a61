//! The cells that beans are put into, and the references to them.
//!
//! The cell of a bean is a `once_cell::sync::OnceCell` that everyone who refers to the
//! bean shares. A cell has one `BeanWriter`, which is used up when the bean is put into
//! the cell, and `Handle`s that keep the cell without knowing the type of the bean.
use crate::error::AppContextDroppedError;
use crate::holder::Keeper;
use once_cell::sync::OnceCell;
use std::any::Any;
use std::sync::{Arc, Weak};
use vstd::prelude::*;

verus! {

/// `once_cell::sync::OnceCell`, a cell that is written at most once.
#[verifier::external_type_specification]
#[verifier::external_body]
#[verifier::reject_recursive_types(T)]
pub struct ExOnceCell<T>(OnceCell<T>);

/// Keeps the `OnceCell` of a bean of a type that is not known here.
#[verifier::external_body]
pub struct Handle {
    cell: Arc<dyn Any + Send + Sync>,
}

/// The right to put a bean into a `OnceCell`. There is one for each cell.
#[verifier::external_body]
pub struct BeanWriter {
    cell: Arc<dyn Any + Send + Sync>,
}

/// Refers to the `OnceCell` of a bean without keeping it.
#[verifier::external_body]
#[verifier::reject_recursive_types(T)]
pub struct WeakCell<T> {
    cell: Weak<OnceCell<T>>,
}

/// `OnceCell::new`: an empty cell, with the one right to put a bean into it.
#[verifier::external_body]
fn cell_new<T: Send + Sync + 'static>() -> (made: (BeanWriter, Handle)) {
    let cell: Arc<dyn Any + Send + Sync> = Arc::new(OnceCell::<T>::new());
    (BeanWriter { cell: cell.clone() }, Handle { cell })
}

/// The writer and the handle were made together, for a bean of type `T`.
pub closed spec fn paired<T: Send + Sync + 'static>(writer: BeanWriter, handle: Handle) -> bool {
    call_ensures(cell_new::<T>, (), (writer, handle))
}

/// The handle keeps the cell of a bean of type `T`.
pub open spec fn typed<T: Send + Sync + 'static>(handle: Handle) -> bool {
    exists|writer: BeanWriter| paired::<T>(writer, handle)
}

/// `OnceCell::set` on the cell that the writer was made with. As there is no other
/// writer for it, the cell is empty before.
#[verifier::external_body]
fn cell_put<T: Send + Sync + 'static>(writer: BeanWriter, bean: T)
    requires
        exists|handle: Handle| paired::<T>(writer, handle),
{
    let cell = writer.cell.downcast::<OnceCell<T>>().ok();
    cell.and_then(|c| c.set(bean).ok()).expect("bean is set before")
}

/// `bean` was put into the cell that `writer` was made with.
pub closed spec fn put_with<T: Send + Sync + 'static>(writer: BeanWriter, bean: T) -> bool {
    exists|done: ()| #[trigger] call_ensures(cell_put::<T>, (writer, bean), done)
}

/// `bean` was put into the cell that `handle` keeps.
pub open spec fn filled<T: Send + Sync + 'static>(handle: Handle, bean: T) -> bool {
    exists|writer: BeanWriter| #[trigger] paired::<T>(writer, handle) && put_with(writer, bean)
}

impl BeanWriter {
    /// Puts the bean into the cell.
    pub(crate) fn put<T: Send + Sync + 'static>(self, bean: T)
        requires
            exists|handle: Handle| paired::<T>(self, handle),
        ensures
            forall|handle: Handle| #[trigger] paired::<T>(self, handle) ==> filled(handle, bean),
    {
        let ghost writer = self;
        cell_put(self, bean);
        assert(put_with(writer, bean));
    }
}

/// `Arc::clone`: the copy keeps the same cell.
#[verifier::external_body]
fn handle_clone(handle: &Handle, _keeper: &Keeper) -> (copy: Handle)
    ensures
        copy == *handle,
{
    Handle { cell: handle.cell.clone() }
}

/// `Arc::downgrade`: a reference to the cell that the handle keeps.
#[verifier::external_body]
fn handle_downgrade<T: Send + Sync + 'static>(handle: &Handle) -> (weak: WeakCell<T>)
    requires
        typed::<T>(*handle),
{
    let cell = handle.cell.clone().downcast::<OnceCell<T>>().ok();
    WeakCell { cell: cell.map(|c| Arc::downgrade(&c)).expect("bean type is not matched") }
}

impl Handle {
    /// An empty cell for a bean of type `T`, and the right to put the bean into it.
    pub(crate) fn reserve<T: Send + Sync + 'static>() -> (made: (BeanWriter, Handle))
        ensures
            paired::<T>(made.0, made.1),
    {
        cell_new::<T>()
    }
}

impl Clone for Handle {
    /// Another handle that keeps the same cell.
    fn clone(&self) -> (copy: Self)
        ensures
            copy == *self,
    {
        handle_clone(self, &Keeper::new())
    }
}

/// `weak` refers to the cell that `handle` keeps.
pub closed spec fn refers<T: Send + Sync + 'static>(weak: WeakCell<T>, handle: Handle) -> bool {
    call_ensures(handle_downgrade::<T>, (&handle,), weak)
}

/// `Weak::upgrade`: the cell, as long as someone keeps it. Whether anyone does at the
/// moment is left open.
#[verifier::external_body]
fn weak_upgrade<T>(weak: &WeakCell<T>, _keeper: &Keeper) -> (cell: Option<Arc<OnceCell<T>>>) {
    weak.cell.upgrade()
}

/// Upgrading `weak` gave `cell` at some moment.
pub closed spec fn upgraded<T>(weak: WeakCell<T>, cell: Option<Arc<OnceCell<T>>>) -> bool {
    exists|keeper: &Keeper| #[trigger] call_ensures(weak_upgrade::<T>, (&weak, keeper), cell)
}

/// `Weak::upgrade` while `held` keeps the cell: there is a cell then.
#[verifier::external_body]
fn weak_upgrade_held<T: Send + Sync + 'static>(
    weak: &WeakCell<T>,
    held: &Handle,
    _keeper: &Keeper,
) -> (cell: Arc<OnceCell<T>>)
    requires
        refers(*weak, *held),
    ensures
        upgraded(*weak, Some(cell)),
{
    weak.cell.upgrade().expect("app context is dropped, all beans are not acquirable")
}

/// `cell` is the cell that `handle` keeps.
pub open spec fn opens<T: Send + Sync + 'static>(handle: Handle, cell: OnceCell<T>) -> bool {
    exists|weak: WeakCell<T>| #[trigger]
        refers(weak, handle) && upgraded(weak, Some(Arc::new(cell)))
}

/// `bean` was put into `cell`.
pub open spec fn bean_in<T: Send + Sync + 'static>(cell: OnceCell<T>, bean: T) -> bool {
    exists|handle: Handle| #[trigger] filled(handle, bean) && opens(handle, cell)
}

/// `OnceCell::get`: as a cell is written at most once, what it gives is the bean that
/// was put into it. Whether the cell is full yet is left open, as the bean may be put
/// into it later.
#[verifier::external_body]
fn cell_get<T: Send + Sync + 'static>(cell: &OnceCell<T>) -> (held: Option<&T>)
    ensures
        held matches Some(value) ==> forall|bean: T| bean_in(*cell, bean) ==> *value == bean,
{
    cell.get()
}

/// Reading the cell gave `held` at some moment.
pub closed spec fn get_gave<T: Send + Sync + 'static>(cell: OnceCell<T>, held: Option<&T>) -> bool {
    call_ensures(cell_get::<T>, (&cell,), held)
}

/// `OnceCell::get` on a cell that a bean is known to have been put into: as a cell is
/// written at most once and never emptied, it gives that bean.
#[verifier::external_body]
fn cell_read<T: Send + Sync + 'static>(cell: &OnceCell<T>) -> (value: &T)
    requires
        exists|bean: T| bean_in(*cell, bean),
    ensures
        forall|bean: T| bean_in(*cell, bean) ==> *value == bean,
{
    cell.get().expect("bean is not initialized properly")
}

/// The cell of a bean, held for as long as the bean is in use.
#[verifier::reject_recursive_types(T)]
pub struct RefWrapper<T>(Arc<OnceCell<T>>);

impl<T> RefWrapper<T> {
    /// The cell of the bean.
    pub closed spec fn cell(&self) -> OnceCell<T> {
        *self.0
    }
}

impl<T: Send + Sync + 'static> RefWrapper<T> {
    /// The bean, which is known to have been put into its cell.
    pub fn deref(&self) -> (r: &T)
        requires
            exists|bean: T| bean_in(self.cell(), bean),
        ensures
            bean_in(self.cell(), *r),
            forall|bean: T| #[trigger] bean_in(self.cell(), bean) ==> *r == bean,
    {
        cell_read(&self.0)
    }

    /// The bean, if it has been put into its cell by now.
    pub fn get(&self) -> (r: Option<&T>)
        ensures
            get_gave(self.cell(), r),
            r matches Some(value) ==> forall|bean: T| #[trigger]
                bean_in(self.cell(), bean) ==> *value == bean,
    {
        cell_get(&self.0)
    }
}

/// `r` is what is acquired of a bean whose weak reference was upgraded to `cell`.
pub open spec fn acquired<T>(
    cell: Option<Arc<OnceCell<T>>>,
    r: Result<RefWrapper<T>, AppContextDroppedError>,
) -> bool {
    match cell {
        Some(cell) => r matches Ok(wrapper) && wrapper.cell() == *cell,
        None => r is Err,
    }
}

/// the weak reference of bean, avoiding circular references
#[verifier::reject_recursive_types(T)]
pub struct BeanRef<T> {
    inner: WeakCell<T>,
}

impl<T> BeanRef<T> {
    /// The reference to the cell.
    pub closed spec fn weak(&self) -> WeakCell<T> {
        self.inner
    }
}

impl<T: Send + Sync + 'static> BeanRef<T> {
    /// acquire the bean, if corresponding app context is dropped, an error
    /// will be returned
    pub fn try_acquire(&self) -> (r: Result<RefWrapper<T>, AppContextDroppedError>)
        ensures
            exists|cell: Option<Arc<OnceCell<T>>>|
                upgraded(self.weak(), cell) && #[trigger] acquired(cell, r),
            r matches Ok(wrapper) ==> forall|handle: Handle| #[trigger]
                refers(self.weak(), handle) ==> opens(handle, wrapper.cell()),
    {
        let cell = weak_upgrade(&self.inner, &Keeper::new());
        let r = match cell {
            Some(cell) => Ok(RefWrapper(cell)),
            None => Err(AppContextDroppedError),
        };
        proof {
            assert(acquired(cell, r));
            assert(cell is Some ==> Arc::new(*(cell->0)) == cell->0);
        }
        r
    }

    /// check whether the `AppContext` related to this bean is dropped
    pub fn is_active(&self) -> (r: bool)
        ensures
            exists|cell: Option<Arc<OnceCell<T>>>| #[trigger]
                upgraded(self.weak(), cell) && r == (cell is Some),
    {
        self.try_acquire().is_ok()
    }

    /// The bean that `handle` keeps.
    pub fn to(handle: &Handle) -> (r: Self)
        requires
            typed::<T>(*handle),
        ensures
            refers(r.weak(), *handle),
    {
        BeanRef { inner: handle_downgrade(handle) }
    }

    /// acquire the bean while it is kept: `held` is the handle of the bean, which an app
    /// context gives as long as it is not dropped
    pub fn acquire(&self, held: &Handle) -> (r: RefWrapper<T>)
        requires
            refers(self.weak(), *held),
        ensures
            opens(*held, r.cell()),
    {
        let cell = weak_upgrade_held(&self.inner, held, &Keeper::new());
        assert(Arc::new(*cell) == cell);
        RefWrapper(cell)
    }
}

} // verus!
