//! What the library takes on trust of the cells that hold the helper data of a bean:
//! those of `once_cell` and `crossbeam`.
//!
//! Each cell belongs to one bean and is only ever written through a unique reference.
//! Nothing outside this file reaches the `OnceCell`s, so what one of them holds is a
//! function of the struct around it. The names `flag_held`, `hook_held`, `deps_held`
//! and `status_held` stand for it.
use crate::metadata::BeanMetadata;
use crate::wrapper::{BeanStatus, CustomFnEnum};
use crossbeam::atomic::AtomicCell;
use once_cell::sync::OnceCell;
use vstd::prelude::*;

verus! {

/// `crossbeam::atomic::AtomicCell`, a cell that is read and replaced as a whole.
#[verifier::external_type_specification]
#[verifier::external_body]
#[verifier::reject_recursive_types(T)]
pub struct ExAtomicCell<T>(AtomicCell<T>);

/// A `once_cell::sync::OnceCell` for a flag.
#[verifier::external_body]
pub struct FlagCell {
    cell: OnceCell<bool>,
}

/// A `once_cell::sync::OnceCell` for a custom function.
#[verifier::external_body]
pub struct HookCell {
    cell: OnceCell<CustomFnEnum>,
}

/// A `once_cell::sync::OnceCell` for a list of dependencies.
#[verifier::external_body]
pub struct DepsCell {
    cell: OnceCell<Vec<BeanMetadata>>,
}

/// What a cell for a flag holds, if it has been written.
pub uninterp spec fn flag_held(cell: FlagCell) -> Option<bool>;

/// What a cell for a custom function holds, if it has been written.
pub uninterp spec fn hook_held(cell: HookCell) -> Option<CustomFnEnum>;

/// What a cell for a list of dependencies holds, if it has been written.
pub uninterp spec fn deps_held(cell: DepsCell) -> Option<Seq<BeanMetadata>>;

/// What a cell for a status holds.
pub uninterp spec fn status_held(cell: AtomicCell<BeanStatus>) -> BeanStatus;

/// `OnceCell::new` for a flag: the cell is empty.
#[verifier::external_body]
pub(crate) fn flag_new() -> (cell: FlagCell)
    ensures
        flag_held(cell) is None,
{
    FlagCell { cell: OnceCell::new() }
}

/// `OnceCell::with_value` for a flag: the cell holds `value`.
#[verifier::external_body]
pub(crate) fn flag_with_value(value: bool) -> (cell: FlagCell)
    ensures
        flag_held(cell) == Some(value),
{
    FlagCell { cell: OnceCell::with_value(value) }
}

/// `OnceCell::get` for a flag: a reference to what the cell holds, or `None`
/// where it is empty.
#[verifier::external_body]
pub(crate) fn flag_get(cell: &FlagCell) -> (held: Option<&bool>)
    ensures
        held is Some <==> flag_held(*cell) is Some,
        held matches Some(value) ==> flag_held(*cell) == Some(*value),
{
    cell.cell.get()
}

/// `OnceCell::set` for a flag: an empty cell takes `value`, a full one stays as
/// it is and `value` comes back.
#[verifier::external_body]
pub(crate) fn flag_set(cell: &mut FlagCell, value: bool) -> (done: Result<(), bool>)
    ensures
        flag_held(*old(cell)) is None ==> done is Ok && flag_held(*final(cell)) == Some(value),
        flag_held(*old(cell)) is Some ==> flag_held(*final(cell)) == flag_held(*old(cell)),
        flag_held(*old(cell)) is Some ==> (done matches Err(back) && back == value),
{
    cell.cell.set(value)
}

/// `OnceCell::new` for a custom function: the cell is empty.
#[verifier::external_body]
pub(crate) fn hook_new() -> (cell: HookCell)
    ensures
        hook_held(cell) is None,
{
    HookCell { cell: OnceCell::new() }
}

/// `OnceCell::with_value` for a custom function: the cell holds `value`.
#[verifier::external_body]
pub(crate) fn hook_with_value(value: CustomFnEnum) -> (cell: HookCell)
    ensures
        hook_held(cell) == Some(value),
{
    HookCell { cell: OnceCell::with_value(value) }
}

/// `OnceCell::get` for a custom function: a reference to what the cell holds, or `None`
/// where it is empty.
#[verifier::external_body]
pub(crate) fn hook_get(cell: &HookCell) -> (held: Option<&CustomFnEnum>)
    ensures
        held is Some <==> hook_held(*cell) is Some,
        held matches Some(value) ==> hook_held(*cell) == Some(*value),
{
    cell.cell.get()
}

/// `OnceCell::set` for a custom function: an empty cell takes `value`, a full one stays as
/// it is and `value` comes back.
#[verifier::external_body]
pub(crate) fn hook_set(cell: &mut HookCell, value: CustomFnEnum) -> (done: Result<(), CustomFnEnum>)
    ensures
        hook_held(*old(cell)) is None ==> done is Ok && hook_held(*final(cell)) == Some(value),
        hook_held(*old(cell)) is Some ==> hook_held(*final(cell)) == hook_held(*old(cell)),
        hook_held(*old(cell)) is Some ==> (done matches Err(back) && back == value),
{
    cell.cell.set(value)
}

/// `OnceCell::new` for a list of dependencies: the cell is empty.
#[verifier::external_body]
pub(crate) fn deps_new() -> (cell: DepsCell)
    ensures
        deps_held(cell) is None,
{
    DepsCell { cell: OnceCell::new() }
}

/// `OnceCell::with_value` for a list of dependencies: the cell holds `value`.
#[verifier::external_body]
pub(crate) fn deps_with_value(value: Vec<BeanMetadata>) -> (cell: DepsCell)
    ensures
        deps_held(cell) == Some(value@),
{
    DepsCell { cell: OnceCell::with_value(value) }
}

/// `OnceCell::get` for a list of dependencies: a reference to what the cell holds, or `None`
/// where it is empty.
#[verifier::external_body]
pub(crate) fn deps_get(cell: &DepsCell) -> (held: Option<&Vec<BeanMetadata>>)
    ensures
        held is Some <==> deps_held(*cell) is Some,
        held matches Some(value) ==> deps_held(*cell) == Some(value@),
{
    cell.cell.get()
}

/// `OnceCell::set` for a list of dependencies: an empty cell takes `value`, a full one stays as
/// it is and `value` comes back.
#[verifier::external_body]
pub(crate) fn deps_set(cell: &mut DepsCell, value: Vec<BeanMetadata>) -> (done: Result<(), Vec<BeanMetadata>>)
    ensures
        deps_held(*old(cell)) is None ==> done is Ok && deps_held(*final(cell)) == Some(value@),
        deps_held(*old(cell)) is Some ==> deps_held(*final(cell)) == deps_held(*old(cell)),
        deps_held(*old(cell)) is Some ==> (done matches Err(back) && back == value),
{
    cell.cell.set(value)
}

/// `AtomicCell::new` for a status: the cell holds `status`.
#[verifier::external_body]
pub(crate) fn status_new(status: BeanStatus) -> (cell: AtomicCell<BeanStatus>)
    ensures
        status_held(cell) == status,
{
    AtomicCell::new(status)
}

/// `AtomicCell::load` for a status: what the cell holds.
#[verifier::external_body]
pub(crate) fn status_load(cell: &AtomicCell<BeanStatus>) -> (status: BeanStatus)
    ensures
        status == status_held(*cell),
{
    cell.load()
}

/// `AtomicCell::swap` for a status: the cell holds `status` from then on, and what
/// it held before comes back.
#[verifier::external_body]
pub(crate) fn status_swap(cell: &mut AtomicCell<BeanStatus>, status: BeanStatus) -> (before: BeanStatus)
    ensures
        before == status_held(*old(cell)),
        status_held(*final(cell)) == status,
{
    cell.swap(status)
}

/// `<str as PartialEq>::eq`: two strings are equal exactly if they hold the same
/// characters.
#[verifier::external_body]
pub(crate) fn str_eq(a: &str, b: &str) -> (same: bool)
    ensures
        same == (a@ == b@),
{
    a == b
}

} // verus!
