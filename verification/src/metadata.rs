//! How beans are told apart, and what a bean declares about its place among the
//! others.
use crate::cells::str_eq;
use core::marker::PhantomData;
use vstd::prelude::*;

verus! {

/// The two strings that identify a bean, as sequences of characters.
#[verifier::ext_equal]
pub struct MetaView {
    pub bean_type: Seq<char>,
    pub bean_name: Seq<char>,
}

/// metadata of a bean. it can be used as map key
#[derive(Hash, Clone, Copy, Debug)]
pub struct BeanMetadata {
    /// name of the type of the bean, such as `XXXService`
    pub bean_type: &'static str,
    /// an identifier for the bean, to distinguish different
    /// beans with same type name
    pub bean_name: &'static str,
}

impl View for BeanMetadata {
    type V = MetaView;

    open spec fn view(&self) -> MetaView {
        MetaView { bean_type: self.bean_type@, bean_name: self.bean_name@ }
    }
}

impl PartialEq for BeanMetadata {
    fn eq(&self, other: &Self) -> (r: bool) {
        str_eq(self.bean_type, other.bean_type) && str_eq(self.bean_name, other.bean_name)
    }
}

impl vstd::std_specs::cmp::PartialEqSpecImpl for BeanMetadata {
    open spec fn obeys_eq_spec() -> bool {
        true
    }

    open spec fn eq_spec(&self, other: &Self) -> bool {
        self@ == other@
    }
}

impl Eq for BeanMetadata {

}

/// The metadata that a sequence of beans shows, in the same order.
pub open spec fn meta_views(metas: Seq<BeanMetadata>) -> Seq<MetaView> {
    metas.map_values(|m: BeanMetadata| m@)
}

impl BeanMetadata {
    /// The metadata of the bean of type `ty` that is called `name`.
    pub fn build_meta<T>(ty: &BeanType<T>, name: &'static str) -> (meta: BeanMetadata)
        ensures
            meta@ == ty.meta(name@),
            meta.bean_type == ty.bean_type,
            meta.bean_name == name,
    {
        BeanMetadata { bean_type: ty.bean_type, bean_name: name }
    }
}

/// the priority of beans.
/// the beans with higher priority will be initialized earlier
/// and destroyed later
#[derive(Debug)]
pub enum BeanPriority {
    /// dependencies of this bean
    DependsOn(Vec<BeanMetadata>),
}

impl View for BeanPriority {
    type V = Seq<MetaView>;

    open spec fn view(&self) -> Seq<MetaView> {
        match self {
            BeanPriority::DependsOn(metas) => meta_views(metas@),
        }
    }
}

/// A type of beans, together with the name under which its beans are registered.
pub struct BeanType<T> {
    /// name of the type, such as `XXXService`
    pub bean_type: &'static str,
    pub marker: PhantomData<T>,
}

impl<T> BeanType<T> {
    /// What identifies the bean of this type that is called `name`.
    pub open spec fn meta(&self, name: Seq<char>) -> MetaView {
        MetaView { bean_type: self.bean_type@, bean_name: name }
    }

    /// The type whose beans are registered under `bean_type`.
    pub fn named(bean_type: &'static str) -> (ty: BeanType<T>)
        ensures
            ty.bean_type == bean_type,
    {
        BeanType { bean_type, marker: PhantomData }
    }
}

/// A type that says under which name its beans are registered.
pub trait BeanTypeOf<T> {
    const BEAN_TYPE: BeanType<T>;
}

} // verus!
