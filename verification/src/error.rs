//! The errors of the container.
use crate::metadata::{meta_views, BeanMetadata, MetaView};
use std::any::Any;
use vstd::prelude::*;
use vstd::string::StringExecFns;

verus! {

/// A boxed value of a type that is not known here.
#[verifier::external_body]
#[derive(Debug)]
pub struct BoxAny {
    inner: Box<dyn Any + Send + Sync>,
}

/// `Box::new`, with the type of the value hidden: whoever asks the box for a value of that
/// type is given this one.
#[verifier::external_body]
fn any_box<T: Send + Sync + 'static>(value: T) -> (boxed: BoxAny)
    ensures
        forall|internal: Option<T>| unboxed(boxed, internal) ==> internal == Some(value),
{
    BoxAny { inner: Box::new(value) }
}

/// `boxed` was made of `value`.
pub closed spec fn boxes<T: Send + Sync + 'static>(boxed: BoxAny, value: T) -> bool {
    call_ensures(any_box::<T>, (value,), boxed)
}

/// `Box::downcast`: the value, if it is of type `T`. What comes of it is stated of a box
/// where the box is made.
#[verifier::external_body]
fn any_unbox<T: 'static>(boxed: BoxAny) -> (internal: Option<T>) {
    boxed.inner.downcast::<T>().ok().map(|x| *x)
}

/// Asking `boxed` for a value of type `T` gave `internal`.
pub closed spec fn unboxed<T: 'static>(boxed: BoxAny, internal: Option<T>) -> bool {
    call_ensures(any_unbox::<T>, (boxed,), internal)
}

/// The value that was boxed is the one that comes back.
pub proof fn law_boxed_comes_back<T: Send + Sync + 'static>(
    boxed: BoxAny,
    value: T,
    internal: Option<T>,
)
    requires
        boxes(boxed, value),
        unboxed(boxed, internal),
    ensures
        internal == Some(value),
{
}

/// An error of any type, and its text.
#[derive(Debug)]
pub struct BoxError {
    error: BoxAny,
    text: String,
}

impl BoxError {
    /// The box that the error is in.
    pub closed spec fn error(self) -> BoxAny {
        self.error
    }

    /// What the error says.
    pub closed spec fn text(self) -> Seq<char> {
        self.text@
    }

    /// Hides the type of `e`, which says `text`.
    pub fn new<T: Send + Sync + 'static>(e: T, text: String) -> (boxed: BoxError)
        ensures
            boxes(boxed.error(), e),
            boxed.text() == text@,
    {
        BoxError { error: any_box(e), text }
    }

    /// The text of the error.
    pub fn message(&self) -> (text: &str)
        ensures
            text@ == self.text(),
    {
        self.text.as_str()
    }
}

/// An error of the container.
#[derive(Debug)]
pub enum BeanError {
    /// error type for bean not initialized
    NotInitialized(BeanMetadata),
    /// error type for the ignorance of async beans
    HasAsync(BeanMetadata),
    /// error type for cyclic dependencies
    CyclicDependency(Vec<BeanMetadata>),
    /// user custom initialization error
    Custom(BeanMetadata, BoxError),
}

/// How one bean on a cycle of dependencies is shown.
pub open spec fn bean_text(meta: MetaView) -> Seq<char> {
    meta.bean_name + "("@ + meta.bean_type + ")"@
}

/// How a path of dependencies is shown: the beans in order, with arrows between.
pub open spec fn path_text(metas: Seq<MetaView>) -> Seq<char>
    decreases metas.len(),
{
    if metas.len() == 0 {
        Seq::empty()
    } else if metas.len() == 1 {
        bean_text(metas[0])
    } else {
        path_text(metas.drop_last()) + " -> "@ + bean_text(metas.last())
    }
}

/// The beans of a path of dependencies in one line.
pub fn pretty_print(v: &Vec<BeanMetadata>) -> (text: String)
    ensures
        text@ == path_text(meta_views(v@)),
{
    let mut text = String::new();
    let ghost metas = meta_views(v@);
    for i in 0..v.len()
        invariant
            metas == meta_views(v@),
            text@ == path_text(metas.take(i as int)),
    {
        let m = v[i];
        proof {
            let upto = metas.take(i + 1);
            assert(upto.drop_last() == metas.take(i as int));
            assert(upto.last() == m@);
            assert(i == 0 ==> metas.take(0).len() == 0);
        }
        if i > 0 {
            text.append(" -> ");
        }
        text.append(m.bean_name);
        text.append("(");
        text.append(m.bean_type);
        text.append(")");
        assert(text@ == path_text(metas.take(i + 1)));
    }
    assert(metas.take(v.len() as int) == metas);
    text
}

impl BeanError {
    /// What the error says.
    pub open spec fn text(self) -> Seq<char> {
        match self {
            BeanError::NotInitialized(meta) => "bean with type "@ + meta@.bean_type + " and name "@
                + meta@.bean_name + " is not initialized with `construct_bean` method"@,
            BeanError::HasAsync(meta) => "bean with type "@ + meta@.bean_type + " and name "@
                + meta@.bean_name + " is async and cannot be initialized with `build_non_async` method"@,
            BeanError::CyclicDependency(metas) => "cyclic dependencies detected: "@ + path_text(
                meta_views(metas@),
            ),
            BeanError::Custom(meta, e) => "custom error of bean "@ + meta@.bean_type + " with type "@
                + meta@.bean_name + ": "@ + e.text(),
        }
    }

    /// The text of the error.
    pub fn message(&self) -> (text: String)
        ensures
            text@ == self.text(),
    {
        let mut text = String::new();
        match self {
            BeanError::NotInitialized(meta) => {
                text.append("bean with type ");
                text.append(meta.bean_type);
                text.append(" and name ");
                text.append(meta.bean_name);
                text.append(" is not initialized with `construct_bean` method");
            },
            BeanError::HasAsync(meta) => {
                text.append("bean with type ");
                text.append(meta.bean_type);
                text.append(" and name ");
                text.append(meta.bean_name);
                text.append(" is async and cannot be initialized with `build_non_async` method");
            },
            BeanError::CyclicDependency(metas) => {
                let path = pretty_print(metas);
                text.append("cyclic dependencies detected: ");
                text.append(path.as_str());
            },
            BeanError::Custom(meta, e) => {
                text.append("custom error of bean ");
                text.append(meta.bean_type);
                text.append(" with type ");
                text.append(meta.bean_name);
                text.append(": ");
                text.append(e.message());
            },
        }
        text
    }

    /// get internal error object when custom error occurs
    pub fn into_internal_err<T: 'static>(self) -> (internal: Option<T>)
        ensures
            match self {
                BeanError::Custom(_, e) => unboxed(e.error(), internal),
                _ => internal is None,
            },
    {
        match self {
            BeanError::Custom(_, e) => any_unbox(e.error),
            _ => None,
        }
    }
}

/// error type for acquire bean after related `AppContext` is dropped
#[derive(Clone, Copy, PartialEq, Eq, Structural)]
pub struct AppContextDroppedError;

impl AppContextDroppedError {
    /// The text of the error.
    pub fn message(&self) -> (text: &'static str)
        ensures
            text@ == "application context is dropped, all related beans are dropped too"@,
    {
        "application context is dropped, all related beans are dropped too"
    }
}

} // verus!
