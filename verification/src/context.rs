//! The registry of beans, the context that is being built from it, and the context
//! that hands the beans out.
use crate::bean_ref::{filled, refers, typed, BeanRef, BeanWriter, Handle};
use crate::cells::str_eq;
use crate::error::BeanError;
use crate::holder::{Keeper, SharedBeans};
use crate::laws::law_construct;
use crate::lifecycle::{AsyncSetup, BuildFromContext};
use crate::metadata::{BeanMetadata, BeanType, MetaView};
use crate::wrapper::{BeanView, BeanWrapper};
use std::sync::Arc;
use vstd::prelude::*;

verus! {

/// A bean is registered as `meta`.
pub open spec fn registered(beans: Seq<BeanView>, meta: MetaView) -> bool {
    exists|i: int| 0 <= i < beans.len() && (#[trigger] beans[i]).meta == meta
}

/// Where the bean that is registered as `meta` stands.
pub open spec fn place(beans: Seq<BeanView>, meta: MetaView) -> int {
    choose|i: int| 0 <= i < beans.len() && (#[trigger] beans[i]).meta == meta
}

/// What is known about the bean that is registered as `meta`.
pub open spec fn lookup(beans: Seq<BeanView>, meta: MetaView) -> BeanView {
    beans[place(beans, meta)]
}

/// No two beans are registered alike, and what is known about each fits together.
pub open spec fn wf(beans: Seq<BeanView>) -> bool {
    &&& forall|i: int, j: int|
        0 <= i < j < beans.len() ==> (#[trigger] beans[i]).meta != (#[trigger] beans[j]).meta
    &&& forall|i: int| 0 <= i < beans.len() ==> (#[trigger] beans[i]).wf()
}

/// The beans after one was asked for: a bean that is not registered yet is, with
/// a cell to put it into.
pub open spec fn asked_for(
    beans: Seq<BeanView>,
    meta: MetaView,
    cell: Handle,
    writer: BeanWriter,
) -> Seq<BeanView> {
    if registered(beans, meta) {
        beans
    } else {
        beans.push(BeanView::blank(cell, writer, meta))
    }
}

/// The beans after one was constructed: it keeps the cell that was handed out for
/// it, where there was one.
pub open spec fn constructed(beans: Seq<BeanView>, bean: BeanView) -> Seq<BeanView> {
    if registered(beans, bean.meta) {
        let i = place(beans, bean.meta);
        beans.update(i, BeanView { bean: beans[i].bean, ..bean })
    } else {
        beans.push(bean)
    }
}

/// The cell for the bean `meta`: the one that was handed out for it, or `cell` where
/// none was.
pub open spec fn cell_of(beans: Seq<BeanView>, meta: MetaView, cell: Handle) -> Handle {
    if registered(beans, meta) {
        lookup(beans, meta).bean
    } else {
        cell
    }
}

/// A bean may be constructed as `meta`: none was yet.
pub open spec fn free(beans: Seq<BeanView>, meta: MetaView) -> bool {
    registered(beans, meta) ==> !lookup(beans, meta).initialized()
}

/// Every bean has been constructed.
pub open spec fn all_initialized(beans: Seq<BeanView>) -> bool {
    forall|i: int| 0 <= i < beans.len() ==> (#[trigger] beans[i]).initialized()
}

/// The construction of some bean was awaited.
pub open spec fn some_async(beans: Seq<BeanView>) -> bool {
    exists|i: int| 0 <= i < beans.len() && (#[trigger] beans[i]).is_async == Some(true)
}

/// `e` names the first bean that has not been constructed.
pub open spec fn names_unfinished(beans: Seq<BeanView>, e: BeanError) -> bool {
    exists|i: int|
        {
            &&& 0 <= i < beans.len()
            &&& !(#[trigger] beans[i]).initialized()
            &&& all_initialized(beans.take(i))
            &&& e matches BeanError::NotInitialized(meta)
            &&& meta@ == beans[i].meta
        }
}

/// `e` names the first bean whose construction was awaited.
pub open spec fn names_async(beans: Seq<BeanView>, e: BeanError) -> bool {
    exists|i: int|
        {
            &&& 0 <= i < beans.len()
            &&& (#[trigger] beans[i]).is_async == Some(true)
            &&& !some_async(beans.take(i))
            &&& e matches BeanError::HasAsync(meta)
            &&& meta@ == beans[i].meta
        }
}

/// The handles of the beans of type `bean_type`, in the order of registration.
pub open spec fn of_type(beans: Seq<BeanView>, bean_type: Seq<char>) -> Seq<Handle> {
    beans.filter(|b: BeanView| b.meta.bean_type == bean_type).map_values(|b: BeanView| b.bean)
}

/// The handles of the beans called `bean_name`, in the order of registration.
pub open spec fn of_name(beans: Seq<BeanView>, bean_name: Seq<char>) -> Seq<Handle> {
    beans.filter(|b: BeanView| b.meta.bean_name == bean_name).map_values(|b: BeanView| b.bean)
}

/// A bean stands in one place only.
pub proof fn lemma_place(beans: Seq<BeanView>, i: int)
    requires
        wf(beans),
        0 <= i < beans.len(),
    ensures
        registered(beans, beans[i].meta),
        place(beans, beans[i].meta) == i,
{
    let p = place(beans, beans[i].meta);
    assert(0 <= p < beans.len() && beans[p].meta == beans[i].meta);
}

/// the inner storage for beans
pub struct AppContextInner {
    bean_map: Vec<BeanWrapper>,
}

impl View for AppContextInner {
    type V = Seq<BeanView>;

    /// What is known about each bean, in the order of registration.
    closed spec fn view(&self) -> Seq<BeanView> {
        self.bean_map@.map_values(|w: BeanWrapper| w@)
    }
}

impl AppContextInner {
    /// Where the bean that is registered as `meta` stands.
    fn position(&self, meta: &BeanMetadata) -> (r: Option<usize>)
        requires
            wf(self@),
        ensures
            match r {
                Some(i) => {
                    &&& registered(self@, meta@)
                    &&& i == place(self@, meta@)
                    &&& i < self.bean_map@.len()
                    &&& self@[i as int].meta == meta@
                },
                None => !registered(self@, meta@),
            },
    {
        for i in 0..self.bean_map.len()
            invariant
                wf(self@),
                forall|j: int| 0 <= j < i ==> (#[trigger] self@[j]).meta != meta@,
        {
            assert(self.bean_map@[i as int]@ == self@[i as int]);
            if *self.bean_map[i].meta() == *meta {
                proof {
                    lemma_place(self@, i as int);
                }
                return Some(i);
            }
        }
        None
    }

    /// How many beans are registered.
    pub fn len(&self) -> (n: usize)
        ensures
            n == self@.len(),
    {
        self.bean_map.len()
    }

    /// The bean that was registered as number `i`.
    pub fn at(&self, i: usize) -> (wrapper: &BeanWrapper)
        requires
            i < self@.len(),
        ensures
            wrapper@ == self@[i as int],
    {
        &self.bean_map[i]
    }

    /// The bean that is registered as `meta`.
    pub fn get(&self, meta: &BeanMetadata) -> (r: Option<&BeanWrapper>)
        requires
            wf(self@),
        ensures
            match r {
                Some(wrapper) => registered(self@, meta@) && wrapper@ == lookup(self@, meta@),
                None => !registered(self@, meta@),
            },
    {
        match self.position(meta) {
            Some(i) => Some(&self.bean_map[i]),
            None => None,
        }
    }
}

impl AppContextInner {
    /// The bean that is registered as `meta`, to be changed.
    pub fn get_mut(&mut self, meta: &BeanMetadata) -> (r: Option<&mut BeanWrapper>)
        requires
            wf(old(self)@),
        ensures
            match r {
                Some(wrapper) => {
                    &&& registered(old(self)@, meta@)
                    &&& wrapper@ == lookup(old(self)@, meta@)
                    &&& final(self)@ == old(self)@.update(place(old(self)@, meta@), final(wrapper)@)
                },
                None => !registered(old(self)@, meta@) && final(self)@ == old(self)@,
            },
    {
        match self.position(meta) {
            Some(i) => Some(&mut self.bean_map[i]),
            None => None,
        }
    }
}

/// the context to store all beans, while it is being built
pub struct AppContextBuilder {
    inner: AppContextInner,
}

impl View for AppContextBuilder {
    type V = Seq<BeanView>;

    /// What is known about each bean, in the order of registration.
    closed spec fn view(&self) -> Seq<BeanView> {
        self.inner@
    }
}

impl AppContextBuilder {
    /// init method
    pub fn new() -> (builder: Self)
        ensures
            builder@ == Seq::<BeanView>::empty(),
            wf(builder@),
    {
        AppContextBuilder { inner: AppContextInner { bean_map: Vec::new() } }
    }

    /// The beans.
    pub fn inner(&self) -> (inner: &AppContextInner)
        ensures
            inner@ == self@,
    {
        &self.inner
    }

    /// The beans, to be changed.
    pub fn inner_mut(&mut self) -> (inner: &mut AppContextInner)
        ensures
            inner@ == old(self)@,
            final(self)@ == final(inner)@,
    {
        &mut self.inner
    }

    /// The beans, apart from the builder.
    pub(crate) fn into_inner(self) -> (inner: AppContextInner)
        ensures
            inner@ == self@,
    {
        self.inner
    }

    /// acquire the `BeanRef` of a bean.
    /// because of the initialization order, the bean may not be constructed yet:
    /// where it is not even registered, it is, with a cell to put it into
    pub fn acquire_bean_or_init<T: Send + Sync + 'static>(
        &mut self,
        ty: BeanType<T>,
        name: &'static str,
    ) -> (r: BeanRef<T>)
        requires
            wf(old(self)@),
            registered(old(self)@, ty.meta(name@)) ==> typed::<T>(
                lookup(old(self)@, ty.meta(name@)).bean,
            ),
        ensures
            wf(final(self)@),
            registered(final(self)@, ty.meta(name@)),
            ({
                let bean = lookup(final(self)@, ty.meta(name@));
                &&& final(self)@ == asked_for(old(self)@, ty.meta(name@), bean.bean, bean.writer->0)
                &&& !registered(old(self)@, ty.meta(name@)) ==> bean.reserved::<T>()
                &&& refers(r.weak(), bean.bean)
            }),
    {
        let meta = BeanMetadata::build_meta(&ty, name);
        let i: usize = match self.inner.position(&meta) {
            Some(i) => i,
            None => {
                let i: usize = self.inner.bean_map.len();
                let wrapper = BeanWrapper::empty::<T>(meta);
                let ghost blank = wrapper@;
                self.inner.bean_map.push(wrapper);
                assert(self@ == old(self)@.push(blank));
                i
            },
        };
        proof {
            assert(self.inner.bean_map@[i as int]@ == self@[i as int]);
            lemma_place(self@, i as int);
        }
        self.inner.bean_map[i].build_bean_ref()
    }

    /// construct a bean and hand over to `AppContextBuilder`: `built` is what came of
    /// building it.
    /// the bean type must implement `BuildFromContext`
    pub fn construct_bean<C, E, F, T: BuildFromContext<C, E, F> + Send + Sync + 'static>(
        self,
        ty: BeanType<T>,
        name: &'static str,
        built: Result<T, F>,
    ) -> (r: Result<Self, F>)
        requires
            wf(self@),
            built is Ok ==> free(self@, ty.meta(name@)),
            built is Ok && registered(self@, ty.meta(name@)) ==> lookup(
                self@,
                ty.meta(name@),
            ).reserved::<T>(),
        ensures
            match built {
                Ok(bean) => {
                    &&& r matches Ok(builder)
                    &&& wf(builder@)
                    &&& registered(builder@, ty.meta(name@))
                    &&& ({
                        let made = lookup(builder@, ty.meta(name@));
                        &&& made.constructed_as::<C, E, F, T>()
                        &&& filled(made.bean, bean)
                        &&& made.bean == cell_of(self@, ty.meta(name@), made.bean)
                        &&& builder@ == constructed(self@, made)
                    })
                },
                Err(e) => r matches Err(f) && f == e,
            },
    {
        let mut builder = self;
        match built {
            Ok(bean) => {
                let meta = BeanMetadata::build_meta(&ty, name);
                match builder.inner.position(&meta) {
                    Some(i) => {
                        assert(builder.inner.bean_map@[i as int]@ == lookup(self@, meta@));
                        builder.inner.bean_map[i].set_inner_sync::<C, E, F, T>(bean);
                        proof {
                            let made = builder.inner.bean_map@[i as int]@;
                            law_construct(self@, made);
                            assert(builder@ == constructed(self@, made));
                        }
                    },
                    None => {
                        let wrapper = BeanWrapper::sync_one::<C, E, F, T>(bean, meta);
                        let ghost made = wrapper@;
                        builder.inner.bean_map.push(wrapper);
                        proof {
                            law_construct(self@, made);
                            assert(builder@ == constructed(self@, made));
                        }
                    },
                }
                Ok(builder)
            },
            Err(e) => Err(e),
        }
    }

    /// construct a bean and hand over to `AppContextBuilder`: `built` is what came of
    /// building it, which was awaited, and `setup` is what it brings along
    pub fn construct_bean_async<T: Send + Sync + 'static, F>(
        self,
        ty: BeanType<T>,
        name: &'static str,
        built: Result<T, F>,
        setup: AsyncSetup,
    ) -> (r: Result<Self, F>)
        requires
            wf(self@),
            built is Ok ==> free(self@, ty.meta(name@)),
            built is Ok && registered(self@, ty.meta(name@)) ==> lookup(
                self@,
                ty.meta(name@),
            ).reserved::<T>(),
        ensures
            match built {
                Ok(bean) => {
                    &&& r matches Ok(builder)
                    &&& wf(builder@)
                    &&& registered(builder@, ty.meta(name@))
                    &&& ({
                        let made = lookup(builder@, ty.meta(name@));
                        &&& made == BeanView::of_async(made.bean, ty.meta(name@), setup)
                        &&& filled(made.bean, bean)
                        &&& made.bean == cell_of(self@, ty.meta(name@), made.bean)
                        &&& builder@ == constructed(self@, made)
                    })
                },
                Err(e) => r matches Err(f) && f == e,
            },
    {
        let mut builder = self;
        match built {
            Ok(bean) => {
                let meta = BeanMetadata::build_meta(&ty, name);
                match builder.inner.position(&meta) {
                    Some(i) => {
                        assert(builder.inner.bean_map@[i as int]@ == lookup(self@, meta@));
                        builder.inner.bean_map[i].set_inner_async(bean, setup);
                        proof {
                            let made = builder.inner.bean_map@[i as int]@;
                            law_construct(self@, made);
                            assert(builder@ == constructed(self@, made));
                        }
                    },
                    None => {
                        let wrapper = BeanWrapper::async_one(bean, meta, setup);
                        let ghost made = wrapper@;
                        builder.inner.bean_map.push(wrapper);
                        proof {
                            law_construct(self@, made);
                            assert(builder@ == constructed(self@, made));
                        }
                    },
                }
                Ok(builder)
            },
            Err(e) => Err(e),
        }
    }

    /// finish construction and create `AppContext`.
    /// this method will go over all beans and ensure all beans are initialized,
    /// but the initialization method will not be ran
    pub fn build_without_init(self) -> (r: Result<AppContext, BeanError>)
        ensures
            match r {
                Ok(ctx) => all_initialized(self@) && ctx@ == self@,
                Err(e) => names_unfinished(self@, e),
            },
    {
        match self.check_init_finished() {
            Ok(_) => Ok(AppContext::of(self.inner)),
            Err(e) => Err(e),
        }
    }

    /// Fails where some bean has not been constructed.
    pub fn check_init_finished(&self) -> (r: Result<(), BeanError>)
        ensures
            match r {
                Ok(_) => all_initialized(self@),
                Err(e) => names_unfinished(self@, e),
            },
    {
        for i in 0..self.inner.bean_map.len()
            invariant
                all_initialized(self@.take(i as int)),
        {
            let wrapper = &self.inner.bean_map[i];
            assert(wrapper@ == self@[i as int]);
            if !wrapper.initialized() {
                return Err(BeanError::NotInitialized(*wrapper.meta()));
            }
            assert forall|j: int| 0 <= j < i + 1 implies (#[trigger] self@.take(i + 1)[j]).initialized() by {
                assert(j < i ==> self@.take(i as int)[j].initialized());
            }
        }
        assert(self@.take(self@.len() as int) == self@);
        Ok(())
    }

    /// Fails where the construction of some bean was awaited.
    pub fn check_contains_async(&self) -> (r: Result<(), BeanError>)
        requires
            wf(self@),
            all_initialized(self@),
        ensures
            match r {
                Ok(_) => !some_async(self@),
                Err(e) => names_async(self@, e),
            },
    {
        for i in 0..self.inner.bean_map.len()
            invariant
                wf(self@),
                all_initialized(self@),
                !some_async(self@.take(i as int)),
        {
            let wrapper = &self.inner.bean_map[i];
            assert(wrapper@ == self@[i as int]);
            if wrapper.is_async() {
                return Err(BeanError::HasAsync(*wrapper.meta()));
            }
            assert forall|j: int| 0 <= j < i + 1 implies (#[trigger] self@.take(i + 1)[j]).is_async != Some(
                true,
            ) by {
                assert(j < i ==> self@.take(i as int)[j].is_async != Some(true));
            }
        }
        assert(self@.take(self@.len() as int) == self@);
        Ok(())
    }

    /// finish construction and create `AppContext`, with beans of either kind
    pub fn build_all(self) -> (r: Result<AppContext, BeanError>)
        ensures
            match r {
                Ok(ctx) => all_initialized(self@) && ctx@ == self@,
                Err(e) => names_unfinished(self@, e),
            },
    {
        match self.check_init_finished() {
            Ok(_) => Ok(AppContext::of(self.inner)),
            Err(e) => Err(e),
        }
    }
}

/// `Arc::strong_count`: how many strong references there are at the moment, of
/// which nothing is said.
#[verifier::external_body]
fn strong_count<T>(shared: &Arc<T>) -> (count: usize) {
    Arc::strong_count(shared)
}

/// `count` is what `Arc::strong_count` gave at some moment.
pub closed spec fn counted<T>(shared: Arc<T>, count: usize) -> bool {
    call_ensures(strong_count::<T>, (&shared,), count)
}

/// How many strong references there are at the moment.
pub(crate) fn count_holders<T>(shared: &Arc<T>) -> (count: usize)
    ensures
        counted(*shared, count),
{
    strong_count(shared)
}

/// the context to store all beans.
/// `AppContext` owns the ownership of all registered beans.
/// When `AppContext` is dropped, all beans will be dropped too
pub struct AppContext {
    inner: SharedBeans,
}

impl View for AppContext {
    type V = Seq<BeanView>;

    /// What is known about each bean, in the order of registration.
    closed spec fn view(&self) -> Seq<BeanView> {
        self.inner.shared()@
    }
}

impl Clone for AppContext {
    fn clone(&self) -> (copy: Self)
        ensures
            copy == *self,
            copy@ == self@,
    {
        AppContext { inner: self.inner.share(&Keeper::new()) }
    }
}

/// The references are to what the handles keep, one by one.
pub open spec fn refs_to<T: Send + Sync + 'static>(refs: Seq<BeanRef<T>>, beans: Seq<Handle>) -> bool {
    &&& refs.len() == beans.len()
    &&& forall|i: int| 0 <= i < beans.len() ==> refers((#[trigger] refs[i]).weak(), beans[i])
}

impl AppContext {
    /// A context with these beans.
    pub(crate) fn of(inner: AppContextInner) -> (ctx: Self)
        ensures
            ctx@ == inner@,
    {
        AppContext { inner: SharedBeans::new(inner) }
    }

    /// The beans.
    pub fn inner(&self) -> (inner: &AppContextInner)
        ensures
            inner@ == self@,
    {
        self.inner.get()
    }

    /// the method `try_acquire_bean` can be used to get bean from runtime,
    /// like `ApplicationContext` in SpringBoot
    pub fn try_acquire_bean<T: Send + Sync + 'static>(
        &self,
        ty: BeanType<T>,
        name: &'static str,
    ) -> (r: Option<BeanRef<T>>)
        requires
            wf(self@),
            registered(self@, ty.meta(name@)) ==> typed::<T>(
                lookup(self@, ty.meta(name@)).bean,
            ),
        ensures
            match r {
                Some(bean) => {
                    &&& registered(self@, ty.meta(name@))
                    &&& refers(bean.weak(), lookup(self@, ty.meta(name@)).bean)
                },
                None => !registered(self@, ty.meta(name@)),
            },
    {
        let meta = BeanMetadata::build_meta(&ty, name);
        match self.inner().get(&meta) {
            Some(wrapper) => Some(wrapper.build_bean_ref()),
            None => None,
        }
    }

    /// the method `acquire_bean` gets a bean that is known to be registered
    pub fn acquire_bean<T: Send + Sync + 'static>(
        &self,
        ty: BeanType<T>,
        name: &'static str,
    ) -> (r: BeanRef<T>)
        requires
            wf(self@),
            registered(self@, ty.meta(name@)),
            typed::<T>(lookup(self@, ty.meta(name@)).bean),
        ensures
            refers(r.weak(), lookup(self@, ty.meta(name@)).bean),
    {
        self.try_acquire_bean(ty, name).unwrap()
    }

    /// the method `acquire_beans_by_type` can be used to get multiple beans with same type
    pub fn acquire_beans_by_type<T: Send + Sync + 'static>(&self, ty: BeanType<T>) -> (r: Vec<
        BeanRef<T>,
    >)
        requires
            forall|i: int|
                0 <= i < self@.len() && (#[trigger] self@[i]).meta.bean_type == ty.bean_type@
                    ==> typed::<T>(self@[i].bean),
        ensures
            refs_to(r@, of_type(self@, ty.bean_type@)),
    {
        let mut refs: Vec<BeanRef<T>> = Vec::new();
        let beans = self.inner();
        for i in 0..beans.bean_map.len()
            invariant
                beans@ == self@,
                refs_to(refs@, of_type(self@.take(i as int), ty.bean_type@)),
                forall|i: int|
                    0 <= i < self@.len() && (#[trigger] self@[i]).meta.bean_type == ty.bean_type@
                        ==> typed::<T>(self@[i].bean),
        {
            let wrapper = &beans.bean_map[i];
            assert(wrapper@ == self@[i as int]);
            proof {
                lemma_of_type_next(self@, ty.bean_type@, i as int);
            }
            if str_eq(wrapper.meta().bean_type, ty.bean_type) {
                refs.push(wrapper.build_bean_ref());
            }
        }
        assert(self@.take(self@.len() as int) == self@);
        refs
    }

    /// the method `acquire_beans_by_name` can be used to get multiple beans with same name
    pub fn acquire_beans_by_name<T: Send + Sync + 'static>(&self, name: &'static str) -> (r: Vec<
        BeanRef<T>,
    >)
        requires
            forall|i: int|
                0 <= i < self@.len() && (#[trigger] self@[i]).meta.bean_name == name@
                    ==> typed::<T>(self@[i].bean),
        ensures
            refs_to(r@, of_name(self@, name@)),
    {
        let mut refs: Vec<BeanRef<T>> = Vec::new();
        let beans = self.inner();
        for i in 0..beans.bean_map.len()
            invariant
                beans@ == self@,
                refs_to(refs@, of_name(self@.take(i as int), name@)),
                forall|i: int|
                    0 <= i < self@.len() && (#[trigger] self@[i]).meta.bean_name == name@
                        ==> typed::<T>(self@[i].bean),
        {
            let wrapper = &beans.bean_map[i];
            assert(wrapper@ == self@[i as int]);
            proof {
                lemma_of_name_next(self@, name@, i as int);
            }
            if str_eq(wrapper.meta().bean_name, name) {
                refs.push(wrapper.build_bean_ref());
            }
        }
        assert(self@.take(self@.len() as int) == self@);
        refs
    }

    /// `count` strong references to the beans were counted at some moment.
    pub closed spec fn clones_counted(&self, count: usize) -> bool {
        counted(self.inner.shared(), count)
    }

    /// whether current `AppContext` do not contains any arc clone
    pub fn is_last_clone(&self) -> (r: bool)
        ensures
            exists|count: usize| #[trigger] self.clones_counted(count) && r == (count == 1),
    {
        let count: usize = self.inner.count();
        assert(self.clones_counted(count));
        count == 1
    }
}

/// The beans of a type among the first `i + 1` beans.
proof fn lemma_of_type_next(beans: Seq<BeanView>, bean_type: Seq<char>, i: int)
    requires
        0 <= i < beans.len(),
    ensures
        of_type(beans.take(i + 1), bean_type) == if beans[i].meta.bean_type == bean_type {
            of_type(beans.take(i), bean_type).push(beans[i].bean)
        } else {
            of_type(beans.take(i), bean_type)
        },
{
    reveal(Seq::filter);
    assert(beans.take(i + 1).drop_last() == beans.take(i));
}

/// The beans of a name among the first `i + 1` beans.
proof fn lemma_of_name_next(beans: Seq<BeanView>, bean_name: Seq<char>, i: int)
    requires
        0 <= i < beans.len(),
    ensures
        of_name(beans.take(i + 1), bean_name) == if beans[i].meta.bean_name == bean_name {
            of_name(beans.take(i), bean_name).push(beans[i].bean)
        } else {
            of_name(beans.take(i), bean_name)
        },
{
    reveal(Seq::filter);
    assert(beans.take(i + 1).drop_last() == beans.take(i));
}

} // verus!
