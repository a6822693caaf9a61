//! The initialization of the beans, each after those that it depends on.
use crate::context::{
    all_initialized, lemma_place, lookup, names_async, names_unfinished, place, registered, some_async,
    wf, AppContext, AppContextBuilder, AppContextInner,
};
use crate::depend::{edges, grounded, grouped, init_order, init_plan, is_cycle, is_path, DepTree};
use crate::error::BeanError;
use crate::laws::{law_no_order_on_a_cycle, law_tree_of_dependencies};
use crate::lifecycle::{Call, CallLog};
use crate::metadata::{meta_views, BeanMetadata, MetaView};
use crate::wrapper::{called, BeanView, CustomFnEnum};
use vstd::prelude::*;

verus! {

/// The calls by which the beans of `order` were initialized: the function of each was called
/// once, in order and with success.
pub open spec fn initialized_by(beans: Seq<BeanView>, order: Seq<MetaView>, calls: Seq<Call>) -> bool {
    &&& calls.len() == order.len()
    &&& forall|k: int|
        0 <= k < order.len() ==> {
            let call = #[trigger] calls[k];
            &&& call.f == lookup(beans, order[k]).init_hook()
            &&& call.f.gave(call.r)
            &&& call.r is Ok
        }
}

/// Each bean of `order` that comes up can be initialized: it is registered, and its function
/// is not to be awaited. A bean comes up if those before it were initialized with success.
pub open spec fn can_walk(beans: Seq<BeanView>, order: Seq<MetaView>) -> bool {
    forall|k: int, calls: Seq<Call>|
        0 <= k < order.len() && #[trigger] initialized_by(beans, order.take(k), calls) ==> {
            &&& registered(beans, order[k])
            &&& lookup(beans, order[k]).init_fn matches Some(CustomFnEnum::Sync(_))
        }
}

/// The beans after those of `done` were initialized.
pub open spec fn in_use(beans: Seq<BeanView>, done: Seq<MetaView>) -> Seq<BeanView> {
    beans.map_values(|bean: BeanView| bean.after_init(done.contains(bean.meta)))
}

/// `r` is what initializing the beans of `order` one by one came to. It ends with the first
/// bean that fails. `before` and `after` are the calls on record, and the beans became
/// `left`.
pub open spec fn walked(
    beans: Seq<BeanView>,
    order: Seq<MetaView>,
    before: Seq<Call>,
    after: Seq<Call>,
    left: Seq<BeanView>,
    r: Result<(), BeanError>,
) -> bool {
    exists|k: int, calls: Seq<Call>|
        {
            &&& 0 <= k <= order.len()
            &&& #[trigger] initialized_by(beans, order.take(k), calls)
            &&& left == in_use(beans, order.take(k))
            &&& match r {
                Ok(_) => k == order.len() && after == before + calls,
                Err(_) => k < order.len() && called(
                    before + calls,
                    after,
                    lookup(beans, order[k]).init_hook(),
                    order[k],
                    r,
                ),
            }
        }
}

/// Initializing beans changes nothing but their status.
pub(crate) proof fn lemma_in_use(beans: Seq<BeanView>, done: Seq<MetaView>, meta: MetaView)
    requires
        wf(beans),
        forall|i: int|
            0 <= i < beans.len() && done.contains((#[trigger] beans[i]).meta) ==> beans[i].initialized(),
    ensures
        wf(in_use(beans, done)),
        registered(in_use(beans, done), meta) == registered(beans, meta),
        registered(beans, meta) ==> {
            &&& place(in_use(beans, done), meta) == place(beans, meta)
            &&& lookup(in_use(beans, done), meta) == lookup(beans, meta).after_init(
                done.contains(meta),
            )
        },
{
    let left = in_use(beans, done);
    assert(forall|i: int| 0 <= i < beans.len() ==> (#[trigger] left[i]).meta == beans[i].meta);
    assert forall|i: int| 0 <= i < left.len() implies (#[trigger] left[i]).wf() by {
        assert(beans[i].wf());
    }
    if registered(beans, meta) {
        let i = place(beans, meta);
        assert(left[i].meta == meta);
        lemma_place(left, i);
    }
    if registered(left, meta) {
        assert(beans[place(left, meta)].meta == meta);
    }
}

/// The beans after one more of `order` was initialized.
proof fn lemma_one_more(beans: Seq<BeanView>, order: Seq<MetaView>, k: int)
    requires
        wf(beans),
        0 <= k < order.len(),
        registered(beans, order[k]),
        forall|i: int|
            0 <= i < beans.len() && order.take(k).contains((#[trigger] beans[i]).meta)
                ==> beans[i].initialized(),
    ensures
        ({
            let left = in_use(beans, order.take(k));
            let i = place(left, order[k]);
            in_use(beans, order.take(k + 1)) == left.update(i, left[i].after_init(true))
        }),
{
    let left = in_use(beans, order.take(k));
    let more = in_use(beans, order.take(k + 1));
    lemma_in_use(beans, order.take(k), order[k]);
    let i = place(left, order[k]);
    assert forall|j: int| 0 <= j < beans.len() implies #[trigger] more[j] == left.update(
        i,
        left[i].after_init(true),
    )[j] by {
        let meta = beans[j].meta;
        lemma_place(beans, j);
        let fewer = order.take(k);
        let upto = order.take(k + 1);
        if fewer.contains(meta) {
            assert(upto[fewer.index_of(meta)] == meta);
        }
        if upto.contains(meta) && meta != order[k] {
            assert(fewer[upto.index_of(meta)] == meta);
        }
        assert(upto[k] == order[k]);
    }
    assert(more =~= left.update(i, left[i].after_init(true)));
}

impl AppContextInner {
    /// Initializes the bean `meta`.
    fn init_one(&mut self, meta: &BeanMetadata, log: &mut CallLog) -> (r: Result<(), BeanError>)
        requires
            wf(old(self)@),
            registered(old(self)@, meta@),
            lookup(old(self)@, meta@).init_fn matches Some(CustomFnEnum::Sync(_)),
        ensures
            called(old(log)@, final(log)@, lookup(old(self)@, meta@).init_hook(), meta@, r),
            final(self)@ == old(self)@.update(
                place(old(self)@, meta@),
                lookup(old(self)@, meta@).after_init(r is Ok),
            ),
    {
        assert(lookup(self@, meta@) == self@[place(self@, meta@)]);
        let wrapper = self.get_mut(meta).unwrap();
        wrapper.run_init_fn(log)
    }

    /// Initializes the beans of `plan` one by one.
    pub fn init_each(&mut self, plan: &Vec<BeanMetadata>, log: &mut CallLog) -> (r: Result<(), BeanError>)
        requires
            wf(old(self)@),
            can_walk(old(self)@, meta_views(plan@)),
        ensures
            walked(old(self)@, meta_views(plan@), old(log)@, final(log)@, final(self)@, r),
            wf(final(self)@),
    {
        let ghost beans = self@;
        let ghost order = meta_views(plan@);
        let ghost mut calls: Seq<Call> = Seq::empty();
        assert(in_use(beans, order.take(0)) == beans) by {
            assert forall|i: int| 0 <= i < beans.len() implies #[trigger] in_use(beans, order.take(0))[i]
                == beans[i] by {
                assert(!order.take(0).contains(beans[i].meta));
            }
        }
        assert(old(log)@ + calls == old(log)@);
        for i in 0..plan.len()
            invariant
                wf(beans),
                forall|j: int|
                    0 <= j < beans.len() && order.take(i as int).contains((#[trigger] beans[j]).meta)
                        ==> beans[j].initialized(),
                order == meta_views(plan@),
                beans == old(self)@,
                can_walk(beans, order),
                initialized_by(beans, order.take(i as int), calls),
                log@ == old(log)@ + calls,
                self@ == in_use(beans, order.take(i as int)),
        {
            let meta = plan[i];
            proof {
                assert(order[i as int] == meta@);
                lemma_in_use(beans, order.take(i as int), meta@);
            }
            let ghost before = log@;
            match self.init_one(&meta, log) {
                Ok(_) => {
                    proof {
                        let more = order.take(i + 1);
                        let longer = calls.push(log@.last());
                        assert forall|k: int| 0 <= k < more.len() implies {
                            let call = #[trigger] longer[k];
                            &&& call.f == lookup(beans, more[k]).init_hook()
                            &&& call.f.gave(call.r)
                            &&& call.r is Ok
                        } by {
                            if k < i {
                                assert(longer[k] == calls[k]);
                                assert(more[k] == order.take(i as int)[k]);
                            }
                        }
                        assert(log@ == old(log)@ + longer);
                        lemma_one_more(beans, order, i as int);
                        assert forall|j: int|
                            0 <= j < beans.len() && more.contains((#[trigger] beans[j]).meta) implies beans[j].initialized() by {
                            let at = more.index_of(beans[j].meta);
                            lemma_place(beans, j);
                            if at < i {
                                assert(order.take(i as int)[at] == beans[j].meta);
                            }
                        }
                        calls = longer;
                    }
                },
                Err(e) => {
                    proof {
                        assert(self@ == in_use(beans, order.take(i as int)));
                        assert(walked(beans, order, old(log)@, log@, self@, Err(e)));
                    }
                    return Err(e);
                },
            }
        }
        proof {
            assert(order.take(order.len() as int) == order);
            lemma_in_use(beans, order, arbitrary());
        }
        Ok(())
    }
}

/// Initializes the beans on the way from the last bean of `history`.
pub fn init_recursive(
    beans: &mut AppContextInner,
    dep_map: &DepTree,
    history: Vec<BeanMetadata>,
    log: &mut CallLog,
) -> (r: Result<(), BeanError>)
    requires
        wf(old(beans)@),
        dep_map.wf(),
        history@.len() > 0,
        grounded(dep_map@, history@.last()@),
        can_walk(old(beans)@, init_order(dep_map@, history@.last()@)),
    ensures
        walked(
            old(beans)@,
            init_order(dep_map@, history@.last()@),
            old(log)@,
            final(log)@,
            final(beans)@,
            r,
        ),
        wf(final(beans)@),
{
    let plan = init_plan(dep_map, history[history.len() - 1]);
    beans.init_each(&plan, log)
}

/// The bean `meta` depends on `dep`.
pub open spec fn depends(beans: Seq<BeanView>, meta: MetaView, dep: MetaView) -> bool {
    registered(beans, meta) && (lookup(beans, meta).depends_on->0).contains(dep)
}

/// The beans of `order` are registered, stand there once, and each stands after those
/// that it depends on. What is not registered is not waited for.
pub open spec fn in_order(beans: Seq<BeanView>, order: Seq<MetaView>) -> bool {
    &&& order.no_duplicates()
    &&& forall|k: int| 0 <= k < order.len() ==> registered(beans, #[trigger] order[k])
    &&& forall|k: int, dep: MetaView|
        0 <= k < order.len() && #[trigger] depends(beans, order[k], dep) && registered(beans, dep)
            ==> order.take(k).contains(dep)
}

/// An order of all beans.
pub open spec fn order_of_all(beans: Seq<BeanView>, order: Seq<MetaView>) -> bool {
    &&& in_order(beans, order)
    &&& forall|i: int| 0 <= i < beans.len() ==> order.contains((#[trigger] beans[i]).meta)
}

/// Dependencies lead round in a circle.
pub open spec fn cyclic(beans: Seq<BeanView>) -> bool {
    exists|path: Seq<MetaView>| is_cycle(grouped(edges(beans, false)), path)
}

/// The bean `meta` depends on `dep`, which is registered and not among `planned`.
pub open spec fn waits(
    beans: Seq<BeanView>,
    planned: Seq<MetaView>,
    meta: MetaView,
    dep: MetaView,
) -> bool {
    depends(beans, meta, dep) && registered(beans, dep) && !planned.contains(dep)
}

/// There are no more of them than there are beans.
pub(crate) proof fn lemma_bounded(beans: Seq<BeanView>, metas: Seq<MetaView>)
    requires
        metas.no_duplicates(),
        forall|k: int| 0 <= k < metas.len() ==> registered(beans, #[trigger] metas[k]),
    ensures
        metas.len() <= beans.len(),
{
    let all = beans.map_values(|bean: BeanView| bean.meta);
    metas.unique_seq_to_set();
    all.lemma_cardinality_of_set();
    assert forall|m: MetaView| metas.to_set().contains(m) implies #[trigger] all.to_set().contains(m) by {
        let k = choose|k: int| 0 <= k < metas.len() && metas[k] == m;
        assert(registered(beans, metas[k]));
        assert(all[place(beans, m)] == m);
    }
    vstd::set_lib::lemma_len_subset(metas.to_set(), all.to_set());
}

/// Where `meta` stands among `metas`.
fn find(metas: &Vec<BeanMetadata>, meta: &BeanMetadata) -> (r: Option<usize>)
    ensures
        match r {
            Some(i) => i < metas@.len() && metas@[i as int]@ == meta@ && meta_views(metas@).contains(meta@),
            None => !meta_views(metas@).contains(meta@),
        },
{
    for i in 0..metas.len()
        invariant
            forall|j: int| 0 <= j < i ==> (#[trigger] metas@[j])@ != meta@,
    {
        if metas[i] == *meta {
            assert(meta_views(metas@)[i as int] == meta@);
            return Some(i);
        }
    }
    None
}

/// The beans of `path` from number `i` on, and then `end`.
fn cut(path: &Vec<BeanMetadata>, i: usize, end: BeanMetadata) -> (part: Vec<BeanMetadata>)
    requires
        i < path@.len(),
    ensures
        meta_views(part@) == meta_views(path@).push(end@).skip(i as int),
{
    let mut part: Vec<BeanMetadata> = Vec::new();
    for j in i..path.len()
        invariant
            i < path@.len(),
            part@ == path@.subrange(i as int, j as int),
    {
        part.push(path[j]);
    }
    part.push(end);
    assert(meta_views(part@) =~= meta_views(path@).push(end@).skip(i as int));
    part
}

/// What is to be initialized next.
enum Next {
    /// This bean: all that it depends on is planned.
    Ready(BeanMetadata),
    /// Nothing, though this bean is not planned: every bean waits for another.
    Stuck(BeanMetadata),
    /// Nothing, as all is planned.
    Done,
}

impl AppContextInner {
    /// The first bean that the bean `meta` waits for.
    fn waits_for(&self, meta: &BeanMetadata, planned: &Vec<BeanMetadata>) -> (r: Option<BeanMetadata>)
        requires
            wf(self@),
            all_initialized(self@),
            registered(self@, meta@),
        ensures
            match r {
                Some(dep) => waits(self@, meta_views(planned@), meta@, dep@),
                None => forall|dep: MetaView| !#[trigger] waits(self@, meta_views(planned@), meta@, dep),
            },
    {
        let wrapper = self.get(meta).unwrap();
        assert(lookup(self@, meta@) == self@[place(self@, meta@)]);
        let deps = wrapper.depends_on();
        for i in 0..deps.len()
            invariant
                wf(self@),
                registered(self@, meta@),
                lookup(self@, meta@).depends_on == Some(meta_views(deps@)),
                forall|j: int|
                    0 <= j < i ==> !waits(self@, meta_views(planned@), meta@, #[trigger] meta_views(deps@)[j]),
        {
            let dep = deps[i];
            assert(meta_views(deps@)[i as int] == dep@);
            if self.get(&dep).is_some() && find(planned, &dep).is_none() {
                return Some(dep);
            }
        }
        assert forall|dep: MetaView| !#[trigger] waits(self@, meta_views(planned@), meta@, dep) by {
            if waits(self@, meta_views(planned@), meta@, dep) {
                let j = choose|j: int| 0 <= j < deps@.len() && meta_views(deps@)[j] == dep;
                assert(!waits(self@, meta_views(planned@), meta@, meta_views(deps@)[j]));
            }
        }
        None
    }

    /// The first bean that is ready to be initialized after those of `planned`.
    fn next_ready(&self, planned: &Vec<BeanMetadata>) -> (r: Next)
        requires
            wf(self@),
            all_initialized(self@),
        ensures
            match r {
                Next::Ready(meta) => {
                    &&& registered(self@, meta@)
                    &&& !meta_views(planned@).contains(meta@)
                    &&& forall|dep: MetaView| !#[trigger] waits(self@, meta_views(planned@), meta@, dep)
                },
                Next::Stuck(meta) => {
                    &&& registered(self@, meta@)
                    &&& !meta_views(planned@).contains(meta@)
                    &&& stuck(self@, meta_views(planned@))
                },
                Next::Done => forall|i: int|
                    0 <= i < self@.len() ==> meta_views(planned@).contains((#[trigger] self@[i]).meta),
            },
    {
        let mut left: Option<BeanMetadata> = None;
        let count: usize = self.len();
        for i in 0..count
            invariant
                count == self@.len(),
                wf(self@),
                all_initialized(self@),
                match left {
                    Some(meta) => registered(self@, meta@) && !meta_views(planned@).contains(meta@),
                    None => forall|j: int|
                        0 <= j < i ==> meta_views(planned@).contains((#[trigger] self@[j]).meta),
                },
                forall|j: int|
                    0 <= j < i && !meta_views(planned@).contains((#[trigger] self@[j]).meta)
                        ==> exists|dep: MetaView| waits(self@, meta_views(planned@), self@[j].meta, dep),
        {
            let meta = *self.at(i).meta();
            proof {
                lemma_place(self@, i as int);
            }
            if find(planned, &meta).is_none() {
                if self.waits_for(&meta, planned).is_none() {
                    return Next::Ready(meta);
                }
                if left.is_none() {
                    left = Some(meta);
                }
            }
        }
        match left {
            Some(meta) => {
                assert forall|m: MetaView|
                    registered(self@, m) && !meta_views(planned@).contains(m) implies exists|dep: MetaView|
                    #[trigger]
                    waits(self@, meta_views(planned@), m, dep) by {
                    assert(self@[place(self@, m)].meta == m);
                }
                proof {
                    reveal(stuck);
                }
                Next::Stuck(meta)
            },
            None => Next::Done,
        }
    }

    /// A path of dependencies that leads back to where it starts. `start` is where the
    /// search for it begins.
    fn find_cycle(&self, planned: &Vec<BeanMetadata>, start: BeanMetadata) -> (path: Vec<BeanMetadata>)
        requires
            wf(self@),
            all_initialized(self@),
            registered(self@, start@),
            !meta_views(planned@).contains(start@),
            stuck(self@, meta_views(planned@)),
        ensures
            is_cycle(grouped(edges(self@, false)), meta_views(path@)),
    {
        let mut path: Vec<BeanMetadata> = Vec::new();
        path.push(start);
        assert(meta_views(path@) == seq![start@]);
        loop
            invariant
                wf(self@),
                all_initialized(self@),
                stuck(self@, meta_views(planned@)),
                path@.len() > 0,
                meta_views(path@).no_duplicates(),
                !meta_views(planned@).contains(path@.last()@),
                forall|k: int| 0 <= k < path@.len() ==> registered(self@, #[trigger] meta_views(path@)[k]),
                is_path(grouped(edges(self@, false)), meta_views(path@)),
            decreases self@.len() - path@.len(),
        {
            let last = path[path.len() - 1];
            assert(meta_views(path@)[path@.len() - 1] == last@);
            proof {
                lemma_stuck(self@, meta_views(planned@), last@);
            }
            let dep = self.waits_for(&last, planned).unwrap();
            proof {
                lemma_bounded(self@, meta_views(path@));
                law_tree_of_dependencies(self@, last@);
                lemma_path_push(grouped(edges(self@, false)), meta_views(path@), dep@);
            }
            match find(&path, &dep) {
                Some(i) => {
                    let cycle = cut(&path, i, dep);
                    proof {
                        lemma_cycle(grouped(edges(self@, false)), meta_views(path@).push(dep@), i as int);
                    }
                    return cycle;
                },
                None => {
                    let ghost before = meta_views(path@);
                    path.push(dep);
                    proof {
                        assert(meta_views(path@) == before.push(dep@));
                        lemma_bounded(self@, meta_views(path@));
                    }
                },
            }
        }
    }

    /// An order in which each bean stands after those that it depends on or, where there
    /// is none, dependencies that lead round in a circle.
    pub fn order_by_dependencies(&self) -> (r: Result<Vec<BeanMetadata>, Vec<BeanMetadata>>)
        requires
            wf(self@),
            all_initialized(self@),
        ensures
            match r {
                Ok(plan) => order_of_all(self@, meta_views(plan@)),
                Err(path) => is_cycle(grouped(edges(self@, false)), meta_views(path@)),
            },
    {
        let mut planned: Vec<BeanMetadata> = Vec::new();
        loop
            invariant
                wf(self@),
                all_initialized(self@),
                in_order(self@, meta_views(planned@)),
            decreases self@.len() - planned@.len(),
        {
            proof {
                lemma_bounded(self@, meta_views(planned@));
            }
            match self.next_ready(&planned) {
                Next::Ready(meta) => {
                    let ghost before = meta_views(planned@);
                    planned.push(meta);
                    proof {
                        assert(meta_views(planned@) == before.push(meta@));
                        lemma_order_push(self@, before, meta@);
                        lemma_bounded(self@, meta_views(planned@));
                    }
                },
                Next::Stuck(meta) => {
                    return Err(self.find_cycle(&planned, meta));
                },
                Next::Done => {
                    return Ok(planned);
                },
            }
        }
    }
}

/// What came of building a context whose beans are all constructed, none of them
/// awaited: the beans were initialized in an order in which each stands after those that
/// it depends on, or the first failure is reported, or dependencies lead round in a
/// circle and no bean was initialized.
pub open spec fn built(
    beans: Seq<BeanView>,
    before: Seq<Call>,
    after: Seq<Call>,
    r: Result<AppContext, BeanError>,
) -> bool {
    match r {
        Ok(ctx) => exists|order: Seq<MetaView>|
            {
                &&& #[trigger] order_of_all(beans, order)
                &&& walked(beans, order, before, after, ctx@, Ok(()))
            },
        Err(BeanError::CyclicDependency(path)) => {
            &&& is_cycle(grouped(edges(beans, false)), meta_views(path@))
            &&& after == before
        },
        Err(e) => exists|order: Seq<MetaView>, left: Seq<BeanView>|
            {
                &&& order_of_all(beans, order)
                &&& #[trigger] walked(beans, order, before, after, left, Err(e))
            },
    }
}

impl AppContextBuilder {
    /// finish construction and create `AppContext`.
    /// this method will go over all beans and ensure all beans are initialized and none
    /// of them was awaited, and then run the initialization method of each bean after
    /// those of the beans that it depends on
    pub fn build_non_async(self, log: &mut CallLog) -> (r: Result<AppContext, BeanError>)
        requires
            wf(self@),
        ensures
            !all_initialized(self@) ==> final(log)@ == old(log)@ && (r matches Err(e)
                && names_unfinished(self@, e)),
            all_initialized(self@) && some_async(self@) ==> final(log)@ == old(log)@ && (r matches Err(e)
                && names_async(self@, e)),
            all_initialized(self@) && !some_async(self@) ==> {
                &&& built(self@, old(log)@, final(log)@, r)
                &&& cyclic(self@) <==> (r matches Err(BeanError::CyclicDependency(_)))
            },
            r matches Ok(ctx) ==> {
                &&& wf(ctx@)
                &&& ctx@.len() == self@.len()
                &&& forall|i: int| 0 <= i < self@.len() ==> #[trigger] ctx@[i] == self@[i].after_init(true)
            },
    {
        match self.check_init_finished() {
            Err(e) => {
                return Err(e);
            },
            Ok(_) => {},
        }
        match self.check_contains_async() {
            Err(e) => {
                return Err(e);
            },
            Ok(_) => {},
        }
        let ghost beans = self@;
        let mut inner = self.into_inner();
        match inner.order_by_dependencies() {
            Err(path) => Err(BeanError::CyclicDependency(path)),
            Ok(plan) => {
                let ghost order = meta_views(plan@);
                proof {
                    assert forall|k: int, calls: Seq<Call>|
                        0 <= k < order.len() && #[trigger] initialized_by(
                            beans,
                            order.take(k),
                            calls,
                        ) implies {
                        &&& registered(beans, order[k])
                        &&& lookup(beans, order[k]).init_fn matches Some(CustomFnEnum::Sync(_))
                    } by {
                        let i = place(beans, order[k]);
                        assert(beans[i].wf() && beans[i].initialized() && beans[i].is_async != Some(true));
                    }
                    law_no_order_on_a_cycle(beans, order);
                }
                match inner.init_each(&plan, log) {
                    Ok(_) => {
                        let ctx = AppContext::of(inner);
                        proof {
                            assert(walked(beans, order, old(log)@, log@, ctx@, Ok(())));
                            assert(order.take(order.len() as int) == order);
                            assert(ctx@ == in_use(beans, order));
                            assert forall|i: int| 0 <= i < beans.len() implies #[trigger] ctx@[i]
                                == beans[i].after_init(true) by {
                                assert(order.contains(beans[i].meta));
                            }
                        }
                        Ok(ctx)
                    },
                    Err(e) => Err(e),
                }
            },
        }
    }
}

/// Every bean that is not planned waits for another.
#[verifier::opaque]
spec fn stuck(beans: Seq<BeanView>, planned: Seq<MetaView>) -> bool {
    forall|meta: MetaView|
        #[trigger] registered(beans, meta) && !planned.contains(meta) ==> exists|dep: MetaView|
            waits(beans, planned, meta, dep)
}

proof fn lemma_stuck(beans: Seq<BeanView>, planned: Seq<MetaView>, meta: MetaView)
    requires
        stuck(beans, planned),
        registered(beans, meta),
        !planned.contains(meta),
    ensures
        exists|dep: MetaView| waits(beans, planned, meta, dep),
{
    reveal(stuck);
}

/// A path goes on with what its last bean depends on.
proof fn lemma_path_push(tree: Map<MetaView, Seq<MetaView>>, path: Seq<MetaView>, next: MetaView)
    requires
        path.len() > 0,
        is_path(tree, path),
        tree.dom().contains(path.last()),
        tree[path.last()].contains(next),
    ensures
        is_path(tree, path.push(next)),
{
    let longer = path.push(next);
    assert forall|i: int| 0 <= i < longer.len() - 1 implies tree.dom().contains(#[trigger] longer[i])
        && tree[longer[i]].contains(longer[i + 1]) by {
        if i < path.len() - 1 {
            assert(longer[i] == path[i]);
            assert(longer[i + 1] == path[i + 1]);
        }
    }
}

/// A path that comes back to a bean holds a cycle.
proof fn lemma_cycle(tree: Map<MetaView, Seq<MetaView>>, path: Seq<MetaView>, i: int)
    requires
        0 <= i < path.len() - 1,
        is_path(tree, path),
        path[i] == path.last(),
    ensures
        is_cycle(tree, path.skip(i)),
{
    let part = path.skip(i);
    assert forall|k: int| 0 <= k < part.len() - 1 implies tree.dom().contains(#[trigger] part[k])
        && tree[part[k]].contains(part[k + 1]) by {
        assert(part[k] == path[i + k]);
        assert(part[k + 1] == path[i + k + 1]);
    }
}

/// A bean that waits for nothing may come next.
proof fn lemma_order_push(beans: Seq<BeanView>, order: Seq<MetaView>, meta: MetaView)
    requires
        in_order(beans, order),
        registered(beans, meta),
        !order.contains(meta),
        forall|dep: MetaView| !#[trigger] waits(beans, order, meta, dep),
    ensures
        in_order(beans, order.push(meta)),
{
    let longer = order.push(meta);
    assert forall|k: int, dep: MetaView|
        0 <= k < longer.len() && #[trigger] depends(beans, longer[k], dep) && registered(
            beans,
            dep,
        ) implies longer.take(k).contains(dep) by {
        assert(longer.take(k) == order.take(k));
        if k < order.len() {
            assert(depends(beans, order[k], dep));
        } else {
            assert(!waits(beans, order, meta, dep));
            assert(order.take(k) == order);
        }
    }
}

} // verus!
