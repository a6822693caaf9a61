//! What each operation does, told of its arguments and what came of it.
use crate::bean_ref::{
    acquired, bean_in, filled, opens, paired, put_with, refers, typed, upgraded, BeanRef, BeanWriter,
    Handle, RefWrapper, WeakCell,
};
use crate::context::{
    all_initialized, cell_of, constructed, lemma_place, lookup, names_async, names_unfinished, of_name, of_type, place,
    refs_to, registered, some_async, wf, AppContext, AppContextBuilder, AppContextInner,
};
use crate::depend::{
    begins_with, edges, ends_within, grounded, grouped, init_order, init_plan, is_cycle, leads,
    lemma_order_within, order_within, orders_within, steps, with_pair, DepTree,
};
use crate::error::{bean_text, path_text, pretty_print, AppContextDroppedError, BeanError, BoxError};
use crate::initialize::{
    built, can_walk, depends, in_use, init_recursive, initialized_by, lemma_bounded, order_of_all, walked,
};
use crate::laws::{
    law_reverse_tree, law_tree_of_dependencies, lemma_behind_own, lemma_filter_source, lemma_leads,
};
use crate::lifecycle::{
    finalizes, initializes, AsyncSetup, BuildFromContext, Call, CallLog, CustomFn, CustomFnAsync,
    SyncSetup,
};
use crate::metadata::{meta_views, BeanMetadata, BeanPriority, BeanType, MetaView};
use crate::wrapper::{called, BeanStatus, BeanView, BeanWrapper, CustomFnEnum};
use once_cell::sync::OnceCell;
use std::sync::Arc;
use vstd::prelude::*;

verus! {

/// The bean is registered under this type and name.
pub open spec fn is_called(bean: BeanView, bean_type: Seq<char>, bean_name: Seq<char>) -> bool {
    bean.meta.bean_type == bean_type && bean.meta.bean_name == bean_name
}

/// What comes of finishing a context with these beans: a context with the same beans where
/// all have been constructed, or the name of the first that has not.
pub open spec fn finished(beans: Seq<BeanView>, r: Result<AppContext, BeanError>) -> bool {
    match r {
        Ok(ctx) => {
            &&& ctx@ == beans
            &&& forall|i: int| 0 <= i < beans.len() ==> (#[trigger] beans[i]).status != BeanStatus::NotInit
        },
        Err(BeanError::NotInitialized(meta)) => exists|i: int|
            {
                &&& 0 <= i < beans.len()
                &&& (#[trigger] beans[i]).status == BeanStatus::NotInit
                &&& is_called(beans[i], meta.bean_type@, meta.bean_name@)
                &&& forall|j: int| 0 <= j < i ==> (#[trigger] beans[j]).status != BeanStatus::NotInit
            },
        Err(_) => false,
    }
}

/// A context is finished with the beans that it was given, and nothing else is done.
pub open spec fn finishing() -> bool {
    &&& forall|builder: AppContextBuilder, r: Result<AppContext, BeanError>| #[trigger]
        call_ensures(AppContextBuilder::build_without_init, (builder,), r) ==> finished(builder@, r)
    &&& forall|builder: AppContextBuilder, r: Result<AppContext, BeanError>| #[trigger]
        call_ensures(AppContextBuilder::build_all, (builder,), r) ==> finished(builder@, r)
}

/// Finishing a context gives a context with the beans that were constructed, or names the
/// first bean that was not.
pub proof fn law_finishing()
    ensures
        finishing(),
{
    assert forall|builder: AppContextBuilder, r: Result<AppContext, BeanError>| #[trigger]
        call_ensures(AppContextBuilder::build_without_init, (builder,), r) implies finished(builder@, r) by {
        lemma_finished(builder@, r);
    }
    assert forall|builder: AppContextBuilder, r: Result<AppContext, BeanError>| #[trigger]
        call_ensures(AppContextBuilder::build_all, (builder,), r) implies finished(builder@, r) by {
        lemma_finished(builder@, r);
    }
}

proof fn lemma_finished(beans: Seq<BeanView>, r: Result<AppContext, BeanError>)
    requires
        match r {
            Ok(ctx) => all_initialized(beans) && ctx@ == beans,
            Err(e) => names_unfinished(beans, e),
        },
    ensures
        finished(beans, r),
{
    if let Err(e) = r {
        lemma_unfinished(beans, e);
    }
}

/// The first bean that has not been constructed.
proof fn lemma_unfinished(beans: Seq<BeanView>, e: BeanError)
    requires
        names_unfinished(beans, e),
    ensures
        finished(beans, Err(e)),
{
    let i = choose|i: int|
        {
            &&& 0 <= i < beans.len()
            &&& !(#[trigger] beans[i]).initialized()
            &&& all_initialized(beans.take(i))
            &&& e matches BeanError::NotInitialized(meta)
            &&& meta@ == beans[i].meta
        };
    assert forall|j: int| 0 <= j < i implies (#[trigger] beans[j]).status != BeanStatus::NotInit by {
        assert(beans.take(i)[j].initialized());
    }
}

/// What looking for one bean gives: a reference to the bean of this type and name, or
/// nothing where there is none.
pub open spec fn found_one<T: Send + Sync + 'static>(
    beans: Seq<BeanView>,
    bean_type: Seq<char>,
    bean_name: Seq<char>,
    r: Option<BeanRef<T>>,
) -> bool {
    match r {
        Some(bean) => exists|i: int|
            {
                &&& 0 <= i < beans.len()
                &&& is_called(#[trigger] beans[i], bean_type, bean_name)
                &&& refers(bean.weak(), beans[i].bean)
            },
        None => forall|i: int|
            0 <= i < beans.len() ==> !is_called(#[trigger] beans[i], bean_type, bean_name),
    }
}

/// The references are to the beans that are wanted, in the order of registration: `at` says
/// where each of these beans stands.
pub open spec fn found_all<T: Send + Sync + 'static>(
    beans: Seq<BeanView>,
    wanted: spec_fn(BeanView) -> bool,
    refs: Seq<BeanRef<T>>,
    at: Seq<int>,
) -> bool {
    &&& at.len() == refs.len()
    &&& forall|k: int|
        0 <= k < at.len() ==> {
            &&& 0 <= #[trigger] at[k] < beans.len()
            &&& wanted(beans[at[k]])
            &&& refers(refs[k].weak(), beans[at[k]].bean)
        }
    &&& forall|k: int, m: int| 0 <= k < m < at.len() ==> #[trigger] at[k] < #[trigger] at[m]
    &&& forall|i: int| 0 <= i < beans.len() && wanted(#[trigger] beans[i]) ==> at.contains(i)
}

pub open spec fn of_this_type(bean_type: Seq<char>) -> spec_fn(BeanView) -> bool {
    |bean: BeanView| bean.meta.bean_type == bean_type
}

pub open spec fn of_this_name(bean_name: Seq<char>) -> spec_fn(BeanView) -> bool {
    |bean: BeanView| bean.meta.bean_name == bean_name
}

/// Looking beans up gives references to them, and nothing else is done.
pub open spec fn looking_up<T: Send + Sync + 'static>() -> bool {
    &&& forall|ctx: &AppContext, ty: BeanType<T>, name: &'static str, r: Option<BeanRef<T>>| #[trigger]
        call_ensures(AppContext::try_acquire_bean::<T>, (ctx, ty, name), r) ==> found_one(
            ctx@,
            ty.bean_type@,
            name@,
            r,
        )
    &&& forall|ctx: &AppContext, ty: BeanType<T>, name: &'static str, r: BeanRef<T>|
        #[trigger] call_ensures(AppContext::acquire_bean::<T>, (ctx, ty, name), r) && (exists|i: int|
            0 <= i < ctx@.len() && is_called(#[trigger] ctx@[i], ty.bean_type@, name@)) ==> found_one(
            ctx@,
            ty.bean_type@,
            name@,
            Some(r),
        )
    &&& forall|ctx: &AppContext, ty: BeanType<T>, r: Vec<BeanRef<T>>| #[trigger]
        call_ensures(AppContext::acquire_beans_by_type::<T>, (ctx, ty), r) ==> exists|at: Seq<int>|
            found_all(ctx@, of_this_type(ty.bean_type@), r@, at)
    &&& forall|ctx: &AppContext, name: &'static str, r: Vec<BeanRef<T>>| #[trigger]
        call_ensures(AppContext::acquire_beans_by_name::<T>, (ctx, name), r) ==> exists|at: Seq<int>|
            found_all(ctx@, of_this_name(name@), r@, at)
}

/// Looking beans up gives references to the beans of the type, the name or both, in the
/// order of registration.
pub proof fn law_looking_up<T: Send + Sync + 'static>()
    ensures
        looking_up::<T>(),
{
    assert forall|ctx: &AppContext, ty: BeanType<T>, name: &'static str, r: Option<BeanRef<T>>| #[trigger]
        call_ensures(AppContext::try_acquire_bean::<T>, (ctx, ty, name), r) implies found_one(
        ctx@,
        ty.bean_type@,
        name@,
        r,
    ) by {
        lemma_found_one(ctx@, ty.meta(name@));
    }
    assert forall|ctx: &AppContext, ty: BeanType<T>, name: &'static str, r: BeanRef<T>|
        #[trigger] call_ensures(AppContext::acquire_bean::<T>, (ctx, ty, name), r) && (exists|i: int|
            0 <= i < ctx@.len() && is_called(#[trigger] ctx@[i], ty.bean_type@, name@)) implies found_one(
        ctx@,
        ty.bean_type@,
        name@,
        Some(r),
    ) by {
        lemma_found_one(ctx@, ty.meta(name@));
    }
    assert forall|ctx: &AppContext, ty: BeanType<T>, r: Vec<BeanRef<T>>| #[trigger]
        call_ensures(AppContext::acquire_beans_by_type::<T>, (ctx, ty), r) implies exists|at: Seq<int>|
        found_all(ctx@, of_this_type(ty.bean_type@), r@, at) by {
        let wanted = of_this_type(ty.bean_type@);
        lemma_found_all(ctx@, wanted, of_type(ctx@, ty.bean_type@), r@);
    }
    assert forall|ctx: &AppContext, name: &'static str, r: Vec<BeanRef<T>>| #[trigger]
        call_ensures(AppContext::acquire_beans_by_name::<T>, (ctx, name), r) implies exists|at: Seq<int>|
        found_all(ctx@, of_this_name(name@), r@, at) by {
        let wanted = of_this_name(name@);
        lemma_found_all(ctx@, wanted, of_name(ctx@, name@), r@);
    }
}

proof fn lemma_found_one(beans: Seq<BeanView>, meta: MetaView)
    ensures
        registered(beans, meta) <==> exists|i: int|
            0 <= i < beans.len() && is_called(#[trigger] beans[i], meta.bean_type, meta.bean_name),
        registered(beans, meta) ==> {
            let i = place(beans, meta);
            &&& 0 <= i < beans.len()
            &&& is_called(beans[i], meta.bean_type, meta.bean_name)
            &&& lookup(beans, meta) == beans[i]
        },
{
    assert forall|i: int| 0 <= i < beans.len() && is_called(#[trigger] beans[i], meta.bean_type, meta.bean_name)
        implies beans[i].meta == meta by {
        assert(beans[i].meta =~= meta);
    }
}

/// Where the beans stand that are wanted.
spec fn places(beans: Seq<BeanView>, wanted: spec_fn(BeanView) -> bool) -> Seq<int>
    decreases beans.len(),
{
    if beans.len() == 0 {
        Seq::empty()
    } else {
        let rest = places(beans.drop_last(), wanted);
        if wanted(beans.last()) {
            rest.push(beans.len() - 1)
        } else {
            rest
        }
    }
}

proof fn lemma_places(beans: Seq<BeanView>, wanted: spec_fn(BeanView) -> bool)
    ensures
        ({
            let at = places(beans, wanted);
            let handles = beans.filter(wanted).map_values(|b: BeanView| b.bean);
            &&& at.len() == handles.len()
            &&& forall|k: int|
                0 <= k < at.len() ==> {
                    &&& 0 <= #[trigger] at[k] < beans.len()
                    &&& wanted(beans[at[k]])
                    &&& handles[k] == beans[at[k]].bean
                }
            &&& forall|k: int, m: int| 0 <= k < m < at.len() ==> #[trigger] at[k] < #[trigger] at[m]
            &&& forall|i: int| 0 <= i < beans.len() && wanted(#[trigger] beans[i]) ==> at.contains(i)
        }),
    decreases beans.len(),
{
    reveal(Seq::filter);
    if beans.len() > 0 {
        let before = beans.drop_last();
        lemma_places(before, wanted);
        let rest = places(before, wanted);
        let at = places(beans, wanted);
        assert forall|i: int| 0 <= i < beans.len() && wanted(#[trigger] beans[i]) implies at.contains(i) by {
            if i < before.len() {
                assert(before[i] == beans[i]);
                assert(rest.contains(i));
                assert(at[rest.index_of(i)] == i);
            } else {
                assert(at[at.len() - 1] == i);
            }
        }
    }
}

proof fn lemma_found_all<T: Send + Sync + 'static>(
    beans: Seq<BeanView>,
    wanted: spec_fn(BeanView) -> bool,
    handles: Seq<Handle>,
    refs: Seq<BeanRef<T>>,
)
    requires
        handles == beans.filter(wanted).map_values(|b: BeanView| b.bean),
        refs_to(refs, handles),
    ensures
        exists|at: Seq<int>| found_all(beans, wanted, refs, at),
{
    lemma_places(beans, wanted);
    let at = places(beans, wanted);
    assert(found_all(beans, wanted, refs, at));
}

/// `call` is a call of the function that initializes the bean.
pub open spec fn initializes_bean(call: Call, bean: BeanView) -> bool {
    bean.init_fn == Some(CustomFnEnum::Sync(call.f)) && call.f.gave(call.r)
}

/// The bean as it was, but for its status.
pub open spec fn with_status(bean: BeanView, before: BeanView, status: BeanStatus) -> bool {
    &&& bean.bean == before.bean
    &&& bean.writer == before.writer
    &&& bean.meta == before.meta
    &&& bean.is_async == before.is_async
    &&& bean.init_fn == before.init_fn
    &&& bean.destroy_fn == before.destroy_fn
    &&& bean.depends_on == before.depends_on
    &&& bean.status == status
}

/// `beans` became `left`: those of `done` are in use, and nothing else has changed.
pub open spec fn in_use_now(beans: Seq<BeanView>, done: Seq<MetaView>, left: Seq<BeanView>) -> bool {
    &&& left.len() == beans.len()
    &&& forall|i: int|
        0 <= i < beans.len() ==> with_status(
            #[trigger] left[i],
            beans[i],
            if exists|k: int| 0 <= k < done.len() && #[trigger] done[k] == beans[i].meta {
                BeanStatus::Using
            } else {
                beans[i].status
            },
        )
}

/// The record `before` has grown to `after` by `n` calls, and these initialized the first
/// beans of `order` one after the other, with success.
pub open spec fn grown_by(
    beans: Seq<BeanView>,
    order: Seq<MetaView>,
    before: Seq<Call>,
    after: Seq<Call>,
    n: int,
) -> bool {
    &&& 0 <= n <= order.len()
    &&& after.len() >= before.len() + n
    &&& forall|k: int| 0 <= k < before.len() ==> #[trigger] after[k] == before[k]
    &&& forall|k: int|
        0 <= k < n ==> exists|i: int|
            {
                &&& 0 <= i < beans.len()
                &&& (#[trigger] beans[i]).meta == #[trigger] order[k]
                &&& initializes_bean(after[before.len() + k], beans[i])
                &&& after[before.len() + k].r is Ok
            }
}

/// What comes of initializing the beans of `order` in turn: each is initialized once, and it
/// ends with the first that fails, which is reported.
pub open spec fn ran_in_turn(
    beans: Seq<BeanView>,
    order: Seq<MetaView>,
    before: Seq<Call>,
    after: Seq<Call>,
    left: Seq<BeanView>,
    r: Result<(), BeanError>,
) -> bool {
    match r {
        Ok(_) => {
            &&& grown_by(beans, order, before, after, order.len() as int)
            &&& after.len() == before.len() + order.len()
            &&& in_use_now(beans, order, left)
        },
        Err(BeanError::Custom(meta, e)) => {
            let n = after.len() - before.len() - 1;
            &&& grown_by(beans, order, before, after, n)
            &&& n < order.len()
            &&& in_use_now(beans, order.take(n), left)
            &&& exists|i: int|
                {
                    &&& 0 <= i < beans.len()
                    &&& (#[trigger] beans[i]).meta == order[n]
                    &&& is_called(beans[i], meta.bean_type@, meta.bean_name@)
                    &&& initializes_bean(after.last(), beans[i])
                    &&& after.last().r == Err::<(), BoxError>(e)
                }
        },
        Err(_) => false,
    }
}

proof fn lemma_ran_in_turn(
    beans: Seq<BeanView>,
    order: Seq<MetaView>,
    before: Seq<Call>,
    after: Seq<Call>,
    left: Seq<BeanView>,
    r: Result<(), BeanError>,
)
    requires
        wf(beans),
        can_walk(beans, order),
        walked(beans, order, before, after, left, r),
    ensures
        ran_in_turn(beans, order, before, after, left, r),
{
    let (n, calls) = choose|k: int, calls: Seq<Call>|
        {
            &&& 0 <= k <= order.len()
            &&& #[trigger] initialized_by(beans, order.take(k), calls)
            &&& left == in_use(beans, order.take(k))
            &&& match r {
                Ok(_) => k == order.len() && after == before + calls,
                Err(_) => k < order.len() && called(
                    before + calls,
                    after,
                    lookup(beans, order[k]).init_hook(),
                    order[k],
                    r,
                ),
            }
        };
    assert forall|k: int| 0 <= k < n implies exists|i: int|
        {
            &&& 0 <= i < beans.len()
            &&& (#[trigger] beans[i]).meta == #[trigger] order[k]
            &&& initializes_bean(after[before.len() + k], beans[i])
            &&& after[before.len() + k].r is Ok
        } by {
        lemma_fewer_calls(beans, order, calls, n, k);
        assert(initialized_by(beans, order.take(k), calls.take(k)));
        let i = place(beans, order[k]);
        assert(beans[i].meta == order[k]);
        assert(calls[k].f == lookup(beans, order.take(n)[k]).init_hook());
        assert(after[before.len() + k] == calls[k]);
    }
    assert forall|i: int| 0 <= i < beans.len() implies with_status(
        #[trigger] left[i],
        beans[i],
        if exists|k: int| 0 <= k < order.take(n).len() && #[trigger] order.take(n)[k] == beans[i].meta {
            BeanStatus::Using
        } else {
            beans[i].status
        },
    ) by {
        let done = order.take(n);
        if done.contains(beans[i].meta) {
            assert(done[done.index_of(beans[i].meta)] == beans[i].meta);
        }
    }
    assert(in_use_now(beans, order.take(n), left));
    match r {
        Ok(_) => {
            assert(order.take(n) == order);
        },
        Err(e) => {
            let i = place(beans, order[n]);
            assert(registered(beans, order[n]));
            assert(beans[i].meta == order[n]);
            assert(after.len() == before.len() + n + 1);
        },
    }
}

proof fn lemma_fewer_calls(beans: Seq<BeanView>, order: Seq<MetaView>, calls: Seq<Call>, n: int, k: int)
    requires
        0 <= k <= n <= order.len(),
        initialized_by(beans, order.take(n), calls),
    ensures
        initialized_by(beans, order.take(k), calls.take(k)),
{
    assert forall|j: int| 0 <= j < k implies {
        let call = #[trigger] calls.take(k)[j];
        &&& call.f == lookup(beans, order.take(k)[j]).init_hook()
        &&& call.f.gave(call.r)
        &&& call.r is Ok
    } by {
        assert(calls.take(k)[j] == calls[j]);
        assert(order.take(k)[j] == order.take(n)[j]);
    }
}

/// Initializing beans in turn is done on the record that is given.
pub proof fn law_initializing_in_turn()
    ensures
        forall|
            beans: &mut AppContextInner,
            plan: &Vec<BeanMetadata>,
            log: &mut CallLog,
            r: Result<(), BeanError>,
        |
            #[trigger] call_ensures(AppContextInner::init_each, (beans, plan, log), r) && wf(beans@)
                && can_walk(beans@, meta_views(plan@)) ==> ran_in_turn(
                beans@,
                meta_views(plan@),
                log@,
                final(log)@,
                final(beans)@,
                r,
            ),
        forall|
            beans: &mut AppContextInner,
            dep_map: &DepTree,
            history: Vec<BeanMetadata>,
            log: &mut CallLog,
            r: Result<(), BeanError>,
        |
            #[trigger] call_ensures(init_recursive, (beans, dep_map, history, log), r) && wf(beans@)
                && can_walk(beans@, init_order(dep_map@, history@.last()@)) ==> ran_in_turn(
                beans@,
                init_order(dep_map@, history@.last()@),
                log@,
                final(log)@,
                final(beans)@,
                r,
            ),
{
    assert forall|
        beans: &mut AppContextInner,
        plan: &Vec<BeanMetadata>,
        log: &mut CallLog,
        r: Result<(), BeanError>,
    |
        #[trigger] call_ensures(AppContextInner::init_each, (beans, plan, log), r) && wf(beans@) && can_walk(
            beans@,
            meta_views(plan@),
        ) implies ran_in_turn(beans@, meta_views(plan@), log@, final(log)@, final(beans)@, r) by {
        lemma_ran_in_turn(beans@, meta_views(plan@), log@, final(log)@, final(beans)@, r);
    }
    assert forall|
        beans: &mut AppContextInner,
        dep_map: &DepTree,
        history: Vec<BeanMetadata>,
        log: &mut CallLog,
        r: Result<(), BeanError>,
    |
        #[trigger] call_ensures(init_recursive, (beans, dep_map, history, log), r) && wf(beans@) && can_walk(
            beans@,
            init_order(dep_map@, history@.last()@),
        ) implies ran_in_turn(
        beans@,
        init_order(dep_map@, history@.last()@),
        log@,
        final(log)@,
        final(beans)@,
        r,
    ) by {
        lemma_ran_in_turn(
            beans@,
            init_order(dep_map@, history@.last()@),
            log@,
            final(log)@,
            final(beans)@,
            r,
        );
    }
}

/// All beans, each once: `at` says which comes when. A bean comes after those that it
/// depends on.
pub open spec fn orderly(beans: Seq<BeanView>, at: Seq<int>) -> bool {
    &&& at.len() == beans.len()
    &&& forall|k: int| 0 <= k < at.len() ==> 0 <= #[trigger] at[k] < beans.len()
    &&& forall|k: int, m: int| 0 <= k < m < at.len() ==> #[trigger] at[k] != #[trigger] at[m]
    &&& forall|k: int, m: int|
        0 <= k < at.len() && 0 <= m < at.len() && (beans[#[trigger] at[k]].depends_on->0).contains(
            beans[#[trigger] at[m]].meta,
        ) ==> m < k
}

/// Each of these names is that of a bean which depends on the next, and the last is the
/// first again.
pub open spec fn in_a_circle(beans: Seq<BeanView>, path: Seq<BeanMetadata>) -> bool {
    &&& path.len() >= 2
    &&& path[0]@ == path.last()@
    &&& forall|k: int|
        0 <= k < path.len() - 1 ==> exists|i: int|
            {
                &&& 0 <= i < beans.len()
                &&& is_called(
                    #[trigger] beans[i],
                    (#[trigger] path[k]).bean_type@,
                    path[k].bean_name@,
                )
                &&& (beans[i].depends_on->0).contains(path[k + 1]@)
            }
}

/// What comes of building a context and initializing its beans.
pub open spec fn brought_into_use(
    beans: Seq<BeanView>,
    before: Seq<Call>,
    after: Seq<Call>,
    r: Result<AppContext, BeanError>,
) -> bool {
    match r {
        Ok(ctx) => exists|at: Seq<int>|
            {
                &&& #[trigger] orderly(beans, at)
                &&& after.len() == before.len() + beans.len()
                &&& forall|k: int| 0 <= k < before.len() ==> #[trigger] after[k] == before[k]
                &&& forall|k: int|
                    0 <= k < at.len() ==> {
                        &&& initializes_bean(after[before.len() + k], beans[#[trigger] at[k]])
                        &&& after[before.len() + k].r is Ok
                    }
                &&& ctx@.len() == beans.len()
                &&& forall|i: int|
                    0 <= i < beans.len() ==> with_status(#[trigger] ctx@[i], beans[i], BeanStatus::Using)
            },
        Err(BeanError::Custom(meta, e)) => exists|at: Seq<int>|
            {
                let n = after.len() - before.len() - 1;
                &&& #[trigger] orderly(beans, at)
                &&& 0 <= n < beans.len()
                &&& forall|k: int| 0 <= k < before.len() ==> #[trigger] after[k] == before[k]
                &&& forall|k: int|
                    0 <= k < n ==> {
                        &&& initializes_bean(after[before.len() + k], beans[#[trigger] at[k]])
                        &&& after[before.len() + k].r is Ok
                    }
                &&& initializes_bean(after.last(), beans[at[n]])
                &&& after.last().r == Err::<(), BoxError>(e)
                &&& is_called(beans[at[n]], meta.bean_type@, meta.bean_name@)
            },
        Err(BeanError::CyclicDependency(path)) => after == before && in_a_circle(beans, path@),
        Err(BeanError::HasAsync(meta)) => {
            &&& after == before
            &&& forall|i: int| 0 <= i < beans.len() ==> (#[trigger] beans[i]).status != BeanStatus::NotInit
            &&& exists|i: int|
                {
                    &&& 0 <= i < beans.len()
                    &&& (#[trigger] beans[i]).is_async == Some(true)
                    &&& is_called(beans[i], meta.bean_type@, meta.bean_name@)
                    &&& forall|j: int| 0 <= j < i ==> (#[trigger] beans[j]).is_async != Some(true)
                }
        },
        Err(BeanError::NotInitialized(_)) => after == before && finished(beans, r),
    }
}

/// Where the beans of `order` stand.
spec fn stand(beans: Seq<BeanView>, order: Seq<MetaView>) -> Seq<int> {
    order.map_values(|meta: MetaView| place(beans, meta))
}

proof fn lemma_orderly(beans: Seq<BeanView>, order: Seq<MetaView>)
    requires
        wf(beans),
        order_of_all(beans, order),
    ensures
        orderly(beans, stand(beans, order)),
        forall|k: int|
            0 <= k < order.len() ==> beans[#[trigger] stand(beans, order)[k]].meta == order[k] && lookup(
                beans,
                order[k],
            ) == beans[stand(beans, order)[k]],
{
    let at = stand(beans, order);
    let all = beans.map_values(|bean: BeanView| bean.meta);
    lemma_bounded(beans, order);
    assert(all.no_duplicates()) by {
        assert forall|i: int, j: int| 0 <= i < all.len() && 0 <= j < all.len() && i != j implies all[i]
            != all[j] by {
            if i < j {
                assert(beans[i].meta != beans[j].meta);
            } else {
                assert(beans[j].meta != beans[i].meta);
            }
        }
    }
    all.unique_seq_to_set();
    order.unique_seq_to_set();
    assert forall|m: MetaView| all.to_set().contains(m) implies #[trigger] order.to_set().contains(m) by {
        let i = choose|i: int| 0 <= i < all.len() && all[i] == m;
        assert(order.contains(beans[i].meta));
    }
    vstd::set_lib::lemma_len_subset(all.to_set(), order.to_set());
    assert(at.len() == beans.len());
    assert forall|k: int| 0 <= k < at.len() implies 0 <= #[trigger] at[k] < beans.len() && beans[at[k]].meta
        == order[k] by {
        assert(registered(beans, order[k]));
    }
    assert forall|k: int, m: int| 0 <= k < m < at.len() implies #[trigger] at[k] != #[trigger] at[m] by {
        assert(order[k] != order[m]);
    }
    assert forall|k: int, m: int|
        0 <= k < at.len() && 0 <= m < at.len() && (beans[#[trigger] at[k]].depends_on->0).contains(
            beans[#[trigger] at[m]].meta,
        ) implies m < k by {
        assert(depends(beans, order[k], order[m]));
        assert(order.take(k).contains(order[m]));
        let j = order.take(k).index_of(order[m]);
        assert(order[j] == order[m]);
    }
}

proof fn lemma_circle(beans: Seq<BeanView>, path: Seq<BeanMetadata>)
    requires
        wf(beans),
        all_initialized(beans),
        is_cycle(grouped(edges(beans, false)), meta_views(path)),
    ensures
        in_a_circle(beans, path),
{
    let metas = meta_views(path);
    assert forall|k: int| 0 <= k < path.len() - 1 implies exists|i: int|
        {
            &&& 0 <= i < beans.len()
            &&& is_called(#[trigger] beans[i], (#[trigger] path[k]).bean_type@, path[k].bean_name@)
            &&& (beans[i].depends_on->0).contains(path[k + 1]@)
        } by {
        law_tree_of_dependencies(beans, metas[k]);
        assert(metas[k] == path[k]@);
        assert(metas[k + 1] == path[k + 1]@);
        let i = place(beans, metas[k]);
        assert(beans[i].meta == path[k]@);
    }
    assert(metas[0] == path[0]@);
    assert(metas.last() == path.last()@);
}

proof fn lemma_brought(
    beans: Seq<BeanView>,
    order: Seq<MetaView>,
    before: Seq<Call>,
    after: Seq<Call>,
    left: Seq<BeanView>,
    r: Result<(), BeanError>,
)
    requires
        wf(beans),
        all_initialized(beans),
        !some_async(beans),
        order_of_all(beans, order),
        walked(beans, order, before, after, left, r),
    ensures
        ({
            let at = stand(beans, order);
            let n = if r is Ok {
                order.len() as int
            } else {
                after.len() - before.len() - 1
            };
            &&& orderly(beans, at)
            &&& ran_in_turn(beans, order, before, after, left, r)
            &&& forall|k: int|
                0 <= k < n ==> {
                    &&& initializes_bean(after[before.len() + k], beans[#[trigger] at[k]])
                    &&& after[before.len() + k].r is Ok
                }
            &&& r is Err ==> initializes_bean(after.last(), beans[at[n]])
            &&& r matches Err(BeanError::Custom(meta, _)) ==> is_called(
                beans[at[n]],
                meta.bean_type@,
                meta.bean_name@,
            )
        }),
{
    lemma_orderly(beans, order);
    assert(can_walk(beans, order)) by {
        assert forall|k: int, calls: Seq<Call>|
            0 <= k < order.len() && #[trigger] initialized_by(beans, order.take(k), calls) implies {
            &&& registered(beans, order[k])
            &&& lookup(beans, order[k]).init_fn matches Some(CustomFnEnum::Sync(_))
        } by {
            let i = place(beans, order[k]);
            assert(registered(beans, order[k]));
            assert(beans[i].wf() && beans[i].initialized() && beans[i].is_async != Some(true));
        }
    }
    lemma_ran_in_turn(beans, order, before, after, left, r);
    let at = stand(beans, order);
    let n = if r is Ok {
        order.len() as int
    } else {
        after.len() - before.len() - 1
    };
    assert forall|k: int| 0 <= k < n implies {
        &&& initializes_bean(after[before.len() + k], beans[#[trigger] at[k]])
        &&& after[before.len() + k].r is Ok
    } by {
        let i = choose|i: int|
            {
                &&& 0 <= i < beans.len()
                &&& (#[trigger] beans[i]).meta == order[k]
                &&& initializes_bean(after[before.len() + k], beans[i])
                &&& after[before.len() + k].r is Ok
            };
        lemma_place(beans, i);
        assert(at[k] == i);
    }
    if r is Err {
        let i = choose|i: int|
            {
                &&& 0 <= i < beans.len()
                &&& (#[trigger] beans[i]).meta == order[n]
                &&& initializes_bean(after.last(), beans[i])
            };
        lemma_place(beans, i);
        assert(at[n] == i);
        lemma_place(beans, at[n]);
    }
}

/// Building a context initializes each bean once, by its own function and after those that
/// it depends on. The first failure ends it, and what cannot be put in order or must be
/// awaited is refused before anything is called. No call is made that is not on the record.
pub proof fn law_building()
    ensures
        forall|builder: AppContextBuilder, log: &mut CallLog, r: Result<AppContext, BeanError>|
            #[trigger] call_ensures(AppContextBuilder::build_non_async, (builder, log), r) && wf(builder@)
                ==> brought_into_use(builder@, log@, final(log)@, r),
{
    assert forall|builder: AppContextBuilder, log: &mut CallLog, r: Result<AppContext, BeanError>|
        #[trigger] call_ensures(AppContextBuilder::build_non_async, (builder, log), r) && wf(
            builder@,
        ) implies brought_into_use(builder@, log@, final(log)@, r) by {
        lemma_building(builder@, log@, final(log)@, r);
    }
}

proof fn lemma_building(
    beans: Seq<BeanView>,
    before: Seq<Call>,
    after: Seq<Call>,
    r: Result<AppContext, BeanError>,
)
    requires
        wf(beans),
        !all_initialized(beans) ==> after == before && (r matches Err(e) && names_unfinished(beans, e)),
        all_initialized(beans) && some_async(beans) ==> after == before && (r matches Err(e) && names_async(
            beans,
            e,
        )),
        all_initialized(beans) && !some_async(beans) ==> built(beans, before, after, r),
    ensures
        brought_into_use(beans, before, after, r),
{
    if !all_initialized(beans) {
        lemma_unfinished(beans, r->Err_0);
    } else if some_async(beans) {
        lemma_awaited(beans, before, r->Err_0);
    } else {
        match r {
            Ok(ctx) => {
                let order = choose|order: Seq<MetaView>|
                    {
                        &&& #[trigger] order_of_all(beans, order)
                        &&& walked(beans, order, before, after, ctx@, Ok(()))
                    };
                lemma_built(beans, order, before, after, ctx);
            },
            Err(BeanError::CyclicDependency(path)) => {
                lemma_circle(beans, path@);
            },
            Err(e) => {
                let (order, left) = choose|order: Seq<MetaView>, left: Seq<BeanView>|
                    {
                        &&& order_of_all(beans, order)
                        &&& #[trigger] walked(beans, order, before, after, left, Err(e))
                    };
                lemma_failed(beans, order, before, after, left, e);
            },
        }
    }
}

proof fn lemma_awaited(beans: Seq<BeanView>, calls: Seq<Call>, e: BeanError)
    requires
        all_initialized(beans),
        names_async(beans, e),
    ensures
        brought_into_use(beans, calls, calls, Err(e)),
{
    let i = choose|i: int|
        {
            &&& 0 <= i < beans.len()
            &&& (#[trigger] beans[i]).is_async == Some(true)
            &&& !some_async(beans.take(i))
            &&& e matches BeanError::HasAsync(meta)
            &&& meta@ == beans[i].meta
        };
    assert forall|j: int| 0 <= j < i implies (#[trigger] beans[j]).is_async != Some(true) by {
        assert(beans.take(i)[j] == beans[j]);
    }
    assert forall|j: int| 0 <= j < beans.len() implies (#[trigger] beans[j]).status != BeanStatus::NotInit by {
        assert(beans[j].initialized());
    }
}

proof fn lemma_built(
    beans: Seq<BeanView>,
    order: Seq<MetaView>,
    before: Seq<Call>,
    after: Seq<Call>,
    ctx: AppContext,
)
    requires
        wf(beans),
        all_initialized(beans),
        !some_async(beans),
        order_of_all(beans, order),
        walked(beans, order, before, after, ctx@, Ok(())),
    ensures
        brought_into_use(beans, before, after, Ok(ctx)),
{
    lemma_brought(beans, order, before, after, ctx@, Ok(()));
    let at = stand(beans, order);
    assert(in_use_now(beans, order, ctx@));
    assert forall|i: int| 0 <= i < beans.len() implies with_status(
        #[trigger] ctx@[i],
        beans[i],
        BeanStatus::Using,
    ) by {
        assert(order.contains(beans[i].meta));
        assert(order[order.index_of(beans[i].meta)] == beans[i].meta);
    }
    assert(orderly(beans, at));
}

proof fn lemma_failed(
    beans: Seq<BeanView>,
    order: Seq<MetaView>,
    before: Seq<Call>,
    after: Seq<Call>,
    left: Seq<BeanView>,
    e: BeanError,
)
    requires
        wf(beans),
        all_initialized(beans),
        !some_async(beans),
        order_of_all(beans, order),
        walked(beans, order, before, after, left, Err(e)),
    ensures
        brought_into_use(beans, before, after, Err(e)),
{
    lemma_brought(beans, order, before, after, left, Err(e));
    assert(orderly(beans, stand(beans, order)));
}

/// The bean depends on exactly what `priority` lists, in the same order.
pub open spec fn depends_exactly(bean: BeanView, priority: BeanPriority) -> bool {
    &&& priority matches BeanPriority::DependsOn(metas)
    &&& bean.depends_on matches Some(deps)
    &&& deps.len() == metas@.len()
    &&& forall|k: int|
        0 <= k < metas@.len() ==> {
            &&& (#[trigger] deps[k]).bean_type == metas@[k].bean_type@
            &&& deps[k].bean_name == metas@[k].bean_name@
        }
}

/// The bean was constructed in one go as a `T`: its functions are its own `init_self` and
/// `clean_self`, and it depends on all that its own `priority` lists.
pub open spec fn is_a<C, E, F, T: BuildFromContext<C, E, F> + Send + Sync + 'static>(bean: BeanView) -> bool {
    &&& bean.status == BeanStatus::PostConstruct
    &&& bean.writer is None
    &&& bean.is_async == Some(false)
    &&& exists|f: CustomFn| #[trigger]
        initializes::<C, E, F, T>(f, bean.bean) && bean.init_fn == Some(CustomFnEnum::Sync(f))
    &&& exists|f: CustomFn| #[trigger]
        finalizes::<C, E, F, T>(f, bean.bean) && bean.destroy_fn == Some(CustomFnEnum::Sync(f))
    &&& exists|priority: BeanPriority|
        call_ensures(T::priority, (), priority) && #[trigger] depends_exactly(bean, priority)
}

/// The construction of the bean was awaited, and this is what it brought along.
pub open spec fn is_awaited(bean: BeanView, setup: AsyncSetup) -> bool {
    &&& bean.status == BeanStatus::PostConstruct
    &&& bean.writer is None
    &&& bean.is_async == Some(true)
    &&& bean.init_fn == Some(CustomFnEnum::Async(setup.init))
    &&& bean.destroy_fn == Some(CustomFnEnum::Async(setup.destroy))
    &&& depends_exactly(bean, setup.priority)
}

/// The bean was asked for as a `T` and has not been constructed.
pub open spec fn is_asked_for<T: Send + Sync + 'static>(bean: BeanView) -> bool {
    &&& bean.status == BeanStatus::NotInit
    &&& bean.is_async is None
    &&& bean.init_fn is None
    &&& bean.destroy_fn is None
    &&& bean.depends_on is None
    &&& exists|writer: BeanWriter| bean.writer == Some(writer) && #[trigger] paired::<T>(writer, bean.bean)
}

/// What a bean that is constructed as a `T` depends on is what its own `priority` gave, all
/// of it, and its functions are its own.
pub proof fn law_constructed_as<C, E, F, T: BuildFromContext<C, E, F> + Send + Sync + 'static>(bean: BeanView)
    requires
        bean.constructed_as::<C, E, F, T>(),
    ensures
        is_a::<C, E, F, T>(bean),
{
    let setup = choose|setup: SyncSetup|
        {
            &&& #[trigger] setup.brought_by::<C, E, F, T>(bean.bean)
            &&& bean == BeanView::of_sync(bean.bean, bean.meta, setup)
        };
    assert(depends_exactly(bean, setup.priority));
}

/// What an awaited bean depends on is what was handed in with it, all of it.
pub proof fn law_awaited_as(bean: Handle, meta: MetaView, setup: AsyncSetup)
    ensures
        is_awaited(BeanView::of_async(bean, meta, setup), setup),
        BeanView::of_async(bean, meta, setup).bean == bean,
        BeanView::of_async(bean, meta, setup).meta == meta,
{
}

/// A wrapper holds the bean that it was made for, under its name and with what it brings
/// along.
pub proof fn law_wrapping<C, E, F, T: BuildFromContext<C, E, F> + Send + Sync + 'static>()
    ensures
        forall|bean: T, meta: BeanMetadata, wrapper: BeanWrapper| #[trigger]
            call_ensures(BeanWrapper::sync_one::<C, E, F, T>, (bean, meta), wrapper) ==> {
                &&& is_a::<C, E, F, T>(wrapper@)
                &&& is_called(wrapper@, meta.bean_type@, meta.bean_name@)
                &&& filled(wrapper@.bean, bean)
            },
        forall|wrapper: &mut BeanWrapper, bean: T, r: ()| #[trigger]
            call_ensures(BeanWrapper::set_inner_sync::<C, E, F, T>, (wrapper, bean), r) ==> {
                &&& is_a::<C, E, F, T>(final(wrapper)@)
                &&& final(wrapper)@.meta == wrapper@.meta
                &&& final(wrapper)@.bean == wrapper@.bean
                &&& filled(wrapper@.bean, bean)
            },
        forall|bean: T, meta: BeanMetadata, setup: AsyncSetup, wrapper: BeanWrapper| #[trigger]
            call_ensures(BeanWrapper::async_one::<T>, (bean, meta, setup), wrapper) ==> {
                &&& is_awaited(wrapper@, setup)
                &&& is_called(wrapper@, meta.bean_type@, meta.bean_name@)
                &&& filled(wrapper@.bean, bean)
            },
        forall|wrapper: &mut BeanWrapper, bean: T, setup: AsyncSetup, r: ()| #[trigger]
            call_ensures(BeanWrapper::set_inner_async::<T>, (wrapper, bean, setup), r) ==> {
                &&& is_awaited(final(wrapper)@, setup)
                &&& final(wrapper)@.meta == wrapper@.meta
                &&& final(wrapper)@.bean == wrapper@.bean
                &&& filled(wrapper@.bean, bean)
            },
        forall|meta: BeanMetadata, wrapper: BeanWrapper| #[trigger]
            call_ensures(BeanWrapper::empty::<T>, (meta,), wrapper) ==> {
                &&& is_asked_for::<T>(wrapper@)
                &&& is_called(wrapper@, meta.bean_type@, meta.bean_name@)
            },
{
    assert forall|bean: T, meta: BeanMetadata, wrapper: BeanWrapper| #[trigger]
        call_ensures(BeanWrapper::sync_one::<C, E, F, T>, (bean, meta), wrapper) implies is_a::<C, E, F, T>(
        wrapper@,
    ) by {
        law_constructed_as::<C, E, F, T>(wrapper@);
    }
    assert forall|wrapper: &mut BeanWrapper, bean: T, r: ()| #[trigger]
        call_ensures(BeanWrapper::set_inner_sync::<C, E, F, T>, (wrapper, bean), r) implies is_a::<C, E, F, T>(
        final(wrapper)@,
    ) by {
        law_constructed_as::<C, E, F, T>(final(wrapper)@);
    }
}

/// `beans` became `after` at place `i`, which is that of the bean of this type and name: it
/// was there, and keeps its cell, or it comes last. Every other bean is as it was.
pub open spec fn changed_at(
    beans: Seq<BeanView>,
    after: Seq<BeanView>,
    bean_type: Seq<char>,
    bean_name: Seq<char>,
    i: int,
) -> bool {
    &&& 0 <= i < after.len()
    &&& is_called(after[i], bean_type, bean_name)
    &&& if i < beans.len() {
        after.len() == beans.len() && is_called(beans[i], bean_type, bean_name) && after[i].bean
            == beans[i].bean
    } else {
        &&& i == beans.len()
        &&& after.len() == beans.len() + 1
        &&& forall|j: int| 0 <= j < beans.len() ==> !is_called(#[trigger] beans[j], bean_type, bean_name)
    }
    &&& forall|j: int| 0 <= j < beans.len() && j != i ==> #[trigger] after[j] == beans[j]
}

/// The bean that was built is registered under its type and name, in the cell that was
/// handed out for it. Where it could not be built, that is what is given back.
pub proof fn law_constructing<C, E, F, T: BuildFromContext<C, E, F> + Send + Sync + 'static>()
    ensures
        forall|
            builder: AppContextBuilder,
            ty: BeanType<T>,
            name: &'static str,
            built: Result<T, F>,
            r: Result<AppContextBuilder, F>,
        |
            #[trigger] call_ensures(
                AppContextBuilder::construct_bean::<C, E, F, T>,
                (builder, ty, name, built),
                r,
            ) ==> match built {
                Ok(bean) => r matches Ok(made) && exists|i: int|
                    {
                        &&& #[trigger] changed_at(builder@, made@, ty.bean_type@, name@, i)
                        &&& is_a::<C, E, F, T>(made@[i])
                        &&& filled(made@[i].bean, bean)
                    },
                Err(e) => r == Err::<AppContextBuilder, F>(e),
            },
        forall|
            builder: AppContextBuilder,
            ty: BeanType<T>,
            name: &'static str,
            built: Result<T, F>,
            setup: AsyncSetup,
            r: Result<AppContextBuilder, F>,
        |
            #[trigger] call_ensures(
                AppContextBuilder::construct_bean_async::<T, F>,
                (builder, ty, name, built, setup),
                r,
            ) ==> match built {
                Ok(bean) => r matches Ok(made) && exists|i: int|
                    {
                        &&& #[trigger] changed_at(builder@, made@, ty.bean_type@, name@, i)
                        &&& is_awaited(made@[i], setup)
                        &&& filled(made@[i].bean, bean)
                    },
                Err(e) => r == Err::<AppContextBuilder, F>(e),
            },
{
    assert forall|
        builder: AppContextBuilder,
        ty: BeanType<T>,
        name: &'static str,
        built: Result<T, F>,
        r: Result<AppContextBuilder, F>,
    |
        #[trigger] call_ensures(
            AppContextBuilder::construct_bean::<C, E, F, T>,
            (builder, ty, name, built),
            r,
        ) && built is Ok implies r matches Ok(made) && exists|i: int|
        {
            &&& #[trigger] changed_at(builder@, made@, ty.bean_type@, name@, i)
            &&& is_a::<C, E, F, T>(made@[i])
            &&& filled(made@[i].bean, built->Ok_0)
        } by {
        let made = r->Ok_0@;
        let meta = ty.meta(name@);
        let i = lemma_changed(builder@, made, meta);
        law_constructed_as::<C, E, F, T>(made[i]);
    }
    assert forall|
        builder: AppContextBuilder,
        ty: BeanType<T>,
        name: &'static str,
        built: Result<T, F>,
        setup: AsyncSetup,
        r: Result<AppContextBuilder, F>,
    |
        #[trigger] call_ensures(
            AppContextBuilder::construct_bean_async::<T, F>,
            (builder, ty, name, built, setup),
            r,
        ) && built is Ok implies r matches Ok(made) && exists|i: int|
        {
            &&& #[trigger] changed_at(builder@, made@, ty.bean_type@, name@, i)
            &&& is_awaited(made@[i], setup)
            &&& filled(made@[i].bean, built->Ok_0)
        } by {
        let made = r->Ok_0@;
        let meta = ty.meta(name@);
        let i = lemma_changed(builder@, made, meta);
        law_awaited_as(made[i].bean, meta, setup);
    }
}

proof fn lemma_changed(beans: Seq<BeanView>, after: Seq<BeanView>, meta: MetaView) -> (i: int)
    requires
        wf(after),
        registered(after, meta),
        lookup(after, meta).meta == meta,
        lookup(after, meta).bean == cell_of(beans, meta, lookup(after, meta).bean),
        after == constructed(beans, lookup(after, meta)),
    ensures
        changed_at(beans, after, meta.bean_type, meta.bean_name, i),
        after[i] == lookup(after, meta),
{
    lemma_found_one(beans, meta);
    let made = lookup(after, meta);
    if registered(beans, meta) {
        let i = place(beans, meta);
        assert(after[i] == BeanView { bean: beans[i].bean, ..made });
        assert(after[i] == made);
        i
    } else {
        let i = beans.len() as int;
        assert(after[i] == made);
        i
    }
}

/// Whoever asks for a bean is given a reference to its cell. Where the bean was not
/// registered, it comes last, to be constructed.
pub proof fn law_asking<T: Send + Sync + 'static>()
    ensures
        forall|builder: &mut AppContextBuilder, ty: BeanType<T>, name: &'static str, r: BeanRef<T>|
            #[trigger] call_ensures(
                AppContextBuilder::acquire_bean_or_init::<T>,
                (builder, ty, name),
                r,
            ) ==> exists|i: int|
                {
                    &&& #[trigger] changed_at(builder@, final(builder)@, ty.bean_type@, name@, i)
                    &&& refers(r.weak(), final(builder)@[i].bean)
                    &&& i < builder@.len() ==> final(builder)@ == builder@
                    &&& i == builder@.len() ==> is_asked_for::<T>(final(builder)@[i])
                },
{
    assert forall|builder: &mut AppContextBuilder, ty: BeanType<T>, name: &'static str, r: BeanRef<T>|
        #[trigger] call_ensures(
            AppContextBuilder::acquire_bean_or_init::<T>,
            (builder, ty, name),
            r,
        ) implies exists|i: int|
        {
            &&& #[trigger] changed_at(builder@, final(builder)@, ty.bean_type@, name@, i)
            &&& refers(r.weak(), final(builder)@[i].bean)
            &&& i < builder@.len() ==> final(builder)@ == builder@
            &&& i == builder@.len() ==> is_asked_for::<T>(final(builder)@[i])
        } by {
        let beans = builder@;
        let after = final(builder)@;
        let meta = ty.meta(name@);
        lemma_found_one(beans, meta);
        lemma_found_one(after, meta);
        let i = place(after, meta);
        if !registered(beans, meta) {
            lemma_place(after, beans.len() as int);
        }
        assert(changed_at(beans, after, ty.bean_type@, name@, i));
    }
}

/// Running a function of a bean is one call of that function, on the record that is given. A
/// success changes the status, and a failure is reported with the bean.
pub proof fn law_running()
    ensures
        forall|wrapper: &mut BeanWrapper, log: &mut CallLog, r: Result<(), BeanError>|
            #[trigger] call_ensures(BeanWrapper::run_init_fn, (wrapper, log), r) && (
            wrapper@.init_fn matches Some(CustomFnEnum::Sync(_))) ==> {
                &&& one_call(wrapper@.init_fn, log@, final(log)@, wrapper@, r)
                &&& with_status(
                    final(wrapper)@,
                    wrapper@,
                    if r is Ok {
                        BeanStatus::Using
                    } else {
                        wrapper@.status
                    },
                )
            },
        forall|wrapper: &mut BeanWrapper, log: &mut CallLog, r: Result<(), BeanError>|
            #[trigger] call_ensures(BeanWrapper::run_destroy_fn, (wrapper, log), r) && (
            wrapper@.destroy_fn matches Some(CustomFnEnum::Sync(_))) ==> {
                &&& one_call(wrapper@.destroy_fn, log@, final(log)@, wrapper@, r)
                &&& with_status(
                    final(wrapper)@,
                    wrapper@,
                    if r is Ok {
                        BeanStatus::Destroyed
                    } else {
                        wrapper@.status
                    },
                )
            },
        forall|wrapper: &mut BeanWrapper, outcome: Result<(), BoxError>, r: Result<(), BeanError>|
            #[trigger] call_ensures(BeanWrapper::init_done, (wrapper, outcome), r) ==> {
                &&& tells(wrapper@, outcome, r)
                &&& with_status(
                    final(wrapper)@,
                    wrapper@,
                    if r is Ok {
                        BeanStatus::Using
                    } else {
                        wrapper@.status
                    },
                )
            },
        forall|wrapper: &mut BeanWrapper, outcome: Result<(), BoxError>, r: Result<(), BeanError>|
            #[trigger] call_ensures(BeanWrapper::destroy_done, (wrapper, outcome), r) ==> {
                &&& tells(wrapper@, outcome, r)
                &&& with_status(
                    final(wrapper)@,
                    wrapper@,
                    if r is Ok {
                        BeanStatus::Destroyed
                    } else {
                        wrapper@.status
                    },
                )
            },
{
}

/// `r` tells what a function of the bean came to.
pub open spec fn tells(bean: BeanView, outcome: Result<(), BoxError>, r: Result<(), BeanError>) -> bool {
    match outcome {
        Ok(_) => r is Ok,
        Err(e) => {
            &&& r matches Err(BeanError::Custom(meta, x))
            &&& is_called(bean, meta.bean_type@, meta.bean_name@)
            &&& x == e
        },
    }
}

/// The record `before` has grown to `after` by one call, of the function `f` of the bean, and
/// `r` tells what came of it.
pub open spec fn one_call(
    f: Option<CustomFnEnum>,
    before: Seq<Call>,
    after: Seq<Call>,
    bean: BeanView,
    r: Result<(), BeanError>,
) -> bool {
    &&& after.len() == before.len() + 1
    &&& forall|k: int| 0 <= k < before.len() ==> #[trigger] after[k] == before[k]
    &&& f == Some(CustomFnEnum::Sync(after.last().f))
    &&& after.last().f.gave(after.last().r)
    &&& tells(bean, after.last().r, r)
}

/// Each of these depends on the next, from `bean` on.
pub open spec fn way_from(
    tree: Map<MetaView, Seq<MetaView>>,
    bean: MetaView,
    way: Seq<MetaView>,
) -> bool {
    &&& way.len() > 0
    &&& way[0] == bean
    &&& forall|k: int|
        0 <= k < way.len() - 1 ==> {
            &&& tree.dom().contains(#[trigger] way[k])
            &&& tree[way[k]].contains(way[k + 1])
        }
}

/// The bean is in the tree, with nothing behind it.
pub open spec fn at_the_end(tree: Map<MetaView, Seq<MetaView>>, bean: MetaView) -> bool {
    tree.dom().contains(bean) && tree[bean].len() == 0
}

/// What is initialized on the way from a bean is what is initialized on the way from each of
/// those behind it, one after the other. A bean with nothing behind it is initialized
/// itself, and one that is not in the tree is not.
pub proof fn law_order_unfolds(tree: Map<MetaView, Seq<MetaView>>, bean: MetaView)
    requires
        grounded(tree, bean),
    ensures
        !tree.dom().contains(bean) ==> init_order(tree, bean).len() == 0,
        at_the_end(tree, bean) ==> init_order(tree, bean) == seq![bean],
        tree.dom().contains(bean) && tree[bean].len() > 0 ==> {
            &&& init_order(tree, bean) == Seq::new(
                tree[bean].len(),
                |i: int| init_order(tree, tree[bean][i]),
            ).flatten()
            &&& forall|i: int| 0 <= i < tree[bean].len() ==> grounded(tree, #[trigger] tree[bean][i])
        },
{
    let n = steps(tree, bean);
    assert(ends_within(tree, bean, n));
    if tree.dom().contains(bean) && tree[bean].len() > 0 {
        let m = (n - 1) as nat;
        let next = tree[bean];
        assert forall|i: int| 0 <= i < next.len() implies ends_within(tree, #[trigger] next[i], m) by {}
        lemma_orders_flat(tree, next, m);
        let parts = Seq::new(next.len(), |i: int| init_order(tree, next[i]));
        parts.lemma_flatten_and_flatten_alt_are_equivalent();
    }
}

proof fn lemma_orders_flat(tree: Map<MetaView, Seq<MetaView>>, beans: Seq<MetaView>, n: nat)
    requires
        forall|i: int| 0 <= i < beans.len() ==> ends_within(tree, #[trigger] beans[i], n),
    ensures
        orders_within(tree, beans, n) == Seq::new(
            beans.len(),
            |i: int| init_order(tree, beans[i]),
        ).flatten_alt(),
    decreases beans.len(),
{
    let parts = Seq::new(beans.len(), |i: int| init_order(tree, beans[i]));
    if beans.len() > 0 {
        let rest = beans.drop_last();
        assert forall|i: int| 0 <= i < rest.len() implies ends_within(tree, #[trigger] rest[i], n) by {
            assert(rest[i] == beans[i]);
        }
        lemma_orders_flat(tree, rest, n);
        assert(parts.drop_last() == Seq::new(rest.len(), |i: int| init_order(tree, rest[i])));
        assert(beans[beans.len() - 1] == beans.last());
        assert(ends_within(tree, beans.last(), n));
        lemma_order_within(tree, beans.last(), steps(tree, beans.last()), n);
    }
}

/// What is initialized on the way from a bean is each bean that a way of dependencies leads
/// to, however long, and that has nothing behind it.
pub proof fn law_order_reaches(tree: Map<MetaView, Seq<MetaView>>, bean: MetaView, reached: MetaView)
    requires
        grounded(tree, bean),
    ensures
        init_order(tree, bean).contains(reached) <==> at_the_end(tree, reached) && exists|
            way: Seq<MetaView>,
        |
            #[trigger] way_from(tree, bean, way) && way.last() == reached,
{
    let n = steps(tree, bean);
    assert(ends_within(tree, bean, n));
    if at_the_end(tree, reached) && exists|way: Seq<MetaView>| #[trigger]
        way_from(tree, bean, way) && way.last() == reached {
        let way = choose|way: Seq<MetaView>| #[trigger]
            way_from(tree, bean, way) && way.last() == reached;
        lemma_reached(tree, bean, way, n);
    }
    if init_order(tree, bean).contains(reached) {
        let way = lemma_way(tree, bean, reached, n);
    }
}

proof fn lemma_reached(tree: Map<MetaView, Seq<MetaView>>, bean: MetaView, way: Seq<MetaView>, n: nat)
    requires
        ends_within(tree, bean, n),
        way_from(tree, bean, way),
        at_the_end(tree, way.last()),
    ensures
        order_within(tree, bean, n).contains(way.last()),
    decreases n,
{
    if way.len() == 1 {
        assert(order_within(tree, bean, n)[0] == bean);
    } else {
        assert(tree.dom().contains(way[0]) && tree[way[0]].contains(way[0int + 1]));
        let rest = way.skip(1);
        let i = tree[bean].index_of(way[1]);
        let m = (n - 1) as nat;
        assert(ends_within(tree, tree[bean][i], m));
        assert forall|k: int| 0 <= k < rest.len() - 1 implies {
            &&& tree.dom().contains(#[trigger] rest[k])
            &&& tree[rest[k]].contains(rest[k + 1])
        } by {
            assert(rest[k] == way[k + 1]);
            assert(rest[k + 1] == way[k + 1 + 1]);
        }
        lemma_reached(tree, way[1], rest, m);
        lemma_orders_contain(tree, tree[bean], m, i, way.last());
    }
}

proof fn lemma_orders_contain(
    tree: Map<MetaView, Seq<MetaView>>,
    beans: Seq<MetaView>,
    n: nat,
    i: int,
    reached: MetaView,
)
    requires
        0 <= i < beans.len(),
        order_within(tree, beans[i], n).contains(reached),
    ensures
        orders_within(tree, beans, n).contains(reached),
    decreases beans.len(),
{
    let all = orders_within(tree, beans, n);
    let before = orders_within(tree, beans.drop_last(), n);
    let own = order_within(tree, beans.last(), n);
    if i < beans.len() - 1 {
        lemma_orders_contain(tree, beans.drop_last(), n, i, reached);
        assert(all[before.index_of(reached)] == reached);
    } else {
        assert(all[before.len() + own.index_of(reached)] == reached);
    }
}

proof fn lemma_way(
    tree: Map<MetaView, Seq<MetaView>>,
    bean: MetaView,
    reached: MetaView,
    n: nat,
) -> (way: Seq<MetaView>)
    requires
        order_within(tree, bean, n).contains(reached),
    ensures
        way_from(tree, bean, way),
        way.last() == reached,
        at_the_end(tree, reached),
    decreases n, 0nat,
{
    if tree[bean].len() == 0 {
        seq![bean]
    } else {
        let (i, rest) = lemma_way_among(tree, tree[bean], reached, (n - 1) as nat);
        let way = seq![bean] + rest;
        assert forall|k: int| 0 <= k < way.len() - 1 implies {
            &&& tree.dom().contains(#[trigger] way[k])
            &&& tree[way[k]].contains(way[k + 1])
        } by {
            if k > 0 {
                assert(way[k] == rest[k - 1]);
                assert(way[k + 1] == rest[k - 1 + 1]);
            } else {
                assert(way[1] == rest[0]);
                assert(tree[bean][i] == rest[0]);
            }
        }
        way
    }
}

proof fn lemma_way_among(
    tree: Map<MetaView, Seq<MetaView>>,
    beans: Seq<MetaView>,
    reached: MetaView,
    n: nat,
) -> (r: (int, Seq<MetaView>))
    requires
        orders_within(tree, beans, n).contains(reached),
    ensures
        0 <= r.0 < beans.len(),
        way_from(tree, beans[r.0], r.1),
        r.1.last() == reached,
        at_the_end(tree, reached),
    decreases n, beans.len() + 1,
{
    let all = orders_within(tree, beans, n);
    let before = orders_within(tree, beans.drop_last(), n);
    let own = order_within(tree, beans.last(), n);
    let k = all.index_of(reached);
    if k < before.len() {
        assert(before[k] == reached);
        lemma_way_among(tree, beans.drop_last(), reached, n)
    } else {
        assert(own[k - before.len()] == reached);
        (beans.len() - 1, lemma_way(tree, beans.last(), reached, n))
    }
}

/// The plan holds each bean that a way of dependencies leads to and that has nothing behind
/// it, and no other.
pub open spec fn planned(
    tree: Map<MetaView, Seq<MetaView>>,
    bean: MetaView,
    plan: Seq<BeanMetadata>,
) -> bool {
    &&& forall|k: int|
        0 <= k < plan.len() ==> at_the_end(tree, (#[trigger] plan[k])@) && exists|way: Seq<MetaView>| #[trigger]
            way_from(tree, bean, way) && way.last() == plan[k]@
    &&& forall|way: Seq<MetaView>| #[trigger]
        way_from(tree, bean, way) && at_the_end(tree, way.last()) ==> exists|k: int|
            0 <= k < plan.len() && (#[trigger] plan[k])@ == way.last()
}

proof fn lemma_planned(tree: Map<MetaView, Seq<MetaView>>, bean: MetaView, plan: Seq<BeanMetadata>)
    requires
        grounded(tree, bean),
        meta_views(plan) == init_order(tree, bean),
    ensures
        planned(tree, bean, plan),
{
    let order = meta_views(plan);
    assert forall|k: int| 0 <= k < plan.len() implies at_the_end(tree, (#[trigger] plan[k])@) && exists|
        way: Seq<MetaView>,
    | #[trigger]
        way_from(tree, bean, way) && way.last() == plan[k]@ by {
        assert(order[k] == plan[k]@);
        law_order_reaches(tree, bean, plan[k]@);
    }
    assert forall|way: Seq<MetaView>| #[trigger]
        way_from(tree, bean, way) && at_the_end(tree, way.last()) implies exists|k: int|
        0 <= k < plan.len() && (#[trigger] plan[k])@ == way.last() by {
        law_order_reaches(tree, bean, way.last());
        let k = order.index_of(way.last());
        assert(plan[k]@ == way.last());
    }
}

/// The plan of an initialization holds the beans that are to be initialized on the way from
/// the bean, however long the way is.
pub proof fn law_planning()
    ensures
        forall|dep_map: &DepTree, bean: BeanMetadata, plan: Vec<BeanMetadata>| #[trigger]
            call_ensures(init_plan, (dep_map, bean), plan) && grounded(dep_map@, bean@) ==> planned(
                dep_map@,
                bean@,
                plan@,
            ),
{
    assert forall|dep_map: &DepTree, bean: BeanMetadata, plan: Vec<BeanMetadata>| #[trigger]
        call_ensures(init_plan, (dep_map, bean), plan) && grounded(dep_map@, bean@) implies planned(
        dep_map@,
        bean@,
        plan@,
    ) by {
        lemma_planned(dep_map@, bean@, plan@);
    }
}

/// A failure is one of the bean.
pub open spec fn fails_as(bean: BeanView, r: Result<(), BeanError>) -> bool {
    r matches Err(e) ==> e matches BeanError::Custom(meta, _) && is_called(
        bean,
        meta.bean_type@,
        meta.bean_name@,
    )
}

/// What is done with beans that are there, without keeping any of them longer.
pub open spec fn handling() -> bool {
    &&& finishing()
    &&& looking_up::<bool>()
    &&& forall|ctx: &AppContext, r: bool| #[trigger]
        call_ensures(AppContext::is_last_clone, (ctx,), r) ==> exists|n: usize| #[trigger]
            ctx.clones_counted(n) && r == (n == 1)
    &&& forall|ctx: &AppContext, r: &AppContextInner| #[trigger]
        call_ensures(AppContext::inner, (ctx,), r) ==> r@ == ctx@
    &&& forall|builder: &AppContextBuilder, r: &AppContextInner| #[trigger]
        call_ensures(AppContextBuilder::inner, (builder,), r) ==> r@ == builder@
    &&& forall|builder: &mut AppContextBuilder, r: &mut AppContextInner| #[trigger]
        call_ensures(AppContextBuilder::inner_mut, (builder,), r) ==> r@ == builder@
    &&& forall|beans: &mut AppContextInner, meta: &BeanMetadata, r: Option<&mut BeanWrapper>| #[trigger]
        call_ensures(AppContextInner::get_mut, (beans, meta), r) && r is None ==> forall|i: int|
            0 <= i < beans@.len() ==> !is_called(#[trigger] beans@[i], meta.bean_type@, meta.bean_name@)
    &&& forall|
        builder: AppContextBuilder,
        ty: BeanType<bool>,
        name: &'static str,
        built: Result<bool, bool>,
        setup: AsyncSetup,
        r: Result<AppContextBuilder, bool>,
    | #[trigger]
        call_ensures(
            AppContextBuilder::construct_bean_async::<bool, bool>,
            (builder, ty, name, built, setup),
            r,
        ) ==> (built is Ok <==> r is Ok)
    &&& forall|builder: &mut AppContextBuilder, ty: BeanType<bool>, name: &'static str, r: BeanRef<bool>|
        #[trigger] call_ensures(
            AppContextBuilder::acquire_bean_or_init::<bool>,
            (builder, ty, name),
            r,
        ) ==> exists|handle: Handle| #[trigger] refers(r.weak(), handle)
    &&& forall|builder: AppContextBuilder, log: &mut CallLog, r: Result<AppContext, BeanError>| #[trigger]
        call_ensures(AppContextBuilder::build_non_async, (builder, log), r) ==> (r matches Ok(ctx)
            ==> ctx@.len() == builder@.len())
    &&& forall|builder: &AppContextBuilder, reverse: bool, r: DepTree| #[trigger]
        call_ensures(AppContextBuilder::build_dep_tree, (builder, reverse), r) ==> r@.dom().finite()
    &&& forall|
        beans: &mut AppContextInner,
        dep_map: &DepTree,
        history: Vec<BeanMetadata>,
        log: &mut CallLog,
        r: Result<(), BeanError>,
    | #[trigger]
        call_ensures(init_recursive, (beans, dep_map, history, log), r) ==> (r matches Err(e)
            ==> e is Custom)
    &&& forall|wrapper: &mut BeanWrapper, log: &mut CallLog, r: Result<(), BeanError>| #[trigger]
        call_ensures(BeanWrapper::run_init_fn, (wrapper, log), r) ==> fails_as(wrapper@, r)
    &&& forall|wrapper: &mut BeanWrapper, log: &mut CallLog, r: Result<(), BeanError>| #[trigger]
        call_ensures(BeanWrapper::run_destroy_fn, (wrapper, log), r) ==> fails_as(wrapper@, r)
    &&& forall|wrapper: &BeanWrapper, r: &Handle| #[trigger]
        call_ensures(BeanWrapper::handle, (wrapper,), r) ==> *r == wrapper@.bean
    &&& forall|wrapper: &BeanWrapper, r: &CustomFnAsync| #[trigger]
        call_ensures(BeanWrapper::run_init_fn_async, (wrapper,), r) ==> wrapper@.init_fn == Some(
            CustomFnEnum::Async(*r),
        )
    &&& forall|wrapper: &BeanWrapper, r: &CustomFnAsync| #[trigger]
        call_ensures(BeanWrapper::run_destroy_fn_async, (wrapper,), r) ==> wrapper@.destroy_fn == Some(
            CustomFnEnum::Async(*r),
        )
}

/// What beans are made of and copied by.
pub open spec fn making() -> bool {
    &&& forall|wrapper: &BeanWrapper, copy: BeanWrapper| #[trigger]
        call_ensures(<BeanWrapper as Clone>::clone, (wrapper,), copy) ==> with_status(
            copy@,
            BeanView { writer: None, ..wrapper@ },
            wrapper@.status,
        )
    &&& forall|ctx: &AppContext, copy: AppContext| #[trigger]
        call_ensures(<AppContext as Clone>::clone, (ctx,), copy) ==> copy@ == ctx@
    &&& forall|
        builder: AppContextBuilder,
        ty: BeanType<()>,
        name: &'static str,
        built: Result<(), ()>,
        r: Result<AppContextBuilder, ()>,
    | #[trigger]
        call_ensures(
            AppContextBuilder::construct_bean::<(), (), (), ()>,
            (builder, ty, name, built),
            r,
        ) ==> (built is Ok <==> r is Ok)
}

/// What is done with beans that are there, as far as it can be told without what has become
/// of them.
pub proof fn law_handling()
    ensures
        handling(),
{
    law_finishing();
    law_looking_up::<bool>();
    assert forall|beans: &mut AppContextInner, meta: &BeanMetadata, r: Option<&mut BeanWrapper>| #[trigger]
        call_ensures(AppContextInner::get_mut, (beans, meta), r) && r is None implies forall|i: int|
        0 <= i < beans@.len() ==> !is_called(#[trigger] beans@[i], meta.bean_type@, meta.bean_name@) by {
        lemma_found_one(beans@, meta@);
    }
}

/// How beans are made and copied, as far as it can be told without what has become of them.
pub proof fn law_making()
    ensures
        making(),
{
}

/// The tree of what each bean depends on: behind each bean that depends on something stand
/// its dependencies, as it lists them, and nothing else is in the tree.
pub open spec fn tree_of(beans: Seq<BeanView>, tree: Map<MetaView, Seq<MetaView>>) -> bool {
    &&& forall|i: int|
        0 <= i < beans.len() && ((#[trigger] beans[i]).depends_on->0).len() > 0 ==> {
            &&& tree.dom().contains(beans[i].meta)
            &&& tree[beans[i].meta] == beans[i].depends_on->0
        }
    &&& forall|key: MetaView| #[trigger]
        tree.dom().contains(key) ==> exists|i: int|
            {
                &&& 0 <= i < beans.len()
                &&& (#[trigger] beans[i]).meta == key
                &&& (beans[i].depends_on->0).len() > 0
            }
}

/// The tree of what depends on each bean: a bean stands behind another as often as it lists
/// the other, and nothing else is in the tree.
pub open spec fn tree_back(beans: Seq<BeanView>, tree: Map<MetaView, Seq<MetaView>>) -> bool {
    &&& forall|i: int, key: MetaView|
        0 <= i < beans.len() && ((#[trigger] beans[i]).depends_on->0).contains(key)
            ==> #[trigger] tree.dom().contains(key)
    &&& forall|i: int, key: MetaView|
        0 <= i < beans.len() && #[trigger] tree.dom().contains(key) ==> tree[key].to_multiset().count(
            (#[trigger] beans[i]).meta,
        ) == (beans[i].depends_on->0).to_multiset().count(key)
    &&& forall|key: MetaView, k: int|
        #[trigger] tree.dom().contains(key) && 0 <= k < tree[key].len() ==> exists|i: int|
            0 <= i < beans.len() && (#[trigger] beans[i]).meta == #[trigger] tree[key][k]
    &&& forall|key: MetaView| #[trigger] tree.dom().contains(key) ==> tree[key].len() > 0
}

proof fn lemma_tree_of(beans: Seq<BeanView>)
    requires
        wf(beans),
        all_initialized(beans),
    ensures
        tree_of(beans, grouped(edges(beans, false))),
{
    let tree = grouped(edges(beans, false));
    assert forall|i: int| 0 <= i < beans.len() && ((#[trigger] beans[i]).depends_on->0).len() > 0 implies {
        &&& tree.dom().contains(beans[i].meta)
        &&& tree[beans[i].meta] == beans[i].depends_on->0
    } by {
        lemma_place(beans, i);
        law_tree_of_dependencies(beans, beans[i].meta);
    }
    assert forall|key: MetaView| #[trigger] tree.dom().contains(key) implies exists|i: int|
        {
            &&& 0 <= i < beans.len()
            &&& (#[trigger] beans[i]).meta == key
            &&& (beans[i].depends_on->0).len() > 0
        } by {
        law_tree_of_dependencies(beans, key);
        let i = place(beans, key);
        assert(beans[i].meta == key);
    }
}

proof fn lemma_edge_source(beans: Seq<BeanView>, k: int) -> (r: (int, int))
    requires
        0 <= k < edges(beans, true).len(),
    ensures
        0 <= r.0 < beans.len(),
        0 <= r.1 < (beans[r.0].depends_on->0).len(),
        edges(beans, true)[k] == ((beans[r.0].depends_on->0)[r.1], beans[r.0].meta),
    decreases beans.len(),
{
    let rest = edges(beans.drop_last(), true);
    if k < rest.len() {
        lemma_edge_source(beans.drop_last(), k)
    } else {
        (beans.len() - 1, k - rest.len())
    }
}

proof fn lemma_edge_target(beans: Seq<BeanView>, i: int, j: int) -> (k: int)
    requires
        0 <= i < beans.len(),
        0 <= j < (beans[i].depends_on->0).len(),
    ensures
        0 <= k < edges(beans, true).len(),
        edges(beans, true)[k] == ((beans[i].depends_on->0)[j], beans[i].meta),
    decreases beans.len(),
{
    let rest = edges(beans.drop_last(), true);
    if i < beans.len() - 1 {
        lemma_edge_target(beans.drop_last(), i, j)
    } else {
        rest.len() + j
    }
}

proof fn lemma_tree_back(beans: Seq<BeanView>)
    requires
        wf(beans),
        all_initialized(beans),
    ensures
        tree_back(beans, grouped(edges(beans, true))),
{
    broadcast use vstd::seq_lib::group_to_multiset_ensures;

    let pairs = edges(beans, true);
    let tree = grouped(pairs);
    assert forall|i: int, key: MetaView|
        0 <= i < beans.len() && ((#[trigger] beans[i]).depends_on->0).contains(key) implies #[trigger] tree.dom().contains(
        key,
    ) by {
        let j = (beans[i].depends_on->0).index_of(key);
        let k = lemma_edge_target(beans, i, j);
        assert(pairs[k].0 == key);
        assert(leads(pairs, key));
    }
    assert forall|i: int, key: MetaView|
        0 <= i < beans.len() && #[trigger] tree.dom().contains(key) implies tree[key].to_multiset().count(
        (#[trigger] beans[i]).meta,
    ) == (beans[i].depends_on->0).to_multiset().count(key) by {
        law_reverse_tree(beans, beans[i].meta, key);
        lemma_place(beans, i);
        lemma_behind_own(beans, beans[i].meta);
    }
    assert forall|key: MetaView, k: int|
        #[trigger] tree.dom().contains(key) && 0 <= k < tree[key].len() implies exists|i: int|
        0 <= i < beans.len() && (#[trigger] beans[i]).meta == #[trigger] tree[key][k] by {
        let keep = begins_with(key);
        lemma_filter_source(pairs, keep);
        let j = choose|j: int| 0 <= j < pairs.len() && pairs[j] == pairs.filter(keep)[k];
        let (i, _) = lemma_edge_source(beans, j);
        assert(beans[i].meta == tree[key][k]);
    }
    assert forall|key: MetaView| #[trigger] tree.dom().contains(key) implies tree[key].len() > 0 by {
        lemma_leads(pairs, key);
    }
}

/// The tree of dependencies tells what the beans list, in either direction.
pub proof fn law_drawing_the_tree()
    ensures
        forall|builder: &AppContextBuilder, reverse: bool, tree: DepTree| #[trigger]
            call_ensures(AppContextBuilder::build_dep_tree, (builder, reverse), tree) && wf(builder@) && (
            forall|i: int|
                0 <= i < builder@.len() ==> (#[trigger] builder@[i]).status != BeanStatus::NotInit) ==> if reverse {
                tree_back(builder@, tree@)
            } else {
                tree_of(builder@, tree@)
            },
{
    assert forall|builder: &AppContextBuilder, reverse: bool, tree: DepTree| #[trigger]
        call_ensures(AppContextBuilder::build_dep_tree, (builder, reverse), tree) && wf(builder@) && (forall|
            i: int,
        |
            0 <= i < builder@.len() ==> (#[trigger] builder@[i]).status != BeanStatus::NotInit) implies if reverse {
        tree_back(builder@, tree@)
    } else {
        tree_of(builder@, tree@)
    } by {
        assert(all_initialized(builder@));
        lemma_tree_of(builder@);
        lemma_tree_back(builder@);
    }
}

/// One more pair in a tree comes last behind its key, and changes nothing else.
pub proof fn law_one_more_pair(
    tree: Map<MetaView, Seq<MetaView>>,
    key: MetaView,
    value: MetaView,
    other: MetaView,
)
    ensures
        with_pair(tree, (key, value)).dom().contains(key),
        with_pair(tree, (key, value))[key].last() == value,
        with_pair(tree, (key, value))[key].drop_last() == if tree.dom().contains(key) {
            tree[key]
        } else {
            Seq::empty()
        },
        with_pair(tree, (key, value))[key].len() > 0,
        other != key ==> {
            &&& with_pair(tree, (key, value)).dom().contains(other) == tree.dom().contains(other)
            &&& tree.dom().contains(other) ==> with_pair(tree, (key, value))[other] == tree[other]
        },
{
}

/// Whether beans have been constructed, and whether any of them was awaited, is told by the
/// first that is not as it should be.
pub proof fn law_checking()
    ensures
        forall|builder: &AppContextBuilder, r: Result<(), BeanError>| #[trigger]
            call_ensures(AppContextBuilder::check_init_finished, (builder,), r) ==> match r {
                Ok(_) => forall|i: int|
                    0 <= i < builder@.len() ==> (#[trigger] builder@[i]).status != BeanStatus::NotInit,
                Err(e) => finished(builder@, Err(e)),
            },
        forall|builder: &AppContextBuilder, r: Result<(), BeanError>| #[trigger]
            call_ensures(AppContextBuilder::check_contains_async, (builder,), r) ==> match r {
                Ok(_) => forall|i: int|
                    0 <= i < builder@.len() ==> (#[trigger] builder@[i]).is_async != Some(true),
                Err(e) => e matches BeanError::HasAsync(meta) && exists|i: int|
                    {
                        &&& 0 <= i < builder@.len()
                        &&& (#[trigger] builder@[i]).is_async == Some(true)
                        &&& is_called(builder@[i], meta.bean_type@, meta.bean_name@)
                        &&& forall|j: int| 0 <= j < i ==> (#[trigger] builder@[j]).is_async != Some(true)
                    },
            },
        forall|wrapper: &BeanWrapper, r: bool| #[trigger]
            call_ensures(BeanWrapper::initialized, (wrapper,), r) ==> r == (wrapper@.status
                != BeanStatus::NotInit),
        forall|beans: &AppContextInner, r: Result<Vec<BeanMetadata>, Vec<BeanMetadata>>| #[trigger]
            call_ensures(AppContextInner::order_by_dependencies, (beans,), r) && wf(beans@) && (forall|
                i: int,
            |
                0 <= i < beans@.len() ==> (#[trigger] beans@[i]).status != BeanStatus::NotInit) ==> match r {
                Ok(plan) => exists|at: Seq<int>|
                    {
                        &&& #[trigger] orderly(beans@, at)
                        &&& at.len() == plan@.len()
                        &&& forall|k: int|
                            0 <= k < at.len() ==> beans@[#[trigger] at[k]].meta == plan@[k]@
                    },
                Err(path) => in_a_circle(beans@, path@),
            },
{
    assert forall|builder: &AppContextBuilder, r: Result<(), BeanError>| #[trigger]
        call_ensures(AppContextBuilder::check_init_finished, (builder,), r) && r is Err implies finished(
        builder@,
        Err(r->Err_0),
    ) by {
        lemma_unfinished(builder@, r->Err_0);
    }
    assert forall|builder: &AppContextBuilder, r: Result<(), BeanError>| #[trigger]
        call_ensures(AppContextBuilder::check_contains_async, (builder,), r) && r is Err implies r->Err_0 matches BeanError::HasAsync(
        meta,
    ) && exists|i: int|
        {
            &&& 0 <= i < builder@.len()
            &&& (#[trigger] builder@[i]).is_async == Some(true)
            &&& is_called(builder@[i], meta.bean_type@, meta.bean_name@)
            &&& forall|j: int| 0 <= j < i ==> (#[trigger] builder@[j]).is_async != Some(true)
        } by {
        lemma_first_awaited(builder@, r->Err_0);
    }
    assert forall|beans: &AppContextInner, r: Result<Vec<BeanMetadata>, Vec<BeanMetadata>>| #[trigger]
        call_ensures(AppContextInner::order_by_dependencies, (beans,), r) && wf(beans@) && (forall|i: int|
            0 <= i < beans@.len() ==> (#[trigger] beans@[i]).status != BeanStatus::NotInit) implies match r {
        Ok(plan) => exists|at: Seq<int>|
            {
                &&& #[trigger] orderly(beans@, at)
                &&& at.len() == plan@.len()
                &&& forall|k: int| 0 <= k < at.len() ==> beans@[#[trigger] at[k]].meta == plan@[k]@
            },
        Err(path) => in_a_circle(beans@, path@),
    } by {
        assert(all_initialized(beans@));
        match r {
            Ok(plan) => {
                let order = meta_views(plan@);
                lemma_orderly(beans@, order);
                let at = stand(beans@, order);
                assert forall|k: int| 0 <= k < at.len() implies beans@[#[trigger] at[k]].meta == plan@[k]@ by {
                    assert(order[k] == plan@[k]@);
                }
                assert(orderly(beans@, at));
            },
            Err(path) => {
                lemma_circle(beans@, path@);
            },
        }
    }
}

proof fn lemma_first_awaited(beans: Seq<BeanView>, e: BeanError)
    requires
        names_async(beans, e),
    ensures
        e matches BeanError::HasAsync(meta) && exists|i: int|
            {
                &&& 0 <= i < beans.len()
                &&& (#[trigger] beans[i]).is_async == Some(true)
                &&& is_called(beans[i], meta.bean_type@, meta.bean_name@)
                &&& forall|j: int| 0 <= j < i ==> (#[trigger] beans[j]).is_async != Some(true)
            },
{
    let i = choose|i: int|
        {
            &&& 0 <= i < beans.len()
            &&& (#[trigger] beans[i]).is_async == Some(true)
            &&& !some_async(beans.take(i))
            &&& e matches BeanError::HasAsync(meta)
            &&& meta@ == beans[i].meta
        };
    assert forall|j: int| 0 <= j < i implies (#[trigger] beans[j]).is_async != Some(true) by {
        assert(beans.take(i)[j] == beans[j]);
    }
}

/// A bean of the registry is the one of that type and name. Changing it leaves the others as
/// they are.
pub proof fn law_getting()
    ensures
        forall|beans: &AppContextInner, meta: &BeanMetadata, r: Option<&BeanWrapper>| #[trigger]
            call_ensures(AppContextInner::get, (beans, meta), r) ==> match r {
                Some(wrapper) => exists|i: int|
                    {
                        &&& 0 <= i < beans@.len()
                        &&& is_called(#[trigger] beans@[i], meta.bean_type@, meta.bean_name@)
                        &&& wrapper@ == beans@[i]
                    },
                None => forall|i: int|
                    0 <= i < beans@.len() ==> !is_called(
                        #[trigger] beans@[i],
                        meta.bean_type@,
                        meta.bean_name@,
                    ),
            },
        forall|beans: &mut AppContextInner, meta: &BeanMetadata, r: Option<&mut BeanWrapper>| #[trigger]
            call_ensures(AppContextInner::get_mut, (beans, meta), r) ==> match r {
                Some(wrapper) => exists|i: int|
                    {
                        &&& 0 <= i < beans@.len()
                        &&& is_called(#[trigger] beans@[i], meta.bean_type@, meta.bean_name@)
                        &&& wrapper@ == beans@[i]
                        &&& final(beans)@ == beans@.update(i, final(wrapper)@)
                    },
                None => final(beans)@ == beans@,
            },
        forall|beans: &AppContextInner, i: usize, wrapper: &BeanWrapper| #[trigger]
            call_ensures(AppContextInner::at, (beans, i), wrapper) ==> wrapper@ == beans@[i as int],
{
    assert forall|beans: &AppContextInner, meta: &BeanMetadata, r: Option<&BeanWrapper>| #[trigger]
        call_ensures(AppContextInner::get, (beans, meta), r) implies match r {
        Some(wrapper) => exists|i: int|
            {
                &&& 0 <= i < beans@.len()
                &&& is_called(#[trigger] beans@[i], meta.bean_type@, meta.bean_name@)
                &&& wrapper@ == beans@[i]
            },
        None => forall|i: int|
            0 <= i < beans@.len() ==> !is_called(#[trigger] beans@[i], meta.bean_type@, meta.bean_name@),
    } by {
        lemma_found_one(beans@, meta@);
    }
    assert forall|beans: &mut AppContextInner, meta: &BeanMetadata, r: Option<&mut BeanWrapper>| #[trigger]
        call_ensures(AppContextInner::get_mut, (beans, meta), r) implies match r {
        Some(wrapper) => exists|i: int|
            {
                &&& 0 <= i < beans@.len()
                &&& is_called(#[trigger] beans@[i], meta.bean_type@, meta.bean_name@)
                &&& wrapper@ == beans@[i]
                &&& final(beans)@ == beans@.update(i, final(wrapper)@)
            },
        None => final(beans)@ == beans@,
    } by {
        lemma_found_one(beans@, meta@);
    }
}

/// A name is that of the type and that of the bean, and two names are the same where both
/// are.
pub proof fn law_naming<T>()
    ensures
        forall|ty: &BeanType<T>, name: &'static str, meta: BeanMetadata| #[trigger]
            call_ensures(BeanMetadata::build_meta::<T>, (ty, name), meta) ==> meta.bean_type@
                == ty.bean_type@ && meta.bean_name@ == name@,
        forall|a: BeanMetadata, b: BeanMetadata|
            #![trigger a@, b@]
            a@ == b@ <==> a.bean_type@ == b.bean_type@ && a.bean_name@ == b.bean_name@,
        forall|a: &BeanMetadata, b: &BeanMetadata, r: bool| #[trigger]
            call_ensures(<BeanMetadata as PartialEq>::eq, (a, b), r) ==> r == (a.bean_type@ == b.bean_type@
                && a.bean_name@ == b.bean_name@),
        forall|metas: Seq<BeanMetadata>, k: int|
            0 <= k < metas.len() ==> {
                &&& (#[trigger] meta_views(metas)[k]).bean_type == metas[k].bean_type@
                &&& meta_views(metas)[k].bean_name == metas[k].bean_name@
            },
        forall|metas: Seq<BeanMetadata>| (#[trigger] meta_views(metas)).len() == metas.len(),
{
    assert forall|a: BeanMetadata, b: BeanMetadata|
        #![trigger a@, b@]
        a.bean_type@ == b.bean_type@ && a.bean_name@ == b.bean_name@ implies a@ == b@ by {
        assert(a@ =~= b@);
    }
}

/// Following a reference gives the cell that it refers to, if anyone keeps it, and a cell
/// gives the bean that was put into it.
pub proof fn law_following<T: Send + Sync + 'static>()
    ensures
        forall|bean: &BeanRef<T>, r: Result<RefWrapper<T>, AppContextDroppedError>| #[trigger]
            call_ensures(BeanRef::<T>::try_acquire, (bean,), r) ==> exists|
                cell: Option<Arc<OnceCell<T>>>,
            | #[trigger]
                upgraded(bean.weak(), cell) && match cell {
                    Some(cell) => r matches Ok(wrapper) && wrapper.cell() == *cell,
                    None => r is Err,
                },
        forall|bean: &BeanRef<T>, r: bool| #[trigger]
            call_ensures(BeanRef::<T>::is_active, (bean,), r) ==> exists|cell: Option<Arc<OnceCell<T>>>|
                #[trigger] upgraded(bean.weak(), cell) && r == (cell is Some),
        forall|bean: &BeanRef<T>, held: &Handle, r: RefWrapper<T>| #[trigger]
            call_ensures(BeanRef::<T>::acquire, (bean, held), r) ==> exists|weak: WeakCell<T>| #[trigger]
                refers(weak, *held) && upgraded(weak, Some(Arc::new(r.cell()))),
        forall|handle: &Handle, r: BeanRef<T>| #[trigger]
            call_ensures(BeanRef::<T>::to, (handle,), r) ==> refers(r.weak(), *handle),
        forall|
            held: &RefWrapper<T>,
            r: &T,
            writer: BeanWriter,
            handle: Handle,
            weak: WeakCell<T>,
            bean: T,
        |
            #[trigger] call_ensures(RefWrapper::<T>::deref, (held,), r) && #[trigger] paired::<T>(
                writer,
                handle,
            ) && #[trigger] put_with(writer, bean) && #[trigger] refers(weak, handle) && upgraded(
                weak,
                Some(Arc::new(held.cell())),
            ) ==> *r == bean,
        forall|
            held: &RefWrapper<T>,
            r: Option<&T>,
            writer: BeanWriter,
            handle: Handle,
            weak: WeakCell<T>,
            bean: T,
        |
            #[trigger] call_ensures(RefWrapper::<T>::get, (held,), r) && #[trigger] paired::<T>(
                writer,
                handle,
            ) && #[trigger] put_with(writer, bean) && #[trigger] refers(weak, handle) && upgraded(
                weak,
                Some(Arc::new(held.cell())),
            ) && r is Some ==> *(r->0) == bean,
{
    assert forall|bean: &BeanRef<T>, r: Result<RefWrapper<T>, AppContextDroppedError>| #[trigger]
        call_ensures(BeanRef::<T>::try_acquire, (bean,), r) implies exists|cell: Option<Arc<OnceCell<T>>>|
        #[trigger] upgraded(bean.weak(), cell) && match cell {
            Some(cell) => r matches Ok(wrapper) && wrapper.cell() == *cell,
            None => r is Err,
        } by {
        let cell = choose|cell: Option<Arc<OnceCell<T>>>|
            upgraded(bean.weak(), cell) && #[trigger] acquired(cell, r);
        assert(upgraded(bean.weak(), cell));
    }
    assert forall|
        held: &RefWrapper<T>,
        r: &T,
        writer: BeanWriter,
        handle: Handle,
        weak: WeakCell<T>,
        bean: T,
    |
        #[trigger] call_ensures(RefWrapper::<T>::deref, (held,), r) && #[trigger] paired::<T>(
            writer,
            handle,
        ) && #[trigger] put_with(writer, bean) && #[trigger] refers(weak, handle) && upgraded(
            weak,
            Some(Arc::new(held.cell())),
        ) implies *r == bean by {
        assert(filled(handle, bean));
        assert(opens(handle, held.cell()));
        assert(bean_in(held.cell(), bean));
    }
    assert forall|
        held: &RefWrapper<T>,
        r: Option<&T>,
        writer: BeanWriter,
        handle: Handle,
        weak: WeakCell<T>,
        bean: T,
    |
        #[trigger] call_ensures(RefWrapper::<T>::get, (held,), r) && #[trigger] paired::<T>(
            writer,
            handle,
        ) && #[trigger] put_with(writer, bean) && #[trigger] refers(weak, handle) && upgraded(
            weak,
            Some(Arc::new(held.cell())),
        ) && r is Some implies *(r->0) == bean by {
        assert(filled(handle, bean));
        assert(opens(handle, held.cell()));
        assert(bean_in(held.cell(), bean));
    }
}

/// A bean that was put into its cell is the one that the holders of the cell find, so what
/// is called filled was put there by the one who could.
pub proof fn law_filling<T: Send + Sync + 'static>(handle: Handle, bean: T)
    ensures
        filled(handle, bean) <==> exists|writer: BeanWriter| #[trigger]
            paired::<T>(writer, handle) && put_with(writer, bean),
        typed::<T>(handle) <==> exists|writer: BeanWriter| paired::<T>(writer, handle),
{
}

/// Each error names the bean that it is about, and says what is wrong with it.
pub proof fn law_telling()
    ensures
        forall|e: &BeanError, text: String| #[trigger]
            call_ensures(BeanError::message, (e,), text) ==> match e {
                BeanError::NotInitialized(meta) => text@ == "bean with type "@ + meta.bean_type@
                    + " and name "@ + meta.bean_name@
                    + " is not initialized with `construct_bean` method"@,
                BeanError::HasAsync(meta) => text@ == "bean with type "@ + meta.bean_type@ + " and name "@
                    + meta.bean_name@
                    + " is async and cannot be initialized with `build_non_async` method"@,
                BeanError::CyclicDependency(path) => text@ == "cyclic dependencies detected: "@ + path_text(
                    meta_views(path@),
                ),
                BeanError::Custom(meta, e) => text@ == "custom error of bean "@ + meta.bean_type@
                    + " with type "@ + meta.bean_name@ + ": "@ + e.text(),
            },
        forall|path: &Vec<BeanMetadata>, text: String| #[trigger]
            call_ensures(pretty_print, (path,), text) ==> text@ == path_text(meta_views(path@)),
{
}

/// A path is shown bean by bean, with an arrow between each two.
pub proof fn law_showing_a_path(a: Seq<MetaView>, b: Seq<MetaView>, meta: MetaView)
    requires
        a.len() > 0,
        b.len() > 0,
    ensures
        path_text(Seq::<MetaView>::empty()).len() == 0,
        path_text(seq![meta]) == meta.bean_name + "("@ + meta.bean_type + ")"@,
        path_text(a + b) == path_text(a) + " -> "@ + path_text(b),
    decreases b.len(),
{
    let all = a + b;
    assert(all.drop_last() == a + b.drop_last());
    assert(all.last() == b.last());
    if b.len() == 1 {
        assert(a + b.drop_last() == a);
        assert(b[0] == b.last());
        assert(path_text(all) == path_text(a) + " -> "@ + bean_text(b.last()));
    } else {
        law_showing_a_path(a, b.drop_last(), meta);
        assert(path_text(all) == path_text(a) + " -> "@ + path_text(b.drop_last()) + " -> "@ + bean_text(
            b.last(),
        ));
    }
}

} // verus!
