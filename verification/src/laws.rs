//! What holds of the container as a whole, over the beans that its parts speak of.
use crate::bean_ref::{
    acquired, bean_in, filled, opens, refers, upgraded, BeanWriter, Handle, RefWrapper, WeakCell,
};
use crate::context::{
    all_initialized, asked_for, cell_of, constructed, free, lemma_place, lookup, names_async,
    names_unfinished, of_name, of_type, place, registered, some_async, wf,
};
use crate::depend::{
    begins_with, behind, edges, edges_of, ends_within, grounded, grouped, init_order, is_cycle, is_path,
    leads, lemma_order_within, order_within, steps,
};
use crate::error::{AppContextDroppedError, BeanError};
use crate::initialize::{cyclic, depends, in_use, initialized_by, lemma_in_use, order_of_all};
use crate::lifecycle::{law_initializes, AsyncSetup, BuildFromContext, Call, SyncSetup};
use crate::metadata::MetaView;
use crate::wrapper::{BeanStatus, BeanView};
use once_cell::sync::OnceCell;
use std::sync::Arc;
use vstd::prelude::*;

verus! {

/// A bean stays where it stands when others are registered after it.
proof fn lemma_place_push(beans: Seq<BeanView>, bean: BeanView)
    requires
        wf(beans),
        bean.wf(),
        !registered(beans, bean.meta),
    ensures
        wf(beans.push(bean)),
        registered(beans.push(bean), bean.meta),
        lookup(beans.push(bean), bean.meta) == bean,
        forall|m: MetaView|
            m != bean.meta ==> #[trigger] registered(beans.push(bean), m) == registered(beans, m),
        forall|m: MetaView|
            registered(beans, m) ==> #[trigger] lookup(beans.push(bean), m) == lookup(beans, m),
{
    let all = beans.push(bean);
    assert(wf(all));
    assert(all[beans.len() as int] == bean);
    lemma_place(all, beans.len() as int);
    assert forall|m: MetaView| m != bean.meta implies #[trigger] registered(all, m) == registered(
        beans,
        m,
    ) by {
        if registered(beans, m) {
            assert(all[place(beans, m)].meta == m);
        }
        if registered(all, m) {
            assert(beans[place(all, m)].meta == m);
        }
    }
    assert forall|m: MetaView| registered(beans, m) implies #[trigger] lookup(all, m) == lookup(beans, m) by {
        let i = place(beans, m);
        assert(all[i] == beans[i]);
        lemma_place(all, i);
    }
}

/// A bean stays where it stands when more becomes known about it or another.
proof fn lemma_place_update(beans: Seq<BeanView>, i: int, bean: BeanView)
    requires
        wf(beans),
        bean.wf(),
        0 <= i < beans.len(),
        bean.meta == beans[i].meta,
    ensures
        wf(beans.update(i, bean)),
        forall|m: MetaView| #[trigger] registered(beans.update(i, bean), m) == registered(beans, m),
        forall|m: MetaView|
            registered(beans, m) ==> #[trigger] lookup(beans.update(i, bean), m) == if m == bean.meta {
                bean
            } else {
                lookup(beans, m)
            },
{
    let all = beans.update(i, bean);
    assert(forall|j: int| 0 <= j < all.len() ==> (#[trigger] all[j]).meta == beans[j].meta);
    assert(wf(all));
    assert forall|m: MetaView| #[trigger] registered(all, m) == registered(beans, m) by {
        if registered(beans, m) {
            assert(all[place(beans, m)].meta == m);
        }
        if registered(all, m) {
            assert(beans[place(all, m)].meta == m);
        }
    }
    assert forall|m: MetaView| registered(beans, m) implies #[trigger] lookup(all, m) == if m
        == bean.meta {
        bean
    } else {
        lookup(beans, m)
    } by {
        let j = place(beans, m);
        assert(all[j].meta == m);
        lemma_place(all, j);
        lemma_place(beans, i);
    }
}

/// Asking for a bean registers it, leaves every other bean as it is, and keeps the
/// beans apart.
pub proof fn law_ask(beans: Seq<BeanView>, meta: MetaView, cell: Handle, writer: BeanWriter)
    requires
        wf(beans),
    ensures
        wf(asked_for(beans, meta, cell, writer)),
        registered(asked_for(beans, meta, cell, writer), meta),
        lookup(asked_for(beans, meta, cell, writer), meta).bean == cell_of(beans, meta, cell),
        forall|m: MetaView|
            m != meta ==> #[trigger] registered(asked_for(beans, meta, cell, writer), m) == registered(beans, m),
        forall|m: MetaView|
            registered(beans, m) ==> #[trigger] lookup(asked_for(beans, meta, cell, writer), m) == lookup(
                beans,
                m,
            ),
{
    if !registered(beans, meta) {
        lemma_place_push(beans, BeanView::blank(cell, writer, meta));
    }
}

/// Whoever asks for a bean again is given the same cell, and nothing is registered a
/// second time.
pub proof fn law_ask_again(beans: Seq<BeanView>, meta: MetaView, cell: Handle, writer: BeanWriter, other: Handle, spare: BeanWriter)
    requires
        wf(beans),
    ensures
        asked_for(asked_for(beans, meta, cell, writer), meta, other, spare) == asked_for(beans, meta, cell, writer),
        cell_of(asked_for(beans, meta, cell, writer), meta, other) == cell_of(beans, meta, cell),
{
    law_ask(beans, meta, cell, writer);
}

/// Constructing a bean makes it known with what it brings along, leaves every other
/// bean as it is, and keeps the beans apart.
pub proof fn law_construct(beans: Seq<BeanView>, bean: BeanView)
    requires
        wf(beans),
        bean.wf(),
    ensures
        wf(constructed(beans, bean)),
        registered(constructed(beans, bean), bean.meta),
        lookup(constructed(beans, bean), bean.meta) == (BeanView {
            bean: cell_of(beans, bean.meta, bean.bean),
            ..bean
        }),
        forall|m: MetaView|
            m != bean.meta ==> #[trigger] registered(constructed(beans, bean), m) == registered(beans, m),
        forall|m: MetaView|
            m != bean.meta && registered(beans, m) ==> #[trigger] lookup(constructed(beans, bean), m)
                == lookup(beans, m),
{
    if registered(beans, bean.meta) {
        let i = place(beans, bean.meta);
        lemma_place_update(beans, i, BeanView { bean: beans[i].bean, ..bean });
    } else {
        lemma_place_push(beans, bean);
    }
}

/// One thing that happens to the beans while a context is being built.
pub enum Step {
    /// A bean is asked for.
    Ask(MetaView, Handle, BeanWriter),
    /// A bean is constructed.
    Construct(BeanView),
}

/// The beans after one step.
pub open spec fn after_step(beans: Seq<BeanView>, step: Step) -> Seq<BeanView> {
    match step {
        Step::Ask(meta, cell, writer) => asked_for(beans, meta, cell, writer),
        Step::Construct(bean) => constructed(beans, bean),
    }
}

/// The beans after some steps.
pub open spec fn after(beans: Seq<BeanView>, steps: Seq<Step>) -> Seq<BeanView>
    decreases steps.len(),
{
    if steps.len() == 0 {
        beans
    } else {
        after_step(after(beans, steps.drop_last()), steps.last())
    }
}

/// What is constructed in a step is a bean about which everything is known.
pub open spec fn step_wf(step: Step) -> bool {
    step matches Step::Construct(bean) ==> bean.wf() && bean.initialized()
}

/// Once a bean has been asked for, it stays registered, and its cell stays the same
/// whatever is asked for and constructed afterwards: a reference that was handed out
/// before the bean was constructed refers to the cell that the bean is put into. A
/// bean that has been constructed stays constructed.
pub proof fn law_cell_is_kept(beans: Seq<BeanView>, meta: MetaView, steps: Seq<Step>)
    requires
        wf(beans),
        registered(beans, meta),
        forall|i: int| 0 <= i < steps.len() ==> step_wf(#[trigger] steps[i]),
    ensures
        wf(after(beans, steps)),
        registered(after(beans, steps), meta),
        lookup(after(beans, steps), meta).bean == lookup(beans, meta).bean,
        lookup(beans, meta).initialized() ==> lookup(after(beans, steps), meta).initialized(),
    decreases steps.len(),
{
    if steps.len() > 0 {
        let rest = steps.drop_last();
        assert forall|i: int| 0 <= i < rest.len() implies step_wf(#[trigger] rest[i]) by {
            assert(rest[i] == steps[i]);
        }
        law_cell_is_kept(beans, meta, rest);
        let before = after(beans, rest);
        assert(step_wf(steps[steps.len() - 1]));
        match steps.last() {
            Step::Ask(m, cell, writer) => {
                law_ask(before, m, cell, writer);
            },
            Step::Construct(bean) => {
                law_construct(before, bean);
            },
        }
    }
}

/// A context that began empty never holds two beans alike, and what is known about
/// each bean fits together.
pub proof fn law_always_wf(steps: Seq<Step>)
    requires
        forall|i: int| 0 <= i < steps.len() ==> step_wf(#[trigger] steps[i]),
    ensures
        wf(after(Seq::<BeanView>::empty(), steps)),
    decreases steps.len(),
{
    if steps.len() > 0 {
        let rest = steps.drop_last();
        assert forall|i: int| 0 <= i < rest.len() implies step_wf(#[trigger] rest[i]) by {
            assert(rest[i] == steps[i]);
        }
        law_always_wf(rest);
        let before = after(Seq::<BeanView>::empty(), rest);
        assert(step_wf(steps[steps.len() - 1]));
        match steps.last() {
            Step::Ask(m, cell, writer) => {
                law_ask(before, m, cell, writer);
            },
            Step::Construct(bean) => {
                law_construct(before, bean);
            },
        }
    }
}

/// In which order two beans are constructed makes no difference to what is known
/// about any bean, so beans may refer to one another in a circle.
pub proof fn law_order_of_construction(
    beans: Seq<BeanView>,
    a: BeanView,
    b: BeanView,
    meta: MetaView,
)
    requires
        wf(beans),
        a.wf(),
        b.wf(),
        a.meta != b.meta,
    ensures
        registered(constructed(constructed(beans, a), b), meta) == registered(
            constructed(constructed(beans, b), a),
            meta,
        ),
        registered(constructed(constructed(beans, a), b), meta) ==> lookup(
            constructed(constructed(beans, a), b),
            meta,
        ) == lookup(constructed(constructed(beans, b), a), meta),
{
    let ab = constructed(constructed(beans, a), b);
    let ba = constructed(constructed(beans, b), a);
    law_construct(beans, a);
    law_construct(beans, b);
    law_construct(constructed(beans, a), b);
    law_construct(constructed(beans, b), a);
    assert(registered(constructed(beans, a), b.meta) == registered(beans, b.meta));
    assert(registered(constructed(beans, b), a.meta) == registered(beans, a.meta));
    if meta == a.meta {
        assert(lookup(ab, meta) == lookup(constructed(beans, a), meta));
        assert(registered(beans, meta) ==> lookup(constructed(beans, b), meta) == lookup(beans, meta));
    } else if meta == b.meta {
        assert(lookup(ba, meta) == lookup(constructed(beans, b), meta));
        assert(registered(beans, meta) ==> lookup(constructed(beans, a), meta) == lookup(beans, meta));
    } else {
        assert(registered(ab, meta) == registered(constructed(beans, a), meta));
        assert(registered(ba, meta) == registered(constructed(beans, b), meta));
        if registered(beans, meta) {
            assert(lookup(ab, meta) == lookup(constructed(beans, a), meta));
            assert(lookup(ba, meta) == lookup(constructed(beans, b), meta));
        }
    }
}

/// A context cannot be built as long as a bean that was asked for has not been
/// constructed.
pub proof fn law_asked_for_is_owed(beans: Seq<BeanView>, meta: MetaView, cell: Handle, writer: BeanWriter)
    requires
        wf(beans),
        free(beans, meta),
    ensures
        !all_initialized(asked_for(beans, meta, cell, writer)),
{
    law_ask(beans, meta, cell, writer);
    let asked = asked_for(beans, meta, cell, writer);
    if registered(beans, meta) {
        assert(!asked[place(beans, meta)].initialized());
    } else {
        assert(!asked[beans.len() as int].initialized());
    }
}

/// Constructing a bean leaves exactly the other beans to be constructed.
pub proof fn law_construction_is_progress(beans: Seq<BeanView>, bean: BeanView)
    requires
        wf(beans),
        bean.wf(),
        bean.initialized(),
    ensures
        all_initialized(constructed(beans, bean)) <==> forall|m: MetaView|
            m != bean.meta && registered(beans, m) ==> (#[trigger] lookup(beans, m)).initialized(),
{
    law_construct(beans, bean);
    let all = constructed(beans, bean);
    if all_initialized(all) {
        assert forall|m: MetaView| m != bean.meta && registered(beans, m) implies (#[trigger] lookup(
            beans,
            m,
        )).initialized() by {
            assert(lookup(all, m) == lookup(beans, m));
            assert(registered(all, m));
            assert(all[place(all, m)].initialized());
        }
    }
    if forall|m: MetaView|
        m != bean.meta && registered(beans, m) ==> (#[trigger] lookup(beans, m)).initialized() {
        assert forall|i: int| 0 <= i < all.len() implies (#[trigger] all[i]).initialized() by {
            let m = all[i].meta;
            lemma_place(all, i);
            if m != bean.meta {
                assert(registered(all, m) == registered(beans, m));
                assert(lookup(all, m) == lookup(beans, m));
            } else {
                assert(lookup(all, m).initialized());
            }
        }
    }
}

/// There is one bean to blame: two refusals of the same beans name the same bean.
pub proof fn law_one_bean_to_blame(beans: Seq<BeanView>, e: BeanError, f: BeanError)
    requires
        names_unfinished(beans, e) && names_unfinished(beans, f) || names_async(beans, e) && names_async(
            beans,
            f,
        ),
    ensures
        (e matches BeanError::NotInitialized(m) && f matches BeanError::NotInitialized(k) && m@ == k@) || (
        e matches BeanError::HasAsync(m) && f matches BeanError::HasAsync(k) && m@ == k@),
{
    if names_unfinished(beans, e) && names_unfinished(beans, f) {
        let i = choose|i: int|
            {
                &&& 0 <= i < beans.len()
                &&& !(#[trigger] beans[i]).initialized()
                &&& all_initialized(beans.take(i))
                &&& e matches BeanError::NotInitialized(meta)
                &&& meta@ == beans[i].meta
            };
        let j = choose|j: int|
            {
                &&& 0 <= j < beans.len()
                &&& !(#[trigger] beans[j]).initialized()
                &&& all_initialized(beans.take(j))
                &&& f matches BeanError::NotInitialized(meta)
                &&& meta@ == beans[j].meta
            };
        assert(i < j ==> beans.take(j)[i].initialized());
        assert(j < i ==> beans.take(i)[j].initialized());
    } else {
        let i = choose|i: int|
            {
                &&& 0 <= i < beans.len()
                &&& (#[trigger] beans[i]).is_async == Some(true)
                &&& !some_async(beans.take(i))
                &&& e matches BeanError::HasAsync(meta)
                &&& meta@ == beans[i].meta
            };
        let j = choose|j: int|
            {
                &&& 0 <= j < beans.len()
                &&& (#[trigger] beans[j]).is_async == Some(true)
                &&& !some_async(beans.take(j))
                &&& f matches BeanError::HasAsync(meta)
                &&& meta@ == beans[j].meta
            };
        assert(i < j ==> beans.take(j)[i].is_async != Some(true));
        assert(j < i ==> beans.take(i)[j].is_async != Some(true));
    }
}

/// A bean is among the beans of its type and among those of its name.
pub proof fn law_bean_is_found(beans: Seq<BeanView>, meta: MetaView)
    requires
        registered(beans, meta),
    ensures
        of_type(beans, meta.bean_type).contains(lookup(beans, meta).bean),
        of_name(beans, meta.bean_name).contains(lookup(beans, meta).bean),
{
    let i = place(beans, meta);
    let by_type = |b: BeanView| b.meta.bean_type == meta.bean_type;
    let by_name = |b: BeanView| b.meta.bean_name == meta.bean_name;
    beans.lemma_filter_contains(by_type, i);
    beans.lemma_filter_contains(by_name, i);
    let j = choose|j: int| 0 <= j < beans.filter(by_type).len() && beans.filter(by_type)[j] == beans[i];
    assert(of_type(beans, meta.bean_type)[j] == beans[i].bean);
    let k = choose|k: int| 0 <= k < beans.filter(by_name).len() && beans.filter(by_name)[k] == beans[i];
    assert(of_name(beans, meta.bean_name)[k] == beans[i].bean);
}

/// What is found by type belongs to a bean of that type, and what is found by name
/// to a bean of that name.
pub proof fn law_found_is_a_bean(beans: Seq<BeanView>, text: Seq<char>, found: Handle)
    ensures
        of_type(beans, text).contains(found) ==> exists|i: int|
            0 <= i < beans.len() && (#[trigger] beans[i]).meta.bean_type == text && beans[i].bean == found,
        of_name(beans, text).contains(found) ==> exists|i: int|
            0 <= i < beans.len() && (#[trigger] beans[i]).meta.bean_name == text && beans[i].bean == found,
{
    let by_type = |b: BeanView| b.meta.bean_type == text;
    let by_name = |b: BeanView| b.meta.bean_name == text;
    lemma_filter_source(beans, by_type);
    lemma_filter_source(beans, by_name);
    if of_type(beans, text).contains(found) {
        let j = choose|j: int|
            0 <= j < of_type(beans, text).len() && of_type(beans, text)[j] == found;
        let b = beans.filter(by_type)[j];
        let i = choose|i: int| 0 <= i < beans.len() && beans[i] == b;
        assert(by_type(b));
        assert(beans[i].meta.bean_type == text && beans[i].bean == found);
    }
    if of_name(beans, text).contains(found) {
        let j = choose|j: int|
            0 <= j < of_name(beans, text).len() && of_name(beans, text)[j] == found;
        let b = beans.filter(by_name)[j];
        let i = choose|i: int| 0 <= i < beans.len() && beans[i] == b;
        assert(by_name(b));
        assert(beans[i].meta.bean_name == text && beans[i].bean == found);
    }
}

/// A filter keeps elements that satisfy it, and no others.
pub(crate) proof fn lemma_filter_source<A>(s: Seq<A>, keep: spec_fn(A) -> bool)
    ensures
        forall|i: int| 0 <= i < s.filter(keep).len() ==> keep(#[trigger] s.filter(keep)[i]) && s.contains(
            s.filter(keep)[i],
        ),
    decreases s.len(),
{
    reveal(Seq::filter);
    if s.len() > 0 {
        let rest = s.drop_last();
        lemma_filter_source(rest, keep);
        assert forall|i: int| 0 <= i < s.filter(keep).len() implies keep(#[trigger] s.filter(keep)[i])
            && s.contains(s.filter(keep)[i]) by {
            if i < rest.filter(keep).len() {
                assert(s.filter(keep)[i] == rest.filter(keep)[i]);
                let j = choose|j: int| 0 <= j < rest.len() && rest[j] == rest.filter(keep)[i];
                assert(s[j] == s.filter(keep)[i]);
            } else {
                assert(s[s.len() - 1] == s.filter(keep)[i]);
            }
        }
    }
}

/// Behind each bean stand its dependencies, in the order in which it declares them,
/// and a bean without dependencies is not in the tree.
pub proof fn law_tree_of_dependencies(beans: Seq<BeanView>, meta: MetaView)
    requires
        wf(beans),
        all_initialized(beans),
    ensures
        ({
            let tree = grouped(edges(beans, false));
            let deps = lookup(beans, meta).depends_on->0;
            &&& tree.dom().contains(meta) <==> registered(beans, meta) && deps.len() > 0
            &&& tree.dom().contains(meta) ==> tree[meta] == deps
        }),
{
    lemma_behind_own(beans, meta);
    lemma_leads(edges(beans, false), meta);
}

/// Something stands behind a key exactly if the list behind it is not empty.
pub(crate) proof fn lemma_leads(pairs: Seq<(MetaView, MetaView)>, key: MetaView)
    ensures
        leads(pairs, key) <==> behind(pairs, key).len() > 0,
    decreases pairs.len(),
{
    reveal(Seq::filter);
    if pairs.len() > 0 {
        let rest = pairs.drop_last();
        lemma_leads(rest, key);
        if leads(rest, key) {
            let i = choose|i: int| 0 <= i < rest.len() && (#[trigger] rest[i]).0 == key;
            assert(pairs[i].0 == key);
        }
        if leads(pairs, key) && pairs.last().0 != key {
            let i = choose|i: int| 0 <= i < pairs.len() && (#[trigger] pairs[i]).0 == key;
            assert(rest[i].0 == key);
        }
        if pairs.last().0 == key {
            assert(pairs[pairs.len() - 1].0 == key);
        }
    }
}

proof fn lemma_behind_add(
    a: Seq<(MetaView, MetaView)>,
    b: Seq<(MetaView, MetaView)>,
    key: MetaView,
)
    ensures
        behind(a + b, key) == behind(a, key) + behind(b, key),
{
    let keep = begins_with(key);
    Seq::filter_distributes_over_add(a, b, keep);
}

/// What a bean adds behind a key: all of its dependencies, or nothing.
proof fn lemma_behind_edges_of(meta: MetaView, deps: Seq<MetaView>, key: MetaView)
    ensures
        behind(deps.map_values(|dep: MetaView| (meta, dep)), key) == if key == meta {
            deps
        } else {
            Seq::empty()
        },
    decreases deps.len(),
{
    reveal(Seq::filter);
    let pairs = deps.map_values(|dep: MetaView| (meta, dep));
    if deps.len() > 0 {
        lemma_behind_edges_of(meta, deps.drop_last(), key);
        assert(pairs.drop_last() == deps.drop_last().map_values(|dep: MetaView| (meta, dep)));
        assert(deps == deps.drop_last().push(deps.last()));
    }
}

/// Behind a bean stand its own dependencies.
pub(crate) proof fn lemma_behind_own(beans: Seq<BeanView>, meta: MetaView)
    requires
        wf(beans),
        all_initialized(beans),
    ensures
        behind(edges(beans, false), meta) == if registered(beans, meta) {
            lookup(beans, meta).depends_on->0
        } else {
            Seq::empty()
        },
    decreases beans.len(),
{
    if beans.len() == 0 {
        reveal(Seq::filter);
    } else {
        let rest = beans.drop_last();
        let last = beans.last();
        assert(forall|i: int| 0 <= i < rest.len() ==> #[trigger] rest[i] == beans[i]);
        lemma_behind_own(rest, meta);
        lemma_behind_add(edges(rest, false), edges_of(last, false), meta);
        lemma_behind_edges_of(last.meta, last.depends_on->0, meta);
        assert(edges_of(last, false) == (last.depends_on->0).map_values(
            |dep: MetaView| (last.meta, dep),
        ));
        assert(beans == rest.push(last));
        assert(last == beans[beans.len() - 1]);
        if last.meta == meta {
            lemma_place(beans, beans.len() - 1);
            if registered(rest, meta) {
                assert(beans[place(rest, meta)].meta == meta);
            }
        } else if registered(rest, meta) {
            let i = place(rest, meta);
            assert(beans[i].meta == meta);
            lemma_place(beans, i);
            lemma_place(rest, i);
        } else if registered(beans, meta) {
            assert(rest[place(beans, meta)].meta == meta);
        }
    }
}

/// The reverse tree is the tree turned round: a bean stands behind its dependency in
/// the one as often as the dependency stands behind it in the other.
pub proof fn law_reverse_tree(beans: Seq<BeanView>, bean: MetaView, dep: MetaView)
    ensures
        behind(edges(beans, true), dep).to_multiset().count(bean) == behind(
            edges(beans, false),
            bean,
        ).to_multiset().count(dep),
{
    lemma_edges_swapped(beans);
    lemma_behind_count(edges(beans, true), dep, bean);
    lemma_behind_count(edges(beans, false), bean, dep);
    lemma_swapped_count(edges(beans, true), edges(beans, false), (dep, bean));
}

/// A pair stands in one list as often as the pair turned round stands in the other.
proof fn lemma_swapped_count(
    a: Seq<(MetaView, MetaView)>,
    b: Seq<(MetaView, MetaView)>,
    pair: (MetaView, MetaView),
)
    requires
        a.len() == b.len(),
        forall|i: int| 0 <= i < b.len() ==> #[trigger] a[i] == (b[i].1, b[i].0),
    ensures
        a.to_multiset().count(pair) == b.to_multiset().count((pair.1, pair.0)),
    decreases a.len(),
{
    broadcast use vstd::seq_lib::group_to_multiset_ensures;

    if a.len() > 0 {
        assert(a == a.drop_last().push(a.last()));
        assert(b == b.drop_last().push(b.last()));
        assert(a[a.len() - 1] == (b[a.len() - 1].1, b[a.len() - 1].0));
        assert forall|i: int| 0 <= i < b.drop_last().len() implies #[trigger] a.drop_last()[i] == (
            b.drop_last()[i].1,
            b.drop_last()[i].0,
        ) by {
            assert(a[i] == (b[i].1, b[i].0));
        }
        lemma_swapped_count(a.drop_last(), b.drop_last(), pair);
    }
}

proof fn lemma_edges_swapped(beans: Seq<BeanView>)
    ensures
        edges(beans, true).len() == edges(beans, false).len(),
        forall|i: int|
            #![trigger edges(beans, true)[i]]
            #![trigger edges(beans, false)[i]]
            0 <= i < edges(beans, false).len() ==> edges(beans, true)[i] == (
                edges(beans, false)[i].1,
                edges(beans, false)[i].0,
            ),
    decreases beans.len(),
{
    if beans.len() > 0 {
        lemma_edges_swapped(beans.drop_last());
    }
}

/// A bean stands behind a key as often as there are pairs of the two.
proof fn lemma_behind_count(pairs: Seq<(MetaView, MetaView)>, key: MetaView, value: MetaView)
    ensures
        behind(pairs, key).to_multiset().count(value) == pairs.to_multiset().count((key, value)),
    decreases pairs.len(),
{
    broadcast use vstd::seq_lib::group_to_multiset_ensures;

    reveal(Seq::filter);
    if pairs.len() > 0 {
        let rest = pairs.drop_last();
        lemma_behind_count(rest, key, value);
        assert(pairs == rest.push(pairs.last()));
        if pairs.last().0 == key {
            assert(behind(pairs, key) == behind(rest, key).push(pairs.last().1));
        } else {
            assert(behind(pairs, key) == behind(rest, key));
        }
    }
}

/// A bean is constructed once: after that its place is not free any more.
pub proof fn law_constructed_once(beans: Seq<BeanView>, bean: BeanView)
    requires
        wf(beans),
        bean.wf(),
        bean.initialized(),
    ensures
        !free(constructed(beans, bean), bean.meta),
{
    law_construct(beans, bean);
}

/// The order of initialization is the one that is seen within any number of steps
/// that suffices.
pub proof fn law_init_order(tree: Map<MetaView, Seq<MetaView>>, bean: MetaView, n: nat)
    requires
        ends_within(tree, bean, n),
    ensures
        init_order(tree, bean) == order_within(tree, bean, n),
{
    lemma_order_within(tree, bean, steps(tree, bean), n);
}

/// Where dependencies lead round in a circle, following them never ends.
pub proof fn law_no_end_on_a_cycle(tree: Map<MetaView, Seq<MetaView>>, path: Seq<MetaView>)
    requires
        is_cycle(tree, path),
    ensures
        !grounded(tree, path[0]),
{
    assert forall|n: nat| !#[trigger] ends_within(tree, path[0], n) by {
        lemma_no_end(tree, path, n);
    }
}

proof fn lemma_no_end(tree: Map<MetaView, Seq<MetaView>>, path: Seq<MetaView>, n: nat)
    requires
        is_cycle(tree, path),
    ensures
        !ends_within(tree, path[0], n),
    decreases n,
{
    if ends_within(tree, path[0], n) {
        lemma_along(tree, path, n, path.len() - 1);
        lemma_no_end(tree, path, (n - (path.len() - 1)) as nat);
    }
}

/// After `k` steps along a path there are `k` steps fewer to go.
proof fn lemma_along(tree: Map<MetaView, Seq<MetaView>>, path: Seq<MetaView>, n: nat, k: int)
    requires
        is_path(tree, path),
        0 <= k < path.len(),
        ends_within(tree, path[0], n),
    ensures
        k <= n,
        ends_within(tree, path[k], (n - k) as nat),
    decreases k,
{
    if k > 0 {
        lemma_along(tree, path, n, k - 1);
        let before = path[k - 1];
        assert(tree.dom().contains(before) && tree[before].contains(path[k - 1 + 1]));
        let i = choose|i: int| 0 <= i < tree[before].len() && tree[before][i] == path[k];
        assert(ends_within(tree, tree[before][i], (n - (k - 1) - 1) as nat));
    }
}

/// Where no path of dependencies that starts with a bean leads round in a circle,
/// following them from that bean ends.
pub proof fn law_ends_without_cycles(tree: Map<MetaView, Seq<MetaView>>, bean: MetaView)
    requires
        tree.dom().finite(),
        forall|path: Seq<MetaView>, i: int, j: int|
            path.len() > 0 && path[0] == bean && #[trigger] is_path(tree, path) && 0 <= i < j < path.len()
                ==> #[trigger] path[i] != #[trigger] path[j],
    ensures
        grounded(tree, bean),
{
    let n = tree.dom().len();
    if !ends_within(tree, bean, n) {
        let path = long_path(tree, bean, n);
        lemma_long_path(tree, bean, n);
        assert(path.no_duplicates());
        path.unique_seq_to_set();
        assert(path.to_set().subset_of(tree.dom()));
        vstd::set_lib::lemma_len_subset(path.to_set(), tree.dom());
    }
}

/// A path of `n` steps from a bean from which not every path ends within `n` steps.
spec fn long_path(tree: Map<MetaView, Seq<MetaView>>, bean: MetaView, n: nat) -> Seq<MetaView>
    decreases n,
{
    if n == 0 {
        seq![bean]
    } else {
        seq![bean] + long_path(tree, tree[bean][onward(tree, bean, n)], (n - 1) as nat)
    }
}

spec fn onward(tree: Map<MetaView, Seq<MetaView>>, bean: MetaView, n: nat) -> int {
    choose|i: int|
        0 <= i < tree[bean].len() && !ends_within(tree, #[trigger] tree[bean][i], (n - 1) as nat)
}

proof fn lemma_long_path(tree: Map<MetaView, Seq<MetaView>>, bean: MetaView, n: nat)
    requires
        !ends_within(tree, bean, n),
    ensures
        long_path(tree, bean, n).len() == n + 1,
        long_path(tree, bean, n)[0] == bean,
        is_path(tree, long_path(tree, bean, n)),
        forall|i: int|
            0 <= i < long_path(tree, bean, n).len() ==> tree.dom().contains(
                #[trigger] long_path(tree, bean, n)[i],
            ),
    decreases n,
{
    let path = long_path(tree, bean, n);
    if n > 0 {
        let next = tree[bean][onward(tree, bean, n)];
        lemma_long_path(tree, next, (n - 1) as nat);
        let rest = long_path(tree, next, (n - 1) as nat);
        assert(path == seq![bean] + rest);
        assert forall|i: int| 0 <= i < path.len() implies tree.dom().contains(#[trigger] path[i]) by {
            if i > 0 {
                assert(path[i] == rest[i - 1]);
            }
        }
        assert forall|i: int| 0 <= i < path.len() - 1 implies tree.dom().contains(#[trigger] path[i])
            && tree[path[i]].contains(path[i + 1]) by {
            assert(path[i + 1] == rest[i]);
            if i > 0 {
                assert(path[i] == rest[i - 1]);
                assert(rest[i - 1 + 1] == rest[i]);
            }
        }
    }
}

/// A bean is initialized after the beans that it depends on, and after those that they
/// depend on in turn: the beans with higher priority are initialized earlier.
pub proof fn law_initialized_earlier(beans: Seq<BeanView>, order: Seq<MetaView>, path: Seq<MetaView>)
    requires
        wf(beans),
        all_initialized(beans),
        order_of_all(beans, order),
        path.len() >= 2,
        is_path(grouped(edges(beans, false)), path),
        registered(beans, path.last()),
    ensures
        order.contains(path[0]),
        order.contains(path.last()),
        order.index_of(path.last()) < order.index_of(path[0]),
    decreases path.len(),
{
    let tree = grouped(edges(beans, false));
    let rest = path.drop_last();
    let meta = rest.last();
    let dep = path.last();
    assert(meta == path[path.len() - 2]);
    assert(path[path.len() - 2 + 1] == dep);
    law_tree_of_dependencies(beans, meta);
    assert(depends(beans, meta, dep));
    assert(beans[place(beans, meta)].meta == meta);
    assert(beans[place(beans, dep)].meta == dep);
    let k = order.index_of(meta);
    assert(order[k] == meta);
    assert(depends(beans, order[k], dep));
    assert(order.take(k).contains(dep));
    assert(order[order.take(k).index_of(dep)] == dep);
    assert(order[order.index_of(dep)] == dep);
    if path.len() > 2 {
        assert forall|i: int| 0 <= i < rest.len() - 1 implies tree.dom().contains(#[trigger] rest[i])
            && tree[rest[i]].contains(rest[i + 1]) by {
            assert(rest[i] == path[i]);
            assert(rest[i + 1] == path[i + 1]);
        }
        law_initialized_earlier(beans, order, rest);
    }
}

/// Beans whose dependencies lead round in a circle cannot be put in order.
pub proof fn law_no_order_on_a_cycle(beans: Seq<BeanView>, order: Seq<MetaView>)
    requires
        wf(beans),
        all_initialized(beans),
        order_of_all(beans, order),
    ensures
        !cyclic(beans),
{
    assert forall|path: Seq<MetaView>| !#[trigger] is_cycle(grouped(edges(beans, false)), path) by {
        if is_cycle(grouped(edges(beans, false)), path) {
            law_tree_of_dependencies(beans, path[0]);
            law_initialized_earlier(beans, order, path);
        }
    }
}

/// A reference leads to the bean that is constructed under its type and name, whenever
/// the reference was handed out and whatever else happens to the beans.
pub proof fn law_reference_resolves<T: Send + Sync + 'static>(
    beans: Seq<BeanView>,
    meta: MetaView,
    weak: WeakCell<T>,
    steps: Seq<Step>,
    cell: OnceCell<T>,
    bean: T,
)
    requires
        wf(beans),
        registered(beans, meta),
        refers(weak, lookup(beans, meta).bean),
        forall|i: int| 0 <= i < steps.len() ==> step_wf(#[trigger] steps[i]),
        filled(lookup(after(beans, steps), meta).bean, bean),
        upgraded(weak, Some(Arc::new(cell))),
    ensures
        bean_in(cell, bean),
{
    law_cell_is_kept(beans, meta, steps);
    assert(opens(lookup(beans, meta).bean, cell));
}

/// Two references to one bean lead to the same bean.
pub proof fn law_references_agree<T: Send + Sync + 'static>(
    handle: Handle,
    a: WeakCell<T>,
    b: WeakCell<T>,
    cell_a: OnceCell<T>,
    cell_b: OnceCell<T>,
    bean: T,
)
    requires
        filled(handle, bean),
        refers(a, handle),
        refers(b, handle),
        upgraded(a, Some(Arc::new(cell_a))),
        upgraded(b, Some(Arc::new(cell_b))),
    ensures
        bean_in(cell_a, bean),
        bean_in(cell_b, bean),
{
    assert(opens(handle, cell_a));
    assert(opens(handle, cell_b));
}

/// A bean that is asked for and then constructed comes to what it would have been had it
/// been constructed at once, but for its cell.
pub proof fn law_asked_for_or_not(
    beans: Seq<BeanView>,
    meta: MetaView,
    cell: Handle,
    writer: BeanWriter,
    other: Handle,
    setup: SyncSetup,
    awaited: AsyncSetup,
)
    requires
        wf(beans),
        !registered(beans, meta),
    ensures
        ({
            let asked = asked_for(beans, meta, cell, writer);
            let early = constructed(asked, BeanView::of_sync(cell, meta, setup));
            let at_once = constructed(beans, BeanView::of_sync(other, meta, setup));
            &&& lookup(early, meta) == (BeanView { bean: cell, ..lookup(at_once, meta) })
            &&& lookup(at_once, meta).bean == other
        }),
        ({
            let asked = asked_for(beans, meta, cell, writer);
            let early = constructed(asked, BeanView::of_async(cell, meta, awaited));
            let at_once = constructed(beans, BeanView::of_async(other, meta, awaited));
            &&& lookup(early, meta) == (BeanView { bean: cell, ..lookup(at_once, meta) })
            &&& lookup(at_once, meta).bean == other
        }),
{
    law_ask(beans, meta, cell, writer);
    let asked = asked_for(beans, meta, cell, writer);
    law_construct(asked, BeanView::of_sync(cell, meta, setup));
    law_construct(beans, BeanView::of_sync(other, meta, setup));
    law_construct(asked, BeanView::of_async(cell, meta, awaited));
    law_construct(beans, BeanView::of_async(other, meta, awaited));
}

/// Beans of one type under two names are two beans: constructing the one leaves the
/// other unfinished, and a context cannot be built then. Where nothing else is
/// unfinished, the other is the one that is named.
pub proof fn law_names_keep_apart(
    beans: Seq<BeanView>,
    bean: BeanView,
    other: MetaView,
    e: BeanError,
)
    requires
        wf(beans),
        bean.wf(),
        bean.initialized(),
        registered(beans, other),
        !lookup(beans, other).initialized(),
        bean.meta.bean_type == other.bean_type,
        bean.meta.bean_name != other.bean_name,
    ensures
        lookup(constructed(beans, bean), other) == lookup(beans, other),
        !all_initialized(constructed(beans, bean)),
        (forall|m: MetaView|
            registered(beans, m) && m != bean.meta && m != other ==> (#[trigger] lookup(
                beans,
                m,
            )).initialized()) && names_unfinished(constructed(beans, bean), e) ==> (e matches BeanError::NotInitialized(m)
            && m@ == other),
{
    law_construct(beans, bean);
    let all = constructed(beans, bean);
    assert(registered(all, other));
    assert(!all[place(all, other)].initialized());
    if (forall|m: MetaView|
        registered(beans, m) && m != bean.meta && m != other ==> (#[trigger] lookup(beans, m)).initialized())
        && names_unfinished(all, e) {
        let i = choose|i: int|
            {
                &&& 0 <= i < all.len()
                &&& !(#[trigger] all[i]).initialized()
                &&& all_initialized(all.take(i))
                &&& e matches BeanError::NotInitialized(meta)
                &&& meta@ == all[i].meta
            };
        lemma_place(all, i);
        let m = all[i].meta;
        assert(lookup(all, m) == all[i]);
        if m != bean.meta {
            assert(registered(beans, m));
            assert(lookup(all, m) == lookup(beans, m));
        }
    }
}

/// A context that holds a bean whose construction was awaited is refused where beans are
/// to be initialized without awaiting.
pub proof fn law_awaited_is_refused(
    beans: Seq<BeanView>,
    cell: Handle,
    meta: MetaView,
    awaited: AsyncSetup,
)
    requires
        wf(beans),
    ensures
        some_async(constructed(beans, BeanView::of_async(cell, meta, awaited))),
{
    let all = constructed(beans, BeanView::of_async(cell, meta, awaited));
    law_construct(beans, BeanView::of_async(cell, meta, awaited));
    assert(all[place(all, meta)].is_async == Some(true));
}

/// Initialization changes nothing but the status of the beans that are initialized: they
/// stay registered, and a reference still leads to the cell that it was made for.
pub proof fn law_initialization_keeps_beans(beans: Seq<BeanView>, done: Seq<MetaView>, meta: MetaView)
    requires
        wf(beans),
        all_initialized(beans),
    ensures
        wf(in_use(beans, done)),
        all_initialized(in_use(beans, done)),
        registered(in_use(beans, done), meta) == registered(beans, meta),
        registered(beans, meta) ==> {
            let bean = lookup(in_use(beans, done), meta);
            &&& bean.same_bean(lookup(beans, meta))
            &&& bean.status == if done.contains(meta) {
                BeanStatus::Using
            } else {
                lookup(beans, meta).status
            }
        },
{
    lemma_in_use(beans, done, meta);
    assert forall|i: int| 0 <= i < beans.len() implies (#[trigger] in_use(beans, done)[i]).initialized() by {
        assert(beans[i].initialized());
    }
}

/// A reference is active exactly where the bean can be acquired: both are told by whether
/// following the reference gives a cell.
pub proof fn law_active_means_acquirable<T>(
    cell: Option<Arc<OnceCell<T>>>,
    r: Result<RefWrapper<T>, AppContextDroppedError>,
)
    requires
        acquired(cell, r),
    ensures
        r is Ok <==> cell is Some,
        r matches Ok(wrapper) ==> Some(Arc::new(wrapper.cell())) == cell,
{
}

/// The function of a bean that is on record as called is the bean's own: what came of it is
/// what the bean's `init_self` gave.
pub proof fn law_own_function_is_called<C, E, F, T: BuildFromContext<C, E, F> + Send + Sync + 'static>(
    view: BeanView,
    bean: T,
    call: Call,
)
    requires
        view.constructed_as::<C, E, F, T>(),
        filled(view.bean, bean),
        call.f == view.init_hook(),
        call.f.gave(call.r),
    ensures
        call_ensures(T::init_self, (&bean,), call.r),
{
    let setup = choose|setup: SyncSetup|
        {
            &&& #[trigger] setup.brought_by::<C, E, F, T>(view.bean)
            &&& view == BeanView::of_sync(view.bean, view.meta, setup)
        };
    assert(call.f == setup.init);
    law_initializes::<C, E, F, T>(call.f, view.bean, bean, call.r);
}

/// A bean is initialized once when a context is built, and by its own `init_self`, which
/// succeeds.
pub proof fn law_each_bean_is_initialized_once<
    C,
    E,
    F,
    T: BuildFromContext<C, E, F> + Send + Sync + 'static,
>(beans: Seq<BeanView>, order: Seq<MetaView>, calls: Seq<Call>, i: int, bean: T)
    requires
        wf(beans),
        order_of_all(beans, order),
        initialized_by(beans, order, calls),
        0 <= i < beans.len(),
        beans[i].constructed_as::<C, E, F, T>(),
        filled(beans[i].bean, bean),
    ensures
        order.to_multiset().count(beans[i].meta) == 1,
        ({
            let call = calls[order.index_of(beans[i].meta)];
            &&& call.f == beans[i].init_hook()
            &&& call.r is Ok
            &&& call_ensures(T::init_self, (&bean,), call.r)
        }),
{
    broadcast use vstd::seq_lib::group_to_multiset_ensures;

    let meta = beans[i].meta;
    assert(order.contains(meta));
    order.lemma_multiset_has_no_duplicates();
    assert(order.to_multiset().contains(meta));
    let k = order.index_of(meta);
    assert(order[k] == meta);
    lemma_place(beans, i);
    assert(calls[k].f == lookup(beans, order[k]).init_hook());
    law_own_function_is_called::<C, E, F, T>(beans[i], bean, calls[k]);
}

} // verus!
