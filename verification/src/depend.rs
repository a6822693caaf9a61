//! Which beans depend on which, and the initialization along the dependencies.
use crate::context::{all_initialized, wf, AppContextBuilder};
use crate::metadata::{meta_views, BeanMetadata, MetaView};
use crate::wrapper::BeanView;
use vstd::prelude::*;

verus! {

/// What a bean depends on, as pairs of the bean and a dependency, or the other way
/// round.
pub open spec fn edges_of(bean: BeanView, reverse: bool) -> Seq<(MetaView, MetaView)> {
    bean.depends_on->0.map_values(
        |dep: MetaView|
            if reverse {
                (dep, bean.meta)
            } else {
                (bean.meta, dep)
            },
    )
}

/// What the beans depend on, bean by bean.
pub open spec fn edges(beans: Seq<BeanView>, reverse: bool) -> Seq<(MetaView, MetaView)>
    decreases beans.len(),
{
    if beans.len() == 0 {
        Seq::empty()
    } else {
        edges(beans.drop_last(), reverse) + edges_of(beans.last(), reverse)
    }
}

/// The pairs that begin with `key`.
pub open spec fn begins_with(key: MetaView) -> spec_fn((MetaView, MetaView)) -> bool {
    |e: (MetaView, MetaView)| e.0 == key
}

/// What stands behind `key`, in order.
pub open spec fn behind(edges: Seq<(MetaView, MetaView)>, key: MetaView) -> Seq<MetaView> {
    edges.filter(begins_with(key)).map_values(|e: (MetaView, MetaView)| e.1)
}

/// Something stands behind `key`.
pub open spec fn leads(edges: Seq<(MetaView, MetaView)>, key: MetaView) -> bool {
    exists|i: int| 0 <= i < edges.len() && (#[trigger] edges[i]).0 == key
}

/// What stands behind each key.
pub open spec fn grouped(edges: Seq<(MetaView, MetaView)>) -> Map<MetaView, Seq<MetaView>> {
    Map::new(|key: MetaView| leads(edges, key), |key: MetaView| behind(edges, key))
}

/// For each bean, the beans that stand behind it.
pub struct DepTree {
    entries: Vec<(BeanMetadata, Vec<BeanMetadata>)>,
}

impl View for DepTree {
    type V = Map<MetaView, Seq<MetaView>>;

    closed spec fn view(&self) -> Map<MetaView, Seq<MetaView>> {
        Map::new(
            |key: MetaView| exists|i: int| self.stands(key, i),
            |key: MetaView| meta_views(self.entries@[choose|i: int| self.stands(key, i)].1@),
        )
    }
}

impl DepTree {
    spec fn stands(&self, key: MetaView, i: int) -> bool {
        0 <= i < self.entries@.len() && self.entries@[i].0@ == key
    }

    /// Each bean stands in one place.
    pub closed spec fn wf(&self) -> bool {
        self.apart() && self@.dom().finite()
    }

    /// There is an end to the beans in a tree.
    pub proof fn lemma_finite(&self)
        requires
            self.wf(),
        ensures
            self@.dom().finite(),
    {
    }

    spec fn apart(&self) -> bool {
        forall|i: int, j: int|
            0 <= i < j < self.entries@.len() ==> (#[trigger] self.entries@[i]).0@
                != (#[trigger] self.entries@[j]).0@
    }

    proof fn lemma_at(&self, i: int)
        requires
            self.apart(),
            0 <= i < self.entries@.len(),
        ensures
            self@.dom().contains(self.entries@[i].0@),
            self@[self.entries@[i].0@] == meta_views(self.entries@[i].1@),
    {
        let key = self.entries@[i].0@;
        assert(self.stands(key, i));
        let j = choose|j: int| self.stands(key, j);
        assert(self.stands(key, j));
        assert(i == j);
    }

    /// A tree in which nothing depends on anything.
    pub fn new() -> (tree: DepTree)
        ensures
            tree.wf(),
            tree@ == Map::<MetaView, Seq<MetaView>>::empty(),
    {
        let tree = DepTree { entries: Vec::new() };
        assert(tree@ =~= Map::<MetaView, Seq<MetaView>>::empty());
        tree
    }

    fn position(&self, meta: &BeanMetadata) -> (r: Option<usize>)
        requires
            self.wf(),
        ensures
            match r {
                Some(i) => {
                    &&& i < self.entries@.len()
                    &&& self.entries@[i as int].0@ == meta@
                    &&& self@.dom().contains(meta@)
                    &&& self@[meta@] == meta_views(self.entries@[i as int].1@)
                },
                None => !self@.dom().contains(meta@) && forall|j: int|
                    0 <= j < self.entries@.len() ==> (#[trigger] self.entries@[j]).0@ != meta@,
            },
    {
        for i in 0..self.entries.len()
            invariant
                self.wf(),
                forall|j: int| 0 <= j < i ==> (#[trigger] self.entries@[j]).0@ != meta@,
        {
            if self.entries[i].0 == *meta {
                proof {
                    self.lemma_at(i as int);
                }
                return Some(i);
            }
        }
        None
    }

    /// What stands behind `meta`.
    pub fn get(&self, meta: &BeanMetadata) -> (r: Option<&Vec<BeanMetadata>>)
        requires
            self.wf(),
        ensures
            match r {
                Some(metas) => self@.dom().contains(meta@) && meta_views(metas@) == self@[meta@],
                None => !self@.dom().contains(meta@),
            },
    {
        match self.position(meta) {
            Some(i) => Some(&self.entries[i].1),
            None => None,
        }
    }

    /// Gives `meta` a place, with nothing behind it yet.
    pub fn or_insert(&mut self, meta: BeanMetadata)
        requires
            old(self).wf(),
        ensures
            final(self).wf(),
            final(self)@ == if old(self)@.dom().contains(meta@) {
                old(self)@
            } else {
                old(self)@.insert(meta@, Seq::empty())
            },
    {
        let _ = self.slot(meta);
    }

    fn slot(&mut self, meta: BeanMetadata) -> (i: usize)
        requires
            old(self).wf(),
        ensures
            final(self).wf(),
            i < final(self).entries@.len(),
            final(self).entries@[i as int].0@ == meta@,
            final(self)@ == if old(self)@.dom().contains(meta@) {
                old(self)@
            } else {
                old(self)@.insert(meta@, Seq::empty())
            },
    {
        match self.position(&meta) {
            Some(i) => i,
            None => {
                let i: usize = self.entries.len();
                self.entries.push((meta, Vec::new()));
                proof {
                    assert(self.apart());
                    self.lemma_at(i as int);
                    assert(meta_views(self.entries@[i as int].1@) == Seq::<MetaView>::empty());
                    let after = old(self)@.insert(meta@, Seq::empty());
                    assert forall|key: MetaView| #[trigger] self@.dom().contains(key) == after.dom().contains(
                        key,
                    ) && (after.dom().contains(key) ==> self@[key] == after[key]) by {
                        if key != meta@ && old(self)@.dom().contains(key) {
                            let j = choose|j: int| old(self).stands(key, j);
                            assert(old(self).stands(key, j));
                            old(self).lemma_at(j);
                            assert(self.entries@[j] == old(self).entries@[j]);
                            self.lemma_at(j);
                        } else if key != meta@ && self@.dom().contains(key) {
                            let j = choose|j: int| self.stands(key, j);
                            assert(self.stands(key, j));
                            assert(self.entries@[j] == old(self).entries@[j]);
                            old(self).lemma_at(j);
                        }
                    }
                    assert(self@.dom() =~= after.dom());
                    assert(self@ =~= after);
                }
                i
            },
        }
    }

    /// Puts `value` behind `key`, after what stands there.
    pub fn push(&mut self, key: BeanMetadata, value: BeanMetadata)
        requires
            old(self).wf(),
        ensures
            final(self).wf(),
            final(self)@ == with_pair(old(self)@, (key@, value@)),
    {
        let i: usize = self.slot(key);
        let ghost before = *self;
        proof {
            before.lemma_at(i as int);
        }
        self.entries[i].1.push(value);
        proof {
            let after = with_pair(old(self)@, (key@, value@));
            assert(forall|j: int|
                0 <= j < self.entries@.len() ==> (#[trigger] self.entries@[j]).0
                    == before.entries@[j].0);
            assert(self.apart());
            self.lemma_at(i as int);
            assert(meta_views(self.entries@[i as int].1@) == meta_views(before.entries@[i as int].1@).push(
                value@,
            ));
            assert forall|k: MetaView| #[trigger] self@.dom().contains(k) == after.dom().contains(k) && (
            after.dom().contains(k) ==> self@[k] == after[k]) by {
                if k != key@ && before@.dom().contains(k) {
                    let j = choose|j: int| before.stands(k, j);
                    assert(before.stands(k, j));
                    before.lemma_at(j);
                    assert(self.entries@[j] == before.entries@[j]);
                    self.lemma_at(j);
                } else if k != key@ && self@.dom().contains(k) {
                    let j = choose|j: int| self.stands(k, j);
                    assert(self.stands(k, j));
                    assert(self.entries@[j] == before.entries@[j]);
                    before.lemma_at(j);
                }
            }
            assert(self@.dom() =~= after.dom());
            assert(self@ =~= after);
        }
    }
}

/// The tree with one more pair.
pub open spec fn with_pair(
    tree: Map<MetaView, Seq<MetaView>>,
    pair: (MetaView, MetaView),
) -> Map<MetaView, Seq<MetaView>> {
    let before = if tree.dom().contains(pair.0) {
        tree[pair.0]
    } else {
        Seq::empty()
    };
    tree.insert(pair.0, before.push(pair.1))
}

/// Grouping goes pair by pair.
proof fn lemma_grouped_push(pairs: Seq<(MetaView, MetaView)>, pair: (MetaView, MetaView))
    ensures
        grouped(pairs.push(pair)) == with_pair(grouped(pairs), pair),
{
    let all = pairs.push(pair);
    assert(all.drop_last() == pairs);
    assert(all.last() == pair);
    assert forall|key: MetaView| #[trigger]
        behind(all, key) == if key == pair.0 {
            behind(pairs, key).push(pair.1)
        } else {
            behind(pairs, key)
        } by {
        reveal(Seq::filter);
    }
    assert forall|key: MetaView| #[trigger] leads(all, key) == (leads(pairs, key) || key == pair.0) by {
        if leads(pairs, key) {
            let i = choose|i: int| 0 <= i < pairs.len() && (#[trigger] pairs[i]).0 == key;
            assert(all[i].0 == key);
        }
        assert(all[pairs.len() as int] == pair);
        if leads(all, key) && key != pair.0 {
            let i = choose|i: int| 0 <= i < all.len() && (#[trigger] all[i]).0 == key;
            assert(pairs[i].0 == key);
        }
    }
    if !leads(pairs, pair.0) {
        lemma_behind_nothing(pairs, pair.0);
    }
    let left = grouped(all);
    let right = with_pair(grouped(pairs), pair);
    assert(left.dom() =~= right.dom());
    assert(left =~= right);
}

/// Nothing stands behind a bean that no pair begins with.
proof fn lemma_behind_nothing(pairs: Seq<(MetaView, MetaView)>, key: MetaView)
    requires
        !leads(pairs, key),
    ensures
        behind(pairs, key) == Seq::<MetaView>::empty(),
    decreases pairs.len(),
{
    reveal(Seq::filter);
    if pairs.len() > 0 {
        let rest = pairs.drop_last();
        assert forall|i: int| 0 <= i < rest.len() implies (#[trigger] rest[i]).0 != key by {
            assert(pairs[i].0 != key);
        }
        assert(pairs[pairs.len() - 1].0 != key);
        lemma_behind_nothing(rest, key);
    }
}

impl AppContextBuilder {
    /// The tree of what each bean depends on or, with `reverse`, of the beans that
    /// depend on it.
    pub fn build_dep_tree(&self, reverse: bool) -> (tree: DepTree)
        requires
            wf(self@),
            all_initialized(self@),
        ensures
            tree.wf(),
            tree@ == grouped(edges(self@, reverse)),
            tree@.dom().finite(),
    {
        let beans = self.inner();
        let mut tree = DepTree::new();
        assert(tree@ =~= grouped(edges(self@.take(0), reverse)));
        let count: usize = beans.len();
        for i in 0..count
            invariant
                beans@ == self@,
                count == self@.len(),
                wf(self@),
                all_initialized(self@),
                tree.wf(),
                tree@ == grouped(edges(self@.take(i as int), reverse)),
        {
            let wrapper = beans.at(i);
            let deps = wrapper.depends_on();
            let ghost done = edges(self@.take(i as int), reverse);
            let ghost own = edges_of(self@[i as int], reverse);
            assert(done + own.take(0) == done);
            for j in 0..deps.len()
                invariant
                    wrapper@ == self@[i as int],
                    wrapper@.depends_on == Some(meta_views(deps@)),
                    own == edges_of(self@[i as int], reverse),
                    tree.wf(),
                    tree@ == grouped(done + own.take(j as int)),
            {
                let dep = deps[j];
                let meta = *wrapper.meta();
                proof {
                    lemma_grouped_push(done + own.take(j as int), own[j as int]);
                    assert((done + own.take(j as int)).push(own[j as int]) == done + own.take(j + 1));
                }
                if reverse {
                    tree.push(dep, meta);
                } else {
                    tree.push(meta, dep);
                }
            }
            proof {
                let upto = self@.take(i + 1);
                assert(upto.drop_last() == self@.take(i as int));
                assert(upto.last() == self@[i as int]);
                assert(own.take(deps@.len() as int) == own);
            }
        }
        assert(self@.take(self@.len() as int) == self@);
        tree
    }
}

/// Every path of dependencies that starts with `bean` ends within `n` steps.
pub open spec fn ends_within(tree: Map<MetaView, Seq<MetaView>>, bean: MetaView, n: nat) -> bool
    decreases n,
{
    tree.dom().contains(bean) ==> {
        &&& n > 0
        &&& forall|i: int|
            0 <= i < tree[bean].len() ==> ends_within(tree, #[trigger] tree[bean][i], (n - 1) as nat)
    }
}

/// No path of dependencies that starts with `bean` goes on for ever.
pub open spec fn grounded(tree: Map<MetaView, Seq<MetaView>>, bean: MetaView) -> bool {
    exists|n: nat| ends_within(tree, bean, n)
}

/// The beans that are initialized on the way from `bean`, within `n` steps: those
/// that are in the tree with nothing behind them, in the order in which the paths
/// meet them.
pub open spec fn order_within(tree: Map<MetaView, Seq<MetaView>>, bean: MetaView, n: nat) -> Seq<MetaView>
    decreases n, 0nat,
{
    if !tree.dom().contains(bean) || n == 0 {
        Seq::empty()
    } else if tree[bean].len() == 0 {
        seq![bean]
    } else {
        orders_within(tree, tree[bean], (n - 1) as nat)
    }
}

/// The beans that are initialized on the way from each of `beans` in turn.
pub open spec fn orders_within(
    tree: Map<MetaView, Seq<MetaView>>,
    beans: Seq<MetaView>,
    n: nat,
) -> Seq<MetaView>
    decreases n, beans.len() + 1,
{
    if beans.len() == 0 {
        Seq::empty()
    } else {
        orders_within(tree, beans.drop_last(), n) + order_within(tree, beans.last(), n)
    }
}

/// A number of steps within which every path of dependencies from `bean` ends.
pub open spec fn steps(tree: Map<MetaView, Seq<MetaView>>, bean: MetaView) -> nat {
    choose|n: nat| ends_within(tree, bean, n)
}

/// The beans that are initialized on the way from `bean`.
pub open spec fn init_order(tree: Map<MetaView, Seq<MetaView>>, bean: MetaView) -> Seq<MetaView> {
    order_within(tree, bean, steps(tree, bean))
}

/// The order does not depend on how many steps are allowed for.
pub(crate) proof fn lemma_order_within(
    tree: Map<MetaView, Seq<MetaView>>,
    bean: MetaView,
    n: nat,
    m: nat,
)
    requires
        ends_within(tree, bean, n),
        ends_within(tree, bean, m),
    ensures
        order_within(tree, bean, n) == order_within(tree, bean, m),
    decreases n, 0nat,
{
    if tree.dom().contains(bean) {
        assert(n > 0 && m > 0);
        assert forall|i: int| 0 <= i < tree[bean].len() implies {
            &&& ends_within(tree, #[trigger] tree[bean][i], (n - 1) as nat)
            &&& ends_within(tree, tree[bean][i], (m - 1) as nat)
        } by {}
        lemma_orders_within(tree, tree[bean], (n - 1) as nat, (m - 1) as nat);
    }
}

proof fn lemma_orders_within(
    tree: Map<MetaView, Seq<MetaView>>,
    beans: Seq<MetaView>,
    n: nat,
    m: nat,
)
    requires
        forall|i: int|
            0 <= i < beans.len() ==> ends_within(tree, #[trigger] beans[i], n) && ends_within(
                tree,
                beans[i],
                m,
            ),
    ensures
        orders_within(tree, beans, n) == orders_within(tree, beans, m),
    decreases n, beans.len() + 1,
{
    if beans.len() > 0 {
        let rest = beans.drop_last();
        assert forall|i: int| 0 <= i < rest.len() implies ends_within(tree, #[trigger] rest[i], n)
            && ends_within(tree, rest[i], m) by {
            assert(rest[i] == beans[i]);
        }
        lemma_orders_within(tree, rest, n, m);
        assert(beans[beans.len() - 1] == beans.last());
        lemma_order_within(tree, beans.last(), n, m);
    }
}

/// The beans that are initialized on the way from `bean`, in order.
pub fn init_plan(dep_map: &DepTree, bean: BeanMetadata) -> (plan: Vec<BeanMetadata>)
    requires
        dep_map.wf(),
        grounded(dep_map@, bean@),
    ensures
        meta_views(plan@) == init_order(dep_map@, bean@),
{
    let mut plan: Vec<BeanMetadata> = Vec::new();
    plan_within(dep_map, bean, &mut plan, Ghost(steps(dep_map@, bean@)));
    plan
}

fn plan_within(dep_map: &DepTree, bean: BeanMetadata, plan: &mut Vec<BeanMetadata>, Ghost(n): Ghost<nat>)
    requires
        dep_map.wf(),
        ends_within(dep_map@, bean@, n),
    ensures
        meta_views(final(plan)@) == meta_views(old(plan)@) + order_within(dep_map@, bean@, n),
    decreases n,
{
    match dep_map.get(&bean) {
        None => {
            assert(meta_views(plan@) == meta_views(old(plan)@) + order_within(dep_map@, bean@, n));
        },
        Some(metas) => {
            if metas.len() == 0 {
                plan.push(bean);
                assert(meta_views(plan@) == meta_views(old(plan)@) + order_within(dep_map@, bean@, n));
            } else {
                let ghost next = meta_views(metas@);
                let ghost m = (n - 1) as nat;
                assert(meta_views(plan@) == meta_views(old(plan)@) + orders_within(dep_map@, next.take(0), m));
                for i in 0..metas.len()
                    invariant
                        dep_map.wf(),
                        n > 0,
                        m == n - 1,
                        next == meta_views(metas@),
                        forall|i: int|
                            0 <= i < next.len() ==> ends_within(dep_map@, #[trigger] next[i], m),
                        meta_views(plan@) == meta_views(old(plan)@) + orders_within(
                            dep_map@,
                            next.take(i as int),
                            m,
                        ),
                {
                    proof {
                        assert(next[i as int] == metas@[i as int]@);
                        assert(next.take(i + 1).drop_last() == next.take(i as int));
                        assert(next.take(i + 1).last() == next[i as int]);
                    }
                    plan_within(dep_map, metas[i], plan, Ghost(m));
                    assert(meta_views(plan@) == meta_views(old(plan)@) + orders_within(
                        dep_map@,
                        next.take(i + 1),
                        m,
                    ));
                }
                assert(next.take(next.len() as int) == next);
            }
        },
    }
}

/// Each bean of the path depends on the next.
pub open spec fn is_path(tree: Map<MetaView, Seq<MetaView>>, path: Seq<MetaView>) -> bool {
    forall|i: int|
        0 <= i < path.len() - 1 ==> tree.dom().contains(#[trigger] path[i]) && tree[path[i]].contains(
            path[i + 1],
        )
}

/// The path leads back to where it starts.
pub open spec fn is_cycle(tree: Map<MetaView, Seq<MetaView>>, path: Seq<MetaView>) -> bool {
    path.len() >= 2 && is_path(tree, path) && path[0] == path.last()
}

} // verus!
