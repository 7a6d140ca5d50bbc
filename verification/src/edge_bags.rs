//! The edges of a graph counted with repeats: every edge is listed once at
//! its source and once at its target, so the egress lists and the ingress
//! lists hold the same multiset of edges.

use crate::graph::{base_egress, base_ingress, edges_from, edges_to, egress_at, ingress_at, lists_extend, node_names};
use crate::recipe::{EdgeModel, ResourceNode};
use vstd::multiset::Multiset;
use vstd::prelude::*;

verus! {

/// The egress edges of the first `n` nodes, with repeats.
pub open spec fn egress_bag_upto(nodes: Seq<ResourceNode>, n: int) -> Multiset<EdgeModel>
    decreases n,
{
    if n <= 0 {
        Multiset::empty()
    } else {
        egress_bag_upto(nodes, n - 1).add(egress_at(nodes, n - 1).to_multiset())
    }
}

/// The ingress edges of the first `n` nodes, with repeats.
pub open spec fn ingress_bag_upto(nodes: Seq<ResourceNode>, n: int) -> Multiset<EdgeModel>
    decreases n,
{
    if n <= 0 {
        Multiset::empty()
    } else {
        ingress_bag_upto(nodes, n - 1).add(ingress_at(nodes, n - 1).to_multiset())
    }
}

/// All the egress edges of `nodes`, with repeats.
pub open spec fn egress_bag(nodes: Seq<ResourceNode>) -> Multiset<EdgeModel> {
    egress_bag_upto(nodes, nodes.len() as int)
}

/// All the ingress edges of `nodes`, with repeats.
pub open spec fn ingress_bag(nodes: Seq<ResourceNode>) -> Multiset<EdgeModel> {
    ingress_bag_upto(nodes, nodes.len() as int)
}

/// The egress lists of `old` as seen from the first `n` nodes of a graph
/// that grew from it (nodes added since have none).
pub open spec fn base_egress_upto(old: Seq<ResourceNode>, n: int) -> Multiset<EdgeModel>
    decreases n,
{
    if n <= 0 {
        Multiset::empty()
    } else {
        base_egress_upto(old, n - 1).add(base_egress(old, n - 1).to_multiset())
    }
}

/// The ingress lists of `old` as seen from the first `n` nodes of a graph
/// that grew from it.
pub open spec fn base_ingress_upto(old: Seq<ResourceNode>, n: int) -> Multiset<EdgeModel>
    decreases n,
{
    if n <= 0 {
        Multiset::empty()
    } else {
        base_ingress_upto(old, n - 1).add(base_ingress(old, n - 1).to_multiset())
    }
}

/// The edges of `created` that leave the first `n` of `names`, with repeats.
pub open spec fn from_bag_upto(names: Seq<Seq<char>>, created: Seq<EdgeModel>, n: int) -> Multiset<EdgeModel>
    decreases n,
{
    if n <= 0 {
        Multiset::empty()
    } else {
        from_bag_upto(names, created, n - 1).add(edges_from(created, names[n - 1]).to_multiset())
    }
}

/// The edges of `created` that enter the first `n` of `names`, with repeats.
pub open spec fn to_bag_upto(names: Seq<Seq<char>>, created: Seq<EdgeModel>, n: int) -> Multiset<EdgeModel>
    decreases n,
{
    if n <= 0 {
        Multiset::empty()
    } else {
        to_bag_upto(names, created, n - 1).add(edges_to(created, names[n - 1]).to_multiset())
    }
}

/// An empty list holds no edges.
pub proof fn lemma_no_edges(s: Seq<EdgeModel>)
    requires
        s.len() == 0,
    ensures
        s.to_multiset() == Multiset::<EdgeModel>::empty(),
{
    vstd::seq_lib::to_multiset_len(s);
    vstd::multiset::lemma_multiset_empty_len(s.to_multiset());
}

/// The lists of `old` seen from a grown graph hold the edges of `old`.
pub proof fn lemma_base_bags(old: Seq<ResourceNode>, n: int)
    requires
        old.len() <= n,
    ensures
        base_egress_upto(old, n) == egress_bag(old),
        base_ingress_upto(old, n) == ingress_bag(old),
    decreases n,
{
    broadcast use vstd::multiset::group_multiset_axioms;

    if n > old.len() {
        lemma_base_bags(old, n - 1);
        lemma_no_edges(base_egress(old, n - 1));
        lemma_no_edges(base_ingress(old, n - 1));
        assert(base_egress_upto(old, n) =~= base_egress_upto(old, n - 1));
        assert(base_ingress_upto(old, n) =~= base_ingress_upto(old, n - 1));
    } else {
        lemma_base_prefix(old, n);
    }
}

/// Within `old`, its lists seen from a grown graph are its own lists.
pub proof fn lemma_base_prefix(old: Seq<ResourceNode>, n: int)
    requires
        0 <= n <= old.len(),
    ensures
        base_egress_upto(old, n) == egress_bag_upto(old, n),
        base_ingress_upto(old, n) == ingress_bag_upto(old, n),
    decreases n,
{
    if n > 0 {
        lemma_base_prefix(old, n - 1);
    }
}

/// The bags of a graph whose lists extend those of `old` by `created`.
pub proof fn lemma_bags_split(old: Seq<ResourceNode>, cur: Seq<ResourceNode>, created: Seq<EdgeModel>, n: int)
    requires
        lists_extend(old, cur, created),
        0 <= n <= cur.len(),
    ensures
        egress_bag_upto(cur, n) == base_egress_upto(old, n).add(from_bag_upto(node_names(cur), created, n)),
        ingress_bag_upto(cur, n) == base_ingress_upto(old, n).add(to_bag_upto(node_names(cur), created, n)),
    decreases n,
{
    broadcast use vstd::multiset::group_multiset_axioms;

    if n > 0 {
        lemma_bags_split(old, cur, created, n - 1);
        let i = n - 1;
        let x = node_names(cur)[i];
        assert(egress_at(cur, i) == base_egress(old, i) + edges_from(created, x));
        assert(ingress_at(cur, i) == base_ingress(old, i) + edges_to(created, x));
        vstd::seq_lib::lemma_multiset_commutative(base_egress(old, i), edges_from(created, x));
        vstd::seq_lib::lemma_multiset_commutative(base_ingress(old, i), edges_to(created, x));
        assert(egress_bag_upto(cur, n) =~= base_egress_upto(old, n).add(from_bag_upto(node_names(cur), created, n)));
        assert(ingress_bag_upto(cur, n) =~= base_ingress_upto(old, n).add(to_bag_upto(node_names(cur), created, n)));
    } else {
        assert(egress_bag_upto(cur, n) =~= base_egress_upto(old, n).add(from_bag_upto(node_names(cur), created, n)));
        assert(ingress_bag_upto(cur, n) =~= base_ingress_upto(old, n).add(to_bag_upto(node_names(cur), created, n)));
    }
}

/// Adding edge `e` to `created` adds it to the bag of the first `n` names
/// exactly when its source (target) is among them.
pub proof fn lemma_bags_push(names: Seq<Seq<char>>, created: Seq<EdgeModel>, e: EdgeModel, n: int)
    requires
        names.no_duplicates(),
        0 <= n <= names.len(),
    ensures
        from_bag_upto(names, created.push(e), n) == if names.take(n).contains(e.0) {
            from_bag_upto(names, created, n).insert(e)
        } else {
            from_bag_upto(names, created, n)
        },
        to_bag_upto(names, created.push(e), n) == if names.take(n).contains(e.1) {
            to_bag_upto(names, created, n).insert(e)
        } else {
            to_bag_upto(names, created, n)
        },
    decreases n,
{
    broadcast use vstd::multiset::group_multiset_axioms;

    let c2 = created.push(e);
    if n > 0 {
        lemma_bags_push(names, created, e, n - 1);
        let x = names[n - 1];
        assert(c2.drop_last() =~= created);
        assert(c2.last() == e);
        assert(names.take(n) =~= names.take(n - 1).push(x));
        if e.0 == x {
            assert(!names.take(n - 1).contains(e.0)) by {
                if names.take(n - 1).contains(e.0) {
                    let k = choose|k: int| 0 <= k < n - 1 && #[trigger] names.take(n - 1)[k] == e.0;
                    assert(names[k] == names[n - 1]);
                }
            }
            assert(names.take(n)[n - 1] == e.0);
            vstd::seq_lib::to_multiset_build(edges_from(created, x), e);
        } else {
            assert(names.take(n).contains(e.0) == names.take(n - 1).contains(e.0)) by {
                if names.take(n).contains(e.0) {
                    let k = choose|k: int| 0 <= k < n && #[trigger] names.take(n)[k] == e.0;
                    assert(names.take(n - 1)[k] == e.0);
                }
                if names.take(n - 1).contains(e.0) {
                    let k = choose|k: int| 0 <= k < n - 1 && #[trigger] names.take(n - 1)[k] == e.0;
                    assert(names.take(n)[k] == e.0);
                }
            }
        }
        if e.1 == x {
            assert(!names.take(n - 1).contains(e.1)) by {
                if names.take(n - 1).contains(e.1) {
                    let k = choose|k: int| 0 <= k < n - 1 && #[trigger] names.take(n - 1)[k] == e.1;
                    assert(names[k] == names[n - 1]);
                }
            }
            assert(names.take(n)[n - 1] == e.1);
            vstd::seq_lib::to_multiset_build(edges_to(created, x), e);
        } else {
            assert(names.take(n).contains(e.1) == names.take(n - 1).contains(e.1)) by {
                if names.take(n).contains(e.1) {
                    let k = choose|k: int| 0 <= k < n && #[trigger] names.take(n)[k] == e.1;
                    assert(names.take(n - 1)[k] == e.1);
                }
                if names.take(n - 1).contains(e.1) {
                    let k = choose|k: int| 0 <= k < n - 1 && #[trigger] names.take(n - 1)[k] == e.1;
                    assert(names.take(n)[k] == e.1);
                }
            }
        }
        assert(from_bag_upto(names, c2, n) =~= if names.take(n).contains(e.0) {
            from_bag_upto(names, created, n).insert(e)
        } else {
            from_bag_upto(names, created, n)
        });
        assert(to_bag_upto(names, c2, n) =~= if names.take(n).contains(e.1) {
            to_bag_upto(names, created, n).insert(e)
        } else {
            to_bag_upto(names, created, n)
        });
    } else {
        assert(!names.take(n).contains(e.0));
        assert(!names.take(n).contains(e.1));
    }
}

/// When every edge of `created` joins two of `names` (which do not repeat),
/// the edges leaving them and the edges entering them are both `created`.
pub proof fn lemma_bags_created(names: Seq<Seq<char>>, created: Seq<EdgeModel>)
    requires
        names.no_duplicates(),
        forall|k: int| 0 <= k < created.len() ==> names.contains((#[trigger] created[k]).0) && names.contains(created[k].1),
    ensures
        from_bag_upto(names, created, names.len() as int) == created.to_multiset(),
        to_bag_upto(names, created, names.len() as int) == created.to_multiset(),
    decreases created.len(),
{
    broadcast use vstd::multiset::group_multiset_axioms;

    let n = names.len() as int;
    if created.len() == 0 {
        lemma_bags_empty(names, created, n);
        lemma_no_edges(created);
    } else {
        let c = created.drop_last();
        let e = created.last();
        assert(c.push(e) =~= created);
        assert forall|k: int| 0 <= k < c.len() implies names.contains((#[trigger] c[k]).0) && names.contains(c[k].1) by {
            assert(c[k] == created[k]);
        }
        lemma_bags_created(names, c);
        lemma_bags_push(names, c, e, n);
        assert(names.take(n) =~= names);
        assert(created[created.len() - 1] == e);
        vstd::seq_lib::to_multiset_build(c, e);
    }
}

/// No edges, no bags.
pub proof fn lemma_bags_empty(names: Seq<Seq<char>>, created: Seq<EdgeModel>, n: int)
    requires
        created.len() == 0,
    ensures
        from_bag_upto(names, created, n) == Multiset::<EdgeModel>::empty(),
        to_bag_upto(names, created, n) == Multiset::<EdgeModel>::empty(),
    decreases n,
{
    broadcast use vstd::multiset::group_multiset_axioms;

    if n > 0 {
        lemma_bags_empty(names, created, n - 1);
        lemma_no_edges(edges_from(created, names[n - 1]));
        lemma_no_edges(edges_to(created, names[n - 1]));
        assert(from_bag_upto(names, created, n) =~= Multiset::<EdgeModel>::empty());
        assert(to_bag_upto(names, created, n) =~= Multiset::<EdgeModel>::empty());
    }
}

/// Growing the lists of `old` by the edges `created`, whose ends are all
/// nodes of `cur`, adds exactly `created` to both bags.
pub proof fn lemma_bags_extend(old: Seq<ResourceNode>, cur: Seq<ResourceNode>, created: Seq<EdgeModel>)
    requires
        lists_extend(old, cur, created),
        node_names(cur).no_duplicates(),
        forall|k: int|
            0 <= k < created.len() ==> node_names(cur).contains((#[trigger] created[k]).0) && node_names(
                cur,
            ).contains(created[k].1),
    ensures
        egress_bag(cur) == egress_bag(old).add(created.to_multiset()),
        ingress_bag(cur) == ingress_bag(old).add(created.to_multiset()),
{
    let n = cur.len() as int;
    lemma_bags_split(old, cur, created, n);
    lemma_base_bags(old, n);
    assert(node_names(cur).len() == n);
    lemma_bags_created(node_names(cur), created);
}

} // verus!
