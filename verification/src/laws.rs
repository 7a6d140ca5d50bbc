//! Properties of the library that span its functions.

use crate::construct::selected_edges;
use crate::coverage::{coverage, coverage_closed};
use crate::graph::{added_edges, egress_at, egress_set};
use crate::planner::{ingredient_listing, lemma_min_finish_least, min_finish};
use crate::recipe::{edge_sources, EdgeModel};
use crate::graph::Graph;
use crate::related::{related_closed, related_listing, related_recipes, related_resources};
use crate::text::{lemma_name_lt_asymmetric, lemma_name_lt_irreflexive, lemma_strictly_ordered_unique, name_lt};
use crate::topo::{finish_descending, finish_of, has_edge, reaches, valid_times};
use vstd::prelude::*;

verus! {

/// The graph has no cycle: no edge leads back to a node that reaches its source.
pub open spec fn acyclic(g: &Graph) -> bool {
    forall|u: int, v: int| #[trigger] has_edge(g, u, v) ==> !reaches(g, v, u)
}

/// After `topological_sort`, an edge `u -> v` that closes no cycle has its
/// target left before its source.
pub proof fn lemma_edge_order_unless_cycle(g: &Graph, u: int, v: int)
    requires
        valid_times(g, g.topological_sort_result@),
        has_edge(g, u, v),
        !reaches(g, v, u),
    ensures
        g.topological_sort_result@[v].1 < g.topological_sort_result@[u].1,
{
}

/// After `topological_sort` on a graph without cycles, every edge has its
/// target left before its source: the finish times order the graph
/// topologically.
pub proof fn lemma_acyclic_topological(g: &Graph)
    requires
        valid_times(g, g.topological_sort_result@),
        acyclic(g),
    ensures
        forall|u: int, v: int| #[trigger] has_edge(g, u, v) ==> g.topological_sort_result@[v].1
            < g.topological_sort_result@[u].1,
{
}

/// A list ordered as `sort_topologically` and `find_all_related` order it,
/// with valid traversal times, puts the source of an edge that closes no
/// cycle before its target.
pub proof fn lemma_listed_in_topological_order(g: &Graph, s: Seq<Seq<char>>, p: int, q: int)
    requires
        g.structure_ok(),
        valid_times(g, g.topological_sort_result@),
        finish_descending(g, s),
        0 <= p < s.len(),
        0 <= q < s.len(),
        g.has_resource(s[p]),
        g.has_resource(s[q]),
        has_edge(g, g.resource_index(s[p]), g.resource_index(s[q])),
        !reaches(g, g.resource_index(s[q]), g.resource_index(s[p])),
    ensures
        p < q,
{
    let u = g.resource_index(s[p]);
    let v = g.resource_index(s[q]);
    let t = g.topological_sort_result@;
    assert(t[v].1 < t[u].1);
    assert(finish_of(g, s[q]) < finish_of(g, s[p]));
    if q < p {
        assert(finish_of(g, s[q]) >= finish_of(g, s[p]));
    }
    if p == q {
        assert(u == v);
    }
}

/// In a sub-graph without cycles, every edge leads to an earlier finish:
/// a resource fed by an edge of `sub` finishes before the edge's source.
pub proof fn lemma_edge_finishes_earlier(sub: &Graph, e: EdgeModel)
    requires
        sub.structure_ok(),
        valid_times(sub, sub.topological_sort_result@),
        acyclic(sub),
        sub.edges().contains(e),
    ensures
        finish_of(sub, e.1) < finish_of(sub, e.0),
{
    let nodes = sub.resources@;
    assert(egress_set(nodes).contains(e));
    let (i, j) = choose|i: int, j: int|
        0 <= i < nodes.len() && 0 <= j < egress_at(nodes, i).len() && #[trigger] egress_at(nodes, i)[j] == e;
    assert(sub.egress(i) == egress_at(nodes, i));
    assert(sub.egress(i)[j].0 == sub.resource_names()[i]);
    assert(sub.has_resource(e.1));
    let v = choose|v: int| 0 <= v < sub.resource_names().len() && sub.resource_names()[v] == e.1;
    assert(has_edge(sub, i, v));
    lemma_acyclic_topological(sub);
    sub.lemma_resource_index(i);
    sub.lemma_resource_index(v);
}

/// Listing chosen recipes as `order_by_ingredients` does, over the sub-graph
/// of those recipes (as `select` builds it) when that has no cycle, puts a
/// recipe before every chosen recipe that consumes one of its products.
pub proof fn lemma_producers_listed_first(
    g: &Graph,
    sub: &Graph,
    names: Seq<Seq<char>>,
    order: Seq<usize>,
    a: int,
    b: int,
    x: Seq<char>,
)
    requires
        sub.structure_ok(),
        sub.edges() == selected_edges(g, names),
        valid_times(sub, sub.topological_sort_result@),
        acyclic(sub),
        ingredient_listing(g, sub, names, order),
        0 <= a < order.len(),
        0 <= b < order.len(),
        g.recipe_of(names[order[a] as int]).products.contains(x),
        g.recipe_of(names[order[b] as int]).ingredients.contains(x),
    ensures
        a < b,
{
    let ra = g.recipe_of(names[order[a] as int]);
    let rb = g.recipe_of(names[order[b] as int]);
    let srcs = edge_sources(ra);
    // every source of the producer finishes after x
    assert forall|q: int| 0 <= q < srcs.len() implies finish_of(sub, x) < finish_of(sub, #[trigger] srcs[q]) by {
        let e: EdgeModel = (srcs[q], x, ra.name);
        assert(added_edges(g.recipe_of(names[order[a] as int])).contains(e));
        assert(selected_edges(g, names).contains(e));
        lemma_edge_finishes_earlier(sub, e);
    }
    // so the producer's key is above the finish time of x
    lemma_min_finish_least(sub, ra.ingredients);
    if ra.ingredients.len() > 0 {
        let k = choose|k: int| 0 <= k < ra.ingredients.len() && min_finish(sub, ra.ingredients) == finish_of(sub, #[trigger] ra.ingredients[k]);
        assert(srcs[k] == ra.ingredients[k]);
    } else {
        assert(finish_of(sub, x) < finish_of(sub, srcs[0]));
    }
    assert(min_finish(sub, ra.ingredients) > finish_of(sub, x));
    // and the consumer's key is at most it
    lemma_min_finish_least(sub, rb.ingredients);
    let m = choose|m: int| 0 <= m < rb.ingredients.len() && rb.ingredients[m] == x;
    assert(min_finish(sub, rb.ingredients) <= finish_of(sub, rb.ingredients[m]));
    if b < a {
        assert(min_finish(sub, g.recipe_of(names[order[b] as int]).ingredients)
            >= min_finish(sub, g.recipe_of(names[order[a] as int]).ingredients));
    }
}

/// Expanding a coverage again adds nothing.
pub proof fn lemma_coverage_idempotent(g: &Graph, start: Set<Seq<char>>)
    ensures
        coverage(g, coverage(g, start)) == coverage(g, start),
        start.subset_of(coverage(g, start)),
{
    let c = coverage(g, start);
    assert forall|x: Seq<char>| start.contains(x) implies c.contains(x) by {
    }
    // the coverage is closed
    assert(coverage_closed(g, c)) by {
        assert forall|i: int, j: int|
            0 <= i < g.resources@.len() && 0 <= j < g.egress(i).len() && c.contains(g.resource_names()[i])
                && (forall|q: int|
                0 <= q < g.recipe_of(g.egress(i)[j].2).ingredients.len() ==> c.contains(
                    #[trigger] g.recipe_of(g.egress(i)[j].2).ingredients[q],
                )) implies c.contains(#[trigger] g.egress(i)[j].1) by {
            assert forall|s: Set<Seq<char>>| #[trigger] coverage_closed(g, s) && start.subset_of(s) implies s.contains(g.egress(i)[j].1) by {
                assert(s.contains(g.resource_names()[i]));
                assert forall|q: int| 0 <= q < g.recipe_of(g.egress(i)[j].2).ingredients.len() implies s.contains(
                    #[trigger] g.recipe_of(g.egress(i)[j].2).ingredients[q]) by {
                    assert(c.contains(g.recipe_of(g.egress(i)[j].2).ingredients[q]));
                }
            }
        }
    }
    assert forall|x: Seq<char>| coverage(g, c).contains(x) <==> c.contains(x) by {
        if coverage(g, c).contains(x) {
            assert(coverage_closed(g, c) && c.subset_of(c));
        }
        if c.contains(x) {
            assert forall|s: Set<Seq<char>>| #[trigger] coverage_closed(g, s) && c.subset_of(s) implies s.contains(x) by {
            }
        }
    }
    assert(coverage(g, c) =~= c);
}

/// More available resources never cover less: the coverage grows with its
/// starting set.
pub proof fn lemma_coverage_monotone(g: &Graph, a: Set<Seq<char>>, b: Set<Seq<char>>)
    requires
        a.subset_of(b),
    ensures
        coverage(g, a).subset_of(coverage(g, b)),
{
    assert forall|x: Seq<char>| coverage(g, a).contains(x) implies coverage(g, b).contains(x) by {
        assert forall|s: Set<Seq<char>>| #[trigger] coverage_closed(g, s) && b.subset_of(s) implies s.contains(x) by {
            assert(a.subset_of(s));
        }
    }
}


/// Target lists that hold the same names relate the same resources and the
/// same recipes.
pub proof fn lemma_related_by_target_set(g: &Graph, t1: Seq<Seq<char>>, t2: Seq<Seq<char>>)
    requires
        t1.to_set() == t2.to_set(),
    ensures
        related_resources(g, t1) == related_resources(g, t2),
        related_recipes(g, t1) == related_recipes(g, t2),
{
    assert forall|x: Seq<char>| #[trigger] t1.contains(x) == t2.contains(x) by {
        if t1.contains(x) {
            assert(t1.to_set().contains(x));
            assert(t2.to_set().contains(x));
        }
        if t2.contains(x) {
            assert(t2.to_set().contains(x));
            assert(t1.to_set().contains(x));
        }
    }
    assert forall|s: Set<Seq<char>>| #[trigger] related_closed(g, t1, s) == related_closed(g, t2, s) by {
        if related_closed(g, t1, s) {
            assert forall|x: Seq<char>| t2.contains(x) implies s.contains(x) by {
                assert(t1.contains(x));
            }
            assert(related_closed(g, t2, s));
        }
        if related_closed(g, t2, s) {
            assert forall|x: Seq<char>| t1.contains(x) implies s.contains(x) by {
                assert(t2.contains(x));
            }
            assert(related_closed(g, t1, s));
        }
    }
    assert forall|x: Seq<char>| related_resources(g, t1).contains(x) == related_resources(g, t2).contains(x) by {
        if related_resources(g, t1).contains(x) {
            assert forall|s: Set<Seq<char>>| #[trigger] related_closed(g, t2, s) implies s.contains(x) by {
                assert(related_closed(g, t1, s));
            }
        }
        if related_resources(g, t2).contains(x) {
            assert forall|s: Set<Seq<char>>| #[trigger] related_closed(g, t1, s) implies s.contains(x) by {
                assert forall|i: int, j: int|
                0 <= i < g.resources@.len() && 0 <= j < g.ingress(i).len() && s.contains(g.resource_names()[i]) implies {
                    &&& s.contains(#[trigger] g.ingress(i)[j].0)
                    &&& forall|p: int|
                        0 <= p < g.recipe_of(g.ingress(i)[j].2).products.len() ==> s.contains(
                            #[trigger] g.recipe_of(g.ingress(i)[j].2).products[p],
                        )
                } by {
                assert(s.contains(g.ingress(i)[j].0));
                assert forall|p: int| 0 <= p < g.recipe_of(g.ingress(i)[j].2).products.len() implies s.contains(
                    #[trigger] g.recipe_of(g.ingress(i)[j].2).products[p]) by {
                }
            }
            assert(related_closed(g, t2, s));
            }
        }
    }
    assert(related_resources(g, t1) =~= related_resources(g, t2));
    assert(related_recipes(g, t1) =~= related_recipes(g, t2));
}

/// Everything related to resources of a well-formed graph is a resource.
pub proof fn lemma_related_are_resources(g: &Graph, targets: Seq<Seq<char>>, x: Seq<char>)
    requires
        g.well_formed(),
        forall|k: int| 0 <= k < targets.len() ==> g.has_resource(#[trigger] targets[k]),
        related_resources(g, targets).contains(x),
    ensures
        g.has_resource(x),
{
    let s = g.resource_names().to_set();
    assert forall|y: Seq<char>| targets.contains(y) implies s.contains(y) by {
        let k = choose|k: int| 0 <= k < targets.len() && targets[k] == y;
        assert(g.has_resource(targets[k]));
    }
    assert forall|i: int, j: int|
        0 <= i < g.resources@.len() && 0 <= j < g.ingress(i).len() && s.contains(g.resource_names()[i]) implies {
            &&& s.contains(#[trigger] g.ingress(i)[j].0)
            &&& forall|p: int|
                0 <= p < g.recipe_of(g.ingress(i)[j].2).products.len() ==> s.contains(
                    #[trigger] g.recipe_of(g.ingress(i)[j].2).products[p],
                )
        } by {
        let e = g.ingress(i)[j];
        assert(g.has_resource(e.0));
        assert(g.has_recipe(e.2));
        let k = choose|k: int| 0 <= k < g.recipe_names().len() && g.recipe_names()[k] == e.2;
        assert(g.recipes@[k].recipe_name@ == e.2);
        g.lemma_recipe_of(k);
        assert forall|p: int| 0 <= p < g.recipe_of(e.2).products.len() implies s.contains(
            #[trigger] g.recipe_of(e.2).products[p]) by {
            assert(g.has_resource(g.recipes@[k]@.products[p]));
        }
    }
    assert(related_closed(g, targets, s));
}

/// `find_all_related` depends on its targets only as a set of names: two
/// target lists with the same names, in any order and with any repeats, give
/// the same resources in the same order and the same recipes in the same
/// order.
pub proof fn lemma_related_listing_by_target_set(
    g: &Graph,
    t1: Seq<Seq<char>>,
    t2: Seq<Seq<char>>,
    resources1: Seq<Seq<char>>,
    recipes1: Seq<Seq<char>>,
    resources2: Seq<Seq<char>>,
    recipes2: Seq<Seq<char>>,
)
    requires
        g.well_formed(),
        valid_times(g, g.topological_sort_result@),
        forall|k: int| 0 <= k < t1.len() ==> g.has_resource(#[trigger] t1[k]),
        t1.to_set() == t2.to_set(),
        related_listing(g, t1, resources1, recipes1),
        related_listing(g, t2, resources2, recipes2),
    ensures
        resources1 == resources2,
        recipes1 == recipes2,
{
    lemma_related_by_target_set(g, t1, t2);
    let rel = related_resources(g, t1);
    // the resource lists: strictly decreasing finish times
    let later = |x: Seq<char>, y: Seq<char>| finish_of(g, x) > finish_of(g, y);
    let t = g.topological_sort_result@;
    assert forall|x: Seq<char>, y: Seq<char>| rel.contains(x) && rel.contains(y) && x != y implies finish_of(g, x)
        != finish_of(g, y) by {
        lemma_related_are_resources(g, t1, x);
        lemma_related_are_resources(g, t1, y);
        let i = g.resource_index(x);
        let j = g.resource_index(y);
        let i0 = choose|i0: int| 0 <= i0 < g.resource_names().len() && g.resource_names()[i0] == x;
        let j0 = choose|j0: int| 0 <= j0 < g.resource_names().len() && g.resource_names()[j0] == y;
        assert(g.resource_names()[i] == x);
        assert(g.resource_names()[j] == y);
        assert(t[i].1 != t[j].1);
    }
    assert forall|a: int, b: int| 0 <= a < b < resources1.len() implies #[trigger] later(resources1[a], resources1[b]) by {
        assert(resources1.to_set().contains(resources1[a]));
        assert(resources1.to_set().contains(resources1[b]));
        assert(finish_of(g, resources1[a]) >= finish_of(g, resources1[b]));
    }
    assert forall|a: int, b: int| 0 <= a < b < resources2.len() implies #[trigger] later(resources2[a], resources2[b]) by {
        assert(resources2.to_set().contains(resources2[a]));
        assert(resources2.to_set().contains(resources2[b]));
        assert(finish_of(g, resources2[a]) >= finish_of(g, resources2[b]));
    }
    lemma_strictly_ordered_unique(resources1, resources2, later);
    // the recipe lists: strictly increasing names
    let before = |x: Seq<char>, y: Seq<char>| name_lt(x, y);
    assert forall|x: Seq<char>| !#[trigger] before(x, x) by {
        lemma_name_lt_irreflexive(x);
    }
    assert forall|x: Seq<char>, y: Seq<char>| #[trigger] before(x, y) implies !before(y, x) by {
        lemma_name_lt_asymmetric(x, y);
    }
    lemma_strictly_ordered_unique(recipes1, recipes2, before);
}

/// The related resources hold the targets and are closed under the relation.
#[verifier::spinoff_prover]
pub proof fn lemma_related_closed(g: &Graph, targets: Seq<Seq<char>>)
    ensures
        related_closed(g, targets, related_resources(g, targets)),
{
    let r = related_resources(g, targets);
    assert forall|x: Seq<char>| targets.contains(x) implies r.contains(x) by {
        assert forall|s: Set<Seq<char>>| #[trigger] related_closed(g, targets, s) implies s.contains(x) by {
        }
    }
    assert forall|i: int, j: int|
        0 <= i < g.resources@.len() && 0 <= j < g.ingress(i).len() && r.contains(g.resource_names()[i]) implies {
            &&& r.contains(#[trigger] g.ingress(i)[j].0)
            &&& forall|p: int|
                0 <= p < g.recipe_of(g.ingress(i)[j].2).products.len() ==> r.contains(
                    #[trigger] g.recipe_of(g.ingress(i)[j].2).products[p],
                )
        } by {
        crate::related::lemma_related_step(g, targets, i, j);
    }
}

} // verus!
