//! The graph of resources: nodes, edges and the recipes that label them.

use crate::recipe::{
    edge_models, edge_sources, names_of, world_root_name, Edge, EdgeModel, Recipe, RecipeModel,
    ResourceNode, WORLD_ROOT,
};
use crate::edge_bags::{egress_bag, ingress_bag, lemma_bags_extend};
use std::rc::Rc;
use vstd::prelude::*;

verus! {

/// The graph of resources and recipes.
///
/// `resources[i]` is the node of the `i`-th resource; `topological_sort_result[i]`
/// holds the discovery and finish times of that node in the last depth-first
/// traversal (see `topological_sort`).
pub struct Graph {
    pub recipes: Vec<Recipe>,
    pub resources: Vec<ResourceNode>,
    pub topological_sort_result: Vec<(u64, u64)>,
}

/// The names of a sequence of nodes.
pub open spec fn node_names(nodes: Seq<ResourceNode>) -> Seq<Seq<char>> {
    nodes.map_values(|n: ResourceNode| n.resource_name@)
}

/// The models of the egress edges of node `i`.
pub open spec fn egress_at(nodes: Seq<ResourceNode>, i: int) -> Seq<EdgeModel> {
    edge_models(nodes[i].egress_edges@)
}

/// The models of the ingress edges of node `i`.
pub open spec fn ingress_at(nodes: Seq<ResourceNode>, i: int) -> Seq<EdgeModel> {
    edge_models(nodes[i].ingress_edges@)
}

/// Every edge listed as an egress edge of some node.
pub open spec fn egress_set(nodes: Seq<ResourceNode>) -> Set<EdgeModel> {
    Set::new(
        |e: EdgeModel|
            exists|i: int, j: int|
                0 <= i < nodes.len() && 0 <= j < egress_at(nodes, i).len() && #[trigger] egress_at(
                    nodes,
                    i,
                )[j] == e,
    )
}

/// Every edge listed as an ingress edge of some node.
pub open spec fn ingress_set(nodes: Seq<ResourceNode>) -> Set<EdgeModel> {
    Set::new(
        |e: EdgeModel|
            exists|i: int, j: int|
                0 <= i < nodes.len() && 0 <= j < ingress_at(nodes, i).len() && #[trigger] ingress_at(
                    nodes,
                    i,
                )[j] == e,
    )
}

/// Appending one edge to the egress list of node `k` adds exactly that edge.
pub proof fn lemma_egress_push(a: Seq<ResourceNode>, b: Seq<ResourceNode>, k: int, e: EdgeModel)
    requires
        a.len() == b.len(),
        0 <= k < a.len(),
        forall|i: int| 0 <= i < a.len() && i != k ==> egress_at(b, i) == egress_at(a, i),
        egress_at(b, k) == egress_at(a, k).push(e),
    ensures
        egress_set(b) == egress_set(a).insert(e),
{
    assert forall|x: EdgeModel| egress_set(b).contains(x) implies egress_set(a).insert(x).contains(
        x,
    ) && (x == e || egress_set(a).contains(x)) by {
        let (i, j) = choose|i: int, j: int|
            0 <= i < b.len() && 0 <= j < egress_at(b, i).len() && #[trigger] egress_at(b, i)[j]
                == x;
        if i == k && j == egress_at(a, k).len() {
        } else {
            assert(egress_at(a, i)[j] == x);
        }
    }
    assert forall|x: EdgeModel| egress_set(a).insert(e).contains(x) implies egress_set(b).contains(
        x,
    ) by {
        if x == e {
            assert(egress_at(b, k)[egress_at(a, k).len() as int] == e);
        } else {
            let (i, j) = choose|i: int, j: int|
                0 <= i < a.len() && 0 <= j < egress_at(a, i).len() && #[trigger] egress_at(a, i)[j]
                    == x;
            assert(egress_at(b, i)[j] == x);
        }
    }
    assert(egress_set(b) =~= egress_set(a).insert(e));
}

/// Appending one edge to the ingress list of node `k` adds exactly that edge.
pub proof fn lemma_ingress_push(a: Seq<ResourceNode>, b: Seq<ResourceNode>, k: int, e: EdgeModel)
    requires
        a.len() == b.len(),
        0 <= k < a.len(),
        forall|i: int| 0 <= i < a.len() && i != k ==> ingress_at(b, i) == ingress_at(a, i),
        ingress_at(b, k) == ingress_at(a, k).push(e),
    ensures
        ingress_set(b) == ingress_set(a).insert(e),
{
    assert forall|x: EdgeModel| ingress_set(b).contains(x) implies (x == e || ingress_set(
        a,
    ).contains(x)) by {
        let (i, j) = choose|i: int, j: int|
            0 <= i < b.len() && 0 <= j < ingress_at(b, i).len() && #[trigger] ingress_at(b, i)[j]
                == x;
        if i == k && j == ingress_at(a, k).len() {
        } else {
            assert(ingress_at(a, i)[j] == x);
        }
    }
    assert forall|x: EdgeModel| ingress_set(a).insert(e).contains(x) implies ingress_set(
        b,
    ).contains(x) by {
        if x == e {
            assert(ingress_at(b, k)[ingress_at(a, k).len() as int] == e);
        } else {
            let (i, j) = choose|i: int, j: int|
                0 <= i < a.len() && 0 <= j < ingress_at(a, i).len() && #[trigger] ingress_at(
                    a,
                    i,
                )[j] == x;
            assert(ingress_at(b, i)[j] == x);
        }
    }
    assert(ingress_set(b) =~= ingress_set(a).insert(e));
}

/// Appending a node without edges leaves both edge sets as they were.
pub proof fn lemma_push_bare_node(a: Seq<ResourceNode>, n: ResourceNode)
    requires
        n.egress_edges@.len() == 0,
        n.ingress_edges@.len() == 0,
    ensures
        egress_set(a.push(n)) == egress_set(a),
        ingress_set(a.push(n)) == ingress_set(a),
{
    let b = a.push(n);
    assert forall|i: int| 0 <= i < a.len() implies egress_at(b, i) == egress_at(a, i)
        && ingress_at(b, i) == ingress_at(a, i) by {
        assert(b[i] == a[i]);
    }
    assert forall|x: EdgeModel| egress_set(b).contains(x) implies egress_set(a).contains(x) by {
        let (i, j) = choose|i: int, j: int|
            0 <= i < b.len() && 0 <= j < egress_at(b, i).len() && #[trigger] egress_at(b, i)[j]
                == x;
        assert(egress_at(a, i)[j] == x);
    }
    assert forall|x: EdgeModel| egress_set(a).contains(x) implies egress_set(b).contains(x) by {
        let (i, j) = choose|i: int, j: int|
            0 <= i < a.len() && 0 <= j < egress_at(a, i).len() && #[trigger] egress_at(a, i)[j]
                == x;
        assert(egress_at(b, i)[j] == x);
    }
    assert forall|x: EdgeModel| ingress_set(b).contains(x) implies ingress_set(a).contains(x) by {
        let (i, j) = choose|i: int, j: int|
            0 <= i < b.len() && 0 <= j < ingress_at(b, i).len() && #[trigger] ingress_at(b, i)[j]
                == x;
        assert(ingress_at(a, i)[j] == x);
    }
    assert forall|x: EdgeModel| ingress_set(a).contains(x) implies ingress_set(b).contains(x) by {
        let (i, j) = choose|i: int, j: int|
            0 <= i < a.len() && 0 <= j < ingress_at(a, i).len() && #[trigger] ingress_at(a, i)[j]
                == x;
        assert(ingress_at(b, i)[j] == x);
    }
    assert(egress_set(b) =~= egress_set(a));
    assert(ingress_set(b) =~= ingress_set(a));
}


impl Default for Graph {
    /// An empty graph.
    fn default() -> (g: Graph)
        ensures
            g.well_formed(),
            g.edges_balanced(),
            g.resources@.len() == 0,
            g.recipes@.len() == 0,
            g.topological_sort_result@.len() == 0,
    {
        Graph::new()
    }
}

/// Two node sequences with the same egress lists have the same egress set.
pub proof fn lemma_egress_congruent(a: Seq<ResourceNode>, b: Seq<ResourceNode>)
    requires
        a.len() == b.len(),
        forall|i: int| 0 <= i < a.len() ==> egress_at(b, i) == egress_at(a, i),
    ensures
        egress_set(b) == egress_set(a),
{
    assert forall|x: EdgeModel| egress_set(b).contains(x) implies egress_set(a).contains(x) by {
        let (i, j) = choose|i: int, j: int|
            0 <= i < b.len() && 0 <= j < egress_at(b, i).len() && #[trigger] egress_at(b, i)[j]
                == x;
        assert(egress_at(a, i)[j] == x);
    }
    assert forall|x: EdgeModel| egress_set(a).contains(x) implies egress_set(b).contains(x) by {
        let (i, j) = choose|i: int, j: int|
            0 <= i < a.len() && 0 <= j < egress_at(a, i).len() && #[trigger] egress_at(a, i)[j]
                == x;
        assert(egress_at(b, i)[j] == x);
    }
    assert(egress_set(b) =~= egress_set(a));
}

/// Two node sequences with the same ingress lists have the same ingress set.
pub proof fn lemma_ingress_congruent(a: Seq<ResourceNode>, b: Seq<ResourceNode>)
    requires
        a.len() == b.len(),
        forall|i: int| 0 <= i < a.len() ==> ingress_at(b, i) == ingress_at(a, i),
    ensures
        ingress_set(b) == ingress_set(a),
{
    assert forall|x: EdgeModel| ingress_set(b).contains(x) implies ingress_set(a).contains(x) by {
        let (i, j) = choose|i: int, j: int|
            0 <= i < b.len() && 0 <= j < ingress_at(b, i).len() && #[trigger] ingress_at(b, i)[j]
                == x;
        assert(ingress_at(a, i)[j] == x);
    }
    assert forall|x: EdgeModel| ingress_set(a).contains(x) implies ingress_set(b).contains(x) by {
        let (i, j) = choose|i: int, j: int|
            0 <= i < a.len() && 0 <= j < ingress_at(a, i).len() && #[trigger] ingress_at(a, i)[j]
                == x;
        assert(ingress_at(b, i)[j] == x);
    }
    assert(ingress_set(b) =~= ingress_set(a));
}

/// Membership in a sequence after a push.
pub proof fn lemma_push_contains<A>(s: Seq<A>, a: A, x: A)
    ensures
        s.push(a).contains(x) <==> (s.contains(x) || x == a),
{
    if s.contains(x) {
        let i = choose|i: int| 0 <= i < s.len() && s[i] == x;
        assert(s.push(a)[i] == x);
    }
    if x == a {
        assert(s.push(a)[s.len() as int] == a);
    }
    if s.push(a).contains(x) {
        let i = choose|i: int| 0 <= i < s.push(a).len() && s.push(a)[i] == x;
        if i < s.len() {
            assert(s[i] == x);
        }
    }
}

/// Graphs with the same recipes and nodes have the same model.
pub proof fn lemma_same_parts(a: &Graph, b: &Graph)
    requires
        a.recipes@ == b.recipes@,
        a.resources@ == b.resources@,
    ensures
        a.structure_ok() == b.structure_ok(),
        a.well_formed() == b.well_formed(),
        a.resource_names() == b.resource_names(),
        a.recipe_map() == b.recipe_map(),
        a.edges() == b.edges(),
{
    assert(a.resource_names() =~= b.resource_names());
    assert(a.recipe_names() =~= b.recipe_names());
    assert forall|i: int| a.egress(i) == b.egress(i) && a.ingress(i) == b.ingress(i) by {
    }
    assert forall|x: Seq<char>| a.has_resource(x) == b.has_resource(x) && a.has_recipe(x) == b.has_recipe(x) by {
    }
    assert(a.recipe_map() =~= b.recipe_map());
}

/// `new` keeps the names of `old` in front, in the same order.
pub open spec fn names_grow(old: Seq<Seq<char>>, new: Seq<Seq<char>>) -> bool {
    &&& old.len() <= new.len()
    &&& forall|i: int| 0 <= i < old.len() ==> new[i] == old[i]
}

/// A name present before growth is present after it.
pub proof fn lemma_names_grow_contains(old: Seq<Seq<char>>, new: Seq<Seq<char>>, x: Seq<char>)
    requires
        names_grow(old, new),
        old.contains(x),
    ensures
        new.contains(x),
{
    let i = choose|i: int| 0 <= i < old.len() && old[i] == x;
    assert(new[i] == x);
}

/// Growth is transitive.
pub proof fn lemma_names_grow_trans(a: Seq<Seq<char>>, b: Seq<Seq<char>>, c: Seq<Seq<char>>)
    requires
        names_grow(a, b),
        names_grow(b, c),
    ensures
        names_grow(a, c),
{
}

/// The resources that adding recipe `r` introduces: nothing when it has no
/// products, else its products and the sources of its edges.
pub open spec fn added_resources(r: RecipeModel) -> Set<Seq<char>> {
    if r.products.len() == 0 {
        Set::empty()
    } else {
        r.products.to_set().union(edge_sources(r).to_set())
    }
}

/// The edges that adding recipe `r` introduces: one from each source of the
/// recipe to each of its products.
pub open spec fn added_edges(r: RecipeModel) -> Set<EdgeModel> {
    Set::new(
        |e: EdgeModel| edge_sources(r).contains(e.0) && r.products.contains(e.1) && e.2 == r.name,
    )
}

/// The edges of `xs` that leave `x`, in order.
pub open spec fn edges_from(xs: Seq<EdgeModel>, x: Seq<char>) -> Seq<EdgeModel>
    decreases xs.len(),
{
    if xs.len() == 0 {
        Seq::empty()
    } else {
        let rest = edges_from(xs.drop_last(), x);
        if xs.last().0 == x {
            rest.push(xs.last())
        } else {
            rest
        }
    }
}

/// The edges of `xs` that enter `x`, in order.
pub open spec fn edges_to(xs: Seq<EdgeModel>, x: Seq<char>) -> Seq<EdgeModel>
    decreases xs.len(),
{
    if xs.len() == 0 {
        Seq::empty()
    } else {
        let rest = edges_to(xs.drop_last(), x);
        if xs.last().1 == x {
            rest.push(xs.last())
        } else {
            rest
        }
    }
}

/// The edges that adding recipe `r` creates, in order of creation, up to
/// (not including) source `s` of product `p`: for each product, one edge
/// from each source.
pub open spec fn created_edges(r: RecipeModel, p: int, s: int) -> Seq<EdgeModel>
    decreases p, s,
{
    if s > 0 {
        created_edges(r, p, s - 1).push((edge_sources(r)[s - 1], r.products[p], r.name))
    } else if p > 0 {
        created_edges(r, p - 1, edge_sources(r).len() as int)
    } else {
        Seq::empty()
    }
}

/// All the edges that adding recipe `r` creates, in order of creation.
pub open spec fn new_edges(r: RecipeModel) -> Seq<EdgeModel> {
    created_edges(r, r.products.len() as int, 0)
}

/// The egress list that node `i` had in `old` (none for a node added since).
pub open spec fn base_egress(old: Seq<ResourceNode>, i: int) -> Seq<EdgeModel> {
    if i < old.len() {
        egress_at(old, i)
    } else {
        Seq::empty()
    }
}

/// The ingress list that node `i` had in `old` (none for a node added since).
pub open spec fn base_ingress(old: Seq<ResourceNode>, i: int) -> Seq<EdgeModel> {
    if i < old.len() {
        ingress_at(old, i)
    } else {
        Seq::empty()
    }
}

/// The edge lists of `cur` are those of `old` followed by the edges of
/// `created` that leave (enter) each node, in order.
pub open spec fn lists_extend(old: Seq<ResourceNode>, cur: Seq<ResourceNode>, created: Seq<EdgeModel>) -> bool {
    &&& old.len() <= cur.len()
    &&& forall|i: int|
        0 <= i < cur.len() ==> #[trigger] egress_at(cur, i) == base_egress(old, i) + edges_from(
            created,
            node_names(cur)[i],
        )
    &&& forall|i: int|
        0 <= i < cur.len() ==> #[trigger] ingress_at(cur, i) == base_ingress(old, i) + edges_to(
            created,
            node_names(cur)[i],
        )
}

/// Both ends of every edge of `created` are nodes of `cur`.
pub open spec fn endpoints_known(cur: Seq<ResourceNode>, created: Seq<EdgeModel>) -> bool {
    forall|k: int|
        0 <= k < created.len() ==> node_names(cur).contains((#[trigger] created[k]).0) && node_names(
            cur,
        ).contains(created[k].1)
}

/// No edge of `xs` touches `x`: none leaves or enters it.
pub proof fn lemma_edges_absent(xs: Seq<EdgeModel>, x: Seq<char>)
    requires
        forall|k: int| 0 <= k < xs.len() ==> (#[trigger] xs[k]).0 != x && xs[k].1 != x,
    ensures
        edges_from(xs, x) == Seq::<EdgeModel>::empty(),
        edges_to(xs, x) == Seq::<EdgeModel>::empty(),
    decreases xs.len(),
{
    if xs.len() > 0 {
        let d = xs.drop_last();
        assert forall|k: int| 0 <= k < d.len() implies (#[trigger] d[k]).0 != x && d[k].1 != x by {
            assert(d[k] == xs[k]);
        }
        lemma_edges_absent(d, x);
        assert(xs.last() == xs[xs.len() - 1]);
    }
}

/// `edges_from` and `edges_to` keep, in order, exactly the edges whose
/// source (target) is `x`.
pub proof fn lemma_edges_from_to_filter(xs: Seq<EdgeModel>, x: Seq<char>)
    ensures
        edges_from(xs, x) == xs.filter(|e: EdgeModel| e.0 == x),
        edges_to(xs, x) == xs.filter(|e: EdgeModel| e.1 == x),
    decreases xs.len(),
{
    reveal(Seq::filter);
    if xs.len() > 0 {
        lemma_edges_from_to_filter(xs.drop_last(), x);
    }
}

/// The edges of `c1 + c2` that leave (enter) `x` are those of `c1`, then
/// those of `c2`.
pub proof fn lemma_edges_concat(c1: Seq<EdgeModel>, c2: Seq<EdgeModel>, x: Seq<char>)
    ensures
        edges_from(c1 + c2, x) == edges_from(c1, x) + edges_from(c2, x),
        edges_to(c1 + c2, x) == edges_to(c1, x) + edges_to(c2, x),
    decreases c2.len(),
{
    if c2.len() == 0 {
        assert(c1 + c2 =~= c1);
        assert(edges_from(c1, x) + edges_from(c2, x) =~= edges_from(c1, x));
        assert(edges_to(c1, x) + edges_to(c2, x) =~= edges_to(c1, x));
    } else {
        lemma_edges_concat(c1, c2.drop_last(), x);
        assert((c1 + c2).drop_last() =~= c1 + c2.drop_last());
        assert((c1 + c2).last() == c2.last());
        assert(edges_from(c1 + c2, x) =~= edges_from(c1, x) + edges_from(c2, x));
        assert(edges_to(c1 + c2, x) =~= edges_to(c1, x) + edges_to(c2, x));
    }
}

/// Lists that extend in two steps extend by both batches of edges, in order.
pub proof fn lemma_lists_extend_trans(
    a: Seq<ResourceNode>,
    b: Seq<ResourceNode>,
    c: Seq<ResourceNode>,
    c1: Seq<EdgeModel>,
    c2: Seq<EdgeModel>,
)
    requires
        lists_extend(a, b, c1),
        lists_extend(b, c, c2),
        endpoints_known(b, c1),
        endpoints_known(c, c2),
        names_grow(node_names(b), node_names(c)),
        node_names(c).no_duplicates(),
    ensures
        lists_extend(a, c, c1 + c2),
        endpoints_known(c, c1 + c2),
{
    let nb = node_names(b);
    let nc = node_names(c);
    assert forall|i: int| 0 <= i < c.len() implies #[trigger] egress_at(c, i) == base_egress(a, i) + edges_from(c1 + c2, nc[i])
        && ingress_at(c, i) == base_ingress(a, i) + edges_to(c1 + c2, nc[i]) by {
        let x = nc[i];
        lemma_edges_concat(c1, c2, x);
        if i < b.len() {
            assert(nb[i] == x);
            assert(egress_at(b, i) == base_egress(a, i) + edges_from(c1, x));
            assert(ingress_at(b, i) == base_ingress(a, i) + edges_to(c1, x));
            assert(egress_at(c, i) =~= base_egress(a, i) + edges_from(c1 + c2, x));
            assert(ingress_at(c, i) =~= base_ingress(a, i) + edges_to(c1 + c2, x));
        } else {
            assert forall|k: int| 0 <= k < c1.len() implies (#[trigger] c1[k]).0 != x && c1[k].1 != x by {
                let j = choose|j: int| 0 <= j < nb.len() && nb[j] == c1[k].0;
                let j2 = choose|j2: int| 0 <= j2 < nb.len() && nb[j2] == c1[k].1;
                assert(nc[j] == nb[j]);
                assert(nc[j2] == nb[j2]);
            }
            lemma_edges_absent(c1, x);
            assert(egress_at(c, i) =~= base_egress(a, i) + edges_from(c1 + c2, x));
            assert(ingress_at(c, i) =~= base_ingress(a, i) + edges_to(c1 + c2, x));
        }
    }
    assert(a.len() <= c.len());
    assert forall|i: int| 0 <= i < c.len() implies #[trigger] ingress_at(c, i) == base_ingress(a, i) + edges_to(c1 + c2, nc[i]) by {
        assert(egress_at(c, i) == base_egress(a, i) + edges_from(c1 + c2, nc[i]));
    }
    assert forall|k: int| 0 <= k < (c1 + c2).len() implies nc.contains((#[trigger] (c1 + c2)[k]).0) && nc.contains((c1 + c2)[k].1) by {
        if k < c1.len() {
            assert((c1 + c2)[k] == c1[k]);
            lemma_names_grow_contains(nb, nc, c1[k].0);
            lemma_names_grow_contains(nb, nc, c1[k].1);
        } else {
            assert((c1 + c2)[k] == c2[k - c1.len()]);
        }
    }
}

/// The edge lists after a node is (or is not) added.
pub proof fn lemma_lists_new_node(old: Seq<ResourceNode>, a: Seq<ResourceNode>, b: Seq<ResourceNode>, created: Seq<EdgeModel>)
    requires
        lists_extend(old, a, created),
        endpoints_known(a, created),
        a.len() <= b.len() <= a.len() + 1,
        forall|i: int|
            #![trigger egress_at(b, i)]
            #![trigger ingress_at(b, i)]
            #![trigger node_names(b)[i]]
            0 <= i < a.len() ==> egress_at(b, i) == egress_at(a, i) && ingress_at(b, i) == ingress_at(a, i)
                && node_names(b)[i] == node_names(a)[i],
        b.len() == a.len() + 1 ==> egress_at(b, a.len() as int) == Seq::<EdgeModel>::empty()
            && ingress_at(b, a.len() as int) == Seq::<EdgeModel>::empty() && !node_names(a).contains(
            node_names(b)[a.len() as int],
        ),
    ensures
        lists_extend(old, b, created),
        endpoints_known(b, created),
{
    assert forall|k: int| 0 <= k < created.len() implies node_names(b).contains((#[trigger] created[k]).0)
        && node_names(b).contains(created[k].1) by {
        let i = choose|i: int| 0 <= i < node_names(a).len() && node_names(a)[i] == created[k].0;
        assert(node_names(b)[i] == created[k].0);
        let j = choose|j: int| 0 <= j < node_names(a).len() && node_names(a)[j] == created[k].1;
        assert(node_names(b)[j] == created[k].1);
    }
    if b.len() == a.len() + 1 {
        let x = node_names(b)[a.len() as int];
        assert forall|k: int| 0 <= k < created.len() implies (#[trigger] created[k]).0 != x && created[k].1 != x by {
            assert(node_names(a).contains(created[k].0));
            assert(node_names(a).contains(created[k].1));
        }
        lemma_edges_absent(created, x);
        assert(egress_at(b, a.len() as int) =~= base_egress(old, a.len() as int) + edges_from(created, x));
        assert(ingress_at(b, a.len() as int) =~= base_ingress(old, a.len() as int) + edges_to(created, x));
    }
}

/// The edge lists after the edge `e` from node `f` to node `t` is added.
pub proof fn lemma_lists_new_edge(
    old: Seq<ResourceNode>,
    a: Seq<ResourceNode>,
    b: Seq<ResourceNode>,
    created: Seq<EdgeModel>,
    f: int,
    t: int,
    e: EdgeModel,
)
    requires
        lists_extend(old, a, created),
        endpoints_known(a, created),
        node_names(a).no_duplicates(),
        a.len() == b.len(),
        0 <= f < a.len(),
        0 <= t < a.len(),
        e.0 == node_names(a)[f],
        e.1 == node_names(a)[t],
        node_names(b) == node_names(a),
        forall|i: int|
            0 <= i < a.len() ==> #[trigger] egress_at(b, i) == if i == f {
                egress_at(a, i).push(e)
            } else {
                egress_at(a, i)
            },
        forall|i: int|
            0 <= i < a.len() ==> #[trigger] ingress_at(b, i) == if i == t {
                ingress_at(a, i).push(e)
            } else {
                ingress_at(a, i)
            },
    ensures
        lists_extend(old, b, created.push(e)),
        endpoints_known(b, created.push(e)),
{
    let c2 = created.push(e);
    assert(c2.drop_last() =~= created);
    assert forall|i: int| 0 <= i < b.len() implies #[trigger] egress_at(b, i) == base_egress(old, i) + edges_from(c2, node_names(b)[i]) by {
        let x = node_names(a)[i];
        if i == f {
            assert(egress_at(b, i) =~= base_egress(old, i) + edges_from(c2, x));
        } else {
            assert(e.0 != x);
            assert(egress_at(b, i) == egress_at(a, i));
        }
    }
    assert forall|i: int| 0 <= i < b.len() implies #[trigger] ingress_at(b, i) == base_ingress(old, i) + edges_to(c2, node_names(b)[i]) by {
        let x = node_names(a)[i];
        if i == t {
            assert(ingress_at(b, i) =~= base_ingress(old, i) + edges_to(c2, x));
        } else {
            assert(e.1 != x);
            assert(ingress_at(b, i) == ingress_at(a, i));
        }
    }
    assert forall|k: int| 0 <= k < c2.len() implies node_names(b).contains((#[trigger] c2[k]).0)
        && node_names(b).contains(c2[k].1) by {
        if k < created.len() {
            assert(c2[k] == created[k]);
        } else {
            assert(node_names(b)[f] == e.0);
            assert(node_names(b)[t] == e.1);
        }
    }
}

/// Another handle to `edge`, through `Rc::clone` of std: both handles
/// refer to the same edge, so the clone has the same value.
#[verifier::external_body]
fn share_edge(edge: &Rc<Edge>) -> (shared: Rc<Edge>)
    ensures
        shared == *edge,
{
    Rc::clone(edge)
}

impl Graph {
    /// The names of the resources, in node order.
    pub open spec fn resource_names(&self) -> Seq<Seq<char>> {
        node_names(self.resources@)
    }

    /// The names of the recipes, in storage order.
    pub open spec fn recipe_names(&self) -> Seq<Seq<char>> {
        self.recipes@.map_values(|r: Recipe| r.recipe_name@)
    }

    pub open spec fn has_resource(&self, name: Seq<char>) -> bool {
        self.resource_names().contains(name)
    }

    pub open spec fn has_recipe(&self, name: Seq<char>) -> bool {
        self.recipe_names().contains(name)
    }

    /// The recipe stored under `name`.
    pub open spec fn recipe_of(&self, name: Seq<char>) -> RecipeModel {
        self.recipes@[self.recipe_index(name)]@
    }

    /// An index at which a recipe named `name` is stored (the only one under
    /// unique names).
    pub open spec fn recipe_index(&self, name: Seq<char>) -> int {
        choose|k: int| 0 <= k < self.recipes@.len() && self.recipes@[k].recipe_name@ == name
    }

    /// An index at which a node named `name` is stored (the only one under
    /// unique names).
    pub open spec fn resource_index(&self, name: Seq<char>) -> int {
        choose|i: int| 0 <= i < self.resources@.len() && self.resource_names()[i] == name
    }

    /// Under unique names, node `i` is the one found by its name.
    pub proof fn lemma_resource_index(&self, i: int)
        requires
            self.resource_names().no_duplicates(),
            0 <= i < self.resources@.len(),
        ensures
            self.resource_index(self.resource_names()[i]) == i,
    {
        let name = self.resource_names()[i];
        assert(exists|i2: int| 0 <= i2 < self.resources@.len() && self.resource_names()[i2] == name);
        let i2 = self.resource_index(name);
        assert(self.resource_names()[i2] == name);
    }

    /// The recipes of the graph, by name.
    pub open spec fn recipe_map(&self) -> Map<Seq<char>, RecipeModel> {
        Map::new(|name: Seq<char>| self.has_recipe(name), |name: Seq<char>| self.recipe_of(name))
    }

    /// The edges of the graph.
    pub open spec fn edges(&self) -> Set<EdgeModel> {
        egress_set(self.resources@)
    }

    /// The egress edges of node `i`.
    pub open spec fn egress(&self, i: int) -> Seq<EdgeModel> {
        egress_at(self.resources@, i)
    }

    /// The ingress edges of node `i`.
    pub open spec fn ingress(&self, i: int) -> Seq<EdgeModel> {
        ingress_at(self.resources@, i)
    }

    /// Names are unique, every edge joins existing nodes under an existing
    /// recipe, and each edge is listed both at its source and at its target.
    pub open spec fn structure_ok(&self) -> bool {
        &&& self.resource_names().no_duplicates()
        &&& self.recipe_names().no_duplicates()
        &&& forall|i: int, j: int|
            0 <= i < self.resources@.len() && 0 <= j < self.egress(i).len() ==> {
                &&& (#[trigger] self.egress(i)[j]).0 == self.resource_names()[i]
                &&& self.has_resource(self.egress(i)[j].1)
                &&& self.has_recipe(self.egress(i)[j].2)
            }
        &&& forall|i: int, j: int|
            0 <= i < self.resources@.len() && 0 <= j < self.ingress(i).len() ==> {
                &&& (#[trigger] self.ingress(i)[j]).1 == self.resource_names()[i]
                &&& self.has_resource(self.ingress(i)[j].0)
                &&& self.has_recipe(self.ingress(i)[j].2)
            }
        &&& egress_set(self.resources@) == ingress_set(self.resources@)
    }

    /// Every product of every recipe has a node, and so has every source of
    /// a recipe with products.
    pub open spec fn products_registered(&self) -> bool {
        &&& forall|k: int, p: int|
            0 <= k < self.recipes@.len() && 0 <= p < self.recipes@[k]@.products.len()
                ==> self.has_resource(#[trigger] self.recipes@[k]@.products[p])
        &&& forall|k: int, q: int|
            0 <= k < self.recipes@.len() && self.recipes@[k]@.products.len() > 0 && 0 <= q
                < edge_sources(self.recipes@[k]@).len() ==> self.has_resource(
                #[trigger] edge_sources(self.recipes@[k]@)[q],
            )
    }

    /// Every edge is listed as often at its source as at its target: the
    /// egress lists and the ingress lists hold the same multiset of edges.
    pub open spec fn edges_balanced(&self) -> bool {
        egress_bag(self.resources@) == ingress_bag(self.resources@)
    }

    /// The invariant of a graph.
    pub open spec fn well_formed(&self) -> bool {
        &&& self.structure_ok()
        &&& self.products_registered()
    }

    /// An empty graph.
    pub fn new() -> (g: Graph)
        ensures
            g.well_formed(),
            g.edges_balanced(),
            g.resources@.len() == 0,
            g.recipes@.len() == 0,
            g.topological_sort_result@.len() == 0,
    {
        let g = Graph { recipes: Vec::new(), resources: Vec::new(), topological_sort_result: Vec::new() };
        assert(egress_set(g.resources@) =~= Set::empty());
        assert(ingress_set(g.resources@) =~= Set::empty());
        assert(egress_bag(g.resources@) == ingress_bag(g.resources@));
        g
    }

    /// The index of the node named `name`, if there is one.
    pub fn find_resource(&self, name: &String) -> (res: Option<usize>)
        ensures
            match res {
                Some(i) => i < self.resources@.len() && self.resource_names()[i as int] == name@,
                None => !self.has_resource(name@),
            },
    {
        let mut i: usize = 0;
        while i < self.resources.len()
            invariant
                i <= self.resources@.len(),
                forall|k: int| 0 <= k < i ==> self.resource_names()[k] != name@,
            decreases self.resources@.len() - i,
        {
            if self.resources[i].resource_name == *name {
                return Some(i);
            }
            i = i + 1;
        }
        None
    }

    /// The index of the recipe named `name`, if there is one.
    pub fn find_recipe(&self, name: &String) -> (res: Option<usize>)
        ensures
            match res {
                Some(k) => k < self.recipes@.len() && self.recipe_names()[k as int] == name@,
                None => !self.has_recipe(name@),
            },
    {
        let mut k: usize = 0;
        while k < self.recipes.len()
            invariant
                k <= self.recipes@.len(),
                forall|m: int| 0 <= m < k ==> self.recipe_names()[m] != name@,
            decreases self.recipes@.len() - k,
        {
            if self.recipes[k].recipe_name == *name {
                return Some(k);
            }
            k = k + 1;
        }
        None
    }

    /// The node named `name`, added without edges when it is missing.
    /// Returns its index and whether it was added.
    fn add_resource_node(&mut self, name: &String) -> (res: (usize, bool))
        requires
            old(self).structure_ok(),
        ensures
            final(self).structure_ok(),
            final(self).recipes@ == old(self).recipes@,
            final(self).topological_sort_result@ == old(self).topological_sort_result@,
            res.1 == !old(self).has_resource(name@),
            res.1 ==> final(self).resource_names() == old(self).resource_names().push(name@),
            !res.1 ==> final(self).resources@ == old(self).resources@,
            res.0 < final(self).resources@.len(),
            final(self).resource_names()[res.0 as int] == name@,
            res.1 ==> res.0 == old(self).resources@.len() && egress_at(final(self).resources@, res.0 as int)
                == Seq::<EdgeModel>::empty() && ingress_at(final(self).resources@, res.0 as int) == Seq::<EdgeModel>::empty(),
            final(self).resources@.len() == old(self).resources@.len() + if res.1 { 1int } else { 0int },
            forall|i: int|
                0 <= i < old(self).resources@.len() ==> egress_at(final(self).resources@, i)
                    == egress_at(old(self).resources@, i) && ingress_at(final(self).resources@, i)
                    == ingress_at(old(self).resources@, i),
            final(self).edges() == old(self).edges(),
    {
        match self.find_resource(name) {
            Some(i) => (i, false),
            None => {
                let node = ResourceNode {
                    resource_name: name.clone(),
                    ingress_edges: Vec::new(),
                    egress_edges: Vec::new(),
                };
                let ghost before = self.resources@;
                self.resources.push(node);
                proof {
                    lemma_push_bare_node(before, node);
                    assert(self.resource_names() =~= old(self).resource_names().push(name@));
                    assert(egress_at(self.resources@, before.len() as int) =~= Seq::<EdgeModel>::empty());
                    assert(ingress_at(self.resources@, before.len() as int) =~= Seq::<EdgeModel>::empty());
                    assert forall|i: int| 0 <= i < before.len() implies egress_at(self.resources@, i)
                        == egress_at(before, i) && ingress_at(self.resources@, i) == ingress_at(before, i) by {
                        assert(self.resources@[i] == before[i]);
                    }
                    assert forall|x: Seq<char>| old(self).has_resource(x) implies self.has_resource(x) by {
                        lemma_names_grow_contains(old(self).resource_names(), self.resource_names(), x);
                    }
                    assert forall|i: int, j: int|
                        0 <= i < self.resources@.len() && 0 <= j < self.egress(i).len() implies {
                            &&& (#[trigger] self.egress(i)[j]).0 == self.resource_names()[i]
                            &&& self.has_resource(self.egress(i)[j].1)
                            &&& self.has_recipe(self.egress(i)[j].2)
                        } by {
                        assert(i < before.len());
                        assert(old(self).egress(i)[j] == self.egress(i)[j]);
                    }
                    assert forall|i: int, j: int|
                        0 <= i < self.resources@.len() && 0 <= j < self.ingress(i).len() implies {
                            &&& (#[trigger] self.ingress(i)[j]).1 == self.resource_names()[i]
                            &&& self.has_resource(self.ingress(i)[j].0)
                            &&& self.has_recipe(self.ingress(i)[j].2)
                        } by {
                        assert(i < before.len());
                        assert(old(self).ingress(i)[j] == self.ingress(i)[j]);
                    }
                }
                (self.resources.len() - 1, true)
            },
        }
    }

    /// Adds the edge `from_idx -> to_idx` labelled `recipe_name`, at both ends.
    fn push_edge(&mut self, from_idx: usize, to_idx: usize, recipe_name: &String)
        requires
            old(self).structure_ok(),
            from_idx < old(self).resources@.len(),
            to_idx < old(self).resources@.len(),
            old(self).has_recipe(recipe_name@),
        ensures
            final(self).structure_ok(),
            final(self).recipes@ == old(self).recipes@,
            final(self).topological_sort_result@ == old(self).topological_sort_result@,
            final(self).resource_names() == old(self).resource_names(),
            final(self).edges() == old(self).edges().insert(
                (
                    old(self).resource_names()[from_idx as int],
                    old(self).resource_names()[to_idx as int],
                    recipe_name@,
                ),
            ),
            final(self).resources@.len() == old(self).resources@.len(),
            forall|i: int|
                0 <= i < old(self).resources@.len() ==> #[trigger] egress_at(final(self).resources@, i)
                    == if i == from_idx {
                    egress_at(old(self).resources@, i).push(
                        (
                            old(self).resource_names()[from_idx as int],
                            old(self).resource_names()[to_idx as int],
                            recipe_name@,
                        ),
                    )
                } else {
                    egress_at(old(self).resources@, i)
                },
            forall|i: int|
                0 <= i < old(self).resources@.len() ==> #[trigger] ingress_at(final(self).resources@, i)
                    == if i == to_idx {
                    ingress_at(old(self).resources@, i).push(
                        (
                            old(self).resource_names()[from_idx as int],
                            old(self).resource_names()[to_idx as int],
                            recipe_name@,
                        ),
                    )
                } else {
                    ingress_at(old(self).resources@, i)
                },
    {
        let from = self.resources[from_idx].resource_name.clone();
        let to = self.resources[to_idx].resource_name.clone();
        let in_edge = Rc::new(Edge { from, to, recipe_name: recipe_name.clone() });
        let out_edge = share_edge(&in_edge);
        let ghost e: EdgeModel = (
            old(self).resource_names()[from_idx as int],
            old(self).resource_names()[to_idx as int],
            recipe_name@,
        );
        let ghost a = self.resources@;
        self.resources[from_idx].egress_edges.push(out_edge);
        let ghost b = self.resources@;
        proof {
            assert(egress_at(b, from_idx as int) =~= egress_at(a, from_idx as int).push(e));
            assert forall|i: int| 0 <= i < a.len() && i != from_idx implies egress_at(b, i) == egress_at(a, i) by {
                assert(b[i] == a[i]);
            }
            lemma_egress_push(a, b, from_idx as int, e);
            assert forall|i: int| 0 <= i < a.len() implies ingress_at(b, i) == ingress_at(a, i) by {
                if i != from_idx {
                    assert(b[i] == a[i]);
                }
            }
            lemma_ingress_congruent(a, b);
        }
        self.resources[to_idx].ingress_edges.push(in_edge);
        let ghost c = self.resources@;
        proof {
            assert(ingress_at(c, to_idx as int) =~= ingress_at(b, to_idx as int).push(e));
            assert forall|i: int| 0 <= i < b.len() && i != to_idx implies ingress_at(c, i) == ingress_at(b, i) by {
                assert(c[i] == b[i]);
            }
            lemma_ingress_push(b, c, to_idx as int, e);
            assert forall|i: int| 0 <= i < b.len() implies egress_at(c, i) == egress_at(b, i) by {
                if i != to_idx {
                    assert(c[i] == b[i]);
                }
            }
            lemma_egress_congruent(b, c);
            assert(node_names(c) =~= node_names(a));
            assert forall|i: int| 0 <= i < a.len() implies #[trigger] egress_at(c, i) == if i == from_idx {
                egress_at(a, i).push(e)
            } else {
                egress_at(a, i)
            } by {
                assert(egress_at(c, i) == egress_at(b, i));
                if i != from_idx {
                    assert(b[i] == a[i]);
                }
            }
            assert forall|i: int| 0 <= i < a.len() implies #[trigger] ingress_at(c, i) == if i == to_idx {
                ingress_at(a, i).push(e)
            } else {
                ingress_at(a, i)
            } by {
                assert(ingress_at(b, i) == ingress_at(a, i));
                if i != to_idx {
                    assert(c[i] == b[i]);
                }
            }
            // the per-edge conditions
            assert forall|i: int, j: int|
                0 <= i < c.len() && 0 <= j < egress_at(c, i).len() implies {
                    &&& (#[trigger] egress_at(c, i)[j]).0 == node_names(c)[i]
                    &&& self.has_resource(egress_at(c, i)[j].1)
                    &&& self.has_recipe(egress_at(c, i)[j].2)
                } by {
                assert(self.resource_names() == old(self).resource_names());
                assert(self.recipe_names() == old(self).recipe_names());
                if i == from_idx && j == egress_at(a, i).len() {
                    assert(egress_at(c, i)[j] == e);
                    assert(self.resource_names()[to_idx as int] == e.1);
                } else {
                    assert(egress_at(c, i)[j] == old(self).egress(i)[j]);
                }
            }
            assert forall|i: int, j: int|
                0 <= i < c.len() && 0 <= j < ingress_at(c, i).len() implies {
                    &&& (#[trigger] ingress_at(c, i)[j]).1 == node_names(c)[i]
                    &&& self.has_resource(ingress_at(c, i)[j].0)
                    &&& self.has_recipe(ingress_at(c, i)[j].2)
                } by {
                assert(self.resource_names() == old(self).resource_names());
                assert(self.recipe_names() == old(self).recipe_names());
                if i == to_idx && j == ingress_at(a, i).len() {
                    assert(ingress_at(c, i)[j] == e);
                    assert(self.resource_names()[from_idx as int] == e.0);
                } else {
                    assert(ingress_at(c, i)[j] == old(self).ingress(i)[j]);
                }
            }
        }
    }

    /// Under unique names, the recipe stored at index `k` is the one found by its name.
    pub proof fn lemma_recipe_of(&self, k: int)
        requires
            self.recipe_names().no_duplicates(),
            0 <= k < self.recipes@.len(),
        ensures
            self.has_recipe(self.recipes@[k].recipe_name@),
            self.recipe_of(self.recipes@[k].recipe_name@) == self.recipes@[k]@,
    {
        let name = self.recipes@[k].recipe_name@;
        assert(self.recipe_names()[k] == name);
        assert(exists|k2: int| 0 <= k2 < self.recipes@.len() && self.recipes@[k2].recipe_name@ == name);
        let k2 = self.recipe_index(name);
        assert(self.recipe_names()[k2] == name);
        assert(k2 == k);
        assert(self.recipe_of(name) == self.recipes@[k2]@);
    }

    /// Stores `recipe`, replacing the recipe of the same name if there is one.
    fn store_recipe(&mut self, recipe: &Recipe)
        requires
            old(self).structure_ok(),
        ensures
            final(self).structure_ok(),
            final(self).resources@ == old(self).resources@,
            final(self).topological_sort_result@ == old(self).topological_sort_result@,
            final(self).has_recipe(recipe@.name),
            final(self).recipe_map() == old(self).recipe_map().insert(recipe@.name, recipe@),
            forall|k: int|
                0 <= k < final(self).recipes@.len() ==> final(self).recipes@[k]@ == recipe@ || (k
                    < old(self).recipes@.len() && final(self).recipes@[k] == old(self).recipes@[k]),
    {
        let copy = recipe.duplicate();
        let ghost before = *self;
        match self.find_recipe(&recipe.recipe_name) {
            Some(k) => {
                self.recipes.set(k, copy);
                proof {
                    assert(self.recipe_names() =~= before.recipe_names());
                    assert(self.recipe_names()[k as int] == recipe@.name);
                }
            },
            None => {
                self.recipes.push(copy);
                proof {
                    assert(self.recipe_names() =~= before.recipe_names().push(recipe@.name));
                    assert(self.recipe_names()[before.recipes@.len() as int] == recipe@.name);
                }
            },
        }
        proof {
            assert forall|x: Seq<char>| before.has_recipe(x) implies self.has_recipe(x) by {
                let k = choose|k: int| 0 <= k < before.recipes@.len() && before.recipe_names()[k] == x;
                assert(self.recipe_names()[k] == x || self.recipe_names()[k] == recipe@.name);
            }
            assert forall|i: int, j: int|
                0 <= i < self.resources@.len() && 0 <= j < self.egress(i).len() implies {
                    &&& (#[trigger] self.egress(i)[j]).0 == self.resource_names()[i]
                    &&& self.has_resource(self.egress(i)[j].1)
                    &&& self.has_recipe(self.egress(i)[j].2)
                } by {
                assert(before.egress(i)[j] == self.egress(i)[j]);
            }
            assert forall|i: int, j: int|
                0 <= i < self.resources@.len() && 0 <= j < self.ingress(i).len() implies {
                    &&& (#[trigger] self.ingress(i)[j]).1 == self.resource_names()[i]
                    &&& self.has_resource(self.ingress(i)[j].0)
                    &&& self.has_recipe(self.ingress(i)[j].2)
                } by {
                assert(before.ingress(i)[j] == self.ingress(i)[j]);
            }
            // the map of recipes
            let target = before.recipe_map().insert(recipe@.name, recipe@);
            assert forall|x: Seq<char>| self.recipe_map().dom().contains(x) <==> target.dom().contains(x) by {
                if self.has_recipe(x) && x != recipe@.name {
                    let k = choose|k: int| 0 <= k < self.recipes@.len() && self.recipe_names()[k] == x;
                    assert(self.recipes@[k]@ == recipe@ || self.recipes@[k] == before.recipes@[k]);
                    assert(before.recipe_names()[k] == x);
                }
                assert(self.recipe_map().dom().contains(x) == self.has_recipe(x));
                assert(target.dom().contains(x) == (before.has_recipe(x) || x == recipe@.name));
            }
            assert forall|x: Seq<char>| #[trigger] self.recipe_map().dom().contains(x) implies self.recipe_map()[x] == target[x] by {
                let k = choose|k: int| 0 <= k < self.recipes@.len() && self.recipe_names()[k] == x;
                self.lemma_recipe_of(k);
                if x != recipe@.name {
                    assert(self.recipes@[k] == before.recipes@[k]);
                    before.lemma_recipe_of(k);
                }
            }
            assert(self.recipe_map() =~= target);
        }
    }

    /// Adds `recipe` to the graph (replacing a recipe of the same name), a node
    /// for each of its products and sources, and an edge from each source to
    /// each product.
    pub fn add_recipe(&mut self, recipe: &Recipe)
        requires
            old(self).well_formed(),
        ensures
            final(self).well_formed(),
            final(self).recipe_map() == old(self).recipe_map().insert(recipe@.name, recipe@),
            names_grow(old(self).resource_names(), final(self).resource_names()),
            final(self).resource_names().to_set() == old(self).resource_names().to_set().union(
                added_resources(recipe@),
            ),
            final(self).edges() == old(self).edges().union(added_edges(recipe@)),
            lists_extend(old(self).resources@, final(self).resources@, new_edges(recipe@)),
            endpoints_known(final(self).resources@, new_edges(recipe@)),
            egress_bag(final(self).resources@) == egress_bag(old(self).resources@).add(new_edges(recipe@).to_multiset()),
            ingress_bag(final(self).resources@) == ingress_bag(old(self).resources@).add(new_edges(recipe@).to_multiset()),
            old(self).edges_balanced() ==> final(self).edges_balanced(),
            final(self).topological_sort_result@ == old(self).topological_sort_result@,
    {
        proof {
            let o = old(self).resources@;
            assert forall|i: int| 0 <= i < o.len() implies #[trigger] egress_at(o, i) == base_egress(o, i) + edges_from(
                created_edges(recipe@, 0, 0), node_names(o)[i]) by {
                assert(egress_at(o, i) =~= base_egress(o, i) + edges_from(created_edges(recipe@, 0, 0), node_names(o)[i]));
            }
            assert forall|i: int| 0 <= i < o.len() implies #[trigger] ingress_at(o, i) == base_ingress(o, i) + edges_to(
                created_edges(recipe@, 0, 0), node_names(o)[i]) by {
                assert(ingress_at(o, i) =~= base_ingress(o, i) + edges_to(created_edges(recipe@, 0, 0), node_names(o)[i]));
            }
        }
        self.store_recipe(recipe);
        let ghost stored = self.recipes@;
        let sources: Vec<String> = if recipe.resources.len() == 0 {
            let mut v: Vec<String> = Vec::new();
            v.push(String::from_str(WORLD_ROOT));
            proof {
                reveal_strlit("world_root");
                assert(WORLD_ROOT@ =~= world_root_name());
                assert(names_of(v@) =~= seq![world_root_name()]);
            }
            v
        } else {
            crate::recipe::copy_names(&recipe.resources)
        };
        let ghost src = names_of(sources@);
        let ghost prods = recipe@.products;
        let ghost name = recipe@.name;
        assert(src == edge_sources(recipe@));
        let mut p: usize = 0;
        while p < recipe.products.len()
            invariant
                self.structure_ok(),
                self.recipes@ == stored,
                self.has_recipe(name),
                self.topological_sort_result@ == old(self).topological_sort_result@,
                names_grow(old(self).resource_names(), self.resource_names()),
                p <= prods.len(),
                prods == recipe@.products,
                src == names_of(sources@),
                src == edge_sources(recipe@),
                name == recipe.recipe_name@,
                forall|x: Seq<char>| #[trigger] self.has_resource(x) <==> (old(self).has_resource(x)
                    || prods.take(p as int).contains(x) || (p > 0 && src.contains(x))),
                forall|e: EdgeModel| #[trigger] self.edges().contains(e) <==> (old(self).edges().contains(e)
                    || (src.contains(e.0) && prods.take(p as int).contains(e.1) && e.2 == name)),
                lists_extend(old(self).resources@, self.resources@, created_edges(recipe@, p as int, 0)),
                endpoints_known(self.resources@, created_edges(recipe@, p as int, 0)),
            decreases prods.len() - p,
        {
            let product = &recipe.products[p];
            let ghost before_p = *self;
            let (to_idx, _) = self.add_resource_node(product);
            proof {
                lemma_lists_new_node(old(self).resources@, before_p.resources@, self.resources@, created_edges(recipe@, p as int, 0));
                assert(created_edges(recipe@, p as int, 0) == created_edges(recipe@, p as int, 0));
                assert(prods[p as int] == product@);
                assert forall|x: Seq<char>| #[trigger] self.has_resource(x) <==> (before_p.has_resource(x) || x == product@) by {
                    if before_p.has_resource(x) {
                        lemma_names_grow_contains(before_p.resource_names(), self.resource_names(), x);
                    }
                    if self.has_resource(x) && x != product@ {
                        let i = choose|i: int| 0 <= i < self.resource_names().len() && self.resource_names()[i] == x;
                        if i < before_p.resource_names().len() {
                            assert(before_p.resource_names()[i] == x);
                        } else {
                            assert(self.resource_names() == before_p.resource_names().push(product@));
                        }
                    }
                }
                assert(names_grow(before_p.resource_names(), self.resource_names()));
                lemma_names_grow_trans(old(self).resource_names(), before_p.resource_names(), self.resource_names());
                assert(prods.take(p + 1) =~= prods.take(p as int).push(product@));
                assert(src.take(0) =~= Seq::<Seq<char>>::empty());
                assert forall|x: Seq<char>| #[trigger] self.has_resource(x) <==> (old(self).has_resource(x)
                    || prods.take(p + 1).contains(x) || src.take(0).contains(x) || (p > 0 && src.contains(x))) by {
                    lemma_push_contains(prods.take(p as int), product@, x);
                }
            }
            let mut s: usize = 0;
            while s < sources.len()
                invariant
                    self.structure_ok(),
                    self.recipes@ == stored,
                    self.has_recipe(name),
                    self.topological_sort_result@ == old(self).topological_sort_result@,
                    names_grow(old(self).resource_names(), self.resource_names()),
                    p < prods.len(),
                    prods == recipe@.products,
                    src == names_of(sources@),
                    src == edge_sources(recipe@),
                    name == recipe.recipe_name@,
                    product@ == prods[p as int],
                    s <= src.len(),
                    to_idx < self.resources@.len(),
                    self.resource_names()[to_idx as int] == product@,
                    prods.take(p + 1) == prods.take(p as int).push(product@),
                    forall|x: Seq<char>| #[trigger] self.has_resource(x) <==> (old(self).has_resource(x)
                        || prods.take(p + 1).contains(x) || src.take(s as int).contains(x) || (p > 0 && src.contains(x))),
                    forall|e: EdgeModel| #[trigger] self.edges().contains(e) <==> (old(self).edges().contains(e)
                        || (src.contains(e.0) && prods.take(p as int).contains(e.1) && e.2 == name)
                        || (src.take(s as int).contains(e.0) && e.1 == product@ && e.2 == name)),
                    lists_extend(old(self).resources@, self.resources@, created_edges(recipe@, p as int, s as int)),
                    endpoints_known(self.resources@, created_edges(recipe@, p as int, s as int)),
                    self.resource_names().no_duplicates(),
                decreases src.len() - s,
            {
                let ghost before_s = *self;
                let (from_idx, _) = self.add_resource_node(&sources[s]);
                proof {
                    lemma_lists_new_node(old(self).resources@, before_s.resources@, self.resources@, created_edges(recipe@, p as int, s as int));
                    let sname = sources@[s as int]@;
                    assert(src[s as int] == sname);
                    assert(src.take(s + 1) =~= src.take(s as int).push(sname));
                    assert forall|x: Seq<char>| #[trigger] self.has_resource(x) <==> (before_s.has_resource(x) || x == sname) by {
                        if before_s.has_resource(x) {
                            lemma_names_grow_contains(before_s.resource_names(), self.resource_names(), x);
                        }
                        if self.has_resource(x) && x != sname {
                            let i = choose|i: int| 0 <= i < self.resource_names().len() && self.resource_names()[i] == x;
                            if i < before_s.resource_names().len() {
                                assert(before_s.resource_names()[i] == x);
                            } else {
                                assert(self.resource_names() == before_s.resource_names().push(sname));
                            }
                        }
                    }
                    assert(names_grow(before_s.resource_names(), self.resource_names()));
                    lemma_names_grow_trans(old(self).resource_names(), before_s.resource_names(), self.resource_names());
                }
                let ghost before_e = *self;
                self.push_edge(from_idx, to_idx, &recipe.recipe_name);
                proof {
                    let sname = sources@[s as int]@;
                    let e: EdgeModel = (sname, product@, name);
                    assert(before_e.resource_names()[to_idx as int] == product@);
                    lemma_lists_new_edge(old(self).resources@, before_e.resources@, self.resources@,
                        created_edges(recipe@, p as int, s as int), from_idx as int, to_idx as int, e);
                    assert(src[s as int] == sname);
                    assert(created_edges(recipe@, p as int, s + 1) == created_edges(recipe@, p as int, s as int).push(e));
                    assert forall|x: Seq<char>| #[trigger] self.has_resource(x) <==> before_e.has_resource(x) by {
                    }
                    assert(before_e.resource_names()[from_idx as int] == sname);
                    assert forall|x: Seq<char>| #[trigger] self.has_resource(x) <==> (old(self).has_resource(x)
                        || prods.take(p + 1).contains(x) || src.take(s + 1).contains(x) || (p > 0 && src.contains(x))) by {
                        lemma_push_contains(src.take(s as int), sname, x);
                    }
                    assert forall|e: EdgeModel| #[trigger] self.edges().contains(e) <==> (old(self).edges().contains(e)
                        || (src.contains(e.0) && prods.take(p as int).contains(e.1) && e.2 == name)
                        || (src.take(s + 1).contains(e.0) && e.1 == product@ && e.2 == name)) by {
                        lemma_push_contains(src.take(s as int), sname, e.0);
                        assert(before_e.edges().contains(e) == before_s.edges().contains(e));
                    }
                }
                s = s + 1;
            }
            proof {
                assert(created_edges(recipe@, p + 1, 0) == created_edges(recipe@, p as int, src.len() as int));
                assert(src.take(src.len() as int) =~= src);
                assert forall|e: EdgeModel| #[trigger] self.edges().contains(e) <==> (old(self).edges().contains(e)
                    || (src.contains(e.0) && prods.take(p + 1).contains(e.1) && e.2 == name)) by {
                    lemma_push_contains(prods.take(p as int), product@, e.1);
                }
                assert forall|x: Seq<char>| #[trigger] self.has_resource(x) <==> (old(self).has_resource(x)
                    || prods.take(p + 1).contains(x) || (p + 1 > 0 && src.contains(x))) by {
                }
            }
            p = p + 1;
        }
        proof {
            assert(prods.take(prods.len() as int) =~= prods);
            let r = recipe@;
            lemma_bags_extend(old(self).resources@, self.resources@, new_edges(r));
            assert forall|x: Seq<char>| #[trigger] self.resource_names().to_set().contains(x) <==> old(self).resource_names().to_set().union(added_resources(r)).contains(x) by {
                assert(self.resource_names().to_set().contains(x) == self.has_resource(x));
                assert(old(self).resource_names().to_set().contains(x) == old(self).has_resource(x));
                if prods.len() == 0 {
                    assert(prods.take(p as int) =~= Seq::<Seq<char>>::empty());
                }
            }
            assert(self.resource_names().to_set() =~= old(self).resource_names().to_set().union(added_resources(r)));
            assert(self.edges() =~= old(self).edges().union(added_edges(r)));
            // every product of every stored recipe has a node
            assert forall|k: int, q: int|
                0 <= k < self.recipes@.len() && 0 <= q < self.recipes@[k]@.products.len()
                    implies self.has_resource(#[trigger] self.recipes@[k]@.products[q]) by {
                if self.recipes@[k]@ == r {
                    assert(prods.take(p as int).contains(prods[q]));
                } else {
                    assert(old(self).has_resource(old(self).recipes@[k]@.products[q]));
                }
            }
            assert forall|k: int, q: int|
                0 <= k < self.recipes@.len() && self.recipes@[k]@.products.len() > 0 && 0 <= q
                    < edge_sources(self.recipes@[k]@).len() implies self.has_resource(
                    #[trigger] edge_sources(self.recipes@[k]@)[q]) by {
                if self.recipes@[k]@ == r {
                    assert(src.contains(src[q]));
                } else {
                    assert(old(self).has_resource(edge_sources(old(self).recipes@[k]@)[q]));
                }
            }
        }
    }
}

} // verus!
