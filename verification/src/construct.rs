//! Building graphs: from a list of recipes, and as the part of a graph that
//! a selection of its recipes spans.

use crate::graph::{
    added_edges, added_resources, endpoints_known, lemma_lists_extend_trans, lists_extend, new_edges, Graph,
};
use crate::recipe::{edge_sources, names_of, EdgeModel, Recipe, RecipeModel, ResourceNode};
use crate::topo::{unset, valid_times};
use vstd::prelude::*;

verus! {

/// The resources that the recipes named in `names` (recipes of `g`) bring.
pub open spec fn selected_resources(g: &Graph, names: Seq<Seq<char>>) -> Set<Seq<char>> {
    Set::new(
        |x: Seq<char>|
            exists|k: int| 0 <= k < names.len() && #[trigger] added_resources(g.recipe_of(names[k])).contains(x),
    )
}

/// The edges that the recipes named in `names` (recipes of `g`) bring.
pub open spec fn selected_edges(g: &Graph, names: Seq<Seq<char>>) -> Set<EdgeModel> {
    Set::new(
        |e: EdgeModel|
            exists|k: int| 0 <= k < names.len() && #[trigger] added_edges(g.recipe_of(names[k])).contains(e),
    )
}

/// The edges that adding the recipes named in `names` (recipes of `g`), one
/// after the other, creates, in order of creation.
pub open spec fn selection_edges(g: &Graph, names: Seq<Seq<char>>) -> Seq<EdgeModel>
    decreases names.len(),
{
    if names.len() == 0 {
        Seq::empty()
    } else {
        selection_edges(g, names.drop_last()) + new_edges(g.recipe_of(names.last()))
    }
}

/// The edges that adding, among the first `n` recipes of `rs`, the last one
/// of each name creates, in order of creation.
pub open spec fn kept_edges(rs: Seq<Recipe>, n: int) -> Seq<EdgeModel>
    decreases n,
{
    if n <= 0 {
        Seq::empty()
    } else if last_of_name(rs, n - 1) {
        kept_edges(rs, n - 1) + new_edges(rs[n - 1]@)
    } else {
        kept_edges(rs, n - 1)
    }
}

/// A list of names without repeats, each naming a resource of `g`, is no
/// longer than the list of nodes of `g`.
pub proof fn lemma_names_within(g: &Graph, p: Seq<Seq<char>>)
    requires
        p.no_duplicates(),
        forall|x: Seq<char>| #[trigger] p.contains(x) ==> g.has_resource(x),
    ensures
        p.len() <= g.resources@.len(),
{
    p.unique_seq_to_set();
    g.resource_names().lemma_cardinality_of_set();
    assert forall|x: Seq<char>| p.to_set().contains(x) implies g.resource_names().to_set().contains(
        x,
    ) by {
        assert(p.contains(x));
    }
    vstd::set_lib::lemma_len_subset(p.to_set(), g.resource_names().to_set());
}

/// Recipe `i` is the last one in `rs` with its name.
pub open spec fn last_of_name(rs: Seq<Recipe>, i: int) -> bool {
    forall|j: int| i < j < rs.len() ==> (#[trigger] rs[j]).recipe_name@ != rs[i].recipe_name@
}

/// The recipes of `rs` by name, a later recipe replacing an earlier one of the same name.
pub open spec fn recipes_by_name(rs: Seq<Recipe>) -> Map<Seq<char>, RecipeModel> {
    Map::new(
        |name: Seq<char>| exists|i: int| 0 <= i < rs.len() && last_of_name(rs, i) && #[trigger] rs[i].recipe_name@ == name,
        |name: Seq<char>|
            rs[choose|i: int| 0 <= i < rs.len() && last_of_name(rs, i) && #[trigger] rs[i].recipe_name@ == name]@,
    )
}

/// The resources that the recipes of `rs` bring (the last of each name).
pub open spec fn resources_of_recipes(rs: Seq<Recipe>) -> Set<Seq<char>> {
    Set::new(
        |x: Seq<char>|
            exists|i: int| 0 <= i < rs.len() && last_of_name(rs, i) && #[trigger] added_resources(rs[i]@).contains(x),
    )
}

/// The edges that the recipes of `rs` bring (the last of each name).
pub open spec fn edges_of_recipes(rs: Seq<Recipe>) -> Set<EdgeModel> {
    Set::new(
        |e: EdgeModel|
            exists|i: int| 0 <= i < rs.len() && last_of_name(rs, i) && #[trigger] added_edges(rs[i]@).contains(e),
    )
}

/// An upper bound on the number of resources the recipes of `rs` can bring.
pub open spec fn total_names(rs: Seq<Recipe>) -> nat
    decreases rs.len(),
{
    if rs.len() == 0 {
        0
    } else {
        total_names(rs.drop_last()) + rs.last()@.products.len() + edge_sources(rs.last()@).len()
    }
}

/// The bound grows with the list.
pub proof fn lemma_total_names_prefix(rs: Seq<Recipe>, i: int)
    requires
        0 <= i < rs.len(),
    ensures
        total_names(rs.take(i + 1)) == total_names(rs.take(i)) + rs[i]@.products.len()
            + edge_sources(rs[i]@).len(),
        total_names(rs.take(i + 1)) <= total_names(rs),
    decreases rs.len(),
{
    assert(rs.take(i + 1).drop_last() =~= rs.take(i));
    if i + 1 < rs.len() {
        lemma_total_names_prefix(rs.drop_last(), i);
        assert(rs.drop_last().take(i + 1) =~= rs.take(i + 1));
        assert(rs.drop_last().take(i) =~= rs.take(i));
    } else {
        assert(rs.take(i + 1) =~= rs);
    }
}

/// The resources a recipe brings are no more than its products and sources.
pub proof fn lemma_added_resources_bound(r: RecipeModel)
    ensures
        added_resources(r).finite(),
        added_resources(r).len() <= r.products.len() + edge_sources(r).len(),
{
    if r.products.len() == 0 {
    } else {
        vstd::seq_lib::seq_to_set_is_finite(r.products);
        vstd::seq_lib::seq_to_set_is_finite(edge_sources(r));
        r.products.lemma_cardinality_of_set();
        edge_sources(r).lemma_cardinality_of_set();
        vstd::set_lib::lemma_len_union(r.products.to_set(), edge_sources(r).to_set());
    }
}

impl Graph {
    /// A graph of the recipes of `self` named in `selected_recipes`, with
    /// its traversal times computed. The recipes are added in the order given,
    /// so each node lists the edges that leave (enter) it in that order.
    pub fn select(&self, selected_recipes: &Vec<String>) -> (g: Graph)
        requires
            self.well_formed(),
            2 * self.resources@.len() < unset(),
            forall|k: int| 0 <= k < selected_recipes@.len() ==> self.has_recipe(#[trigger] selected_recipes@[k]@),
        ensures
            g.well_formed(),
            g.edges_balanced(),
            g.recipe_map() == self.recipe_map().restrict(names_of(selected_recipes@).to_set()),
            g.resource_names().to_set() == selected_resources(self, names_of(selected_recipes@)),
            g.edges() == selected_edges(self, names_of(selected_recipes@)),
            lists_extend(Seq::<ResourceNode>::empty(), g.resources@, selection_edges(self, names_of(selected_recipes@))),
            valid_times(&g, g.topological_sort_result@),
    {
        let ghost names = names_of(selected_recipes@);
        let mut g = Graph::new();
        assert(selection_edges(self, names.take(0)) =~= Seq::<EdgeModel>::empty());
        proof {
            assert(g.recipe_map() =~= self.recipe_map().restrict(names.take(0).to_set()));
            assert(g.resource_names().to_set() =~= selected_resources(self, names.take(0)));
            assert(g.edges() =~= selected_edges(self, names.take(0)));
        }
        let mut i: usize = 0;
        while i < selected_recipes.len()
            invariant
                self.well_formed(),
                2 * self.resources@.len() < unset(),
                names == names_of(selected_recipes@),
                forall|k: int| 0 <= k < selected_recipes@.len() ==> self.has_recipe(#[trigger] selected_recipes@[k]@),
                i <= names.len(),
                g.well_formed(),
                g.edges_balanced(),
                g.recipe_map() == self.recipe_map().restrict(names.take(i as int).to_set()),
                g.resource_names().to_set() == selected_resources(self, names.take(i as int)),
                g.edges() == selected_edges(self, names.take(i as int)),
                lists_extend(Seq::<ResourceNode>::empty(), g.resources@, selection_edges(self, names.take(i as int))),
                endpoints_known(g.resources@, selection_edges(self, names.take(i as int))),
                forall|x: Seq<char>| #[trigger] g.has_resource(x) ==> self.has_resource(x),
            decreases names.len() - i,
        {
            let k = match self.find_recipe(&selected_recipes[i]) {
                Some(k) => k,
                None => {
                    proof {
                        assert(self.has_recipe(selected_recipes@[i as int]@));
                    }
                    return g;
                },
            };
            let ghost name = names[i as int];
            proof {
                self.lemma_recipe_of(k as int);
                assert(self.recipes@[k as int].recipe_name@ == name);
            }
            let ghost before = g;
            g.add_recipe(&self.recipes[k]);
            proof {
                let r = self.recipe_of(name);
                // edge lists, in order
                assert(names.take(i + 1).drop_last() =~= names.take(i as int));
                assert(names.take(i + 1).last() == name);
                assert(selection_edges(self, names.take(i + 1)) == selection_edges(self, names.take(i as int)) + new_edges(r));
                lemma_lists_extend_trans(Seq::<ResourceNode>::empty(), before.resources@, g.resources@,
                    selection_edges(self, names.take(i as int)), new_edges(r));
                assert(names.take(i + 1) =~= names.take(i as int).push(name));
                // recipes
                let keys = names.take(i as int).to_set();
                crate::coverage::lemma_push_to_set(names.take(i as int), name);
                assert(g.recipe_map() =~= self.recipe_map().restrict(names.take(i + 1).to_set()));
                // resources
                assert forall|x: Seq<char>| g.resource_names().to_set().contains(x) <==> selected_resources(self, names.take(i + 1)).contains(x) by {
                    if selected_resources(self, names.take(i + 1)).contains(x) {
                        let m = choose|m: int| 0 <= m < names.take(i + 1).len() && #[trigger] added_resources(self.recipe_of(names.take(i + 1)[m])).contains(x);
                        if m < i {
                            assert(names.take(i as int)[m] == names.take(i + 1)[m]);
                            assert(selected_resources(self, names.take(i as int)).contains(x));
                        }
                    }
                    if before.resource_names().to_set().contains(x) {
                        let m = choose|m: int| 0 <= m < names.take(i as int).len() && #[trigger] added_resources(self.recipe_of(names.take(i as int)[m])).contains(x);
                        assert(names.take(i + 1)[m] == names.take(i as int)[m]);
                    }
                    if added_resources(r).contains(x) {
                        assert(names.take(i + 1)[i as int] == name);
                    }
                }
                assert(g.resource_names().to_set() =~= selected_resources(self, names.take(i + 1)));
                // edges
                assert forall|e: EdgeModel| g.edges().contains(e) <==> selected_edges(self, names.take(i + 1)).contains(e) by {
                    if selected_edges(self, names.take(i + 1)).contains(e) {
                        let m = choose|m: int| 0 <= m < names.take(i + 1).len() && #[trigger] added_edges(self.recipe_of(names.take(i + 1)[m])).contains(e);
                        if m < i {
                            assert(names.take(i as int)[m] == names.take(i + 1)[m]);
                            assert(selected_edges(self, names.take(i as int)).contains(e));
                        }
                    }
                    if before.edges().contains(e) {
                        let m = choose|m: int| 0 <= m < names.take(i as int).len() && #[trigger] added_edges(self.recipe_of(names.take(i as int)[m])).contains(e);
                        assert(names.take(i + 1)[m] == names.take(i as int)[m]);
                    }
                    if added_edges(r).contains(e) {
                        assert(names.take(i + 1)[i as int] == name);
                    }
                }
                assert(g.edges() =~= selected_edges(self, names.take(i + 1)));
                // every node of g is a node of self
                assert forall|x: Seq<char>| #[trigger] g.has_resource(x) implies self.has_resource(x) by {
                    assert(g.resource_names().to_set().contains(x));
                    if !before.has_resource(x) {
                        assert(before.resource_names().to_set().contains(x) == before.has_resource(x));
                        assert(added_resources(r).contains(x));
                        assert(r.products.len() > 0);
                        if r.products.contains(x) {
                            let p = choose|p: int| 0 <= p < r.products.len() && r.products[p] == x;
                            assert(self.has_resource(self.recipes@[k as int]@.products[p]));
                        } else {
                            let q = choose|q: int| 0 <= q < edge_sources(r).len() && edge_sources(r)[q] == x;
                            assert(self.has_resource(edge_sources(self.recipes@[k as int]@)[q]));
                        }
                    }
                }
            }
            i = i + 1;
        }
        proof {
            assert(names.take(names.len() as int) =~= names);
            assert forall|x: Seq<char>| #[trigger] g.resource_names().contains(x) implies self.has_resource(x) by {
                assert(g.has_resource(x));
            }
            lemma_names_within(self, g.resource_names());
        }
        g.topological_sort();
        g
    }

    /// A graph of `recipes` (a later recipe replacing an earlier one of the
    /// same name), with its traversal times computed. Only the last recipe
    /// of each name adds edges, each once, in list order.
    pub fn from_recipes(recipes: &Vec<Recipe>) -> (g: Graph)
        requires
            2 * total_names(recipes@) < unset(),
        ensures
            g.well_formed(),
            g.edges_balanced(),
            g.recipe_map() == recipes_by_name(recipes@),
            g.resource_names().to_set() == resources_of_recipes(recipes@),
            g.edges() == edges_of_recipes(recipes@),
            lists_extend(Seq::<ResourceNode>::empty(), g.resources@, kept_edges(recipes@, recipes@.len() as int)),
            valid_times(&g, g.topological_sort_result@),
    {
        let ghost rs = recipes@;
        let n = recipes.len();
        let mut g = Graph::new();
        proof {
            assert(g.resource_names().to_set() =~= Set::<Seq<char>>::empty());
            assert(g.edges() =~= Set::<EdgeModel>::empty());
            assert(g.recipe_map() =~= Map::<Seq<char>, RecipeModel>::empty());
        }
        let mut i: usize = 0;
        while i < n
            invariant
                rs == recipes@,
                n == rs.len(),
                i <= n,
                2 * total_names(rs) < unset(),
                g.well_formed(),
                g.edges_balanced(),
                g.resources@.len() <= total_names(rs.take(i as int)),
                forall|name: Seq<char>| #[trigger] g.recipe_map().dom().contains(name) <==> exists|m: int|
                    0 <= m < i && last_of_name(rs, m) && #[trigger] rs[m].recipe_name@ == name,
                forall|m: int| 0 <= m < i && last_of_name(rs, m) ==> #[trigger] g.recipe_map()[rs[m].recipe_name@] == rs[m]@,
                forall|x: Seq<char>| #[trigger] g.resource_names().to_set().contains(x) <==> exists|m: int|
                    0 <= m < i && last_of_name(rs, m) && #[trigger] added_resources(rs[m]@).contains(x),
                forall|e: EdgeModel| #[trigger] g.edges().contains(e) <==> exists|m: int|
                    0 <= m < i && last_of_name(rs, m) && #[trigger] added_edges(rs[m]@).contains(e),
                lists_extend(Seq::<ResourceNode>::empty(), g.resources@, kept_edges(rs, i as int)),
                endpoints_known(g.resources@, kept_edges(rs, i as int)),
            decreases n - i,
        {
            // a recipe is replaced by a later one of the same name
            let mut later = false;
            let mut j: usize = i + 1;
            while j < n
                invariant
                    rs == recipes@,
                    n == rs.len(),
                    i < n,
                    i + 1 <= j <= n,
                    later == exists|m: int| i < m < j && (#[trigger] rs[m]).recipe_name@ == rs[i as int].recipe_name@,
                decreases n - j,
            {
                if recipes[j].recipe_name == recipes[i].recipe_name {
                    later = true;
                }
                j = j + 1;
            }
            proof {
                lemma_total_names_prefix(rs, i as int);
                assert(last_of_name(rs, i as int) == !later);
            }
            if !later {
                let ghost before = g;
                g.add_recipe(&recipes[i]);
                proof {
                    let r = rs[i as int]@;
                    // edge lists, in order
                    assert(kept_edges(rs, i + 1) == kept_edges(rs, i as int) + new_edges(r));
                    lemma_lists_extend_trans(Seq::<ResourceNode>::empty(), before.resources@, g.resources@,
                        kept_edges(rs, i as int), new_edges(r));
                    // size
                    lemma_added_resources_bound(r);
                    vstd::seq_lib::seq_to_set_is_finite(before.resource_names());
                    before.resource_names().unique_seq_to_set();
                    g.resource_names().unique_seq_to_set();
                    vstd::set_lib::lemma_len_union(before.resource_names().to_set(), added_resources(r));
                    // recipes
                    assert forall|name: Seq<char>| #[trigger] g.recipe_map().dom().contains(name) <==> exists|m: int|
                        0 <= m < i + 1 && last_of_name(rs, m) && #[trigger] rs[m].recipe_name@ == name by {
                        if exists|m: int| 0 <= m < i + 1 && last_of_name(rs, m) && #[trigger] rs[m].recipe_name@ == name {
                            let m = choose|m: int| 0 <= m < i + 1 && last_of_name(rs, m) && #[trigger] rs[m].recipe_name@ == name;
                            if m < i {
                                assert(before.recipe_map().dom().contains(name));
                            }
                        }
                        if before.recipe_map().dom().contains(name) {
                            let m = choose|m: int| 0 <= m < i && last_of_name(rs, m) && #[trigger] rs[m].recipe_name@ == name;
                            assert(0 <= m < i + 1);
                        }
                    }
                    assert forall|m: int| 0 <= m < i + 1 && last_of_name(rs, m) implies #[trigger] g.recipe_map()[rs[m].recipe_name@] == rs[m]@ by {
                        if m < i {
                            assert(rs[m].recipe_name@ != rs[i as int].recipe_name@);
                        }
                    }
                    assert forall|x: Seq<char>| #[trigger] g.resource_names().to_set().contains(x) <==> exists|m: int|
                        0 <= m < i + 1 && last_of_name(rs, m) && #[trigger] added_resources(rs[m]@).contains(x) by {
                        if exists|m: int| 0 <= m < i + 1 && last_of_name(rs, m) && #[trigger] added_resources(rs[m]@).contains(x) {
                            let m = choose|m: int| 0 <= m < i + 1 && last_of_name(rs, m) && #[trigger] added_resources(rs[m]@).contains(x);
                            if m < i {
                                assert(before.resource_names().to_set().contains(x));
                            }
                        }
                        if before.resource_names().to_set().contains(x) {
                            let m = choose|m: int| 0 <= m < i && last_of_name(rs, m) && #[trigger] added_resources(rs[m]@).contains(x);
                            assert(0 <= m < i + 1);
                        }
                    }
                    assert forall|e: EdgeModel| #[trigger] g.edges().contains(e) <==> exists|m: int|
                        0 <= m < i + 1 && last_of_name(rs, m) && #[trigger] added_edges(rs[m]@).contains(e) by {
                        if exists|m: int| 0 <= m < i + 1 && last_of_name(rs, m) && #[trigger] added_edges(rs[m]@).contains(e) {
                            let m = choose|m: int| 0 <= m < i + 1 && last_of_name(rs, m) && #[trigger] added_edges(rs[m]@).contains(e);
                            if m < i {
                                assert(before.edges().contains(e));
                            }
                        }
                        if before.edges().contains(e) {
                            let m = choose|m: int| 0 <= m < i && last_of_name(rs, m) && #[trigger] added_edges(rs[m]@).contains(e);
                            assert(0 <= m < i + 1);
                        }
                    }
                }
            } else {
                proof {
                    assert(kept_edges(rs, i + 1) == kept_edges(rs, i as int));
                    assert forall|name: Seq<char>| #[trigger] g.recipe_map().dom().contains(name) <==> exists|m: int|
                        0 <= m < i + 1 && last_of_name(rs, m) && #[trigger] rs[m].recipe_name@ == name by {
                        if exists|m: int| 0 <= m < i + 1 && last_of_name(rs, m) && #[trigger] rs[m].recipe_name@ == name {
                            let m = choose|m: int| 0 <= m < i + 1 && last_of_name(rs, m) && #[trigger] rs[m].recipe_name@ == name;
                            assert(m != i);
                        }
                    }
                    assert forall|x: Seq<char>| #[trigger] g.resource_names().to_set().contains(x) <==> exists|m: int|
                        0 <= m < i + 1 && last_of_name(rs, m) && #[trigger] added_resources(rs[m]@).contains(x) by {
                        if exists|m: int| 0 <= m < i + 1 && last_of_name(rs, m) && #[trigger] added_resources(rs[m]@).contains(x) {
                            let m = choose|m: int| 0 <= m < i + 1 && last_of_name(rs, m) && #[trigger] added_resources(rs[m]@).contains(x);
                            assert(m != i);
                        }
                    }
                    assert forall|e: EdgeModel| #[trigger] g.edges().contains(e) <==> exists|m: int|
                        0 <= m < i + 1 && last_of_name(rs, m) && #[trigger] added_edges(rs[m]@).contains(e) by {
                        if exists|m: int| 0 <= m < i + 1 && last_of_name(rs, m) && #[trigger] added_edges(rs[m]@).contains(e) {
                            let m = choose|m: int| 0 <= m < i + 1 && last_of_name(rs, m) && #[trigger] added_edges(rs[m]@).contains(e);
                            assert(m != i);
                        }
                    }
                }
            }
            i = i + 1;
        }
        proof {
            assert(rs.take(n as int) =~= rs);
            assert(g.resource_names().to_set() =~= resources_of_recipes(rs));
            assert(g.edges() =~= edges_of_recipes(rs));
            assert forall|name: Seq<char>| #[trigger] g.recipe_map().dom().contains(name) implies g.recipe_map()[name] == recipes_by_name(rs)[name] by {
                let m = choose|m: int| 0 <= m < rs.len() && last_of_name(rs, m) && #[trigger] rs[m].recipe_name@ == name;
                assert(g.recipe_map()[rs[m].recipe_name@] == rs[m]@);
            }
            assert(g.recipe_map() =~= recipes_by_name(rs));
        }
        g.topological_sort();
        g
    }
}

} // verus!
