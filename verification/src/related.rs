//! Everything that takes part in producing a set of target resources.

use crate::graph::{
    lemma_names_grow_contains, lemma_names_grow_trans, lemma_push_contains, names_grow, Graph,
};
use crate::recipe::{copy_names, names_of};
use crate::text::{contains_name, sort_names, strictly_sorted};
use crate::topo::finish_descending;
use vstd::prelude::*;

verus! {

/// `s` holds the targets, and with every member `x` the source of each edge
/// into `x` and every product of that edge's recipe.
pub open spec fn related_closed(g: &Graph, targets: Seq<Seq<char>>, s: Set<Seq<char>>) -> bool {
    &&& forall|x: Seq<char>| targets.contains(x) ==> s.contains(x)
    &&& ingress_closed(g, s)
}

/// With every member `x` of `s`, the source of each edge into `x` and every
/// product of that edge's recipe are in `s`.
pub open spec fn ingress_closed(g: &Graph, s: Set<Seq<char>>) -> bool {
    forall|i: int, j: int|
        0 <= i < g.resources@.len() && 0 <= j < g.ingress(i).len() && s.contains(
            g.resource_names()[i],
        ) ==> {
            &&& s.contains(#[trigger] g.ingress(i)[j].0)
            &&& forall|p: int|
                0 <= p < g.recipe_of(g.ingress(i)[j].2).products.len() ==> s.contains(
                    #[trigger] g.recipe_of(g.ingress(i)[j].2).products[p],
                )
        }
}

/// The resources related to `targets`: the least set closed as above.
pub open spec fn related_resources(g: &Graph, targets: Seq<Seq<char>>) -> Set<Seq<char>> {
    Set::new(
        |x: Seq<char>|
            forall|s: Set<Seq<char>>| #[trigger] related_closed(g, targets, s) ==> s.contains(x),
    )
}

/// The recipes of the edges into related resources.
pub open spec fn related_recipes(g: &Graph, targets: Seq<Seq<char>>) -> Set<Seq<char>> {
    Set::new(
        |r: Seq<char>|
            exists|i: int, j: int|
                0 <= i < g.resources@.len() && 0 <= j < g.ingress(i).len() && related_resources(
                    g,
                    targets,
                ).contains(g.resource_names()[i]) && #[trigger] g.ingress(i)[j].2 == r,
    )
}

/// `resources` and `recipes` list what is related to `targets`: the related
/// resources once each, latest finish time first, and the related recipes in
/// strictly increasing alphabetical order.
pub open spec fn related_listing(
    g: &Graph,
    targets: Seq<Seq<char>>,
    resources: Seq<Seq<char>>,
    recipes: Seq<Seq<char>>,
) -> bool {
    &&& resources.no_duplicates()
    &&& resources.to_set() == related_resources(g, targets)
    &&& finish_descending(g, resources)
    &&& strictly_sorted(recipes)
    &&& recipes.to_set() == related_recipes(g, targets)
}

/// From a related resource, the source of an edge into it and the products of
/// the edge's recipe are related too.
pub proof fn lemma_related_step(g: &Graph, targets: Seq<Seq<char>>, i: int, j: int)
    requires
        0 <= i < g.resources@.len(),
        0 <= j < g.ingress(i).len(),
        related_resources(g, targets).contains(g.resource_names()[i]),
    ensures
        related_resources(g, targets).contains(g.ingress(i)[j].0),
        forall|p: int|
            0 <= p < g.recipe_of(g.ingress(i)[j].2).products.len() ==> related_resources(
                g,
                targets,
            ).contains(#[trigger] g.recipe_of(g.ingress(i)[j].2).products[p]),
{
    let r = g.recipe_of(g.ingress(i)[j].2);
    assert forall|s: Set<Seq<char>>| #[trigger] related_closed(g, targets, s) implies s.contains(
        g.ingress(i)[j].0,
    ) by {
        assert(s.contains(g.resource_names()[i]));
    }
    assert forall|p: int| 0 <= p < r.products.len() implies related_resources(g, targets).contains(
        #[trigger] r.products[p],
    ) by {
        assert forall|s: Set<Seq<char>>| #[trigger] related_closed(g, targets, s) implies s.contains(
            r.products[p],
        ) by {
            assert(s.contains(g.resource_names()[i]));
            assert(s.contains(g.recipe_of(g.ingress(i)[j].2).products[p]));
        }
    }
}

/// The targets are related.
pub proof fn lemma_targets_related(g: &Graph, targets: Seq<Seq<char>>, x: Seq<char>)
    requires
        targets.contains(x),
    ensures
        related_resources(g, targets).contains(x),
{
    assert forall|s: Set<Seq<char>>| #[trigger] related_closed(g, targets, s) implies s.contains(
        x,
    ) by {
    }
}

/// A list without repeats of resource names is no longer than the list of nodes.
pub proof fn lemma_distinct_resources_bounded(g: &Graph, p: Seq<Seq<char>>)
    requires
        p.no_duplicates(),
        forall|k: int| 0 <= k < p.len() ==> g.has_resource(#[trigger] p[k]),
    ensures
        p.len() <= g.resources@.len(),
{
    p.unique_seq_to_set();
    g.resource_names().lemma_cardinality_of_set();
    assert forall|x: Seq<char>| p.to_set().contains(x) implies g.resource_names().to_set().contains(
        x,
    ) by {
        let k = choose|k: int| 0 <= k < p.len() && p[k] == x;
        assert(g.has_resource(p[k]));
    }
    vstd::set_lib::lemma_len_subset(p.to_set(), g.resource_names().to_set());
}

/// `y` is among the processed names, the pending names, or is the name in hand.
pub open spec fn seen(processed: Seq<Seq<char>>, pending: Seq<Seq<char>>, x: Seq<char>, y: Seq<char>) -> bool {
    processed.contains(y) || pending.contains(y) || y == x
}

/// Growing the pending list keeps everything seen.
pub proof fn lemma_seen_grow(p0: Seq<Seq<char>>, qa: Seq<Seq<char>>, qb: Seq<Seq<char>>, x: Seq<char>)
    requires
        names_grow(qa, qb),
    ensures
        forall|y: Seq<char>| #[trigger] seen(p0, qa, x, y) ==> seen(p0, qb, x, y),
{
    assert forall|y: Seq<char>| #[trigger] seen(p0, qa, x, y) implies seen(p0, qb, x, y) by {
        if qa.contains(y) {
            lemma_names_grow_contains(qa, qb, y);
        }
    }
}

/// Pushing onto a list makes it grow.
pub proof fn lemma_push_grows(q: Seq<Seq<char>>, y: Seq<char>)
    ensures
        names_grow(q, q.push(y)),
        q.push(y).contains(y),
{
    assert(q.push(y)[q.len() as int] == y);
}

impl Graph {
    /// The resources and recipes that take part in producing `target_resources`.
    ///
    /// A recipe takes part when it produces a target directly or indirectly;
    /// a resource takes part when it belongs to such a recipe. The resources
    /// come latest finish time first (the order of `sort_topologically`), the
    /// recipes in alphabetical order.
    pub fn find_all_related(&self, target_resources: &Vec<String>) -> (res: (Vec<String>, Vec<String>))
        requires
            self.well_formed(),
            self.topological_sort_result@.len() == self.resources@.len(),
            forall|k: int| 0 <= k < target_resources@.len() ==> self.has_resource(#[trigger] target_resources@[k]@),
        ensures
            related_listing(self, names_of(target_resources@), names_of(res.0@), names_of(res.1@)),
    {
        let ghost targets = names_of(target_resources@);
        let ghost n = self.resources@.len();
        let ghost rel = related_resources(self, targets);
        let ghost rrel = related_recipes(self, targets);
        let mut pending = copy_names(target_resources);
        let mut processed: Vec<String> = Vec::new();
        let mut recipes: Vec<String> = Vec::new();
        proof {
            assert forall|k: int| 0 <= k < names_of(pending@).len() implies rel.contains(#[trigger] names_of(pending@)[k]) && self.has_resource(names_of(pending@)[k]) by {
                lemma_targets_related(self, targets, targets[k]);
                assert(self.has_resource(target_resources@[k]@));
            }
            assert forall|y: Seq<char>| #[trigger] targets.contains(y) implies names_of(processed@).contains(y) || names_of(pending@).contains(y) by {
            }
        }
        while pending.len() > 0
            invariant
                self.well_formed(),
                self.topological_sort_result@.len() == n,
                n == self.resources@.len(),
                targets == names_of(target_resources@),
                rel == related_resources(self, targets),
                rrel == related_recipes(self, targets),
                names_of(processed@).no_duplicates(),
                names_of(recipes@).no_duplicates(),
                forall|k: int| 0 <= k < names_of(processed@).len() ==> rel.contains(#[trigger] names_of(processed@)[k]) && self.has_resource(names_of(processed@)[k]),
                forall|k: int| 0 <= k < names_of(pending@).len() ==> rel.contains(#[trigger] names_of(pending@)[k]) && self.has_resource(names_of(pending@)[k]),
                forall|k: int| 0 <= k < names_of(recipes@).len() ==> rrel.contains(#[trigger] names_of(recipes@)[k]) && self.has_recipe(names_of(recipes@)[k]),
                forall|y: Seq<char>| #[trigger] targets.contains(y) ==> names_of(processed@).contains(y) || names_of(pending@).contains(y),
                forall|i: int, j: int|
                    0 <= i < n && 0 <= j < self.ingress(i).len() && names_of(processed@).contains(self.resource_names()[i]) ==> {
                        &&& (names_of(processed@).contains(#[trigger] self.ingress(i)[j].0) || names_of(pending@).contains(self.ingress(i)[j].0))
                        &&& names_of(recipes@).contains(self.ingress(i)[j].2)
                    },
                forall|r: Seq<char>, p: int|
                    names_of(recipes@).contains(r) && 0 <= p < self.recipe_of(r).products.len() ==>
                        names_of(processed@).contains(#[trigger] self.recipe_of(r).products[p])
                            || names_of(pending@).contains(self.recipe_of(r).products[p]),
            decreases n - names_of(processed@).len(), pending@.len(),
        {
            proof {
                lemma_distinct_resources_bounded(self, names_of(processed@));
            }
            let ghost q0 = names_of(pending@);
            let ghost p0 = names_of(processed@);
            let cur_item = match pending.pop() {
                Some(item) => item,
                None => {
                    return (processed, recipes);
                },
            };
            let ghost x = cur_item@;
            let ghost qs = names_of(pending@);
            proof {
                assert(q0 =~= qs.push(x));
                assert forall|y: Seq<char>| #[trigger] q0.contains(y) <==> (qs.contains(y) || y == x) by {
                    lemma_push_contains(qs, x, y);
                }
                assert(rel.contains(x) && self.has_resource(x)) by {
                    assert(q0[q0.len() - 1] == x);
                }
                assert forall|k: int| 0 <= k < qs.len() implies rel.contains(#[trigger] qs[k]) && self.has_resource(qs[k]) by {
                    assert(qs[k] == q0[k]);
                }
            }
            if contains_name(&processed, &cur_item) {
                proof {
                    assert forall|y: Seq<char>| #[trigger] q0.contains(y) implies p0.contains(y) || qs.contains(y) by {
                    }
                }
                continue;
            }
            let i = match self.find_resource(&cur_item) {
                Some(i) => i,
                None => {
                    return (processed, recipes);
                },
            };
            let ne = self.resources[i].ingress_edges.len();
            proof {
                assert forall|y: Seq<char>| #[trigger] targets.contains(y) implies seen(p0, qs, x, y) by {
                    assert(p0.contains(y) || q0.contains(y));
                }
                assert forall|i2: int, j2: int|
                    0 <= i2 < n && 0 <= j2 < self.ingress(i2).len() && p0.contains(self.resource_names()[i2]) implies {
                        &&& seen(p0, qs, x, #[trigger] self.ingress(i2)[j2].0)
                        &&& names_of(recipes@).contains(self.ingress(i2)[j2].2)
                    } by {
                    assert(p0.contains(self.ingress(i2)[j2].0) || q0.contains(self.ingress(i2)[j2].0));
                }
                assert forall|r: Seq<char>, p: int|
                    names_of(recipes@).contains(r) && 0 <= p < self.recipe_of(r).products.len() implies
                        seen(p0, qs, x, #[trigger] self.recipe_of(r).products[p]) by {
                    assert(p0.contains(self.recipe_of(r).products[p]) || q0.contains(self.recipe_of(r).products[p]));
                }
            }
            let mut j: usize = 0;
            while j < ne
                invariant
                    self.well_formed(),
                    self.topological_sort_result@.len() == n,
                    n == self.resources@.len(),
                    targets == names_of(target_resources@),
                    rel == related_resources(self, targets),
                    rrel == related_recipes(self, targets),
                    i < n,
                    self.resource_names()[i as int] == x,
                    cur_item@ == x,
                    ne == self.ingress(i as int).len(),
                    j <= ne,
                    names_of(processed@) == p0,
                    !p0.contains(x),
                    rel.contains(x),
                    p0.no_duplicates(),
                    names_of(recipes@).no_duplicates(),
                    names_grow(qs, names_of(pending@)),
                    forall|k: int| 0 <= k < p0.len() ==> rel.contains(#[trigger] p0[k]) && self.has_resource(p0[k]),
                    forall|k: int| 0 <= k < names_of(pending@).len() ==> rel.contains(#[trigger] names_of(pending@)[k]) && self.has_resource(names_of(pending@)[k]),
                    forall|k: int| 0 <= k < names_of(recipes@).len() ==> rrel.contains(#[trigger] names_of(recipes@)[k]) && self.has_recipe(names_of(recipes@)[k]),
                    forall|y: Seq<char>| #[trigger] targets.contains(y) ==> seen(p0, names_of(pending@), x, y),
                    forall|i2: int, j2: int|
                        0 <= i2 < n && 0 <= j2 < self.ingress(i2).len() && p0.contains(self.resource_names()[i2]) ==> {
                            &&& seen(p0, names_of(pending@), x, #[trigger] self.ingress(i2)[j2].0)
                            &&& names_of(recipes@).contains(self.ingress(i2)[j2].2)
                        },
                    forall|j2: int| 0 <= j2 < j ==> {
                        &&& seen(p0, names_of(pending@), x, #[trigger] self.ingress(i as int)[j2].0)
                        &&& names_of(recipes@).contains(self.ingress(i as int)[j2].2)
                    },
                    forall|r: Seq<char>, p: int|
                        names_of(recipes@).contains(r) && 0 <= p < self.recipe_of(r).products.len() ==>
                            seen(p0, names_of(pending@), x, #[trigger] self.recipe_of(r).products[p]),
                decreases ne - j,
            {
                let from = self.resources[i].ingress_edges[j].from.clone();
                let rname = self.resources[i].ingress_edges[j].recipe_name.clone();
                let ghost e = self.ingress(i as int)[j as int];
                proof {
                    assert(e.0 == from@ && e.2 == rname@);
                    lemma_related_step(self, targets, i as int, j as int);
                    assert(self.has_resource(e.0));
                    assert(self.has_recipe(e.2));
                }
                let ghost q1 = names_of(pending@);
                let ghost c1 = names_of(recipes@);
                pending.push(from);
                proof {
                    assert(names_of(pending@) =~= q1.push(e.0));
                    lemma_push_grows(q1, e.0);
                    lemma_seen_grow(p0, q1, names_of(pending@), x);
                    lemma_names_grow_trans(qs, q1, names_of(pending@));
                    assert(names_grow(qs, names_of(pending@)));
                }
                if !contains_name(&recipes, &rname) {
                    recipes.push(rname.clone());
                    proof {
                        assert(names_of(recipes@) =~= c1.push(e.2));
                        assert forall|r: Seq<char>| #[trigger] names_of(recipes@).contains(r) <==> (c1.contains(r) || r == e.2) by {
                            lemma_push_contains(c1, e.2, r);
                        }
                        assert(rrel.contains(e.2)) by {
                            assert(self.ingress(i as int)[j as int].2 == e.2);
                        }
                    }
                    let k = match self.find_recipe(&rname) {
                        Some(k) => k,
                        None => {
                            return (processed, recipes);
                        },
                    };
                    proof {
                        self.lemma_recipe_of(k as int);
                    }
                    let np = self.recipes[k].products.len();
                    let ghost q2s = names_of(pending@);
                    let mut q: usize = 0;
                    while q < np
                        invariant
                            self.well_formed(),
                            n == self.resources@.len(),
                            rel == related_resources(self, targets),
                            k < self.recipes@.len(),
                            self.recipes@[k as int]@ == self.recipe_of(e.2),
                            np == self.recipe_of(e.2).products.len(),
                            q <= np,
                            cur_item@ == x,
                            names_grow(q2s, names_of(pending@)),
                            forall|p: int| 0 <= p < np ==> rel.contains(#[trigger] self.recipe_of(e.2).products[p]),
                            forall|k2: int| 0 <= k2 < names_of(pending@).len() ==> rel.contains(#[trigger] names_of(pending@)[k2]) && self.has_resource(names_of(pending@)[k2]),
                            forall|p: int| 0 <= p < q ==> seen(p0, names_of(pending@), x, #[trigger] self.recipe_of(e.2).products[p]),
                        decreases np - q,
                    {
                        let ghost q2 = names_of(pending@);
                        let ghost pr = self.recipe_of(e.2).products[q as int];
                        assert(self.recipes@[k as int].products@[q as int]@ == pr);
                        if self.recipes[k].products[q] != cur_item {
                            pending.push(self.recipes[k].products[q].clone());
                            proof {
                                assert(names_of(pending@) =~= q2.push(pr));
                                lemma_push_grows(q2, pr);
                                lemma_seen_grow(p0, q2, names_of(pending@), x);
                                lemma_names_grow_trans(q2s, q2, names_of(pending@));
                                assert(self.has_resource(self.recipes@[k as int]@.products[q as int]));
                                assert(seen(p0, names_of(pending@), x, pr));
                            }
                        }
                        q = q + 1;
                    }
                    proof {
                        lemma_seen_grow(p0, q2s, names_of(pending@), x);
                        lemma_names_grow_trans(qs, q2s, names_of(pending@));
                        assert forall|r: Seq<char>, p: int|
                            names_of(recipes@).contains(r) && 0 <= p < self.recipe_of(r).products.len() implies
                                seen(p0, names_of(pending@), x, #[trigger] self.recipe_of(r).products[p]) by {
                            if r != e.2 {
                                assert(c1.contains(r));
                                assert(seen(p0, q1, x, self.recipe_of(r).products[p]));
                                lemma_seen_grow(p0, q1, names_of(pending@), x);
                            }
                        }
                    }
                }
                proof {
                    lemma_seen_grow(p0, q1, names_of(pending@), x);
                }
                j = j + 1;
            }
            processed.push(cur_item);
            proof {
                let p1 = names_of(processed@);
                let qe = names_of(pending@);
                assert(p1 =~= p0.push(x));
                assert forall|y: Seq<char>| #[trigger] p1.contains(y) <==> (p0.contains(y) || y == x) by {
                    lemma_push_contains(p0, x, y);
                }
                assert forall|y: Seq<char>| #[trigger] seen(p0, qe, x, y) implies p1.contains(y) || qe.contains(y) by {
                    lemma_push_contains(p0, x, y);
                }
                assert forall|k: int| 0 <= k < p1.len() implies rel.contains(#[trigger] p1[k]) && self.has_resource(p1[k]) by {
                    if k < p0.len() {
                        assert(p1[k] == p0[k]);
                    }
                }
                assert forall|i2: int, j2: int|
                    0 <= i2 < n && 0 <= j2 < self.ingress(i2).len() && p1.contains(self.resource_names()[i2]) implies {
                        &&& (p1.contains(#[trigger] self.ingress(i2)[j2].0) || qe.contains(self.ingress(i2)[j2].0))
                        &&& names_of(recipes@).contains(self.ingress(i2)[j2].2)
                    } by {
                    if !p0.contains(self.resource_names()[i2]) {
                        assert(self.resource_names()[i2] == x);
                        assert(i2 == i) by {
                            assert(self.resource_names()[i as int] == self.resource_names()[i2]);
                        }
                    }
                    assert(seen(p0, qe, x, self.ingress(i2)[j2].0));
                }
                assert forall|r: Seq<char>, p: int|
                    names_of(recipes@).contains(r) && 0 <= p < self.recipe_of(r).products.len() implies
                        p1.contains(#[trigger] self.recipe_of(r).products[p]) || qe.contains(self.recipe_of(r).products[p]) by {
                    assert(seen(p0, qe, x, self.recipe_of(r).products[p]));
                }
                assert forall|y: Seq<char>| #[trigger] targets.contains(y) implies p1.contains(y) || qe.contains(y) by {
                    assert(seen(p0, qe, x, y));
                }
                assert(p1.no_duplicates());
                lemma_distinct_resources_bounded(self, p1);
            }
        }
        proof {
            let p = names_of(processed@);
            let rel = related_resources(self, targets);
            // the processed names form a closed set, so they hold every related resource
            assert(related_closed(self, targets, p.to_set())) by {
                assert forall|i: int, j: int|
                    0 <= i < n && 0 <= j < self.ingress(i).len() && p.to_set().contains(self.resource_names()[i]) implies {
                        &&& p.to_set().contains(#[trigger] self.ingress(i)[j].0)
                        &&& forall|q: int|
                            0 <= q < self.recipe_of(self.ingress(i)[j].2).products.len() ==> p.to_set().contains(
                                #[trigger] self.recipe_of(self.ingress(i)[j].2).products[q],
                            )
                    } by {
                    assert(p.contains(self.resource_names()[i]));
                    assert(names_of(recipes@).contains(self.ingress(i)[j].2));
                }
            }
            assert forall|y: Seq<char>| p.to_set().contains(y) <==> rel.contains(y) by {
                if rel.contains(y) {
                    assert(related_closed(self, targets, p.to_set()));
                }
            }
            assert(p.to_set() =~= rel);
            let c = names_of(recipes@);
            assert forall|r: Seq<char>| c.to_set().contains(r) <==> related_recipes(self, targets).contains(r) by {
                if related_recipes(self, targets).contains(r) {
                    let (i, j) = choose|i: int, j: int|
                        0 <= i < n && 0 <= j < self.ingress(i).len() && rel.contains(self.resource_names()[i])
                            && #[trigger] self.ingress(i)[j].2 == r;
                    assert(p.to_set().contains(self.resource_names()[i]));
                    assert(c.contains(self.ingress(i)[j].2));
                }
            }
            assert(c.to_set() =~= related_recipes(self, targets));
        }
        proof {
            assert forall|k: int| 0 <= k < processed@.len() implies self.has_resource(#[trigger] processed@[k]@) by {
                assert(names_of(processed@)[k] == processed@[k]@);
            }
        }
        let mut resource_vec = processed;
        self.sort_topologically(&mut resource_vec);
        proof {
            let p = names_of(processed@);
            let s = names_of(resource_vec@);
            // a reordering keeps the members and the absence of repeats
            assert forall|y: Seq<char>| s.to_set().contains(y) <==> p.to_set().contains(y) by {
                vstd::seq_lib::to_multiset_contains(s, y);
                vstd::seq_lib::to_multiset_contains(p, y);
            }
            assert(s.to_set() =~= p.to_set());
            p.unique_seq_to_set();
            vstd::seq_lib::to_multiset_len(s);
            vstd::seq_lib::to_multiset_len(p);
            s.lemma_no_dup_set_cardinality();
        }
        let recipes_vec = sort_names(recipes);
        (resource_vec, recipes_vec)
    }
}

} // verus!
