//! The resources that can be produced from a set of available resources.

use crate::graph::{lemma_names_grow_contains, lemma_push_contains, names_grow, Graph};
use crate::recipe::names_of;
use crate::text::contains_name;
use vstd::prelude::*;

verus! {

/// `s` is closed under production: for a member `x` and an edge from `x`
/// whose recipe has all its ingredients in `s`, the edge's target is in `s`.
pub open spec fn coverage_closed(g: &Graph, s: Set<Seq<char>>) -> bool {
    forall|i: int, j: int|
        0 <= i < g.resources@.len() && 0 <= j < g.egress(i).len() && s.contains(
            g.resource_names()[i],
        ) && (forall|q: int|
            0 <= q < g.recipe_of(g.egress(i)[j].2).ingredients.len() ==> s.contains(
                #[trigger] g.recipe_of(g.egress(i)[j].2).ingredients[q],
            )) ==> s.contains(#[trigger] g.egress(i)[j].1)
}

/// Everything producible from `start`: the least closed superset of `start`.
pub open spec fn coverage(g: &Graph, start: Set<Seq<char>>) -> Set<Seq<char>> {
    Set::new(
        |x: Seq<char>|
            forall|s: Set<Seq<char>>| #[trigger] coverage_closed(g, s) && start.subset_of(s) ==> s.contains(x),
    )
}

/// The members of a pushed sequence.
pub proof fn lemma_push_to_set(q: Seq<Seq<char>>, y: Seq<char>)
    ensures
        q.push(y).to_set() == q.to_set().insert(y),
{
    assert forall|z: Seq<char>| q.push(y).to_set().contains(z) <==> q.to_set().insert(y).contains(z) by {
        lemma_push_contains(q, y, z);
    }
    assert(q.push(y).to_set() =~= q.to_set().insert(y));
}

/// Each name that `cur` holds beyond its first `n` appears there for the
/// first time: it is neither among the first `n` nor repeated.
pub open spec fn appended_fresh(cur: Seq<Seq<char>>, n: int) -> bool {
    forall|k: int| n <= k < cur.len() ==> !cur.take(k).contains(#[trigger] cur[k])
}

/// Appending a name not yet present keeps the appended names fresh.
pub proof fn lemma_appended_fresh_push(cur: Seq<Seq<char>>, n: int, y: Seq<char>)
    requires
        0 <= n <= cur.len(),
        appended_fresh(cur, n),
        !cur.contains(y),
    ensures
        appended_fresh(cur.push(y), n),
{
    let after = cur.push(y);
    assert forall|k: int| n <= k < after.len() implies !after.take(k).contains(#[trigger] after[k]) by {
        if k < cur.len() {
            assert(after.take(k) =~= cur.take(k));
            assert(after[k] == cur[k]);
        } else {
            assert(after.take(k) =~= cur);
        }
    }
}

/// The number of resources not yet in `s`.
pub open spec fn uncovered(g: &Graph, s: Seq<Seq<char>>) -> int {
    g.resource_names().to_set().len() - s.to_set().len()
}

/// The number of uncovered resources is never negative.
pub proof fn lemma_uncovered_nonneg(g: &Graph, s: Seq<Seq<char>>)
    requires
        forall|k: int| 0 <= k < s.len() ==> g.has_resource(#[trigger] s[k]),
    ensures
        uncovered(g, s) >= 0,
{
    vstd::seq_lib::seq_to_set_is_finite(g.resource_names());
    assert forall|z: Seq<char>| s.to_set().contains(z) implies g.resource_names().to_set().contains(z) by {
        let k = choose|k: int| 0 <= k < s.len() && s[k] == z;
        assert(g.has_resource(s[k]));
    }
    vstd::set_lib::lemma_len_subset(s.to_set(), g.resource_names().to_set());
}

/// Adding a new resource lowers the number of uncovered resources, which stays non-negative.
pub proof fn lemma_uncovered(g: &Graph, s: Seq<Seq<char>>, y: Seq<char>)
    requires
        forall|k: int| 0 <= k < s.len() ==> g.has_resource(#[trigger] s[k]),
        g.has_resource(y),
        !s.contains(y),
    ensures
        uncovered(g, s.push(y)) == uncovered(g, s) - 1,
        uncovered(g, s.push(y)) >= 0,
{
    lemma_push_to_set(s, y);
    vstd::seq_lib::seq_to_set_is_finite(s);
    vstd::seq_lib::seq_to_set_is_finite(g.resource_names());
    assert(!s.to_set().contains(y));
    assert forall|z: Seq<char>| s.push(y).to_set().contains(z) implies g.resource_names().to_set().contains(z) by {
        lemma_push_contains(s, y, z);
        if s.contains(z) {
            let k = choose|k: int| 0 <= k < s.len() && s[k] == z;
            assert(g.has_resource(s[k]));
        }
    }
    vstd::set_lib::lemma_len_subset(s.push(y).to_set(), g.resource_names().to_set());
}

impl Graph {
    /// Whether every ingredient of recipe `k` is in `available`.
    fn ingredients_available(&self, k: usize, available: &Vec<String>) -> (res: bool)
        requires
            k < self.recipes@.len(),
        ensures
            res == forall|q: int|
                0 <= q < self.recipes@[k as int]@.ingredients.len() ==> names_of(available@).contains(
                    #[trigger] self.recipes@[k as int]@.ingredients[q],
                ),
    {
        let m = self.recipes[k].resources.len();
        let mut q: usize = 0;
        while q < m
            invariant
                k < self.recipes@.len(),
                m == self.recipes@[k as int]@.ingredients.len(),
                q <= m,
                forall|q2: int| 0 <= q2 < q ==> names_of(available@).contains(
                    #[trigger] self.recipes@[k as int]@.ingredients[q2],
                ),
            decreases m - q,
        {
            assert(self.recipes@[k as int].resources@[q as int]@ == self.recipes@[k as int]@.ingredients[q as int]);
            if !contains_name(available, &self.recipes[k].resources[q]) {
                return false;
            }
            q = q + 1;
        }
        true
    }

    /// Adds to `avaliable_resources` every resource that can be produced from
    /// it, directly or through other producible resources; the names already
    /// there keep their places and the new ones follow them, each once.
    pub fn expand_coverage(&self, avaliable_resources: &mut Vec<String>)
        requires
            self.well_formed(),
            forall|k: int| 0 <= k < old(avaliable_resources)@.len() ==> self.has_resource(#[trigger] old(avaliable_resources)@[k]@),
        ensures
            names_grow(names_of(old(avaliable_resources)@), names_of(final(avaliable_resources)@)),
            names_of(final(avaliable_resources)@).to_set() == coverage(self, names_of(old(avaliable_resources)@).to_set()),
            appended_fresh(names_of(final(avaliable_resources)@), old(avaliable_resources)@.len() as int),
            names_of(old(avaliable_resources)@).no_duplicates() ==> names_of(final(avaliable_resources)@).no_duplicates(),
    {
        let ghost start = names_of(avaliable_resources@).to_set();
        let ghost cov = coverage(self, start);
        let ghost n = self.resources@.len();
        proof {
            assert forall|k: int| 0 <= k < names_of(avaliable_resources@).len() implies cov.contains(#[trigger] names_of(avaliable_resources@)[k]) by {
                let y = names_of(avaliable_resources@)[k];
                assert(start.contains(y));
            }
            assert forall|k: int| 0 <= k < names_of(avaliable_resources@).len() implies self.has_resource(#[trigger] names_of(avaliable_resources@)[k]) by {
                assert(names_of(avaliable_resources@)[k] == avaliable_resources@[k]@);
            }
            lemma_uncovered_nonneg(self, names_of(avaliable_resources@));
        }
        let mut changed = true;
        while changed
            invariant
                self.well_formed(),
                n == self.resources@.len(),
                cov == coverage(self, start),
                start == names_of(old(avaliable_resources)@).to_set(),
                names_grow(names_of(old(avaliable_resources)@), names_of(avaliable_resources@)),
                appended_fresh(names_of(avaliable_resources@), old(avaliable_resources)@.len() as int),
                forall|k: int| 0 <= k < names_of(avaliable_resources@).len() ==> cov.contains(#[trigger] names_of(avaliable_resources@)[k])
                    && self.has_resource(names_of(avaliable_resources@)[k]),
                !changed ==> coverage_closed(self, names_of(avaliable_resources@).to_set()),
                uncovered(self, names_of(avaliable_resources@)) >= 0,
            decreases uncovered(self, names_of(avaliable_resources@)) + (if changed { 1int } else { 0int }),
        {
            changed = false;
            let count = avaliable_resources.len();
            let ghost snapshot = names_of(avaliable_resources@);
            let mut si: usize = 0;
            while si < count
                invariant
                    self.well_formed(),
                    n == self.resources@.len(),
                    cov == coverage(self, start),
                    start == names_of(old(avaliable_resources)@).to_set(),
                    count == snapshot.len(),
                    si <= count,
                    names_grow(snapshot, names_of(avaliable_resources@)),
                    names_grow(names_of(old(avaliable_resources)@), names_of(avaliable_resources@)),
                    appended_fresh(names_of(avaliable_resources@), old(avaliable_resources)@.len() as int),
                    forall|k: int| 0 <= k < names_of(avaliable_resources@).len() ==> cov.contains(#[trigger] names_of(avaliable_resources@)[k])
                        && self.has_resource(names_of(avaliable_resources@)[k]),
                    uncovered(self, names_of(avaliable_resources@)) >= 0,
                    changed ==> uncovered(self, names_of(avaliable_resources@)) < uncovered(self, snapshot),
                    !changed ==> names_of(avaliable_resources@) == snapshot,
                    !changed ==> forall|i: int, j: int|
                        0 <= i < n && 0 <= j < self.egress(i).len() && snapshot.take(si as int).contains(self.resource_names()[i])
                            && (forall|q: int|
                                0 <= q < self.recipe_of(self.egress(i)[j].2).ingredients.len() ==> snapshot.contains(
                                    #[trigger] self.recipe_of(self.egress(i)[j].2).ingredients[q],
                                )) ==> snapshot.contains(#[trigger] self.egress(i)[j].1),
                decreases count - si,
            {
                let source = avaliable_resources[si].clone();
                let ghost x = source@;
                proof {
                    assert(names_of(avaliable_resources@)[si as int] == x);
                    assert(snapshot[si as int] == x);
                }
                let i = match self.find_resource(&source) {
                    Some(i) => i,
                    None => {
                        proof {
                            assert(self.has_resource(names_of(avaliable_resources@)[si as int]));
                        }
                        return;
                    },
                };
                let ne = self.resources[i].egress_edges.len();
                let mut j: usize = 0;
                while j < ne
                    invariant
                        self.well_formed(),
                        n == self.resources@.len(),
                        cov == coverage(self, start),
                        start == names_of(old(avaliable_resources)@).to_set(),
                        count == snapshot.len(),
                        si < count,
                        i < n,
                        self.resource_names()[i as int] == x,
                        snapshot[si as int] == x,
                        cov.contains(x),
                        ne == self.egress(i as int).len(),
                        j <= ne,
                        names_grow(snapshot, names_of(avaliable_resources@)),
                        names_grow(names_of(old(avaliable_resources)@), names_of(avaliable_resources@)),
                        appended_fresh(names_of(avaliable_resources@), old(avaliable_resources)@.len() as int),
                        forall|k: int| 0 <= k < names_of(avaliable_resources@).len() ==> cov.contains(#[trigger] names_of(avaliable_resources@)[k])
                            && self.has_resource(names_of(avaliable_resources@)[k]),
                        uncovered(self, names_of(avaliable_resources@)) >= 0,
                        changed ==> uncovered(self, names_of(avaliable_resources@)) < uncovered(self, snapshot),
                        !changed ==> names_of(avaliable_resources@) == snapshot,
                        !changed ==> forall|i2: int, j2: int|
                            0 <= i2 < n && 0 <= j2 < self.egress(i2).len() && snapshot.take(si as int).contains(self.resource_names()[i2])
                                && (forall|q: int|
                                    0 <= q < self.recipe_of(self.egress(i2)[j2].2).ingredients.len() ==> snapshot.contains(
                                        #[trigger] self.recipe_of(self.egress(i2)[j2].2).ingredients[q],
                                    )) ==> snapshot.contains(#[trigger] self.egress(i2)[j2].1),
                        !changed ==> forall|j2: int|
                            0 <= j2 < j && (forall|q: int|
                                0 <= q < self.recipe_of(self.egress(i as int)[j2].2).ingredients.len() ==> snapshot.contains(
                                    #[trigger] self.recipe_of(self.egress(i as int)[j2].2).ingredients[q],
                                )) ==> snapshot.contains(#[trigger] self.egress(i as int)[j2].1),
                    decreases ne - j,
                {
                    let to = self.resources[i].egress_edges[j].to.clone();
                    let rname = self.resources[i].egress_edges[j].recipe_name.clone();
                    let ghost e = self.egress(i as int)[j as int];
                    proof {
                        assert(e.1 == to@ && e.2 == rname@);
                        assert(self.has_resource(e.1));
                        assert(self.has_recipe(e.2));
                    }
                    if !contains_name(avaliable_resources, &to) {
                        let k = match self.find_recipe(&rname) {
                            Some(k) => k,
                            None => {
                                return;
                            },
                        };
                        proof {
                            self.lemma_recipe_of(k as int);
                        }
                        if self.ingredients_available(k, avaliable_resources) {
                            let ghost before = names_of(avaliable_resources@);
                            proof {
                                // the new resource is producible
                                assert forall|s: Set<Seq<char>>| #[trigger] coverage_closed(self, s) && start.subset_of(s) implies s.contains(e.1) by {
                                    assert(s.contains(x));
                                    assert forall|q: int| 0 <= q < self.recipe_of(e.2).ingredients.len() implies s.contains(
                                        #[trigger] self.recipe_of(e.2).ingredients[q]) by {
                                        let y = self.recipe_of(e.2).ingredients[q];
                                        assert(before.contains(y));
                                        let m = choose|m: int| 0 <= m < before.len() && before[m] == y;
                                        assert(cov.contains(before[m]));
                                    }
                                    assert(s.contains(self.egress(i as int)[j as int].1));
                                }
                                assert forall|k2: int| 0 <= k2 < before.len() implies self.has_resource(#[trigger] before[k2]) by {
                                }
                                lemma_uncovered(self, before, e.1);
                            }
                            proof {
                                lemma_appended_fresh_push(before, old(avaliable_resources)@.len() as int, e.1);
                            }
                            avaliable_resources.push(to);
                            changed = true;
                            proof {
                                let after = names_of(avaliable_resources@);
                                assert(after =~= before.push(e.1));
                                assert(names_grow(before, after));
                                crate::graph::lemma_names_grow_trans(snapshot, before, after);
                                crate::graph::lemma_names_grow_trans(names_of(old(avaliable_resources)@), before, after);
                            }
                        } else {
                            proof {
                                if !changed {
                                    assert(!(forall|q: int|
                                        0 <= q < self.recipe_of(e.2).ingredients.len() ==> snapshot.contains(
                                            #[trigger] self.recipe_of(e.2).ingredients[q])));
                                }
                            }
                        }
                    } else {
                        proof {
                            if !changed {
                                assert(snapshot.contains(e.1));
                            }
                        }
                    }
                    j = j + 1;
                }
                proof {
                    if !changed {
                        assert forall|i2: int, j2: int|
                            0 <= i2 < n && 0 <= j2 < self.egress(i2).len() && snapshot.take(si + 1).contains(self.resource_names()[i2])
                                && (forall|q: int|
                                    0 <= q < self.recipe_of(self.egress(i2)[j2].2).ingredients.len() ==> snapshot.contains(
                                        #[trigger] self.recipe_of(self.egress(i2)[j2].2).ingredients[q],
                                    )) implies snapshot.contains(#[trigger] self.egress(i2)[j2].1) by {
                            assert(snapshot.take(si + 1) =~= snapshot.take(si as int).push(x));
                            lemma_push_contains(snapshot.take(si as int), x, self.resource_names()[i2]);
                            if self.resource_names()[i2] == x {
                                assert(i2 == i as int) by {
                                    assert(self.resource_names()[i as int] == self.resource_names()[i2]);
                                }
                            }
                        }
                    }
                }
                si = si + 1;
            }
            proof {
                if !changed {
                    let cur = names_of(avaliable_resources@);
                    assert(snapshot.take(count as int) =~= snapshot);
                    assert forall|i2: int, j2: int|
                        0 <= i2 < n && 0 <= j2 < self.egress(i2).len() && cur.to_set().contains(self.resource_names()[i2])
                            && (forall|q: int|
                                0 <= q < self.recipe_of(self.egress(i2)[j2].2).ingredients.len() ==> cur.to_set().contains(
                                    #[trigger] self.recipe_of(self.egress(i2)[j2].2).ingredients[q],
                                )) implies cur.to_set().contains(#[trigger] self.egress(i2)[j2].1) by {
                        assert(snapshot.contains(self.egress(i2)[j2].1));
                    }
                }
            }
        }
        proof {
            let fin = names_of(avaliable_resources@);
            assert forall|y: Seq<char>| fin.to_set().contains(y) <==> cov.contains(y) by {
                if cov.contains(y) {
                    assert forall|z: Seq<char>| start.contains(z) implies fin.to_set().contains(z) by {
                        lemma_names_grow_contains(names_of(old(avaliable_resources)@), fin, z);
                    }
                    assert(coverage_closed(self, fin.to_set()) && start.subset_of(fin.to_set()));
                }
                if fin.to_set().contains(y) {
                    let k = choose|k: int| 0 <= k < fin.len() && fin[k] == y;
                    assert(cov.contains(fin[k]));
                }
            }
            assert(fin.to_set() =~= cov);
            let o = names_of(old(avaliable_resources)@);
            if o.no_duplicates() {
                assert forall|a: int, b: int| 0 <= a < fin.len() && 0 <= b < fin.len() && a != b implies fin[a] != fin[b] by {
                    let lo = if a < b { a } else { b };
                    let hi = if a < b { b } else { a };
                    if hi >= o.len() {
                        assert(fin.take(hi)[lo] == fin[lo]);
                    } else {
                        assert(fin[lo] == o[lo] && fin[hi] == o[hi]);
                    }
                }
            }
        }
    }
}

} // verus!
