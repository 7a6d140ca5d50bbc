//! The integer side of planning production: where each recipe's resources
//! sit among the columns of the planning matrix, and the order in which the
//! chosen recipes are shown.

use crate::graph::Graph;
use crate::recipe::names_of;
use crate::topo::{finish_of, unset};
use vstd::prelude::*;

verus! {

/// `i` is the first index of `x` in `s`.
pub open spec fn first_index(s: Seq<Seq<char>>, x: Seq<char>, i: int) -> bool {
    &&& 0 <= i < s.len()
    &&& s[i] == x
    &&& forall|j: int| 0 <= j < i ==> s[j] != x
}

/// The first index of `name` in `list`, if it occurs.
pub fn position_of(list: &Vec<String>, name: &String) -> (res: Option<usize>)
    ensures
        match res {
            Some(i) => first_index(names_of(list@), name@, i as int),
            None => !names_of(list@).contains(name@),
        },
{
    let mut i: usize = 0;
    while i < list.len()
        invariant
            i <= list@.len(),
            forall|j: int| 0 <= j < i ==> names_of(list@)[j] != name@,
        decreases list@.len() - i,
    {
        if list[i] == *name {
            return Some(i);
        }
        i = i + 1;
    }
    None
}

/// The first indices in `list` of the names of `names`; all must occur.
fn positions_in(list: &Vec<String>, names: &Vec<String>) -> (res: Vec<usize>)
    requires
        forall|k: int| 0 <= k < names@.len() ==> names_of(list@).contains(#[trigger] names_of(names@)[k]),
    ensures
        res@.len() == names@.len(),
        forall|k: int| 0 <= k < names@.len() ==> first_index(names_of(list@), #[trigger] names_of(names@)[k], res@[k] as int),
{
    let mut res: Vec<usize> = Vec::new();
    let mut k: usize = 0;
    while k < names.len()
        invariant
            k <= names@.len(),
            res@.len() == k,
            forall|k: int| 0 <= k < names@.len() ==> names_of(list@).contains(#[trigger] names_of(names@)[k]),
            forall|m: int| 0 <= m < k ==> first_index(names_of(list@), #[trigger] names_of(names@)[m], res@[m] as int),
        decreases names@.len() - k,
    {
        assert(names_of(names@)[k as int] == names@[k as int]@);
        match position_of(list, &names[k]) {
            Some(p) => {
                res.push(p);
            },
            None => {
                res.push(0);
                proof {
                    assert(names_of(list@).contains(names_of(names@)[k as int]));
                }
            },
        }
        k = k + 1;
    }
    res
}

/// The smallest finish time in `sub` of the resources `names`, or the
/// largest `u64` when there are none.
pub open spec fn min_finish(sub: &Graph, names: Seq<Seq<char>>) -> u64
    decreases names.len(),
{
    if names.len() == 0 {
        unset()
    } else {
        let rest = min_finish(sub, names.drop_last());
        let last = finish_of(sub, names.last());
        if last < rest {
            last
        } else {
            rest
        }
    }
}

/// `order` lists every position of `names` (recipes of `g`) once, by the
/// smallest finish time in `sub` of each recipe's ingredients, largest first.
pub open spec fn ingredient_listing(g: &Graph, sub: &Graph, names: Seq<Seq<char>>, order: Seq<usize>) -> bool {
    &&& order.len() == names.len()
    &&& order.no_duplicates()
    &&& forall|a: int| 0 <= a < order.len() ==> #[trigger] order[a] < names.len()
    &&& forall|a: int, b: int|
        0 <= a < b < order.len() ==> min_finish(sub, g.recipe_of(names[#[trigger] order[a] as int]).ingredients)
            >= min_finish(sub, g.recipe_of(names[#[trigger] order[b] as int]).ingredients)
}

/// The smallest finish time of a list of resources is at most the finish
/// time of each of them, and is that of one of them (the largest `u64` for
/// an empty list).
pub proof fn lemma_min_finish_least(sub: &Graph, names: Seq<Seq<char>>)
    ensures
        forall|k: int| 0 <= k < names.len() ==> min_finish(sub, names) <= finish_of(sub, #[trigger] names[k]),
        names.len() == 0 ==> min_finish(sub, names) == unset(),
        names.len() > 0 ==> exists|k: int| 0 <= k < names.len() && min_finish(sub, names) == finish_of(sub, #[trigger] names[k]),
    decreases names.len(),
{
    if names.len() > 0 {
        let rest = names.drop_last();
        lemma_min_finish_least(sub, rest);
        assert forall|k: int| 0 <= k < names.len() implies min_finish(sub, names) <= finish_of(sub, #[trigger] names[k]) by {
            if k < rest.len() {
                assert(rest[k] == names[k]);
            }
        }
        if rest.len() == 0 || finish_of(sub, names.last()) < min_finish(sub, rest) {
            assert(min_finish(sub, names) == finish_of(sub, names[names.len() - 1]));
        } else {
            let k = choose|k: int| 0 <= k < rest.len() && min_finish(sub, rest) == finish_of(sub, #[trigger] rest[k]);
            assert(rest[k] == names[k]);
        }
    }
}

impl Graph {
    /// For each recipe of `recipes`, the columns of its ingredients and of
    /// its products: the first index of each in `resources`.
    pub fn matrix_positions(&self, recipes: &Vec<String>, resources: &Vec<String>) -> (res: Vec<(Vec<usize>, Vec<usize>)>)
        requires
            self.well_formed(),
            forall|k: int| 0 <= k < recipes@.len() ==> self.has_recipe(#[trigger] recipes@[k]@),
            forall|k: int, q: int|
                0 <= k < recipes@.len() && 0 <= q < self.recipe_of(recipes@[k]@).ingredients.len()
                    ==> names_of(resources@).contains(#[trigger] self.recipe_of(recipes@[k]@).ingredients[q]),
            forall|k: int, q: int|
                0 <= k < recipes@.len() && 0 <= q < self.recipe_of(recipes@[k]@).products.len()
                    ==> names_of(resources@).contains(#[trigger] self.recipe_of(recipes@[k]@).products[q]),
        ensures
            res@.len() == recipes@.len(),
            forall|k: int| 0 <= k < recipes@.len() ==> {
                let r = self.recipe_of(recipes@[k]@);
                &&& (#[trigger] res@[k]).0@.len() == r.ingredients.len()
                &&& res@[k].1@.len() == r.products.len()
                &&& forall|q: int| 0 <= q < r.ingredients.len() ==> first_index(names_of(resources@), r.ingredients[q], res@[k].0@[q] as int)
                &&& forall|q: int| 0 <= q < r.products.len() ==> first_index(names_of(resources@), r.products[q], res@[k].1@[q] as int)
            },
    {
        let mut res: Vec<(Vec<usize>, Vec<usize>)> = Vec::new();
        let mut k: usize = 0;
        while k < recipes.len()
            invariant
                self.well_formed(),
                k <= recipes@.len(),
                res@.len() == k,
                forall|k: int| 0 <= k < recipes@.len() ==> self.has_recipe(#[trigger] recipes@[k]@),
                forall|k: int, q: int|
                    0 <= k < recipes@.len() && 0 <= q < self.recipe_of(recipes@[k]@).ingredients.len()
                        ==> names_of(resources@).contains(#[trigger] self.recipe_of(recipes@[k]@).ingredients[q]),
                forall|k: int, q: int|
                    0 <= k < recipes@.len() && 0 <= q < self.recipe_of(recipes@[k]@).products.len()
                        ==> names_of(resources@).contains(#[trigger] self.recipe_of(recipes@[k]@).products[q]),
                forall|m: int| 0 <= m < k ==> {
                    let r = self.recipe_of(recipes@[m]@);
                    &&& (#[trigger] res@[m]).0@.len() == r.ingredients.len()
                    &&& res@[m].1@.len() == r.products.len()
                    &&& forall|q: int| 0 <= q < r.ingredients.len() ==> first_index(names_of(resources@), r.ingredients[q], res@[m].0@[q] as int)
                    &&& forall|q: int| 0 <= q < r.products.len() ==> first_index(names_of(resources@), r.products[q], res@[m].1@[q] as int)
                },
            decreases recipes@.len() - k,
        {
            let idx = match self.find_recipe(&recipes[k]) {
                Some(idx) => idx,
                None => {
                    proof {
                        assert(self.has_recipe(recipes@[k as int]@));
                    }
                    return res;
                },
            };
            proof {
                self.lemma_recipe_of(idx as int);
            }
            let ghost r = self.recipe_of(recipes@[k as int]@);
            assert(self.recipes@[idx as int]@ == r);
            proof {
                assert forall|q: int| 0 <= q < self.recipes@[idx as int].resources@.len() implies names_of(resources@).contains(
                    #[trigger] names_of(self.recipes@[idx as int].resources@)[q]) by {
                    assert(names_of(resources@).contains(self.recipe_of(recipes@[k as int]@).ingredients[q]));
                }
                assert forall|q: int| 0 <= q < self.recipes@[idx as int].products@.len() implies names_of(resources@).contains(
                    #[trigger] names_of(self.recipes@[idx as int].products@)[q]) by {
                    assert(names_of(resources@).contains(self.recipe_of(recipes@[k as int]@).products[q]));
                }
            }
            let ins = positions_in(resources, &self.recipes[idx].resources);
            let outs = positions_in(resources, &self.recipes[idx].products);
            res.push((ins, outs));
            k = k + 1;
        }
        res
    }

    /// The smallest finish time in `sub` among the ingredients of this
    /// graph's recipe `recipe`, or the largest `u64` when it has none.
    pub fn ingredient_finish_key(&self, sub: &Graph, recipe: &String) -> (key: u64)
        requires
            self.well_formed(),
            self.has_recipe(recipe@),
            sub.structure_ok(),
            sub.topological_sort_result@.len() == sub.resources@.len(),
            forall|q: int| 0 <= q < self.recipe_of(recipe@).ingredients.len() ==> sub.has_resource(#[trigger] self.recipe_of(recipe@).ingredients[q]),
        ensures
            key == min_finish(sub, self.recipe_of(recipe@).ingredients),
            forall|q: int| 0 <= q < self.recipe_of(recipe@).ingredients.len() ==> key <= finish_of(
                sub,
                #[trigger] self.recipe_of(recipe@).ingredients[q],
            ),
            self.recipe_of(recipe@).ingredients.len() == 0 ==> key == unset(),
            self.recipe_of(recipe@).ingredients.len() > 0 ==> exists|q: int|
                0 <= q < self.recipe_of(recipe@).ingredients.len() && key == finish_of(
                    sub,
                    #[trigger] self.recipe_of(recipe@).ingredients[q],
                ),
    {
        proof {
            lemma_min_finish_least(sub, self.recipe_of(recipe@).ingredients);
        }
        let idx = match self.find_recipe(recipe) {
            Some(idx) => idx,
            None => {
                return 0;
            },
        };
        proof {
            self.lemma_recipe_of(idx as int);
        }
        let ghost ings = self.recipe_of(recipe@).ingredients;
        let m = self.recipes[idx].resources.len();
        let mut key: u64 = 0xffff_ffff_ffff_ffffu64;
        let mut q: usize = 0;
        assert(ings.take(0) =~= Seq::<Seq<char>>::empty());
        while q < m
            invariant
                self.well_formed(),
                sub.structure_ok(),
                sub.topological_sort_result@.len() == sub.resources@.len(),
                idx < self.recipes@.len(),
                self.recipes@[idx as int]@.ingredients == ings,
                m == ings.len(),
                q <= m,
                forall|q2: int| 0 <= q2 < ings.len() ==> sub.has_resource(#[trigger] ings[q2]),
                key == min_finish(sub, ings.take(q as int)),
            decreases m - q,
        {
            assert(self.recipes@[idx as int].resources@[q as int]@ == ings[q as int]);
            let t = sub.finish_time(&self.recipes[idx].resources[q]);
            assert(ings.take(q + 1).drop_last() =~= ings.take(q as int));
            if t < key {
                key = t;
            }
            q = q + 1;
        }
        assert(ings.take(m as int) =~= ings);
        key
    }

    /// The order in which to list the chosen recipes `names`: positions into
    /// `names`, by their ingredient keys (see `ingredient_finish_key`) in
    /// `sub`, largest first.
    pub fn order_by_ingredients(&self, sub: &Graph, names: &Vec<String>) -> (order: Vec<usize>)
        requires
            self.well_formed(),
            sub.structure_ok(),
            sub.topological_sort_result@.len() == sub.resources@.len(),
            forall|k: int| 0 <= k < names@.len() ==> self.has_recipe(#[trigger] names@[k]@),
            forall|k: int, q: int|
                0 <= k < names@.len() && 0 <= q < self.recipe_of(names@[k]@).ingredients.len()
                    ==> sub.has_resource(#[trigger] self.recipe_of(names@[k]@).ingredients[q]),
        ensures
            ingredient_listing(self, sub, names_of(names@), order@),
    {
        let mut order: Vec<usize> = Vec::new();
        let mut keys: Vec<u64> = Vec::new();
        let mut i: usize = 0;
        while i < names.len()
            invariant
                self.well_formed(),
                sub.structure_ok(),
                sub.topological_sort_result@.len() == sub.resources@.len(),
                forall|k: int| 0 <= k < names@.len() ==> self.has_recipe(#[trigger] names@[k]@),
                forall|k: int, q: int|
                    0 <= k < names@.len() && 0 <= q < self.recipe_of(names@[k]@).ingredients.len()
                        ==> sub.has_resource(#[trigger] self.recipe_of(names@[k]@).ingredients[q]),
                i <= names@.len(),
                order@.len() == i,
                keys@.len() == i,
                forall|a: int| 0 <= a < i ==> #[trigger] order@[a] < i,
                order@.no_duplicates(),
                forall|a: int| 0 <= a < i ==> #[trigger] keys@[a] == min_finish(sub, self.recipe_of(names@[order@[a] as int]@).ingredients),
                forall|a: int, b: int| 0 <= a < b < i ==> #[trigger] keys@[a] >= #[trigger] keys@[b],
            decreases names@.len() - i,
        {
            let key = self.ingredient_finish_key(sub, &names[i]);
            let mut p: usize = 0;
            while p < keys.len() && keys[p] >= key
                invariant
                    p <= keys@.len(),
                    forall|k: int| 0 <= k < p ==> #[trigger] keys@[k] >= key,
                decreases keys@.len() - p,
            {
                p = p + 1;
            }
            let ghost ob = order@;
            let ghost kb = keys@;
            order.insert(p, i);
            keys.insert(p, key);
            proof {
                assert(order@ =~= ob.insert(p as int, i));
                assert forall|a: int| 0 <= a < i + 1 implies #[trigger] order@[a] < i + 1 by {
                    if a < p {
                        assert(order@[a] == ob[a]);
                    } else if a > p {
                        assert(order@[a] == ob[a - 1]);
                    }
                }
                assert forall|a: int, b: int| 0 <= a < order@.len() && 0 <= b < order@.len() && a != b implies order@[a] != order@[b] by {
                    if a != p && b != p {
                        let a0 = if a < p { a } else { a - 1 };
                        let b0 = if b < p { b } else { b - 1 };
                        assert(order@[a] == ob[a0]);
                        assert(order@[b] == ob[b0]);
                    } else if a == p {
                        let b0 = if b < p { b } else { b - 1 };
                        assert(order@[b] == ob[b0]);
                    } else {
                        let a0 = if a < p { a } else { a - 1 };
                        assert(order@[a] == ob[a0]);
                    }
                }
                assert forall|a: int| 0 <= a < i + 1 implies #[trigger] keys@[a] == min_finish(sub, self.recipe_of(names@[order@[a] as int]@).ingredients) by {
                    if a < p {
                        assert(order@[a] == ob[a]);
                    } else if a > p {
                        assert(order@[a] == ob[a - 1]);
                    }
                }
                assert forall|a: int, b: int| 0 <= a < b < i + 1 implies #[trigger] keys@[a] >= #[trigger] keys@[b] by {
                    if a < p && b > p {
                        assert(kb[a] >= kb[b - 1]);
                    } else if a == p && b > p {
                        assert(kb[p as int] >= kb[b - 1]);
                    } else if a > p {
                        assert(kb[a - 1] >= kb[b - 1]);
                    }
                }
            }
            i = i + 1;
        }
        proof {
            assert forall|a: int, b: int|
                0 <= a < b < order@.len() implies min_finish(sub, self.recipe_of(names@[#[trigger] order@[a] as int]@).ingredients)
                    >= min_finish(sub, self.recipe_of(names@[#[trigger] order@[b] as int]@).ingredients) by {
                assert(keys@[a] >= keys@[b]);
            }
        }
        order
    }
}

/// Drops one row from a list of planning inputs: the last row where `index`
/// is `usize::MAX` (none where the list is empty), else the row at `index`.
pub fn remove_row<T>(rows: &mut Vec<T>, index: usize)
    requires
        index == usize::MAX || index < old(rows)@.len(),
    ensures
        index == usize::MAX && old(rows)@.len() == 0 ==> final(rows)@ == old(rows)@,
        index == usize::MAX && old(rows)@.len() > 0 ==> final(rows)@ == old(rows)@.drop_last(),
        index != usize::MAX ==> final(rows)@ == old(rows)@.remove(index as int),
{
    if index == usize::MAX {
        rows.pop();
    } else {
        rows.remove(index);
    }
}

} // verus!
