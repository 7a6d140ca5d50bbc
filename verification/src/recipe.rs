//! Recipes, resource nodes and the edges between them.

use std::rc::Rc;
use vstd::prelude::*;

verus! {

/// Name of the node that stands for resources taken from the world directly
/// (the source of every recipe that has no ingredients).
pub const WORLD_ROOT: &'static str = "world_root";

/// The characters of [`WORLD_ROOT`].
pub open spec fn world_root_name() -> Seq<char> {
    seq!['w', 'o', 'r', 'l', 'd', '_', 'r', 'o', 'o', 't']
}

/// The names held by a vector of strings.
pub open spec fn names_of(v: Seq<String>) -> Seq<Seq<char>> {
    v.map_values(|s: String| s@)
}

/// A production recipe: what it consumes and what it produces.
///
/// Rates and power consumption are numbers with a fractional part; they are
/// kept by the application beside the recipe and play no part in the graph.
#[derive(Debug, Clone)]
pub struct Recipe {
    pub recipe_name: String,
    pub resources: Vec<String>,
    pub products: Vec<String>,
    pub production_method: Vec<String>,
    pub unlock_tags: Vec<String>,
}

/// Mathematical model of a [`Recipe`].
pub struct RecipeModel {
    pub name: Seq<char>,
    pub ingredients: Seq<Seq<char>>,
    pub products: Seq<Seq<char>>,
    pub production_method: Seq<Seq<char>>,
    pub unlock_tags: Seq<Seq<char>>,
}

impl View for Recipe {
    type V = RecipeModel;

    open spec fn view(&self) -> RecipeModel {
        RecipeModel {
            name: self.recipe_name@,
            ingredients: names_of(self.resources@),
            products: names_of(self.products@),
            production_method: names_of(self.production_method@),
            unlock_tags: names_of(self.unlock_tags@),
        }
    }
}

/// The resources that feed the recipe's edges: its ingredients, or the world
/// root when it has none.
pub open spec fn edge_sources(r: RecipeModel) -> Seq<Seq<char>> {
    if r.ingredients.len() == 0 {
        seq![world_root_name()]
    } else {
        r.ingredients
    }
}

/// Model of an edge: (from, to, recipe name).
pub type EdgeModel = (Seq<char>, Seq<char>, Seq<char>);

/// A production edge: `recipe_name` turns `from` into (among others) `to`.
#[derive(Debug)]
pub struct Edge {
    pub from: String,
    pub to: String,
    pub recipe_name: String,
}

impl View for Edge {
    type V = EdgeModel;

    open spec fn view(&self) -> EdgeModel {
        (self.from@, self.to@, self.recipe_name@)
    }
}

/// A resource with the edges that produce it and the edges that consume it.
#[derive(Debug)]
pub struct ResourceNode {
    pub resource_name: String,
    pub ingress_edges: Vec<Rc<Edge>>,
    pub egress_edges: Vec<Rc<Edge>>,
}

/// The models of a list of edges.
pub open spec fn edge_models(v: Seq<Rc<Edge>>) -> Seq<EdgeModel> {
    v.map_values(|e: Rc<Edge>| e@)
}

/// Copies a list of names, element by element.
pub fn copy_names(v: &Vec<String>) -> (res: Vec<String>)
    ensures
        names_of(res@) == names_of(v@),
{
    let mut res: Vec<String> = Vec::new();
    for i in 0..v.len()
        invariant
            res@.len() == i,
            forall|k: int| 0 <= k < i ==> #[trigger] res@[k]@ == v@[k]@,
    {
        res.push(v[i].clone());
    }
    assert(names_of(res@) =~= names_of(v@));
    res
}

impl Recipe {
    /// A recipe with the same contents.
    pub fn duplicate(&self) -> (res: Recipe)
        ensures
            res@ == self@,
    {
        Recipe {
            recipe_name: self.recipe_name.clone(),
            resources: copy_names(&self.resources),
            products: copy_names(&self.products),
            production_method: copy_names(&self.production_method),
            unlock_tags: copy_names(&self.unlock_tags),
        }
    }
}

} // verus!
