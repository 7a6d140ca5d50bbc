use satisfactory_calc::graph::Graph;
use satisfactory_calc::recipe::{Recipe, WORLD_ROOT};

fn strings(items: &[&str]) -> Vec<String> {
    items.iter().map(|s| s.to_string()).collect()
}

fn recipe(name: &str, ingredients: &[&str], products: &[&str]) -> Recipe {
    Recipe {
        recipe_name: name.to_string(),
        resources: strings(ingredients),
        products: strings(products),
        production_method: strings(&["Constructor"]),
        unlock_tags: vec![],
    }
}

fn sample_recipes() -> Vec<Recipe> {
    vec![
        recipe("Iron Ore", &[], &["Iron Ore"]),
        recipe("Iron Ingot", &["Iron Ore"], &["Iron Ingot"]),
        recipe("Iron Plate", &["Iron Ingot"], &["Iron Plate"]),
        recipe("Crude Oil", &[], &["Crude Oil"]),
        recipe("Plastic", &["Crude Oil"], &["Plastic", "Heavy Oil Residue"]),
        recipe("Rubber", &["Crude Oil"], &["Rubber", "Heavy Oil Residue"]),
        recipe("Screw", &["Iron Plate"], &["Screw"]),
    ]
}

fn index_of(g: &Graph, name: &str) -> usize {
    g.resources.iter().position(|n| n.resource_name == name).unwrap()
}

fn finish(g: &Graph, name: &str) -> u64 {
    g.topological_sort_result[index_of(g, name)].1
}

#[test]
fn test_topological_sort() {
    let inst = Graph::from_recipes(&sample_recipes());
    let mut all_resources: Vec<&str> =
        inst.resources.iter().map(|n| n.resource_name.as_str()).collect();
    all_resources.sort_unstable_by_key(|&s| finish(&inst, s));
    all_resources.reverse();
    println!("{:?}", all_resources);
    // every producer comes before what it produces
    for node in inst.resources.iter() {
        for edge in node.egress_edges.iter() {
            let from = all_resources.iter().position(|s| *s == edge.from).unwrap();
            let to = all_resources.iter().position(|s| *s == edge.to).unwrap();
            assert!(from < to, "{} before {}", edge.from, edge.to);
        }
    }
    assert_eq!(all_resources[0], WORLD_ROOT);
}

#[test]
fn test_times_distinct_and_bounded() {
    let inst = Graph::from_recipes(&sample_recipes());
    let n = inst.resources.len() as u64;
    assert_eq!(inst.topological_sort_result.len(), inst.resources.len());
    let mut seen = Vec::new();
    for &(d, f) in inst.topological_sort_result.iter() {
        assert!(d < f && f < 2 * n);
        seen.push(d);
        seen.push(f);
    }
    seen.sort();
    seen.dedup();
    assert_eq!(seen.len() as u64, 2 * n);
}

#[test]
fn test_add_recipe_nodes_and_edges() {
    let mut g = Graph::new();
    g.add_recipe(&recipe("Plastic", &["Crude Oil"], &["Plastic", "Heavy Oil Residue"]));
    let names: Vec<&str> = g.resources.iter().map(|n| n.resource_name.as_str()).collect();
    assert_eq!(names, vec!["Plastic", "Crude Oil", "Heavy Oil Residue"]);
    let oil = &g.resources[1];
    assert_eq!(oil.egress_edges.len(), 2);
    assert_eq!(oil.egress_edges[0].to, "Plastic");
    assert_eq!(oil.egress_edges[1].to, "Heavy Oil Residue");
    assert_eq!(g.resources[0].ingress_edges.len(), 1);
    assert_eq!(g.resources[0].ingress_edges[0].from, "Crude Oil");
    assert_eq!(g.resources[0].ingress_edges[0].recipe_name, "Plastic");
    assert_eq!(g.recipes.len(), 1);
    // the traversal times are only computed on request
    assert!(g.topological_sort_result.is_empty());
}

#[test]
fn test_add_recipe_without_ingredients_uses_world_root() {
    let mut g = Graph::new();
    g.add_recipe(&recipe("Water", &[], &["Water"]));
    let names: Vec<&str> = g.resources.iter().map(|n| n.resource_name.as_str()).collect();
    assert_eq!(names, vec!["Water", WORLD_ROOT]);
    assert_eq!(g.resources[1].egress_edges[0].to, "Water");
}

#[test]
fn test_add_recipe_replaces_recipe_of_same_name() {
    let mut g = Graph::new();
    g.add_recipe(&recipe("Ingot", &["Ore"], &["Ingot"]));
    g.add_recipe(&recipe("Ingot", &["Scrap"], &["Ingot"]));
    assert_eq!(g.recipes.len(), 1);
    assert_eq!(g.recipes[0].resources, strings(&["Scrap"]));
    // the edges of the first recipe stay, the new ones are added
    let ingot = &g.resources[index_of(&g, "Ingot")];
    assert_eq!(ingot.ingress_edges.len(), 2);
}

#[test]
fn test_add_recipe_without_products_adds_no_node() {
    let mut g = Graph::new();
    g.add_recipe(&recipe("Sink", &["Trash"], &[]));
    assert!(g.resources.is_empty());
    assert_eq!(g.recipes.len(), 1);
}

#[test]
fn test_from_recipes_last_of_a_name_wins() {
    let recipes = vec![
        recipe("Ingot", &["Ore"], &["Ingot"]),
        recipe("Ingot", &["Scrap"], &["Ingot"]),
    ];
    let g = Graph::from_recipes(&recipes);
    assert_eq!(g.recipes.len(), 1);
    assert_eq!(g.recipes[0].resources, strings(&["Scrap"]));
    let names: Vec<&str> = g.resources.iter().map(|n| n.resource_name.as_str()).collect();
    assert_eq!(names, vec!["Ingot", "Scrap"]);
}

#[test]
fn test_find_all_related() {
    let g = Graph::from_recipes(&sample_recipes());
    let (resources, recipes) = g.find_all_related(&strings(&["Plastic"]));
    // the byproduct of Plastic brings in the other recipe that makes it
    assert_eq!(recipes, strings(&["Crude Oil", "Plastic", "Rubber"]));
    let mut sorted = resources.clone();
    sorted.sort();
    assert_eq!(
        sorted,
        strings(&["Crude Oil", "Heavy Oil Residue", "Plastic", "Rubber", WORLD_ROOT])
    );
    assert_eq!(resources[0], WORLD_ROOT);
    assert_eq!(resources[1], "Crude Oil");
    for w in resources.windows(2) {
        assert!(finish(&g, &w[0]) > finish(&g, &w[1]));
    }
}

#[test]
fn test_find_all_related_follows_chains() {
    let g = Graph::from_recipes(&sample_recipes());
    let (resources, recipes) = g.find_all_related(&strings(&["Screw"]));
    assert_eq!(recipes, strings(&["Iron Ingot", "Iron Ore", "Iron Plate", "Screw"]));
    assert_eq!(
        resources,
        strings(&[WORLD_ROOT, "Iron Ore", "Iron Ingot", "Iron Plate", "Screw"])
    );
}

#[test]
fn test_find_all_related_byproducts() {
    // every recipe that makes the target takes part, with all its products
    let g = Graph::from_recipes(&sample_recipes());
    let (resources, recipes) = g.find_all_related(&strings(&["Heavy Oil Residue"]));
    assert_eq!(recipes, strings(&["Crude Oil", "Plastic", "Rubber"]));
    let mut sorted = resources.clone();
    sorted.sort();
    assert_eq!(
        sorted,
        strings(&["Crude Oil", "Heavy Oil Residue", "Plastic", "Rubber", WORLD_ROOT])
    );
}

#[test]
fn test_find_all_related_of_nothing() {
    let g = Graph::from_recipes(&sample_recipes());
    let (resources, recipes) = g.find_all_related(&vec![]);
    assert!(resources.is_empty());
    assert!(recipes.is_empty());
}

#[test]
fn test_expand_coverage() {
    let g = Graph::from_recipes(&sample_recipes());
    let mut available = strings(&["Iron Ore"]);
    g.expand_coverage(&mut available);
    assert_eq!(available, strings(&["Iron Ore", "Iron Ingot", "Iron Plate", "Screw"]));
    let mut again = available.clone();
    g.expand_coverage(&mut again);
    assert_eq!(again, available);
}

#[test]
fn test_expand_coverage_needs_every_ingredient() {
    let recipes = vec![
        recipe("Alloy", &["Copper", "Iron"], &["Alloy"]),
        recipe("Wire", &["Copper"], &["Wire"]),
    ];
    let g = Graph::from_recipes(&recipes);
    let mut available = strings(&["Copper"]);
    g.expand_coverage(&mut available);
    assert_eq!(available, strings(&["Copper", "Wire"]));
    let mut both = strings(&["Copper", "Iron"]);
    g.expand_coverage(&mut both);
    let mut sorted = both.clone();
    sorted.sort();
    assert_eq!(sorted, strings(&["Alloy", "Copper", "Iron", "Wire"]));
}

#[test]
fn test_expand_coverage_from_world_root() {
    let g = Graph::from_recipes(&sample_recipes());
    let mut available = strings(&[WORLD_ROOT]);
    g.expand_coverage(&mut available);
    assert_eq!(available.len(), g.resources.len());
}

#[test]
fn test_select() {
    let g = Graph::from_recipes(&sample_recipes());
    let sub = g.select(&strings(&["Iron Ingot", "Iron Plate"]));
    assert_eq!(sub.recipes.len(), 2);
    let mut names: Vec<&str> = sub.resources.iter().map(|n| n.resource_name.as_str()).collect();
    names.sort();
    assert_eq!(names, vec!["Iron Ingot", "Iron Ore", "Iron Plate"]);
    assert_eq!(sub.topological_sort_result.len(), 3);
    assert!(finish(&sub, "Iron Ore") > finish(&sub, "Iron Ingot"));
    assert!(finish(&sub, "Iron Ingot") > finish(&sub, "Iron Plate"));
}

#[test]
fn test_sort_topologically() {
    let g = Graph::from_recipes(&sample_recipes());
    let mut list = strings(&["Screw", "Iron Ore", "Iron Plate", "Iron Ingot"]);
    g.sort_topologically(&mut list);
    assert_eq!(list, strings(&["Iron Ore", "Iron Ingot", "Iron Plate", "Screw"]));
}

#[test]
fn test_find_resource_and_recipe() {
    let g = Graph::from_recipes(&sample_recipes());
    assert!(g.find_resource(&"Plastic".to_string()).is_some());
    assert!(g.find_resource(&"Gold".to_string()).is_none());
    assert_eq!(g.find_recipe(&"Rubber".to_string()), Some(5));
    assert_eq!(g.find_recipe(&"Gold".to_string()), None);
}

#[test]
fn test_cycle_keeps_times_valid() {
    // a loop: recycled plastic turns into rubber and back
    let recipes = vec![
        recipe("Recycled Plastic", &["Rubber"], &["Plastic"]),
        recipe("Recycled Rubber", &["Plastic"], &["Rubber"]),
    ];
    let g = Graph::from_recipes(&recipes);
    assert_eq!(g.resources.len(), 2);
    for &(d, f) in g.topological_sort_result.iter() {
        assert!(d < f && f < 4);
    }
}

#[test]
fn test_expand_coverage_grows_with_start() {
    let g = Graph::from_recipes(&sample_recipes());
    let mut small = strings(&["Iron Ore"]);
    g.expand_coverage(&mut small);
    let mut large = strings(&["Iron Ore", "Crude Oil"]);
    g.expand_coverage(&mut large);
    for name in small.iter() {
        assert!(large.contains(name), "{} lost", name);
    }
    assert!(large.contains(&"Plastic".to_string()));
    assert!(!small.contains(&"Plastic".to_string()));
}

#[test]
fn test_find_all_related_depends_on_target_set() {
    let g = Graph::from_recipes(&sample_recipes());
    let a = g.find_all_related(&strings(&["Screw", "Plastic"]));
    let b = g.find_all_related(&strings(&["Plastic", "Screw", "Plastic", "Screw"]));
    assert_eq!(a, b);
    assert_eq!(a.1, strings(&["Crude Oil", "Iron Ingot", "Iron Ore", "Iron Plate", "Plastic", "Rubber", "Screw"]));
}

#[test]
fn test_edges_listed_once_at_each_end() {
    let mut recipes = sample_recipes();
    // a recipe whose ingredient is also its product
    recipes.push(recipe("Loop", &["Iron Plate"], &["Iron Plate", "Screw"]));
    let g = Graph::from_recipes(&recipes);
    let key = |e: &std::rc::Rc<satisfactory_calc::recipe::Edge>| (e.from.clone(), e.to.clone(), e.recipe_name.clone());
    let mut out: Vec<_> = g.resources.iter().flat_map(|n| n.egress_edges.iter().map(key)).collect();
    let mut inn: Vec<_> = g.resources.iter().flat_map(|n| n.ingress_edges.iter().map(key)).collect();
    out.sort();
    inn.sort();
    assert_eq!(out, inn);
    assert_eq!(out.len(), 11);
    // both lists hold the same edge, not two copies of it
    for node in g.resources.iter() {
        for e in node.egress_edges.iter() {
            let target = &g.resources[index_of(&g, &e.to)];
            assert!(target.ingress_edges.iter().any(|f| std::rc::Rc::ptr_eq(e, f)));
        }
    }
}

#[test]
fn test_expand_coverage_appends_each_name_once() {
    let recipes = vec![
        recipe("Wire", &["Copper"], &["Wire"]),
        recipe("Fast Wire", &["Copper"], &["Wire"]),
        recipe("Cable", &["Wire"], &["Cable"]),
    ];
    let g = Graph::from_recipes(&recipes);
    let mut available = strings(&["Copper"]);
    g.expand_coverage(&mut available);
    assert_eq!(available, strings(&["Copper", "Wire", "Cable"]));
}

#[test]
fn test_sort_topologically_keeps_order_of_equal_times() {
    let mut g = Graph::from_recipes(&sample_recipes());
    // give two resources the same finish time
    let ore = index_of(&g, "Iron Ore");
    let ingot = index_of(&g, "Iron Ingot");
    let plate = index_of(&g, "Iron Plate");
    g.topological_sort_result[ore].1 = 50;
    g.topological_sort_result[ingot].1 = 50;
    g.topological_sort_result[plate].1 = 60;
    let mut list = strings(&["Iron Ingot", "Iron Ore", "Iron Plate"]);
    g.sort_topologically(&mut list);
    assert_eq!(list, strings(&["Iron Plate", "Iron Ingot", "Iron Ore"]));
    let mut list = strings(&["Iron Ore", "Iron Plate", "Iron Ingot"]);
    g.sort_topologically(&mut list);
    assert_eq!(list, strings(&["Iron Plate", "Iron Ore", "Iron Ingot"]));
}

fn edge_list(edges: &[std::rc::Rc<satisfactory_calc::recipe::Edge>]) -> Vec<(String, String, String)> {
    edges.iter().map(|e| (e.from.clone(), e.to.clone(), e.recipe_name.clone())).collect()
}

fn triple(from: &str, to: &str, recipe: &str) -> (String, String, String) {
    (from.to_string(), to.to_string(), recipe.to_string())
}

#[test]
fn test_select_lists_edges_in_selection_order() {
    let g = Graph::from_recipes(&sample_recipes());
    let sub = g.select(&strings(&["Rubber", "Plastic"]));
    let oil = &sub.resources[index_of(&sub, "Crude Oil")];
    assert_eq!(
        edge_list(&oil.egress_edges),
        vec![
            triple("Crude Oil", "Rubber", "Rubber"),
            triple("Crude Oil", "Heavy Oil Residue", "Rubber"),
            triple("Crude Oil", "Plastic", "Plastic"),
            triple("Crude Oil", "Heavy Oil Residue", "Plastic"),
        ]
    );
    let residue = &sub.resources[index_of(&sub, "Heavy Oil Residue")];
    assert_eq!(
        edge_list(&residue.ingress_edges),
        vec![
            triple("Crude Oil", "Heavy Oil Residue", "Rubber"),
            triple("Crude Oil", "Heavy Oil Residue", "Plastic"),
        ]
    );
}

#[test]
fn test_from_recipes_adds_edges_of_last_recipe_once() {
    let recipes = vec![
        recipe("Ingot", &["Ore"], &["Ingot"]),
        recipe("Ingot", &["Scrap"], &["Ingot"]),
    ];
    let g = Graph::from_recipes(&recipes);
    let ingot = &g.resources[index_of(&g, "Ingot")];
    assert_eq!(edge_list(&ingot.ingress_edges), vec![triple("Scrap", "Ingot", "Ingot")]);
    let total: usize = g.resources.iter().map(|n| n.egress_edges.len()).sum();
    assert_eq!(total, 1);
}
