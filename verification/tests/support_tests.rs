use satisfactory_calc::graph::Graph;
use satisfactory_calc::image::{generate_item_image_link, image_link_from_digest, picture_file_name};
use satisfactory_calc::planner::{position_of, remove_row};
use satisfactory_calc::recipe::{copy_names, Recipe, WORLD_ROOT};
use satisfactory_calc::text::{contains_name, name_less, names_with_prefix, sort_names, starts_with_name};

fn strings(items: &[&str]) -> Vec<String> {
    items.iter().map(|s| s.to_string()).collect()
}

fn recipe(name: &str, ingredients: &[&str], products: &[&str]) -> Recipe {
    Recipe {
        recipe_name: name.to_string(),
        resources: strings(ingredients),
        products: strings(products),
        production_method: vec![],
        unlock_tags: vec![],
    }
}

#[test]
fn test_generate_item_image_link() {
    assert_eq!(
        generate_item_image_link("Iron Plate"),
        "https://satisfactory.wiki.gg/images/5/51/Iron_Plate.png"
    );
    assert_eq!(
        generate_item_image_link("Plastic"),
        "https://satisfactory.wiki.gg/images/0/0b/Plastic.png"
    );
    assert_eq!(
        generate_item_image_link("Crude Oil"),
        "https://satisfactory.wiki.gg/images/6/60/Crude_Oil.png"
    );
}

#[test]
fn test_picture_file_name() {
    assert_eq!(picture_file_name("Heavy Oil Residue"), "Heavy_Oil_Residue.png");
    assert_eq!(picture_file_name(""), ".png");
    assert_eq!(picture_file_name("Ünïcode Ore"), "Ünïcode_Ore.png");
}

#[test]
fn test_image_link_from_digest() {
    let link = image_link_from_digest(&"A.png".to_string(), &vec![0xf3, 0x00]);
    assert_eq!(link, "https://satisfactory.wiki.gg/images/f/f3/A.png");
    let link = image_link_from_digest(&"B.png".to_string(), &vec![0x0a]);
    assert_eq!(link, "https://satisfactory.wiki.gg/images/0/0a/B.png");
}

#[test]
fn test_name_less() {
    assert!(name_less(&"Iron".to_string(), &"Iron Ore".to_string()));
    assert!(!name_less(&"Iron Ore".to_string(), &"Iron".to_string()));
    assert!(name_less(&"Copper".to_string(), &"Iron".to_string()));
    assert!(!name_less(&"Iron".to_string(), &"Iron".to_string()));
    assert!(name_less(&"Zinc".to_string(), &"alloy".to_string()));
    assert!(name_less(&"".to_string(), &"a".to_string()));
}

#[test]
fn test_sort_names() {
    let sorted = sort_names(strings(&["Screw", "Alloy", "Iron Plate", "Iron", "Éclair"]));
    let mut expected = strings(&["Screw", "Alloy", "Iron Plate", "Iron", "Éclair"]);
    expected.sort();
    assert_eq!(sorted, expected);
}

#[test]
fn test_contains_name() {
    let v = strings(&["a", "b"]);
    assert!(contains_name(&v, &"b".to_string()));
    assert!(!contains_name(&v, &"c".to_string()));
}

#[test]
fn test_copy_names() {
    let v = strings(&["x", "y"]);
    assert_eq!(copy_names(&v), v);
    let r = recipe("R", &["x"], &["y"]);
    let d = r.duplicate();
    assert_eq!(d.recipe_name, "R");
    assert_eq!(d.resources, strings(&["x"]));
    assert_eq!(d.products, strings(&["y"]));
}

#[test]
fn test_position_of() {
    let v = strings(&["a", "b", "a"]);
    assert_eq!(position_of(&v, &"a".to_string()), Some(0));
    assert_eq!(position_of(&v, &"b".to_string()), Some(1));
    assert_eq!(position_of(&v, &"z".to_string()), None);
}

#[test]
fn test_matrix_positions() {
    let g = Graph::from_recipes(&vec![
        recipe("Plastic", &["Crude Oil"], &["Plastic", "Heavy Oil Residue"]),
        recipe("Crude Oil", &[], &["Crude Oil"]),
    ]);
    let resources = strings(&[WORLD_ROOT, "Crude Oil", "Heavy Oil Residue", "Plastic"]);
    let layout = g.matrix_positions(&strings(&["Crude Oil", "Plastic"]), &resources);
    assert_eq!(layout.len(), 2);
    assert_eq!(layout[0], (vec![], vec![1]));
    assert_eq!(layout[1], (vec![1], vec![3, 2]));
}

#[test]
fn test_order_by_ingredients() {
    let g = Graph::from_recipes(&vec![
        recipe("Iron Ore", &[], &["Iron Ore"]),
        recipe("Iron Ingot", &["Iron Ore"], &["Iron Ingot"]),
        recipe("Iron Plate", &["Iron Ingot"], &["Iron Plate"]),
    ]);
    let chosen = strings(&["Iron Plate", "Iron Ore", "Iron Ingot"]);
    let sub = g.select(&chosen);
    let order = g.order_by_ingredients(&sub, &chosen);
    let names: Vec<&str> = order.iter().map(|&i| chosen[i].as_str()).collect();
    // the recipe without ingredients has the largest key, then upstream first
    assert_eq!(names, vec!["Iron Ore", "Iron Ingot", "Iron Plate"]);
    assert_eq!(
        g.ingredient_finish_key(&sub, &"Iron Ore".to_string()),
        u64::MAX
    );
}

#[test]
fn test_starts_with_name() {
    let s = |x: &str| x.to_string();
    assert!(starts_with_name(&s("Iron Plate"), &s("Iron")));
    assert!(starts_with_name(&s("Iron Plate"), &s("")));
    assert!(starts_with_name(&s("Iron"), &s("Iron")));
    assert!(!starts_with_name(&s("Iron"), &s("Iron Plate")));
    assert!(!starts_with_name(&s("Iron Plate"), &s("iron")));
    assert!(!starts_with_name(&s(""), &s("a")));
}

#[test]
fn test_names_with_prefix() {
    let all = strings(&["Iron Ore", "Copper Ore", "Iron Plate", "Iron", "Plastic"]);
    assert_eq!(
        names_with_prefix(&all, &"Iron".to_string()),
        strings(&["Iron Ore", "Iron Plate", "Iron"])
    );
    assert_eq!(names_with_prefix(&all, &"".to_string()), all);
    assert!(names_with_prefix(&all, &"Rubber".to_string()).is_empty());
}

#[test]
fn test_remove_row() {
    let mut rows = strings(&["a", "b", "c"]);
    remove_row(&mut rows, 1);
    assert_eq!(rows, strings(&["a", "c"]));
    remove_row(&mut rows, usize::MAX);
    assert_eq!(rows, strings(&["a"]));
    let mut amounts = vec![1.0_f64, 2.5];
    remove_row(&mut amounts, 0);
    assert_eq!(amounts, vec![2.5]);
    let mut empty: Vec<String> = vec![];
    remove_row(&mut empty, usize::MAX);
    assert!(empty.is_empty());
}
