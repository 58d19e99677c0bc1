use ftb::recipes::{Recipe, RecipeCalc, RecipeError, Recipes, Tally};

fn tally(items: &[(&str, u64)]) -> Tally {
    Tally { entries: items.iter().map(|(n, c)| (n.to_string(), *c)).collect() }
}

fn count(t: &Tally, name: &str) -> Option<u64> {
    t.get(&name.to_string())
}

fn recipe(output: &str, quantity: u64, input: &[(&str, u64)]) -> Recipe {
    Recipe {
        output: output.to_string(),
        quantity,
        input: input.iter().map(|(n, c)| (n.to_string(), *c)).collect(),
    }
}

fn fresh_calc(existing: &[(&str, u64)]) -> RecipeCalc {
    RecipeCalc { existing: tally(existing), tocraft: Tally::new(), needed: Tally::new(), used: Tally::new() }
}

#[test]
fn find_crafts_from_stock_and_raw_items() {
    let recipes = Recipes {
        recipes: vec![
            recipe("plank", 4, &[("log", 1)]),
            recipe("stick", 4, &[("plank", 2)]),
        ],
        existing: tally(&[("plank", 1)]),
    };
    let mut calc = fresh_calc(&[("plank", 1)]);
    recipes.find(&"stick".to_string(), &mut calc, 6).unwrap();
    // two crafts of sticks, leaving two sticks over
    assert_eq!(count(&calc.tocraft, "stick"), Some(2));
    assert_eq!(count(&calc.existing, "stick"), Some(2));
    // four planks asked for: one from stock, three crafted from one log
    assert_eq!(count(&calc.used, "plank"), Some(1));
    assert_eq!(count(&calc.tocraft, "plank"), Some(1));
    assert_eq!(count(&calc.existing, "plank"), Some(1));
    assert_eq!(count(&calc.needed, "log"), Some(1));
}

#[test]
fn find_takes_from_stock_only_when_enough() {
    let recipes = Recipes { recipes: Vec::new(), existing: tally(&[("gem", 5)]) };
    let mut calc = fresh_calc(&[("gem", 5)]);
    recipes.find(&"gem".to_string(), &mut calc, 3).unwrap();
    assert_eq!(count(&calc.existing, "gem"), Some(2));
    assert_eq!(count(&calc.used, "gem"), Some(3));
    assert_eq!(count(&calc.needed, "gem"), None);
}

#[test]
fn find_reports_overflow() {
    let recipes = Recipes { recipes: vec![recipe("a", 1, &[("b", u64::MAX)])], existing: Tally::new() };
    let mut calc = fresh_calc(&[]);
    assert_eq!(recipes.find(&"a".to_string(), &mut calc, 2), Err(RecipeError::Overflow));
}

#[test]
fn tally_last_entry_wins() {
    let mut t = tally(&[("a", 1), ("b", 2), ("a", 3)]);
    assert_eq!(count(&t, "a"), Some(3));
    t.set(&"a".to_string(), 9);
    assert_eq!(count(&t, "a"), Some(9));
    assert!(t.add(&"b".to_string(), 1));
    assert_eq!(count(&t, "b"), Some(3));
    assert!(!t.add(&"b".to_string(), u64::MAX));
    assert_eq!(count(&t, "b"), Some(3));
}

#[test]
fn find_stops_on_cycle() {
    let recipes = Recipes {
        recipes: vec![recipe("a", 1, &[("b", 1)]), recipe("b", 1, &[("a", 1)])],
        existing: Tally::new(),
    };
    let mut calc = fresh_calc(&[]);
    assert_eq!(recipes.find(&"a".to_string(), &mut calc, 1), Err(RecipeError::TooDeep));
}

#[test]
fn find_rejects_empty_recipe() {
    let recipes = Recipes { recipes: vec![recipe("a", 0, &[])], existing: Tally::new() };
    let mut calc = fresh_calc(&[]);
    assert_eq!(recipes.find(&"a".to_string(), &mut calc, 1), Err(RecipeError::EmptyRecipe));
}

#[test]
fn find_deep_acyclic_chain() {
    let recipes = Recipes {
        recipes: vec![
            recipe("c", 1, &[("b", 1)]),
            recipe("b", 1, &[("a", 1)]),
            recipe("a", 1, &[("ore", 2)]),
        ],
        existing: Tally::new(),
    };
    let mut calc = fresh_calc(&[]);
    recipes.find(&"c".to_string(), &mut calc, 3).unwrap();
    assert_eq!(count(&calc.needed, "ore"), Some(6));
    assert_eq!(count(&calc.tocraft, "a"), Some(3));
}

#[test]
fn stock_changes_report_used_and_leftovers() {
    let recipes = Recipes {
        recipes: vec![recipe("plank", 4, &[("log", 1)])],
        existing: tally(&[("log", 5), ("plank", 1), ("gem", 2)]),
    };
    let mut calc = fresh_calc(&[("log", 5), ("plank", 1), ("gem", 2)]);
    recipes.find(&"plank".to_string(), &mut calc, 3).unwrap();
    let (used, leftovers) = calc.stock_changes(&recipes.existing);
    assert_eq!(used, vec![("log".to_string(), 1)]);
    assert_eq!(leftovers, vec![("plank".to_string(), 1)]);
}
