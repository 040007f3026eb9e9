use pokemon_filter::filter::FilterState;
use pokemon_filter::record::Pokemon;

fn mk(name: &str, type1: &str, type2: Option<&str>, gen: u8, hp: u8) -> Pokemon {
    Pokemon {
        generation: gen,
        name: name.to_string(),
        form: None,
        type1: type1.to_string(),
        type2: type2.map(|t| t.to_string()),
        total: 300,
        hp,
        attack: 50,
        defense: 50,
        sp_atk: 50,
        sp_def: 50,
        speed: 50,
        height: 10,
        weight: 100,
    }
}

fn abra_machop() -> Vec<Pokemon> {
    vec![
        mk("Abra", "Psychic", None, 1, 25),
        mk("Machop", "Fighting", None, 1, 70),
    ]
}

#[test]
fn default_filter_returns_whole_collection_in_order() {
    let coll = abra_machop();
    let f = FilterState::new(200, 10000);
    let out = pokemon_filter::filter::evaluate(&coll, &f);
    assert_eq!(out, coll);
}

#[test]
fn evaluate_twice_yields_identical_output() {
    let coll = abra_machop();
    let mut f = FilterState::new(200, 10000);
    f.min_hp = 30;
    let a = pokemon_filter::filter::evaluate(&coll, &f);
    let b = pokemon_filter::filter::evaluate(&coll, &f);
    assert_eq!(a, b);
}

#[test]
fn min_hp_keeps_only_machop() {
    let coll = abra_machop();
    let mut f = FilterState::new(200, 10000);
    f.min_hp = 30;
    let out = pokemon_filter::filter::evaluate(&coll, &f);
    assert_eq!(out.len(), 1);
    assert_eq!(out[0].name, "Machop");
}

#[test]
fn excluding_psychic_removes_abra_whatever_the_selector_says() {
    let coll = abra_machop();
    let mut f = FilterState::new(200, 10000);
    f.add_excluded_category("Psychic".to_string());
    let out = pokemon_filter::filter::evaluate(&coll, &f);
    assert_eq!(out.len(), 1);
    assert_eq!(out[0].name, "Machop");

    // Exclusion dominates even when the selector targets the same category.
    f.category1_selector = Some("Psychic".to_string());
    let out2 = pokemon_filter::filter::evaluate(&coll, &f);
    assert!(out2.is_empty());
}

#[test]
fn excluding_a_secondary_category_removes_its_bearers() {
    let coll = vec![
        mk("Gyarados", "Water", Some("Flying"), 1, 95),
        mk("Machop", "Fighting", None, 1, 70),
    ];
    let mut f = FilterState::new(200, 10000);
    f.add_excluded_category("Flying".to_string());
    let out = pokemon_filter::filter::evaluate(&coll, &f);
    assert_eq!(out.len(), 1);
    assert_eq!(out[0].name, "Machop");
}

#[test]
fn remove_excluded_category_restores_matches() {
    let coll = abra_machop();
    let mut f = FilterState::new(200, 10000);
    f.add_excluded_category("Psychic".to_string());
    f.remove_excluded_category(&"Psychic".to_string());
    let out = pokemon_filter::filter::evaluate(&coll, &f);
    assert_eq!(out, coll);
}

#[test]
fn name_substring_is_case_insensitive() {
    let coll = abra_machop();
    let mut f = FilterState::new(200, 10000);
    f.name_substring = "ac".to_string();
    let out = pokemon_filter::filter::evaluate(&coll, &f);
    assert_eq!(out.len(), 1);
    assert_eq!(out[0].name, "Machop");

    f.name_substring = "AC".to_string();
    let out2 = pokemon_filter::filter::evaluate(&coll, &f);
    assert_eq!(out2.len(), 1);
    assert_eq!(out2[0].name, "Machop");
}

#[test]
fn category1_selector_is_case_insensitive() {
    let coll = abra_machop();
    let mut f = FilterState::new(200, 10000);
    f.category1_selector = Some("psychic".to_string());
    let out = pokemon_filter::filter::evaluate(&coll, &f);
    assert_eq!(out.len(), 1);
    assert_eq!(out[0].name, "Abra");
}

#[test]
fn absent_secondary_category_matches_only_match_any() {
    let coll = vec![
        mk("Abra", "Psychic", None, 1, 25),
        mk("Gyarados", "Water", Some("Flying"), 1, 95),
    ];
    let mut f = FilterState::new(200, 10000);
    // Match-any keeps the record with no secondary category.
    let out = pokemon_filter::filter::evaluate(&coll, &f);
    assert_eq!(out, coll);
    // A concrete selector never matches absence.
    f.category2_selector = Some("Flying".to_string());
    let out2 = pokemon_filter::filter::evaluate(&coll, &f);
    assert_eq!(out2.len(), 1);
    assert_eq!(out2[0].name, "Gyarados");
}

#[test]
fn secondary_selector_is_case_insensitive() {
    let coll = vec![mk("Gyarados", "Water", Some("Flying"), 1, 95)];
    let mut f = FilterState::new(200, 10000);
    f.category2_selector = Some("flying".to_string());
    let out = pokemon_filter::filter::evaluate(&coll, &f);
    assert_eq!(out.len(), 1);
}

#[test]
fn generation_range_filters_inclusively() {
    let coll = vec![
        mk("A", "Grass", None, 1, 10),
        mk("B", "Grass", None, 3, 10),
        mk("C", "Grass", None, 5, 10),
    ];
    let mut f = FilterState::new(200, 10000);
    f.min_generation = 2;
    f.max_generation = 3;
    let out = pokemon_filter::filter::evaluate(&coll, &f);
    assert_eq!(out.len(), 1);
    assert_eq!(out[0].name, "B");
}

#[test]
fn raising_min_generation_drags_max_up() {
    let mut f = FilterState::new(200, 10000);
    f.set_max_generation(4);
    f.set_min_generation(7);
    assert_eq!(f.min_generation, 7);
    assert_eq!(f.max_generation, 7);
    assert!(f.min_generation <= f.max_generation);
}

#[test]
fn lowering_max_generation_drags_min_down() {
    let mut f = FilterState::new(200, 10000);
    f.set_min_generation(5);
    f.set_max_generation(2);
    assert_eq!(f.min_generation, 2);
    assert_eq!(f.max_generation, 2);
}

#[test]
fn height_and_weight_bounds_stay_ordered() {
    let mut f = FilterState::new(200, 10000);
    f.set_min_height(250);
    assert_eq!(f.max_height, 250);
    assert!(f.min_height <= f.max_height);
    f.set_max_height(100);
    assert!(f.min_height <= f.max_height);
    f.set_min_weight(20000);
    assert_eq!(f.max_weight, 20000);
    f.set_max_weight(5);
    assert!(f.min_weight <= f.max_weight);
}

#[test]
fn degenerate_range_yields_empty_not_error() {
    let coll = abra_machop();
    let mut f = FilterState::new(200, 10000);
    f.min_generation = 9;
    f.max_generation = 1;
    let out = pokemon_filter::filter::evaluate(&coll, &f);
    assert!(out.is_empty());
}

#[test]
fn empty_collection_evaluates_to_empty() {
    let coll: Vec<Pokemon> = Vec::new();
    let f = FilterState::new(0, 0);
    let out = pokemon_filter::filter::evaluate(&coll, &f);
    assert!(out.is_empty());
}

#[test]
fn height_range_filters_in_tenths() {
    let coll = vec![
        mk("Short", "Grass", None, 1, 10),
        Pokemon {
            height: 170,
            ..mk("Tall", "Grass", None, 1, 10)
        },
    ];
    let mut f = FilterState::new(200, 10000);
    f.min_height = 100;
    let out = pokemon_filter::filter::evaluate(&coll, &f);
    assert_eq!(out.len(), 1);
    assert_eq!(out[0].name, "Tall");
}
