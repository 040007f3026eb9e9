use pokemon_filter::index::{
    distinct_categories, distinct_generations, max_height_tenths, max_weight_tenths,
};
use pokemon_filter::record::Pokemon;

fn mk(name: &str, type1: &str, type2: Option<&str>, gen: u8, height: u32, weight: u32) -> Pokemon {
    Pokemon {
        generation: gen,
        name: name.to_string(),
        form: None,
        type1: type1.to_string(),
        type2: type2.map(|t| t.to_string()),
        total: 300,
        hp: 50,
        attack: 50,
        defense: 50,
        sp_atk: 50,
        sp_def: 50,
        speed: 50,
        height,
        weight,
    }
}

#[test]
fn categories_are_distinct_and_sorted() {
    let coll = vec![
        mk("A", "Water", Some("Flying"), 1, 10, 100),
        mk("B", "Fighting", None, 2, 10, 100),
        mk("C", "Water", Some("Dark"), 3, 10, 100),
        mk("D", "Dark", Some("Water"), 3, 10, 100),
    ];
    let cats = distinct_categories(&coll);
    assert_eq!(cats, vec!["Dark", "Fighting", "Flying", "Water"]);
}

#[test]
fn empty_secondary_category_is_ignored() {
    let coll = vec![mk("A", "Water", Some(""), 1, 10, 100)];
    let cats = distinct_categories(&coll);
    assert_eq!(cats, vec!["Water"]);
}

#[test]
fn generations_are_distinct_and_sorted() {
    let coll = vec![
        mk("A", "Water", None, 5, 10, 100),
        mk("B", "Water", None, 1, 10, 100),
        mk("C", "Water", None, 5, 10, 100),
        mk("D", "Water", None, 3, 10, 100),
    ];
    assert_eq!(distinct_generations(&coll), vec![1, 3, 5]);
}

#[test]
fn max_height_is_the_ceiling_of_the_maximum() {
    let coll = vec![
        mk("A", "Water", None, 1, 4, 60),
        mk("B", "Water", None, 1, 17, 95),
    ];
    // 1.7 m rounds up to 2 m, i.e. 20 tenths.
    assert_eq!(max_height_tenths(&coll), 20);
    // 9.5 kg rounds up to 10 kg, i.e. 100 tenths.
    assert_eq!(max_weight_tenths(&coll), 100);
}

#[test]
fn exact_multiples_are_not_rounded_further() {
    let coll = vec![mk("A", "Water", None, 1, 20, 400)];
    assert_eq!(max_height_tenths(&coll), 20);
    assert_eq!(max_weight_tenths(&coll), 400);
}

#[test]
fn empty_collection_has_zero_maxima_and_no_choices() {
    let coll: Vec<Pokemon> = Vec::new();
    assert_eq!(max_height_tenths(&coll), 0);
    assert_eq!(max_weight_tenths(&coll), 0);
    assert!(distinct_categories(&coll).is_empty());
    assert!(distinct_generations(&coll).is_empty());
}
