use pokemon_filter::rowparse::{find_columns, parse_row, Field};

fn headers() -> Vec<String> {
    [
        "Generation", "Name", "Form", "Type1", "Type2", "Total", "HP", "Attack", "Defense",
        "Sp. Atk", "Sp. Def", "Speed", "Height", "Weight",
    ]
    .iter()
    .map(|s| s.to_string())
    .collect()
}

fn row(cells: &[&str]) -> Vec<String> {
    cells.iter().map(|s| s.to_string()).collect()
}

#[test]
fn find_columns_in_order() {
    let m = find_columns(&headers()).expect("all columns present");
    assert_eq!(m.generation, 0);
    assert_eq!(m.name, 1);
    assert_eq!(m.sp_atk, 9);
    assert_eq!(m.weight, 13);
}

#[test]
fn find_columns_tolerates_reordering() {
    let mut h = headers();
    h.reverse();
    let m = find_columns(&h).expect("all columns present");
    assert_eq!(m.weight, 0);
    assert_eq!(m.generation, 13);
}

#[test]
fn missing_column_is_named() {
    let h: Vec<String> = headers().into_iter().filter(|c| c != "HP").collect();
    let e = find_columns(&h).expect_err("HP is missing");
    assert_eq!(e, "HP");
}

#[test]
fn column_lookup_is_case_sensitive() {
    let mut h = headers();
    h[0] = "generation".to_string();
    let e = find_columns(&h).expect_err("lookup is exact");
    assert_eq!(e, "Generation");
}

#[test]
fn parse_row_decodes_every_field() {
    let m = find_columns(&headers()).unwrap();
    let cells = row(&[
        "1", "Abra", "", "Psychic", "", "310", "25", "20", "15", "105", "55", "90", "0.9",
        "19.5",
    ]);
    let p = parse_row(&cells, &m).expect("the row is well formed");
    assert_eq!(p.generation, 1);
    assert_eq!(p.name, "Abra");
    assert_eq!(p.form, None);
    assert_eq!(p.type1, "Psychic");
    assert_eq!(p.type2, None);
    assert_eq!(p.total, 310);
    assert_eq!(p.hp, 25);
    assert_eq!(p.sp_atk, 105);
    assert_eq!(p.height, 9);
    assert_eq!(p.weight, 195);
}

#[test]
fn optional_cells_are_trimmed_and_normalized() {
    let m = find_columns(&headers()).unwrap();
    let cells = row(&[
        "6", "Gourgeist", " Super Size ", "Ghost", "   ", "494", "85", "100", "122", "58",
        "75", "54", "1.7", "39.0",
    ]);
    let p = parse_row(&cells, &m).unwrap();
    assert_eq!(p.form, Some("Super Size".to_string()));
    assert_eq!(p.type2, None);
}

#[test]
fn bad_numeric_cell_names_its_field() {
    let m = find_columns(&headers()).unwrap();
    let cells = row(&[
        "1", "Abra", "", "Psychic", "", "310", "abc", "20", "15", "105", "55", "90", "0.9",
        "19.5",
    ]);
    assert_eq!(parse_row(&cells, &m), Err(Field::Hp));
}

#[test]
fn out_of_range_stat_names_its_field() {
    let m = find_columns(&headers()).unwrap();
    let cells = row(&[
        "1", "Abra", "", "Psychic", "", "310", "25", "300", "15", "105", "55", "90", "0.9",
        "19.5",
    ]);
    assert_eq!(parse_row(&cells, &m), Err(Field::Attack));
}

#[test]
fn malformed_decimal_names_its_field() {
    let m = find_columns(&headers()).unwrap();
    let cells = row(&[
        "1", "Abra", "", "Psychic", "", "310", "25", "20", "15", "105", "55", "90", "1.2.3",
        "19.5",
    ]);
    assert_eq!(parse_row(&cells, &m), Err(Field::Height));
}

#[test]
fn first_bad_field_wins() {
    let m = find_columns(&headers()).unwrap();
    let cells = row(&[
        "x", "Abra", "", "Psychic", "", "x", "x", "x", "x", "x", "x", "x", "x", "x",
    ]);
    assert_eq!(parse_row(&cells, &m), Err(Field::Generation));
}

#[test]
fn short_rows_default_to_zero_and_absent() {
    let m = find_columns(&headers()).unwrap();
    let cells = row(&["2", "Mew"]);
    let p = parse_row(&cells, &m).unwrap();
    assert_eq!(p.generation, 2);
    assert_eq!(p.name, "Mew");
    assert_eq!(p.form, None);
    assert_eq!(p.type1, "");
    assert_eq!(p.hp, 0);
    assert_eq!(p.height, 0);
}

#[test]
fn whole_number_decimal_cells_parse() {
    let m = find_columns(&headers()).unwrap();
    let cells = row(&[
        "1", "Abra", "", "Psychic", "", "310", "25", "20", "15", "105", "55", "90", "2",
        "40",
    ]);
    let p = parse_row(&cells, &m).unwrap();
    assert_eq!(p.height, 20);
    assert_eq!(p.weight, 400);
}

#[test]
fn extra_fraction_digits_are_truncated_to_tenths() {
    let m = find_columns(&headers()).unwrap();
    let cells = row(&[
        "1", "Abra", "", "Psychic", "", "310", "25", "20", "15", "105", "55", "90", "0.99",
        "19.51",
    ]);
    let p = parse_row(&cells, &m).unwrap();
    assert_eq!(p.height, 9);
    assert_eq!(p.weight, 195);
}
