use pokemon_filter::codec::{decode_collection, decode_or_empty, encode_collection};
use pokemon_filter::record::Pokemon;

fn sample() -> Vec<Pokemon> {
    vec![
        Pokemon {
            generation: 1,
            name: "Abra".to_string(),
            form: None,
            type1: "Psychic".to_string(),
            type2: None,
            total: 310,
            hp: 25,
            attack: 20,
            defense: 15,
            sp_atk: 105,
            sp_def: 55,
            speed: 90,
            height: 9,
            weight: 195,
        },
        Pokemon {
            generation: 6,
            name: "Gourgeist".to_string(),
            form: Some("Super Size".to_string()),
            type1: "Ghost".to_string(),
            type2: Some("Grass".to_string()),
            total: 494,
            hp: 85,
            attack: 100,
            defense: 122,
            sp_atk: 58,
            sp_def: 75,
            speed: 54,
            height: 17,
            weight: 390,
        },
    ]
}

#[test]
fn round_trip_preserves_every_field() {
    let coll = sample();
    let bytes = encode_collection(&coll);
    let back = decode_collection(&bytes).expect("a fresh encoding must decode");
    assert_eq!(back, coll);
}

#[test]
fn round_trip_of_empty_collection() {
    let coll: Vec<Pokemon> = Vec::new();
    let bytes = encode_collection(&coll);
    let back = decode_collection(&bytes).expect("an empty encoding must decode");
    assert!(back.is_empty());
}

#[test]
fn round_trip_keeps_non_ascii_names() {
    let mut coll = sample();
    coll[0].name = "Flab\u{e9}b\u{e9}".to_string();
    let bytes = encode_collection(&coll);
    let back = decode_collection(&bytes).unwrap();
    assert_eq!(back, coll);
}

#[test]
fn garbage_does_not_decode() {
    let bytes = vec![42u8, 7, 7, 7];
    assert!(decode_collection(&bytes).is_none());
}

#[test]
fn empty_input_does_not_decode() {
    let bytes: Vec<u8> = Vec::new();
    assert!(decode_collection(&bytes).is_none());
}

#[test]
fn wrong_version_byte_is_rejected() {
    let mut bytes = encode_collection(&sample());
    bytes[0] = bytes[0].wrapping_add(1);
    assert!(decode_collection(&bytes).is_none());
}

#[test]
fn truncated_input_is_rejected() {
    let mut bytes = encode_collection(&sample());
    bytes.pop();
    assert!(decode_collection(&bytes).is_none());
}

#[test]
fn trailing_bytes_are_rejected() {
    let mut bytes = encode_collection(&sample());
    bytes.push(0);
    assert!(decode_collection(&bytes).is_none());
}

#[test]
fn decode_or_empty_degrades_to_an_empty_collection() {
    let bytes = vec![9u8, 9, 9];
    assert!(decode_or_empty(&bytes).is_empty());
    let good = encode_collection(&sample());
    assert_eq!(decode_or_empty(&good), sample());
}
