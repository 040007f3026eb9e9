//! The record schema: one creature entry and its mathematical view.
//!
//! Heights and weights are carried in tenths of a unit (decimetres and
//! hectograms), so that every field is a plain integer or a string and the
//! whole record can be spoken about exactly in contracts.

use vstd::prelude::*;

verus! {

/// One creature entry. The collection is an ordered `Vec<Pokemon>`, replaced
/// wholesale on reload and never mutated in place.
#[derive(Debug, Clone, PartialEq)]
pub struct Pokemon {
    pub generation: u8,
    pub name: String,
    /// Optional variant label; `None` is distinct from an empty string.
    pub form: Option<String>,
    /// Primary category, always present.
    pub type1: String,
    /// Optional secondary category; an empty string from source data is
    /// normalized to `None` when a row is decoded.
    pub type2: Option<String>,
    pub total: u16,
    pub hp: u8,
    pub attack: u8,
    pub defense: u8,
    pub sp_atk: u8,
    pub sp_def: u8,
    pub speed: u8,
    /// Height in tenths of a metre.
    pub height: u32,
    /// Weight in tenths of a kilogram.
    pub weight: u32,
}

/// The mathematical view of a record: every string as its character sequence.
#[verifier::ext_equal]
pub ghost struct RecordV {
    pub generation: u8,
    pub name: Seq<char>,
    pub form: Option<Seq<char>>,
    pub type1: Seq<char>,
    pub type2: Option<Seq<char>>,
    pub total: u16,
    pub hp: u8,
    pub attack: u8,
    pub defense: u8,
    pub sp_atk: u8,
    pub sp_def: u8,
    pub speed: u8,
    pub height: u32,
    pub weight: u32,
}

pub open spec fn opt_view(o: Option<String>) -> Option<Seq<char>> {
    match o {
        Some(s) => Some(s@),
        None => None,
    }
}

impl View for Pokemon {
    type V = RecordV;

    open spec fn view(&self) -> RecordV {
        RecordV {
            generation: self.generation,
            name: self.name@,
            form: opt_view(self.form),
            type1: self.type1@,
            type2: opt_view(self.type2),
            total: self.total,
            hp: self.hp,
            attack: self.attack,
            defense: self.defense,
            sp_atk: self.sp_atk,
            sp_def: self.sp_def,
            speed: self.speed,
            height: self.height,
            weight: self.weight,
        }
    }
}

/// A record is well formed when its optional categories never carry an empty
/// string: emptiness is expressed by absence alone.
pub open spec fn record_wf(r: RecordV) -> bool {
    &&& (r.type2 matches Some(t) ==> t.len() > 0)
    &&& (r.form matches Some(f) ==> f.len() > 0)
}

impl Pokemon {
    /// A field-by-field copy whose view equals the original's.
    pub fn duplicate(&self) -> (r: Pokemon)
        ensures
            r@ == self@,
    {
        let r = Pokemon {
            generation: self.generation,
            name: self.name.clone(),
            form: match &self.form {
                Some(s) => Some(s.clone()),
                None => None,
            },
            type1: self.type1.clone(),
            type2: match &self.type2 {
                Some(s) => Some(s.clone()),
                None => None,
            },
            total: self.total,
            hp: self.hp,
            attack: self.attack,
            defense: self.defense,
            sp_atk: self.sp_atk,
            sp_def: self.sp_def,
            speed: self.speed,
            height: self.height,
            weight: self.weight,
        };
        assert(r@ =~= self@);
        r
    }
}

} // verus!
