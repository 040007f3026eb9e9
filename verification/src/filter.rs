//! The filter state and the query engine.
//!
//! The engine is a pure function of the collection and the filter state: it
//! returns the ordered subset of records that satisfy every active predicate,
//! in the collection's own order.

use vstd::prelude::*;
use crate::record::{Pokemon, RecordV};
use crate::text::{
    lower_of, has_substring, str_in, strs_of, contains_ci, eq_ci, list_contains,
};

verus! {

/// The user-adjustable predicate parameters. A `None` selector is the
/// match-any sentinel; height and weight bounds are in tenths of a unit.
pub struct FilterState {
    /// Case-insensitive name fragment; empty matches everything.
    pub name_substring: String,
    /// Primary-category selector, or `None` for match-any.
    pub category1_selector: Option<String>,
    /// Secondary-category selector, or `None` for match-any.
    pub category2_selector: Option<String>,
    /// Categories to exclude, matched exactly on the stored value.
    pub excluded_categories: Vec<String>,
    pub min_generation: u8,
    pub max_generation: u8,
    pub min_hp: u8,
    pub min_attack: u8,
    pub min_defense: u8,
    pub min_sp_atk: u8,
    pub min_sp_def: u8,
    pub min_speed: u8,
    pub min_height: u32,
    pub max_height: u32,
    pub min_weight: u32,
    pub max_weight: u32,
}

/// The mathematical view of a filter state.
#[verifier::ext_equal]
pub ghost struct FilterV {
    pub name_substring: Seq<char>,
    pub category1_selector: Option<Seq<char>>,
    pub category2_selector: Option<Seq<char>>,
    pub excluded_categories: Seq<Seq<char>>,
    pub min_generation: u8,
    pub max_generation: u8,
    pub min_hp: u8,
    pub min_attack: u8,
    pub min_defense: u8,
    pub min_sp_atk: u8,
    pub min_sp_def: u8,
    pub min_speed: u8,
    pub min_height: u32,
    pub max_height: u32,
    pub min_weight: u32,
    pub max_weight: u32,
}

impl View for FilterState {
    type V = FilterV;

    open spec fn view(&self) -> FilterV {
        FilterV {
            name_substring: self.name_substring@,
            category1_selector: crate::record::opt_view(self.category1_selector),
            category2_selector: crate::record::opt_view(self.category2_selector),
            excluded_categories: strs_of(self.excluded_categories@),
            min_generation: self.min_generation,
            max_generation: self.max_generation,
            min_hp: self.min_hp,
            min_attack: self.min_attack,
            min_defense: self.min_defense,
            min_sp_atk: self.min_sp_atk,
            min_sp_def: self.min_sp_def,
            min_speed: self.min_speed,
            min_height: self.min_height,
            max_height: self.max_height,
            min_weight: self.min_weight,
            max_weight: self.max_weight,
        }
    }
}

/// Both generation bounds and both pairs of size bounds are ordered.
pub open spec fn bounds_wf(f: FilterV) -> bool {
    &&& f.min_generation <= f.max_generation
    &&& f.min_height <= f.max_height
    &&& f.min_weight <= f.max_weight
}

/// The name predicate: the folded fragment occurs in the folded name.
/// An empty fragment matches every record.
pub open spec fn name_cond(r: RecordV, f: FilterV) -> bool {
    f.name_substring.len() == 0 || has_substring(lower_of(r.name), lower_of(f.name_substring))
}

/// The primary-category predicate: match-any, or case-insensitive equality
/// with the record's primary category.
pub open spec fn cat1_cond(r: RecordV, f: FilterV) -> bool {
    match f.category1_selector {
        None => true,
        Some(c) => lower_of(r.type1) == lower_of(c),
    }
}

/// The secondary-category predicate: match-any accepts every record, absent
/// secondary categories included; a concrete selector requires a present,
/// non-empty, case-insensitively equal secondary category.
pub open spec fn cat2_cond(r: RecordV, f: FilterV) -> bool {
    match f.category2_selector {
        None => true,
        Some(c) => match r.type2 {
            Some(t) => t.len() > 0 && lower_of(t) == lower_of(c),
            None => false,
        },
    }
}

/// The inclusive generation, height and weight ranges.
pub open spec fn range_cond(r: RecordV, f: FilterV) -> bool {
    &&& f.min_generation <= r.generation <= f.max_generation
    &&& f.min_height <= r.height <= f.max_height
    &&& f.min_weight <= r.weight <= f.max_weight
}

/// The six independent stat lower bounds.
pub open spec fn stat_cond(r: RecordV, f: FilterV) -> bool {
    &&& r.hp >= f.min_hp
    &&& r.attack >= f.min_attack
    &&& r.defense >= f.min_defense
    &&& r.sp_atk >= f.min_sp_atk
    &&& r.sp_def >= f.min_sp_def
    &&& r.speed >= f.min_speed
}

/// The exclusion predicate: neither category of the record may stand in the
/// exclusion list; membership is exact on the stored value.
pub open spec fn excl_cond(r: RecordV, f: FilterV) -> bool {
    &&& !str_in(f.excluded_categories, r.type1)
    &&& match r.type2 {
        Some(t) => !str_in(f.excluded_categories, t),
        None => true,
    }
}

/// A record matches the filter when every predicate holds.
pub open spec fn record_matches(r: RecordV, f: FilterV) -> bool {
    &&& name_cond(r, f)
    &&& cat1_cond(r, f)
    &&& cat2_cond(r, f)
    &&& range_cond(r, f)
    &&& stat_cond(r, f)
    &&& excl_cond(r, f)
}

/// The views of a record collection.
pub open spec fn views_of(v: Seq<Pokemon>) -> Seq<RecordV> {
    v.map_values(|p: Pokemon| p@)
}

/// What `evaluate` returns: the matching records, in collection order.
pub open spec fn eval_spec(vs: Seq<RecordV>, f: FilterV) -> Seq<RecordV> {
    vs.filter(|r: RecordV| record_matches(r, f))
}

/// Decides `record_matches` for one record.
pub fn record_passes(p: &Pokemon, f: &FilterState) -> (r: bool)
    ensures
        r == record_matches(p@, f@),
{
    let name_ok = if f.name_substring.as_str().is_empty() {
        true
    } else {
        contains_ci(p.name.as_str(), f.name_substring.as_str())
    };
    let cat1_ok = match &f.category1_selector {
        None => true,
        Some(c) => eq_ci(p.type1.as_str(), c.as_str()),
    };
    let cat2_ok = match &f.category2_selector {
        None => true,
        Some(c) => match &p.type2 {
            Some(t) => !t.as_str().is_empty() && eq_ci(t.as_str(), c.as_str()),
            None => false,
        },
    };
    let range_ok = f.min_generation <= p.generation && p.generation <= f.max_generation
        && f.min_height <= p.height && p.height <= f.max_height
        && f.min_weight <= p.weight && p.weight <= f.max_weight;
    let stat_ok = p.hp >= f.min_hp && p.attack >= f.min_attack && p.defense >= f.min_defense
        && p.sp_atk >= f.min_sp_atk && p.sp_def >= f.min_sp_def && p.speed >= f.min_speed;
    let excl_ok = !list_contains(&f.excluded_categories, &p.type1) && match &p.type2 {
        Some(t) => !list_contains(&f.excluded_categories, t),
        None => true,
    };
    name_ok && cat1_ok && cat2_ok && range_ok && stat_ok && excl_ok
}

/// The query engine: the ordered subset of records matching every active
/// predicate, in the collection's insertion order. Stateless; tolerates an
/// empty collection and degenerate ranges (which simply match nothing).
pub fn evaluate(collection: &Vec<Pokemon>, filter: &FilterState) -> (r: Vec<Pokemon>)
    ensures
        views_of(r@) == eval_spec(views_of(collection@), filter@),
{
    let ghost pred = |rv: RecordV| record_matches(rv, filter@);
    let mut r: Vec<Pokemon> = Vec::new();
    let mut i: usize = 0;
    while i < collection.len()
        invariant
            i <= collection@.len(),
            pred == (|rv: RecordV| record_matches(rv, filter@)),
            views_of(r@) == views_of(collection@.take(i as int)).filter(pred),
        decreases collection@.len() - i,
    {
        let ghost prev = views_of(collection@.take(i as int));
        let ghost cur = views_of(collection@.take(i + 1));
        proof {
            reveal(Seq::filter);
            assert(cur.drop_last() =~= prev);
            assert(cur.last() == collection@[i as int]@);
        }
        let p = &collection[i];
        if record_passes(p, filter) {
            let ghost old_r = r@;
            r.push(p.duplicate());
            proof {
                assert(views_of(r@) =~= views_of(old_r).push(collection@[i as int]@));
                assert(views_of(r@) =~= cur.filter(pred));
            }
        } else {
            proof {
                assert(views_of(r@) =~= cur.filter(pred));
            }
        }
        i += 1;
    }
    proof {
        assert(collection@.take(collection@.len() as int) =~= collection@);
    }
    r
}

impl FilterState {
    /// A fresh filter with default values: empty fragment, match-any
    /// selectors, no exclusions, generations 1 to 9, zero stat minimums, and
    /// height and weight ranging from zero to the given dataset maxima
    /// (in tenths of a unit).
    pub fn new(max_height: u32, max_weight: u32) -> (r: FilterState)
        ensures
            r@ == default_filter(max_height, max_weight),
            bounds_wf(r@),
    {
        let r = FilterState {
            name_substring: String::new(),
            category1_selector: None,
            category2_selector: None,
            excluded_categories: Vec::new(),
            min_generation: 1,
            max_generation: 9,
            min_hp: 0,
            min_attack: 0,
            min_defense: 0,
            min_sp_atk: 0,
            min_sp_def: 0,
            min_speed: 0,
            min_height: 0,
            max_height,
            min_weight: 0,
            max_weight,
        };
        proof {
            assert(r@ =~= default_filter(max_height, max_weight));
        }
        r
    }

    /// Raises the lower generation bound; a value above the current upper
    /// bound drags the upper bound up with it, so the range stays ordered.
    pub fn set_min_generation(&mut self, v: u8)
        ensures
            final(self).min_generation == v,
            final(self).max_generation == (if v > old(self).max_generation {
                v
            } else {
                old(self).max_generation
            }),
            final(self).min_generation <= final(self).max_generation,
            unchanged_but_generation(old(self)@, final(self)@),
            bounds_wf(old(self)@) ==> bounds_wf(final(self)@),
    {
        self.min_generation = v;
        if self.max_generation < v {
            self.max_generation = v;
        }
    }

    /// Lowers the upper generation bound; a value below the current lower
    /// bound drags the lower bound down with it.
    pub fn set_max_generation(&mut self, v: u8)
        ensures
            final(self).max_generation == v,
            final(self).min_generation == (if v < old(self).min_generation {
                v
            } else {
                old(self).min_generation
            }),
            final(self).min_generation <= final(self).max_generation,
            unchanged_but_generation(old(self)@, final(self)@),
            bounds_wf(old(self)@) ==> bounds_wf(final(self)@),
    {
        self.max_generation = v;
        if self.min_generation > v {
            self.min_generation = v;
        }
    }

    /// Sets the lower height bound (tenths of a metre), dragging the upper
    /// bound up if needed.
    pub fn set_min_height(&mut self, v: u32)
        ensures
            final(self).min_height == v,
            final(self).max_height == (if v > old(self).max_height {
                v
            } else {
                old(self).max_height
            }),
            final(self).min_height <= final(self).max_height,
            unchanged_but_height(old(self)@, final(self)@),
            bounds_wf(old(self)@) ==> bounds_wf(final(self)@),
    {
        self.min_height = v;
        if self.max_height < v {
            self.max_height = v;
        }
    }

    /// Sets the upper height bound, dragging the lower bound down if needed.
    pub fn set_max_height(&mut self, v: u32)
        ensures
            final(self).max_height == v,
            final(self).min_height == (if v < old(self).min_height {
                v
            } else {
                old(self).min_height
            }),
            final(self).min_height <= final(self).max_height,
            unchanged_but_height(old(self)@, final(self)@),
            bounds_wf(old(self)@) ==> bounds_wf(final(self)@),
    {
        self.max_height = v;
        if self.min_height > v {
            self.min_height = v;
        }
    }

    /// Sets the lower weight bound (tenths of a kilogram), dragging the upper
    /// bound up if needed.
    pub fn set_min_weight(&mut self, v: u32)
        ensures
            final(self).min_weight == v,
            final(self).max_weight == (if v > old(self).max_weight {
                v
            } else {
                old(self).max_weight
            }),
            final(self).min_weight <= final(self).max_weight,
            unchanged_but_weight(old(self)@, final(self)@),
            bounds_wf(old(self)@) ==> bounds_wf(final(self)@),
    {
        self.min_weight = v;
        if self.max_weight < v {
            self.max_weight = v;
        }
    }

    /// Sets the upper weight bound, dragging the lower bound down if needed.
    pub fn set_max_weight(&mut self, v: u32)
        ensures
            final(self).max_weight == v,
            final(self).min_weight == (if v < old(self).min_weight {
                v
            } else {
                old(self).min_weight
            }),
            final(self).min_weight <= final(self).max_weight,
            unchanged_but_weight(old(self)@, final(self)@),
            bounds_wf(old(self)@) ==> bounds_wf(final(self)@),
    {
        self.max_weight = v;
        if self.min_weight > v {
            self.min_weight = v;
        }
    }

    /// Adds a category to the exclusion list if it is not already there.
    pub fn add_excluded_category(&mut self, c: String)
        ensures
            forall|x: Seq<char>|
                str_in(final(self)@.excluded_categories, x) == (str_in(
                    old(self)@.excluded_categories,
                    x,
                ) || x == c@),
            unchanged_but_excluded(old(self)@, final(self)@),
    {
        if !list_contains(&self.excluded_categories, &c) {
            let ghost old_list = self.excluded_categories@;
            self.excluded_categories.push(c);
            proof {
                assert forall|x: Seq<char>|
                    str_in(strs_of(self.excluded_categories@), x) == (str_in(
                        strs_of(old_list),
                        x,
                    ) || x == c@) by {
                    let l = strs_of(self.excluded_categories@);
                    let o = strs_of(old_list);
                    assert(l.len() == o.len() + 1);
                    assert(forall|j: int| 0 <= j < o.len() ==> l[j] == o[j]);
                    assert(l[o.len() as int] == c@);
                    if str_in(o, x) {
                        let j = choose|j: int| 0 <= j < o.len() && o[j] == x;
                        assert(l[j] == x);
                    }
                    if x == c@ {
                        assert(l[o.len() as int] == x);
                    }
                    if str_in(l, x) && x != c@ {
                        let j = choose|j: int| 0 <= j < l.len() && l[j] == x;
                        assert(j < o.len());
                        assert(o[j] == x);
                    }
                }
            }
        } else {
            proof {
                assert(str_in(strs_of(self.excluded_categories@), c@));
            }
        }
    }

    /// Removes every occurrence of a category from the exclusion list,
    /// keeping the order of the others.
    pub fn remove_excluded_category(&mut self, c: &String)
        ensures
            forall|x: Seq<char>|
                str_in(final(self)@.excluded_categories, x) == (str_in(
                    old(self)@.excluded_categories,
                    x,
                ) && x != c@),
            unchanged_but_excluded(old(self)@, final(self)@),
    {
        let ghost old_list = self.excluded_categories@;
        let mut kept: Vec<String> = Vec::new();
        let mut i: usize = 0;
        while i < self.excluded_categories.len()
            invariant
                i <= old_list.len(),
                self.excluded_categories@ == old_list,
                strs_of(kept@) == strs_of(old_list.take(i as int)).filter(
                    |x: Seq<char>| x != c@,
                ),
            decreases old_list.len() - i,
        {
            let ghost prev = strs_of(old_list.take(i as int));
            let ghost cur = strs_of(old_list.take(i + 1));
            proof {
                reveal(Seq::filter);
                assert(cur.drop_last() =~= prev);
                assert(cur.last() == old_list[i as int]@);
            }
            if !self.excluded_categories[i].eq(c) {
                let ghost old_kept = kept@;
                let item = self.excluded_categories[i].clone();
                kept.push(item);
                proof {
                    assert(strs_of(kept@) =~= strs_of(old_kept).push(old_list[i as int]@));
                    assert(strs_of(kept@) =~= cur.filter(|x: Seq<char>| x != c@));
                }
            } else {
                proof {
                    assert(strs_of(kept@) =~= cur.filter(|x: Seq<char>| x != c@));
                }
            }
            i += 1;
        }
        proof {
            assert(old_list.take(old_list.len() as int) =~= old_list);
        }
        self.excluded_categories = kept;
        proof {
            let l = strs_of(self.excluded_categories@);
            let o = strs_of(old_list);
            let keep = |x: Seq<char>| x != c@;
            assert forall|x: Seq<char>| str_in(l, x) == (str_in(o, x) && x != c@) by {
                if str_in(l, x) {
                    let j = choose|j: int| 0 <= j < l.len() && l[j] == x;
                    assert(l.contains(x));
                    lemma_filter_members(o, keep, x);
                    let m = choose|m: int| 0 <= m < o.len() && o[m] == x;
                }
                if str_in(o, x) && x != c@ {
                    let j = choose|j: int| 0 <= j < o.len() && o[j] == x;
                    assert(keep(o[j]));
                    o.lemma_filter_contains(keep, j);
                    assert(o.filter(keep).contains(o[j]));
                    let m = choose|m: int| 0 <= m < l.len() && l[m] == x;
                }
            }
        }
    }
}

/// Every element of a filtered sequence stems from the original sequence and
/// satisfies the predicate.
pub(crate) proof fn lemma_filter_members<A>(s: Seq<A>, pred: spec_fn(A) -> bool, y: A)
    requires
        s.filter(pred).contains(y),
    ensures
        s.contains(y),
        pred(y),
    decreases s.len(),
{
    reveal(Seq::filter);
    if s.len() > 0 {
        let fl = s.filter(pred);
        let sub = s.drop_last().filter(pred);
        if pred(s.last()) && fl[fl.len() - 1] == y {
            assert(s[s.len() - 1] == y);
        } else {
            let j = choose|j: int| 0 <= j < fl.len() && fl[j] == y;
            assert(sub[j] == y);
            assert(sub.contains(y));
            lemma_filter_members(s.drop_last(), pred, y);
            let m = choose|m: int|
                0 <= m < s.drop_last().len() && s.drop_last()[m] == y;
            assert(s[m] == y);
        }
    }
}

/// The two filter views agree on every field except the generation bounds.
pub open spec fn unchanged_but_generation(a: FilterV, b: FilterV) -> bool {
    b == FilterV { min_generation: b.min_generation, max_generation: b.max_generation, ..a }
}

/// The two filter views agree on every field except the height bounds.
pub open spec fn unchanged_but_height(a: FilterV, b: FilterV) -> bool {
    b == FilterV { min_height: b.min_height, max_height: b.max_height, ..a }
}

/// The two filter views agree on every field except the weight bounds.
pub open spec fn unchanged_but_weight(a: FilterV, b: FilterV) -> bool {
    b == FilterV { min_weight: b.min_weight, max_weight: b.max_weight, ..a }
}

/// The two filter views agree on every field except the exclusion list.
pub open spec fn unchanged_but_excluded(a: FilterV, b: FilterV) -> bool {
    b == FilterV { excluded_categories: b.excluded_categories, ..a }
}

/// The view of `FilterState::new(max_height, max_weight)`.
pub open spec fn default_filter(max_height: u32, max_weight: u32) -> FilterV {
    FilterV {
        name_substring: Seq::empty(),
        category1_selector: None,
        category2_selector: None,
        excluded_categories: Seq::empty(),
        min_generation: 1,
        max_generation: 9,
        min_hp: 0,
        min_attack: 0,
        min_defense: 0,
        min_sp_atk: 0,
        min_sp_def: 0,
        min_speed: 0,
        min_height: 0,
        max_height,
        min_weight: 0,
        max_weight,
    }
}

/// A default filter keeps every record whose generation lies in 1 to 9 and
/// whose height and weight do not exceed the dataset maxima the filter was
/// built with: evaluation returns the whole collection in original order.
pub proof fn lemma_default_filter_keeps_all(vs: Seq<RecordV>, max_height: u32, max_weight: u32)
    requires
        forall|i: int|
            0 <= i < vs.len() ==> 1 <= #[trigger] vs[i].generation <= 9 && vs[i].height
                <= max_height && vs[i].weight <= max_weight,
    ensures
        eval_spec(vs, default_filter(max_height, max_weight)) == vs,
    decreases vs.len(),
{
    reveal(Seq::filter);
    let f = default_filter(max_height, max_weight);
    if vs.len() == 0 {
        assert(eval_spec(vs, f) =~= vs);
    } else {
        lemma_default_filter_keeps_all(vs.drop_last(), max_height, max_weight);
        assert(record_matches(vs.last(), f));
        assert(eval_spec(vs, f) =~= vs.drop_last().push(vs.last()));
        assert(vs.drop_last().push(vs.last()) =~= vs);
    }
}

/// Evaluation is idempotent: two evaluations of the same collection under the
/// same filter state yield the same ordered output.
pub proof fn lemma_evaluate_idempotent(
    vs: Seq<RecordV>,
    f: FilterV,
    r1: Seq<RecordV>,
    r2: Seq<RecordV>,
)
    requires
        r1 == eval_spec(vs, f),
        r2 == eval_spec(vs, f),
    ensures
        r1 == r2,
{
}

/// Exclusion dominates selection: when a category stands in the exclusion
/// list, no record bearing it — as primary or secondary category — appears in
/// the result, whatever the category selectors say.
pub proof fn lemma_exclusion_dominates(vs: Seq<RecordV>, f: FilterV, c: Seq<char>, i: int)
    requires
        str_in(f.excluded_categories, c),
        0 <= i < eval_spec(vs, f).len(),
    ensures
        eval_spec(vs, f)[i].type1 != c,
        !(eval_spec(vs, f)[i].type2 matches Some(t) && t == c),
{
    let pred = |r: RecordV| record_matches(r, f);
    vs.lemma_filter_pred(pred, i);
    assert(pred(eval_spec(vs, f)[i]));
}

/// Absence handling: a record with no secondary category passes the
/// secondary-category predicate exactly when the selector is match-any; under
/// a concrete selector it never matches, since absence equals no value.
pub proof fn lemma_absent_type2(r: RecordV, f: FilterV)
    requires
        r.type2 is None,
    ensures
        f.category2_selector is None ==> cat2_cond(r, f),
        f.category2_selector is Some ==> !record_matches(r, f),
{
}

} // verus!
