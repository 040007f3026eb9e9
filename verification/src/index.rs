//! The derived index: distinct category values, distinct generation values,
//! and the ceiling of the maximum height and weight, computed once per load
//! to populate filter bounds and choice lists.

use vstd::prelude::*;
use crate::record::{Pokemon, RecordV};
use crate::text::{
    lex_le, lex_lt, str_in, strs_of, chars_vec, chars_le, lemma_lex_le_total,
    lemma_lex_le_antisym, lemma_lex_le_trans,
};
use crate::filter::views_of;

verus! {

/// Strictly ascending lexicographic order, hence no duplicates.
pub open spec fn sorted_unique(l: Seq<Seq<char>>) -> bool {
    forall|i: int, j: int| 0 <= i < j < l.len() ==> lex_lt(#[trigger] l[i], #[trigger] l[j])
}

/// `c` appears in the collection as a primary category or as a non-empty
/// secondary category.
pub open spec fn is_category_of(vs: Seq<RecordV>, c: Seq<char>) -> bool {
    exists|i: int|
        0 <= i < vs.len() && ((#[trigger] vs[i]).type1 == c || (vs[i].type2 matches Some(t)
            && t.len() > 0 && t == c))
}

/// `g` appears in the collection as a generation value.
pub open spec fn is_generation_of(vs: Seq<RecordV>, g: u8) -> bool {
    exists|i: int| 0 <= i < vs.len() && (#[trigger] vs[i]).generation == g
}

/// Inserts a string into a strictly sorted list, keeping it sorted and
/// without duplicates.
#[verifier::rlimit(60)]
fn insert_sorted(v: &mut Vec<String>, s: &String)
    requires
        sorted_unique(strs_of(old(v)@)),
    ensures
        sorted_unique(strs_of(final(v)@)),
        forall|x: Seq<char>|
            str_in(strs_of(final(v)@), x) == (str_in(strs_of(old(v)@), x) || x == s@),
{
    let sc = chars_vec(s.as_str());
    let ghost old_list = strs_of(v@);
    let mut j: usize = 0;
    loop
        invariant
            sc@ == s@,
            old_list == strs_of(old(v)@),
            strs_of(v@) == old_list,
            sorted_unique(old_list),
            j <= old_list.len(),
            forall|i: int| 0 <= i < j ==> lex_lt(#[trigger] old_list[i], s@),
        decreases old_list.len() - j,
    {
        if j == v.len() {
            v.push(s.clone());
            proof {
                let l = strs_of(v@);
                assert(l.len() == old_list.len() + 1);
                assert(forall|i: int| 0 <= i < old_list.len() ==> l[i] == old_list[i]);
                assert(l[old_list.len() as int] == s@);
                assert forall|x: Seq<char>|
                    str_in(l, x) == (str_in(old_list, x) || x == s@) by {
                    if str_in(l, x) {
                        let m = choose|m: int| 0 <= m < l.len() && l[m] == x;
                        if m < old_list.len() {
                            assert(old_list[m] == x);
                        }
                    }
                    if str_in(old_list, x) {
                        let m = choose|m: int| 0 <= m < old_list.len() && old_list[m] == x;
                        assert(l[m] == x);
                    }
                }
            }
            return;
        }
        if v[j].eq(s) {
            proof {
                assert(strs_of(v@)[j as int] == s@);
            }
            return;
        }
        let jc = chars_vec(v[j].as_str());
        proof {
            assert(jc@ == old_list[j as int]);
        }
        if chars_le(&jc, &sc) {
            proof {
                assert(lex_lt(old_list[j as int], s@));
            }
            j += 1;
        } else {
            proof {
                lemma_lex_le_total(old_list[j as int], s@);
                assert(lex_lt(s@, old_list[j as int]));
            }
            let ghost ins = j as int;
            v.insert(j, s.clone());
            proof {
                let l = strs_of(v@);
                assert(l.len() == old_list.len() + 1);
                assert forall|i: int| 0 <= i < l.len() implies l[i] == (if i < ins {
                    old_list[i]
                } else if i == ins {
                    s@
                } else {
                    old_list[i - 1]
                }) by {}
                assert forall|a: int, b: int| 0 <= a < b < l.len() implies lex_lt(
                    #[trigger] l[a],
                    #[trigger] l[b],
                ) by {
                    if a < ins && b == ins {
                        assert(lex_lt(old_list[a], s@));
                    } else if a == ins && b > ins {
                        if ins < b - 1 {
                            assert(lex_lt(old_list[ins], old_list[b - 1]));
                            lemma_lex_le_trans(s@, old_list[ins], old_list[b - 1]);
                            assert(s@ != old_list[b - 1]) by {
                                if s@ == old_list[b - 1] {
                                    lemma_lex_le_antisym(s@, old_list[ins]);
                                }
                            }
                        }
                    } else if a < ins && b > ins {
                        if a < b - 1 {
                            assert(lex_lt(old_list[a], old_list[b - 1]));
                        } else {
                            assert(lex_lt(old_list[a], s@));
                            lemma_lex_le_trans(old_list[a], s@, old_list[b - 1]);
                            assert(old_list[a] != old_list[b - 1]) by {
                                if old_list[a] == old_list[b - 1] {
                                    lemma_lex_le_antisym(old_list[a], s@);
                                }
                            }
                        }
                    }
                }
                assert forall|x: Seq<char>|
                    str_in(l, x) == (str_in(old_list, x) || x == s@) by {
                    if str_in(l, x) {
                        let m = choose|m: int| 0 <= m < l.len() && l[m] == x;
                        if m < ins {
                            assert(old_list[m] == x);
                        } else if m > ins {
                            assert(old_list[m - 1] == x);
                        }
                    }
                    if str_in(old_list, x) {
                        let m = choose|m: int| 0 <= m < old_list.len() && old_list[m] == x;
                        if m < ins {
                            assert(l[m] == x);
                        } else {
                            assert(l[m + 1] == x);
                        }
                    }
                    if x == s@ {
                        assert(l[ins] == x);
                    }
                }
            }
            return;
        }
    }
}

/// The distinct category values appearing in the collection as `type1` or as
/// a non-empty `type2`, sorted ascending by lexicographic order on scalar
/// values, without duplicates.
pub fn distinct_categories(collection: &Vec<Pokemon>) -> (r: Vec<String>)
    ensures
        sorted_unique(strs_of(r@)),
        forall|x: Seq<char>|
            str_in(strs_of(r@), x) == is_category_of(views_of(collection@), x),
{
    let ghost vs = views_of(collection@);
    let mut r: Vec<String> = Vec::new();
    let mut i: usize = 0;
    while i < collection.len()
        invariant
            i <= collection@.len(),
            vs == views_of(collection@),
            sorted_unique(strs_of(r@)),
            forall|x: Seq<char>|
                str_in(strs_of(r@), x) == is_category_of(vs.take(i as int), x),
        decreases collection@.len() - i,
    {
        let ghost before = strs_of(r@);
        let p = &collection[i];
        proof {
            assert(vs[i as int] == p@);
        }
        insert_sorted(&mut r, &p.type1);
        let ghost mid = strs_of(r@);
        let has_t2 = match &p.type2 {
            Some(t) => !t.as_str().is_empty(),
            None => false,
        };
        if has_t2 {
            match &p.type2 {
                Some(t) => insert_sorted(&mut r, t),
                None => {}
            }
        }
        proof {
            let after = strs_of(r@);
            assert forall|x: Seq<char>|
                str_in(after, x) == is_category_of(vs.take(i + 1), x) by {
                let cur = vs.take(i + 1);
                assert(cur[i as int] == p@);
                if str_in(after, x) {
                    if str_in(before, x) {
                        let m = choose|m: int|
                            0 <= m < vs.take(i as int).len() && ((#[trigger] vs.take(
                                i as int,
                            )[m]).type1 == x || (vs.take(i as int)[m].type2 matches Some(t)
                                && t.len() > 0 && t == x));
                        assert(cur[m] == vs[m]);
                        assert(is_category_of(cur, x));
                    } else {
                        assert(is_category_of(cur, x));
                    }
                }
                if is_category_of(cur, x) {
                    let m = choose|m: int|
                        0 <= m < cur.len() && ((#[trigger] cur[m]).type1 == x
                            || (cur[m].type2 matches Some(t) && t.len() > 0 && t == x));
                    if m < i {
                        assert(vs.take(i as int)[m] == cur[m]);
                        assert(is_category_of(vs.take(i as int), x));
                        assert(str_in(before, x));
                    }
                    assert(str_in(after, x));
                }
            }
        }
        i += 1;
    }
    proof {
        assert(vs.take(vs.len() as int) =~= vs);
    }
    r
}

/// Inserts a generation value into a strictly ascending list.
#[verifier::rlimit(60)]
fn insert_sorted_gen(v: &mut Vec<u8>, g: u8)
    requires
        forall|a: int, b: int| 0 <= a < b < old(v)@.len() ==> old(v)@[a] < old(v)@[b],
    ensures
        forall|a: int, b: int| 0 <= a < b < final(v)@.len() ==> final(v)@[a] < final(v)@[b],
        forall|x: u8| final(v)@.contains(x) == (old(v)@.contains(x) || x == g),
{
    let ghost old_list = v@;
    let mut j: usize = 0;
    loop
        invariant
            old_list == old(v)@,
            v@ == old_list,
            forall|a: int, b: int| 0 <= a < b < old_list.len() ==> old_list[a] < old_list[b],
            j <= old_list.len(),
            forall|i: int| 0 <= i < j ==> old_list[i] < g,
        decreases old_list.len() - j,
    {
        if j == v.len() {
            v.push(g);
            proof {
                assert(v@.len() == old_list.len() + 1);
                assert(forall|i: int| 0 <= i < old_list.len() ==> v@[i] == old_list[i]);
                assert(v@[old_list.len() as int] == g);
                assert forall|x: u8| v@.contains(x) == (old_list.contains(x) || x == g) by {
                    if old_list.contains(x) {
                        let m = choose|m: int| 0 <= m < old_list.len() && old_list[m] == x;
                        assert(v@[m] == x);
                        assert(v@.contains(x));
                    }
                    if x == g {
                        assert(v@[old_list.len() as int] == x);
                        assert(v@.contains(x));
                    }
                    if v@.contains(x) {
                        let m = choose|m: int| 0 <= m < v@.len() && v@[m] == x;
                        if m < old_list.len() {
                            assert(old_list[m] == x);
                            assert(old_list.contains(x));
                        } else {
                            assert(x == g);
                        }
                    }
                }
            }
            return;
        }
        let cur = v[j];
        if cur == g {
            proof {
                assert(old_list[j as int] == g);
                assert(old_list.contains(g));
            }
            return;
        }
        if cur < g {
            j += 1;
        } else {
            let ghost ins = j as int;
            v.insert(j, g);
            proof {
                let l = v@;
                assert(l.len() == old_list.len() + 1);
                assert(l[ins] == g);
                assert forall|x: u8| l.contains(x) == (old_list.contains(x) || x == g) by {
                    if old_list.contains(x) {
                        let m = choose|m: int| 0 <= m < old_list.len() && old_list[m] == x;
                        if m < ins {
                            assert(l[m] == x);
                        } else {
                            assert(l[m + 1] == x);
                        }
                        assert(l.contains(x));
                    }
                    if x == g {
                        assert(l[ins] == x);
                        assert(l.contains(x));
                    }
                    if l.contains(x) {
                        let m = choose|m: int| 0 <= m < l.len() && l[m] == x;
                        if m < ins {
                            assert(old_list[m] == x);
                            assert(old_list.contains(x));
                        } else if m > ins {
                            assert(old_list[m - 1] == x);
                            assert(old_list.contains(x));
                        } else {
                            assert(x == g);
                        }
                    }
                }
            }
            return;
        }
    }
}

/// The distinct generation values present in the collection, sorted
/// ascending.
pub fn distinct_generations(collection: &Vec<Pokemon>) -> (r: Vec<u8>)
    ensures
        forall|a: int, b: int| 0 <= a < b < r@.len() ==> r@[a] < r@[b],
        forall|g: u8| r@.contains(g) == is_generation_of(views_of(collection@), g),
{
    let ghost vs = views_of(collection@);
    let mut r: Vec<u8> = Vec::new();
    let mut i: usize = 0;
    while i < collection.len()
        invariant
            i <= collection@.len(),
            vs == views_of(collection@),
            forall|a: int, b: int| 0 <= a < b < r@.len() ==> r@[a] < r@[b],
            forall|g: u8| r@.contains(g) == is_generation_of(vs.take(i as int), g),
        decreases collection@.len() - i,
    {
        let ghost before = r@;
        proof {
            assert(vs[i as int] == collection@[i as int]@);
        }
        insert_sorted_gen(&mut r, collection[i].generation);
        proof {
            assert forall|g: u8| r@.contains(g) == is_generation_of(vs.take(i + 1), g) by {
                let cur = vs.take(i + 1);
                assert(cur[i as int] == vs[i as int]);
                if r@.contains(g) {
                    if before.contains(g) {
                        let m = choose|m: int|
                            0 <= m < vs.take(i as int).len() && (#[trigger] vs.take(
                                i as int,
                            )[m]).generation == g;
                        assert(cur[m] == vs[m]);
                    }
                }
                if is_generation_of(cur, g) {
                    let m = choose|m: int| 0 <= m < cur.len() && (#[trigger] cur[m]).generation == g;
                    if m < i {
                        assert(vs.take(i as int)[m] == cur[m]);
                        assert(before.contains(g));
                    }
                }
            }
        }
        i += 1;
    }
    proof {
        assert(vs.take(vs.len() as int) =~= vs);
    }
    r
}

/// The maximum height in the collection, zero when it is empty.
pub open spec fn max_height_of(vs: Seq<RecordV>) -> int
    decreases vs.len(),
{
    if vs.len() == 0 {
        0
    } else {
        let m = max_height_of(vs.drop_last());
        if vs.last().height > m {
            vs.last().height as int
        } else {
            m
        }
    }
}

/// The maximum weight in the collection, zero when it is empty.
pub open spec fn max_weight_of(vs: Seq<RecordV>) -> int
    decreases vs.len(),
{
    if vs.len() == 0 {
        0
    } else {
        let m = max_weight_of(vs.drop_last());
        if vs.last().weight > m {
            vs.last().weight as int
        } else {
            m
        }
    }
}

/// `x` rounded up to the next multiple of ten: with values in tenths of a
/// unit, the ceiling in whole units, expressed in tenths.
pub open spec fn ceil_tenths(x: int) -> int {
    ((x + 9) / 10) * 10
}

/// The ceiling of the maximum height, in tenths of a metre rounded up to a
/// whole metre; zero for an empty collection.
pub fn max_height_tenths(collection: &Vec<Pokemon>) -> (r: u32)
    requires
        forall|i: int|
            0 <= i < collection@.len() ==> (#[trigger] collection@[i]).height <= u32::MAX - 9,
    ensures
        r == ceil_tenths(max_height_of(views_of(collection@))),
{
    let ghost vs = views_of(collection@);
    let mut m: u32 = 0;
    let mut i: usize = 0;
    while i < collection.len()
        invariant
            i <= collection@.len(),
            vs == views_of(collection@),
            forall|k: int|
                0 <= k < collection@.len() ==> (#[trigger] collection@[k]).height <= u32::MAX
                    - 9,
            m == max_height_of(vs.take(i as int)),
            m <= u32::MAX - 9,
        decreases collection@.len() - i,
    {
        proof {
            assert(vs.take(i + 1).drop_last() =~= vs.take(i as int));
            assert(vs.take(i + 1).last() == collection@[i as int]@);
        }
        let h = collection[i].height;
        if h > m {
            m = h;
        }
        i += 1;
    }
    proof {
        assert(vs.take(vs.len() as int) =~= vs);
    }
    ceil10(m)
}

/// The ceiling of the maximum weight, in tenths of a kilogram rounded up to
/// a whole kilogram; zero for an empty collection.
pub fn max_weight_tenths(collection: &Vec<Pokemon>) -> (r: u32)
    requires
        forall|i: int|
            0 <= i < collection@.len() ==> (#[trigger] collection@[i]).weight <= u32::MAX - 9,
    ensures
        r == ceil_tenths(max_weight_of(views_of(collection@))),
{
    let ghost vs = views_of(collection@);
    let mut m: u32 = 0;
    let mut i: usize = 0;
    while i < collection.len()
        invariant
            i <= collection@.len(),
            vs == views_of(collection@),
            forall|k: int|
                0 <= k < collection@.len() ==> (#[trigger] collection@[k]).weight <= u32::MAX
                    - 9,
            m == max_weight_of(vs.take(i as int)),
            m <= u32::MAX - 9,
        decreases collection@.len() - i,
    {
        proof {
            assert(vs.take(i + 1).drop_last() =~= vs.take(i as int));
            assert(vs.take(i + 1).last() == collection@[i as int]@);
        }
        let w = collection[i].weight;
        if w > m {
            m = w;
        }
        i += 1;
    }
    proof {
        assert(vs.take(vs.len() as int) =~= vs);
    }
    ceil10(m)
}

/// Rounding up never loses: the ceiling is at least the value.
pub proof fn lemma_ceil_tenths_ge(x: int)
    ensures
        ceil_tenths(x) >= x,
{
    vstd::arithmetic::div_mod::lemma_fundamental_div_mod(x + 9, 10);
}

/// Every record's height and weight lie below the collection's maxima, so a
/// filter whose bounds come from the derived index keeps every record in
/// range.
pub proof fn lemma_maxima_dominate(vs: Seq<RecordV>, i: int)
    requires
        0 <= i < vs.len(),
    ensures
        vs[i].height <= ceil_tenths(max_height_of(vs)),
        vs[i].weight <= ceil_tenths(max_weight_of(vs)),
    decreases vs.len(),
{
    lemma_ceil_tenths_ge(max_height_of(vs));
    lemma_ceil_tenths_ge(max_weight_of(vs));
    if i < vs.len() - 1 {
        lemma_maxima_dominate(vs.drop_last(), i);
        assert(vs.drop_last()[i] == vs[i]);
        lemma_ceil_tenths_mono(max_height_of(vs.drop_last()), max_height_of(vs));
        lemma_ceil_tenths_mono(max_weight_of(vs.drop_last()), max_weight_of(vs));
    }
}

/// The ceiling adds at most nine tenths.
proof fn lemma_ceil_tenths_le(x: int)
    ensures
        ceil_tenths(x) <= x + 9,
{
    vstd::arithmetic::div_mod::lemma_fundamental_div_mod(x + 9, 10);
    assert((x + 9) % 10 >= 0);
}

proof fn lemma_max_height_le(vs: Seq<RecordV>, bound: int)
    requires
        bound >= 0,
        forall|i: int| 0 <= i < vs.len() ==> (#[trigger] vs[i]).height <= bound,
    ensures
        0 <= max_height_of(vs) <= bound,
    decreases vs.len(),
{
    if vs.len() > 0 {
        assert(forall|i: int|
            0 <= i < vs.drop_last().len() ==> #[trigger] vs.drop_last()[i] == vs[i]);
        lemma_max_height_le(vs.drop_last(), bound);
    }
}

proof fn lemma_max_weight_le(vs: Seq<RecordV>, bound: int)
    requires
        bound >= 0,
        forall|i: int| 0 <= i < vs.len() ==> (#[trigger] vs[i]).weight <= bound,
    ensures
        0 <= max_weight_of(vs) <= bound,
    decreases vs.len(),
{
    if vs.len() > 0 {
        assert(forall|i: int|
            0 <= i < vs.drop_last().len() ==> #[trigger] vs.drop_last()[i] == vs[i]);
        lemma_max_weight_le(vs.drop_last(), bound);
    }
}

/// A default filter whose bounds come from the derived index keeps every
/// record whose generation lies in the default range: evaluation returns
/// the whole collection in original order.
pub proof fn lemma_derived_default_keeps_all(vs: Seq<RecordV>)
    requires
        forall|i: int| 0 <= i < vs.len() ==> 1 <= (#[trigger] vs[i]).generation <= 9,
        forall|i: int| 0 <= i < vs.len() ==> (#[trigger] vs[i]).height <= u32::MAX - 9,
        forall|i: int| 0 <= i < vs.len() ==> (#[trigger] vs[i]).weight <= u32::MAX - 9,
    ensures
        crate::filter::eval_spec(
            vs,
            crate::filter::default_filter(
                ceil_tenths(max_height_of(vs)) as u32,
                ceil_tenths(max_weight_of(vs)) as u32,
            ),
        ) == vs,
{
    let mh = ceil_tenths(max_height_of(vs));
    let mw = ceil_tenths(max_weight_of(vs));
    lemma_max_height_le(vs, u32::MAX - 9);
    lemma_max_weight_le(vs, u32::MAX - 9);
    lemma_ceil_tenths_ge(max_height_of(vs));
    lemma_ceil_tenths_ge(max_weight_of(vs));
    lemma_ceil_tenths_le(max_height_of(vs));
    lemma_ceil_tenths_le(max_weight_of(vs));
    assert(0 <= mh <= u32::MAX);
    assert(0 <= mw <= u32::MAX);
    assert forall|i: int|
        0 <= i < vs.len() implies (#[trigger] vs[i]).height <= mh as u32 && vs[i].weight
        <= mw as u32 by {
        lemma_maxima_dominate(vs, i);
    }
    crate::filter::lemma_default_filter_keeps_all(vs, mh as u32, mw as u32);
}

/// The ceiling is monotone.
proof fn lemma_ceil_tenths_mono(a: int, b: int)
    requires
        a <= b,
    ensures
        ceil_tenths(a) <= ceil_tenths(b),
{
    vstd::arithmetic::div_mod::lemma_div_is_ordered(a + 9, b + 9, 10);
}

/// Rounds up to the next multiple of ten.
fn ceil10(m: u32) -> (r: u32)
    requires
        m <= u32::MAX - 9,
    ensures
        r == ceil_tenths(m as int),
{
    let rem = m % 10;
    if rem == 0 {
        proof {
            vstd::arithmetic::div_mod::lemma_fundamental_div_mod(m as int, 10);
            assert((m as int + 9) / 10 == m as int / 10);
        }
        m
    } else {
        let r = m - rem + 10;
        proof {
            vstd::arithmetic::div_mod::lemma_fundamental_div_mod(m as int, 10);
            assert((m as int + 9) / 10 == m as int / 10 + 1);
        }
        r
    }
}

} // verus!
