//! Decoding records from delimited-text rows: header lookup by column name,
//! digit parsing, and per-row record construction.
//!
//! Numbers are plain decimal digits; heights and weights may carry a
//! fractional part, of which the first digit is kept (values are stored in
//! tenths) and finer digits are truncated. A required column that is absent
//! from the header is a named error, never a silent default.

use vstd::prelude::*;
use vstd::string::StrSliceExecFns;
use crate::record::{Pokemon, RecordV};
use crate::text::chars_vec;

verus! {

// ---- Digits ---------------------------------------------------------------

pub open spec fn is_digit(c: char) -> bool {
    48 <= c as u32 <= 57
}

pub open spec fn digit_val(c: char) -> int {
    c as u32 - 48
}

pub open spec fn all_digits(s: Seq<char>) -> bool {
    forall|i: int| 0 <= i < s.len() ==> is_digit(#[trigger] s[i])
}

/// The value of a digit string, most significant digit first.
pub open spec fn digits_val(s: Seq<char>) -> int
    decreases s.len(),
{
    if s.len() == 0 {
        0
    } else {
        digits_val(s.drop_last()) * 10 + digit_val(s.last())
    }
}

/// A cell parses as an unsigned integer no greater than `max`.
pub open spec fn uint_parses(s: Seq<char>, max: int) -> bool {
    s.len() > 0 && all_digits(s) && digits_val(s) <= max
}

/// Ten to the power `n`.
pub open spec fn pow10(n: nat) -> int
    decreases n,
{
    if n == 0 {
        1
    } else {
        10 * pow10((n - 1) as nat)
    }
}

proof fn lemma_digits_leading_zero(s: Seq<char>)
    requires
        s.len() > 0,
        s[0] == '0',
    ensures
        digits_val(s) == digits_val(s.drop_first()),
    decreases s.len(),
{
    if s.len() == 1 {
        reveal_with_fuel(digits_val, 2);
        assert('0' as u32 == 48);
        assert(s.last() == s[0]);
        assert(digits_val(s.drop_last()) == 0);
    } else {
        assert(s.drop_last()[0] == s[0]);
        lemma_digits_leading_zero(s.drop_last());
        assert(s.drop_first().drop_last() =~= s.drop_last().drop_first());
        assert(s.drop_first().last() == s.last());
    }
}

proof fn lemma_digits_lower_bound(s: Seq<char>)
    requires
        s.len() > 0,
        all_digits(s),
        digit_val(s[0]) >= 1,
    ensures
        digits_val(s) >= pow10((s.len() - 1) as nat),
    decreases s.len(),
{
    if s.len() == 1 {
        assert(digits_val(s) == digit_val(s[0]));
    } else {
        assert(s.drop_last()[0] == s[0]);
        assert(forall|j: int|
            0 <= j < s.drop_last().len() ==> #[trigger] s.drop_last()[j] == s[j]);
        lemma_digits_lower_bound(s.drop_last());
        assert(is_digit(s.last()));
        assert(digit_val(s.last()) >= 0);
        assert(digits_val(s.drop_last()) * 10 >= pow10((s.len() - 2) as nat) * 10);
    }
}

proof fn lemma_digits_upper_bound(s: Seq<char>)
    requires
        all_digits(s),
    ensures
        0 <= digits_val(s) < pow10(s.len()),
    decreases s.len(),
{
    if s.len() > 0 {
        lemma_digits_upper_bound(s.drop_last());
        assert(digit_val(s.last()) <= 9);
    }
}

/// Parses a digit string as an unsigned integer, rejecting empty or
/// non-digit input and any value above `max`.
pub fn parse_uint(s: &Vec<char>, max: u32) -> (r: Option<u32>)
    ensures
        (r is Some) == uint_parses(s@, max as int),
        r matches Some(v) ==> v as int == digits_val(s@),
{
    let len = s.len();
    if len == 0 {
        return None;
    }
    let mut i: usize = 0;
    while i < len
        invariant
            len == s@.len(),
            i <= len,
            forall|j: int| 0 <= j < i ==> is_digit(#[trigger] s@[j]),
        decreases len - i,
    {
        let c = s[i];
        if (c as u32) < 48 || (c as u32) > 57 {
            return None;
        }
        i += 1;
    }
    proof {
        assert(s@.skip(0) =~= s@);
    }
    let mut z: usize = 0;
    while z < len && s[z] == '0'
        invariant
            len == s@.len(),
            z <= len,
            all_digits(s@),
            digits_val(s@) == digits_val(s@.skip(z as int)),
        decreases len - z,
    {
        proof {
            reveal_strlit("0");
            let t = s@.skip(z as int);
            assert(t[0] == s@[z as int]);
            lemma_digits_leading_zero(t);
            assert(t.drop_first() =~= s@.skip(z + 1));
        }
        z += 1;
    }
    proof {
        assert(s@.skip(0) =~= s@);
    }
    let rest = len - z;
    if rest > 10 {
        proof {
            let t = s@.skip(z as int);
            assert(t[0] == s@[z as int]);
            assert(is_digit(t[0]));
            assert(digit_val(t[0]) >= 1) by {
                reveal_strlit("0");
                assert(s@[z as int] != '0');
                assert(s@[z as int] as u32 != 48) by {
                    if s@[z as int] as u32 == 48 {
                        vstd::utf8::char_u32_cast(s@[z as int], 48);
                        vstd::utf8::char_u32_cast('0', 48);
                        assert('0' as u32 == 48);
                    }
                }
            }
            lemma_digits_lower_bound(t);
            lemma_pow10_le(10, (t.len() - 1) as nat);
            lemma_pow10_values();
        }
        return None;
    }
    let mut acc: u64 = 0;
    let mut m: usize = z;
    while m < len
        invariant
            len == s@.len(),
            z <= m <= len,
            len - z <= 10,
            all_digits(s@),
            acc as int == digits_val(s@.subrange(z as int, m as int)),
            acc as int <= pow10((m - z) as nat),
            digits_val(s@) == digits_val(s@.skip(z as int)),
        decreases len - m,
    {
        let c = s[m];
        proof {
            let prev = s@.subrange(z as int, m as int);
            let cur = s@.subrange(z as int, m + 1);
            assert(cur.drop_last() =~= prev);
            assert(cur.last() == s@[m as int]);
            assert(forall|j: int|
                0 <= j < prev.len() ==> is_digit(#[trigger] prev[j]) && prev[j] == s@[z + j]);
            lemma_digits_upper_bound(prev);
            lemma_pow10_le((m - z) as nat, 10);
            lemma_pow10_values();
            assert(is_digit(s@[m as int]));
        }
        acc = acc * 10 + ((c as u32) - 48) as u64;
        proof {
            let cur = s@.subrange(z as int, m + 1);
            lemma_digits_upper_bound(cur);
            lemma_pow10_le((m + 1 - z) as nat, 10);
            lemma_pow10_values();
        }
        m += 1;
    }
    proof {
        assert(s@.subrange(z as int, len as int) =~= s@.skip(z as int));
    }
    if acc > max as u64 {
        return None;
    }
    Some(acc as u32)
}

proof fn lemma_pow10_values()
    ensures
        pow10(10) == 10_000_000_000,
{
    reveal_with_fuel(pow10, 11);
}

proof fn lemma_pow10_le(a: nat, b: nat)
    requires
        a <= b,
    ensures
        pow10(a) <= pow10(b),
    decreases b,
{
    if a < b {
        lemma_pow10_le(a, (b - 1) as nat);
        lemma_pow10_pos((b - 1) as nat);
    }
}

proof fn lemma_pow10_pos(n: nat)
    ensures
        pow10(n) >= 1,
    decreases n,
{
    if n > 0 {
        lemma_pow10_pos((n - 1) as nat);
    }
}

// ---- Tenths (decimal cells) ----------------------------------------------

/// The index of the first dot, or a negative value when there is none.
pub open spec fn dot_pos(s: Seq<char>) -> int
    decreases s.len(),
{
    if s.len() == 0 {
        -1
    } else if s[0] == '.' {
        0
    } else {
        let p = dot_pos(s.drop_first());
        if p < 0 {
            -1
        } else {
            p + 1
        }
    }
}

proof fn lemma_dot_pos(s: Seq<char>)
    ensures
        dot_pos(s) < 0 ==> forall|j: int| 0 <= j < s.len() ==> s[j] != '.',
        dot_pos(s) >= 0 ==> 0 <= dot_pos(s) < s.len() && s[dot_pos(s)] == '.' && forall|j: int|
            0 <= j < dot_pos(s) ==> s[j] != '.',
    decreases s.len(),
{
    if s.len() > 0 && s[0] != '.' {
        lemma_dot_pos(s.drop_first());
        if dot_pos(s) < 0 {
            assert forall|j: int| 0 <= j < s.len() implies s[j] != '.' by {
                if j > 0 {
                    assert(s.drop_first()[j - 1] == s[j]);
                }
            }
        } else {
            assert(s.drop_first()[dot_pos(s) - 1] == s[dot_pos(s)]);
            assert forall|j: int| 0 <= j < dot_pos(s) implies s[j] != '.' by {
                if j > 0 {
                    assert(s.drop_first()[j - 1] == s[j]);
                }
            }
        }
    }
}

/// The value of a decimal cell in tenths: the integer part times ten plus
/// the first fractional digit (zero when there is none); fractional digits
/// beyond the first are truncated. The integer part must be non-empty and
/// every character a digit.
pub open spec fn tenths_spec(s: Seq<char>) -> Option<int> {
    let p = dot_pos(s);
    let ip = if p < 0 {
        s
    } else {
        s.take(p)
    };
    let fp = if p < 0 {
        Seq::<char>::empty()
    } else {
        s.skip(p + 1)
    };
    if ip.len() > 0 && all_digits(ip) && all_digits(fp) {
        Some(digits_val(ip) * 10 + (if fp.len() > 0 {
            digit_val(fp[0])
        } else {
            0
        }))
    } else {
        None
    }
}

/// A decimal cell parses and its tenths value fits the record field.
pub open spec fn tenths_ok(s: Seq<char>) -> bool {
    tenths_spec(s) matches Some(v) && v <= u32::MAX
}

/// Checks that every character is a digit.
fn all_digits_vec(s: &Vec<char>) -> (r: bool)
    ensures
        r == all_digits(s@),
{
    let mut i: usize = 0;
    while i < s.len()
        invariant
            i <= s@.len(),
            forall|j: int| 0 <= j < i ==> is_digit(#[trigger] s@[j]),
        decreases s@.len() - i,
    {
        let c = s[i];
        if (c as u32) < 48 || (c as u32) > 57 {
            return false;
        }
        i += 1;
    }
    true
}

/// Parses a decimal cell into tenths.
pub fn parse_tenths(s: &Vec<char>) -> (r: Option<u32>)
    ensures
        (r is Some) == tenths_ok(s@),
        r matches Some(v) ==> tenths_spec(s@) == Some(v as int),
{
    let len = s.len();
    let mut dot: usize = len;
    let mut has_dot = false;
    let mut i: usize = 0;
    while i < len && !(s[i] == '.')
        invariant
            len == s@.len(),
            i <= len,
            forall|j: int| 0 <= j < i ==> s@[j] != '.',
        decreases len - i,
    {
        i += 1;
    }
    if i < len {
        has_dot = true;
        dot = i;
    }
    proof {
        lemma_dot_pos(s@);
        if i < len {
            assert(s@[i as int] == '.');
            assert(dot_pos(s@) == i as int) by {
                if dot_pos(s@) < 0 {
                    assert(s@[i as int] != '.');
                } else if dot_pos(s@) < i {
                    assert(s@[dot_pos(s@)] != '.');
                } else if dot_pos(s@) > i {
                    assert(s@[i as int] != '.');
                }
            }
        } else {
            assert(dot_pos(s@) < 0) by {
                if dot_pos(s@) >= 0 {
                    assert(s@[dot_pos(s@)] != '.');
                }
            }
        }
    }
    let mut ip: Vec<char> = Vec::new();
    let ip_end = if has_dot {
        dot
    } else {
        len
    };
    let mut k: usize = 0;
    while k < ip_end
        invariant
            ip_end <= s@.len(),
            k <= ip_end,
            ip@ == s@.subrange(0, k as int),
        decreases ip_end - k,
    {
        ip.push(s[k]);
        proof {
            assert(s@.subrange(0, k + 1) =~= s@.subrange(0, k as int).push(s@[k as int]));
        }
        k += 1;
    }
    proof {
        if has_dot {
            assert(ip@ =~= s@.take(dot_pos(s@)));
        } else {
            assert(ip@ =~= s@);
        }
    }
    let mut fp: Vec<char> = Vec::new();
    if has_dot {
        let mut k2: usize = dot + 1;
        while k2 < len
            invariant
                dot < k2 <= len || k2 == dot + 1,
                k2 <= len,
                len == s@.len(),
                dot < len,
                fp@ == s@.subrange(dot + 1, k2 as int),
            decreases len - k2,
        {
            fp.push(s[k2]);
            proof {
                assert(s@.subrange(dot + 1, k2 + 1) =~= s@.subrange(dot + 1, k2 as int).push(
                    s@[k2 as int],
                ));
            }
            k2 += 1;
        }
        proof {
            assert(fp@ =~= s@.skip(dot + 1));
        }
    } else {
        proof {
            assert(fp@ =~= Seq::<char>::empty());
        }
    }
    if !all_digits_vec(&fp) {
        return None;
    }
    let ipv = match parse_uint(&ip, 429_496_729) {
        Some(v) => v,
        None => {
            proof {
                if tenths_ok(s@) {
                    assert(ip@.len() > 0 && all_digits(ip@));
                    assert(digits_val(ip@) * 10 <= digits_val(ip@) * 10 + (if fp@.len() > 0 {
                        digit_val(fp@[0])
                    } else {
                        0
                    }));
                    assert(digits_val(ip@) <= 429_496_729);
                }
            }
            return None;
        }
    };
    let d: u32 = if fp.len() > 0 {
        let c = fp[0];
        (c as u32) - 48
    } else {
        0
    };
    proof {
        if fp@.len() > 0 {
            assert(is_digit(fp@[0]));
        }
    }
    let v64: u64 = (ipv as u64) * 10 + (d as u64);
    if v64 > 0xFFFF_FFFF {
        return None;
    }
    Some(v64 as u32)
}

// ---- Optional text cells --------------------------------------------------

pub open spec fn is_space(c: char) -> bool {
    c == ' ' || c == '\t' || c == '\n' || c == '\r'
}

/// How many leading whitespace characters the cell has.
pub open spec fn trim_start_idx(s: Seq<char>) -> int
    decreases s.len(),
{
    if s.len() > 0 && is_space(s[0]) {
        1 + trim_start_idx(s.drop_first())
    } else {
        0
    }
}

/// Where the trailing whitespace of the cell begins.
pub open spec fn trim_end_idx(s: Seq<char>) -> int
    decreases s.len(),
{
    if s.len() > 0 && is_space(s.last()) {
        trim_end_idx(s.drop_last())
    } else {
        s.len() as int
    }
}

/// The cell with leading and trailing ASCII whitespace removed.
pub open spec fn trimmed(s: Seq<char>) -> Seq<char> {
    let a = trim_start_idx(s);
    let b = trim_end_idx(s);
    if a <= b {
        s.subrange(a, b)
    } else {
        Seq::empty()
    }
}

proof fn lemma_trim_start_bounds(s: Seq<char>)
    ensures
        0 <= trim_start_idx(s) <= s.len(),
    decreases s.len(),
{
    if s.len() > 0 && is_space(s[0]) {
        lemma_trim_start_bounds(s.drop_first());
    }
}

proof fn lemma_trim_end_bounds(s: Seq<char>)
    ensures
        0 <= trim_end_idx(s) <= s.len(),
    decreases s.len(),
{
    if s.len() > 0 && is_space(s.last()) {
        lemma_trim_end_bounds(s.drop_last());
    }
}

/// An absent optional value, or the trimmed cell: whitespace-only input is
/// absence, never an empty string.
pub open spec fn opt_cell(s: Seq<char>) -> Option<Seq<char>> {
    if trimmed(s).len() == 0 {
        None
    } else {
        Some(trimmed(s))
    }
}

/// Decodes an optional text cell, normalizing emptiness to absence.
pub fn decode_opt_cell(cell: &str) -> (r: Option<String>)
    ensures
        crate::record::opt_view(r) == opt_cell(cell@),
{
    let cv = chars_vec(cell);
    let n = cv.len();
    proof {
        assert(cell@.skip(0) =~= cell@);
    }
    let mut a: usize = 0;
    while a < n && (cv[a] == ' ' || cv[a] == '\t' || cv[a] == '\n' || cv[a] == '\r')
        invariant
            cv@ == cell@,
            n == cell@.len(),
            a <= n,
            trim_start_idx(cell@) == a + trim_start_idx(cell@.skip(a as int)),
        decreases n - a,
    {
        proof {
            let t = cell@.skip(a as int);
            assert(t[0] == cell@[a as int]);
            assert(is_space(t[0]));
            assert(t.drop_first() =~= cell@.skip(a + 1));
        }
        a += 1;
    }
    proof {
        let t = cell@.skip(a as int);
        if a < n {
            assert(t[0] == cell@[a as int]);
            assert(!is_space(t[0]));
        }
        assert(trim_start_idx(t) == 0);
        assert(trim_start_idx(cell@) == a as int);
    }
    proof {
        assert(cell@.take(n as int) =~= cell@);
    }
    let mut b: usize = n;
    while b > 0 && (cv[b - 1] == ' ' || cv[b - 1] == '\t' || cv[b - 1] == '\n' || cv[b - 1]
        == '\r')
        invariant
            cv@ == cell@,
            n == cell@.len(),
            b <= n,
            trim_end_idx(cell@) == trim_end_idx(cell@.take(b as int)),
        decreases b,
    {
        proof {
            let t = cell@.take(b as int);
            assert(t.last() == cell@[b - 1]);
            assert(is_space(t.last()));
            assert(t.drop_last() =~= cell@.take(b - 1));
        }
        b -= 1;
    }
    proof {
        let t = cell@.take(b as int);
        if b > 0 {
            assert(t.last() == cell@[b - 1]);
            assert(!is_space(t.last()));
        }
        assert(trim_end_idx(t) == b as int);
        assert(trim_end_idx(cell@) == b as int);
    }
    if a >= b {
        proof {
            assert(trimmed(cell@).len() == 0);
        }
        None
    } else {
        let t = cell.substring_char(a, b).to_owned();
        proof {
            assert(t@ == trimmed(cell@));
        }
        Some(t)
    }
}

// ---- Header lookup --------------------------------------------------------

/// The column positions of the fourteen required columns.
#[derive(Debug, Clone, Copy)]
pub struct ColumnMap {
    pub generation: usize,
    pub name: usize,
    pub form: usize,
    pub type1: usize,
    pub type2: usize,
    pub total: usize,
    pub hp: usize,
    pub attack: usize,
    pub defense: usize,
    pub sp_atk: usize,
    pub sp_def: usize,
    pub speed: usize,
    pub height: usize,
    pub weight: usize,
}

/// `i` is the first index at which `n` appears among the headers.
pub open spec fn first_index_of(hs: Seq<String>, n: Seq<char>, i: int) -> bool {
    0 <= i < hs.len() && hs[i]@ == n && forall|j: int| 0 <= j < i ==> hs[j]@ != n
}

/// `n` appears among the headers.
pub open spec fn header_has(hs: Seq<String>, n: Seq<char>) -> bool {
    exists|i: int| 0 <= i < hs.len() && (#[trigger] hs[i])@ == n
}

/// The first index of a name among the headers.
fn position_of(headers: &Vec<String>, name: &str) -> (r: Option<usize>)
    ensures
        r matches Some(i) ==> first_index_of(headers@, name@, i as int),
        (r is Some) == header_has(headers@, name@),
{
    let owned = name.to_owned();
    let mut i: usize = 0;
    while i < headers.len()
        invariant
            owned@ == name@,
            i <= headers@.len(),
            forall|j: int| 0 <= j < i ==> (#[trigger] headers@[j])@ != name@,
        decreases headers@.len() - i,
    {
        if headers[i].eq(&owned) {
            return Some(i);
        }
        i += 1;
    }
    None
}

/// Every required column, in lookup order.
pub open spec fn required_names() -> Seq<Seq<char>> {
    seq![
        "Generation"@,
        "Name"@,
        "Form"@,
        "Type1"@,
        "Type2"@,
        "Total"@,
        "HP"@,
        "Attack"@,
        "Defense"@,
        "Sp. Atk"@,
        "Sp. Def"@,
        "Speed"@,
        "Height"@,
        "Weight"@,
    ]
}

/// Finds every required column by name. A missing column is reported by its
/// name; nothing is silently defaulted.
pub fn find_columns(headers: &Vec<String>) -> (r: Result<ColumnMap, String>)
    ensures
        (r is Ok) == (forall|k: int|
            0 <= k < required_names().len() ==> header_has(headers@, #[trigger] required_names()[k])),
        r matches Ok(m) ==> {
            &&& first_index_of(headers@, "Generation"@, m.generation as int)
            &&& first_index_of(headers@, "Name"@, m.name as int)
            &&& first_index_of(headers@, "Form"@, m.form as int)
            &&& first_index_of(headers@, "Type1"@, m.type1 as int)
            &&& first_index_of(headers@, "Type2"@, m.type2 as int)
            &&& first_index_of(headers@, "Total"@, m.total as int)
            &&& first_index_of(headers@, "HP"@, m.hp as int)
            &&& first_index_of(headers@, "Attack"@, m.attack as int)
            &&& first_index_of(headers@, "Defense"@, m.defense as int)
            &&& first_index_of(headers@, "Sp. Atk"@, m.sp_atk as int)
            &&& first_index_of(headers@, "Sp. Def"@, m.sp_def as int)
            &&& first_index_of(headers@, "Speed"@, m.speed as int)
            &&& first_index_of(headers@, "Height"@, m.height as int)
            &&& first_index_of(headers@, "Weight"@, m.weight as int)
        },
        r matches Err(e) ==> !header_has(headers@, e@) && required_names().contains(e@),
{
    let generation = match position_of(headers, "Generation") {
        Some(i) => i,
        None => {
            proof {
                assert(required_names()[0] == "Generation"@);
            }
            return Err("Generation".to_owned());
        }
    };
    let name = match position_of(headers, "Name") {
        Some(i) => i,
        None => {
            proof {
                assert(required_names()[1] == "Name"@);
            }
            return Err("Name".to_owned());
        }
    };
    let form = match position_of(headers, "Form") {
        Some(i) => i,
        None => {
            proof {
                assert(required_names()[2] == "Form"@);
            }
            return Err("Form".to_owned());
        }
    };
    let type1 = match position_of(headers, "Type1") {
        Some(i) => i,
        None => {
            proof {
                assert(required_names()[3] == "Type1"@);
            }
            return Err("Type1".to_owned());
        }
    };
    let type2 = match position_of(headers, "Type2") {
        Some(i) => i,
        None => {
            proof {
                assert(required_names()[4] == "Type2"@);
            }
            return Err("Type2".to_owned());
        }
    };
    let total = match position_of(headers, "Total") {
        Some(i) => i,
        None => {
            proof {
                assert(required_names()[5] == "Total"@);
            }
            return Err("Total".to_owned());
        }
    };
    let hp = match position_of(headers, "HP") {
        Some(i) => i,
        None => {
            proof {
                assert(required_names()[6] == "HP"@);
            }
            return Err("HP".to_owned());
        }
    };
    let attack = match position_of(headers, "Attack") {
        Some(i) => i,
        None => {
            proof {
                assert(required_names()[7] == "Attack"@);
            }
            return Err("Attack".to_owned());
        }
    };
    let defense = match position_of(headers, "Defense") {
        Some(i) => i,
        None => {
            proof {
                assert(required_names()[8] == "Defense"@);
            }
            return Err("Defense".to_owned());
        }
    };
    let sp_atk = match position_of(headers, "Sp. Atk") {
        Some(i) => i,
        None => {
            proof {
                assert(required_names()[9] == "Sp. Atk"@);
            }
            return Err("Sp. Atk".to_owned());
        }
    };
    let sp_def = match position_of(headers, "Sp. Def") {
        Some(i) => i,
        None => {
            proof {
                assert(required_names()[10] == "Sp. Def"@);
            }
            return Err("Sp. Def".to_owned());
        }
    };
    let speed = match position_of(headers, "Speed") {
        Some(i) => i,
        None => {
            proof {
                assert(required_names()[11] == "Speed"@);
            }
            return Err("Speed".to_owned());
        }
    };
    let height = match position_of(headers, "Height") {
        Some(i) => i,
        None => {
            proof {
                assert(required_names()[12] == "Height"@);
            }
            return Err("Height".to_owned());
        }
    };
    let weight = match position_of(headers, "Weight") {
        Some(i) => i,
        None => {
            proof {
                assert(required_names()[13] == "Weight"@);
            }
            return Err("Weight".to_owned());
        }
    };
    let m = ColumnMap {
        generation,
        name,
        form,
        type1,
        type2,
        total,
        hp,
        attack,
        defense,
        sp_atk,
        sp_def,
        speed,
        height,
        weight,
    };
    proof {
        assert forall|kq: int|
            0 <= kq < required_names().len() implies header_has(
            headers@,
            #[trigger] required_names()[kq],
        ) by {
            let k = kq;
            let names = required_names();
            if k == 0 {
                assert(headers@[m.generation as int]@ == names[0]);
            } else if k == 1 {
                assert(headers@[m.name as int]@ == names[1]);
            } else if k == 2 {
                assert(headers@[m.form as int]@ == names[2]);
            } else if k == 3 {
                assert(headers@[m.type1 as int]@ == names[3]);
            } else if k == 4 {
                assert(headers@[m.type2 as int]@ == names[4]);
            } else if k == 5 {
                assert(headers@[m.total as int]@ == names[5]);
            } else if k == 6 {
                assert(headers@[m.hp as int]@ == names[6]);
            } else if k == 7 {
                assert(headers@[m.attack as int]@ == names[7]);
            } else if k == 8 {
                assert(headers@[m.defense as int]@ == names[8]);
            } else if k == 9 {
                assert(headers@[m.sp_atk as int]@ == names[9]);
            } else if k == 10 {
                assert(headers@[m.sp_def as int]@ == names[10]);
            } else if k == 11 {
                assert(headers@[m.speed as int]@ == names[11]);
            } else if k == 12 {
                assert(headers@[m.height as int]@ == names[12]);
            } else {
                assert(headers@[m.weight as int]@ == names[13]);
            }
        }
    }
    Ok(m)
}

// ---- Row decoding ---------------------------------------------------------

/// The numeric fields of a row, in the order they are decoded; a row-parse
/// error names the first one whose cell does not parse.
#[derive(Debug, Clone, Copy, PartialEq, Eq, Structural)]
pub enum Field {
    Generation,
    Total,
    Hp,
    Attack,
    Defense,
    SpAtk,
    SpDef,
    Speed,
    Height,
    Weight,
}

/// The content of cell `i`, or a default for a cell beyond the row's end.
pub open spec fn cell_at(cells: Seq<String>, i: int, dflt: Seq<char>) -> Seq<char> {
    if 0 <= i < cells.len() {
        cells[i]@
    } else {
        dflt
    }
}

fn get_cell<'a>(cells: &'a Vec<String>, i: usize, dflt: &'a str) -> (r: &'a str)
    ensures
        r@ == cell_at(cells@, i as int, dflt@),
{
    if i < cells.len() {
        cells[i].as_str()
    } else {
        dflt
    }
}

/// Every numeric cell of the row parses and fits its field.
pub open spec fn row_ok(cells: Seq<String>, m: ColumnMap) -> bool {
    &&& uint_parses(cell_at(cells, m.generation as int, "0"@), 255)
    &&& uint_parses(cell_at(cells, m.total as int, "0"@), 65535)
    &&& uint_parses(cell_at(cells, m.hp as int, "0"@), 255)
    &&& uint_parses(cell_at(cells, m.attack as int, "0"@), 255)
    &&& uint_parses(cell_at(cells, m.defense as int, "0"@), 255)
    &&& uint_parses(cell_at(cells, m.sp_atk as int, "0"@), 255)
    &&& uint_parses(cell_at(cells, m.sp_def as int, "0"@), 255)
    &&& uint_parses(cell_at(cells, m.speed as int, "0"@), 255)
    &&& tenths_ok(cell_at(cells, m.height as int, "0"@))
    &&& tenths_ok(cell_at(cells, m.weight as int, "0"@))
}

/// The first numeric field, in decode order, whose cell does not parse.
pub open spec fn first_bad_field(cells: Seq<String>, m: ColumnMap) -> Field {
    if !uint_parses(cell_at(cells, m.generation as int, "0"@), 255) {
        Field::Generation
    } else if !uint_parses(cell_at(cells, m.total as int, "0"@), 65535) {
        Field::Total
    } else if !uint_parses(cell_at(cells, m.hp as int, "0"@), 255) {
        Field::Hp
    } else if !uint_parses(cell_at(cells, m.attack as int, "0"@), 255) {
        Field::Attack
    } else if !uint_parses(cell_at(cells, m.defense as int, "0"@), 255) {
        Field::Defense
    } else if !uint_parses(cell_at(cells, m.sp_atk as int, "0"@), 255) {
        Field::SpAtk
    } else if !uint_parses(cell_at(cells, m.sp_def as int, "0"@), 255) {
        Field::SpDef
    } else if !uint_parses(cell_at(cells, m.speed as int, "0"@), 255) {
        Field::Speed
    } else if !tenths_ok(cell_at(cells, m.height as int, "0"@)) {
        Field::Height
    } else {
        Field::Weight
    }
}

/// The tenths value of a decimal cell that parses.
pub open spec fn tenths_val(s: Seq<char>) -> int {
    match tenths_spec(s) {
        Some(v) => v,
        None => 0,
    }
}

/// The record a well-formed row decodes to.
pub open spec fn row_view(cells: Seq<String>, m: ColumnMap) -> RecordV {
    RecordV {
        generation: digits_val(cell_at(cells, m.generation as int, "0"@)) as u8,
        name: cell_at(cells, m.name as int, ""@),
        form: opt_cell(cell_at(cells, m.form as int, ""@)),
        type1: cell_at(cells, m.type1 as int, ""@),
        type2: opt_cell(cell_at(cells, m.type2 as int, ""@)),
        total: digits_val(cell_at(cells, m.total as int, "0"@)) as u16,
        hp: digits_val(cell_at(cells, m.hp as int, "0"@)) as u8,
        attack: digits_val(cell_at(cells, m.attack as int, "0"@)) as u8,
        defense: digits_val(cell_at(cells, m.defense as int, "0"@)) as u8,
        sp_atk: digits_val(cell_at(cells, m.sp_atk as int, "0"@)) as u8,
        sp_def: digits_val(cell_at(cells, m.sp_def as int, "0"@)) as u8,
        speed: digits_val(cell_at(cells, m.speed as int, "0"@)) as u8,
        height: tenths_val(cell_at(cells, m.height as int, "0"@)) as u32,
        weight: tenths_val(cell_at(cells, m.weight as int, "0"@)) as u32,
    }
}

/// Decodes one row into a record. A cell beyond the row's end counts as
/// empty (or zero for a numeric field); a numeric cell that does not parse
/// names its field; optional text cells are trimmed and normalized to
/// absence when empty.
pub fn parse_row(cells: &Vec<String>, m: &ColumnMap) -> (r: Result<Pokemon, Field>)
    ensures
        (r is Ok) == row_ok(cells@, *m),
        r matches Ok(p) ==> p@ == row_view(cells@, *m) && crate::record::record_wf(p@),
        r matches Err(e) ==> !row_ok(cells@, *m) && e == first_bad_field(cells@, *m),
{
    let gv = chars_vec(get_cell(cells, m.generation, "0"));
    let generation = match parse_uint(&gv, 255) {
        Some(v) => v as u8,
        None => {
            return Err(Field::Generation);
        }
    };
    let name = get_cell(cells, m.name, "").to_owned();
    let form = decode_opt_cell(get_cell(cells, m.form, ""));
    let type1 = get_cell(cells, m.type1, "").to_owned();
    let type2 = decode_opt_cell(get_cell(cells, m.type2, ""));
    let tv = chars_vec(get_cell(cells, m.total, "0"));
    let total = match parse_uint(&tv, 65535) {
        Some(v) => v as u16,
        None => {
            return Err(Field::Total);
        }
    };
    let hv = chars_vec(get_cell(cells, m.hp, "0"));
    let hp = match parse_uint(&hv, 255) {
        Some(v) => v as u8,
        None => {
            return Err(Field::Hp);
        }
    };
    let av = chars_vec(get_cell(cells, m.attack, "0"));
    let attack = match parse_uint(&av, 255) {
        Some(v) => v as u8,
        None => {
            return Err(Field::Attack);
        }
    };
    let dv = chars_vec(get_cell(cells, m.defense, "0"));
    let defense = match parse_uint(&dv, 255) {
        Some(v) => v as u8,
        None => {
            return Err(Field::Defense);
        }
    };
    let sav = chars_vec(get_cell(cells, m.sp_atk, "0"));
    let sp_atk = match parse_uint(&sav, 255) {
        Some(v) => v as u8,
        None => {
            return Err(Field::SpAtk);
        }
    };
    let sdv = chars_vec(get_cell(cells, m.sp_def, "0"));
    let sp_def = match parse_uint(&sdv, 255) {
        Some(v) => v as u8,
        None => {
            return Err(Field::SpDef);
        }
    };
    let spv = chars_vec(get_cell(cells, m.speed, "0"));
    let speed = match parse_uint(&spv, 255) {
        Some(v) => v as u8,
        None => {
            return Err(Field::Speed);
        }
    };
    let htv = chars_vec(get_cell(cells, m.height, "0"));
    let height = match parse_tenths(&htv) {
        Some(v) => v,
        None => {
            return Err(Field::Height);
        }
    };
    let wtv = chars_vec(get_cell(cells, m.weight, "0"));
    let weight = match parse_tenths(&wtv) {
        Some(v) => v,
        None => {
            return Err(Field::Weight);
        }
    };
    let p = Pokemon {
        generation,
        name,
        form,
        type1,
        type2,
        total,
        hp,
        attack,
        defense,
        sp_atk,
        sp_def,
        speed,
        height,
        weight,
    };
    proof {
        assert(p@ =~= row_view(cells@, *m));
    }
    Ok(p)
}

} // verus!
