//! Text helpers for the query engine and the derived index: case folding,
//! substring search, lexicographic order and membership over string lists.

use vstd::prelude::*;
use vstd::string::StrSliceExecFns;

verus! {

/// The Unicode lowercase folding of a character sequence, as
/// `str::to_lowercase` computes it. The folding depends on the characters
/// alone, so it is given a name rather than a definition.
pub uninterp spec fn lower_of(s: Seq<char>) -> Seq<char>;

/// Relies on `str::to_lowercase`: the result depends on the characters alone,
/// and an empty string stays empty.
#[verifier::external_body]
pub(crate) fn lowercase(s: &str) -> (r: String)
    ensures
        r@ == lower_of(s@),
        s@.len() == 0 ==> r@.len() == 0,
{
    s.to_lowercase()
}

/// The characters of a string as a vector, for random access.
pub(crate) fn chars_vec(s: &str) -> (v: Vec<char>)
    ensures
        v@ == s@,
{
    let n = s.unicode_len();
    let mut v: Vec<char> = Vec::new();
    let mut i: usize = 0;
    while i < n
        invariant
            n == s@.len(),
            i <= n,
            v@ == s@.take(i as int),
        decreases n - i,
    {
        let c = s.get_char(i);
        v.push(c);
        proof {
            assert(s@.take(i + 1) =~= s@.take(i as int).push(s@[i as int]));
        }
        i += 1;
    }
    proof {
        assert(s@.take(n as int) =~= s@);
    }
    v
}

/// `needle` occurs in `hay` starting at position `k`.
pub open spec fn matches_at(hay: Seq<char>, needle: Seq<char>, k: int) -> bool {
    &&& 0 <= k
    &&& k + needle.len() <= hay.len()
    &&& hay.subrange(k, k + needle.len() as int) == needle
}

/// `needle` occurs somewhere in `hay`; an empty needle occurs everywhere.
pub open spec fn has_substring(hay: Seq<char>, needle: Seq<char>) -> bool {
    exists|k: int| matches_at(hay, needle, k)
}

/// Does `needle` occur in `hay` at exactly position `k`?
fn match_at(hay: &Vec<char>, needle: &Vec<char>, k: usize) -> (r: bool)
    requires
        k + needle@.len() <= hay@.len(),
    ensures
        r == matches_at(hay@, needle@, k as int),
{
    let hn = hay.len();
    let nn = needle.len();
    let mut j: usize = 0;
    while j < nn
        invariant
            hn == hay@.len(),
            nn == needle@.len(),
            k + nn <= hn,
            j <= nn,
            forall|q: int| 0 <= q < j ==> hay@[k + q] == needle@[q],
        decreases nn - j,
    {
        if hay[k + j] != needle[j] {
            proof {
                assert(hay@.subrange(k as int, k + nn as int)[j as int] == hay@[k + j]);
            }
            return false;
        }
        j += 1;
    }
    proof {
        assert(hay@.subrange(k as int, k + nn as int) =~= needle@);
    }
    true
}

/// Substring search over character vectors.
pub(crate) fn contains_chars(hay: &Vec<char>, needle: &Vec<char>) -> (r: bool)
    ensures
        r == has_substring(hay@, needle@),
{
    let hn = hay.len();
    let nn = needle.len();
    if nn == 0 {
        proof {
            assert(hay@.subrange(0, 0) =~= needle@);
            assert(matches_at(hay@, needle@, 0));
        }
        return true;
    }
    if nn > hn {
        proof {
            assert(forall|k: int| !matches_at(hay@, needle@, k));
        }
        return false;
    }
    let mut k: usize = 0;
    while k <= hn - nn
        invariant
            hn == hay@.len(),
            nn == needle@.len(),
            1 <= nn <= hn,
            k <= hn - nn + 1,
            forall|q: int| 0 <= q < k ==> !matches_at(hay@, needle@, q),
        decreases hn - nn - k + 1,
    {
        if match_at(hay, needle, k) {
            return true;
        }
        k += 1;
    }
    proof {
        assert(forall|q: int| k <= q ==> !matches_at(hay@, needle@, q));
    }
    false
}

/// Case-insensitive substring test: does the folded needle occur in the
/// folded haystack? An empty needle matches every string.
pub(crate) fn contains_ci(hay: &str, needle: &str) -> (r: bool)
    ensures
        r == has_substring(lower_of(hay@), lower_of(needle@)),
{
    let lh = lowercase(hay);
    let ln = lowercase(needle);
    let hv = chars_vec(lh.as_str());
    let nv = chars_vec(ln.as_str());
    contains_chars(&hv, &nv)
}

/// Case-insensitive equality: the two foldings coincide.
pub(crate) fn eq_ci(a: &str, b: &str) -> (r: bool)
    ensures
        r == (lower_of(a@) == lower_of(b@)),
{
    let la = lowercase(a);
    let lb = lowercase(b);
    la == lb
}

/// The views of a list of strings.
pub open spec fn strs_of(v: Seq<String>) -> Seq<Seq<char>> {
    v.map_values(|s: String| s@)
}

/// Membership of a character sequence in a list of character sequences.
pub open spec fn str_in(l: Seq<Seq<char>>, x: Seq<char>) -> bool {
    exists|i: int| 0 <= i < l.len() && l[i] == x
}

/// Exact membership of a string in a string list.
pub(crate) fn list_contains(list: &Vec<String>, s: &String) -> (r: bool)
    ensures
        r == str_in(strs_of(list@), s@),
{
    let mut i: usize = 0;
    while i < list.len()
        invariant
            i <= list@.len(),
            forall|j: int| 0 <= j < i ==> list@[j]@ != s@,
        decreases list@.len() - i,
    {
        if list[i].eq(s) {
            proof {
                assert(strs_of(list@)[i as int] == s@);
            }
            return true;
        }
        i += 1;
    }
    proof {
        assert(forall|j: int| 0 <= j < list@.len() ==> strs_of(list@)[j] == list@[j]@);
    }
    false
}

/// Lexicographic order on character sequences, comparing scalar values.
pub open spec fn lex_le(a: Seq<char>, b: Seq<char>) -> bool
    decreases a.len(),
{
    if a.len() == 0 {
        true
    } else if b.len() == 0 {
        false
    } else if a[0] != b[0] {
        (a[0] as u32) < (b[0] as u32)
    } else {
        lex_le(a.drop_first(), b.drop_first())
    }
}

/// Strict lexicographic order.
pub open spec fn lex_lt(a: Seq<char>, b: Seq<char>) -> bool {
    lex_le(a, b) && a != b
}

/// When two sequences agree on their first `i` characters, their order is
/// decided by the remainders.
pub proof fn lemma_lex_le_skip(a: Seq<char>, b: Seq<char>, i: int)
    requires
        0 <= i <= a.len(),
        i <= b.len(),
        forall|j: int| 0 <= j < i ==> a[j] == b[j],
    ensures
        lex_le(a, b) == lex_le(a.skip(i), b.skip(i)),
    decreases i,
{
    if i > 0 {
        assert(a[0] == b[0]);
        lemma_lex_le_skip(a.drop_first(), b.drop_first(), i - 1);
        assert(a.drop_first().skip(i - 1) =~= a.skip(i));
        assert(b.drop_first().skip(i - 1) =~= b.skip(i));
    } else {
        assert(a.skip(0) =~= a);
        assert(b.skip(0) =~= b);
    }
}

/// The order is total.
pub proof fn lemma_lex_le_total(a: Seq<char>, b: Seq<char>)
    ensures
        lex_le(a, b) || lex_le(b, a),
    decreases a.len(),
{
    if a.len() > 0 && b.len() > 0 {
        if a[0] == b[0] {
            lemma_lex_le_total(a.drop_first(), b.drop_first());
        } else if (a[0] as u32) == (b[0] as u32) {
            vstd::utf8::char_u32_cast(a[0], a[0] as u32);
            vstd::utf8::char_u32_cast(b[0], b[0] as u32);
            assert(false);
        }
    }
}

/// The order is antisymmetric: mutual order means equality.
pub proof fn lemma_lex_le_antisym(a: Seq<char>, b: Seq<char>)
    requires
        lex_le(a, b),
        lex_le(b, a),
    ensures
        a == b,
    decreases a.len(),
{
    if a.len() == 0 {
        assert(b.len() == 0);
        assert(a =~= b);
    } else {
        assert(b.len() > 0);
        assert(a[0] == b[0]);
        lemma_lex_le_antisym(a.drop_first(), b.drop_first());
        assert forall|j: int| 1 <= j < a.len() implies a[j] == b[j] by {
            assert(a.drop_first()[j - 1] == b.drop_first()[j - 1]);
        }
        assert(a =~= b);
    }
}

/// The order is transitive.
pub proof fn lemma_lex_le_trans(a: Seq<char>, b: Seq<char>, c: Seq<char>)
    requires
        lex_le(a, b),
        lex_le(b, c),
    ensures
        lex_le(a, c),
    decreases a.len(),
{
    if a.len() > 0 && b.len() > 0 && c.len() > 0 {
        if a[0] == b[0] && b[0] == c[0] {
            lemma_lex_le_trans(a.drop_first(), b.drop_first(), c.drop_first());
        }
    }
}

/// Character-vector comparison deciding `lex_le` of the views.
pub(crate) fn chars_le(a: &Vec<char>, b: &Vec<char>) -> (r: bool)
    ensures
        r == lex_le(a@, b@),
{
    let mut i: usize = 0;
    loop
        invariant
            i <= a@.len(),
            i <= b@.len(),
            forall|j: int| 0 <= j < i ==> a@[j] == b@[j],
        decreases a@.len() - i,
    {
        if i == a.len() {
            proof {
                lemma_lex_le_skip(a@, b@, i as int);
                assert(a@.skip(i as int).len() == 0);
            }
            return true;
        }
        if i == b.len() {
            proof {
                lemma_lex_le_skip(a@, b@, i as int);
                assert(b@.skip(i as int).len() == 0);
                assert(a@.skip(i as int).len() > 0);
            }
            return false;
        }
        let ca = a[i];
        let cb = b[i];
        if ca != cb {
            proof {
                lemma_lex_le_skip(a@, b@, i as int);
                assert(a@.skip(i as int)[0] == ca);
                assert(b@.skip(i as int)[0] == cb);
            }
            return (ca as u32) < (cb as u32);
        }
        i += 1;
    }
}

} // verus!
