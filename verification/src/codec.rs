//! The fixed binary encoding of a record collection, and its decoder.
//!
//! Layout: one version byte, then the record count as eight little-endian
//! bytes, then each record in order. Strings are length-prefixed UTF-8;
//! optional strings carry a one-byte presence tag; integers are
//! little-endian with a fixed width. Decoding consumes the whole input and
//! inverts encoding exactly.

use vstd::prelude::*;
use vstd::arithmetic::div_mod::lemma_fundamental_div_mod;
use vstd::utf8::{
    encode_utf8, decode_utf8, valid_utf8, encode_utf8_valid_utf8, encode_utf8_decode_utf8,
};
use vstd::string::StrSliceExecFns;
use crate::record::{Pokemon, RecordV};
use crate::filter::views_of;

verus! {

/// The version byte that every artifact starts with.
pub const FORMAT_VERSION: u8 = 1;

/// 256 to the power `n`.
pub open spec fn pow256(n: nat) -> int
    decreases n,
{
    if n == 0 {
        1
    } else {
        256 * pow256((n - 1) as nat)
    }
}

proof fn lemma_pow256_values()
    ensures
        pow256(0) == 1,
        pow256(1) == 0x100,
        pow256(2) == 0x10000,
        pow256(4) == 0x1_0000_0000,
        pow256(7) == 0x100_0000_0000_0000,
        pow256(8) == 0x1_0000_0000_0000_0000,
{
    reveal_with_fuel(pow256, 9);
}

/// The `n` little-endian bytes of `v` (its low part, when `v` is larger).
pub open spec fn le_bytes(v: int, n: nat) -> Seq<u8>
    decreases n,
{
    if n == 0 {
        Seq::empty()
    } else {
        seq![(v % 256) as u8] + le_bytes(v / 256, (n - 1) as nat)
    }
}

/// The value of a little-endian byte sequence.
pub open spec fn le_val(b: Seq<u8>) -> int
    decreases b.len(),
{
    if b.len() == 0 {
        0
    } else {
        b[0] + 256 * le_val(b.drop_first())
    }
}

proof fn lemma_le_bytes_len(v: int, n: nat)
    ensures
        le_bytes(v, n).len() == n,
    decreases n,
{
    if n > 0 {
        lemma_le_bytes_len(v / 256, (n - 1) as nat);
    }
}

proof fn lemma_le_val_bound(b: Seq<u8>)
    ensures
        0 <= le_val(b) < pow256(b.len()),
    decreases b.len(),
{
    if b.len() > 0 {
        lemma_le_val_bound(b.drop_first());
    }
}

proof fn lemma_le_round_trip(v: int, n: nat)
    requires
        0 <= v < pow256(n),
    ensures
        le_val(le_bytes(v, n)) == v,
    decreases n,
{
    if n == 0 {
        assert(v == 0);
    } else {
        lemma_fundamental_div_mod(v, 256);
        assert(v / 256 < pow256((n - 1) as nat)) by {
            if v / 256 >= pow256((n - 1) as nat) {
                assert(256 * (v / 256) >= 256 * pow256((n - 1) as nat)) by (nonlinear_arith)
                    requires
                        v / 256 >= pow256((n - 1) as nat),
                ;
                assert(false);
            }
        }
        lemma_le_round_trip(v / 256, (n - 1) as nat);
        let bs = le_bytes(v, n);
        assert(bs.drop_first() =~= le_bytes(v / 256, (n - 1) as nat));
        assert(bs[0] == (v % 256) as u8);
    }
}

/// The encoding of one string: an eight-byte length, then the UTF-8 bytes.
pub open spec fn str_bytes(s: Seq<char>) -> Seq<u8> {
    le_bytes(encode_utf8(s).len() as int, 8) + encode_utf8(s)
}

/// The encoding of an optional string: a presence tag, then the string.
pub open spec fn opt_str_bytes(o: Option<Seq<char>>) -> Seq<u8> {
    match o {
        None => seq![0u8],
        Some(s) => seq![1u8] + str_bytes(s),
    }
}

/// The encoding of one record, field by field in schema order.
pub open spec fn record_bytes(r: RecordV) -> Seq<u8> {
    seq![r.generation] + str_bytes(r.name) + opt_str_bytes(r.form) + str_bytes(r.type1)
        + opt_str_bytes(r.type2) + le_bytes(r.total as int, 2) + seq![r.hp] + seq![r.attack]
        + seq![r.defense] + seq![r.sp_atk] + seq![r.sp_def] + seq![r.speed] + le_bytes(
        r.height as int,
        4,
    ) + le_bytes(r.weight as int, 4)
}

/// The concatenated encodings of a sequence of records.
pub open spec fn records_bytes(vs: Seq<RecordV>) -> Seq<u8>
    decreases vs.len(),
{
    if vs.len() == 0 {
        Seq::empty()
    } else {
        record_bytes(vs[0]) + records_bytes(vs.drop_first())
    }
}

/// The encoding of a whole collection: version, count, records.
pub open spec fn coll_bytes(vs: Seq<RecordV>) -> Seq<u8> {
    seq![FORMAT_VERSION] + le_bytes(vs.len() as int, 8) + records_bytes(vs)
}

// ---- The specification decoder ------------------------------------------

/// Reads one byte at `i`.
pub open spec fn dec_u8(b: Seq<u8>, i: int) -> Option<(u8, int)> {
    if 0 <= i && i + 1 <= b.len() {
        Some((b[i], i + 1))
    } else {
        None
    }
}

/// Reads `n` little-endian bytes at `i`.
pub open spec fn dec_le(b: Seq<u8>, i: int, n: nat) -> Option<(int, int)> {
    if 0 <= i && i + n <= b.len() {
        Some((le_val(b.subrange(i, i + n)), i + n))
    } else {
        None
    }
}

/// Reads a length-prefixed UTF-8 string at `i`; fails on truncation or on
/// bytes that are not valid UTF-8.
pub open spec fn dec_str(b: Seq<u8>, i: int) -> Option<(Seq<char>, int)> {
    match dec_le(b, i, 8) {
        None => None,
        Some((n, j)) => if j + n <= b.len() && valid_utf8(b.subrange(j, j + n)) {
            Some((decode_utf8(b.subrange(j, j + n)), j + n))
        } else {
            None
        },
    }
}

/// Reads a tagged optional string at `i`; any tag other than zero or one is
/// an error.
pub open spec fn dec_opt_str(b: Seq<u8>, i: int) -> Option<(Option<Seq<char>>, int)> {
    match dec_u8(b, i) {
        None => None,
        Some((tag, j)) => if tag == 0 {
            Some((None, j))
        } else if tag == 1 {
            match dec_str(b, j) {
                None => None,
                Some((s, k)) => Some((Some(s), k)),
            }
        } else {
            None
        },
    }
}

/// Reads one record at `i`, field by field in schema order.
pub open spec fn dec_record(b: Seq<u8>, i: int) -> Option<(RecordV, int)> {
    match dec_u8(b, i) {
        None => None,
        Some((generation, i1)) => match dec_str(b, i1) {
            None => None,
            Some((name, i2)) => match dec_opt_str(b, i2) {
                None => None,
                Some((form, i3)) => match dec_str(b, i3) {
                    None => None,
                    Some((type1, i4)) => match dec_opt_str(b, i4) {
                        None => None,
                        Some((type2, i5)) => match dec_le(b, i5, 2) {
                            None => None,
                            Some((total, i6)) => match dec_u8(b, i6) {
                                None => None,
                                Some((hp, i7)) => match dec_u8(b, i7) {
                                    None => None,
                                    Some((attack, i8)) => match dec_u8(b, i8) {
                                        None => None,
                                        Some((defense, i9)) => match dec_u8(b, i9) {
                                            None => None,
                                            Some((sp_atk, i10)) => match dec_u8(b, i10) {
                                                None => None,
                                                Some((sp_def, i11)) => match dec_u8(b, i11) {
                                                    None => None,
                                                    Some((speed, i12)) => match dec_le(
                                                        b,
                                                        i12,
                                                        4,
                                                    ) {
                                                        None => None,
                                                        Some((height, i13)) => match dec_le(
                                                            b,
                                                            i13,
                                                            4,
                                                        ) {
                                                            None => None,
                                                            Some((weight, i14)) => Some(
                                                                (
                                                                    RecordV {
                                                                        generation,
                                                                        name,
                                                                        form,
                                                                        type1,
                                                                        type2,
                                                                        total: total as u16,
                                                                        hp,
                                                                        attack,
                                                                        defense,
                                                                        sp_atk,
                                                                        sp_def,
                                                                        speed,
                                                                        height: height as u32,
                                                                        weight: weight as u32,
                                                                    },
                                                                    i14,
                                                                ),
                                                            ),
                                                        },
                                                    },
                                                },
                                            },
                                        },
                                    },
                                },
                            },
                        },
                    },
                },
            },
        },
    }
}

/// Reads `k` records in sequence starting at `i`.
pub open spec fn dec_records(b: Seq<u8>, i: int, k: nat) -> Option<(Seq<RecordV>, int)>
    decreases k,
{
    if k == 0 {
        Some((Seq::empty(), i))
    } else {
        match dec_record(b, i) {
            None => None,
            Some((r, j)) => match dec_records(b, j, (k - 1) as nat) {
                None => None,
                Some((rs, l)) => Some((seq![r] + rs, l)),
            },
        }
    }
}

/// Prepends already-decoded records to a partial decoding result.
pub open spec fn dec_prepend(
    pre: Seq<RecordV>,
    o: Option<(Seq<RecordV>, int)>,
) -> Option<(Seq<RecordV>, int)> {
    match o {
        None => None,
        Some((rs, l)) => Some((pre + rs, l)),
    }
}

/// What decoding a whole artifact yields: the record views, or nothing when
/// the version is wrong, the input is truncated or malformed, or bytes are
/// left over.
pub open spec fn dec_coll(b: Seq<u8>) -> Option<Seq<RecordV>> {
    match dec_u8(b, 0) {
        None => None,
        Some((ver, i)) => if ver != FORMAT_VERSION {
            None
        } else {
            match dec_le(b, i, 8) {
                None => None,
                Some((n, j)) => match dec_records(b, j, n as nat) {
                    None => None,
                    Some((rs, l)) => if l == b.len() {
                        Some(rs)
                    } else {
                        None
                    },
                },
            }
        },
    }
}

// ---- The encoder ----------------------------------------------------------

/// Appends the `n` little-endian bytes of `v`.
fn push_le(out: &mut Vec<u8>, v: u64, n: usize)
    ensures
        final(out)@ == old(out)@ + le_bytes(v as int, n as nat),
{
    let mut x = v;
    let mut k: usize = 0;
    while k < n
        invariant
            k <= n,
            out@ + le_bytes(x as int, (n - k) as nat) =~= old(out)@ + le_bytes(
                v as int,
                n as nat,
            ),
        decreases n - k,
    {
        let ghost prev_out = out@;
        let ghost prev_x = x as int;
        let byte = (x % 256) as u8;
        out.push(byte);
        x = x / 256;
        proof {
            assert(le_bytes(prev_x, (n - k) as nat) == seq![(prev_x % 256) as u8] + le_bytes(
                prev_x / 256,
                (n - k - 1) as nat,
            ));
            assert(out@ + le_bytes(x as int, (n - k - 1) as nat) =~= prev_out + le_bytes(
                prev_x,
                (n - k) as nat,
            ));
        }
        k += 1;
    }
    proof {
        assert(out@ + le_bytes(x as int, 0) =~= out@);
    }
}

/// Appends the encoding of one string.
fn push_str_bytes(out: &mut Vec<u8>, s: &str)
    ensures
        final(out)@ == old(out)@ + str_bytes(s@),
{
    let mut bv = s.as_bytes_vec();
    let n = bv.len();
    proof {
        assert(bv@ == encode_utf8(s@));
    }
    push_le(out, n as u64, 8);
    out.append(&mut bv);
    proof {
        assert(out@ =~= old(out)@ + str_bytes(s@));
    }
}

/// Appends the encoding of one optional string.
fn push_opt_str_bytes(out: &mut Vec<u8>, o: &Option<String>)
    ensures
        final(out)@ == old(out)@ + opt_str_bytes(crate::record::opt_view(*o)),
{
    match o {
        None => {
            out.push(0u8);
            proof {
                assert(out@ =~= old(out)@ + opt_str_bytes(None));
            }
        }
        Some(s) => {
            out.push(1u8);
            push_str_bytes(out, s.as_str());
            proof {
                assert(out@ =~= old(out)@ + opt_str_bytes(Some(s@)));
            }
        }
    }
}

/// Appends the encoding of one record.
fn push_record_bytes(out: &mut Vec<u8>, p: &Pokemon)
    ensures
        final(out)@ == old(out)@ + record_bytes(p@),
{
    out.push(p.generation);
    push_str_bytes(out, p.name.as_str());
    push_opt_str_bytes(out, &p.form);
    push_str_bytes(out, p.type1.as_str());
    push_opt_str_bytes(out, &p.type2);
    push_le(out, p.total as u64, 2);
    out.push(p.hp);
    out.push(p.attack);
    out.push(p.defense);
    out.push(p.sp_atk);
    out.push(p.sp_def);
    out.push(p.speed);
    push_le(out, p.height as u64, 4);
    push_le(out, p.weight as u64, 4);
    proof {
        assert(out@ =~= old(out)@ + record_bytes(p@));
    }
}

#[verifier::rlimit(60)]
proof fn lemma_records_bytes_push(vs: Seq<RecordV>, r: RecordV)
    ensures
        records_bytes(vs.push(r)) == records_bytes(vs) + record_bytes(r),
    decreases vs.len(),
{
    reveal_with_fuel(records_bytes, 3);
    assert(vs.push(r)[0] == if vs.len() == 0 {
        r
    } else {
        vs[0]
    });
    if vs.len() == 0 {
        assert(vs.push(r).drop_first() =~= Seq::empty());
        assert(records_bytes(vs.push(r)) =~= records_bytes(vs) + record_bytes(r));
    } else {
        assert(vs.push(r).drop_first() =~= vs.drop_first().push(r));
        lemma_records_bytes_push(vs.drop_first(), r);
        assert(records_bytes(vs.push(r)) =~= records_bytes(vs) + record_bytes(r));
    }
}

/// Encodes a collection into the fixed binary layout.
pub fn encode_collection(collection: &Vec<Pokemon>) -> (r: Vec<u8>)
    ensures
        r@ == coll_bytes(views_of(collection@)),
{
    let ghost vs = views_of(collection@);
    let mut out: Vec<u8> = Vec::new();
    out.push(FORMAT_VERSION);
    push_le(&mut out, collection.len() as u64, 8);
    let ghost header = out@;
    let mut i: usize = 0;
    while i < collection.len()
        invariant
            i <= collection@.len(),
            vs == views_of(collection@),
            header == seq![FORMAT_VERSION] + le_bytes(vs.len() as int, 8),
            out@ == header + records_bytes(vs.take(i as int)),
        decreases collection@.len() - i,
    {
        push_record_bytes(&mut out, &collection[i]);
        proof {
            assert(vs.take(i + 1) =~= vs.take(i as int).push(vs[i as int]));
            lemma_records_bytes_push(vs.take(i as int), vs[i as int]);
            assert(out@ =~= header + records_bytes(vs.take(i + 1)));
        }
        i += 1;
    }
    proof {
        assert(vs.take(vs.len() as int) =~= vs);
        assert(out@ =~= coll_bytes(vs));
    }
    out
}

// ---- The decoder ----------------------------------------------------------

/// Relies on `String::from_utf8`: it succeeds exactly on input that is valid
/// UTF-8, and the returned string consists of those bytes.
#[verifier::external_body]
fn string_from_utf8(bytes: Vec<u8>) -> (r: Option<String>)
    ensures
        r matches Some(s) ==> valid_utf8(bytes@) && encode_utf8(s@) == bytes@,
        r is None ==> !valid_utf8(bytes@),
{
    String::from_utf8(bytes).ok()
}

fn read_u8(b: &Vec<u8>, i: usize) -> (r: Option<(u8, usize)>)
    ensures
        (r is Some) == (dec_u8(b@, i as int) is Some),
        r matches Some((v, j)) ==> dec_u8(b@, i as int) == Some((v, j as int)),
{
    if i < b.len() {
        Some((b[i], i + 1))
    } else {
        None
    }
}

fn read_le(b: &Vec<u8>, i: usize, n: usize) -> (r: Option<(u64, usize)>)
    requires
        1 <= n <= 8,
    ensures
        (r is Some) == (dec_le(b@, i as int, n as nat) is Some),
        r matches Some((v, j)) ==> dec_le(b@, i as int, n as nat) == Some((v as int, j as int))
            && (v as int) < pow256(n as nat),
{
    if i > b.len() || n > b.len() - i {
        return None;
    }
    let bl = b.len();
    let mut v: u64 = 0;
    let mut k: usize = n;
    while k > 0
        invariant
            bl == b@.len(),
            i + n <= b@.len(),
            k <= n <= 8,
            v as int == le_val(b@.subrange(i + k, i + n)),
            (v as int) < pow256((n - k) as nat),
        decreases k,
    {
        proof {
            lemma_pow256_values();
            lemma_pow256_le((n - k) as nat, 7);
        }
        k -= 1;
        let byte = b[i + k];
        v = v * 256 + (byte as u64);
        proof {
            let sub = b@.subrange(i + k, i + n);
            assert(sub.drop_first() =~= b@.subrange(i + k + 1, i + n));
            assert(sub[0] == b@[i + k]);
        }
    }
    proof {
        assert(b@.subrange(i as int, i + n) == b@.subrange(i + k, i + n));
    }
    Some((v, i + n))
}

proof fn lemma_pow256_le(a: nat, b: nat)
    requires
        a <= b,
    ensures
        pow256(a) <= pow256(b),
    decreases b,
{
    if a < b {
        lemma_pow256_le(a, (b - 1) as nat);
        assert(pow256((b - 1) as nat) >= 1) by {
            lemma_pow256_pos((b - 1) as nat);
        }
    }
}

proof fn lemma_pow256_pos(n: nat)
    ensures
        pow256(n) >= 1,
    decreases n,
{
    if n > 0 {
        lemma_pow256_pos((n - 1) as nat);
    }
}

fn read_string(b: &Vec<u8>, i: usize) -> (r: Option<(String, usize)>)
    ensures
        (r is Some) == (dec_str(b@, i as int) is Some),
        r matches Some((s, j)) ==> dec_str(b@, i as int) == Some((s@, j as int)),
{
    let (n64, j) = match read_le(b, i, 8) {
        Some(p) => p,
        None => {
            return None;
        }
    };
    if n64 > (b.len() - j) as u64 {
        return None;
    }
    let n = n64 as usize;
    let bl = b.len();
    let mut bytes: Vec<u8> = Vec::new();
    let mut k: usize = 0;
    while k < n
        invariant
            bl == b@.len(),
            j + n <= b@.len(),
            k <= n,
            bytes@ == b@.subrange(j as int, j + k),
        decreases n - k,
    {
        bytes.push(b[j + k]);
        proof {
            assert(b@.subrange(j as int, j + k + 1) =~= b@.subrange(j as int, j + k).push(
                b@[j + k],
            ));
        }
        k += 1;
    }
    let ghost sub = b@.subrange(j as int, j + n);
    match string_from_utf8(bytes) {
        Some(s) => {
            proof {
                encode_utf8_decode_utf8(s@);
            }
            Some((s, j + n))
        }
        None => {
            proof {
                assert(!valid_utf8(sub));
            }
            None
        }
    }
}

fn read_opt_string(b: &Vec<u8>, i: usize) -> (r: Option<(Option<String>, usize)>)
    ensures
        (r is Some) == (dec_opt_str(b@, i as int) is Some),
        r matches Some((o, j)) ==> dec_opt_str(b@, i as int) == Some((
            crate::record::opt_view(o),
            j as int,
        )),
{
    let (tag, j) = match read_u8(b, i) {
        Some(p) => p,
        None => {
            return None;
        }
    };
    if tag == 0 {
        Some((None, j))
    } else if tag == 1 {
        match read_string(b, j) {
            Some((s, k)) => Some((Some(s), k)),
            None => None,
        }
    } else {
        None
    }
}

fn read_record(b: &Vec<u8>, i: usize) -> (r: Option<(Pokemon, usize)>)
    ensures
        (r is Some) == (dec_record(b@, i as int) is Some),
        r matches Some((p, j)) ==> dec_record(b@, i as int) == Some((p@, j as int)),
{
    let (generation, i1) = match read_u8(b, i) {
        Some(p) => p,
        None => {
            return None;
        }
    };
    let (name, i2) = match read_string(b, i1) {
        Some(p) => p,
        None => {
            return None;
        }
    };
    let (form, i3) = match read_opt_string(b, i2) {
        Some(p) => p,
        None => {
            return None;
        }
    };
    let (type1, i4) = match read_string(b, i3) {
        Some(p) => p,
        None => {
            return None;
        }
    };
    let (type2, i5) = match read_opt_string(b, i4) {
        Some(p) => p,
        None => {
            return None;
        }
    };
    let (total64, i6) = match read_le(b, i5, 2) {
        Some(p) => p,
        None => {
            return None;
        }
    };
    let (hp, i7) = match read_u8(b, i6) {
        Some(p) => p,
        None => {
            return None;
        }
    };
    let (attack, i8) = match read_u8(b, i7) {
        Some(p) => p,
        None => {
            return None;
        }
    };
    let (defense, i9) = match read_u8(b, i8) {
        Some(p) => p,
        None => {
            return None;
        }
    };
    let (sp_atk, i10) = match read_u8(b, i9) {
        Some(p) => p,
        None => {
            return None;
        }
    };
    let (sp_def, i11) = match read_u8(b, i10) {
        Some(p) => p,
        None => {
            return None;
        }
    };
    let (speed, i12) = match read_u8(b, i11) {
        Some(p) => p,
        None => {
            return None;
        }
    };
    let (height64, i13) = match read_le(b, i12, 4) {
        Some(p) => p,
        None => {
            return None;
        }
    };
    let (weight64, i14) = match read_le(b, i13, 4) {
        Some(p) => p,
        None => {
            return None;
        }
    };
    proof {
        lemma_pow256_values();
    }
    let p = Pokemon {
        generation,
        name,
        form,
        type1,
        type2,
        total: total64 as u16,
        hp,
        attack,
        defense,
        sp_atk,
        sp_def,
        speed,
        height: height64 as u32,
        weight: weight64 as u32,
    };
    proof {
        assert(dec_record(b@, i as int) matches Some((rv, j)) && rv =~= p@ && j == i14 as int);
    }
    Some((p, i14))
}

/// Decodes a whole artifact; yields the collection exactly when the bytes
/// are a well-formed encoding with nothing left over.
pub fn decode_collection(bytes: &Vec<u8>) -> (r: Option<Vec<Pokemon>>)
    ensures
        (r is Some) == (dec_coll(bytes@) is Some),
        r matches Some(v) ==> dec_coll(bytes@) == Some(views_of(v@)),
{
    let (ver, i) = match read_u8(bytes, 0) {
        Some(p) => p,
        None => {
            return None;
        }
    };
    if ver != FORMAT_VERSION {
        return None;
    }
    let (n64, j0) = match read_le(bytes, i, 8) {
        Some(p) => p,
        None => {
            return None;
        }
    };
    let ghost total = n64 as nat;
    let mut acc: Vec<Pokemon> = Vec::new();
    let mut cur: usize = j0;
    let mut rem: u64 = n64;
    while rem > 0
        invariant
            rem <= n64,
            total == n64 as nat,
            dec_records(bytes@, j0 as int, total) == dec_prepend(
                views_of(acc@),
                dec_records(bytes@, cur as int, rem as nat),
            ),
            match dec_records(bytes@, j0 as int, total) {
                None => dec_coll(bytes@) is None,
                Some((rs, l)) => dec_coll(bytes@) == (if l == bytes@.len() {
                    Some(rs)
                } else {
                    None
                }),
            },
        decreases rem,
    {
        let (p, next) = match read_record(bytes, cur) {
            Some(p) => p,
            None => {
                proof {
                    assert(dec_records(bytes@, cur as int, rem as nat) is None);
                }
                return None;
            }
        };
        let ghost old_acc = acc@;
        acc.push(p);
        proof {
            let tail = dec_records(bytes@, next as int, (rem - 1) as nat);
            assert(dec_records(bytes@, cur as int, rem as nat) == (match tail {
                None => None::<(Seq<RecordV>, int)>,
                Some((rs, l)) => Some((seq![p@] + rs, l)),
            }));
            assert(views_of(acc@) =~= views_of(old_acc).push(p@));
            match tail {
                None => {}
                Some((rs, l)) => {
                    assert(views_of(old_acc) + (seq![p@] + rs) =~= views_of(acc@) + rs);
                }
            }
        }
        cur = next;
        rem = rem - 1;
    }
    proof {
        assert(dec_records(bytes@, cur as int, 0) == Some((Seq::<RecordV>::empty(), cur as int)));
        assert(views_of(acc@) + Seq::<RecordV>::empty() =~= views_of(acc@));
        assert(dec_records(bytes@, j0 as int, total) == Some((views_of(acc@), cur as int)));
    }
    if cur == bytes.len() {
        Some(acc)
    } else {
        None
    }
}

/// The loader's compute half: a decoded collection, or an empty one when the
/// artifact does not decode.
pub fn decode_or_empty(bytes: &Vec<u8>) -> (r: Vec<Pokemon>)
    ensures
        dec_coll(bytes@) matches Some(vs) ==> views_of(r@) == vs,
        dec_coll(bytes@) is None ==> r@.len() == 0,
{
    match decode_collection(bytes) {
        Some(v) => v,
        None => Vec::new(),
    }
}

// ---- The round trip -------------------------------------------------------

/// Every string of the record fits the eight-byte length prefix.
pub open spec fn record_sizes_ok(r: RecordV) -> bool {
    &&& encode_utf8(r.name).len() < pow256(8)
    &&& (r.form matches Some(f) ==> encode_utf8(f).len() < pow256(8))
    &&& encode_utf8(r.type1).len() < pow256(8)
    &&& (r.type2 matches Some(t) ==> encode_utf8(t).len() < pow256(8))
}

/// Splitting a concatenation out of a larger sequence.
proof fn lemma_split_concat(b: Seq<u8>, i: int, x: Seq<u8>, y: Seq<u8>)
    requires
        0 <= i,
        i + x.len() + y.len() <= b.len(),
        b.subrange(i, i + x.len() + y.len()) == x + y,
    ensures
        b.subrange(i, i + x.len()) == x,
        b.subrange(i + x.len(), i + x.len() + y.len()) == y,
{
    let whole = b.subrange(i, i + x.len() + y.len());
    assert forall|m: int| 0 <= m < x.len() implies b.subrange(i, i + x.len())[m] == x[m] by {
        assert(whole[m] == (x + y)[m]);
    }
    assert(b.subrange(i, i + x.len()) =~= x);
    assert forall|m: int| 0 <= m < y.len() implies b.subrange(
        i + x.len(),
        i + x.len() + y.len(),
    )[m] == y[m] by {
        assert(whole[x.len() + m] == (x + y)[x.len() + m]);
    }
    assert(b.subrange(i + x.len(), i + x.len() + y.len()) =~= y);
}

proof fn lemma_dec_le_at(b: Seq<u8>, i: int, v: int, n: nat)
    requires
        0 <= i,
        i + n <= b.len(),
        b.subrange(i, i + n) == le_bytes(v, n),
        0 <= v < pow256(n),
    ensures
        dec_le(b, i, n) == Some((v, i + n)),
{
    lemma_le_round_trip(v, n);
}

proof fn lemma_dec_str_at(b: Seq<u8>, i: int, s: Seq<char>)
    requires
        0 <= i,
        i + str_bytes(s).len() <= b.len(),
        b.subrange(i, i + str_bytes(s).len()) == str_bytes(s),
        encode_utf8(s).len() < pow256(8),
    ensures
        dec_str(b, i) == Some((s, i + str_bytes(s).len())),
{
    let e = encode_utf8(s);
    let n = e.len() as int;
    lemma_le_bytes_len(n, 8);
    lemma_split_concat(b, i, le_bytes(n, 8), e);
    lemma_dec_le_at(b, i, n, 8);
    encode_utf8_valid_utf8(s);
    encode_utf8_decode_utf8(s);
    assert(b.subrange(i + 8, i + 8 + n) == e);
}

proof fn lemma_dec_opt_str_at(b: Seq<u8>, i: int, o: Option<Seq<char>>)
    requires
        0 <= i,
        i + opt_str_bytes(o).len() <= b.len(),
        b.subrange(i, i + opt_str_bytes(o).len()) == opt_str_bytes(o),
        o matches Some(s) ==> encode_utf8(s).len() < pow256(8),
    ensures
        dec_opt_str(b, i) == Some((o, i + opt_str_bytes(o).len())),
{
    match o {
        None => {
            assert(b.subrange(i, i + 1)[0] == b[i]);
            assert(b[i] == 0u8);
        }
        Some(s) => {
            lemma_split_concat(b, i, seq![1u8], str_bytes(s));
            assert(b.subrange(i, i + 1)[0] == b[i]);
            assert(b[i] == 1u8);
            lemma_dec_str_at(b, i + 1, s);
        }
    }
}

proof fn lemma_dec_record_at(b: Seq<u8>, i: int, r: RecordV)
    requires
        0 <= i,
        i + record_bytes(r).len() <= b.len(),
        b.subrange(i, i + record_bytes(r).len()) == record_bytes(r),
        record_sizes_ok(r),
    ensures
        dec_record(b, i) == Some((r, i + record_bytes(r).len())),
{
    lemma_pow256_values();
    let p1 = seq![r.generation];
    let p2 = str_bytes(r.name);
    let p3 = opt_str_bytes(r.form);
    let p4 = str_bytes(r.type1);
    let p5 = opt_str_bytes(r.type2);
    let p6 = le_bytes(r.total as int, 2);
    let p7 = seq![r.hp];
    let p8 = seq![r.attack];
    let p9 = seq![r.defense];
    let p10 = seq![r.sp_atk];
    let p11 = seq![r.sp_def];
    let p12 = seq![r.speed];
    let p13 = le_bytes(r.height as int, 4);
    let p14 = le_bytes(r.weight as int, 4);
    lemma_le_bytes_len(r.total as int, 2);
    lemma_le_bytes_len(r.height as int, 4);
    lemma_le_bytes_len(r.weight as int, 4);
    let c13 = p1 + p2 + p3 + p4 + p5 + p6 + p7 + p8 + p9 + p10 + p11 + p12 + p13;
    let c12 = p1 + p2 + p3 + p4 + p5 + p6 + p7 + p8 + p9 + p10 + p11 + p12;
    let c11 = p1 + p2 + p3 + p4 + p5 + p6 + p7 + p8 + p9 + p10 + p11;
    let c10 = p1 + p2 + p3 + p4 + p5 + p6 + p7 + p8 + p9 + p10;
    let c9 = p1 + p2 + p3 + p4 + p5 + p6 + p7 + p8 + p9;
    let c8 = p1 + p2 + p3 + p4 + p5 + p6 + p7 + p8;
    let c7 = p1 + p2 + p3 + p4 + p5 + p6 + p7;
    let c6 = p1 + p2 + p3 + p4 + p5 + p6;
    let c5 = p1 + p2 + p3 + p4 + p5;
    let c4 = p1 + p2 + p3 + p4;
    let c3 = p1 + p2 + p3;
    let c2 = p1 + p2;
    lemma_split_concat(b, i, c13, p14);
    lemma_split_concat(b, i, c12, p13);
    lemma_split_concat(b, i, c11, p12);
    lemma_split_concat(b, i, c10, p11);
    lemma_split_concat(b, i, c9, p10);
    lemma_split_concat(b, i, c8, p9);
    lemma_split_concat(b, i, c7, p8);
    lemma_split_concat(b, i, c6, p7);
    lemma_split_concat(b, i, c5, p6);
    lemma_split_concat(b, i, c4, p5);
    lemma_split_concat(b, i, c3, p4);
    lemma_split_concat(b, i, c2, p3);
    lemma_split_concat(b, i, p1, p2);
    let o1 = i + 1;
    let o2 = o1 + p2.len();
    let o3 = o2 + p3.len();
    let o4 = o3 + p4.len();
    let o5 = o4 + p5.len();
    let o6 = o5 + 2;
    let o7 = o6 + 1;
    let o8 = o7 + 1;
    let o9 = o8 + 1;
    let o10 = o9 + 1;
    let o11 = o10 + 1;
    let o12 = o11 + 1;
    let o13 = o12 + 4;
    let o14 = o13 + 4;
    assert(b.subrange(i, o1)[0] == b[i]);
    assert(b[i] == r.generation);
    lemma_dec_str_at(b, o1, r.name);
    lemma_dec_opt_str_at(b, o2, r.form);
    lemma_dec_str_at(b, o3, r.type1);
    lemma_dec_opt_str_at(b, o4, r.type2);
    lemma_dec_le_at(b, o5, r.total as int, 2);
    assert(b.subrange(o6, o7)[0] == b[o6]);
    assert(b[o6] == r.hp);
    assert(b.subrange(o7, o8)[0] == b[o7]);
    assert(b[o7] == r.attack);
    assert(b.subrange(o8, o9)[0] == b[o8]);
    assert(b[o8] == r.defense);
    assert(b.subrange(o9, o10)[0] == b[o9]);
    assert(b[o9] == r.sp_atk);
    assert(b.subrange(o10, o11)[0] == b[o10]);
    assert(b[o10] == r.sp_def);
    assert(b.subrange(o11, o12)[0] == b[o11]);
    assert(b[o11] == r.speed);
    lemma_dec_le_at(b, o12, r.height as int, 4);
    lemma_dec_le_at(b, o13, r.weight as int, 4);
    assert(dec_record(b, i) matches Some((rv, j)) && rv =~= r && j == o14);
}

proof fn lemma_dec_records_at(b: Seq<u8>, i: int, vs: Seq<RecordV>)
    requires
        0 <= i,
        i + records_bytes(vs).len() <= b.len(),
        b.subrange(i, i + records_bytes(vs).len()) == records_bytes(vs),
        forall|k: int| 0 <= k < vs.len() ==> record_sizes_ok(#[trigger] vs[k]),
    ensures
        dec_records(b, i, vs.len()) == Some((vs, i + records_bytes(vs).len())),
    decreases vs.len(),
{
    if vs.len() == 0 {
        assert(vs =~= Seq::<RecordV>::empty());
    } else {
        let r0 = vs[0];
        let rest = vs.drop_first();
        lemma_split_concat(b, i, record_bytes(r0), records_bytes(rest));
        lemma_dec_record_at(b, i, r0);
        let j = i + record_bytes(r0).len();
        assert(forall|k: int| 0 <= k < rest.len() ==> record_sizes_ok(#[trigger] rest[k]));
        lemma_dec_records_at(b, j, rest);
        assert(seq![r0] + rest =~= vs);
    }
}

/// The round trip: decoding the encoding of any collection whose strings and
/// count fit the eight-byte length prefixes yields that collection exactly.
pub proof fn lemma_round_trip(vs: Seq<RecordV>)
    requires
        vs.len() < pow256(8),
        forall|k: int| 0 <= k < vs.len() ==> record_sizes_ok(#[trigger] vs[k]),
    ensures
        dec_coll(coll_bytes(vs)) == Some(vs),
{
    let b = coll_bytes(vs);
    let p1 = seq![FORMAT_VERSION];
    let p2 = le_bytes(vs.len() as int, 8);
    let p3 = records_bytes(vs);
    lemma_le_bytes_len(vs.len() as int, 8);
    assert(b.subrange(0, b.len() as int) =~= b);
    lemma_split_concat(b, 0, p1 + p2, p3);
    lemma_split_concat(b, 0, p1, p2);
    assert(b.subrange(0, 1)[0] == b[0]);
    assert(b[0] == FORMAT_VERSION);
    lemma_dec_le_at(b, 1, vs.len() as int, 8);
    lemma_dec_records_at(b, 9, vs);
}

} // verus!
