//! The serialized form of a payload: a JSON object with an integer field
//! `exp` and a string field `sub`, written exactly as `{"exp":E,"sub":"S"}`.
//!
//! `json_of` is the canonical byte sequence of a payload. The serializer
//! produces exactly `json_of`; the parser accepts exactly the sequences
//! `json_of` produces and recovers the payload they came from.

use crate::expiry::TokenPayload;
use vstd::prelude::*;
use vstd::utf8::encode_utf8;
use vstd::utf8::encode_utf8_decode_utf8;
use vstd::utf8::encode_utf8_valid_utf8;
use vstd::utf8::valid_utf8;

verus! {

// ---------------------------------------------------------------------------
// Canonical decimal representation of an integer
// ---------------------------------------------------------------------------

/// The decimal digits of `n`, most significant first, no leading zeros.
pub open spec fn dec_u(n: nat) -> Seq<u8>
    decreases n,
{
    if n < 10 {
        seq![(0x30 + n) as u8]
    } else {
        dec_u(n / 10) + seq![(0x30 + n % 10) as u8]
    }
}

/// The canonical decimal representation of `e`: a minus sign for negative
/// values, then the digits of the magnitude.
pub open spec fn dec_of(e: int) -> Seq<u8> {
    if e < 0 {
        seq![0x2du8] + dec_u((-e) as nat)
    } else {
        dec_u(e as nat)
    }
}

/// The numeric value of a digit sequence (most significant first).
pub open spec fn val_u(s: Seq<u8>) -> nat
    decreases s.len(),
{
    if s.len() == 0 {
        0
    } else {
        val_u(s.drop_last()) * 10 + (s.last() - 0x30) as nat
    }
}

pub open spec fn is_digit(b: u8) -> bool {
    0x30 <= b <= 0x39
}

pub proof fn lemma_dec_u_digits(n: nat)
    ensures
        dec_u(n).len() >= 1,
        forall|k: int| 0 <= k < dec_u(n).len() ==> is_digit(#[trigger] dec_u(n)[k]),
    decreases n,
{
    if n >= 10 {
        lemma_dec_u_digits(n / 10);
    }
}

pub proof fn lemma_val_dec_u(n: nat)
    ensures
        val_u(dec_u(n)) == n,
    decreases n,
{
    if n < 10 {
        assert(dec_u(n) == seq![(0x30 + n) as u8]);
        assert(dec_u(n).drop_last() =~= Seq::<u8>::empty());
        assert(val_u(Seq::<u8>::empty()) == 0);
        assert(val_u(dec_u(n)) == 0 * 10 + ((0x30 + n) as u8 - 0x30) as nat);
    } else {
        lemma_val_dec_u(n / 10);
        assert(dec_u(n) == dec_u(n / 10) + seq![(0x30 + n % 10) as u8]);
        assert(dec_u(n).drop_last() =~= dec_u(n / 10));
        assert(dec_u(n).last() == (0x30 + n % 10) as u8);
        assert(val_u(dec_u(n)) == val_u(dec_u(n / 10)) * 10 + ((0x30 + n % 10) as u8 - 0x30) as nat);
        assert(((0x30 + n % 10) as u8 - 0x30) as nat == n % 10);
        assert(val_u(dec_u(n)) == (n / 10) * 10 + n % 10);
    }
}

/// The value of a digit prefix never exceeds the value of the whole.
pub proof fn lemma_val_take_le(s: Seq<u8>, k: int)
    requires
        0 <= k <= s.len(),
        forall|i: int| 0 <= i < s.len() ==> is_digit(#[trigger] s[i]),
    ensures
        val_u(s.take(k)) <= val_u(s),
    decreases s.len() - k,
{
    if k == s.len() {
        assert(s.take(k) =~= s);
    } else {
        lemma_val_take_le(s, k + 1);
        assert(s.take(k + 1).drop_last() =~= s.take(k));
        assert(val_u(s.take(k + 1)) == val_u(s.take(k)) * 10 + (s.take(k + 1).last() - 0x30) as nat);
    }
}

/// Powers of ten.
pub open spec fn pow10(k: nat) -> nat
    decreases k,
{
    if k == 0 {
        1
    } else {
        10 * pow10((k - 1) as nat)
    }
}

/// A magnitude below `pow10(k)` needs at most `k` digits.
pub proof fn lemma_dec_u_len(n: nat, k: nat)
    requires
        n < pow10(k),
        k >= 1,
    ensures
        dec_u(n).len() <= k,
    decreases k,
{
    if n < 10 {
    } else {
        assert(pow10(k) == 10 * pow10((k - 1) as nat));
        if k == 1 {
            assert(pow10(1) == 10);
        }
        assert(n / 10 < pow10((k - 1) as nat));
        lemma_dec_u_len(n / 10, (k - 1) as nat);
    }
}

// ---------------------------------------------------------------------------
// String escaping
// ---------------------------------------------------------------------------

/// The lowercase hexadecimal digit for `n < 16`.
pub open spec fn hex_digit(n: u8) -> u8 {
    if n < 10 {
        (0x30 + n) as u8
    } else {
        (0x57 + n) as u8
    }
}

/// How one byte of a subject's UTF-8 form appears inside the JSON string:
/// quote and backslash get a backslash escape, control bytes become
/// `\u00XX` with lowercase hex, everything else stands for itself.
pub open spec fn esc1(b: u8) -> Seq<u8> {
    if b == 0x22 {
        seq![0x5cu8, 0x22u8]
    } else if b == 0x5c {
        seq![0x5cu8, 0x5cu8]
    } else if b < 0x20 {
        seq![0x5cu8, 0x75u8, 0x30u8, 0x30u8, hex_digit(b / 16), hex_digit(b % 16)]
    } else {
        seq![b]
    }
}

/// The escaped form of a byte sequence.
pub open spec fn esc(s: Seq<u8>) -> Seq<u8>
    decreases s.len(),
{
    if s.len() == 0 {
        Seq::empty()
    } else {
        esc1(s[0]) + esc(s.drop_first())
    }
}

pub proof fn lemma_esc_snoc(s: Seq<u8>, b: u8)
    ensures
        esc(s.push(b)) == esc(s) + esc1(b),
    decreases s.len(),
{
    if s.len() == 0 {
        assert(s.push(b).len() == 1);
        assert(s.push(b)[0] == b);
        assert(s.push(b).drop_first() =~= Seq::<u8>::empty());
        assert(esc(s.push(b)) == esc1(s.push(b)[0]) + esc(s.push(b).drop_first()));
        assert(esc(Seq::<u8>::empty()) == Seq::<u8>::empty());
        assert(esc(s) == Seq::<u8>::empty());
        assert(esc(s.push(b)) =~= esc(s) + esc1(b));
    } else {
        lemma_esc_snoc(s.drop_first(), b);
        assert(s.push(b).len() == s.len() + 1);
        assert(s.push(b)[0] == s[0]);
        assert(s.push(b).drop_first() =~= s.drop_first().push(b));
        assert(esc(s.push(b)) == esc1(s[0]) + esc(s.drop_first().push(b)));
        assert(esc(s.push(b)) == esc1(s[0]) + (esc(s.drop_first()) + esc1(b)));
        assert(esc1(s[0]) + (esc(s.drop_first()) + esc1(b)) =~= (esc1(s[0]) + esc(s.drop_first()))
            + esc1(b));
        assert(esc(s) == esc1(s[0]) + esc(s.drop_first()));
    }
}

/// Escaping at most sextuples the length.
pub proof fn lemma_esc_len(u: Seq<u8>)
    ensures
        esc(u).len() <= 6 * u.len(),
    decreases u.len(),
{
    if u.len() > 0 {
        lemma_esc_len(u.drop_first());
        assert(esc1(u[0]).len() <= 6);
    }
}

pub proof fn lemma_esc_empty_means_empty(u: Seq<u8>)
    ensures
        esc(u).len() == 0 ==> u.len() == 0,
{
    if u.len() != 0 {
        assert(esc1(u[0]).len() >= 1);
        assert(esc(u).len() >= esc1(u[0]).len());
    }
}

// ---------------------------------------------------------------------------
// The canonical JSON form of a payload
// ---------------------------------------------------------------------------

/// The bytes of `{"exp":`.
pub open spec fn json_head() -> Seq<u8> {
    seq![0x7bu8, 0x22u8, 0x65u8, 0x78u8, 0x70u8, 0x22u8, 0x3au8]
}

/// The bytes of `,"sub":"`.
pub open spec fn json_mid() -> Seq<u8> {
    seq![0x2cu8, 0x22u8, 0x73u8, 0x75u8, 0x62u8, 0x22u8, 0x3au8, 0x22u8]
}

/// The bytes of `"}`.
pub open spec fn json_tail() -> Seq<u8> {
    seq![0x22u8, 0x7du8]
}

/// The canonical serialization of a payload with expiry `e` and subject `s`.
pub open spec fn json_of(e: int, s: Seq<char>) -> Seq<u8> {
    json_head() + dec_of(e) + json_mid() + esc(encode_utf8(s)) + json_tail()
}

// ---------------------------------------------------------------------------
// Serializer
// ---------------------------------------------------------------------------

/// Append the decimal digits of `n`.
fn push_dec_u64(out: &mut Vec<u8>, n: u64)
    ensures
        final(out)@ == old(out)@ + dec_u(n as nat),
    decreases n,
{
    if n < 10 {
        out.push(0x30 + n as u8);
        assert(final(out)@ =~= old(out)@ + dec_u(n as nat));
    } else {
        push_dec_u64(out, n / 10);
        out.push(0x30 + (n % 10) as u8);
        assert(final(out)@ =~= old(out)@ + dec_u(n as nat));
    }
}

/// Append the escaped form of one byte.
fn push_esc1(out: &mut Vec<u8>, b: u8)
    ensures
        final(out)@ == old(out)@ + esc1(b),
{
    if b == 0x22 {
        out.push(0x5c);
        out.push(0x22);
    } else if b == 0x5c {
        out.push(0x5c);
        out.push(0x5c);
    } else if b < 0x20 {
        out.push(0x5c);
        out.push(0x75);
        out.push(0x30);
        out.push(0x30);
        let hi: u8 = b / 16;
        let lo: u8 = b % 16;
        out.push(if hi < 10 { 0x30 + hi } else { 0x57 + hi });
        out.push(if lo < 10 { 0x30 + lo } else { 0x57 + lo });
    } else {
        out.push(b);
    }
    assert(final(out)@ =~= old(out)@ + esc1(b));
}

/// Serialize a payload into its canonical JSON bytes.
pub fn serialize_payload(exp: i64, sub: &str) -> (r: Vec<u8>)
    ensures
        r@ == json_of(exp as int, sub@),
{
    let mut out: Vec<u8> = Vec::new();
    out.push(0x7b);
    out.push(0x22);
    out.push(0x65);
    out.push(0x78);
    out.push(0x70);
    out.push(0x22);
    out.push(0x3a);
    assert(out@ =~= json_head());
    if exp < 0 {
        out.push(0x2d);
        let mag: u64 = ((-(exp + 1)) as u64) + 1;
        assert(mag as nat == (-(exp as int)) as nat);
        push_dec_u64(&mut out, mag);
        assert(out@ =~= json_head() + dec_of(exp as int));
    } else {
        push_dec_u64(&mut out, exp as u64);
        assert(out@ =~= json_head() + dec_of(exp as int));
    }
    out.push(0x2c);
    out.push(0x22);
    out.push(0x73);
    out.push(0x75);
    out.push(0x62);
    out.push(0x22);
    out.push(0x3a);
    out.push(0x22);
    assert(out@ =~= json_head() + dec_of(exp as int) + json_mid());
    let bytes: &[u8] = sub.as_bytes();
    let ghost prefix: Seq<u8> = out@;
    let mut i: usize = 0;
    while i < bytes.len()
        invariant
            i <= bytes@.len(),
            bytes@ == encode_utf8(sub@),
            out@ == prefix + esc(bytes@.take(i as int)),
        decreases bytes@.len() - i,
    {
        proof {
            lemma_esc_snoc(bytes@.take(i as int), bytes@[i as int]);
            assert(bytes@.take(i as int).push(bytes@[i as int]) =~= bytes@.take(i as int + 1));
        }
        push_esc1(&mut out, bytes[i]);
        i += 1;
    }
    proof {
        assert(bytes@.take(bytes@.len() as int) =~= bytes@);
    }
    out.push(0x22);
    out.push(0x7d);
    assert(out@ =~= json_of(exp as int, sub@));
    out
}

// ---------------------------------------------------------------------------
// Parser
// ---------------------------------------------------------------------------

/// Relies on String::from_utf8: it succeeds exactly on valid UTF-8 input and
/// returns the string whose UTF-8 encoding is that input.
#[verifier::external_body]
fn bytes_to_string(v: Vec<u8>) -> (r: Option<String>)
    ensures
        r matches Some(s) ==> encode_utf8(s@) == v@,
        valid_utf8(v@) ==> r is Some,
{
    String::from_utf8(v).ok()
}

/// Byte-for-byte equality of two slices.
fn bytes_eq(a: &[u8], b: &[u8]) -> (r: bool)
    ensures
        r <==> a@ == b@,
{
    if a.len() != b.len() {
        return false;
    }
    let mut i: usize = 0;
    while i < a.len()
        invariant
            i <= a@.len(),
            a@.len() == b@.len(),
            forall|k: int| 0 <= k < i ==> a@[k] == b@[k],
        decreases a@.len() - i,
    {
        if a[i] != b[i] {
            return false;
        }
        i += 1;
    }
    proof {
        assert(a@ =~= b@);
    }
    true
}

/// How `dec_of(e)` splits into sign and digits.
proof fn lemma_dec_region(region: Seq<u8>, e: int)
    requires
        region == dec_of(e),
    ensures
        region.len() >= 1,
        e >= 0 ==> region == dec_u(e as nat) && is_digit(region[0]),
        e < 0 ==> region.len() >= 2 && region[0] == 0x2d && region.skip(1) == dec_u((-e) as nat),
        forall|k: int| 0 <= k < region.len() && !(e < 0 && k == 0) ==> is_digit(#[trigger] region[k]),
{
    if e < 0 {
        lemma_dec_u_digits((-e) as nat);
        assert(region == seq![0x2du8] + dec_u((-e) as nat));
        assert(region.skip(1) =~= dec_u((-e) as nat));
        assert(forall|k: int| 1 <= k < region.len() ==> region[k] == dec_u((-e) as nat)[k - 1]);
    } else {
        lemma_dec_u_digits(e as nat);
    }
}

/// Parse the decimal integer occupying exactly `b[start..end)`. On the
/// canonical representation of an in-range integer this returns that
/// integer; on anything else it may fail or return a non-canonical reading,
/// which the caller screens out by re-serializing.
#[verifier::loop_isolation(false)]
fn parse_dec_region(b: &[u8], start: usize, end: usize) -> (r: Option<i64>)
    requires
        start <= end <= b@.len(),
    ensures
        forall|e: int|
            i64::MIN <= e <= i64::MAX && b@.subrange(start as int, end as int) == #[trigger] dec_of(
                e,
            ) ==> (r matches Some(v) && v as int == e),
{
    let ghost region: Seq<u8> = b@.subrange(start as int, end as int);
    if start == end {
        proof {
            assert forall|e: int| i64::MIN <= e <= i64::MAX && region == dec_of(e) implies false by {
                lemma_dec_region(region, e);
            }
        }
        return None;
    }
    let neg: bool = b[start] == 0x2d;
    let dstart: usize = if neg { start + 1 } else { start };
    if dstart == end {
        proof {
            assert forall|e: int| i64::MIN <= e <= i64::MAX && region == dec_of(e) implies false by {
                lemma_dec_region(region, e);
            }
        }
        return None;
    }
    let ghost dregion: Seq<u8> = b@.subrange(dstart as int, end as int);
    proof {
        assert forall|e: int| i64::MIN <= e <= i64::MAX && region == dec_of(e) implies ({
            &&& dregion == dec_u((if e < 0 { -e } else { e }) as nat)
            &&& (e < 0 <==> neg)
        }) by {
            lemma_dec_region(region, e);
            assert(region[0] == b@[start as int]);
            if e < 0 {
                assert(region[0] == 0x2d && neg);
                assert(dregion =~= region.skip(1));
            } else {
                assert(is_digit(region[0]) && !neg);
                assert(dregion =~= region);
            }
        }
    }
    let mut acc: u64 = 0;
    let mut i: usize = dstart;
    while i < end
        invariant
            dstart <= i <= end <= b@.len(),
            dregion == b@.subrange(dstart as int, end as int),
            acc as nat == val_u(b@.subrange(dstart as int, i as int)),
            acc <= 0x8000_0000_0000_0000u64,
            forall|k: int| dstart <= k < i ==> is_digit(#[trigger] b@[k]),
        decreases end - i,
    {
        let c: u8 = b[i];
        if c < 0x30 || c > 0x39 {
            proof {
                assert forall|e: int|
                    i64::MIN <= e <= i64::MAX && region == dec_of(e) implies false by {
                    lemma_dec_region(region, e);
                    assert(region[0] == b@[start as int]);
                    let mag: nat = (if e < 0 { -e } else { e }) as nat;
                    if e < 0 {
                        assert(region[0] == 0x2d && neg);
                        assert(dregion =~= region.skip(1));
                    } else {
                        assert(is_digit(region[0]) && !neg);
                        assert(dregion =~= region);
                    }
                    lemma_dec_u_digits(mag);
                    assert(is_digit(dregion[i - dstart]));
                    assert(dregion[i - dstart] == b@[i as int]);
                }
            }
            return None;
        }
        let t: u128 = acc as u128 * 10 + (c - 0x30) as u128;
        proof {
            assert(b@.subrange(dstart as int, i as int + 1).drop_last() =~= b@.subrange(
                dstart as int,
                i as int,
            ));
            assert(b@.subrange(dstart as int, i as int + 1).last() == c);
            assert(val_u(b@.subrange(dstart as int, i as int + 1)) == acc as nat * 10 + (c
                - 0x30) as nat);
        }
        if t > 0x8000_0000_0000_0000u128 {
            proof {
                assert forall|e: int|
                    i64::MIN <= e <= i64::MAX && region == dec_of(e) implies false by {
                    lemma_dec_region(region, e);
                    assert(region[0] == b@[start as int]);
                    let mag: nat = (if e < 0 { -e } else { e }) as nat;
                    if e < 0 {
                        assert(region[0] == 0x2d && neg);
                        assert(dregion =~= region.skip(1));
                    } else {
                        assert(is_digit(region[0]) && !neg);
                        assert(dregion =~= region);
                    }
                    lemma_dec_u_digits(mag);
                    lemma_val_dec_u(mag);
                    lemma_val_take_le(dregion, i + 1 - dstart);
                    assert(dregion.take(i + 1 - dstart) =~= b@.subrange(
                        dstart as int,
                        i as int + 1,
                    ));
                    assert(val_u(b@.subrange(dstart as int, i as int + 1)) <= mag);
                    assert(mag <= 0x8000_0000_0000_0000);
                }
            }
            return None;
        }
        acc = t as u64;
        i += 1;
    }
    proof {
        assert(b@.subrange(dstart as int, end as int) =~= dregion);
    }
    if neg {
        if acc == 0x8000_0000_0000_0000u64 {
            proof {
                assert forall|e: int|
                    i64::MIN <= e <= i64::MAX && region == dec_of(e) implies e
                    == i64::MIN as int by {
                    lemma_dec_region(region, e);
                    assert(region[0] == b@[start as int]);
                    if e >= 0 {
                        assert(is_digit(region[0]));
                    } else {
                        assert(region[0] == 0x2d);
                        assert(dregion =~= region.skip(1));
                        lemma_val_dec_u((-e) as nat);
                    }
                }
            }
            return Some(i64::MIN);
        }
        proof {
            assert forall|e: int|
                i64::MIN <= e <= i64::MAX && region == dec_of(e) implies e == -(acc as int) by {
                lemma_dec_region(region, e);
                if e >= 0 {
                    assert(is_digit(region[0]));
                } else {
                    assert(dregion =~= region.skip(1));
                    lemma_val_dec_u((-e) as nat);
                }
            }
        }
        return Some(-(acc as i64));
    }
    if acc > 0x7FFF_FFFF_FFFF_FFFFu64 {
        proof {
            assert forall|e: int| i64::MIN <= e <= i64::MAX && region == dec_of(e) implies false by {
                lemma_dec_region(region, e);
                assert(region[0] == b@[start as int]);
                if e < 0 {
                    assert(region[0] == 0x2d);
                } else {
                    assert(is_digit(region[0]) && !neg);
                    assert(dregion =~= region);
                    lemma_val_dec_u(e as nat);
                }
            }
        }
        return None;
    }
    proof {
        assert forall|e: int|
            i64::MIN <= e <= i64::MAX && region == dec_of(e) implies e == acc as int by {
            lemma_dec_region(region, e);
            if e < 0 {
                assert(region[0] == 0x2d);
            } else {
                assert(dregion =~= region);
                lemma_val_dec_u(e as nat);
            }
        }
    }
    Some(acc as i64)
}

/// How the escaped form of a nonempty byte sequence begins.
proof fn lemma_esc_first(u: Seq<u8>, t: Seq<u8>)
    requires
        u.len() >= 1,
        t == esc(u),
    ensures
        t.len() >= 1,
        t[0] == 0x5c ==> u[0] == 0x22 || u[0] == 0x5c || u[0] < 0x20,
        u[0] == 0x22 ==> t.len() >= 2 && t[0] == 0x5c && t[1] == 0x22 && esc(u.drop_first())
            == t.skip(2),
        u[0] == 0x5c ==> t.len() >= 2 && t[0] == 0x5c && t[1] == 0x5c && esc(u.drop_first())
            == t.skip(2),
        u[0] < 0x20 ==> t.len() >= 6 && t[0] == 0x5c && t[1] == 0x75 && t[2] == 0x30 && t[3]
            == 0x30 && t[4] == hex_digit(u[0] / 16) && t[5] == hex_digit(u[0] % 16) && esc(
            u.drop_first(),
        ) == t.skip(6),
        u[0] != 0x22 && u[0] != 0x5c && u[0] >= 0x20 ==> t[0] == u[0] && esc(u.drop_first())
            == t.skip(1),
{
    assert(t == esc1(u[0]) + esc(u.drop_first()));
    let l: int = esc1(u[0]).len() as int;
    assert(forall|k: int| 0 <= k < l ==> t[k] == esc1(u[0])[k]);
    assert(t.skip(l) =~= esc(u.drop_first()));
}

/// `esc` is determined by its output: an escaped prefix fixes the bytes it
/// came from and what remains.
proof fn lemma_esc_prefix(u: Seq<u8>, w: Seq<u8>, suffix: Seq<u8>)
    requires
        esc(u) == esc(w) + suffix,
    ensures
        w.len() <= u.len(),
        u.take(w.len() as int) == w,
        esc(u.skip(w.len() as int)) == suffix,
    decreases w.len(),
{
    if w.len() == 0 {
        assert(esc(w) == Seq::<u8>::empty());
        assert(esc(w) + suffix =~= suffix);
        assert(u.take(0) =~= w);
        assert(u.skip(0) =~= u);
    } else {
        assert(esc(w).len() >= esc1(w[0]).len() >= 1);
        assert(esc(u).len() >= 1);
        lemma_esc_empty_means_empty(u);
        assert(u.len() >= 1);
        lemma_esc_first(u, esc(u));
        lemma_esc_first(w, esc(w));
        assert(esc(u)[0] == (esc(w) + suffix)[0] == esc(w)[0]);
        if esc(u)[0] == 0x5c {
            assert(esc(u).len() >= 2 && esc(w).len() >= 2);
            assert(esc(u)[1] == (esc(w) + suffix)[1] == esc(w)[1]);
            if esc(u)[1] == 0x75 {
                assert(u[0] < 0x20 && w[0] < 0x20);
                assert(esc(u)[4] == esc(w)[4] && esc(u)[5] == esc(w)[5]);
                assert(hex_digit(u[0] / 16) == hex_digit(w[0] / 16));
                assert(hex_digit(u[0] % 16) == hex_digit(w[0] % 16));
                assert(u[0] / 16 == w[0] / 16 && u[0] % 16 == w[0] % 16);
                assert(u[0] == w[0]);
                assert(esc(u).skip(6) =~= esc(w).skip(6) + suffix);
            } else {
                assert(u[0] == w[0]);
                assert(esc(u).skip(2) =~= esc(w).skip(2) + suffix);
            }
        } else {
            assert(u[0] == w[0]);
            assert(esc(u).skip(1) =~= esc(w).skip(1) + suffix);
        }
        assert(esc(u.drop_first()) == esc(w.drop_first()) + suffix);
        lemma_esc_prefix(u.drop_first(), w.drop_first(), suffix);
        assert(u.drop_first().take(w.len() - 1) == w.drop_first());
        assert forall|k: int| 0 <= k < w.len() implies u[k] == w[k] by {
            if k >= 1 {
                assert(w.drop_first()[k - 1] == w[k]);
                assert(u.drop_first().take(w.len() - 1)[k - 1] == u[k]);
            }
        }
        assert(u.take(w.len() as int) =~= w);
        assert(u.skip(w.len() as int) =~= u.drop_first().skip(w.len() - 1));
        assert(esc(u.skip(w.len() as int)) == suffix);
    }
}

/// Distinct byte sequences have distinct escaped forms.
proof fn lemma_esc_inj(u: Seq<u8>, w: Seq<u8>)
    requires
        esc(u) == esc(w),
    ensures
        u == w,
{
    assert(esc(w) + Seq::<u8>::empty() =~= esc(w));
    lemma_esc_prefix(u, w, Seq::<u8>::empty());
    lemma_esc_empty_means_empty(u.skip(w.len() as int));
    assert(u.len() == w.len());
    assert(u.take(w.len() as int) =~= u);
}

/// Undo the escaping on `b[start..end)`: succeeds exactly when the region is
/// `esc(u)` for some byte sequence `u`, and then returns that `u`.
#[verifier::loop_isolation(false)]
fn unescape_region(b: &[u8], start: usize, end: usize) -> (r: Option<Vec<u8>>)
    requires
        start <= end <= b@.len(),
    ensures
        r matches Some(v) ==> b@.subrange(start as int, end as int) == esc(v@),
        forall|u: Seq<u8>|
            b@.subrange(start as int, end as int) == #[trigger] esc(u) ==> (r matches Some(v)
                && v@ == u),
{
    let ghost region: Seq<u8> = b@.subrange(start as int, end as int);
    let mut out: Vec<u8> = Vec::new();
    let mut i: usize = start;
    proof {
        assert(esc(out@) =~= b@.subrange(start as int, start as int));
    }
    while i < end
        invariant
            start <= i <= end,
            esc(out@) == b@.subrange(start as int, i as int),
        decreases end - i,
    {
        let ghost old_out: Seq<u8> = out@;
        let ghost old_i: int = i as int;
        let ghost remaining: Seq<u8> = b@.subrange(old_i, end as int);
        proof {
            assert(region =~= esc(old_out) + remaining);
        }
        let c: u8 = b[i];
        if c == 0x5c {
            if end - i < 2 {
                proof {
                    assert forall|u: Seq<u8>| region == #[trigger] esc(u) implies false by {
                        lemma_esc_prefix(u, old_out, remaining);
                        let rest: Seq<u8> = u.skip(old_out.len() as int);
                        lemma_esc_empty_means_empty(rest);
                        lemma_esc_first(rest, remaining);
                    }
                }
                return None;
            }
            let c2: u8 = b[i + 1];
            if c2 == 0x22 || c2 == 0x5c {
                out.push(c2);
                i += 2;
                proof {
                    lemma_esc_snoc(old_out, c2);
                    assert(esc1(c2) =~= seq![0x5cu8, c2]);
                    assert(esc(out@) =~= b@.subrange(start as int, i as int));
                }
            } else if c2 == 0x75 {
                if end - i < 6 {
                    proof {
                        assert forall|u: Seq<u8>| region == #[trigger] esc(u) implies false by {
                            lemma_esc_prefix(u, old_out, remaining);
                            let rest: Seq<u8> = u.skip(old_out.len() as int);
                            lemma_esc_empty_means_empty(rest);
                            lemma_esc_first(rest, remaining);
                        }
                    }
                    return None;
                }
                let h3: u8 = b[i + 4];
                let h4: u8 = b[i + 5];
                let hv3: Option<u8> = hex_val(h3);
                let hv4: Option<u8> = hex_val(h4);
                let ok: bool = b[i + 2] == 0x30 && b[i + 3] == 0x30 && hv3.is_some()
                    && hv4.is_some();
                if !ok {
                    proof {
                        assert forall|u: Seq<u8>| region == #[trigger] esc(u) implies false by {
                            lemma_esc_prefix(u, old_out, remaining);
                            let rest: Seq<u8> = u.skip(old_out.len() as int);
                            lemma_esc_empty_means_empty(rest);
                            lemma_esc_first(rest, remaining);
                            assert(rest[0] < 0x20);
                            assert(rest[0] / 16 < 16 && rest[0] % 16 < 16);
                        }
                    }
                    return None;
                }
                let x3: u8 = match hv3 {
                    Some(x) => x,
                    None => 0,
                };
                let x4: u8 = match hv4 {
                    Some(x) => x,
                    None => 0,
                };
                let val: u8 = x3 * 16 + x4;
                if val >= 0x20 {
                    proof {
                        assert forall|u: Seq<u8>| region == #[trigger] esc(u) implies false by {
                            lemma_esc_prefix(u, old_out, remaining);
                            let rest: Seq<u8> = u.skip(old_out.len() as int);
                            lemma_esc_empty_means_empty(rest);
                            lemma_esc_first(rest, remaining);
                            assert(rest[0] < 0x20);
                            assert(hex_digit(rest[0] / 16) == h3 && hex_digit(rest[0] % 16)
                                == h4);
                            assert(x3 == rest[0] / 16 && x4 == rest[0] % 16);
                        }
                    }
                    return None;
                }
                out.push(val);
                i += 6;
                proof {
                    lemma_esc_snoc(old_out, val);
                    assert(x3 < 2);
                    assert(val / 16 == x3 && val % 16 == x4);
                    assert(esc1(val) =~= seq![
                        0x5cu8,
                        0x75u8,
                        0x30u8,
                        0x30u8,
                        hex_digit(x3),
                        hex_digit(x4),
                    ]);
                    assert(hex_digit(x3) == h3 && hex_digit(x4) == h4);
                    assert(esc(out@) =~= b@.subrange(start as int, i as int));
                }
            } else {
                proof {
                    assert forall|u: Seq<u8>| region == #[trigger] esc(u) implies false by {
                        lemma_esc_prefix(u, old_out, remaining);
                        let rest: Seq<u8> = u.skip(old_out.len() as int);
                        lemma_esc_empty_means_empty(rest);
                        lemma_esc_first(rest, remaining);
                    }
                }
                return None;
            }
        } else if c == 0x22 || c < 0x20 {
            proof {
                assert forall|u: Seq<u8>| region == #[trigger] esc(u) implies false by {
                    lemma_esc_prefix(u, old_out, remaining);
                    let rest: Seq<u8> = u.skip(old_out.len() as int);
                    lemma_esc_empty_means_empty(rest);
                    lemma_esc_first(rest, remaining);
                }
            }
            return None;
        } else {
            out.push(c);
            i += 1;
            proof {
                lemma_esc_snoc(old_out, c);
                assert(esc1(c) =~= seq![c]);
                assert(esc(out@) =~= b@.subrange(start as int, i as int));
            }
        }
    }
    proof {
        assert(esc(out@) =~= region);
        assert forall|u: Seq<u8>| region == #[trigger] esc(u) implies out@ == u by {
            lemma_esc_inj(u, out@);
        }
    }
    Some(out)
}

/// The value of a lowercase hexadecimal digit.
fn hex_val(c: u8) -> (r: Option<u8>)
    ensures
        forall|x: u8| x < 16 && c == hex_digit(x) ==> r == Some(x),
        r matches Some(x) ==> x < 16 && c == hex_digit(x),
{
    if 0x30 <= c && c <= 0x39 {
        Some(c - 0x30)
    } else if 0x61 <= c && c <= 0x66 {
        Some(c - 0x57)
    } else {
        None
    }
}

/// Where the pieces of `json_of(e, s)` lie, and that its first comma sits
/// right after the integer.
proof fn lemma_json_parts(e: int, s: Seq<char>)
    ensures
        ({
            let t = json_of(e, s);
            let l = dec_of(e).len() as int;
            &&& l >= 1
            &&& t.len() == 17 + l + esc(encode_utf8(s)).len()
            &&& forall|k: int| 0 <= k < 7 + l ==> #[trigger] t[k] != 0x2c
            &&& t[7 + l] == 0x2c
            &&& t.subrange(7, 7 + l) == dec_of(e)
            &&& t.subrange(7 + l + 8, t.len() - 2) == esc(encode_utf8(s))
        }),
{
    let t = json_of(e, s);
    let d = dec_of(e);
    let l = d.len() as int;
    let es = esc(encode_utf8(s));
    lemma_dec_region(d, e);
    assert(t == json_head() + d + json_mid() + es + json_tail());
    assert(t.len() == 17 + l + es.len());
    assert forall|k: int| 0 <= k < 7 + l implies #[trigger] t[k] != 0x2c by {
        if k < 7 {
            assert(t[k] == json_head()[k]);
        } else {
            assert(t[k] == d[k - 7]);
            if !(e < 0 && k == 7) {
                assert(is_digit(d[k - 7]));
            }
        }
    }
    assert(t[7 + l] == json_mid()[0]);
    assert(t.subrange(7, 7 + l) =~= d);
    assert(t.subrange(7 + l + 8, t.len() - 2) =~= es);
}

/// Parse the canonical JSON form of a payload. Succeeds exactly on
/// `json_of(e, s)` for an `i64` expiry `e` and subject `s`, and then
/// returns that payload.
pub fn parse_payload(b: &[u8]) -> (r: Option<TokenPayload>)
    ensures
        r matches Some(p) ==> b@ == json_of(p.exp as int, p.sub@),
        forall|e: int, s: Seq<char>|
            i64::MIN <= e <= i64::MAX && b@ == #[trigger] json_of(e, s) ==> (r matches Some(p)
                && p.exp == e && p.sub@ == s),
{
    let n: usize = b.len();
    let mut j: usize = 0;
    while j < n && b[j] != 0x2c
        invariant
            j <= n == b@.len(),
            forall|k: int| 0 <= k < j ==> b@[k] != 0x2c,
        decreases n - j,
    {
        j += 1;
    }
    if j == n {
        proof {
            assert forall|e: int, s: Seq<char>|
                i64::MIN <= e <= i64::MAX && b@ == json_of(e, s) implies false by {
                lemma_json_parts(e, s);
            }
        }
        return None;
    }
    proof {
        assert forall|e: int, s: Seq<char>|
            i64::MIN <= e <= i64::MAX && b@ == json_of(e, s) implies j == 7 + dec_of(e).len()
            && n >= j + 10 by {
            lemma_json_parts(e, s);
            let l = dec_of(e).len() as int;
            assert(b@[7 + l] == 0x2c);
            if j < 7 + l {
                assert(b@[j as int] != 0x2c);
            }
        }
    }
    if j < 8 || n - j < 10 {
        proof {
            assert forall|e: int, s: Seq<char>|
                i64::MIN <= e <= i64::MAX && b@ == json_of(e, s) implies false by {
                lemma_json_parts(e, s);
            }
        }
        return None;
    }
    let exp: i64 = match parse_dec_region(b, 7, j) {
        Some(v) => v,
        None => {
            proof {
                assert forall|e: int, s: Seq<char>|
                    i64::MIN <= e <= i64::MAX && b@ == json_of(e, s) implies false by {
                    lemma_json_parts(e, s);
                    assert(b@.subrange(7, j as int) == dec_of(e));
                }
            }
            return None;
        },
    };
    let v: Vec<u8> = match unescape_region(b, j + 8, n - 2) {
        Some(v) => v,
        None => {
            proof {
                assert forall|e: int, s: Seq<char>|
                    i64::MIN <= e <= i64::MAX && b@ == json_of(e, s) implies false by {
                    lemma_json_parts(e, s);
                    assert(b@.subrange(j as int + 8, n - 2) == esc(encode_utf8(s)));
                }
            }
            return None;
        },
    };
    let sub: String = match bytes_to_string(v) {
        Some(sv) => sv,
        None => {
            proof {
                assert forall|e: int, s: Seq<char>|
                    i64::MIN <= e <= i64::MAX && b@ == json_of(e, s) implies false by {
                    lemma_json_parts(e, s);
                    assert(b@.subrange(j as int + 8, n - 2) == esc(encode_utf8(s)));
                    encode_utf8_valid_utf8(s);
                }
            }
            return None;
        },
    };
    let ser: Vec<u8> = serialize_payload(exp, sub.as_str());
    if !bytes_eq(ser.as_slice(), b) {
        proof {
            assert forall|e: int, s: Seq<char>|
                i64::MIN <= e <= i64::MAX && b@ == json_of(e, s) implies false by {
                lemma_json_parts(e, s);
                assert(b@.subrange(7, j as int) == dec_of(e));
                assert(exp as int == e);
                assert(b@.subrange(j as int + 8, n - 2) == esc(encode_utf8(s)));
                assert(encode_utf8(sub@) == encode_utf8(s));
                encode_utf8_decode_utf8(sub@);
                encode_utf8_decode_utf8(s);
                assert(sub@ == s);
                assert(ser@ == b@);
            }
        }
        return None;
    }
    proof {
        assert forall|e: int, s: Seq<char>|
            i64::MIN <= e <= i64::MAX && b@ == json_of(e, s) implies exp as int == e && sub@
            == s by {
            lemma_json_parts(e, s);
            assert(b@.subrange(7, j as int) == dec_of(e));
            assert(b@.subrange(j as int + 8, n - 2) == esc(encode_utf8(s)));
            assert(encode_utf8(sub@) == encode_utf8(s));
            encode_utf8_decode_utf8(sub@);
            encode_utf8_decode_utf8(s);
        }
    }
    Some(TokenPayload { exp, sub })
}

} // verus!
