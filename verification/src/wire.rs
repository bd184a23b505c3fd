//! Byte-level primitives of the wire format: decimal numbers and
//! hyphenated hexadecimal ids, each with an encoder, a strict parser, and
//! a round-trip proof.

use vstd::arithmetic::div_mod::{
    lemma_basic_div, lemma_div_denominator, lemma_div_is_ordered, lemma_div_pos_is_pos,
    lemma_fundamental_div_mod, lemma_mod_division_less_than_divisor, lemma_small_mod,
};
use vstd::prelude::*;

verus! {

/// ASCII decimal digit.
pub open spec fn is_digit(b: u8) -> bool {
    48 <= b <= 57
}

/// Every byte of `s` is a decimal digit.
pub open spec fn all_digits(s: Seq<u8>) -> bool {
    forall|i: int| 0 <= i < s.len() ==> is_digit(s[i])
}

/// Decimal representation of `v`, most significant digit first, no
/// leading zeros.
pub open spec fn dec_digits(v: int) -> Seq<u8>
    decreases v,
{
    if v < 0 {
        Seq::empty()
    } else if v <= 9 {
        seq![(48 + v) as u8]
    } else {
        dec_digits(v / 10).push((48 + v % 10) as u8)
    }
}

/// Value of a digit string.
pub open spec fn dec_val(s: Seq<u8>) -> int
    decreases s.len(),
{
    if s.len() == 0 {
        0
    } else {
        dec_val(s.drop_last()) * 10 + (s.last() - 48)
    }
}

/// Strict decimal parse: nonempty, digits only, no leading zero, fits in
/// a u64.
pub open spec fn spec_parse_dec(s: Seq<u8>) -> Option<u64> {
    if s.len() >= 1 && all_digits(s) && (s.len() == 1 || s[0] != 48) && dec_val(s) <= u64::MAX {
        Some(dec_val(s) as u64)
    } else {
        None
    }
}

pub proof fn lemma_dec_val_nonneg(s: Seq<u8>)
    requires
        all_digits(s),
    ensures
        dec_val(s) >= 0,
    decreases s.len(),
{
    if s.len() > 0 {
        assert(forall|i: int| 0 <= i < s.len() - 1 ==> s.drop_last()[i] == s[i]);
        lemma_dec_val_nonneg(s.drop_last());
    }
}

/// The canonical digits of `v` parse back to `v`.
pub proof fn lemma_dec_digits_props(v: int)
    requires
        0 <= v,
    ensures
        all_digits(dec_digits(v)),
        dec_digits(v).len() >= 1,
        (dec_digits(v).len() == 1) <==> (v <= 9),
        v >= 10 ==> dec_digits(v)[0] != 48,
        dec_val(dec_digits(v)) == v,
    decreases v,
{
    if v <= 9 {
        let s = dec_digits(v);
        assert(s == seq![(48 + v) as u8]);
        assert(s.len() == 1);
        assert(s.last() == (48 + v) as u8);
        assert(dec_val(s) == dec_val(s.drop_last()) * 10 + (s.last() - 48));
        assert(s.drop_last().len() == 0);
        assert(dec_val(s.drop_last()) == 0);
        assert(dec_val(s) == v);
        assert(is_digit(s[0]));
    } else {
        lemma_div_pos_is_pos(v, 10);
        lemma_div_is_ordered(10, v, 10);
        assert(v / 10 >= 1);
        lemma_dec_digits_props(v / 10);
        let s = dec_digits(v);
        let p = dec_digits(v / 10);
        lemma_mod_division_less_than_divisor(v, 10);
        lemma_fundamental_div_mod(v, 10);
        assert(s == p.push((48 + v % 10) as u8));
        assert(forall|i: int| 0 <= i < p.len() ==> s[i] == p[i]);
        assert(s.drop_last() =~= p);
        assert(s.len() == p.len() + 1);
        assert(s.last() == (48 + v % 10) as u8);
        assert(0 <= v % 10 < 10);
        assert(s.last() - 48 == v % 10);
        assert(dec_val(s) == dec_val(s.drop_last()) * 10 + (s.last() - 48));
        assert(dec_val(s.drop_last()) == dec_val(p));
        assert(dec_val(p) == v / 10);
        assert((v / 10) * 10 + v % 10 == v) by (nonlinear_arith);
        assert(dec_val(s) == v);
        if v / 10 >= 10 {
        } else {
            assert(p.len() == 1);
            assert(p[0] == (48 + v / 10) as u8);
        }
    }
}

/// Appending digits never decreases the value of a digit string.
pub proof fn lemma_dec_val_prefix(s: Seq<u8>, k: int)
    requires
        all_digits(s),
        0 <= k <= s.len(),
    ensures
        dec_val(s) >= dec_val(s.take(k)),
    decreases s.len() - k,
{
    if k < s.len() {
        lemma_dec_val_prefix(s, k + 1);
        let t = s.take(k + 1);
        assert(t.drop_last() =~= s.take(k));
        assert(is_digit(t.last()));
        assert(all_digits(s.take(k))) by {
            assert(forall|i: int| 0 <= i < k ==> s.take(k)[i] == s[i]);
        }
        lemma_dec_val_nonneg(s.take(k));
        assert(dec_val(t) == dec_val(s.take(k)) * 10 + (t.last() - 48));
        assert(dec_val(s.take(k)) * 10 >= dec_val(s.take(k))) by (nonlinear_arith)
            requires
                dec_val(s.take(k)) >= 0,
        ;
    } else {
        assert(s.take(k) =~= s);
    }
}

/// Reversing after a push puts the pushed element first.
pub proof fn lemma_reverse_push(s: Seq<u8>, d: u8)
    ensures
        s.push(d).reverse() =~= seq![d] + s.reverse(),
{
}

/// Writes the decimal digits of `v`, most significant first.
pub fn u64_to_dec(v: u64) -> (out: Vec<u8>)
    ensures
        out@ == dec_digits(v as int),
{
    let mut rev: Vec<u8> = Vec::new();
    let mut cur: u64 = v;
    if cur == 0 {
        let mut out: Vec<u8> = Vec::new();
        out.push(48);
        proof {
            assert(out@ =~= dec_digits(0));
        }
        return out;
    }
    while cur > 0
        invariant
            cur > 0 ==> dec_digits(v as int) =~= dec_digits(cur as int) + rev@.reverse(),
            cur == 0 ==> dec_digits(v as int) =~= rev@.reverse(),
        decreases cur,
    {
        let ghost cur0 = cur as int;
        let ghost rev0 = rev@;
        let d: u8 = 48 + (cur % 10) as u8;
        rev.push(d);
        cur = cur / 10;
        proof {
            lemma_reverse_push(rev0, d);
            if cur0 <= 9 {
                lemma_small_mod(cur0 as nat, 10);
                assert(dec_digits(cur0) =~= seq![d]);
                assert(dec_digits(v as int) =~= rev@.reverse());
            } else {
                lemma_div_pos_is_pos(cur0, 10);
                lemma_div_is_ordered(10, cur0, 10);
                assert(dec_digits(cur0) == dec_digits(cur0 / 10).push(d));
                assert(dec_digits(cur0 / 10).push(d) + rev0.reverse() =~= dec_digits(cur0 / 10)
                    + (seq![d] + rev0.reverse()));
                assert(dec_digits(v as int) =~= dec_digits(cur as int) + rev@.reverse());
            }
        }
    }
    let n = rev.len();
    let mut out: Vec<u8> = Vec::new();
    let mut k: usize = 0;
    while k < n
        invariant
            k <= n,
            n == rev@.len(),
            out@.len() == k,
            forall|j: int| 0 <= j < k ==> out@[j] == rev@[n - 1 - j],
        decreases n - k,
    {
        out.push(rev[n - 1 - k]);
        k = k + 1;
    }
    proof {
        assert(out@ =~= rev@.reverse());
    }
    out
}

/// Strict decimal parser, mirror of `spec_parse_dec`.
pub fn parse_dec(s: &[u8]) -> (r: Option<u64>)
    ensures
        r == spec_parse_dec(s@),
{
    let n = s.len();
    if n == 0 {
        return None;
    }
    if n > 1 && s[0] == 48 {
        return None;
    }
    let mut acc: u128 = 0;
    let mut k: usize = 0;
    while k < n
        invariant
            k <= n,
            n == s@.len(),
            n > 1 ==> s@[0] != 48,
            n >= 1,
            all_digits(s@.take(k as int)),
            acc == dec_val(s@.take(k as int)),
            acc <= u64::MAX,
        decreases n - k,
    {
        let b = s[k];
        proof {
            let t = s@.take(k + 1);
            assert(t.drop_last() =~= s@.take(k as int));
            assert(t.last() == s@[k as int]);
        }
        if b < 48 || b > 57 {
            proof {
                assert(!is_digit(s@[k as int]));
            }
            return None;
        }
        acc = acc * 10 + (b - 48) as u128;
        k = k + 1;
        proof {
            assert(all_digits(s@.take(k as int))) by {
                assert(forall|i: int|
                    0 <= i < k ==> s@.take(k as int)[i] == s@.take(k as int - 1).push(
                        s@[k as int - 1],
                    )[i]);
                assert(s@.take(k as int) =~= s@.take(k as int - 1).push(s@[k as int - 1]));
            }
            assert(acc == dec_val(s@.take(k as int)));
        }
        if acc > u64::MAX as u128 {
            proof {
                if all_digits(s@) {
                    lemma_dec_val_prefix(s@, k as int);
                }
            }
            return None;
        }
    }
    proof {
        assert(s@.take(n as int) =~= s@);
    }
    Some(acc as u64)
}

/// Position of the last colon, or -1.
pub open spec fn last_colon(b: Seq<u8>) -> int
    decreases b.len(),
{
    if b.len() == 0 {
        -1
    } else if b.last() == 58 {
        b.len() - 1
    } else {
        last_colon(b.drop_last())
    }
}

pub proof fn lemma_last_colon_at(s: Seq<u8>, j: int)
    requires
        0 <= j < s.len(),
        s[j] == 58,
        forall|i: int| j < i < s.len() ==> s[i] != 58,
    ensures
        last_colon(s) == j,
    decreases s.len(),
{
    if s.last() != 58 {
        assert(j < s.len() - 1);
        assert(forall|i: int| 0 <= i < s.len() - 1 ==> s.drop_last()[i] == s[i]);
        lemma_last_colon_at(s.drop_last(), j);
    }
}

pub proof fn lemma_no_colon(s: Seq<u8>)
    requires
        forall|i: int| 0 <= i < s.len() ==> s[i] != 58,
    ensures
        last_colon(s) == -1,
    decreases s.len(),
{
    if s.len() > 0 {
        assert(forall|i: int| 0 <= i < s.len() - 1 ==> s.drop_last()[i] == s[i]);
        lemma_no_colon(s.drop_last());
    }
}

/// A syntactically sound `host:port` endpoint: a nonempty host, a last
/// colon, and a decimal port of at most 65535 after it.  Whether the
/// host resolves is the embedding's concern.
pub open spec fn spec_valid_endpoint(b: Seq<u8>) -> bool {
    let c = last_colon(b);
    &&& c >= 1
    &&& c + 1 < b.len()
    &&& all_digits(b.subrange(c + 1, b.len() as int))
    &&& dec_val(b.subrange(c + 1, b.len() as int)) <= 65535
}

/// Mirror of `spec_valid_endpoint`.
pub fn valid_endpoint(b: &[u8]) -> (r: bool)
    ensures
        r == spec_valid_endpoint(b@),
{
    let n = b.len();
    let mut k: usize = n;
    while k > 0
        invariant
            k <= n,
            n == b@.len(),
            forall|j: int| k <= j < n ==> b@[j] != 58,
        decreases k,
    {
        if b[k - 1] == 58 {
            let c = k - 1;
            proof {
                lemma_last_colon_at(b@, c as int);
            }
            if c < 1 || c + 1 >= n {
                return false;
            }
            let ghost port = b@.subrange(c as int + 1, n as int);
            let mut i: usize = c + 1;
            while i < n
                invariant
                    c + 1 <= i <= n,
                    n == b@.len(),
                    c as int + 1 < n as int,
                    last_colon(b@) == c as int,
                    port == b@.subrange(c as int + 1, n as int),
                    forall|j: int| c + 1 <= j < i ==> is_digit(#[trigger] b@[j]),
                decreases n - i,
            {
                if b[i] < 48 || b[i] > 57 {
                    proof {
                        assert(!is_digit(port[i - c - 1]));
                        assert(!all_digits(b@.subrange(c as int + 1, n as int)));
                    }
                    return false;
                }
                i = i + 1;
            }
            proof {
                assert(all_digits(port)) by {
                    assert(forall|j: int|
                        0 <= j < port.len() ==> port[j] == b@[j + c + 1]);
                }
            }
            let mut acc: u64 = 0;
            let mut m: usize = c + 1;
            while m < n
                invariant
                    c + 1 <= m <= n,
                    n == b@.len(),
                    c as int + 1 < n as int,
                    last_colon(b@) == c as int,
                    port == b@.subrange(c as int + 1, n as int),
                    all_digits(port),
                    acc == dec_val(port.take(m - c - 1)),
                    acc <= 65535,
                decreases n - m,
            {
                let d = b[m];
                proof {
                    let t = port.take(m as int - c - 1 + 1);
                    assert(t.drop_last() =~= port.take(m as int - c - 1));
                    assert(t.last() == port[m as int - c - 1]);
                    assert(port[m as int - c - 1] == b@[m as int]);
                }
                acc = acc * 10 + (d - 48) as u64;
                m = m + 1;
                proof {
                    assert(acc == dec_val(port.take(m as int - c - 1)));
                }
                if acc > 65535 {
                    proof {
                        lemma_dec_val_prefix(port, m as int - c - 1);
                        assert(dec_val(b@.subrange(c as int + 1, n as int)) > 65535);
                    }
                    return false;
                }
            }
            proof {
                assert(port.take(n as int - c - 1) =~= port);
            }
            return true;
        }
        k = k - 1;
    }
    proof {
        lemma_no_colon(b@);
    }
    false
}

/// Sixteen to the power `k`.
pub open spec fn p16(k: int) -> int
    decreases k,
{
    if k <= 0 {
        1
    } else {
        16 * p16(k - 1)
    }
}

pub proof fn lemma_p16_pos(k: int)
    ensures
        p16(k) >= 1,
    decreases k,
{
    if k > 0 {
        lemma_p16_pos(k - 1);
    }
}

pub proof fn lemma_p16_mono(a: int, b: int)
    requires
        a <= b,
    ensures
        p16(a) <= p16(b),
    decreases b - a,
{
    if a < b {
        lemma_p16_mono(a, b - 1);
        lemma_p16_pos(b - 1);
    }
}

pub proof fn lemma_p16_32()
    ensures
        p16(32) == 0x1_0000_0000_0000_0000_0000_0000_0000_0000,
{
    reveal_with_fuel(p16, 33);
}

/// Hyphen positions of the canonical 36-byte id form.
pub open spec fn is_hyphen_pos(p: int) -> bool {
    p == 8 || p == 13 || p == 18 || p == 23
}

/// Number of hyphens among positions below `p`.
pub open spec fn hyphens_before(p: int) -> int {
    if p <= 8 {
        0
    } else if p <= 13 {
        1
    } else if p <= 18 {
        2
    } else if p <= 23 {
        3
    } else {
        4
    }
}

/// Hex-character index of a non-hyphen position.
pub open spec fn hex_index(p: int) -> int {
    p - hyphens_before(p)
}

/// Position of the `h`-th hex character.
pub open spec fn hex_pos(h: int) -> int {
    if h < 8 {
        h
    } else if h < 12 {
        h + 1
    } else if h < 16 {
        h + 2
    } else if h < 20 {
        h + 3
    } else {
        h + 4
    }
}

/// Lowercase hex digit for a nibble value.
pub open spec fn hex_digit(n: int) -> u8 {
    if n < 10 {
        (48 + n) as u8
    } else {
        (87 + n) as u8
    }
}

/// Lowercase hex character.
pub open spec fn is_hex_lower(b: u8) -> bool {
    (48 <= b <= 57) || (97 <= b <= 102)
}

/// Value of a lowercase hex character.
pub open spec fn hex_val(b: u8) -> int {
    if b <= 57 {
        b - 48
    } else {
        b - 87
    }
}

/// Nibble `h` of `x` (0 is the most significant of 32).
pub open spec fn nib(x: int, h: int) -> int {
    x / p16(31 - h) % 16
}

/// Canonical 36-byte hyphenated lowercase hex form of a 128-bit id.
pub open spec fn uuid_seq(id: u128) -> Seq<u8> {
    Seq::new(
        36,
        |p: int|
            if is_hyphen_pos(p) {
                45u8
            } else {
                hex_digit(nib(id as int, hex_index(p)))
            },
    )
}

/// The 36 bytes have hyphens at the canonical positions and lowercase
/// hex everywhere else.
pub open spec fn uuid_shape(s: Seq<u8>) -> bool {
    &&& s.len() == 36
    &&& forall|p: int|
        0 <= p < 36 ==> if is_hyphen_pos(p) {
            s[p] == 45u8
        } else {
            is_hex_lower(s[p])
        }
}

/// Value of the first `h` hex characters, most significant first.
pub open spec fn uuid_val(s: Seq<u8>, h: int) -> int
    decreases h,
{
    if h <= 0 {
        0
    } else {
        uuid_val(s, h - 1) * 16 + hex_val(s[hex_pos(h - 1)])
    }
}

/// Strict parse of the canonical id form.
pub open spec fn spec_parse_uuid(s: Seq<u8>) -> Option<u128> {
    if uuid_shape(s) {
        Some(uuid_val(s, 32) as u128)
    } else {
        None
    }
}

pub proof fn lemma_uuid_val_bound(s: Seq<u8>, h: int)
    requires
        0 <= h <= 32,
        forall|p: int|
            0 <= p < 36 && !is_hyphen_pos(p) && hex_index(p) < h ==> is_hex_lower(#[trigger] s[p]),
        s.len() == 36,
    ensures
        0 <= uuid_val(s, h) < p16(h),
    decreases h,
{
    if h > 0 {
        lemma_uuid_val_bound(s, h - 1);
        assert(hex_pos(h - 1) == hex_pos(h - 1));
        assert(!is_hyphen_pos(hex_pos(h - 1)));
        assert(hex_index(hex_pos(h - 1)) == h - 1);
        assert(is_hex_lower(s[hex_pos(h - 1)]));
        assert(0 <= hex_val(s[hex_pos(h - 1)]) < 16);
        assert(uuid_val(s, h - 1) * 16 <= (p16(h - 1) - 1) * 16) by (nonlinear_arith)
            requires
                uuid_val(s, h - 1) <= p16(h - 1) - 1,
        ;
        assert(uuid_val(s, h - 1) * 16 >= 0) by (nonlinear_arith)
            requires
                uuid_val(s, h - 1) >= 0,
        ;
    }
}

/// One nibble step of the quotient chain.
pub proof fn lemma_nib_step(x: int, k: int)
    requires
        x >= 0,
        k >= 0,
    ensures
        x / p16(k) == (x / p16(k + 1)) * 16 + (x / p16(k)) % 16,
        x / p16(k + 1) == x / p16(k) / 16,
{
    lemma_p16_pos(k);
    lemma_div_denominator(x, p16(k), 16);
    assert(p16(k + 1) == 16 * p16(k));
    assert(p16(k) * 16 == 16 * p16(k)) by (nonlinear_arith);
    lemma_fundamental_div_mod(x / p16(k), 16);
    lemma_div_pos_is_pos(x, p16(k));
    assert(x / p16(k) == 16 * (x / p16(k) / 16) + (x / p16(k)) % 16);
    assert(16 * (x / p16(k) / 16) == (x / p16(k) / 16) * 16) by (nonlinear_arith);
}

/// The canonical form of `id` parses back to `id`.
pub proof fn lemma_parse_uuid_of_seq(id: u128)
    ensures
        spec_parse_uuid(uuid_seq(id)) == Some(id),
{
    let s = uuid_seq(id);
    assert forall|p: int| 0 <= p < 36 && !is_hyphen_pos(p) implies is_hex_lower(s[p]) by {
        let n = nib(id as int, hex_index(p));
        lemma_p16_pos(31 - hex_index(p));
        lemma_div_pos_is_pos(id as int, p16(31 - hex_index(p)));
        lemma_mod_division_less_than_divisor(id as int / p16(31 - hex_index(p)), 16);
        assert(0 <= n < 16);
    }
    assert(uuid_shape(s));
    assert forall|h: int| 0 <= h <= 32 implies uuid_val(s, h) == id as int / p16(32 - h) by {
        lemma_uuid_val_quotient(id, h);
    }
    assert(uuid_val(s, 32) == id as int / p16(0));
    assert(id as int / 1 == id as int) by (nonlinear_arith);
}

proof fn lemma_uuid_val_quotient(id: u128, h: int)
    requires
        0 <= h <= 32,
    ensures
        uuid_val(uuid_seq(id), h) == id as int / p16(32 - h),
    decreases h,
{
    let s = uuid_seq(id);
    if h == 0 {
        lemma_p16_32();
        lemma_basic_div(id as int, p16(32));
    } else {
        lemma_uuid_val_quotient(id, h - 1);
        let p = hex_pos(h - 1);
        assert(!is_hyphen_pos(p));
        assert(hex_index(p) == h - 1);
        assert(0 <= p < 36);
        let n = nib(id as int, h - 1);
        lemma_p16_pos(32 - h);
        lemma_div_pos_is_pos(id as int, p16(32 - h));
        lemma_mod_division_less_than_divisor(id as int / p16(32 - h), 16);
        assert(0 <= n < 16);
        assert(s[p] == hex_digit(n));
        assert(hex_val(hex_digit(n)) == n);
        lemma_nib_step(id as int, 32 - h);
        assert(uuid_val(s, h) == uuid_val(s, h - 1) * 16 + n);
        assert(uuid_val(s, h) == (id as int / p16(32 - h + 1)) * 16 + n);
        assert(id as int / p16(32 - h) == (id as int / p16(32 - h + 1)) * 16 + n);
    }
}

/// Lowercase hex digit, executable form.
fn hex_digit_exec(n: u8) -> (b: u8)
    requires
        n < 16,
    ensures
        b == hex_digit(n as int),
{
    if n < 10 {
        48 + n
    } else {
        87 + n
    }
}

/// Whether `p` is one of the canonical hyphen positions.
fn is_hyphen_pos_exec(p: usize) -> (b: bool)
    ensures
        b == is_hyphen_pos(p as int),
{
    p == 8 || p == 13 || p == 18 || p == 23
}

/// Hex-character index of a non-hyphen position, executable form.
fn hex_index_exec(p: usize) -> (h: usize)
    requires
        p < 36,
        !is_hyphen_pos(p as int),
    ensures
        h as int == hex_index(p as int),
        h < 32,
{
    if p < 8 {
        p
    } else if p < 13 {
        p - 1
    } else if p < 18 {
        p - 2
    } else if p < 23 {
        p - 3
    } else {
        p - 4
    }
}

/// Writes the canonical 36-byte form of `id`.
pub fn uuid_bytes(id: u128) -> (out: Vec<u8>)
    ensures
        out@ == uuid_seq(id),
{
    let mut nibs: Vec<u8> = Vec::new();
    let mut cur: u128 = id;
    let mut j: usize = 0;
    proof {
        assert(id as int / p16(0) == id as int) by (nonlinear_arith);
    }
    while j < 32
        invariant
            j <= 32,
            nibs@.len() == j,
            cur as int == id as int / p16(j as int),
            forall|k: int| 0 <= k < j ==> nibs@[k] as int == nib(id as int, 31 - k),
        decreases 32 - j,
    {
        let d: u8 = (cur % 16) as u8;
        proof {
            lemma_nib_step(id as int, j as int);
            assert(nib(id as int, 31 - j) == (id as int / p16(j as int)) % 16);
            lemma_p16_pos(j as int);
            lemma_div_pos_is_pos(id as int, p16(j as int));
            lemma_mod_division_less_than_divisor(cur as int, 16);
        }
        nibs.push(d);
        cur = cur / 16;
        j = j + 1;
    }
    let mut out: Vec<u8> = Vec::new();
    let mut p: usize = 0;
    while p < 36
        invariant
            p <= 36,
            out@.len() == p,
            nibs@.len() == 32,
            forall|k: int| 0 <= k < 32 ==> nibs@[k] as int == nib(id as int, 31 - k),
            forall|q: int| 0 <= q < p ==> out@[q] == uuid_seq(id)[q],
        decreases 36 - p,
    {
        if is_hyphen_pos_exec(p) {
            out.push(45);
        } else {
            let h = hex_index_exec(p);
            let n = nibs[31 - h];
            proof {
                assert(nibs@[31 - h as int] as int == nib(id as int, h as int));
                lemma_p16_pos(31 - h as int);
                lemma_div_pos_is_pos(id as int, p16(31 - h as int));
                lemma_mod_division_less_than_divisor(id as int / p16(31 - h as int), 16);
            }
            out.push(hex_digit_exec(n));
        }
        p = p + 1;
    }
    proof {
        assert(out@ =~= uuid_seq(id));
    }
    out
}

/// Strict parser of the canonical id form, mirror of `spec_parse_uuid`.
pub fn parse_uuid(s: &[u8]) -> (r: Option<u128>)
    ensures
        r == spec_parse_uuid(s@),
{
    if s.len() != 36 {
        return None;
    }
    let mut acc: u128 = 0;
    let mut p: usize = 0;
    let mut h: usize = 0;
    proof {
        lemma_p16_32();
    }
    while p < 36
        invariant
            p <= 36,
            h as int == p - hyphens_before(p as int),
            s@.len() == 36,
            forall|q: int|
                0 <= q < p ==> if is_hyphen_pos(q) {
                    s@[q] == 45u8
                } else {
                    is_hex_lower(#[trigger] s@[q])
                },
            acc == uuid_val(s@, h as int),
            acc < p16(h as int),
            p16(32) == 0x1_0000_0000_0000_0000_0000_0000_0000_0000,
        decreases 36 - p,
    {
        if is_hyphen_pos_exec(p) {
            if s[p] != 45 {
                return None;
            }
        } else {
            let b = s[p];
            if !((48 <= b && b <= 57) || (97 <= b && b <= 102)) {
                return None;
            }
            let v: u8 = if b <= 57 {
                b - 48
            } else {
                b - 87
            };
            proof {
                assert(hex_pos(h as int) == p as int);
                assert(v as int == hex_val(s@[p as int]));
                lemma_p16_mono(h as int + 1, 32);
                assert(p16(h as int + 1) == 16 * p16(h as int));
                assert(acc as int * 16 <= (p16(h as int) - 1) * 16) by (nonlinear_arith)
                    requires
                        acc as int <= p16(h as int) - 1,
                ;
            }
            acc = acc * 16 + v as u128;
            h = h + 1;
        }
        p = p + 1;
    }
    proof {
        assert(h == 32);
        assert(uuid_shape(s@));
    }
    Some(acc)
}

} // verus!
