//! IPv4 addresses as 32-bit values: canonical dotted-quad text, parsing,
//! CIDR and range expansion, private-space classification, and numeric
//! sorting of address text.
//!
//! An address has exactly one canonical dotted-quad form (no leading
//! zeros), so parsing is stated as: the text parses to `v` if and only if
//! it is the canonical form of `v`.

use vstd::prelude::*;

use crate::text::{bytes_as_chars, is_digit_char};
use crate::NetError;

verus! {

/// The character of one decimal digit.
pub open spec fn digit_char(d: int) -> char {
    ((48 + d) as u8) as char
}

/// Decimal text of an octet value `0 <= n <= 255`, without leading zeros.
pub open spec fn dec_chars(n: int) -> Seq<char> {
    if n < 10 {
        seq![digit_char(n)]
    } else if n < 100 {
        seq![digit_char(n / 10), digit_char(n % 10)]
    } else {
        seq![digit_char(n / 100), digit_char((n / 10) % 10), digit_char(n % 10)]
    }
}

pub open spec fn oct_a(v: u32) -> int {
    v as int / 16777216
}

pub open spec fn oct_b(v: u32) -> int {
    (v as int / 65536) % 256
}

pub open spec fn oct_c(v: u32) -> int {
    (v as int / 256) % 256
}

pub open spec fn oct_d(v: u32) -> int {
    v as int % 256
}

/// The canonical dotted-quad text of an address.
pub open spec fn ipv4_chars(v: u32) -> Seq<char> {
    dec_chars(oct_a(v)) + seq!['.'] + dec_chars(oct_b(v)) + seq!['.'] + dec_chars(oct_c(v))
        + seq!['.'] + dec_chars(oct_d(v))
}

/// Whether some address has this text as its canonical form.
pub open spec fn is_ipv4_text(s: Seq<char>) -> bool {
    exists|v: u32| s == ipv4_chars(v)
}

/// The address a canonical text denotes.
pub open spec fn ipv4_val(s: Seq<char>) -> u32 {
    choose|v: u32| s == ipv4_chars(v)
}

/// An address is recomposed from its four octets.
pub proof fn lemma_octet_recompose(v: u32)
    ensures
        v as int == oct_a(v) * 16777216 + oct_b(v) * 65536 + oct_c(v) * 256 + oct_d(v),
        0 <= oct_a(v) < 256,
        0 <= oct_b(v) < 256,
        0 <= oct_c(v) < 256,
        0 <= oct_d(v) < 256,
{
    let x = v as int;
    vstd::arithmetic::div_mod::lemma_fundamental_div_mod(x, 256);
    vstd::arithmetic::div_mod::lemma_fundamental_div_mod(x / 256, 256);
    vstd::arithmetic::div_mod::lemma_fundamental_div_mod(x / 65536, 256);
    vstd::arithmetic::div_mod::lemma_div_denominator(x, 256, 256);
    vstd::arithmetic::div_mod::lemma_div_denominator(x, 65536, 256);
    assert(x / 256 / 256 == x / 65536);
    assert(x / 65536 / 256 == x / 16777216);
}

/// Distinct digits have distinct characters.
proof fn lemma_digit_char_inj(a: int, b: int)
    requires
        0 <= a <= 9,
        0 <= b <= 9,
        digit_char(a) == digit_char(b),
    ensures
        a == b,
{
    assert(digit_char(a) as u32 == 48 + a);
    assert(digit_char(b) as u32 == 48 + b);
}

/// Decimal texts of distinct octet values differ.
proof fn lemma_dec_chars_injective(x: int, y: int)
    requires
        0 <= x <= 255,
        0 <= y <= 255,
        dec_chars(x) == dec_chars(y),
    ensures
        x == y,
{
    let sx = dec_chars(x);
    let sy = dec_chars(y);
    if sx.len() == 1 {
        assert(sx[0] == sy[0]);
        lemma_digit_char_inj(x, y);
    } else if sx.len() == 2 {
        assert(sx[0] == sy[0] && sx[1] == sy[1]);
        lemma_digit_char_inj(x / 10, y / 10);
        lemma_digit_char_inj(x % 10, y % 10);
        vstd::arithmetic::div_mod::lemma_fundamental_div_mod(x, 10);
        vstd::arithmetic::div_mod::lemma_fundamental_div_mod(y, 10);
    } else {
        assert(sx[0] == sy[0] && sx[1] == sy[1] && sx[2] == sy[2]);
        lemma_digit_char_inj(x / 100, y / 100);
        lemma_digit_char_inj((x / 10) % 10, (y / 10) % 10);
        lemma_digit_char_inj(x % 10, y % 10);
        vstd::arithmetic::div_mod::lemma_fundamental_div_mod(x, 10);
        vstd::arithmetic::div_mod::lemma_fundamental_div_mod(y, 10);
        vstd::arithmetic::div_mod::lemma_fundamental_div_mod(x / 10, 10);
        vstd::arithmetic::div_mod::lemma_fundamental_div_mod(y / 10, 10);
        vstd::arithmetic::div_mod::lemma_div_denominator(x, 10, 10);
        vstd::arithmetic::div_mod::lemma_div_denominator(y, 10, 10);
    }
}

/// All characters of an octet's decimal text are digits.
proof fn lemma_dec_chars_digits(n: int)
    requires
        0 <= n <= 255,
    ensures
        1 <= dec_chars(n).len() <= 3,
        forall|k: int| 0 <= k < dec_chars(n).len() ==> is_digit_char(#[trigger] dec_chars(n)[k]),
        forall|k: int| 0 <= k < dec_chars(n).len() ==> dec_chars(n)[k] != '.',
{
}

/// Append the decimal text of one octet, as ASCII bytes.
fn push_dec(out: &mut Vec<u8>, n: u8)
    ensures
        bytes_as_chars(final(out)@) == bytes_as_chars(old(out)@) + dec_chars(n as int),
        forall|k: int| 0 <= k < old(out)@.len() ==> final(out)@[k] == old(out)@[k],
        forall|k: int| old(out)@.len() <= k < final(out)@.len() ==> final(out)@[k] < 128,
{
    if n >= 100 {
        out.push(48 + n / 100);
        out.push(48 + (n / 10) % 10);
        out.push(48 + n % 10);
        proof {
            assert(bytes_as_chars(out@) =~= bytes_as_chars(old(out)@) + dec_chars(n as int));
        }
    } else if n >= 10 {
        out.push(48 + n / 10);
        out.push(48 + n % 10);
        proof {
            assert(bytes_as_chars(out@) =~= bytes_as_chars(old(out)@) + dec_chars(n as int));
        }
    } else {
        out.push(48 + n);
        proof {
            assert(bytes_as_chars(out@) =~= bytes_as_chars(old(out)@) + dec_chars(n as int));
        }
    }
}

/// Format an address as its canonical dotted-quad text.
pub fn format_ipv4(v: u32) -> (r: String)
    ensures
        r@ == ipv4_chars(v),
{
    let a = v >> 24;
    let b = (v >> 16) & 255;
    let c = (v >> 8) & 255;
    let d = v & 255;
    proof {
        assert(v >> 24 == v as int / 16777216 && (v >> 16) & 255 == (v as int / 65536) % 256 && (v
            >> 8) & 255 == (v as int / 256) % 256 && v & 255 == v as int % 256 && v >> 24 < 256)
            by (bit_vector);
    }
    let mut out: Vec<u8> = Vec::new();
    push_dec(&mut out, a as u8);
    out.push(46);
    proof {
        assert(bytes_as_chars(out@) =~= dec_chars(oct_a(v)) + seq!['.']);
    }
    push_dec(&mut out, b as u8);
    out.push(46);
    proof {
        assert(bytes_as_chars(out@) =~= dec_chars(oct_a(v)) + seq!['.'] + dec_chars(oct_b(v))
            + seq!['.']);
    }
    push_dec(&mut out, c as u8);
    out.push(46);
    proof {
        assert(bytes_as_chars(out@) =~= dec_chars(oct_a(v)) + seq!['.'] + dec_chars(oct_b(v))
            + seq!['.'] + dec_chars(oct_c(v)) + seq!['.']);
    }
    push_dec(&mut out, d as u8);
    proof {
        assert(bytes_as_chars(out@) =~= ipv4_chars(v));
    }
    crate::text::string_from_ascii(out)
}

/// A decimal segment followed by a dot determines itself and the rest.
proof fn lemma_dec_prefix(m: int, n: int, rest1: Seq<char>, rest2: Seq<char>)
    requires
        0 <= m <= 255,
        0 <= n <= 255,
        dec_chars(m) + seq!['.'] + rest1 == dec_chars(n) + seq!['.'] + rest2,
    ensures
        m == n,
        rest1 == rest2,
{
    lemma_dec_chars_digits(m);
    lemma_dec_chars_digits(n);
    let s1 = dec_chars(m);
    let s2 = dec_chars(n);
    let l1 = s1.len() as int;
    let l2 = s2.len() as int;
    let total = s1 + seq!['.'] + rest1;
    assert(total[l1] == '.');
    assert(total[l2] == '.');
    if l1 < l2 {
        assert(total[l1] == s2[l1]);
        assert(false);
    }
    if l2 < l1 {
        assert(total[l2] == s1[l2]);
        assert(false);
    }
    assert forall|k: int| 0 <= k < l1 implies s1[k] == s2[k] by {
        assert(total[k] == s1[k]);
        assert(total[k] == s2[k]);
    }
    assert(s1 =~= s2);
    lemma_dec_chars_injective(m, n);
    assert(total == s2 + seq!['.'] + rest2);
    assert(total.len() == l1 + 1 + rest1.len());
    assert(total.len() == l2 + 1 + rest2.len());
    assert(rest1.len() == rest2.len());
    assert forall|k: int| 0 <= k < rest1.len() implies rest1[k] == rest2[k] by {
        assert((s1 + seq!['.'] + rest1)[l1 + 1 + k] == rest1[k]);
        assert((s2 + seq!['.'] + rest2)[l2 + 1 + k] == rest2[k]);
    }
    assert(rest1 =~= rest2);
}

/// No two addresses share a canonical text.
#[verifier::rlimit(100)]
pub proof fn lemma_ipv4_chars_injective(v: u32, w: u32)
    requires
        ipv4_chars(v) == ipv4_chars(w),
    ensures
        v == w,
{
    lemma_octet_recompose(v);
    lemma_octet_recompose(w);
    let r1 = dec_chars(oct_b(v)) + seq!['.'] + (dec_chars(oct_c(v)) + seq!['.'] + dec_chars(
        oct_d(v),
    ));
    let r2 = dec_chars(oct_b(w)) + seq!['.'] + (dec_chars(oct_c(w)) + seq!['.'] + dec_chars(
        oct_d(w),
    ));
    assert(dec_chars(oct_a(v)) + seq!['.'] + r1 =~= ipv4_chars(v));
    assert(dec_chars(oct_a(w)) + seq!['.'] + r2 =~= ipv4_chars(w));
    lemma_dec_prefix(oct_a(v), oct_a(w), r1, r2);
    let q1 = dec_chars(oct_c(v)) + seq!['.'] + dec_chars(oct_d(v));
    let q2 = dec_chars(oct_c(w)) + seq!['.'] + dec_chars(oct_d(w));
    lemma_dec_prefix(oct_b(v), oct_b(w), q1, q2);
    lemma_dec_prefix(oct_c(v), oct_c(w), dec_chars(oct_d(v)), dec_chars(oct_d(w)));
    lemma_dec_chars_injective(oct_d(v), oct_d(w));
}


/// Parse one decimal octet segment `s[lo..hi)`: succeeds exactly on the
/// canonical decimal text of a value `0..=255`.
fn parse_octet(s: &str, lo: usize, hi: usize) -> (r: Option<u8>)
    requires
        lo <= hi <= s@.len(),
    ensures
        match r {
            Some(b) => s@.subrange(lo as int, hi as int) == dec_chars(b as int),
            None => forall|b: u8| s@.subrange(lo as int, hi as int) != dec_chars(b as int),
        },
{
    let ghost seg = s@.subrange(lo as int, hi as int);
    let len = hi - lo;
    if len == 0 || len > 3 {
        proof {
            assert forall|b: u8| seg != dec_chars(b as int) by {
                lemma_dec_chars_digits(b as int);
            }
        }
        return None;
    }
    let c0 = s.get_char(lo);
    assert(seg[0] == c0);
    if !crate::text::char_is_digit(c0) {
        proof {
            assert forall|b: u8| seg != dec_chars(b as int) by {
                lemma_dec_chars_digits(b as int);
            }
        }
        return None;
    }
    let d0 = (c0 as u32) - 48;
    proof {
        assert(digit_char(d0 as int) == c0);
    }
    if len == 1 {
        proof {
            assert(seg =~= dec_chars(d0 as int));
        }
        return Some(d0 as u8);
    }
    if c0 == '0' {
        proof {
            assert forall|b: u8| seg != dec_chars(b as int) by {
                lemma_dec_chars_digits(b as int);
                if seg == dec_chars(b as int) {
                    if b >= 100 {
                        assert(dec_chars(b as int)[0] == digit_char(b as int / 100));
                        assert(digit_char(b as int / 100) as u32 == 48 + b as int / 100);
                    } else if b >= 10 {
                        assert(dec_chars(b as int)[0] == digit_char(b as int / 10));
                        assert(digit_char(b as int / 10) as u32 == 48 + b as int / 10);
                    } else {
                        assert(dec_chars(b as int).len() == 1);
                    }
                }
            }
        }
        return None;
    }
    let c1 = s.get_char(lo + 1);
    assert(seg[1] == c1);
    if !crate::text::char_is_digit(c1) {
        proof {
            assert forall|b: u8| seg != dec_chars(b as int) by {
                lemma_dec_chars_digits(b as int);
            }
        }
        return None;
    }
    let d1 = (c1 as u32) - 48;
    proof {
        assert(digit_char(d1 as int) == c1);
    }
    if len == 2 {
        let v = d0 * 10 + d1;
        proof {
            assert(10 <= v <= 99);
            assert(v as int / 10 == d0 as int && v as int % 10 == d1 as int);
            assert(seg =~= dec_chars(v as int));
        }
        return Some(v as u8);
    }
    let c2 = s.get_char(lo + 2);
    assert(seg[2] == c2);
    if !crate::text::char_is_digit(c2) {
        proof {
            assert forall|b: u8| seg != dec_chars(b as int) by {
                lemma_dec_chars_digits(b as int);
            }
        }
        return None;
    }
    let d2 = (c2 as u32) - 48;
    proof {
        assert(digit_char(d2 as int) == c2);
    }
    let v = d0 * 100 + d1 * 10 + d2;
    proof {
        assert(100 <= v <= 999);
        assert(v as int / 100 == d0 as int);
        assert(v as int / 10 == d0 as int * 10 + d1 as int && v as int % 10 == d2 as int);
        assert((v as int / 10) % 10 == d1 as int);
    }
    if v > 255 {
        proof {
            assert forall|b: u8| seg != dec_chars(b as int) by {
                lemma_dec_chars_digits(b as int);
                if seg == dec_chars(b as int) {
                    assert(dec_chars(b as int).len() == 3);
                    assert(b >= 100);
                    let bi = b as int;
                    lemma_digit_char_inj(bi / 100, d0 as int);
                    lemma_digit_char_inj((bi / 10) % 10, d1 as int);
                    lemma_digit_char_inj(bi % 10, d2 as int);
                    vstd::arithmetic::div_mod::lemma_fundamental_div_mod(bi, 10);
                    vstd::arithmetic::div_mod::lemma_fundamental_div_mod(bi / 10, 10);
                    vstd::arithmetic::div_mod::lemma_div_denominator(bi, 10, 10);
                }
            }
        }
        return None;
    }
    proof {
        assert(seg =~= dec_chars(v as int));
    }
    Some(v as u8)
}

/// Where the dots stand in a canonical dotted quad: exactly three, one
/// between each pair of octet texts.
proof fn lemma_ipv4_dots(w: u32) -> (p: (int, int, int))
    ensures
        ({
            let s = ipv4_chars(w);
            &&& 0 <= p.0 < p.1 < p.2 < s.len()
            &&& s[p.0] == '.' && s[p.1] == '.' && s[p.2] == '.'
            &&& forall|j: int| 0 <= j < s.len() && j != p.0 && j != p.1 && j != p.2 ==> s[j] != '.'
            &&& ipv4_chars(w).subrange(0, p.0) == dec_chars(oct_a(w))
            &&& ipv4_chars(w).subrange(p.0 + 1, p.1) == dec_chars(oct_b(w))
            &&& ipv4_chars(w).subrange(p.1 + 1, p.2) == dec_chars(oct_c(w))
            &&& ipv4_chars(w).subrange(p.2 + 1, s.len() as int) == dec_chars(oct_d(w))
        }),
{
    lemma_octet_recompose(w);
    lemma_dec_chars_digits(oct_a(w));
    lemma_dec_chars_digits(oct_b(w));
    lemma_dec_chars_digits(oct_c(w));
    lemma_dec_chars_digits(oct_d(w));
    let s = ipv4_chars(w);
    let la = dec_chars(oct_a(w)).len() as int;
    let lb = dec_chars(oct_b(w)).len() as int;
    let lc = dec_chars(oct_c(w)).len() as int;
    let p0 = la;
    let p1 = la + 1 + lb;
    let p2 = la + 1 + lb + 1 + lc;
    assert(s[p0] == '.');
    assert(s[p1] == '.');
    assert(s[p2] == '.');
    assert(s.subrange(0, p0) =~= dec_chars(oct_a(w)));
    assert(s.subrange(p0 + 1, p1) =~= dec_chars(oct_b(w)));
    assert(s.subrange(p1 + 1, p2) =~= dec_chars(oct_c(w)));
    assert(s.subrange(p2 + 1, s.len() as int) =~= dec_chars(oct_d(w)));
    assert forall|j: int| 0 <= j < s.len() && j != p0 && j != p1 && j != p2 implies s[j]
        != '.' by {
        if j < p0 {
            assert(s[j] == dec_chars(oct_a(w))[j]);
        } else if j < p1 {
            assert(s[j] == dec_chars(oct_b(w))[j - p0 - 1]);
        } else if j < p2 {
            assert(s[j] == dec_chars(oct_c(w))[j - p1 - 1]);
        } else {
            assert(s[j] == dec_chars(oct_d(w))[j - p2 - 1]);
        }
    }
    (p0, p1, p2)
}

/// Parse dotted-quad text: succeeds exactly on the canonical form of some
/// address, and returns that address.
pub fn parse_ipv4(s: &str) -> (r: Option<u32>)
    ensures
        match r {
            Some(v) => s@ == ipv4_chars(v) && is_ipv4_text(s@) && ipv4_val(s@) == v,
            None => !is_ipv4_text(s@),
        },
{
    let n = s.unicode_len();
    let mut dots: Vec<usize> = Vec::new();
    let mut i: usize = 0;
    while i < n
        invariant
            i <= n,
            n == s@.len(),
            forall|t: int| 0 <= t < dots@.len() ==> #[trigger] dots@[t] < i,
            forall|t: int| 0 <= t < dots@.len() ==> s@[#[trigger] dots@[t] as int] == '.',
            forall|t1: int, t2: int|
                0 <= t1 < t2 < dots@.len() ==> #[trigger] dots@[t1] < #[trigger] dots@[t2],
            forall|j: int|
                0 <= j < i && s@[j] == '.' ==> exists|t: int|
                    0 <= t < dots@.len() && #[trigger] dots@[t] == j,
        decreases n - i,
    {
        let c = s.get_char(i);
        if c == '.' {
            let ghost olddots = dots@;
            dots.push(i);
            proof {
                assert forall|j: int| 0 <= j < i + 1 && s@[j] == '.' implies exists|t: int|
                    0 <= t < dots@.len() && #[trigger] dots@[t] == j by {
                    if j < i {
                        let t = choose|t: int| 0 <= t < olddots.len() && olddots[t] == j;
                        assert(dots@[t] == j);
                    } else {
                        assert(dots@[dots@.len() - 1] == i);
                    }
                }
            }
        }
        i = i + 1;
    }
    if dots.len() != 3 {
        proof {
            if is_ipv4_text(s@) {
                let w = choose|w: u32| s@ == ipv4_chars(w);
                let p = lemma_ipv4_dots(w);
                let t0 = choose|t: int| 0 <= t < dots@.len() && dots@[t] == p.0;
                let t1 = choose|t: int| 0 <= t < dots@.len() && dots@[t] == p.1;
                let t2 = choose|t: int| 0 <= t < dots@.len() && dots@[t] == p.2;
                assert(dots@[t0] == p.0 && dots@[t1] == p.1 && dots@[t2] == p.2);
                assert(t0 != t1 && t1 != t2 && t0 != t2);
                assert(forall|t: int| 0 <= t < dots@.len() ==> dots@[t] == p.0 || dots@[t] == p.1
                    || dots@[t] == p.2);
                if dots@.len() > 3 {
                    assert(dots@[0] < dots@[1] < dots@[2] < dots@[3]);
                    assert(false);
                }
                assert(false);
            }
        }
        return None;
    }
    let p0 = dots[0];
    let p1 = dots[1];
    let p2 = dots[2];
    assert(p0 < p1 < p2 < n);
    let oa = parse_octet(s, 0, p0);
    let ob = parse_octet(s, p0 + 1, p1);
    let oc = parse_octet(s, p1 + 1, p2);
    let od = parse_octet(s, p2 + 1, n);
    proof {
        if is_ipv4_text(s@) {
            let w = choose|w: u32| s@ == ipv4_chars(w);
            let p = lemma_ipv4_dots(w);
            assert(exists|t: int| 0 <= t < dots@.len() && dots@[t] == p.0);
            assert(exists|t: int| 0 <= t < dots@.len() && dots@[t] == p.1);
            assert(exists|t: int| 0 <= t < dots@.len() && dots@[t] == p.2);
            let t0 = choose|t: int| 0 <= t < dots@.len() && dots@[t] == p.0;
            let t1 = choose|t: int| 0 <= t < dots@.len() && dots@[t] == p.1;
            let t2 = choose|t: int| 0 <= t < dots@.len() && dots@[t] == p.2;
            assert(t0 < t1 < t2);
            assert(t0 == 0 && t1 == 1 && t2 == 2);
            assert(p0 == p.0 && p1 == p.1 && p2 == p.2);
            lemma_octet_recompose(w);
        }
    }
    match (oa, ob, oc, od) {
        (Some(a), Some(b), Some(c), Some(d)) => {
            let v: u32 = ((a as u32) << 24) | ((b as u32) << 16) | ((c as u32) << 8) | (d as u32);
            proof {
                let au = a as u32;
                let bu = b as u32;
                let cu = c as u32;
                let du = d as u32;
                assert(au < 256 && bu < 256 && cu < 256 && du < 256 ==> {
                    let w = ((au << 24) | (bu << 16) | (cu << 8) | du);
                    w / 16777216u32 == au && (w / 65536u32) % 256u32 == bu && (w / 256u32)
                        % 256u32 == cu && w % 256u32 == du
                }) by (bit_vector);
                assert(oct_a(v) == a as int && oct_b(v) == b as int && oct_c(v) == c as int
                    && oct_d(v) == d as int);
                assert(s@ =~= s@.subrange(0, p0 as int) + seq!['.'] + s@.subrange(
                    p0 as int + 1,
                    p1 as int,
                ) + seq!['.'] + s@.subrange(p1 as int + 1, p2 as int) + seq!['.'] + s@.subrange(
                    p2 as int + 1,
                    n as int,
                ));
                assert(s@ == ipv4_chars(v));
                let w = ipv4_val(s@);
                assert(s@ == ipv4_chars(w));
                lemma_ipv4_chars_injective(v, w);
            }
            Some(v)
        },
        _ => {
            proof {
                if is_ipv4_text(s@) {
                    let w = choose|w: u32| s@ == ipv4_chars(w);
                    let p = lemma_ipv4_dots(w);
                }
            }
            None
        },
    }
}


/// RFC1918 private space, loopback, or link-local, judged on the numeric
/// address.
pub open spec fn is_private_val(v: u32) -> bool {
    ||| oct_a(v) == 10
    ||| (oct_a(v) == 172 && 16 <= oct_b(v) < 32)
    ||| (oct_a(v) == 192 && oct_b(v) == 168)
    ||| oct_a(v) == 127
    ||| (oct_a(v) == 169 && oct_b(v) == 254)
}

/// Whether address text is private space: non-addresses are not.
pub fn is_private_ip(ip: &str) -> (r: bool)
    ensures
        r == (is_ipv4_text(ip@) && is_private_val(ipv4_val(ip@))),
{
    match parse_ipv4(ip) {
        None => false,
        Some(v) => {
            let a = v >> 24;
            let b = (v >> 16) & 255;
            proof {
                assert(v >> 24 == v as int / 16777216 && (v >> 16) & 255 == (v as int / 65536)
                    % 256) by (bit_vector);
            }
            a == 10 || (a == 172 && 16 <= b && b < 32) || (a == 192 && b == 168) || a == 127 || (a
                == 169 && b == 254)
        },
    }
}

/// Expand an inclusive range of addresses given as dotted-quad endpoints.
/// Fails with `InvalidInput` when either endpoint is not an address, and
/// with `InvalidRange` when the end precedes the start numerically.
pub fn expand_ip_range(start: &str, end: &str) -> (r: Result<Vec<String>, NetError>)
    ensures
        r matches Ok(_) <==> (is_ipv4_text(start@) && is_ipv4_text(end@) && ipv4_val(start@)
            <= ipv4_val(end@)),
        r matches Ok(out) ==> {
            &&& out@.len() == ipv4_val(end@) - ipv4_val(start@) + 1
            &&& forall|i: int|
                0 <= i < out@.len() ==> #[trigger] out@[i]@ == ipv4_chars(
                    (ipv4_val(start@) + i) as u32,
                )
        },
        r matches Err(e) ==> e == (if is_ipv4_text(start@) && is_ipv4_text(end@) {
            NetError::InvalidRange
        } else {
            NetError::InvalidInput
        }),
{
    let sv = match parse_ipv4(start) {
        Some(v) => v,
        None => {
            return Err(NetError::InvalidInput);
        },
    };
    let ev = match parse_ipv4(end) {
        Some(v) => v,
        None => {
            return Err(NetError::InvalidInput);
        },
    };
    if ev < sv {
        return Err(NetError::InvalidRange);
    }
    let count: u64 = (ev - sv) as u64 + 1;
    let mut out: Vec<String> = Vec::new();
    let mut k: u64 = 0;
    while k < count
        invariant
            count == ev - sv + 1,
            sv <= ev,
            k <= count,
            out@.len() == k as int,
            forall|i: int|
                0 <= i < k as int ==> #[trigger] out@[i]@ == ipv4_chars((sv + i) as u32),
        decreases count - k,
    {
        let v: u32 = sv + (k as u32);
        out.push(format_ipv4(v));
        k = k + 1;
    }
    Ok(out)
}


/// The elements of a batch that are addresses, in their original order.
pub open spec fn keep_ipv4(s: Seq<String>) -> Seq<String>
    decreases s.len(),
{
    if s.len() == 0 {
        Seq::<String>::empty()
    } else {
        keep_ipv4(s.drop_last()) + if is_ipv4_text(s.last()@) {
            seq![s.last()]
        } else {
            Seq::<String>::empty()
        }
    }
}

/// Stable insertion of an address text into a run: it lands after every
/// element whose numeric value is at most its own.
pub open spec fn insert_by_val(t: Seq<String>, x: String) -> Seq<String>
    decreases t.len(),
{
    if t.len() == 0 {
        seq![x]
    } else if ipv4_val(t.last()@) <= ipv4_val(x@) {
        t + seq![x]
    } else {
        insert_by_val(t.drop_last(), x) + seq![t.last()]
    }
}

/// Stable sort of address texts by numeric value.
pub open spec fn sort_by_val(s: Seq<String>) -> Seq<String>
    decreases s.len(),
{
    if s.len() == 0 {
        Seq::<String>::empty()
    } else {
        insert_by_val(sort_by_val(s.drop_last()), s.last())
    }
}

proof fn lemma_insert_by_val_at(t: Seq<String>, x: String, m: int)
    requires
        0 <= m <= t.len(),
        m > 0 ==> ipv4_val(t[m - 1]@) <= ipv4_val(x@),
        forall|k: int| m <= k < t.len() ==> ipv4_val(#[trigger] t[k]@) > ipv4_val(x@),
    ensures
        insert_by_val(t, x) == t.take(m) + seq![x] + t.skip(m),
    decreases t.len(),
{
    if t.len() == 0 {
        assert(insert_by_val(t, x) =~= t.take(m) + seq![x] + t.skip(m));
    } else if m == t.len() {
        assert(t.take(m) =~= t);
        assert(t.skip(m) =~= Seq::<String>::empty());
        assert(insert_by_val(t, x) =~= t.take(m) + seq![x] + t.skip(m));
    } else {
        assert(ipv4_val(t[t.len() - 1]@) > ipv4_val(x@));
        lemma_insert_by_val_at(t.drop_last(), x, m);
        assert(t.drop_last().take(m) =~= t.take(m));
        assert(insert_by_val(t, x) =~= t.take(m) + seq![x] + t.skip(m));
    }
}

/// Sort address texts by 32-bit numeric value, keeping the original order
/// of equal values (stable); entries that are not addresses are dropped.
pub fn sort_ips(ips: Vec<String>) -> (r: Vec<String>)
    ensures
        r@ == sort_by_val(keep_ipv4(ips@)),
{
    let mut pairs: Vec<(u32, String)> = Vec::new();
    let mut i: usize = 0;
    while i < ips.len()
        invariant
            i <= ips@.len(),
            pairs@.map(|_t: int, q: (u32, String)| q.1) == keep_ipv4(ips@.take(i as int)),
            forall|t: int|
                0 <= t < pairs@.len() ==> is_ipv4_text(#[trigger] pairs@[t].1@) && ipv4_val(
                    pairs@[t].1@,
                ) == pairs@[t].0,
        decreases ips@.len() - i,
    {
        let ghost prevm = pairs@.map(|_t: int, q: (u32, String)| q.1);
        proof {
            assert(ips@.take(i as int + 1).drop_last() =~= ips@.take(i as int));
            assert(ips@.take(i as int + 1).last() == ips@[i as int]);
        }
        match parse_ipv4(ips[i].as_str()) {
            Some(v) => {
                let item = ips[i].clone();
                pairs.push((v, item));
                proof {
                    assert(pairs@.map(|_t: int, q: (u32, String)| q.1) =~= prevm + seq![
                        ips@[i as int],
                    ]);
                }
            },
            None => {
                proof {
                    assert(keep_ipv4(ips@.take(i as int + 1)) =~= keep_ipv4(ips@.take(i as int)));
                }
            },
        }
        i = i + 1;
    }
    proof {
        assert(ips@.take(ips@.len() as int) =~= ips@);
    }
    let ghost kept = keep_ipv4(ips@);
    let mut sorted: Vec<(u32, String)> = Vec::new();
    let mut j: usize = 0;
    while j < pairs.len()
        invariant
            j <= pairs@.len(),
            pairs@.map(|_t: int, q: (u32, String)| q.1) == kept,
            forall|t: int|
                0 <= t < pairs@.len() ==> is_ipv4_text(#[trigger] pairs@[t].1@) && ipv4_val(
                    pairs@[t].1@,
                ) == pairs@[t].0,
            sorted@.map(|_t: int, q: (u32, String)| q.1) == sort_by_val(kept.take(j as int)),
            forall|t: int|
                0 <= t < sorted@.len() ==> ipv4_val(#[trigger] sorted@[t].1@) == sorted@[t].0,
        decreases pairs@.len() - j,
    {
        let key = pairs[j].0;
        let item = pairs[j].1.clone();
        let mut m: usize = sorted.len();
        while m > 0 && sorted[m - 1].0 > key
            invariant
                m <= sorted@.len(),
                forall|k: int|
                    m <= k < sorted@.len() ==> (#[trigger] sorted@[k].0) > key,
            decreases m,
        {
            m = m - 1;
        }
        let ghost prevs = sorted@;
        sorted.insert(m, (key, item));
        proof {
            assert(kept.take(j as int + 1).drop_last() =~= kept.take(j as int));
            assert(kept.take(j as int + 1).last() == kept[j as int]);
            assert(kept[j as int] == pairs@[j as int].1);
            let tprev = prevs.map(|_t: int, q: (u32, String)| q.1);
            let x = pairs@[j as int].1;
            assert(ipv4_val(x@) == key);
            assert forall|k: int| m as int <= k < tprev.len() implies ipv4_val(
                #[trigger] tprev[k]@,
            ) > ipv4_val(x@) by {
                assert(tprev[k] == prevs[k].1);
                assert(ipv4_val(prevs[k].1@) == prevs[k].0);
            }
            if m > 0 {
                assert(tprev[m - 1] == prevs[m - 1].1);
                assert(ipv4_val(tprev[m - 1]@) <= ipv4_val(x@));
            }
            lemma_insert_by_val_at(tprev, pairs@[j as int].1, m as int);
            assert(sorted@ =~= prevs.take(m as int) + seq![(key, pairs@[j as int].1)]
                + prevs.skip(m as int));
            assert(sorted@.map(|_t: int, q: (u32, String)| q.1) =~= tprev.take(m as int) + seq![
                pairs@[j as int].1,
            ] + tprev.skip(m as int));
        }
        j = j + 1;
    }
    proof {
        assert(kept.take(pairs@.len() as int) =~= kept);
    }
    let mut out: Vec<String> = Vec::new();
    let mut t: usize = 0;
    while t < sorted.len()
        invariant
            t <= sorted@.len(),
            sorted@.map(|_t: int, q: (u32, String)| q.1) == sort_by_val(kept),
            out@.len() == t as int,
            forall|k: int| 0 <= k < t as int ==> #[trigger] out@[k] == sorted@[k].1,
        decreases sorted@.len() - t,
    {
        out.push(sorted[t].1.clone());
        t = t + 1;
    }
    proof {
        assert(out@ =~= sort_by_val(keep_ipv4(ips@)));
    }
    out
}


/// Text with no slash anywhere.
pub open spec fn has_no_slash(s: Seq<char>) -> bool {
    forall|k: int| 0 <= k < s.len() ==> s[k] != '/'
}

/// `k` is the only slash in `s`.
pub open spec fn single_slash_at(s: Seq<char>, k: int) -> bool {
    0 <= k < s.len() && s[k] == '/' && forall|j: int| 0 <= j < s.len() && j != k ==> s[j] != '/'
}

pub open spec fn has_single_slash(s: Seq<char>) -> bool {
    exists|k: int| single_slash_at(s, k)
}

pub open spec fn slash_of(s: Seq<char>) -> int {
    choose|k: int| single_slash_at(s, k)
}

/// Numeric value of decimal digit text.
pub open spec fn digits_val(d: Seq<char>) -> int
    decreases d.len(),
{
    if d.len() == 0 {
        0
    } else {
        digits_val(d.drop_last()) * 10 + (d.last() as u32 - 48)
    }
}

/// Prefix-length text after the slash: an optional plus sign, then digits,
/// with value at most 32.
pub open spec fn prefix_digits(t: Seq<char>) -> Seq<char> {
    if t.len() >= 1 && t[0] == '+' {
        t.skip(1)
    } else {
        t
    }
}

pub open spec fn prefix_ok(t: Seq<char>) -> bool {
    let d = prefix_digits(t);
    d.len() >= 1 && (forall|k: int| 0 <= k < d.len() ==> is_digit_char(#[trigger] d[k]))
        && digits_val(d) <= 32
}

pub open spec fn prefix_num(t: Seq<char>) -> int {
    digits_val(prefix_digits(t))
}

/// The network mask of a prefix length, as an address value.
pub open spec fn cidr_mask(p: int) -> u32 {
    if p <= 0 {
        0u32
    } else {
        0xFFFFFFFFu32 << ((32 - p) as u32)
    }
}

/// Netmask text after the slash: the canonical text of a mask value.
pub open spec fn mask_ok(t: Seq<char>) -> bool {
    is_ipv4_text(t) && exists|p: int| 0 <= p <= 32 && ipv4_val(t) == cidr_mask(p)
}

pub open spec fn mask_num(t: Seq<char>) -> int {
    choose|p: int| 0 <= p <= 32 && ipv4_val(t) == cidr_mask(p)
}

/// A valid CIDR block: a dotted quad alone (a full-length prefix is
/// implied), or a dotted quad, one slash, and a prefix length or netmask.
pub open spec fn cidr_valid(s: Seq<char>) -> bool {
    if has_no_slash(s) {
        is_ipv4_text(s)
    } else if has_single_slash(s) {
        is_ipv4_text(s.take(slash_of(s))) && (prefix_ok(s.skip(slash_of(s) + 1)) || mask_ok(
            s.skip(slash_of(s) + 1),
        ))
    } else {
        false
    }
}

pub open spec fn cidr_prefix_of(s: Seq<char>) -> int {
    if has_no_slash(s) {
        32
    } else {
        let t = s.skip(slash_of(s) + 1);
        if prefix_ok(t) {
            prefix_num(t)
        } else {
            mask_num(t)
        }
    }
}

pub open spec fn cidr_addr_of(s: Seq<char>) -> u32 {
    if has_no_slash(s) {
        ipv4_val(s)
    } else {
        ipv4_val(s.take(slash_of(s)))
    }
}

/// How many addresses a block of this prefix length holds.
pub open spec fn cidr_size(p: int) -> int {
    (1u64 << ((32 - p) as u64)) as int
}

/// The lowest address of the block: the given address with its host bits
/// cleared.
pub open spec fn cidr_network(a: u32, p: int) -> u32 {
    if p == 0 {
        0u32
    } else {
        (a >> ((32 - p) as u32)) << ((32 - p) as u32)
    }
}

/// The whole block never runs past the last address.
pub proof fn lemma_cidr_bounds(a: u32, p: int)
    requires
        0 <= p <= 32,
    ensures
        1 <= cidr_size(p) <= 0x100000000,
        cidr_network(a, p) as int + cidr_size(p) <= 0x100000000,
{
    if p == 0 {
        assert(1u64 << 32u64 == 0x100000000u64) by (bit_vector);
    } else {
        let sh = (32 - p) as u32;
        assert(sh <= 31);
        let net = (a >> sh) << sh;
        assert(sh <= 31 ==> ((a >> sh) << sh) as u64 + (1u64 << (sh as u64)) <= 0x100000000u64)
            by (bit_vector);
        assert(sh <= 31 ==> 1u64 << (sh as u64) >= 1u64) by (bit_vector);
        assert(sh <= 31 ==> 1u64 << (sh as u64) <= 0x80000000u64) by (bit_vector);
    }
}

proof fn lemma_digits_val_push(d: Seq<char>, c: char)
    ensures
        digits_val(d.push(c)) == digits_val(d) * 10 + (c as u32 - 48),
{
    assert(d.push(c).drop_last() =~= d);
    assert(d.push(c).last() == c);
}

/// Parse prefix-length text: an optional plus sign, then decimal digits
/// whose value is at most 32.
fn parse_prefix(t: &str) -> (r: Option<u8>)
    ensures
        match r {
            Some(p) => prefix_ok(t@) && prefix_num(t@) == p as int && p <= 32,
            None => !prefix_ok(t@),
        },
{
    let n = t.unicode_len();
    let mut st: usize = 0;
    if n >= 1 {
        let c0 = t.get_char(0);
        if c0 == '+' {
            st = 1;
        }
    }
    let ghost d = prefix_digits(t@);
    proof {
        assert(d =~= t@.skip(st as int));
    }
    if n == st {
        return None;
    }
    let mut acc: u32 = 0;
    let mut k: usize = st;
    while k < n
        invariant
            st <= k <= n,
            n == t@.len(),
            d == prefix_digits(t@),
            d == t@.skip(st as int),
            d.len() == n - st,
            forall|j: int| 0 <= j < k - st ==> is_digit_char(#[trigger] d[j]),
            acc == if digits_val(d.take(k - st)) <= 32 {
                digits_val(d.take(k - st))
            } else {
                33int
            },
        decreases n - k,
    {
        let c = t.get_char(k);
        proof {
            assert(d[k - st] == t@[k as int]);
            assert(d.take(k - st + 1).drop_last() =~= d.take(k - st));
            assert(d.take(k - st + 1).last() == d[k - st]);
            lemma_digits_val_push(d.take(k - st), d[k - st]);
        }
        if !crate::text::char_is_digit(c) {
            proof {
                if prefix_ok(t@) {
                    assert(d[k - st] == t@[k as int]);
                    assert(prefix_digits(t@)[k - st] == c);
                    assert(is_digit_char(prefix_digits(t@)[k - st]));
                    assert(false);
                }
            }
            return None;
        }
        let dv = (c as u32) - 48;
        if acc <= 32 {
            acc = acc * 10 + dv;
        }
        if acc > 32 {
            acc = 33;
        }
        k = k + 1;
    }
    proof {
        assert(d.take(n - st) =~= d);
    }
    if acc > 32 {
        return None;
    }
    Some(acc as u8)
}

/// Masks of distinct prefix lengths are distinct values.
proof fn lemma_mask_injective(p1: int, p2: int)
    requires
        0 <= p1 <= 32,
        0 <= p2 <= 32,
        p1 != p2,
    ensures
        cidr_mask(p1) != cidr_mask(p2),
{
    if p1 == 0 || p2 == 0 {
        let q = if p1 == 0 {
            p2
        } else {
            p1
        };
        let sh = (32 - q) as u32;
        assert(sh <= 31 ==> 0xFFFFFFFFu32 << sh != 0u32) by (bit_vector);
    } else {
        let s1 = (32 - p1) as u32;
        let s2 = (32 - p2) as u32;
        assert(s1 <= 31 && s2 <= 31 && s1 != s2 ==> 0xFFFFFFFFu32 << s1 != 0xFFFFFFFFu32 << s2)
            by (bit_vector);
    }
}

/// Parse netmask text: the canonical text of some prefix's mask.
fn parse_mask(t: &str) -> (r: Option<u8>)
    ensures
        match r {
            Some(p) => mask_ok(t@) && mask_num(t@) == p as int && p <= 32,
            None => !mask_ok(t@),
        },
{
    let mv = match parse_ipv4(t) {
        Some(v) => v,
        None => {
            return None;
        },
    };
    let mut p: u8 = 0;
    while p <= 32
        invariant
            p <= 33,
            is_ipv4_text(t@) && ipv4_val(t@) == mv,
            forall|q: int| 0 <= q < p as int ==> cidr_mask(q) != mv,
        decreases 33 - p,
    {
        let m: u32 = if p == 0 {
            0
        } else {
            0xFFFFFFFFu32 << ((32 - p) as u32)
        };
        assert(m == cidr_mask(p as int));
        if m == mv {
            proof {
                assert(0 <= p as int <= 32 && ipv4_val(t@) == cidr_mask(p as int));
                let q = mask_num(t@);
                if q != p as int {
                    lemma_mask_injective(q, p as int);
                }
            }
            return Some(p);
        }
        p = p + 1;
    }
    proof {
        if mask_ok(t@) {
            let q = choose|q: int| 0 <= q <= 32 && ipv4_val(t@) == cidr_mask(q);
            assert(cidr_mask(q) != mv);
        }
    }
    None
}

/// Parse CIDR text into its base address and prefix length.
pub fn parse_cidr(cidr: &str) -> (r: Option<(u32, u8)>)
    ensures
        match r {
            Some(ap) => cidr_valid(cidr@) && ap.0 == cidr_addr_of(cidr@) && ap.1 as int
                == cidr_prefix_of(cidr@) && ap.1 <= 32,
            None => !cidr_valid(cidr@),
        },
{
    let n = cidr.unicode_len();
    let mut slashes: Vec<usize> = Vec::new();
    let mut i: usize = 0;
    while i < n
        invariant
            i <= n,
            n == cidr@.len(),
            forall|t: int| 0 <= t < slashes@.len() ==> #[trigger] slashes@[t] < i,
            forall|t: int| 0 <= t < slashes@.len() ==> cidr@[#[trigger] slashes@[t] as int] == '/',
            forall|t1: int, t2: int|
                0 <= t1 < t2 < slashes@.len() ==> #[trigger] slashes@[t1] < #[trigger] slashes@[t2],
            forall|j: int|
                0 <= j < i && cidr@[j] == '/' ==> exists|t: int|
                    0 <= t < slashes@.len() && #[trigger] slashes@[t] == j,
        decreases n - i,
    {
        let c = cidr.get_char(i);
        if c == '/' {
            let ghost prevsl = slashes@;
            slashes.push(i);
            proof {
                assert forall|j: int| 0 <= j < i + 1 && cidr@[j] == '/' implies exists|t: int|
                    0 <= t < slashes@.len() && #[trigger] slashes@[t] == j by {
                    if j < i {
                        let t = choose|t: int| 0 <= t < prevsl.len() && prevsl[t] == j;
                        assert(slashes@[t] == j);
                    } else {
                        assert(slashes@[slashes@.len() - 1] == i);
                    }
                }
            }
        }
        i = i + 1;
    }
    if slashes.len() == 0 {
        assert(has_no_slash(cidr@));
        match parse_ipv4(cidr) {
            Some(v) => Some((v, 32)),
            None => None,
        }
    } else if slashes.len() == 1 {
        let k = slashes[0];
        proof {
            assert(single_slash_at(cidr@, k as int));
            assert(!has_no_slash(cidr@));
            let k2 = slash_of(cidr@);
            if k2 != k as int {
                assert(cidr@[k2] == '/');
                assert(false);
            }
        }
        let addr_s = cidr.substring_char(0, k);
        let suf = cidr.substring_char(k + 1, n);
        proof {
            assert(addr_s@ =~= cidr@.take(k as int));
            assert(suf@ =~= cidr@.skip(k as int + 1));
        }
        let a = match parse_ipv4(addr_s) {
            Some(v) => v,
            None => {
                return None;
            },
        };
        match parse_prefix(suf) {
            Some(p) => Some((a, p)),
            None => {
                match parse_mask(suf) {
                    Some(p) => Some((a, p)),
                    None => None,
                }
            },
        }
    } else {
        proof {
            assert(cidr@[slashes@[0] as int] == '/');
            assert(!has_no_slash(cidr@));
            if has_single_slash(cidr@) {
                let k2 = slash_of(cidr@);
                assert(single_slash_at(cidr@, k2));
                if slashes@[0] as int != k2 {
                    assert(cidr@[slashes@[0] as int] != '/');
                } else {
                    assert(slashes@[0] < slashes@[1]);
                    assert(cidr@[slashes@[1] as int] != '/');
                }
                assert(false);
            }
        }
        None
    }
}

/// The addresses of a block, lowest first, as canonical texts.
pub open spec fn cidr_all(a: u32, p: int) -> Seq<Seq<char>> {
    Seq::new(
        cidr_size(p) as nat,
        |i: int| ipv4_chars((cidr_network(a, p) as int + i) as u32),
    )
}

/// The host addresses of a block: all of them when the block holds at most
/// two, else all but the network and broadcast addresses.
pub open spec fn cidr_hosts(a: u32, p: int) -> Seq<Seq<char>> {
    if cidr_size(p) <= 2 {
        cidr_all(a, p)
    } else {
        cidr_all(a, p).subrange(1, cidr_size(p) - 1)
    }
}

/// Sequence of strings spelling a model sequence of texts.
pub open spec fn texts_match(out: Seq<String>, model: Seq<Seq<char>>) -> bool {
    out.len() == model.len() && forall|i: int| 0 <= i < out.len() ==> #[trigger] out[i]@ == model[i]
}

/// Push the texts of `size` consecutive addresses starting at `base`.
fn expand_span(base: u32, size: u64) -> (out: Vec<String>)
    requires
        base as int + size as int <= 0x100000000,
    ensures
        out@.len() == size as int,
        forall|i: int| 0 <= i < size as int ==> #[trigger] out@[i]@ == ipv4_chars((base + i) as u32),
{
    let mut out: Vec<String> = Vec::new();
    let mut k: u64 = 0;
    while k < size
        invariant
            k <= size,
            base as int + size as int <= 0x100000000,
            out@.len() == k as int,
            forall|i: int| 0 <= i < k as int ==> #[trigger] out@[i]@ == ipv4_chars((base + i) as u32),
        decreases size - k,
    {
        let v: u32 = ((base as u64) + k) as u32;
        assert(v as int == base as int + k as int);
        out.push(format_ipv4(v));
        k = k + 1;
    }
    out
}

/// Expand a CIDR block to every address it holds, network and broadcast
/// included, in ascending order.
pub fn expand_cidr(cidr: &str) -> (r: Result<Vec<String>, NetError>)
    ensures
        r matches Ok(_) <==> cidr_valid(cidr@),
        r matches Ok(out) ==> texts_match(
            out@,
            cidr_all(cidr_addr_of(cidr@), cidr_prefix_of(cidr@)),
        ),
        r matches Err(e) ==> e == NetError::InvalidInput,
{
    match parse_cidr(cidr) {
        None => Err(NetError::InvalidInput),
        Some((a, p)) => {
            proof {
                lemma_cidr_bounds(a, p as int);
            }
            let sh: u64 = 32 - (p as u64);
            let size: u64 = 1u64 << sh;
            assert(size as int == cidr_size(p as int));
            let net: u32 = if p == 0 {
                0
            } else {
                (a >> (32 - p as u32)) << (32 - p as u32)
            };
            assert(net == cidr_network(a, p as int));
            let out = expand_span(net, size);
            Ok(out)
        },
    }
}

/// Expand a CIDR block to its host addresses: the whole block when it
/// holds at most two addresses, else everything between the network and
/// broadcast addresses.
pub fn expand_cidr_hosts(cidr: &str) -> (r: Result<Vec<String>, NetError>)
    ensures
        r matches Ok(_) <==> cidr_valid(cidr@),
        r matches Ok(out) ==> texts_match(
            out@,
            cidr_hosts(cidr_addr_of(cidr@), cidr_prefix_of(cidr@)),
        ),
        r matches Err(e) ==> e == NetError::InvalidInput,
{
    match parse_cidr(cidr) {
        None => Err(NetError::InvalidInput),
        Some((a, p)) => {
            proof {
                lemma_cidr_bounds(a, p as int);
            }
            let sh: u64 = 32 - (p as u64);
            let size: u64 = 1u64 << sh;
            assert(size as int == cidr_size(p as int));
            let net: u32 = if p == 0 {
                0
            } else {
                (a >> (32 - p as u32)) << (32 - p as u32)
            };
            assert(net == cidr_network(a, p as int));
            if size <= 2 {
                let out = expand_span(net, size);
                Ok(out)
            } else {
                let base: u32 = ((net as u64) + 1) as u32;
                let out = expand_span(base, size - 2);
                proof {
                    let model = cidr_hosts(cidr_addr_of(cidr@), cidr_prefix_of(cidr@));
                    assert forall|i: int| 0 <= i < out@.len() implies #[trigger] out@[i]@
                        == model[i] by {
                        assert(out@[i]@ == ipv4_chars((base + i) as u32));
                        assert(model[i] == ipv4_chars((net as int + (i + 1)) as u32));
                        assert(base as int + i == net as int + (i + 1));
                    }
                }
                Ok(out)
            }
        },
    }
}

/// The host list is the address list with exactly the network and
/// broadcast texts removed when the block holds more than two addresses,
/// and the whole list otherwise.
pub proof fn lemma_cidr_hosts_in_all(a: u32, p: int)
    requires
        0 <= p <= 32,
    ensures
        ({
            let all = cidr_all(a, p);
            let hosts = cidr_hosts(a, p);
            let size = cidr_size(p);
            let net = cidr_network(a, p);
            let bcast_text = ipv4_chars((net as int + size - 1) as u32);
            let net_text = ipv4_chars(net);
            &&& forall|x: Seq<char>| hosts.contains(x) ==> all.contains(x)
            &&& size <= 2 ==> hosts == all
            &&& size > 2 ==> hosts.len() == size - 2 && (forall|i: int|
                0 <= i < hosts.len() ==> #[trigger] hosts[i] == all[i + 1])
            &&& size > 2 ==> (forall|x: Seq<char>|
                all.contains(x) <==> (hosts.contains(x) || x == net_text || x == bcast_text))
            &&& size > 2 ==> !hosts.contains(net_text) && !hosts.contains(bcast_text)
        }),
{
    lemma_cidr_bounds(a, p);
    let all = cidr_all(a, p);
    let hosts = cidr_hosts(a, p);
    let size = cidr_size(p);
    let net = cidr_network(a, p);
    let bcast_text = ipv4_chars((net as int + size - 1) as u32);
    let net_text = ipv4_chars(net);
    assert forall|x: Seq<char>| hosts.contains(x) implies all.contains(x) by {
        let i = choose|i: int| 0 <= i < hosts.len() && hosts[i] == x;
        if size <= 2 {
            assert(all[i] == x);
        } else {
            assert(all[i + 1] == x);
        }
    }
    if size > 2 {
        assert forall|x: Seq<char>|
            all.contains(x) <==> (hosts.contains(x) || x == net_text || x == bcast_text) by {
            if all.contains(x) {
                let i = choose|i: int| 0 <= i < all.len() && all[i] == x;
                if i == 0 {
                    assert(x == net_text);
                } else if i == size - 1 {
                    assert(x == bcast_text);
                } else {
                    assert(hosts[i - 1] == x);
                    assert(hosts.contains(x));
                }
            }
            if hosts.contains(x) {
                assert(all.contains(x));
            }
            if x == net_text {
                assert(all[0] == x);
                assert(all.contains(x));
            }
            if x == bcast_text {
                assert(all[size - 1] == x);
                assert(all.contains(x));
            }
        }
        assert forall|i: int| 0 <= i < hosts.len() implies hosts[i] != net_text && hosts[i]
            != bcast_text by {
            assert(hosts[i] == ipv4_chars((net as int + i + 1) as u32));
            let vi = (net as int + i + 1) as u32;
            assert(vi as int == net as int + i + 1);
            if hosts[i] == net_text {
                lemma_ipv4_chars_injective(vi, net);
                assert(false);
            }
            let bv = (net as int + size - 1) as u32;
            assert(bv as int == net as int + size - 1);
            if hosts[i] == bcast_text {
                lemma_ipv4_chars_injective(vi, bv);
                assert(false);
            }
        }
        if hosts.contains(net_text) {
            let i = choose|i: int| 0 <= i < hosts.len() && hosts[i] == net_text;
            assert(false);
        }
        if hosts.contains(bcast_text) {
            let i = choose|i: int| 0 <= i < hosts.len() && hosts[i] == bcast_text;
            assert(false);
        }
    }
}


/// Ascending numeric order over address texts.
pub open spec fn sorted_vals(t: Seq<String>) -> bool {
    forall|i: int, j: int|
        0 <= i < j < t.len() ==> ipv4_val(#[trigger] t[i]@) <= ipv4_val(#[trigger] t[j]@)
}

proof fn lemma_insert_by_val_bound(t: Seq<String>, x: String, b: u32)
    requires
        forall|k: int| 0 <= k < t.len() ==> ipv4_val(#[trigger] t[k]@) <= b,
        ipv4_val(x@) <= b,
    ensures
        insert_by_val(t, x).len() == t.len() + 1,
        forall|k: int|
            0 <= k < insert_by_val(t, x).len() ==> ipv4_val(#[trigger] insert_by_val(t, x)[k]@)
                <= b,
    decreases t.len(),
{
    if t.len() > 0 && !(ipv4_val(t.last()@) <= ipv4_val(x@)) {
        lemma_insert_by_val_bound(t.drop_last(), x, b);
    }
}

proof fn lemma_insert_by_val_multiset(t: Seq<String>, x: String)
    ensures
        insert_by_val(t, x).to_multiset() == t.to_multiset().insert(x),
    decreases t.len(),
{
    broadcast use vstd::seq_lib::group_to_multiset_ensures;

    if t.len() == 0 {
        assert(insert_by_val(t, x) =~= Seq::<String>::empty().push(x));
        assert(t =~= Seq::<String>::empty());
    } else if ipv4_val(t.last()@) <= ipv4_val(x@) {
        assert(insert_by_val(t, x) =~= t.push(x));
    } else {
        lemma_insert_by_val_multiset(t.drop_last(), x);
        assert(insert_by_val(t, x) =~= insert_by_val(t.drop_last(), x).push(t.last()));
        assert(t =~= t.drop_last().push(t.last()));
        assert(insert_by_val(t, x).to_multiset() =~= t.to_multiset().insert(x));
    }
}

proof fn lemma_insert_by_val_keeps_sorted(t: Seq<String>, x: String)
    requires
        sorted_vals(t),
    ensures
        sorted_vals(insert_by_val(t, x)),
    decreases t.len(),
{
    if t.len() == 0 {
    } else if ipv4_val(t.last()@) <= ipv4_val(x@) {
        let r = t + seq![x];
        assert forall|i: int, j: int|
            0 <= i < j < r.len() implies ipv4_val(#[trigger] r[i]@) <= ipv4_val(
            #[trigger] r[j]@,
        ) by {
            if j < t.len() {
                assert(r[i] == t[i] && r[j] == t[j]);
            } else {
                assert(r[i] == t[i] && r[j] == x);
                assert(ipv4_val(t[i]@) <= ipv4_val(t.last()@));
            }
        }
    } else {
        lemma_insert_by_val_keeps_sorted(t.drop_last(), x);
        lemma_insert_by_val_bound(t.drop_last(), x, ipv4_val(t.last()@));
        let p = insert_by_val(t.drop_last(), x);
        let r = p + seq![t.last()];
        assert forall|i: int, j: int|
            0 <= i < j < r.len() implies ipv4_val(#[trigger] r[i]@) <= ipv4_val(
            #[trigger] r[j]@,
        ) by {
            if j < p.len() {
                assert(r[i] == p[i] && r[j] == p[j]);
            } else {
                assert(r[i] == p[i] && r[j] == t.last());
            }
        }
    }
}

/// What the numeric sort promises of any batch: its result is in
/// ascending numeric order, and it is a permutation of the kept (parsed)
/// entries.
pub proof fn lemma_sort_by_val_correct(s: Seq<String>)
    ensures
        sorted_vals(sort_by_val(s)),
        sort_by_val(s).to_multiset() == s.to_multiset(),
    decreases s.len(),
{
    broadcast use vstd::seq_lib::group_to_multiset_ensures;

    if s.len() > 0 {
        lemma_sort_by_val_correct(s.drop_last());
        lemma_insert_by_val_keeps_sorted(sort_by_val(s.drop_last()), s.last());
        lemma_insert_by_val_multiset(sort_by_val(s.drop_last()), s.last());
        assert(s =~= s.drop_last().push(s.last()));
        assert(sort_by_val(s).to_multiset() =~= s.to_multiset());
    }
}

} // verus!
