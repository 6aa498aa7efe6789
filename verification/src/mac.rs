//! MAC-address canonicalization: arbitrary MAC text is normalized to the
//! uppercase colon-delimited form `XX:XX:XX:XX:XX:XX`, and the OUI (vendor
//! prefix) `XX:XX:XX` is derived from it.
//!
//! Inputs that do not carry enough hexadecimal digits are returned
//! uppercased but otherwise unchanged: a degraded fallback, never a failure.

use vstd::prelude::*;

use crate::text::{
    bytes_as_chars, char_is_hex, hex_upper_byte, is_hex_char, lemma_upper_char_hex,
    lemma_upper_char_idempotent, string_from_ascii, to_upper, upper_char, upper_seq,
};

verus! {

/// The hexadecimal digits of `s`, in order, uppercased; every other
/// character is discarded.
pub open spec fn hex_upper(s: Seq<char>) -> Seq<char>
    decreases s.len(),
{
    if s.len() == 0 {
        Seq::<char>::empty()
    } else {
        hex_upper(s.drop_last()) + if is_hex_char(s.last()) {
            seq![upper_char(s.last())]
        } else {
            Seq::<char>::empty()
        }
    }
}

/// Hex digits joined into two-digit groups separated by colons; a trailing
/// group may be shorter when the digit count is odd.
pub open spec fn colon_grouped(h: Seq<char>) -> Seq<char>
    decreases h.len(),
{
    if h.len() <= 2 {
        h
    } else {
        h.take(2) + seq![':'] + colon_grouped(h.skip(2))
    }
}

/// The first twelve uppercased hex digits of `s` (all of them if fewer).
pub open spec fn hex_upper12(s: Seq<char>) -> Seq<char> {
    if hex_upper(s).len() >= 12 {
        hex_upper(s).take(12)
    } else {
        hex_upper(s)
    }
}

/// Canonicalization of MAC text. With at least eleven recoverable hex
/// digits, the first (up to) twelve are uppercased and joined into
/// colon-separated two-digit groups; with fewer, the input is returned
/// uppercased and otherwise unchanged (the degraded fallback).
pub open spec fn normalize_spec(s: Seq<char>) -> Seq<char> {
    if hex_upper(s).len() <= 10 {
        upper_seq(s)
    } else {
        colon_grouped(hex_upper12(s))
    }
}

/// The OUI prefix: the first eight characters (three octet groups) of the
/// canonical form when it is at least that long, else the canonical form
/// itself.
pub open spec fn oui_spec(s: Seq<char>) -> Seq<char> {
    if normalize_spec(s).len() >= 8 {
        normalize_spec(s).take(8)
    } else {
        normalize_spec(s)
    }
}

proof fn lemma_hex_upper_push(s: Seq<char>, c: char)
    ensures
        is_hex_char(c) ==> hex_upper(s.push(c)) == hex_upper(s) + seq![upper_char(c)],
        !is_hex_char(c) ==> hex_upper(s.push(c)) == hex_upper(s),
{
    assert(s.push(c).drop_last() =~= s);
    assert(s.push(c).last() == c);
    if !is_hex_char(c) {
        assert(hex_upper(s.push(c)) =~= hex_upper(s));
    }
}

/// Splitting an even number of digits off the front commutes with grouping.
proof fn lemma_colon_grouped_split(h: Seq<char>, j: int)
    requires
        0 < j < h.len(),
        j % 2 == 0,
    ensures
        colon_grouped(h) == colon_grouped(h.take(j)) + seq![':'] + colon_grouped(h.skip(j)),
    decreases j,
{
    if j == 2 {
        assert(colon_grouped(h.take(2)) == h.take(2));
    } else {
        lemma_colon_grouped_split(h.skip(2), j - 2);
        assert(h.skip(2).take(j - 2) =~= h.take(j).skip(2));
        assert(h.skip(2).skip(j - 2) =~= h.skip(j));
        assert(h.take(j).take(2) =~= h.take(2));
        assert(colon_grouped(h.take(j)) == h.take(2) + seq![':'] + colon_grouped(h.take(j).skip(2)));
    }
}

proof fn lemma_hex_upper_all_fixed(s: Seq<char>)
    ensures
        forall|k: int|
            0 <= k < hex_upper(s).len() ==> is_hex_char(#[trigger] hex_upper(s)[k])
                && upper_char(hex_upper(s)[k]) == hex_upper(s)[k],
    decreases s.len(),
{
    if s.len() > 0 {
        lemma_hex_upper_all_fixed(s.drop_last());
        if is_hex_char(s.last()) {
            lemma_upper_char_hex(s.last());
            lemma_upper_char_idempotent(s.last());
        }
        let hu = hex_upper(s);
        let hud = hex_upper(s.drop_last());
        assert forall|k: int| 0 <= k < hu.len() implies is_hex_char(#[trigger] hu[k])
            && upper_char(hu[k]) == hu[k] by {
            if k < hud.len() {
                assert(hu[k] == hud[k]);
            } else {
                assert(hu[k] == upper_char(s.last()));
            }
        }
    }
}

proof fn lemma_hex_upper_of_upper(s: Seq<char>)
    ensures
        hex_upper(upper_seq(s)) == hex_upper(s),
    decreases s.len(),
{
    if s.len() == 0 {
        assert(hex_upper(upper_seq(s)) =~= hex_upper(s));
    } else {
        lemma_hex_upper_of_upper(s.drop_last());
        assert(upper_seq(s).drop_last() =~= upper_seq(s.drop_last()));
        assert(upper_seq(s).last() == upper_char(s.last()));
        lemma_upper_char_hex(s.last());
        lemma_upper_char_idempotent(s.last());
        assert(hex_upper(upper_seq(s)) =~= hex_upper(s));
    }
}

proof fn lemma_hex_upper_fixed_seq(h: Seq<char>)
    requires
        forall|k: int|
            0 <= k < h.len() ==> is_hex_char(#[trigger] h[k]) && upper_char(h[k]) == h[k],
    ensures
        hex_upper(h) == h,
    decreases h.len(),
{
    if h.len() == 0 {
        assert(hex_upper(h) =~= h);
    } else {
        lemma_hex_upper_fixed_seq(h.drop_last());
        assert(hex_upper(h) =~= h);
    }
}

proof fn lemma_hex_upper_append(a: Seq<char>, b: Seq<char>)
    ensures
        hex_upper(a + b) == hex_upper(a) + hex_upper(b),
    decreases b.len(),
{
    if b.len() == 0 {
        assert(a + b =~= a);
        assert(hex_upper(a) + hex_upper(b) =~= hex_upper(a));
    } else {
        lemma_hex_upper_append(a, b.drop_last());
        assert((a + b).drop_last() =~= a + b.drop_last());
        assert((a + b).last() == b.last());
        assert(hex_upper(a + b) =~= hex_upper(a) + hex_upper(b));
    }
}

proof fn lemma_hex_upper_grouped(h: Seq<char>)
    requires
        forall|k: int|
            0 <= k < h.len() ==> is_hex_char(#[trigger] h[k]) && upper_char(h[k]) == h[k],
    ensures
        hex_upper(colon_grouped(h)) == h,
    decreases h.len(),
{
    if h.len() <= 2 {
        lemma_hex_upper_fixed_seq(h);
    } else {
        lemma_hex_upper_grouped(h.skip(2));
        lemma_hex_upper_append(h.take(2), seq![':']);
        lemma_hex_upper_append(h.take(2) + seq![':'], colon_grouped(h.skip(2)));
        lemma_hex_upper_fixed_seq(h.take(2));
        assert(hex_upper(Seq::<char>::empty()) =~= Seq::<char>::empty());
        assert(seq![':'].drop_last() =~= Seq::<char>::empty());
        assert(hex_upper(seq![':']) =~= Seq::<char>::empty());
        assert(hex_upper(colon_grouped(h)) =~= h.take(2) + h.skip(2));
        assert(h.take(2) + h.skip(2) =~= h);
    }
}

/// Canonicalization is idempotent: normalizing an already-normalized MAC
/// string, whatever the original input was, changes nothing.
pub proof fn lemma_normalize_idempotent(s: Seq<char>)
    ensures
        normalize_spec(normalize_spec(s)) == normalize_spec(s),
{
    let h = hex_upper(s);
    if h.len() <= 10 {
        let r = upper_seq(s);
        lemma_hex_upper_of_upper(s);
        assert(normalize_spec(r) == upper_seq(r));
        assert forall|k: int| 0 <= k < upper_seq(r).len() implies upper_seq(r)[k] == r[k] by {
            lemma_upper_char_idempotent(s[k]);
        }
        assert(upper_seq(r) =~= r);
    } else {
        let h12 = hex_upper12(s);
        let r = colon_grouped(h12);
        lemma_hex_upper_all_fixed(s);
        assert(forall|k: int|
            0 <= k < h12.len() ==> is_hex_char(#[trigger] h12[k]) && upper_char(h12[k])
                == h12[k]);
        lemma_hex_upper_grouped(h12);
        assert(hex_upper(r) == h12);
        assert(11 <= h12.len() <= 12);
        if h12.len() == 12 {
            assert(hex_upper12(r) =~= h12);
        } else {
            assert(hex_upper12(r) == h12);
        }
    }
}


/// The canonical shape `XX:XX:XX:XX:XX:XX`, case-insensitive.
pub open spec fn canonical_pattern(s: Seq<char>) -> bool {
    s.len() == 17 && forall|i: int|
        0 <= i < 17 ==> if i % 3 == 2 {
            s[i] == ':'
        } else {
            is_hex_char(#[trigger] s[i])
        }
}

proof fn lemma_hex_upper_pair(a: char, b: char)
    requires
        is_hex_char(a),
        is_hex_char(b),
    ensures
        hex_upper(seq![a, b]) == seq![upper_char(a), upper_char(b)],
{
    assert(hex_upper(Seq::<char>::empty()) =~= Seq::<char>::empty());
    assert(seq![a].drop_last() =~= Seq::<char>::empty());
    assert(hex_upper(seq![a]) =~= seq![upper_char(a)]);
    assert(seq![a, b].drop_last() =~= seq![a]);
    assert(hex_upper(seq![a, b]) =~= seq![upper_char(a), upper_char(b)]);
}

/// Already-canonical MAC text is reproduced with its letters uppercased:
/// the shape survives and nothing else changes.
pub proof fn lemma_canonical_fast_path(s: Seq<char>)
    requires
        canonical_pattern(s),
    ensures
        normalize_spec(s) == upper_seq(s),
{
    let u0 = seq![upper_char(s[0]), upper_char(s[1])];
    let u1 = seq![upper_char(s[3]), upper_char(s[4])];
    let u2 = seq![upper_char(s[6]), upper_char(s[7])];
    let u3 = seq![upper_char(s[9]), upper_char(s[10])];
    let u4 = seq![upper_char(s[12]), upper_char(s[13])];
    let u5 = seq![upper_char(s[15]), upper_char(s[16])];
    let c = seq![':'];
    let p0 = seq![s[0], s[1]];
    let p1 = seq![s[3], s[4]];
    let p2 = seq![s[6], s[7]];
    let p3 = seq![s[9], s[10]];
    let p4 = seq![s[12], s[13]];
    let p5 = seq![s[15], s[16]];
    assert(s =~= p0 + c + p1 + c + p2 + c + p3 + c + p4 + c + p5);
    assert(hex_upper(c) =~= Seq::<char>::empty()) by {
        assert(c.drop_last() =~= Seq::<char>::empty());
        assert(hex_upper(Seq::<char>::empty()) =~= Seq::<char>::empty());
    }
    lemma_hex_upper_pair(s[0], s[1]);
    lemma_hex_upper_pair(s[3], s[4]);
    lemma_hex_upper_pair(s[6], s[7]);
    lemma_hex_upper_pair(s[9], s[10]);
    lemma_hex_upper_pair(s[12], s[13]);
    lemma_hex_upper_pair(s[15], s[16]);
    lemma_hex_upper_append(p0, c);
    lemma_hex_upper_append(p0 + c, p1);
    lemma_hex_upper_append(p0 + c + p1, c);
    lemma_hex_upper_append(p0 + c + p1 + c, p2);
    lemma_hex_upper_append(p0 + c + p1 + c + p2, c);
    lemma_hex_upper_append(p0 + c + p1 + c + p2 + c, p3);
    lemma_hex_upper_append(p0 + c + p1 + c + p2 + c + p3, c);
    lemma_hex_upper_append(p0 + c + p1 + c + p2 + c + p3 + c, p4);
    lemma_hex_upper_append(p0 + c + p1 + c + p2 + c + p3 + c + p4, c);
    lemma_hex_upper_append(p0 + c + p1 + c + p2 + c + p3 + c + p4 + c, p5);
    let h = hex_upper(s);
    assert(h =~= u0 + u1 + u2 + u3 + u4 + u5);
    assert(h.len() == 12);
    assert(hex_upper12(s) =~= h);
    assert(colon_grouped(h) =~= h.take(2) + c + colon_grouped(h.skip(2)));
    let r1 = h.skip(2);
    assert(r1 =~= u1 + u2 + u3 + u4 + u5);
    assert(colon_grouped(r1) =~= r1.take(2) + c + colon_grouped(r1.skip(2)));
    let r2 = r1.skip(2);
    assert(r2 =~= u2 + u3 + u4 + u5);
    assert(colon_grouped(r2) =~= r2.take(2) + c + colon_grouped(r2.skip(2)));
    let r3 = r2.skip(2);
    assert(r3 =~= u3 + u4 + u5);
    assert(colon_grouped(r3) =~= r3.take(2) + c + colon_grouped(r3.skip(2)));
    let r4 = r3.skip(2);
    assert(r4 =~= u4 + u5);
    assert(colon_grouped(r4) =~= r4.take(2) + c + colon_grouped(r4.skip(2)));
    let r5 = r4.skip(2);
    assert(r5 =~= u5);
    assert(colon_grouped(r5) == r5);
    assert(colon_grouped(h) =~= u0 + c + u1 + c + u2 + c + u3 + c + u4 + c + u5);
    assert(upper_char(':') == ':');
    assert(upper_seq(s) =~= u0 + c + u1 + c + u2 + c + u3 + c + u4 + c + u5);
}

/// Normalize a MAC address to uppercase colon-separated form.
pub fn normalize_mac(mac: &str) -> (r: String)
    ensures
        r@ == normalize_spec(mac@),
{
    let n = mac.unicode_len();
    let mut hex: Vec<u8> = Vec::new();
    let mut count: usize = 0;
    let mut i: usize = 0;
    while i < n
        invariant
            i <= n,
            n == mac@.len(),
            count == hex_upper(mac@.take(i as int)).len(),
            count <= i,
            hex@.len() == if count < 12 {
                count as int
            } else {
                12
            },
            bytes_as_chars(hex@) == hex_upper(mac@.take(i as int)).take(hex@.len() as int),
            forall|k: int| 0 <= k < hex@.len() ==> hex@[k] < 128,
        decreases n - i,
    {
        let ghost pre = hex_upper(mac@.take(i as int));
        let c = mac.get_char(i);
        proof {
            assert(mac@.take(i as int + 1) =~= mac@.take(i as int).push(mac@[i as int]));
            lemma_hex_upper_push(mac@.take(i as int), mac@[i as int]);
        }
        if char_is_hex(c) {
            assert(hex_upper(mac@.take(i as int + 1)) == pre + seq![upper_char(c)]);
            if hex.len() < 12 {
                let ghost prev = hex@;
                let b = hex_upper_byte(c);
                hex.push(b);
                proof {
                    assert(bytes_as_chars(prev) =~= pre);
                    assert forall|k: int| 0 <= k < hex@.len() implies bytes_as_chars(
                        hex@,
                    )[k] == (pre + seq![upper_char(c)])[k] by {
                        if k < prev.len() {
                            assert(bytes_as_chars(hex@)[k] == prev[k] as char);
                            assert(bytes_as_chars(prev)[k] == prev[k] as char);
                        } else {
                            assert(hex@[k] == b);
                        }
                    }
                    assert(bytes_as_chars(hex@) =~= (pre + seq![upper_char(c)]).take(
                        hex@.len() as int,
                    ));
                }
            } else {
                proof {
                    assert(bytes_as_chars(hex@) =~= (pre + seq![upper_char(c)]).take(
                        hex@.len() as int,
                    ));
                }
            }
            count = count + 1;
        }
        i = i + 1;
    }
    proof {
        assert(mac@.take(n as int) =~= mac@);
    }
    if count <= 10 {
        return to_upper(mac);
    }
    proof {
        assert(bytes_as_chars(hex@) =~= hex_upper12(mac@));
    }
    let ghost h = bytes_as_chars(hex@);
    let mut out: Vec<u8> = Vec::new();
    let mut j: usize = 0;
    while j < hex.len()
        invariant
            j <= hex@.len(),
            j % 2 == 0 || j == hex@.len(),
            11 <= hex@.len() <= 12,
            h == bytes_as_chars(hex@),
            forall|k: int| 0 <= k < hex@.len() ==> hex@[k] < 128,
            bytes_as_chars(out@) == colon_grouped(h.take(j as int)),
            forall|k: int| 0 <= k < out@.len() ==> out@[k] < 128,
        decreases hex@.len() - j,
    {
        let ghost jj = j as int;
        if j > 0 {
            out.push(58);
        }
        let b0 = hex[j];
        out.push(b0);
        let mut step: usize = 1;
        if j + 1 < hex.len() {
            let b1 = hex[j + 1];
            out.push(b1);
            step = 2;
        }
        proof {
            let j2 = jj + step;
            let piece = h.take(j2).skip(jj);
            assert(piece.len() <= 2);
            assert(colon_grouped(piece) == piece);
            if jj == 0 {
                assert(h.take(j2).take(jj) =~= Seq::<char>::empty());
                assert(piece =~= h.take(j2));
                assert(bytes_as_chars(out@) =~= colon_grouped(h.take(j2)));
            } else {
                lemma_colon_grouped_split(h.take(j2), jj);
                assert(h.take(j2).take(jj) =~= h.take(jj));
                assert(bytes_as_chars(out@) =~= colon_grouped(h.take(jj)) + seq![':'] + piece);
                assert(bytes_as_chars(out@) =~= colon_grouped(h.take(j2)));
            }
        }
        j = j + step;
    }
    proof {
        assert(h.take(hex@.len() as int) =~= hex_upper12(mac@));
    }
    string_from_ascii(out)
}

/// Extract the OUI (vendor prefix) of a MAC address: the first three
/// canonical octet groups, `XX:XX:XX`.
pub fn extract_oui(mac: &str) -> (r: String)
    ensures
        r@ == oui_spec(mac@),
{
    let normalized = normalize_mac(mac);
    let len = normalized.as_str().unicode_len();
    if len >= 8 {
        let prefix = normalized.as_str().substring_char(0, 8);
        prefix.to_owned()
    } else {
        normalized
    }
}

/// Normalize every MAC address of a batch; the output order matches the
/// input order, each element depending on its input alone.
pub fn normalize_macs(macs: &Vec<String>) -> (r: Vec<String>)
    ensures
        r@.len() == macs@.len(),
        forall|i: int| 0 <= i < macs@.len() ==> #[trigger] r@[i]@ == normalize_spec(macs@[i]@),
{
    let mut out: Vec<String> = Vec::new();
    let mut i: usize = 0;
    while i < macs.len()
        invariant
            i <= macs@.len(),
            out@.len() == i as int,
            forall|k: int| 0 <= k < i as int ==> #[trigger] out@[k]@ == normalize_spec(macs@[k]@),
        decreases macs@.len() - i,
    {
        let m = normalize_mac(macs[i].as_str());
        out.push(m);
        i = i + 1;
    }
    out
}

} // verus!
