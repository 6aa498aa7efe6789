//! Vendor (OUI) database: ingests registry text of the form
//! `<hex-triplet> (hex) <vendor name>` line by line into a prefix-keyed
//! map, and answers single and batch lookups. The map is keyed by the
//! 24-bit value of the prefix; the canonical prefix text and that key
//! determine each other.

use std::collections::HashMap;
use vstd::prelude::*;

use crate::mac::{extract_oui, oui_spec};
use crate::text::{char_is_hex, is_digit_char, is_hex_char};

verus! {

broadcast use vstd::std_specs::hash::group_hash_axioms;

/// Numeric value of a hexadecimal digit, either case.
pub open spec fn hex_val(c: char) -> int {
    if is_digit_char(c) {
        c as u32 - 48
    } else if 97 <= c as u32 && c as u32 <= 102 {
        c as u32 - 87
    } else {
        c as u32 - 55
    }
}

/// Uppercase hexadecimal digit.
pub open spec fn is_upper_hex(c: char) -> bool {
    is_digit_char(c) || (65 <= c as u32 && c as u32 <= 70)
}

/// Canonical OUI text: `XX:XX:XX` with uppercase hex digits.
pub open spec fn oui_text_ok(s: Seq<char>) -> bool {
    s.len() == 8 && s[2] == ':' && s[5] == ':' && is_upper_hex(s[0]) && is_upper_hex(s[1])
        && is_upper_hex(s[3]) && is_upper_hex(s[4]) && is_upper_hex(s[6]) && is_upper_hex(s[7])
}

/// The 24-bit key of an OUI given its six hex digits.
pub open spec fn oui_key6(h0: char, h1: char, h2: char, h3: char, h4: char, h5: char) -> int {
    hex_val(h0) * 0x100000 + hex_val(h1) * 0x10000 + hex_val(h2) * 0x1000 + hex_val(h3) * 0x100
        + hex_val(h4) * 0x10 + hex_val(h5)
}

/// The 24-bit key of canonical OUI text.
pub open spec fn oui_key_of(s: Seq<char>) -> int {
    oui_key6(s[0], s[1], s[3], s[4], s[6], s[7])
}

/// Line-level whitespace.
pub open spec fn is_ws(c: char) -> bool {
    c == ' ' || c == '\t' || c == '\r' || c as u32 == 11 || c as u32 == 12
}

/// First position at or after `i` that is not whitespace (or the end).
pub open spec fn skip_ws(s: Seq<char>, i: int) -> int
    decreases s.len() - i,
{
    if i < 0 {
        i
    } else if i >= s.len() || !is_ws(s[i]) {
        i
    } else {
        skip_ws(s, i + 1)
    }
}

/// Position one past the last non-whitespace character before `j`.
pub open spec fn rstrip_ws(s: Seq<char>, j: int) -> int
    decreases j,
{
    if j <= 0 {
        0
    } else if !is_ws(s[j - 1]) {
        j
    } else {
        rstrip_ws(s, j - 1)
    }
}

pub open spec fn is_oui_sep(c: char) -> bool {
    c == ':' || c == '-'
}

/// Two hex digits at position `i`.
pub open spec fn hex2_at(s: Seq<char>, i: int) -> bool {
    i + 2 <= s.len() && is_hex_char(s[i]) && is_hex_char(s[i + 1])
}

/// Where the second hex pair of the prefix starts (a separator after the
/// pair before it is optional).
pub open spec fn pair_start(s: Seq<char>, i: int) -> int {
    if i < s.len() && is_oui_sep(s[i]) {
        i + 1
    } else {
        i
    }
}

/// One registry line, parsed: the prefix key and the trimmed vendor name.
/// A line gives an entry when it starts with three hex pairs (optionally
/// separated by `:` or `-`), then whitespace, `(hex)`, whitespace, and a
/// vendor name with at least one non-whitespace character.
pub open spec fn oui_line_parse(s: Seq<char>) -> Option<(int, Seq<char>)> {
    if !hex2_at(s, 0) {
        None
    } else {
        let i1 = pair_start(s, 2);
        if !hex2_at(s, i1) {
            None
        } else {
            let i2 = pair_start(s, i1 + 2);
            if !hex2_at(s, i2) {
                None
            } else {
                let q = i2 + 2;
                let j = skip_ws(s, q);
                if j == q || j + 5 > s.len() {
                    None
                } else if !(s[j] == '(' && s[j + 1] == 'h' && s[j + 2] == 'e' && s[j + 3] == 'x'
                    && s[j + 4] == ')') {
                    None
                } else {
                    let j2 = skip_ws(s, j + 5);
                    if j2 == j + 5 || j2 >= s.len() {
                        None
                    } else {
                        let key = oui_key6(s[0], s[1], s[i1], s[i1 + 1], s[i2], s[i2 + 1]);
                        Some((key, s.subrange(j2, rstrip_ws(s, s.len() as int))))
                    }
                }
            }
        }
    }
}

/// The map a registry builds: each matching line inserts its entry, later
/// lines winning on a repeated prefix.
pub open spec fn oui_db_map(lines: Seq<String>) -> Map<u32, Seq<char>>
    decreases lines.len(),
{
    if lines.len() == 0 {
        Map::<u32, Seq<char>>::empty()
    } else {
        let m = oui_db_map(lines.drop_last());
        match oui_line_parse(lines.last()@) {
            Some(kv) => m.insert(kv.0 as u32, kv.1),
            None => m,
        }
    }
}

/// Vendor-registry database: immutable after construction, keyed by the
/// 24-bit OUI prefix value.
pub struct VendorDatabase {
    map: HashMap<u32, String>,
}

impl View for VendorDatabase {
    type V = Map<u32, Seq<char>>;

    closed spec fn view(&self) -> Map<u32, Seq<char>> {
        Map::new(
            |k: u32| self.map@.dom().contains(k),
            |k: u32| self.map@[k]@,
        )
    }
}

/// What a lookup answers: the stored vendor name when the MAC's OUI is
/// canonical and its key is present.
pub open spec fn lookup_spec(db: Map<u32, Seq<char>>, mac: Seq<char>) -> Option<Seq<char>> {
    let o = oui_spec(mac);
    if oui_text_ok(o) && db.contains_key(oui_key_of(o) as u32) {
        Some(db[oui_key_of(o) as u32])
    } else {
        None
    }
}

/// The batch members whose lookup succeeds, in input order.
pub open spec fn matched_macs(db: Map<u32, Seq<char>>, ms: Seq<String>) -> Seq<String>
    decreases ms.len(),
{
    if ms.len() == 0 {
        Seq::<String>::empty()
    } else {
        matched_macs(db, ms.drop_last()) + if lookup_spec(db, ms.last()@) is Some {
            seq![ms.last()]
        } else {
            Seq::<String>::empty()
        }
    }
}

exec fn exec_skip_ws(line: &str, from: usize) -> (r: usize)
    requires
        from <= line@.len(),
    ensures
        r == skip_ws(line@, from as int),
        from <= r <= line@.len(),
        r < line@.len() ==> !is_ws(line@[r as int]),
{
    let n = line.unicode_len();
    let mut j = from;
    while j < n
        invariant
            from <= j <= n,
            n == line@.len(),
            skip_ws(line@, from as int) == skip_ws(line@, j as int),
        decreases n - j,
    {
        let c = line.get_char(j);
        if !(c == ' ' || c == '\t' || c == '\r' || (c as u32) == 11 || (c as u32) == 12) {
            return j;
        }
        j = j + 1;
    }
    j
}

exec fn exec_rstrip_ws(line: &str, upto: usize) -> (r: usize)
    requires
        upto <= line@.len(),
    ensures
        r == rstrip_ws(line@, upto as int),
        r <= upto,
{
    let mut j = upto;
    while j > 0
        invariant
            j <= upto <= line@.len(),
            rstrip_ws(line@, upto as int) == rstrip_ws(line@, j as int),
        decreases j,
    {
        let c = line.get_char(j - 1);
        if !(c == ' ' || c == '\t' || c == '\r' || (c as u32) == 11 || (c as u32) == 12) {
            return j;
        }
        j = j - 1;
    }
    j
}

/// Numeric value of one hex digit.
exec fn hex_digit_val(c: char) -> (r: u32)
    requires
        is_hex_char(c),
    ensures
        r == hex_val(c),
        r < 16,
{
    let u = c as u32;
    if u <= 57 {
        u - 48
    } else if u >= 97 {
        u - 87
    } else {
        u - 55
    }
}

/// Parse one registry line into its key and vendor name.
pub fn parse_oui_line(line: &str) -> (r: Option<(u32, String)>)
    ensures
        match r {
            Some(kv) => oui_line_parse(line@) == Some((kv.0 as int, kv.1@)),
            None => oui_line_parse(line@) is None,
        },
{
    let n = line.unicode_len();
    if n < 2 {
        return None;
    }
    let c0 = line.get_char(0);
    let c1 = line.get_char(1);
    if !(char_is_hex(c0) && char_is_hex(c1)) {
        return None;
    }
    let mut i1: usize = 2;
    if 2 < n {
        let s2 = line.get_char(2);
        if s2 == ':' || s2 == '-' {
            i1 = 3;
        }
    }
    assert(i1 == pair_start(line@, 2));
    if i1 + 2 > n {
        return None;
    }
    let c2 = line.get_char(i1);
    let c3 = line.get_char(i1 + 1);
    if !(char_is_hex(c2) && char_is_hex(c3)) {
        return None;
    }
    let mut i2: usize = i1 + 2;
    if i2 < n {
        let sp = line.get_char(i2);
        if sp == ':' || sp == '-' {
            i2 = i2 + 1;
        }
    }
    assert(i2 == pair_start(line@, i1 as int + 2));
    if i2 + 2 > n {
        return None;
    }
    let c4 = line.get_char(i2);
    let c5 = line.get_char(i2 + 1);
    if !(char_is_hex(c4) && char_is_hex(c5)) {
        return None;
    }
    let q = i2 + 2;
    let j = exec_skip_ws(line, q);
    if j == q || n - j < 5 {
        return None;
    }
    let p0 = line.get_char(j);
    let p1 = line.get_char(j + 1);
    let p2 = line.get_char(j + 2);
    let p3 = line.get_char(j + 3);
    let p4 = line.get_char(j + 4);
    if !(p0 == '(' && p1 == 'h' && p2 == 'e' && p3 == 'x' && p4 == ')') {
        return None;
    }
    let jh = j + 5;
    let j2 = exec_skip_ws(line, jh);
    if j2 == jh || j2 >= n {
        return None;
    }
    let rend = exec_rstrip_ws(line, n);
    assert(j2 < rend) by {
        assert(!is_ws(line@[j2 as int]));
        if rend <= j2 {
            lemma_rstrip_below(line@, n as int, j2 as int);
        }
    }
    let vendor = line.substring_char(j2, rend).to_owned();
    let key: u32 = hex_digit_val(c0) * 0x100000 + hex_digit_val(c1) * 0x10000 + hex_digit_val(c2)
        * 0x1000 + hex_digit_val(c3) * 0x100 + hex_digit_val(c4) * 0x10 + hex_digit_val(c5);
    proof {
        assert(vendor@ =~= line@.subrange(j2 as int, rstrip_ws(line@, line@.len() as int)));
    }
    Some((key, vendor))
}

/// Everything at or past a non-whitespace position survives the right
/// trim.
proof fn lemma_rstrip_below(s: Seq<char>, j: int, t: int)
    requires
        0 <= t < j <= s.len(),
        !is_ws(s[t]),
    ensures
        rstrip_ws(s, j) > t,
    decreases j,
{
    if j - 1 > t && is_ws(s[j - 1]) {
        lemma_rstrip_below(s, j - 1, t);
    }
}

impl VendorDatabase {
    /// Build the database from registry lines; non-matching lines are
    /// skipped, and a repeated prefix keeps the last line's vendor.
    pub fn from_lines(lines: &Vec<String>) -> (db: VendorDatabase)
        ensures
            db@ == oui_db_map(lines@),
    {
        let mut map: HashMap<u32, String> = HashMap::new();
        let ghost view0 = Map::new(
            |k: u32| map@.dom().contains(k),
            |k: u32| map@[k]@,
        );
        proof {
            assert(view0 =~= oui_db_map(lines@.take(0)));
        }
        let mut i: usize = 0;
        while i < lines.len()
            invariant
                i <= lines@.len(),
                vstd::std_specs::hash::obeys_key_model::<u32>(),
                Map::new(
                    |k: u32| map@.dom().contains(k),
                    |k: u32| map@[k]@,
                ) == oui_db_map(lines@.take(i as int)),
            decreases lines@.len() - i,
        {
            proof {
                assert(lines@.take(i as int + 1).drop_last() =~= lines@.take(i as int));
                assert(lines@.take(i as int + 1).last() == lines@[i as int]);
            }
            let ghost prev = Map::new(
                |k: u32| map@.dom().contains(k),
                |k: u32| map@[k]@,
            );
            match parse_oui_line(lines[i].as_str()) {
                Some((key, vendor)) => {
                    map.insert(key, vendor);
                    proof {
                        assert(Map::new(
                            |k: u32| map@.dom().contains(k),
                            |k: u32| map@[k]@,
                        ) =~= prev.insert(key, vendor@));
                    }
                },
                None => {},
            }
            i = i + 1;
        }
        proof {
            assert(lines@.take(lines@.len() as int) =~= lines@);
        }
        VendorDatabase { map }
    }

    /// How many prefixes the database holds.
    pub fn len(&self) -> (n: usize)
        ensures
            n == self@.dom().len(),
    {
        proof {
            assert(self@.dom() =~= self.map@.dom());
        }
        self.map.len()
    }

    /// Look one MAC up: the vendor of its OUI prefix, or nothing.
    pub fn lookup_oui(&self, mac: &str) -> (r: Option<String>)
        ensures
            match r {
                Some(v) => lookup_spec(self@, mac@) == Some(v@),
                None => lookup_spec(self@, mac@) is None,
            },
    {
        let oui = extract_oui(mac);
        let s = oui.as_str();
        if s.unicode_len() != 8 {
            return None;
        }
        let h0 = s.get_char(0);
        let h1 = s.get_char(1);
        let c2 = s.get_char(2);
        let h3 = s.get_char(3);
        let h4 = s.get_char(4);
        let c5 = s.get_char(5);
        let h6 = s.get_char(6);
        let h7 = s.get_char(7);
        let ok = c2 == ':' && c5 == ':' && upper_hex(h0) && upper_hex(h1) && upper_hex(h3)
            && upper_hex(h4) && upper_hex(h6) && upper_hex(h7);
        if !ok {
            return None;
        }
        let key: u32 = hex_digit_val(h0) * 0x100000 + hex_digit_val(h1) * 0x10000 + hex_digit_val(
            h3,
        ) * 0x1000 + hex_digit_val(h4) * 0x100 + hex_digit_val(h6) * 0x10 + hex_digit_val(h7);
        assert(key == oui_key_of(oui_spec(mac@)));
        match self.map.get(&key) {
            Some(v) => {
                assert(self@.contains_key(key));
                assert(self@[key] == v@);
                Some(v.clone())
            },
            None => {
                assert(!self.map@.dom().contains(key));
                assert(!self@.contains_key(key));
                None
            },
        }
    }

    /// Look a batch up: pairs of the original MAC text and its vendor, for
    /// the members that matched, in input order.
    pub fn lookup_ouis(&self, macs: &Vec<String>) -> (r: Vec<(String, String)>)
        ensures
            r@.map(|_t: int, q: (String, String)| q.0) == matched_macs(self@, macs@),
            forall|t: int|
                0 <= t < r@.len() ==> lookup_spec(self@, #[trigger] r@[t].0@) == Some(r@[t].1@),
    {
        let mut out: Vec<(String, String)> = Vec::new();
        let mut i: usize = 0;
        while i < macs.len()
            invariant
                i <= macs@.len(),
                out@.map(|_t: int, q: (String, String)| q.0) == matched_macs(
                    self@,
                    macs@.take(i as int),
                ),
                forall|t: int|
                    0 <= t < out@.len() ==> lookup_spec(self@, #[trigger] out@[t].0@) == Some(
                        out@[t].1@,
                    ),
            decreases macs@.len() - i,
        {
            proof {
                assert(macs@.take(i as int + 1).drop_last() =~= macs@.take(i as int));
                assert(macs@.take(i as int + 1).last() == macs@[i as int]);
            }
            let ghost prevm = out@.map(|_t: int, q: (String, String)| q.0);
            match self.lookup_oui(macs[i].as_str()) {
                Some(vendor) => {
                    let m = macs[i].clone();
                    out.push((m, vendor));
                    proof {
                        assert(out@.map(|_t: int, q: (String, String)| q.0) =~= prevm + seq![
                            macs@[i as int],
                        ]);
                    }
                },
                None => {},
            }
            i = i + 1;
        }
        proof {
            assert(macs@.take(macs@.len() as int) =~= macs@);
        }
        out
    }
}

/// Uppercase hex digit test.
fn upper_hex(c: char) -> (r: bool)
    ensures
        r == is_upper_hex(c),
{
    let u = c as u32;
    (48 <= u && u <= 57) || (65 <= u && u <= 70)
}

} // verus!
