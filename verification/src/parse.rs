//! Text-format ingestion: splitting on a separator, pipe-delimited record
//! files (a header row, then positional values), and ARP-table output of
//! the shape `<hostname> (<ipv4>) at <mac>`. Lines that do not match are
//! skipped, never an error.

use vstd::prelude::*;

use crate::device::DeviceRecord;
use crate::mac::{normalize_mac, normalize_spec};
use crate::oui::is_ws;
use crate::text::{is_digit_char, is_hex_char};

verus! {

/// First position at or after `i` holding `c`, or the end.
pub open spec fn find_ch(s: Seq<char>, c: char, i: int) -> int
    decreases s.len() - i,
{
    if i < 0 || i >= s.len() {
        s.len() as int
    } else if s[i] == c {
        i
    } else {
        find_ch(s, c, i + 1)
    }
}

proof fn lemma_find_ch_bounds(s: Seq<char>, c: char, i: int)
    requires
        0 <= i <= s.len(),
    ensures
        i <= find_ch(s, c, i) <= s.len(),
        find_ch(s, c, i) < s.len() ==> s[find_ch(s, c, i)] == c,
    decreases s.len() - i,
{
    if i < s.len() && s[i] != c {
        lemma_find_ch_bounds(s, c, i + 1);
    }
}

/// The pieces of `s` from position `i` on, cut at every separator.
pub open spec fn split_from(s: Seq<char>, c: char, i: int) -> Seq<Seq<char>>
    decreases s.len() - i,
{
    let f = find_ch(s, c, i);
    if i <= f < s.len() {
        seq![s.subrange(i, f)] + split_from(s, c, f + 1)
    } else {
        seq![s.subrange(i, s.len() as int)]
    }
}

/// The views of a string batch.
pub open spec fn views_of(v: Seq<String>) -> Seq<Seq<char>> {
    v.map(|_t: int, x: String| x@)
}

/// Split text at every occurrence of a separator; `n` separators give
/// `n + 1` pieces, empty pieces included.
pub fn split_on(s: &str, sep: char) -> (r: Vec<String>)
    ensures
        views_of(r@) == split_from(s@, sep, 0),
{
    let n = s.unicode_len();
    let mut out: Vec<String> = Vec::new();
    let mut cur: usize = 0;
    let mut done: bool = false;
    while !done
        invariant
            cur <= n,
            n == s@.len(),
            !done ==> split_from(s@, sep, 0) == views_of(out@) + split_from(s@, sep, cur as int),
            done ==> views_of(out@) == split_from(s@, sep, 0),
        decreases (n - cur) + (if done {
            0int
        } else {
            1int
        }),
    {
        let mut j: usize = cur;
        while j < n && s.get_char(j) != sep
            invariant
                cur <= j <= n,
                n == s@.len(),
                find_ch(s@, sep, cur as int) == find_ch(s@, sep, j as int),
            decreases n - j,
        {
            j = j + 1;
        }
        proof {
            lemma_find_ch_bounds(s@, sep, j as int);
            assert(find_ch(s@, sep, cur as int) == j as int);
        }
        let piece = s.substring_char(cur, j).to_owned();
        let ghost prevv = views_of(out@);
        out.push(piece);
        proof {
            assert(views_of(out@) =~= prevv + seq![s@.subrange(cur as int, j as int)]);
        }
        if j == n {
            proof {
                assert(split_from(s@, sep, cur as int) =~= seq![
                    s@.subrange(cur as int, n as int),
                ]);
                assert(views_of(out@) =~= split_from(s@, sep, 0));
            }
            done = true;
        } else {
            proof {
                assert(split_from(s@, sep, cur as int) =~= seq![
                    s@.subrange(cur as int, j as int),
                ] + split_from(s@, sep, j as int + 1));
                assert(split_from(s@, sep, 0) =~= views_of(out@) + split_from(
                    s@,
                    sep,
                    j as int + 1,
                ));
            }
            cur = j + 1;
        }
    }
    out
}

/// The mapping of header names to the first `k` row values, later
/// duplicate headers winning.
pub open spec fn zip_map_upto(hs: Seq<Seq<char>>, vs: Seq<Seq<char>>, k: int) -> Map<
    Seq<char>,
    Seq<char>,
>
    decreases k,
{
    if k <= 0 {
        Map::<Seq<char>, Seq<char>>::empty()
    } else {
        zip_map_upto(hs, vs, k - 1).insert(hs[k - 1], vs[k - 1])
    }
}

pub open spec fn min_len(a: int, b: int) -> int {
    if a < b {
        a
    } else {
        b
    }
}

/// The record one row spells under a header row: values map to headers by
/// position, and a ragged row leaves the trailing headers out.
pub open spec fn row_record(hs: Seq<Seq<char>>, vs: Seq<Seq<char>>) -> Map<Seq<char>, Seq<char>> {
    zip_map_upto(hs, vs, min_len(hs.len() as int, vs.len() as int))
}

/// Parse pipe-delimited lines: the first line names the fields, each
/// later line is one record.
pub fn parse_pipe_lines(lines: &Vec<String>) -> (r: Vec<DeviceRecord>)
    ensures
        lines@.len() == 0 ==> r@.len() == 0,
        lines@.len() > 0 ==> {
            &&& r@.len() == lines@.len() - 1
            &&& forall|t: int|
                0 <= t < r@.len() ==> (#[trigger] r@[t])@ == row_record(
                    split_from(lines@[0]@, '|', 0),
                    split_from(lines@[t + 1]@, '|', 0),
                ) && r@[t].wf()
        },
{
    let mut out: Vec<DeviceRecord> = Vec::new();
    if lines.len() == 0 {
        return out;
    }
    let headers = split_on(lines[0].as_str(), '|');
    let ghost hs = split_from(lines@[0]@, '|', 0);
    let mut i: usize = 1;
    while i < lines.len()
        invariant
            1 <= i <= lines@.len(),
            views_of(headers@) == hs,
            hs == split_from(lines@[0]@, '|', 0),
            out@.len() == i - 1,
            forall|t: int|
                0 <= t < out@.len() ==> (#[trigger] out@[t])@ == row_record(
                    split_from(lines@[0]@, '|', 0),
                    split_from(lines@[t + 1]@, '|', 0),
                ) && out@[t].wf(),
        decreases lines@.len() - i,
    {
        let values = split_on(lines[i].as_str(), '|');
        let ghost vs = split_from(lines@[i as int]@, '|', 0);
        let m = if headers.len() < values.len() {
            headers.len()
        } else {
            values.len()
        };
        let mut rec = DeviceRecord::new();
        let mut t: usize = 0;
        while t < m
            invariant
                t <= m,
                m == min_len(hs.len() as int, vs.len() as int),
                views_of(headers@) == hs,
                views_of(values@) == vs,
                headers@.len() == hs.len(),
                values@.len() == vs.len(),
                rec.wf(),
                rec@ == zip_map_upto(hs, vs, t as int),
            decreases m - t,
        {
            let k = headers[t].clone();
            let v = values[t].clone();
            proof {
                assert(k@ == hs[t as int]);
                assert(v@ == vs[t as int]);
            }
            rec.set(k, v);
            t = t + 1;
        }
        out.push(rec);
        i = i + 1;
    }
    out
}

/// First position at or after `i` that is not a decimal digit.
pub open spec fn digits_end(s: Seq<char>, i: int) -> int
    decreases s.len() - i,
{
    if i < 0 || i >= s.len() {
        s.len() as int
    } else if !is_digit_char(s[i]) {
        i
    } else {
        digits_end(s, i + 1)
    }
}

/// First position at or after `i` that is whitespace.
pub open spec fn word_end(s: Seq<char>, i: int) -> int
    decreases s.len() - i,
{
    if i < 0 || i >= s.len() {
        s.len() as int
    } else if is_ws(s[i]) {
        i
    } else {
        word_end(s, i + 1)
    }
}

/// First position at or after `i` that is neither a hex digit nor a
/// colon.
pub open spec fn mac_run_end(s: Seq<char>, i: int) -> int
    decreases s.len() - i,
{
    if i < 0 || i >= s.len() {
        s.len() as int
    } else if !(is_hex_char(s[i]) || s[i] == ':') {
        i
    } else {
        mac_run_end(s, i + 1)
    }
}

/// First position at or after `i` that is not whitespace.
pub open spec fn ws_end(s: Seq<char>, i: int) -> int
    decreases s.len() - i,
{
    if i < 0 || i >= s.len() {
        s.len() as int
    } else if !is_ws(s[i]) {
        i
    } else {
        ws_end(s, i + 1)
    }
}

/// One ARP-table line, decomposed: a hostname (no whitespace), the
/// address in parentheses (four digit runs joined by dots), the word
/// `at`, and the MAC text (hex digits and colons). The pieces are
/// returned raw; anything after the MAC run is ignored.
pub open spec fn arp_line_spec(s: Seq<char>) -> Option<(Seq<char>, Seq<char>, Seq<char>)> {
    let he = word_end(s, 0);
    if he == 0 || he >= s.len() {
        None
    } else {
        let p1 = ws_end(s, he);
        if p1 >= s.len() || s[p1] != '(' {
            None
        } else {
            let d1 = digits_end(s, p1 + 1);
            if d1 == p1 + 1 || d1 >= s.len() || s[d1] != '.' {
                None
            } else {
                let d2 = digits_end(s, d1 + 1);
                if d2 == d1 + 1 || d2 >= s.len() || s[d2] != '.' {
                    None
                } else {
                    let d3 = digits_end(s, d2 + 1);
                    if d3 == d2 + 1 || d3 >= s.len() || s[d3] != '.' {
                        None
                    } else {
                        let d4 = digits_end(s, d3 + 1);
                        if d4 == d3 + 1 || d4 >= s.len() || s[d4] != ')' {
                            None
                        } else {
                            let w2 = ws_end(s, d4 + 1);
                            if w2 == d4 + 1 || w2 + 2 > s.len() || !(s[w2] == 'a' && s[w2 + 1]
                                == 't') {
                                None
                            } else {
                                let w3 = ws_end(s, w2 + 2);
                                if w3 == w2 + 2 {
                                    None
                                } else {
                                    let me = mac_run_end(s, w3);
                                    if me == w3 {
                                        None
                                    } else {
                                        Some(
                                            (
                                                s.subrange(p1 + 1, d4),
                                                s.subrange(w3, me),
                                                s.subrange(0, he),
                                            ),
                                        )
                                    }
                                }
                            }
                        }
                    }
                }
            }
        }
    }
}

fn exec_word_end(s: &str, from: usize) -> (r: usize)
    requires
        from <= s@.len(),
    ensures
        r == word_end(s@, from as int),
        from <= r <= s@.len(),
{
    let n = s.unicode_len();
    let mut j = from;
    while j < n
        invariant
            from <= j <= n,
            n == s@.len(),
            word_end(s@, from as int) == word_end(s@, j as int),
        decreases n - j,
    {
        let c = s.get_char(j);
        if c == ' ' || c == '\t' || c == '\r' || (c as u32) == 11 || (c as u32) == 12 {
            return j;
        }
        j = j + 1;
    }
    j
}

fn exec_ws_end(s: &str, from: usize) -> (r: usize)
    requires
        from <= s@.len(),
    ensures
        r == ws_end(s@, from as int),
        from <= r <= s@.len(),
{
    let n = s.unicode_len();
    let mut j = from;
    while j < n
        invariant
            from <= j <= n,
            n == s@.len(),
            ws_end(s@, from as int) == ws_end(s@, j as int),
        decreases n - j,
    {
        let c = s.get_char(j);
        if !(c == ' ' || c == '\t' || c == '\r' || (c as u32) == 11 || (c as u32) == 12) {
            return j;
        }
        j = j + 1;
    }
    j
}

fn exec_digits_end(s: &str, from: usize) -> (r: usize)
    requires
        from <= s@.len(),
    ensures
        r == digits_end(s@, from as int),
        from <= r <= s@.len(),
{
    let n = s.unicode_len();
    let mut j = from;
    while j < n
        invariant
            from <= j <= n,
            n == s@.len(),
            digits_end(s@, from as int) == digits_end(s@, j as int),
        decreases n - j,
    {
        if !crate::text::char_is_digit(s.get_char(j)) {
            return j;
        }
        j = j + 1;
    }
    j
}

fn exec_mac_run_end(s: &str, from: usize) -> (r: usize)
    requires
        from <= s@.len(),
    ensures
        r == mac_run_end(s@, from as int),
        from <= r <= s@.len(),
{
    let n = s.unicode_len();
    let mut j = from;
    while j < n
        invariant
            from <= j <= n,
            n == s@.len(),
            mac_run_end(s@, from as int) == mac_run_end(s@, j as int),
        decreases n - j,
    {
        let c = s.get_char(j);
        if !(crate::text::char_is_hex(c) || c == ':') {
            return j;
        }
        j = j + 1;
    }
    j
}

/// Parse one ARP-table line into its raw pieces.
pub fn arp_parse_line(line: &str) -> (r: Option<(String, String, String)>)
    ensures
        match r {
            Some(p) => arp_line_spec(line@) == Some((p.0@, p.1@, p.2@)),
            None => arp_line_spec(line@) is None,
        },
{
    let n = line.unicode_len();
    let he = exec_word_end(line, 0);
    if he == 0 || he >= n {
        return None;
    }
    let p1 = exec_ws_end(line, he);
    if p1 >= n {
        return None;
    }
    if line.get_char(p1) != '(' {
        return None;
    }
    let d1 = exec_digits_end(line, p1 + 1);
    if d1 == p1 + 1 || d1 >= n {
        return None;
    }
    if line.get_char(d1) != '.' {
        return None;
    }
    let d2 = exec_digits_end(line, d1 + 1);
    if d2 == d1 + 1 || d2 >= n {
        return None;
    }
    if line.get_char(d2) != '.' {
        return None;
    }
    let d3 = exec_digits_end(line, d2 + 1);
    if d3 == d2 + 1 || d3 >= n {
        return None;
    }
    if line.get_char(d3) != '.' {
        return None;
    }
    let d4 = exec_digits_end(line, d3 + 1);
    if d4 == d3 + 1 || d4 >= n {
        return None;
    }
    if line.get_char(d4) != ')' {
        return None;
    }
    let w2 = exec_ws_end(line, d4 + 1);
    if w2 == d4 + 1 || n - w2 < 2 {
        return None;
    }
    if !(line.get_char(w2) == 'a' && line.get_char(w2 + 1) == 't') {
        return None;
    }
    let w3 = exec_ws_end(line, w2 + 2);
    if w3 == w2 + 2 {
        return None;
    }
    let me = exec_mac_run_end(line, w3);
    if me == w3 {
        return None;
    }
    let ip = line.substring_char(p1 + 1, d4).to_owned();
    let mac = line.substring_char(w3, me).to_owned();
    let host = line.substring_char(0, he).to_owned();
    Some((ip, mac, host))
}

/// The triples the ARP parser returns for a batch of lines: address text,
/// canonicalized MAC, hostname.
pub open spec fn arp_results(lines: Seq<Seq<char>>) -> Seq<(Seq<char>, Seq<char>, Seq<char>)>
    decreases lines.len(),
{
    if lines.len() == 0 {
        Seq::<(Seq<char>, Seq<char>, Seq<char>)>::empty()
    } else {
        arp_results(lines.drop_last()) + match arp_line_spec(lines.last()) {
            Some(p) => seq![(p.0, normalize_spec(p.1), p.2)],
            None => Seq::<(Seq<char>, Seq<char>, Seq<char>)>::empty(),
        }
    }
}

/// Parse whole ARP-table output: one triple `(ip, mac, hostname)` per
/// matching line, the MAC canonicalized, non-matching lines skipped.
pub fn parse_arp_output(output: &str) -> (r: Vec<(String, String, String)>)
    ensures
        ({
            let model = arp_results(split_from(output@, '\n', 0));
            &&& r@.len() == model.len()
            &&& forall|t: int|
                0 <= t < r@.len() ==> ((#[trigger] r@[t]).0@, r@[t].1@, r@[t].2@) == model[t]
        }),
{
    let lines = split_on(output, '\n');
    let ghost lv = split_from(output@, '\n', 0);
    let mut out: Vec<(String, String, String)> = Vec::new();
    let mut i: usize = 0;
    while i < lines.len()
        invariant
            i <= lines@.len(),
            views_of(lines@) == lv,
            lines@.len() == lv.len(),
            out@.len() == arp_results(lv.take(i as int)).len(),
            forall|t: int|
                0 <= t < out@.len() ==> ((#[trigger] out@[t]).0@, out@[t].1@, out@[t].2@)
                    == arp_results(lv.take(i as int))[t],
        decreases lines@.len() - i,
    {
        proof {
            assert(lv.take(i as int + 1).drop_last() =~= lv.take(i as int));
            assert(lv.take(i as int + 1).last() == lv[i as int]);
            assert(lines@[i as int]@ == lv[i as int]);
        }
        match arp_parse_line(lines[i].as_str()) {
            Some((ip, mac_raw, host)) => {
                let mac = normalize_mac(mac_raw.as_str());
                out.push((ip, mac, host));
            },
            None => {},
        }
        i = i + 1;
    }
    proof {
        assert(lv.take(lv.len() as int) =~= lv);
    }
    out
}

} // verus!
