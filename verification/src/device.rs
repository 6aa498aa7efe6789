//! Device records and their reconciliation. A record is an open schema of
//! named string fields; records sharing an `ip` field are merged so that
//! the kept record only ever gains information: a strictly better-filled
//! record replaces the old one wholesale, anything else contributes its
//! non-empty fields into holes.

use vstd::prelude::*;

use crate::text::str_eq;

verus! {

/// Pairwise-distinct field names.
pub open spec fn keys_unique(fields: Seq<(String, String)>) -> bool {
    forall|i: int, j: int|
        0 <= i < j < fields.len() ==> (#[trigger] fields[i]).0@ != (#[trigger] fields[j]).0@
}

/// The mapping a field list spells, later entries winning.
pub open spec fn map_of(fields: Seq<(String, String)>) -> Map<Seq<char>, Seq<char>>
    decreases fields.len(),
{
    if fields.len() == 0 {
        Map::<Seq<char>, Seq<char>>::empty()
    } else {
        map_of(fields.drop_last()).insert(fields.last().0@, fields.last().1@)
    }
}

proof fn lemma_map_of_get(fields: Seq<(String, String)>, t: int)
    requires
        keys_unique(fields),
        0 <= t < fields.len(),
    ensures
        map_of(fields).contains_key(fields[t].0@),
        map_of(fields)[fields[t].0@] == fields[t].1@,
    decreases fields.len(),
{
    if t < fields.len() - 1 {
        lemma_map_of_get(fields.drop_last(), t);
    }
}

proof fn lemma_map_of_covers(fields: Seq<(String, String)>, k: Seq<char>) -> (t: int)
    requires
        map_of(fields).contains_key(k),
    ensures
        0 <= t < fields.len(),
        fields[t].0@ == k,
    decreases fields.len(),
{
    if fields.len() > 0 && fields.last().0@ != k {
        lemma_map_of_covers(fields.drop_last(), k)
    } else {
        fields.len() - 1
    }
}

proof fn lemma_map_of_misses(fields: Seq<(String, String)>, k: Seq<char>)
    requires
        forall|t: int| 0 <= t < fields.len() ==> (#[trigger] fields[t]).0@ != k,
    ensures
        !map_of(fields).contains_key(k),
    decreases fields.len(),
{
    if fields.len() > 0 {
        lemma_map_of_misses(fields.drop_last(), k);
    }
}

/// How well-filled a record is: the number of fields holding a non-empty
/// value.
pub open spec fn score_map(m: Map<Seq<char>, Seq<char>>) -> int {
    m.dom().filter(|k: Seq<char>| m[k].len() != 0).len() as int
}

/// The merge of `b` into `a`: `b`'s non-empty fields fill `a`'s absent or
/// empty ones; everything of `a` stays.
pub open spec fn merged(
    a: Map<Seq<char>, Seq<char>>,
    b: Map<Seq<char>, Seq<char>>,
) -> Map<Seq<char>, Seq<char>> {
    Map::new(
        |k: Seq<char>| a.dom().contains(k) || (b.dom().contains(k) && b[k].len() != 0),
        |k: Seq<char>|
            if b.dom().contains(k) && b[k].len() != 0 && (!a.dom().contains(k) || a[k].len()
                == 0) {
                b[k]
            } else {
                a[k]
            },
    )
}

/// The informative part of a record: its non-empty fields.
pub open spec fn nonempty_part(m: Map<Seq<char>, Seq<char>>) -> Map<Seq<char>, Seq<char>> {
    Map::new(
        |k: Seq<char>| m.dom().contains(k) && m[k].len() != 0,
        |k: Seq<char>| m[k],
    )
}

/// Merging is order-independent up to empty fields: when two records never
/// disagree on a non-empty field, merging either into the other yields the
/// same information.
pub proof fn lemma_merge_order_independent(
    a: Map<Seq<char>, Seq<char>>,
    b: Map<Seq<char>, Seq<char>>,
)
    requires
        forall|k: Seq<char>|
            a.dom().contains(k) && b.dom().contains(k) && a[k].len() != 0 && b[k].len() != 0
                ==> a[k] == b[k],
    ensures
        nonempty_part(merged(a, b)) == nonempty_part(merged(b, a)),
{
    assert(nonempty_part(merged(a, b)) =~= nonempty_part(merged(b, a)));
}

/// One observation of a device: named fields with string values, each name
/// held once.
pub struct DeviceRecord {
    fields: Vec<(String, String)>,
}

impl View for DeviceRecord {
    type V = Map<Seq<char>, Seq<char>>;

    closed spec fn view(&self) -> Map<Seq<char>, Seq<char>> {
        map_of(self.fields@)
    }
}

impl DeviceRecord {
    pub closed spec fn wf(&self) -> bool {
        keys_unique(self.fields@)
    }

    /// A record with no fields.
    pub fn new() -> (r: DeviceRecord)
        ensures
            r.wf(),
            r@ == Map::<Seq<char>, Seq<char>>::empty(),
    {
        let r = DeviceRecord { fields: Vec::new() };
        proof {
            assert(r@ =~= Map::<Seq<char>, Seq<char>>::empty());
        }
        r
    }

    /// The names of the fields, in insertion order: exactly the keys of
    /// the record's mapping.
    pub fn field_names(&self) -> (r: Vec<String>)
        requires
            self.wf(),
        ensures
            forall|t: int| 0 <= t < r@.len() ==> self@.contains_key(#[trigger] r@[t]@),
            forall|k: Seq<char>|
                self@.contains_key(k) ==> exists|t: int| 0 <= t < r@.len() && #[trigger] r@[t]@
                    == k,
    {
        let mut out: Vec<String> = Vec::new();
        let mut i: usize = 0;
        while i < self.fields.len()
            invariant
                i <= self.fields@.len(),
                self.wf(),
                out@.len() == i as int,
                forall|t: int|
                    0 <= t < i as int ==> #[trigger] out@[t]@ == self.fields@[t].0@
                        && self@.contains_key(out@[t]@),
            decreases self.fields@.len() - i,
        {
            proof {
                lemma_map_of_get(self.fields@, i as int);
            }
            out.push(self.fields[i].0.clone());
            i = i + 1;
        }
        proof {
            assert forall|k: Seq<char>| self@.contains_key(k) implies exists|t: int|
                0 <= t < out@.len() && #[trigger] out@[t]@ == k by {
                let t = lemma_map_of_covers(self.fields@, k);
                assert(out@[t]@ == k);
            }
        }
        out
    }

    /// The value of one field, if present.
    pub fn get(&self, key: &str) -> (r: Option<String>)
        requires
            self.wf(),
        ensures
            match r {
                Some(v) => self@.contains_key(key@) && v@ == self@[key@],
                None => !self@.contains_key(key@),
            },
    {
        let mut i: usize = 0;
        while i < self.fields.len()
            invariant
                i <= self.fields@.len(),
                self.wf(),
                forall|t: int| 0 <= t < i as int ==> (#[trigger] self.fields@[t]).0@ != key@,
            decreases self.fields@.len() - i,
        {
            if str_eq(self.fields[i].0.as_str(), key) {
                proof {
                    lemma_map_of_get(self.fields@, i as int);
                }
                return Some(self.fields[i].1.clone());
            }
            i = i + 1;
        }
        proof {
            lemma_map_of_misses(self.fields@, key@);
        }
        None
    }

    /// Set one field, replacing any previous value under the same name.
    pub fn set(&mut self, key: String, value: String)
        requires
            old(self).wf(),
        ensures
            final(self).wf(),
            final(self)@ == old(self)@.insert(key@, value@),
    {
        let mut i: usize = 0;
        while i < self.fields.len()
            invariant
                i <= self.fields@.len(),
                self.wf(),
                self@ == old(self)@,
                self.fields@ == old(self).fields@,
                forall|t: int| 0 <= t < i as int ==> (#[trigger] self.fields@[t]).0@ != key@,
            decreases self.fields@.len() - i,
        {
            if str_eq(self.fields[i].0.as_str(), key.as_str()) {
                let ghost prev = self.fields@;
                self.fields.set(i, (key, value));
                proof {
                    lemma_set_at_key(prev, i as int, self.fields@[i as int]);
                }
                return ;
            }
            i = i + 1;
        }
        let ghost prev = self.fields@;
        self.fields.push((key, value));
        proof {
            assert(self.fields@.drop_last() =~= prev);
        }
    }

    /// The number of fields holding a non-empty value.
    pub fn score(&self) -> (n: usize)
        requires
            self.wf(),
        ensures
            n == score_map(self@),
    {
        let mut n: usize = 0;
        let mut i: usize = 0;
        proof {
            assert(self.fields@.take(0) =~= Seq::<(String, String)>::empty());
            assert(map_of(self.fields@.take(0)).dom() =~= Set::<Seq<char>>::empty());
            assert(map_of(self.fields@.take(0)).dom().filter(
                |k: Seq<char>| map_of(self.fields@.take(0))[k].len() != 0,
            ) =~= Set::<Seq<char>>::empty());
        }
        while i < self.fields.len()
            invariant
                i <= self.fields@.len(),
                self.wf(),
                n <= i,
                n == score_map(map_of(self.fields@.take(i as int))),
                keys_unique(self.fields@.take(i as int)),
            decreases self.fields@.len() - i,
        {
            proof {
                assert(self.fields@.take(i as int + 1) =~= self.fields@.take(i as int).push(
                    self.fields@[i as int],
                ));
                assert forall|t: int| 0 <= t < i as int implies (#[trigger] self.fields@.take(
                    i as int,
                )[t]).0@ != self.fields@[i as int].0@ by {
                    assert(self.fields@.take(i as int)[t] == self.fields@[t]);
                }
                lemma_score_step(self.fields@.take(i as int), self.fields@[i as int]);
            }
            if !self.fields[i].1.as_str().is_empty() {
                n = n + 1;
            }
            i = i + 1;
        }
        proof {
            assert(self.fields@.take(self.fields@.len() as int) =~= self.fields@);
        }
        n
    }

    /// An identical copy.
    pub fn duplicate(&self) -> (r: DeviceRecord)
        requires
            self.wf(),
        ensures
            r.wf(),
            r@ == self@,
    {
        let mut fields: Vec<(String, String)> = Vec::new();
        let mut i: usize = 0;
        while i < self.fields.len()
            invariant
                i <= self.fields@.len(),
                self.wf(),
                fields@.len() == i as int,
                forall|t: int| 0 <= t < i as int ==> #[trigger] fields@[t] == self.fields@[t],
            decreases self.fields@.len() - i,
        {
            let k = self.fields[i].0.clone();
            let v = self.fields[i].1.clone();
            fields.push((k, v));
            i = i + 1;
        }
        proof {
            assert(fields@ =~= self.fields@);
        }
        DeviceRecord { fields }
    }

    /// Merge another record's non-empty fields into this record's absent
    /// or empty ones.
    pub fn merge_from(&mut self, other: &DeviceRecord)
        requires
            old(self).wf(),
            other.wf(),
        ensures
            final(self).wf(),
            final(self)@ == merged(old(self)@, other@),
    {
        let mut i: usize = 0;
        while i < other.fields.len()
            invariant
                i <= other.fields@.len(),
                self.wf(),
                other.wf(),
                self@ == merged(old(self)@, map_of(other.fields@.take(i as int))),
                keys_unique(other.fields@.take(i as int)),
            decreases other.fields@.len() - i,
        {
            let ghost pm = map_of(other.fields@.take(i as int));
            proof {
                assert(other.fields@.take(i as int + 1).drop_last() =~= other.fields@.take(
                    i as int,
                ));
                assert(other.fields@.take(i as int + 1).last() == other.fields@[i as int]);
                assert forall|t: int| 0 <= t < i as int implies (#[trigger] other.fields@.take(
                    i as int,
                )[t]).0@ != other.fields@[i as int].0@ by {
                    assert(other.fields@[t] == other.fields@.take(i as int)[t]);
                }
                lemma_map_of_misses(other.fields@.take(i as int), other.fields@[i as int].0@);
            }
            let key = other.fields[i].0.clone();
            let value = other.fields[i].1.clone();
            let ghost kview = key@;
            let ghost vview = value@;
            if !value.as_str().is_empty() {
                let take_it = match self.get(key.as_str()) {
                    None => true,
                    Some(cur) => cur.as_str().is_empty(),
                };
                if take_it {
                    self.set(key, value);
                }
            }
            proof {
                assert(map_of(other.fields@.take(i as int + 1)) == pm.insert(kview, vview));
                assert(self@ =~= merged(old(self)@, pm.insert(kview, vview)));
            }
            i = i + 1;
        }
        proof {
            assert(other.fields@.take(other.fields@.len() as int) =~= other.fields@);
        }
    }
}

proof fn lemma_set_at_key(fields: Seq<(String, String)>, t: int, pair: (String, String))
    requires
        keys_unique(fields),
        0 <= t < fields.len(),
        fields[t].0@ == pair.0@,
    ensures
        keys_unique(fields.update(t, pair)),
        map_of(fields.update(t, pair)) == map_of(fields).insert(pair.0@, pair.1@),
    decreases fields.len(),
{
    let up = fields.update(t, pair);
    if t == fields.len() - 1 {
        assert(up.drop_last() =~= fields.drop_last());
        assert(up.last() == pair);
        assert(map_of(up) =~= map_of(fields).insert(pair.0@, pair.1@));
    } else {
        lemma_set_at_key(fields.drop_last(), t, pair);
        assert(up.drop_last() =~= fields.drop_last().update(t, pair));
        assert(up.last() == fields.last());
        assert(map_of(up) == map_of(fields.drop_last().update(t, pair)).insert(
            fields.last().0@,
            fields.last().1@,
        ));
        assert(fields[t].0@ != fields.last().0@);
        assert(map_of(up) =~= map_of(fields).insert(pair.0@, pair.1@));
    }
}

proof fn lemma_map_of_dom_finite(fields: Seq<(String, String)>)
    ensures
        map_of(fields).dom().finite(),
    decreases fields.len(),
{
    if fields.len() == 0 {
        assert(map_of(fields).dom() =~= Set::<Seq<char>>::empty());
    } else {
        lemma_map_of_dom_finite(fields.drop_last());
    }
}

proof fn lemma_score_step(fields: Seq<(String, String)>, pair: (String, String))
    requires
        keys_unique(fields),
        forall|t: int| 0 <= t < fields.len() ==> (#[trigger] fields[t]).0@ != pair.0@,
    ensures
        score_map(map_of(fields.push(pair))) == score_map(map_of(fields)) + if pair.1@.len()
            != 0 {
            1int
        } else {
            0int
        },
        keys_unique(fields.push(pair)),
{
    lemma_map_of_dom_finite(fields);
    lemma_map_of_misses(fields, pair.0@);
    let m = map_of(fields);
    let m2 = map_of(fields.push(pair));
    assert(fields.push(pair).drop_last() =~= fields);
    assert(m2 == m.insert(pair.0@, pair.1@));
    let f = m.dom().filter(|k: Seq<char>| m[k].len() != 0);
    let f2 = m2.dom().filter(|k: Seq<char>| m2[k].len() != 0);
    m.dom().lemma_len_filter(|k: Seq<char>| m[k].len() != 0);
    if pair.1@.len() != 0 {
        assert(f2 =~= f.insert(pair.0@));
        assert(!f.contains(pair.0@));
    } else {
        assert(f2 =~= f);
    }
    assert forall|i: int, j: int|
        0 <= i < j < fields.push(pair).len() implies (#[trigger] fields.push(pair)[i]).0@ != (
    #[trigger] fields.push(pair)[j]).0@ by {
        if j < fields.len() {
            assert(fields.push(pair)[i] == fields[i]);
            assert(fields.push(pair)[j] == fields[j]);
        } else {
            assert(fields.push(pair)[i] == fields[i]);
            assert(fields.push(pair)[j] == pair);
        }
    }
}


/// How two observations of one device combine: a strictly better-filled
/// newcomer replaces the record, anything else fills holes.
pub open spec fn combine(
    a: Map<Seq<char>, Seq<char>>,
    b: Map<Seq<char>, Seq<char>>,
) -> Map<Seq<char>, Seq<char>> {
    if score_map(b) > score_map(a) {
        b
    } else {
        merged(a, b)
    }
}

/// Deduplication by the `ip` field: records lacking it are dropped, the
/// first record of each address claims a slot, and later records of the
/// same address combine into that slot.
pub open spec fn dedupe_maps(s: Seq<Map<Seq<char>, Seq<char>>>) -> Seq<Map<Seq<char>, Seq<char>>>
    decreases s.len(),
{
    if s.len() == 0 {
        Seq::<Map<Seq<char>, Seq<char>>>::empty()
    } else {
        let prev = dedupe_maps(s.drop_last());
        let r = s.last();
        if !r.contains_key("ip"@) {
            prev
        } else if exists|j: int|
            0 <= j < prev.len() && (#[trigger] prev[j]).contains_key("ip"@) && prev[j]["ip"@]
                == r["ip"@] {
            let j = choose|j: int|
                0 <= j < prev.len() && (#[trigger] prev[j]).contains_key("ip"@) && prev[j]["ip"@]
                    == r["ip"@];
            prev.update(j, combine(prev[j], r))
        } else {
            prev.push(r)
        }
    }
}

/// The slot holding an address, if any.
fn find_ip(acc: &Vec<DeviceRecord>, ipv: &str) -> (r: Option<usize>)
    requires
        forall|t: int| 0 <= t < acc@.len() ==> (#[trigger] acc@[t]).wf(),
    ensures
        match r {
            Some(j) => j < acc@.len() && acc@[j as int]@.contains_key("ip"@)
                && acc@[j as int]@.index("ip"@) == ipv@,
            None => forall|t: int|
                0 <= t < acc@.len() ==> !((#[trigger] acc@[t])@.contains_key("ip"@)
                    && acc@[t]@.index("ip"@) == ipv@),
        },
{
    let mut j: usize = 0;
    while j < acc.len()
        invariant
            j <= acc@.len(),
            forall|t: int| 0 <= t < acc@.len() ==> (#[trigger] acc@[t]).wf(),
            forall|t: int|
                0 <= t < j as int ==> !((#[trigger] acc@[t])@.contains_key("ip"@)
                    && acc@[t]@.index("ip"@) == ipv@),
        decreases acc@.len() - j,
    {
        match acc[j].get("ip") {
            Some(other) => {
                if str_eq(other.as_str(), ipv) {
                    return Some(j);
                }
            },
            None => {},
        }
        j = j + 1;
    }
    None
}

/// Reconcile a batch of observations into one record per address.
pub fn dedupe_devices(records: &Vec<DeviceRecord>) -> (r: Vec<DeviceRecord>)
    requires
        forall|i: int| 0 <= i < records@.len() ==> (#[trigger] records@[i]).wf(),
    ensures
        r@.map(|_t: int, d: DeviceRecord| d@) == dedupe_maps(
            records@.map(|_t: int, d: DeviceRecord| d@),
        ),
        forall|t: int| 0 <= t < r@.len() ==> (#[trigger] r@[t]).wf(),
{
    let ghost all = records@.map(|_t: int, d: DeviceRecord| d@);
    let mut acc: Vec<DeviceRecord> = Vec::new();
    let mut i: usize = 0;
    while i < records.len()
        invariant
            i <= records@.len(),
            all == records@.map(|_t: int, d: DeviceRecord| d@),
            forall|t: int| 0 <= t < records@.len() ==> (#[trigger] records@[t]).wf(),
            forall|t: int| 0 <= t < acc@.len() ==> (#[trigger] acc@[t]).wf(),
            acc@.map(|_t: int, d: DeviceRecord| d@) == dedupe_maps(all.take(i as int)),
            forall|t: int| 0 <= t < acc@.len() ==> (#[trigger] acc@[t])@.contains_key("ip"@),
            forall|t1: int, t2: int|
                0 <= t1 < t2 < acc@.len() ==> (#[trigger] acc@[t1])@["ip"@] != (
                #[trigger] acc@[t2])@["ip"@],
        decreases records@.len() - i,
    {
        let ghost accm = acc@.map(|_t: int, d: DeviceRecord| d@);
        proof {
            assert(all.take(i as int + 1).drop_last() =~= all.take(i as int));
            assert(all.take(i as int + 1).last() == all[i as int]);
            assert(all[i as int] == records@[i as int]@);
        }
        match records[i].get("ip") {
            None => {
                proof {
                    assert(dedupe_maps(all.take(i as int + 1)) == accm);
                }
            },
            Some(ipv) => {
                match find_ip(&acc, ipv.as_str()) {
                    None => {
                        let d = records[i].duplicate();
                        acc.push(d);
                        proof {
                            if exists|j: int|
                                0 <= j < accm.len() && (#[trigger] accm[j]).contains_key("ip"@)
                                    && accm[j]["ip"@] == all[i as int]["ip"@] {
                                let j = choose|j: int|
                                    0 <= j < accm.len() && (#[trigger] accm[j]).contains_key("ip"@)
                                        && accm[j]["ip"@] == all[i as int]["ip"@];
                                assert(accm[j] == acc@[j]@);
                                assert(false);
                            }
                            assert(acc@.map(|_t: int, d: DeviceRecord| d@) =~= accm.push(
                                all[i as int],
                            ));
                        }
                    },
                    Some(j) => {
                        proof {
                            assert(accm[j as int] == acc@[j as int]@);
                            assert(exists|t: int|
                                0 <= t < accm.len() && (#[trigger] accm[t]).contains_key("ip"@)
                                    && accm[t]["ip"@] == all[i as int]["ip"@]);
                            let t0 = choose|t: int|
                                0 <= t < accm.len() && (#[trigger] accm[t]).contains_key("ip"@)
                                    && accm[t]["ip"@] == all[i as int]["ip"@];
                            if t0 != j as int {
                                assert(accm[t0] == acc@[t0]@);
                                assert(false);
                            }
                        }
                        let sn = records[i].score();
                        let sa = acc[j].score();
                        if sn > sa {
                            let d = records[i].duplicate();
                            acc.set(j, d);
                        } else {
                            let mut cur = acc[j].duplicate();
                            cur.merge_from(&records[i]);
                            proof {
                                assert(cur@.contains_key("ip"@));
                                assert(cur@["ip"@] == acc@[j as int]@["ip"@]);
                            }
                            acc.set(j, cur);
                        }
                        proof {
                            assert(acc@.map(|_t: int, d: DeviceRecord| d@) =~= accm.update(
                                j as int,
                                combine(accm[j as int], all[i as int]),
                            ));
                        }
                    },
                }
            },
        }
        i = i + 1;
    }
    proof {
        assert(all.take(all.len() as int) =~= all);
    }
    acc
}

} // verus!
