use vstd::prelude::*;

use std::collections::BTreeMap;

use crate::station_key::{key_of, to_key};
use crate::stats::{add_reading, combine, first_reading, City, StationModel, MAX_COUNT};
use crate::temperature::{parse_tempreture, temperature_of};
use vstd::utf8::{decode_utf8, valid_utf8};

verus! {

broadcast use {vstd::std_specs::btree::group_btree_axioms, vstd::laws_cmp::group_laws_cmp};

/// Per-station statistics keyed by station key, in key order.
pub type StationsMap = BTreeMap<u64, City>;

/// Why a range of records could not be aggregated.
#[derive(Debug, Clone, Copy, PartialEq, Eq)]
pub enum ChunkError {
    /// A record has no `;` between name and temperature.
    MissingSeparator,
    /// A temperature field has neither accepted shape.
    BadTemperature,
    /// A station name is not valid UTF-8.
    InvalidName,
}

/// One record, as read: the station name's bytes and the reading in tenths.
pub ghost struct Reading {
    pub name: Seq<u8>,
    pub temp: int,
}

/// The statistics of a map, as mathematical values.
pub open spec fn model(m: Map<u64, City>) -> Map<u64, StationModel> {
    m.map_values(|c: City| c@)
}

/// Every station of the map is well formed.
pub open spec fn all_wf(m: Map<u64, City>) -> bool {
    forall|k: u64| m.contains_key(k) ==> #[trigger] m[k].wf()
}

/// Index of the first `b` in `s` at or after `from`, or `s.len()` when there is none.
pub open spec fn find_byte(s: Seq<u8>, b: u8, from: int) -> int
    decreases s.len() - from,
{
    if from < 0 || from >= s.len() {
        s.len() as int
    } else if s[from] == b {
        from
    } else {
        find_byte(s, b, from + 1)
    }
}

/// The lines of `s` from offset `pos` on, without their `\n` terminators; a last
/// line without terminator counts, an empty rest gives no line.
pub open spec fn lines_from(s: Seq<u8>, pos: int) -> Seq<Seq<u8>>
    decreases s.len() - pos,
    via lines_from_decreases
{
    if pos < 0 || pos >= s.len() {
        seq![]
    } else {
        let t = find_byte(s, 10u8, pos);
        if t < s.len() {
            seq![s.subrange(pos, t)] + lines_from(s, t + 1)
        } else {
            seq![s.subrange(pos, s.len() as int)]
        }
    }
}

proof fn lemma_find_byte_bounds(s: Seq<u8>, b: u8, from: int)
    requires
        0 <= from,
    ensures
        from <= s.len() ==> from <= find_byte(s, b, from) <= s.len(),
        find_byte(s, b, from) < s.len() ==> s[find_byte(s, b, from)] == b,
    decreases s.len() - from,
{
    if from < s.len() && s[from] != b {
        lemma_find_byte_bounds(s, b, from + 1);
    }
}

#[via_fn]
proof fn lines_from_decreases(s: Seq<u8>, pos: int) {
    if 0 <= pos < s.len() {
        lemma_find_byte_bounds(s, 10u8, pos);
    }
}

pub open spec fn lines(s: Seq<u8>) -> Seq<Seq<u8>> {
    lines_from(s, 0)
}

/// A line split at its first `;` into name and temperature.
pub open spec fn record_of(line: Seq<u8>) -> Result<Reading, ChunkError> {
    let sep = find_byte(line, 59u8, 0);
    if sep >= line.len() {
        Err(ChunkError::MissingSeparator)
    } else {
        match temperature_of(line.skip(sep + 1)) {
            None => Err(ChunkError::BadTemperature),
            Some(t) => if valid_utf8(line.take(sep)) {
                Ok(Reading { name: line.take(sep), temp: t })
            } else {
                Err(ChunkError::InvalidName)
            },
        }
    }
}

/// The records of the lines, or the error of the first line that is not one.
pub open spec fn records_of(ls: Seq<Seq<u8>>) -> Result<Seq<Reading>, ChunkError>
    decreases ls.len(),
{
    if ls.len() == 0 {
        Ok(seq![])
    } else {
        match records_of(ls.drop_last()) {
            Err(e) => Err(e),
            Ok(rs) => match record_of(ls.last()) {
                Err(e) => Err(e),
                Ok(r) => Ok(rs.push(r)),
            },
        }
    }
}

/// The map after one more record: a new key takes the record's name.
pub open spec fn observe(m: Map<u64, StationModel>, r: Reading) -> Map<u64, StationModel> {
    let k = key_of(r.name);
    if m.contains_key(k) {
        m.insert(k, add_reading(m[k], r.temp))
    } else {
        m.insert(k, first_reading(decode_utf8(r.name), r.temp))
    }
}

/// The statistics of a sequence of records, folded in order.
pub open spec fn aggregate(rs: Seq<Reading>) -> Map<u64, StationModel>
    decreases rs.len(),
{
    if rs.len() == 0 {
        Map::empty()
    } else {
        observe(aggregate(rs.drop_last()), rs.last())
    }
}

/// What aggregating the bytes of one range gives.
pub open spec fn chunk_result(s: Seq<u8>) -> Result<Map<u64, StationModel>, ChunkError> {
    match records_of(lines(s)) {
        Ok(rs) => Ok(aggregate(rs)),
        Err(e) => Err(e),
    }
}

proof fn lemma_records_err_extends(a: Seq<Seq<u8>>, rest: Seq<Seq<u8>>, e: ChunkError)
    requires
        records_of(a) == Err::<Seq<Reading>, ChunkError>(e),
    ensures
        records_of(a + rest) == Err::<Seq<Reading>, ChunkError>(e),
    decreases rest.len(),
{
    if rest.len() == 0 {
        assert(a + rest =~= a);
    } else {
        lemma_records_err_extends(a, rest.drop_last(), e);
        assert((a + rest).drop_last() =~= a + rest.drop_last());
    }
}

/// Relies on std::str::from_utf8: it accepts exactly the valid UTF-8 byte strings and
/// gives back the characters they encode.
#[verifier::external_body]
fn name_text(b: &[u8]) -> (r: Option<&str>)
    ensures
        r is Some <==> valid_utf8(b@),
        r matches Some(s) ==> s@ == decode_utf8(b@),
{
    std::str::from_utf8(b).ok()
}

/// Aggregates every record of a byte range: one line per record, `name;temperature`.
pub fn create_shared_map(bytes: &[u8]) -> (r: Result<StationsMap, ChunkError>)
    requires
        bytes@.len() <= MAX_COUNT,
    ensures
        match (r, chunk_result(bytes@)) {
            (Ok(m), Ok(x)) => model(m@) == x && all_wf(m@),
            (Err(e), Err(x)) => e == x,
            _ => false,
        },
{
    let n = bytes.len();
    let mut m = StationsMap::new();
    let mut pos: usize = 0;
    let ghost mut done: Seq<Seq<u8>> = seq![];
    let ghost mut recs: Seq<Reading> = seq![];
    assert(done + lines_from(bytes@, 0) =~= lines(bytes@));
    while pos < n
        invariant
            pos <= n == bytes@.len() <= MAX_COUNT,
            lines(bytes@) == done + lines_from(bytes@, pos as int),
            records_of(done) == Ok::<Seq<Reading>, ChunkError>(recs),
            model(m@) == aggregate(recs),
            all_wf(m@),
            forall|k: u64| m@.contains_key(k) ==> #[trigger] m@[k].count <= recs.len(),
            recs.len() <= pos,
        decreases n - pos,
    {
        let mut t: usize = pos;
        while t < n && bytes[t] != 10u8
            invariant
                pos <= t <= n == bytes@.len(),
                find_byte(bytes@, 10u8, pos as int) == find_byte(bytes@, 10u8, t as int),
            decreases n - t,
        {
            t = t + 1;
        }
        let line = &bytes[pos..t];
        let ghost rest_lines = lines_from(bytes@, if t < n { t + 1 } else { n as int });
        assert(lines_from(bytes@, pos as int) =~= seq![line@] + rest_lines);
        let ghost with_line = done.push(line@);
        assert(lines(bytes@) =~= with_line + rest_lines);
        assert(with_line.drop_last() =~= done);

        let ln = line.len();
        let mut sep: usize = 0;
        while sep < ln && line[sep] != 59u8
            invariant
                sep <= ln == line@.len(),
                find_byte(line@, 59u8, 0) == find_byte(line@, 59u8, sep as int),
            decreases ln - sep,
        {
            sep = sep + 1;
        }
        if sep == ln {
            proof {
                lemma_records_err_extends(with_line, rest_lines, ChunkError::MissingSeparator);
            }
            return Err(ChunkError::MissingSeparator);
        }
        let name = &line[0..sep];
        let field = &line[sep + 1..ln];
        assert(name@ =~= line@.take(sep as int));
        assert(field@ =~= line@.skip(sep + 1));
        let temp = match parse_tempreture(field) {
            Some(v) => v,
            None => {
                proof {
                    lemma_records_err_extends(with_line, rest_lines, ChunkError::BadTemperature);
                }
                return Err(ChunkError::BadTemperature);
            },
        };
        let text = match name_text(name) {
            Some(s) => s,
            None => {
                proof {
                    lemma_records_err_extends(with_line, rest_lines, ChunkError::InvalidName);
                }
                return Err(ChunkError::InvalidName);
            },
        };
        let ghost rec = Reading { name: name@, temp: temp as int };
        let key = to_key(name);
        let ghost before = m@;
        match m.remove(&key) {
            Some(mut c) => {
                assert(before.contains_key(key));
                c.update(temp);
                m.insert(key, c);
            },
            None => {
                m.insert(key, City::new(text.to_owned(), temp));
            },
        }
        proof {
            assert(model(m@) =~= observe(aggregate(recs), rec));
            let new_recs = recs.push(rec);
            assert(new_recs.drop_last() =~= recs);
            recs = new_recs;
            done = with_line;
        }
        pos = if t < n {
            t + 1
        } else {
            n
        };
    }
    assert(lines_from(bytes@, n as int) =~= seq![]);
    assert(done + seq![] =~= done);
    Ok(m)
}

} // verus!

verus! {

/// The statistics of one key after merging `b` into `a`.
pub open spec fn merged_at(a: Map<u64, StationModel>, b: Map<u64, StationModel>, k: u64) -> StationModel {
    if a.contains_key(k) {
        if b.contains_key(k) {
            combine(a[k], b[k])
        } else {
            a[k]
        }
    } else {
        b[k]
    }
}

/// `b` merged into `a`: every key of either, statistics combined where both have it,
/// and the name of `a` kept.
pub open spec fn merged(a: Map<u64, StationModel>, b: Map<u64, StationModel>) -> Map<
    u64,
    StationModel,
> {
    Map::new(|k: u64| a.contains_key(k) || b.contains_key(k), |k: u64| merged_at(a, b, k))
}

/// The counts of shared keys fit together.
pub open spec fn mergeable(a: Map<u64, StationModel>, b: Map<u64, StationModel>) -> bool {
    forall|k: u64|
        #![trigger a.contains_key(k), b.contains_key(k)]
        a.contains_key(k) && b.contains_key(k) ==> a[k].count + b[k].count <= MAX_COUNT
}

/// Merges the statistics of `b` into `a`.
pub fn merge_map(a: StationsMap, b: &StationsMap) -> (r: StationsMap)
    requires
        all_wf(a@),
        all_wf(b@),
        mergeable(model(a@), model(b@)),
    ensures
        model(r@) == merged(model(a@), model(b@)),
        all_wf(r@),
{
    let ghost ma = model(a@);
    let ghost mb = model(b@);
    let mut merged_map = a;
    let ghost mut seen: Set<u64> = Set::empty();
    for kv in it: b.iter()
        invariant
            ma == model(a@),
            mb == model(b@),
            all_wf(a@),
            all_wf(b@),
            mergeable(ma, mb),
            all_wf(merged_map@),
            it.seq().len() == b@.dom().len(),
            it.seq().no_duplicates(),
            vstd::std_specs::btree::increasing_seq(it.seq().map_values(|kv: (&u64, &City)| *kv.0)),
            forall|k: u64|
                b@.contains_key(k) ==> exists|i: int|
                    0 <= i < it.seq().len() && *(#[trigger] it.seq()[i]).0 == k,
            forall|i: int|
                #![trigger it.seq()[i]]
                0 <= i < it.seq().len() ==> b@.contains_key(*it.seq()[i].0) && b@[*it.seq()[i].0]
                    == *it.seq()[i].1,
            forall|k: u64|
                #[trigger] seen.contains(k) <==> exists|i: int|
                    0 <= i < it.index() && *(#[trigger] it.seq()[i]).0 == k,
            it.index() == it.seq().len() ==> seen == b@.dom(),
            forall|k: u64|
                #[trigger] merged_map@.contains_key(k) <==> (a@.contains_key(k) || seen.contains(k)),
            forall|k: u64|
                #[trigger] merged_map@.contains_key(k) ==> merged_map@[k]@ == if seen.contains(k) {
                    merged_at(ma, mb, k)
                } else {
                    ma[k]
                },
    {
        let (k, v) = kv;
        let ghost idx = it.index();
        assert(kv == it.seq()[idx]);
        assert(b@.contains_key(*k) && b@[*k] == *v);
        assert forall|i: int| 0 <= i < idx implies *it.seq()[i].0 != *k by {
            if *it.seq()[i].0 == *k {
                assert(it.seq()[i] == it.seq()[idx]);
            }
        }
        let ghost before = merged_map@;
        match merged_map.remove(k) {
            Some(mut c) => {
                assert(before.contains_key(*k));
                assert(a@.contains_key(*k));
                assert(c@ == ma[*k]);
                assert(mb.contains_key(*k) && mb[*k] == v@);
                assert(ma.contains_key(*k));
                assert(ma[*k].count + mb[*k].count <= MAX_COUNT);
                c.merge(v);
                merged_map.insert(*k, c);
                assert forall|k2: u64| merged_map@.contains_key(k2) implies #[trigger] merged_map@[k2].wf() by {
                    if k2 != *k {
                        assert(before.contains_key(k2));
                    }
                }
            },
            None => {
                assert(b@[*k].wf());
                merged_map.insert(*k, v.copy());
                assert forall|k2: u64| merged_map@.contains_key(k2) implies #[trigger] merged_map@[k2].wf() by {
                    if k2 != *k {
                        assert(before.contains_key(k2));
                    }
                }
            },
        }
        proof {
            seen = seen.insert(*k);
        }
        assert forall|k2: u64| seen.contains(k2) <==> exists|i: int|
            0 <= i < idx + 1 && *(#[trigger] it.seq()[i]).0 == k2 by {
            if k2 == *k {
                assert(*it.seq()[idx].0 == k2);
            }
            if exists|i: int| 0 <= i < idx + 1 && *(#[trigger] it.seq()[i]).0 == k2 {
                if k2 != *k {
                    assert(exists|i: int| 0 <= i < idx && *(#[trigger] it.seq()[i]).0 == k2);
                }
            }
        }
        assert(idx + 1 == it.seq().len() ==> seen =~= b@.dom());
    }
    assert(model(merged_map@) =~= merged(ma, mb));
    merged_map
}

} // verus!

verus! {

/// The records of several ranges, one range after the other.
pub open spec fn concat_all(cs: Seq<Seq<Reading>>) -> Seq<Reading>
    decreases cs.len(),
{
    if cs.len() == 0 {
        seq![]
    } else {
        concat_all(cs.drop_last()) + cs.last()
    }
}

/// Maps merged one after the other into an empty map.
pub open spec fn merge_all(ms: Seq<Map<u64, StationModel>>) -> Map<u64, StationModel>
    decreases ms.len(),
{
    if ms.len() == 0 {
        Map::empty()
    } else {
        merged(merge_all(ms.drop_last()), ms.last())
    }
}

/// Merging a map into an empty map gives that map back.
pub proof fn lemma_merge_identity(p: Map<u64, StationModel>)
    ensures
        merged(Map::empty(), p) == p,
{
    assert(merged(Map::empty(), p) =~= p);
}

/// Aggregating records in one piece gives the same statistics, names included, as
/// aggregating a first and a second part and merging the second into the first.
pub proof fn lemma_aggregate_split(r1: Seq<Reading>, r2: Seq<Reading>)
    ensures
        aggregate(r1 + r2) == merged(aggregate(r1), aggregate(r2)),
    decreases r2.len(),
{
    if r2.len() == 0 {
        assert(r1 + r2 =~= r1);
        assert(merged(aggregate(r1), aggregate(r2)) =~= aggregate(r1));
    } else {
        let init = r2.drop_last();
        let x = r2.last();
        lemma_aggregate_split(r1, init);
        assert((r1 + r2).drop_last() =~= r1 + init);
        assert((r1 + r2).last() == x);
        let a1 = aggregate(r1);
        let a2 = aggregate(init);
        assert(observe(merged(a1, a2), x) =~= merged(a1, observe(a2, x)));
    }
}

/// However the records are cut into ranges, aggregating each range and merging the
/// results in order gives what aggregating all records at once gives.
pub proof fn lemma_partition_independence(cs: Seq<Seq<Reading>>)
    ensures
        aggregate(concat_all(cs)) == merge_all(cs.map_values(|c: Seq<Reading>| aggregate(c))),
    decreases cs.len(),
{
    let ms = cs.map_values(|c: Seq<Reading>| aggregate(c));
    if cs.len() == 0 {
        assert(aggregate(concat_all(cs)) =~= merge_all(ms));
    } else {
        let init = cs.drop_last();
        lemma_partition_independence(init);
        lemma_aggregate_split(concat_all(init), cs.last());
        assert(ms.drop_last() =~= init.map_values(|c: Seq<Reading>| aggregate(c)));
    }
}

/// Aggregates the records of one range of the file.
pub fn process_chunk(data: &[u8], interval: crate::partition::Interval) -> (r: Result<
    StationsMap,
    ChunkError,
>)
    requires
        interval.start <= interval.end <= data@.len(),
        interval.end - interval.start <= MAX_COUNT,
    ensures
        match (r, chunk_result(data@.subrange(interval.start as int, interval.end as int))) {
            (Ok(m), Ok(x)) => model(m@) == x && all_wf(m@),
            (Err(e), Err(x)) => e == x,
            _ => false,
        },
{
    let n = data.len();
    assert(interval.end <= n);
    let start = interval.start as usize;
    let end = interval.end as usize;
    let chunk = &data[start..end];
    create_shared_map(chunk)
}

/// Whether `b` can be merged into `a`: the counts of every shared key fit together.
pub fn can_merge(a: &StationsMap, b: &StationsMap) -> (r: bool)
    requires
        all_wf(a@),
        all_wf(b@),
    ensures
        r == mergeable(model(a@), model(b@)),
{
    let ghost ma = model(a@);
    let ghost mb = model(b@);
    for kv in it: b.iter()
        invariant
            ma == model(a@),
            mb == model(b@),
            all_wf(a@),
            all_wf(b@),
            it.seq().len() == b@.dom().len(),
            forall|k: u64|
                b@.contains_key(k) ==> exists|i: int|
                    0 <= i < it.seq().len() && *(#[trigger] it.seq()[i]).0 == k,
            forall|i: int|
                #![trigger it.seq()[i]]
                0 <= i < it.seq().len() ==> b@.contains_key(*it.seq()[i].0) && b@[*it.seq()[i].0]
                    == *it.seq()[i].1,
            forall|i: int|
                #![trigger it.seq()[i]]
                0 <= i < it.index() && a@.contains_key(*it.seq()[i].0) ==> a@[*it.seq()[i].0].count
                    + it.seq()[i].1.count <= MAX_COUNT,
    {
        let (k, v) = kv;
        let ghost idx = it.index();
        assert(kv == it.seq()[idx]);
        match a.get(k) {
            Some(c) => {
                assert(c.wf() && v.wf()) by {
                    assert(a@[*k].wf());
                    assert(b@[*k].wf());
                }
                if c.count > MAX_COUNT - v.count {
                    assert(ma.contains_key(*k) && mb.contains_key(*k));
                    return false;
                }
            },
            None => {},
        }
    }
    assert forall|k: u64| ma.contains_key(k) && mb.contains_key(k) implies ma[k].count
        + mb[k].count <= MAX_COUNT by {
        assert(b@.contains_key(k));
    }
    true
}

} // verus!
