use vstd::prelude::*;

use crate::aggregate::{
    aggregate, chunk_result, concat_all, find_byte, lemma_partition_independence, lines, lines_from,
    merge_all, records_of, ChunkError, Reading,
};
use crate::stats::StationModel;

verus! {

/// A range of the file's bytes: its records occupy `start..end`, and the byte at `end`
/// is the `\n` that closes the last of them (or `end` is the end of the file).
#[derive(Debug, Clone, Copy, PartialEq, Eq)]
pub struct Interval {
    pub start: u64,
    pub end: u64,
}

/// Where the last range ends: on the final `\n`, or at the end of a file without one.
pub open spec fn tail_end(s: Seq<u8>) -> int {
    if s.len() > 0 && s.last() == 10u8 {
        s.len() - 1
    } else {
        s.len() as int
    }
}

/// The ranges cut from `start` on, with at most `attempts` more of them: each one takes
/// `nominal` bytes and then runs on to the next `\n`; where no `\n` follows, the last
/// range takes the rest of the file.
pub open spec fn plan_from(s: Seq<u8>, start: int, nominal: int, attempts: nat) -> Seq<(int, int)>
    decreases attempts,
{
    if attempts == 0 || start >= s.len() {
        seq![]
    } else {
        let t = find_byte(s, 10u8, start + nominal);
        if t < s.len() {
            seq![(start, t)] + plan_from(s, t + 1, nominal, (attempts - 1) as nat)
        } else {
            seq![(start, tail_end(s))]
        }
    }
}

/// The ranges planned for `workers` workers over the file `s`.
pub open spec fn plan(s: Seq<u8>, workers: nat) -> Seq<(int, int)> {
    plan_from(s, 0, (s.len() / workers) as int, workers)
}

/// The ranges cover the file: they follow each other without gap or overlap from
/// offset 0 to the end of the file, each one ends on a `\n` (the last one possibly at
/// the end of the file instead), and there is none for an empty file.
pub open spec fn covers(s: Seq<u8>, r: Seq<(int, int)>) -> bool {
    &&& (r.len() == 0 <==> s.len() == 0)
    &&& r.len() > 0 ==> r[0].0 == 0 && r.last().1 == tail_end(s)
    &&& forall|i: int| #![trigger r[i]] 0 <= i < r.len() ==> r[i].0 <= r[i].1 && r[i].1 <= s.len()
    &&& forall|i: int| 0 <= i < r.len() - 1 ==> #[trigger] r[i + 1].0 == r[i].1 + 1
    &&& forall|i: int| 0 <= i < r.len() - 1 ==> s[#[trigger] r[i].1] == 10u8
    &&& forall|i: int, j: int| 0 <= i < j < r.len() ==> #[trigger] r[i].1 < #[trigger] r[j].0
}

proof fn lemma_find_newline(s: Seq<u8>, from: int)
    requires
        0 <= from,
    ensures
        from <= s.len() ==> from <= find_byte(s, 10u8, from) <= s.len(),
        from > s.len() ==> find_byte(s, 10u8, from) == s.len(),
        find_byte(s, 10u8, from) < s.len() ==> s[find_byte(s, 10u8, from)] == 10u8,
        s.len() > 0 && s.last() == 10u8 && from < s.len() ==> find_byte(s, 10u8, from) < s.len(),
    decreases s.len() - from,
{
    if from < s.len() && s[from] != 10u8 {
        lemma_find_newline(s, from + 1);
    }
}

spec fn plan_props(s: Seq<u8>, start: int, attempts: nat, r: Seq<(int, int)>) -> bool {
    &&& r.len() <= attempts
    &&& (r.len() == 0 <==> start == s.len())
    &&& r.len() > 0 ==> r[0].0 == start && r.last().1 == tail_end(s)
    &&& forall|i: int| #![trigger r[i]] 0 <= i < r.len() ==> start <= r[i].0 && r[i].0 <= r[i].1 && r[i].1 <= s.len()
    &&& forall|i: int| 0 <= i < r.len() - 1 ==> #[trigger] r[i + 1].0 == r[i].1 + 1
    &&& forall|i: int| 0 <= i < r.len() - 1 ==> s[#[trigger] r[i].1] == 10u8
    &&& forall|i: int, j: int| 0 <= i < j < r.len() ==> #[trigger] r[i].1 < #[trigger] r[j].0
}

proof fn lemma_plan_from(s: Seq<u8>, start: int, nominal: int, attempts: nat)
    requires
        0 <= start <= s.len(),
        0 <= nominal,
        start == s.len() ==> s.len() > 0 && s.last() == 10u8,
        attempts * (nominal + 1) > s.len() - start,
    ensures
        plan_props(s, start, attempts, plan_from(s, start, nominal, attempts)),
    decreases attempts,
{
    let r = plan_from(s, start, nominal, attempts);
    if attempts == 0 {
        assert(start >= s.len()) by (nonlinear_arith)
            requires
                attempts * (nominal + 1) > s.len() - start,
                attempts == 0,
        ;
        assert(r =~= seq![]);
        assert(plan_props(s, start, attempts, r));
    } else if start >= s.len() {
        assert(r =~= seq![]);
        assert(plan_props(s, start, attempts, r));
    } else {
        lemma_find_newline(s, start + nominal);
        let t = find_byte(s, 10u8, start + nominal);
        if t < s.len() {
            let k = (attempts - 1) as nat;
            assert(k * (nominal + 1) > s.len() - (t + 1)) by (nonlinear_arith)
                requires
                    attempts * (nominal + 1) > s.len() - start,
                    k == attempts - 1,
                    t >= start + nominal,
            ;
            lemma_plan_from(s, t + 1, nominal, k);
            let rest = plan_from(s, t + 1, nominal, k);
            assert(r == seq![(start, t)] + rest);
            if rest.len() == 0 {
                assert(t + 1 == s.len());
                assert(r.last() == (start, t));
            } else {
                assert(r.last() == rest.last());
            }
            assert(r[0] == (start, t));
            assert forall|i: int, j: int| 0 <= i < j < r.len() implies #[trigger] r[i].1 < #[trigger] r[j].0 by {
                assert(r[j] == rest[j - 1]);
                assert(rest[j - 1].0 <= rest[j - 1].1);
                if i > 0 {
                    assert(r[i] == rest[i - 1]);
                    assert(rest[i - 1].1 < rest[j - 1].0);
                }
            }
            assert forall|i: int| 0 <= i < r.len() - 1 implies #[trigger] r[i + 1].0 == r[i].1
                + 1 by {
                assert(r[i + 1] == rest[i]);
                if i > 0 {
                    assert(r[i] == rest[i - 1]);
                    assert(rest[(i - 1) + 1].0 == rest[i - 1].1 + 1);
                } else {
                    assert(rest[0].0 == t + 1);
                }
            }
            assert forall|i: int| #![trigger r[i]] 0 <= i < r.len() implies start <= r[i].0 && r[i].0 <= r[i].1 && r[i].1
                <= s.len() by {
                if i > 0 {
                    assert(r[i] == rest[i - 1]);
                    assert(t + 1 <= rest[i - 1].0 <= rest[i - 1].1 <= s.len());
                }
            }
            assert forall|i: int| 0 <= i < r.len() - 1 implies s[#[trigger] r[i].1] == 10u8 by {
                if i > 0 {
                    assert(r[i] == rest[i - 1]);
                }
            }
            assert(plan_props(s, start, attempts, r));
        } else {
            assert(r == seq![(start, tail_end(s))]);
            assert(start <= tail_end(s));
            assert(plan_props(s, start, attempts, r));
        }
    }
}

/// The law of the planner: whatever the file and the number of workers, its ranges
/// cover the file, end on record boundaries and are no more than the workers.
pub proof fn lemma_plan_covers(s: Seq<u8>, workers: nat)
    requires
        workers >= 1,
    ensures
        covers(s, plan(s, workers)),
        plan(s, workers).len() <= workers,
{
    let nominal = (s.len() / workers) as int;
    vstd::arithmetic::div_mod::lemma_fundamental_div_mod(s.len() as int, workers as int);
    assert(workers * (nominal + 1) > s.len()) by (nonlinear_arith)
        requires
            s.len() == workers * nominal + (s.len() as int) % (workers as int),
            (s.len() as int) % (workers as int) < workers,
    ;
    if s.len() == 0 {
        assert(plan(s, workers) == Seq::<(int, int)>::empty());
    } else {
        lemma_plan_from(s, 0, nominal, workers);
    }
}

/// Cuts the file's bytes into at most `cpus` ranges that end on record boundaries.
pub fn get_intervals_for_cpus(cpus: usize, data: &[u8]) -> (r: Vec<Interval>)
    requires
        cpus >= 1,
    ensures
        r@.len() == plan(data@, cpus as nat).len(),
        forall|i: int|
            0 <= i < r@.len() ==> (#[trigger] r@[i].start as int, r@[i].end as int) == plan(
                data@,
                cpus as nat,
            )[i],
        covers(data@, plan(data@, cpus as nat)),
        r@.len() <= cpus,
{
    proof {
        lemma_plan_covers(data@, cpus as nat);
    }
    let n = data.len();
    let nominal = n / cpus;
    let ghost whole = plan(data@, cpus as nat);
    let mut intervals: Vec<Interval> = Vec::new();
    let mut start: usize = 0;
    let mut i: usize = 0;
    let mut done = false;
    while i < cpus && !done
        invariant
            n == data@.len(),
            nominal == n / cpus,
            i <= cpus,
            start <= n,
            whole == plan(data@, cpus as nat),
            done ==> whole.len() == intervals@.len(),
            !done ==> whole =~= intervals@.map_values(|iv: Interval| (iv.start as int, iv.end as int))
                + plan_from(data@, start as int, nominal as int, (cpus - i) as nat),
            forall|j: int|
                0 <= j < intervals@.len() ==> (#[trigger] intervals@[j].start as int,
                intervals@[j].end as int) == whole[j],
        decreases (cpus - i) * 2 + (if done {
            0int
        } else {
            1int
        }),
    {
        let ghost spans = intervals@.map_values(|iv: Interval| (iv.start as int, iv.end as int));
        if start >= n {
            assert(plan_from(data@, start as int, nominal as int, (cpus - i) as nat) =~= seq![]);
            done = true;
        } else {
            let cand: usize = if nominal >= n - start {
                n
            } else {
                start + nominal
            };
            proof {
                lemma_find_newline(data@, start + nominal);
                lemma_find_newline(data@, cand as int);
            }
            assert(find_byte(data@, 10u8, cand as int) == find_byte(
                data@,
                10u8,
                start + nominal,
            ));
            let mut t: usize = cand;
            while t < n && data[t] != 10u8
                invariant
                    cand <= t <= n == data@.len(),
                    find_byte(data@, 10u8, cand as int) == find_byte(data@, 10u8, t as int),
                decreases n - t,
            {
                t = t + 1;
            }
            if t < n {
                intervals.push(Interval { start: start as u64, end: t as u64 });
                start = t + 1;
                i = i + 1;
            } else {
                let e: usize = if n > 0 && data[n - 1] == 10u8 {
                    n - 1
                } else {
                    n
                };
                intervals.push(Interval { start: start as u64, end: e as u64 });
                done = true;
            }
            assert(intervals@.map_values(|iv: Interval| (iv.start as int, iv.end as int))
                =~= spans.push((intervals@.last().start as int, intervals@.last().end as int)));
        }
    }
    intervals
}

} // verus!

verus! {

/// No line of `s` is empty: a `\n` never opens the file nor follows another `\n`.
pub open spec fn no_empty_lines(s: Seq<u8>) -> bool {
    forall|i: int| 0 <= i < s.len() && #[trigger] s[i] == 10u8 ==> i > 0 && s[i - 1] != 10u8
}

/// The lines of each range, one range after the other.
pub open spec fn range_lines(s: Seq<u8>, r: Seq<(int, int)>) -> Seq<Seq<u8>>
    decreases r.len(),
{
    if r.len() == 0 {
        seq![]
    } else {
        lines(s.subrange(r[0].0, r[0].1)) + range_lines(s, r.drop_first())
    }
}

proof fn lemma_find_in_subrange(s: Seq<u8>, a: int, e: int, p: int)
    requires
        0 <= a <= p <= e <= s.len(),
    ensures
        find_byte(s.subrange(a, e), 10u8, p - a) == (if find_byte(s, 10u8, p) < e {
            find_byte(s, 10u8, p)
        } else {
            e
        }) - a,
    decreases e - p,
{
    lemma_find_newline(s, p);
    if p < e && s[p] != 10u8 {
        lemma_find_in_subrange(s, a, e, p + 1);
    }
}

proof fn lemma_find_at_most(s: Seq<u8>, p: int, q: int)
    requires
        0 <= p <= q < s.len(),
        s[q] == 10u8,
    ensures
        find_byte(s, 10u8, p) <= q,
    decreases q - p,
{
    if s[p] != 10u8 {
        lemma_find_at_most(s, p + 1, q);
    }
}

proof fn lemma_lines_of_range(s: Seq<u8>, a: int, e: int, p: int)
    requires
        0 <= a <= p <= e <= s.len(),
        e == s.len() || s[e] == 10u8,
        p < e || e == s.len(),
        no_empty_lines(s),
    ensures
        lines_from(s, p) == lines_from(s.subrange(a, e), p - a) + lines_from(s, e + 1),
    decreases e - p,
{
    let sub = s.subrange(a, e);
    lemma_find_newline(s, p);
    lemma_find_in_subrange(s, a, e, p);
    if p == e {
        assert(lines_from(s, p) =~= seq![]);
        assert(lines_from(s, e + 1) =~= seq![]);
        assert(lines_from(sub, p - a) =~= seq![]);
    } else {
        let t = find_byte(s, 10u8, p);
        if t < e {
            if t + 1 == e && e < s.len() {
                assert(s[e] == 10u8 && s[e - 1] == 10u8);
            }
            lemma_lines_of_range(s, a, e, t + 1);
            assert(sub.subrange(p - a, t - a) =~= s.subrange(p, t));
            assert(lines_from(s, p) =~= seq![s.subrange(p, t)] + lines_from(s, t + 1));
            assert(lines_from(sub, p - a) =~= seq![s.subrange(p, t)] + lines_from(sub, t + 1 - a));
        } else {
            assert(sub.subrange(p - a, e - a) =~= s.subrange(p, e));
            assert(lines_from(sub, p - a) =~= seq![s.subrange(p, e)]);
            if e < s.len() {
                lemma_find_at_most(s, p, e);
                assert(t == e);
                assert(lines_from(s, p) =~= seq![s.subrange(p, e)] + lines_from(s, e + 1));
            } else {
                assert(lines_from(s, e + 1) =~= seq![]);
                assert(lines_from(s, p) =~= seq![s.subrange(p, e)]);
            }
        }
    }
}

proof fn lemma_plan_lines(s: Seq<u8>, start: int, nominal: int, attempts: nat)
    requires
        0 <= start <= s.len(),
        0 <= nominal,
        start == 0 || s[start - 1] == 10u8,
        attempts * (nominal + 1) > s.len() - start,
        no_empty_lines(s),
    ensures
        lines_from(s, start) == range_lines(s, plan_from(s, start, nominal, attempts)),
    decreases attempts,
{
    let r = plan_from(s, start, nominal, attempts);
    if start < s.len() {
        assert(s[start] != 10u8);
    }
    if attempts == 0 {
        assert(start >= s.len()) by (nonlinear_arith)
            requires
                attempts * (nominal + 1) > s.len() - start,
                attempts == 0,
        ;
        assert(lines_from(s, start) =~= seq![]);
    } else if start >= s.len() {
        assert(lines_from(s, start) =~= seq![]);
    } else {
        lemma_find_newline(s, start + nominal);
        let t = find_byte(s, 10u8, start + nominal);
        if t < s.len() {
            let k = (attempts - 1) as nat;
            assert(k * (nominal + 1) > s.len() - (t + 1)) by (nonlinear_arith)
                requires
                    attempts * (nominal + 1) > s.len() - start,
                    k == attempts - 1,
                    t >= start + nominal,
            ;
            lemma_lines_of_range(s, start, t, start);
            lemma_plan_lines(s, t + 1, nominal, k);
            assert(r.drop_first() =~= plan_from(s, t + 1, nominal, k));
        } else {
            let e = tail_end(s);
            if e < s.len() {
                assert(s[s.len() - 1] == 10u8);
            }
            lemma_lines_of_range(s, start, e, start);
            assert(lines_from(s, e + 1) =~= seq![]);
            assert(r.drop_first() =~= seq![]);
            assert(range_lines(s, r.drop_first()) =~= seq![]);
        }
    }
}

/// Where no line is empty, the planned ranges hold the file's lines: the lines of
/// each range, one range after the other, are the lines of the whole file.
pub proof fn lemma_ranges_keep_lines(s: Seq<u8>, workers: nat)
    requires
        workers >= 1,
        no_empty_lines(s),
    ensures
        lines(s) == range_lines(s, plan(s, workers)),
{
    let nominal = (s.len() / workers) as int;
    vstd::arithmetic::div_mod::lemma_fundamental_div_mod(s.len() as int, workers as int);
    assert(workers * (nominal + 1) > s.len()) by (nonlinear_arith)
        requires
            s.len() == workers * nominal + (s.len() as int) % (workers as int),
            (s.len() as int) % (workers as int) < workers,
    ;
    lemma_plan_lines(s, 0, nominal, workers);
}

} // verus!

verus! {

proof fn lemma_range_lines_last(s: Seq<u8>, r: Seq<(int, int)>)
    requires
        r.len() > 0,
    ensures
        range_lines(s, r) == range_lines(s, r.drop_last()) + lines(s.subrange(r.last().0, r.last().1)),
    decreases r.len(),
{
    if r.len() == 1 {
        assert(r.drop_last() =~= seq![]);
        assert(range_lines(s, r.drop_first()) =~= seq![]);
        assert(range_lines(s, r) =~= lines(s.subrange(r[0].0, r[0].1)));
    } else {
        lemma_range_lines_last(s, r.drop_first());
        assert(r.drop_first().drop_last() =~= r.drop_last().drop_first());
        assert(r.drop_first().last() == r.last());
        assert(r.drop_last()[0] == r[0]);
    }
}

proof fn lemma_records_concat(a: Seq<Seq<u8>>, b: Seq<Seq<u8>>)
    requires
        records_of(a) is Ok,
        records_of(b) is Ok,
    ensures
        records_of(a + b) == Ok::<Seq<Reading>, ChunkError>(
            records_of(a)->Ok_0 + records_of(b)->Ok_0,
        ),
    decreases b.len(),
{
    if b.len() == 0 {
        assert(a + b =~= a);
        assert(records_of(a)->Ok_0 + records_of(b)->Ok_0 =~= records_of(a)->Ok_0);
    } else {
        lemma_records_concat(a, b.drop_last());
        assert((a + b).drop_last() =~= a + b.drop_last());
        assert((a + b).last() == b.last());
        let ra = records_of(a)->Ok_0;
        let rb = records_of(b.drop_last())->Ok_0;
        assert((ra + rb).push(records_of(b)->Ok_0.last()) =~= ra + records_of(b)->Ok_0);
    }
}

/// The records of each planned range.
pub open spec fn range_records(s: Seq<u8>, r: Seq<(int, int)>) -> Seq<Seq<Reading>> {
    r.map_values(|iv: (int, int)| records_of(lines(s.subrange(iv.0, iv.1)))->Ok_0)
}

proof fn lemma_range_records(s: Seq<u8>, r: Seq<(int, int)>)
    requires
        forall|i: int|
            0 <= i < r.len() ==> #[trigger] records_of(lines(s.subrange(r[i].0, r[i].1))) is Ok,
    ensures
        records_of(range_lines(s, r)) == Ok::<Seq<Reading>, ChunkError>(
            concat_all(range_records(s, r)),
        ),
    decreases r.len(),
{
    if r.len() == 0 {
        assert(range_lines(s, r) =~= seq![]);
        assert(concat_all(range_records(s, r)) =~= seq![]);
    } else {
        let init = r.drop_last();
        assert forall|i: int| 0 <= i < init.len() implies #[trigger] records_of(
            lines(s.subrange(init[i].0, init[i].1)),
        ) is Ok by {
            assert(init[i] == r[i]);
        }
        lemma_range_records(s, init);
        lemma_range_lines_last(s, r);
        assert(records_of(lines(s.subrange(r[r.len() - 1].0, r[r.len() - 1].1))) is Ok);
        lemma_records_concat(range_lines(s, init), lines(s.subrange(r.last().0, r.last().1)));
        assert(range_records(s, r).drop_last() =~= range_records(s, init));
    }
}

/// Where no line is empty and every planned range aggregates without error, the whole
/// file aggregates without error, to the merge, in order, of the ranges' results.
pub proof fn lemma_ranges_aggregate(s: Seq<u8>, workers: nat)
    requires
        workers >= 1,
        no_empty_lines(s),
        forall|i: int|
            0 <= i < plan(s, workers).len() ==> #[trigger] chunk_result(
                s.subrange(plan(s, workers)[i].0, plan(s, workers)[i].1),
            ) is Ok,
    ensures
        chunk_result(s) == Ok::<Map<u64, StationModel>, ChunkError>(
            merge_all(
                plan(s, workers).map_values(
                    |iv: (int, int)| chunk_result(s.subrange(iv.0, iv.1))->Ok_0,
                ),
            ),
        ),
{
    let r = plan(s, workers);
    lemma_ranges_keep_lines(s, workers);
    assert forall|i: int| 0 <= i < r.len() implies #[trigger] records_of(
        lines(s.subrange(r[i].0, r[i].1)),
    ) is Ok by {
        assert(chunk_result(s.subrange(r[i].0, r[i].1)) is Ok);
    }
    lemma_range_records(s, r);
    let cs = range_records(s, r);
    lemma_partition_independence(cs);
    assert(cs.map_values(|c: Seq<Reading>| aggregate(c)) =~= r.map_values(
        |iv: (int, int)| chunk_result(s.subrange(iv.0, iv.1))->Ok_0,
    ));
}

} // verus!
