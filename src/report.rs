use vstd::prelude::*;

use crate::aggregate::{all_wf, model, StationsMap};
use crate::stats::{mean, City, StationModel};
use crate::temperature::{format_tempreture, tenths_text};
use vstd::std_specs::cmp::OrdSpec;

verus! {

broadcast use {vstd::std_specs::btree::group_btree_axioms, vstd::laws_cmp::group_laws_cmp};

/// `min/mean/max`, each with one fractional digit.
pub open spec fn stats_text(s: StationModel) -> Seq<char> {
    tenths_text(s.min) + seq!['/'] + tenths_text(mean(s)) + seq!['/'] + tenths_text(s.max)
}

/// `name=min/mean/max`.
pub open spec fn entry_text(s: StationModel) -> Seq<char> {
    s.name + seq!['='] + stats_text(s)
}

/// The entries' texts, separated by `, `.
pub open spec fn entries_text(es: Seq<StationModel>) -> Seq<char>
    decreases es.len(),
{
    if es.len() == 0 {
        seq![]
    } else if es.len() == 1 {
        entry_text(es[0])
    } else {
        entries_text(es.drop_last()) + seq![',', ' '] + entry_text(es.last())
    }
}

/// `{` entries `}`.
pub open spec fn report_text(es: Seq<StationModel>) -> Seq<char> {
    seq!['{'] + entries_text(es) + seq!['}']
}

pub open spec fn strictly_increasing(ks: Seq<u64>) -> bool {
    forall|i: int, j: int| 0 <= i < j < ks.len() ==> #[trigger] ks[i] < #[trigger] ks[j]
}

/// `ks` lists the keys of `m` in increasing order.
pub open spec fn in_key_order(m: Map<u64, StationModel>, ks: Seq<u64>) -> bool {
    &&& strictly_increasing(ks)
    &&& forall|k: u64| #[trigger] m.contains_key(k) <==> ks.contains(k)
}

/// A map's keys have only one increasing order.
pub proof fn lemma_key_order_unique(m: Map<u64, StationModel>, a: Seq<u64>, b: Seq<u64>)
    requires
        in_key_order(m, a),
        in_key_order(m, b),
    ensures
        a == b,
{
    assert forall|x: u64| a.contains(x) <==> b.contains(x) by {
        assert(m.contains_key(x) <==> a.contains(x));
        assert(m.contains_key(x) <==> b.contains(x));
    }
    lemma_sorted_unique(a, b);
}

proof fn lemma_sorted_unique(a: Seq<u64>, b: Seq<u64>)
    requires
        strictly_increasing(a),
        strictly_increasing(b),
        forall|x: u64| a.contains(x) <==> b.contains(x),
    ensures
        a == b,
    decreases a.len(),
{
    if a.len() == 0 {
        if b.len() > 0 {
            assert(b.contains(b[0]));
        }
        assert(a =~= b);
    } else if b.len() == 0 {
        assert(a.contains(a[0]));
    } else {
        assert(a.contains(a[0]));
        assert(b.contains(b[0]));
        let i = choose|i: int| 0 <= i < a.len() && a[i] == b[0];
        let j = choose|j: int| 0 <= j < b.len() && b[j] == a[0];
        if i > 0 {
            assert(a[0] < a[i]);
        }
        if j > 0 {
            assert(b[0] < b[j]);
        }
        assert(a[0] == b[0]);
        let a1 = a.drop_first();
        let b1 = b.drop_first();
        assert forall|x: u64| a1.contains(x) <==> b1.contains(x) by {
            if a1.contains(x) {
                let p = choose|p: int| 0 <= p < a1.len() && a1[p] == x;
                assert(a[p + 1] == x);
                assert(a.contains(x));
                let q = choose|q: int| 0 <= q < b.len() && b[q] == x;
                assert(a[0] < a[p + 1]);
                assert(q != 0);
                assert(b1[q - 1] == x);
            }
            if b1.contains(x) {
                let p = choose|p: int| 0 <= p < b1.len() && b1[p] == x;
                assert(b[p + 1] == x);
                assert(b.contains(x));
                let q = choose|q: int| 0 <= q < a.len() && a[q] == x;
                assert(b[0] < b[p + 1]);
                assert(q != 0);
                assert(a1[q - 1] == x);
            }
        }
        lemma_sorted_unique(a1, b1);
        assert(a =~= seq![a[0]] + a1);
        assert(b =~= seq![b[0]] + b1);
    }
}

impl City {
    /// The statistics as `min/mean/max`, each with one fractional digit.
    pub fn to_text(&self) -> (r: String)
        requires
            self.wf(),
        ensures
            r@ == stats_text(self@),
    {
        let mut out = format_tempreture(self.min);
        proof {
            reveal_strlit("/");
        }
        out.append("/");
        out.append(format_tempreture(self.mean()).as_str());
        out.append("/");
        out.append(format_tempreture(self.max).as_str());
        assert(out@ =~= stats_text(self@));
        out
    }
}

/// The whole map as one line of text: `{name=min/mean/max, ...}`, in key order.
pub fn format_shared_map(m: &StationsMap) -> (r: String)
    requires
        all_wf(m@),
    ensures
        exists|ks: Seq<u64>|
            in_key_order(model(m@), ks) && r@ == report_text(
                ks.map_values(|k: u64| model(m@)[k]),
            ),
{
    let ghost mm = model(m@);
    let mut out = String::new();
    proof {
        reveal_strlit("{");
        reveal_strlit("}");
        reveal_strlit(", ");
        reveal_strlit("=");
    }
    out.append("{");
    let ghost mut ks: Seq<u64> = seq![];
    let mut first = true;
    for kv in it: m.iter()
        invariant
            mm == model(m@),
            all_wf(m@),
            it.seq().len() == m@.dom().len(),
            vstd::std_specs::btree::increasing_seq(it.seq().map_values(|kv: (&u64, &City)| *kv.0)),
            forall|k: u64|
                m@.contains_key(k) ==> exists|i: int|
                    0 <= i < it.seq().len() && *(#[trigger] it.seq()[i]).0 == k,
            forall|i: int|
                #![trigger it.seq()[i]]
                0 <= i < it.seq().len() ==> m@.contains_key(*it.seq()[i].0) && m@[*it.seq()[i].0]
                    == *it.seq()[i].1,
            ks.len() == it.index(),
            first <==> ks.len() == 0,
            forall|i: int| 0 <= i < ks.len() ==> #[trigger] ks[i] == *it.seq()[i].0,
            it.index() == it.seq().len() ==> in_key_order(mm, ks),
            out@ == seq!['{'] + entries_text(ks.map_values(|k: u64| mm[k])),
    {
        let (k, c) = kv;
        let ghost idx = it.index();
        assert(kv == it.seq()[idx]);
        assert(m@[*k].wf());
        let ghost es = ks.map_values(|k: u64| mm[k]);
        if !first {
            out.append(", ");
        }
        first = false;
        out.append(c.city.as_str());
        out.append("=");
        out.append(c.to_text().as_str());
        proof {
            ks = ks.push(*k);
        }
        let ghost es2 = ks.map_values(|k: u64| mm[k]);
        assert(es2.drop_last() =~= es);
        assert(es2.last() == c@);
        proof {
            reveal_strlit(", ");
            reveal_strlit("=");
        }
        assert(", "@ =~= seq![',', ' ']);
        assert("="@ =~= seq!['=']);
        proof {
            if ks.len() == 1 {
                assert(entries_text(es2) == entry_text(es2[0]));
            } else {
                assert(entries_text(es2) == entries_text(es) + seq![',', ' '] + entry_text(c@));
            }
        }
        assert(out@ =~= seq!['{'] + entries_text(es2));
        assert forall|i: int, j: int| 0 <= i < j < ks.len() implies #[trigger] ks[i] < #[trigger] ks[j] by {
            let keys = it.seq().map_values(|kv: (&u64, &City)| *kv.0);
            assert(keys[i] == ks[i] && keys[j] == ks[j]);
            assert(vstd::laws_cmp::obeys_cmp::<u64>());
            assert(vstd::std_specs::btree::increasing_seq(keys));
            assert(keys[i].cmp_spec(&keys[j]) is Less);
        }
        assert forall|k2: u64| #[trigger] mm.contains_key(k2) && idx + 1 == it.seq().len() implies ks.contains(k2) by {
            let i = choose|i: int| 0 <= i < it.seq().len() && *(#[trigger] it.seq()[i]).0 == k2;
            assert(ks[i] == k2);
        }
        assert forall|k2: u64| ks.contains(k2) implies #[trigger] mm.contains_key(k2) by {
            let i = choose|i: int| 0 <= i < ks.len() && ks[i] == k2;
            assert(it.seq()[i] == it.seq()[i]);
        }
    }
    out.append("}");
    assert(out@ =~= report_text(ks.map_values(|k: u64| mm[k])));
    out
}

} // verus!
