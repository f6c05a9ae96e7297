//! Engine-level laws, stated and proved over the contracts' models.

use vstd::prelude::*;

use crate::engine::{
    derives, event_records, frontier_derives, has_pair, initial_frontier_ok, singleton_pattern,
};
use crate::events::{events_of, EventSet};
use crate::joins::lemma_join_antimonotone;
use crate::records::{lemma_strictly_sorted_unique, sid_set, Record};

verus! {

/// Antimonotonicity along every expansion rule: a derived pattern's support —
/// its count of distinct sids — never exceeds either parent's, and its
/// id-list is no longer than the second parent's.
pub proof fn lemma_derives_antimonotone(
    ka: Seq<Set<usize>>,
    va: Seq<Record>,
    kb: Seq<Set<usize>>,
    vb: Seq<Record>,
    kc: Seq<Set<usize>>,
    vc: Seq<Record>,
)
    requires
        derives(ka, va, kb, vb, kc, vc),
    ensures
        sid_set(vc).subset_of(sid_set(va)),
        sid_set(vc).subset_of(sid_set(vb)),
        sid_set(vc).len() <= sid_set(va).len(),
        sid_set(vc).len() <= sid_set(vb).len(),
        vc.len() <= vb.len(),
{
    lemma_join_antimonotone(va, vb);
}

/// Support floor: every pattern admitted to a frontier by one expansion
/// level has a derivation from two parents of the previous frontier whose
/// id-lists each exceed the support threshold.
pub proof fn lemma_support_floor(
    fm: Map<Seq<Set<usize>>, Seq<Record>>,
    min_sup: usize,
    kc: Seq<Set<usize>>,
    vc: Seq<Record>,
)
    requires
        frontier_derives(fm, min_sup, kc, vc),
    ensures
        exists|ka: Seq<Set<usize>>, kb: Seq<Set<usize>>|
            #![auto]
            fm.contains_key(ka) && fm.contains_key(kb) && fm[ka].len() > min_sup
                && fm[kb].len() > min_sup && derives(ka, fm[ka], kb, fm[kb], kc, vc),
{
}

/// Each observation of a doubled stream is an observation of the stream.
proof fn lemma_has_pair_double(d: Seq<(Record, EventSet)>, e: usize, r: Record)
    ensures
        has_pair(d + d, e, r) <==> has_pair(d, e, r),
{
    if has_pair(d + d, e, r) {
        let i = choose|i: int|
            0 <= i < (d + d).len() && #[trigger] events_of((d + d)[i].1).contains(e)
                && (d + d)[i].0 == r;
        if i < d.len() {
            assert((d + d)[i] == d[i]);
            assert(events_of(d[i].1).contains(e) && d[i].0 == r);
        } else {
            assert((d + d)[i] == d[i - d.len()]);
            assert(events_of(d[i - d.len()].1).contains(e) && d[i - d.len()].0 == r);
        }
    }
    if has_pair(d, e, r) {
        let i = choose|i: int|
            0 <= i < d.len() && #[trigger] events_of(d[i].1).contains(e) && d[i].0 == r;
        assert((d + d)[i] == d[i]);
        assert(events_of((d + d)[i].1).contains(e) && (d + d)[i].0 == r);
    }
}

/// Ingestion is idempotent: a dataset ingested twice in sequence yields,
/// after deduplication, the same initial frontier as ingesting it once.
pub proof fn lemma_construct_idempotent(
    d: Seq<(Record, EventSet)>,
    m1: Map<Seq<Set<usize>>, Seq<Record>>,
    m2: Map<Seq<Set<usize>>, Seq<Record>>,
)
    requires
        initial_frontier_ok(d + d, m1),
        initial_frontier_ok(d, m2),
    ensures
        m1 == m2,
{
    assert forall|e: usize| #[trigger]
        event_records(d + d, e) == event_records(d, e) by {
        assert forall|r: Record|
            has_pair(d + d, e, r) <==> has_pair(d, e, r) by {
            lemma_has_pair_double(d, e, r);
        }
        assert(event_records(d + d, e) =~= event_records(d, e));
    }
    assert forall|k: Seq<Set<usize>>| #![auto] m1.contains_key(k) <==> m2.contains_key(
        k,
    ) by {
        if m1.contains_key(k) {
            let e = choose|e: usize| k == singleton_pattern(e);
            assert(m1.contains_key(singleton_pattern(e)));
            let r = choose|r: Record| has_pair(d + d, e, r);
            lemma_has_pair_double(d, e, r);
            assert(m2.contains_key(singleton_pattern(e)));
        }
        if m2.contains_key(k) {
            let e = choose|e: usize| k == singleton_pattern(e);
            assert(m2.contains_key(singleton_pattern(e)));
            let r = choose|r: Record| has_pair(d, e, r);
            lemma_has_pair_double(d, e, r);
            assert(m1.contains_key(singleton_pattern(e)));
        }
    }
    assert forall|k: Seq<Set<usize>>| #![auto]
        m1.contains_key(k) && m2.contains_key(k) implies m1[k] == m2[k] by {
        let e = choose|e: usize| k == singleton_pattern(e);
        assert(m1.contains_key(singleton_pattern(e)));
        assert(m2.contains_key(singleton_pattern(e)));
        assert(m1[k].to_set() == event_records(d + d, e));
        assert(m2[k].to_set() == event_records(d, e));
        assert(event_records(d + d, e) == event_records(d, e));
        lemma_strictly_sorted_unique(m1[k], m2[k]);
    }
    assert(m1 =~= m2);
}

} // verus!
