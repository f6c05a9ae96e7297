//! The mining engine: ingestion, one-level BFS expansion, and reporting.
//!
//! `Spade` holds the frontier (`stack`) of patterns alive at the current
//! level and the cumulative `store` of every pattern discovered.  Ingestion
//! builds the length-1 frontier; `next` grows it one level by the join rules,
//! pruning by minimum support; `report` orders the store for emission.

use vstd::multiset::Multiset;
use vstd::prelude::*;

use crate::events::{
    clone_pattern, clone_pattern_prefix, clone_records, es_clone, es_union_with, debug_listing,
    debug_text_of, events_of, listings_view, pattern_eq, pattern_eq_upto, pattern_view, EventSet,
    Pattern,
};
use crate::joins::{join_itemset, join_temporal, spec_join_itemset, spec_join_temporal};
use crate::records::{insert_record_sorted, strictly_sorted, Record};
use crate::table::{
    distinct_patterns, entries_view, find_pattern, lemma_entries_view_at,
    lemma_entries_view_congruent, lemma_entries_view_dom, lemma_entries_view_push,
    lemma_entries_view_update, pattern_ok, set_nonempty, table_wf,
};

verus! {

/// The length-1 pattern of a single event.
pub open spec fn singleton_pattern(e: usize) -> Seq<Set<usize>> {
    seq![Set::<usize>::empty().insert(e)]
}

/// Whether the stream `d` observes record `r` carrying event `e`.
pub open spec fn has_pair(d: Seq<(Record, EventSet)>, e: usize, r: Record) -> bool {
    exists|i: int|
        0 <= i < d.len() && #[trigger] events_of(d[i].1).contains(e) && d[i].0 == r
}

/// The records of the stream that carry event `e`.
pub open spec fn event_records(d: Seq<(Record, EventSet)>, e: usize) -> Set<Record> {
    Set::new(|r: Record| has_pair(d, e, r))
}

/// The initial frontier of stream `d`: one entry per event that occurs,
/// holding the sorted, deduplicated list of the records carrying it.
pub open spec fn initial_frontier_ok(
    d: Seq<(Record, EventSet)>,
    m: Map<Seq<Set<usize>>, Seq<Record>>,
) -> bool {
    &&& forall|e: usize| #[trigger]
        m.contains_key(singleton_pattern(e)) <==> exists|r: Record| has_pair(d, e, r)
    &&& forall|k: Seq<Set<usize>>| #[trigger]
        m.contains_key(k) ==> exists|e: usize| k == singleton_pattern(e)
    &&& forall|e: usize|
        m.contains_key(singleton_pattern(e)) ==> strictly_sorted(
            #[trigger] m[singleton_pattern(e)],
        ) && m[singleton_pattern(e)].to_set() == event_records(d, e)
}

/// Two equally long patterns with a common prefix: the child appends `kb`'s
/// suffix to `ka`, and its id-list is the temporal join of the parents'.
pub open spec fn rule_extend(
    ka: Seq<Set<usize>>,
    va: Seq<Record>,
    kb: Seq<Set<usize>>,
    vb: Seq<Record>,
    kc: Seq<Set<usize>>,
    vc: Seq<Record>,
) -> bool {
    &&& ka.len() == kb.len()
    &&& ka.len() >= 1
    &&& ka.drop_last() == kb.drop_last()
    &&& kc == ka.push(kb.last())
    &&& vc == spec_join_temporal(va, vb)
}

/// Two distinct, equally long patterns with a common prefix: the child
/// unites their suffixes, and its id-list is the itemset join.
pub open spec fn rule_combine(
    ka: Seq<Set<usize>>,
    va: Seq<Record>,
    kb: Seq<Set<usize>>,
    vb: Seq<Record>,
    kc: Seq<Set<usize>>,
    vc: Seq<Record>,
) -> bool {
    &&& ka.len() == kb.len()
    &&& ka.len() >= 1
    &&& ka.drop_last() == kb.drop_last()
    &&& ka != kb
    &&& kc == ka.drop_last().push(ka.last().union(kb.last()))
    &&& vc == spec_join_itemset(va, vb)
}

/// `ka` is `kb` without its last event set: the child re-extends `ka` by
/// that suffix, its id-list recomputed as the temporal join.
pub open spec fn rule_prefix(
    ka: Seq<Set<usize>>,
    va: Seq<Record>,
    kb: Seq<Set<usize>>,
    vb: Seq<Record>,
    kc: Seq<Set<usize>>,
    vc: Seq<Record>,
) -> bool {
    &&& ka.len() + 1 == kb.len()
    &&& kb.drop_last() == ka
    &&& kc == ka.push(kb.last())
    &&& vc == spec_join_temporal(va, vb)
}

/// Some expansion rule derives child (kc, vc) from the two parents.
pub open spec fn derives(
    ka: Seq<Set<usize>>,
    va: Seq<Record>,
    kb: Seq<Set<usize>>,
    vb: Seq<Record>,
    kc: Seq<Set<usize>>,
    vc: Seq<Record>,
) -> bool {
    ||| rule_extend(ka, va, kb, vb, kc, vc)
    ||| rule_combine(ka, va, kb, vb, kc, vc)
    ||| rule_prefix(ka, va, kb, vb, kc, vc)
}

/// The child (kc, vc) has a derivation from two frontier patterns whose
/// id-lists exceed the support threshold.
pub open spec fn frontier_derives(
    fm: Map<Seq<Set<usize>>, Seq<Record>>,
    min_sup: usize,
    kc: Seq<Set<usize>>,
    vc: Seq<Record>,
) -> bool {
    exists|ka: Seq<Set<usize>>, kb: Seq<Set<usize>>|
        #![auto]
        fm.contains_key(ka) && fm.contains_key(kb) && fm[ka].len() > min_sup
            && fm[kb].len() > min_sup && derives(ka, fm[ka], kb, fm[kb], kc, vc)
}

/// The sequential pattern miner: the frontier of the current BFS level and
/// the cumulative store of every discovered pattern, each mapping patterns
/// to their id-lists.
pub struct Spade {
    pub stack: Vec<(Pattern, Vec<Record>)>,
    pub store: Vec<(Pattern, Vec<Record>)>,
}

impl Spade {
    /// The frontier, as a map from pattern views to id-list views.
    pub open spec fn stack_view(&self) -> Map<Seq<Set<usize>>, Seq<Record>> {
        entries_view(self.stack@)
    }

    /// The store, as a map from pattern views to id-list views.
    pub open spec fn store_view(&self) -> Map<Seq<Set<usize>>, Seq<Record>> {
        entries_view(self.store@)
    }

    /// Both tables are well formed: distinct non-empty patterns, strictly
    /// sorted id-lists.
    pub open spec fn wf(&self) -> bool {
        table_wf(self.stack@) && table_wf(self.store@)
    }

    /// An empty engine.
    pub fn new() -> (s: Spade)
        ensures
            s.wf(),
            s.stack_view() == Map::<Seq<Set<usize>>, Seq<Record>>::empty(),
            s.store_view() == Map::<Seq<Set<usize>>, Seq<Record>>::empty(),
    {
        Spade { stack: Vec::new(), store: Vec::new() }
    }
}

/// The records for `e` while a pair is partly ingested: those of the pairs
/// already done, plus the current pair's record if `e` was already reached.
pub open spec fn partial_records(
    d: Seq<(Record, EventSet)>,
    evs: Seq<usize>,
    r0: Record,
    e: usize,
) -> Set<Record> {
    if evs.contains(e) {
        event_records(d, e).insert(r0)
    } else {
        event_records(d, e)
    }
}

/// The frontier in the middle of ingesting one pair: the pairs of `d` are
/// done, and of the current pair (record `r0`) the events `evs` are done.
pub open spec fn partial_frontier_ok(
    d: Seq<(Record, EventSet)>,
    evs: Seq<usize>,
    r0: Record,
    m: Map<Seq<Set<usize>>, Seq<Record>>,
) -> bool {
    &&& forall|e: usize| #[trigger]
        m.contains_key(singleton_pattern(e)) <==> (exists|r: Record| has_pair(d, e, r))
            || evs.contains(e)
    &&& forall|k: Seq<Set<usize>>| #[trigger]
        m.contains_key(k) ==> exists|e: usize| k == singleton_pattern(e)
    &&& forall|e: usize|
        m.contains_key(singleton_pattern(e)) ==> strictly_sorted(
            #[trigger] m[singleton_pattern(e)],
        ) && m[singleton_pattern(e)].to_set() == partial_records(d, evs, r0, e)
}

/// Equal singleton patterns name the same event.
proof fn lemma_singleton_injective(e1: usize, e2: usize)
    ensures
        singleton_pattern(e1) == singleton_pattern(e2) ==> e1 == e2,
{
    if singleton_pattern(e1) == singleton_pattern(e2) {
        assert(singleton_pattern(e1)[0].contains(e1));
        assert(singleton_pattern(e2)[0].contains(e1));
    }
}

/// Taking one more pair of the stream adds that pair's observations.
proof fn lemma_has_pair_extend(d: Seq<(Record, EventSet)>, di: int, e: usize, r: Record)
    requires
        0 <= di < d.len(),
    ensures
        has_pair(d.take(di + 1), e, r) <==> has_pair(d.take(di), e, r) || (events_of(
            d[di].1,
        ).contains(e) && d[di].0 == r),
{
    let t1 = d.take(di + 1);
    let t0 = d.take(di);
    if has_pair(t1, e, r) {
        let i = choose|i: int|
            0 <= i < t1.len() && #[trigger] events_of(t1[i].1).contains(e) && t1[i].0
                == r;
        if i < di {
            assert(t0[i] == t1[i]);
            assert(events_of(t0[i].1).contains(e) && t0[i].0 == r);
        } else {
            assert(t1[i] == d[di]);
        }
    }
    if has_pair(t0, e, r) {
        let i = choose|i: int|
            0 <= i < t0.len() && #[trigger] events_of(t0[i].1).contains(e) && t0[i].0
                == r;
        assert(t1[i] == t0[i]);
        assert(events_of(t1[i].1).contains(e) && t1[i].0 == r);
    }
    if events_of(d[di].1).contains(e) && d[di].0 == r {
        assert(t1[di] == d[di]);
        assert(events_of(t1[di].1).contains(e) && t1[di].0 == r);
    }
}

impl Spade {
    /// Build an engine from a finite stream of observations.  For each pair
    /// and each event in its event set, the record is added to the id-list
    /// of that event's length-1 pattern; the lists come out sorted and
    /// deduplicated, and the store starts out equal to the frontier.
    #[verifier::rlimit(100)]
    #[verifier::spinoff_prover]
    pub fn construct(data: Vec<(Record, EventSet)>) -> (s: Spade)
        ensures
            s.wf(),
            initial_frontier_ok(data@, s.stack_view()),
            s.store_view() == s.stack_view(),
    {
        let mut stack: Vec<(Pattern, Vec<Record>)> = Vec::new();
        let mut di: usize = 0;
        proof {
            assert(data@.take(0) =~= Seq::<(Record, EventSet)>::empty());
        }
        while di < data.len()
            invariant
                0 <= di <= data@.len(),
                table_wf(stack@),
                initial_frontier_ok(data@.take(di as int), entries_view(stack@)),
            decreases data@.len() - di,
        {
            let r0 = data[di].0;
            let evs = data[di].1.events();
            let ghost d0 = data@.take(di as int);
            let mut ei: usize = 0;
            proof {
                assert(evs@.take(0) =~= Seq::<usize>::empty());
                assert forall|e: usize| #[trigger]
                    entries_view(stack@).contains_key(singleton_pattern(e))
                    implies entries_view(stack@)[singleton_pattern(e)].to_set()
                    == partial_records(d0, evs@.take(0), r0, e) by {}
                assert(partial_frontier_ok(d0, evs@.take(0), r0, entries_view(stack@)));
            }
            while ei < evs.len()
                invariant
                    0 <= ei <= evs@.len(),
                    table_wf(stack@),
                    d0 == data@.take(di as int),
                    forall|i: int, j: int| 0 <= i < j < evs@.len() ==> evs@[i] < evs@[j],
                    forall|i: int| 0 <= i < evs@.len() ==> (#[trigger] evs@[i]) < usize::MAX,
                    partial_frontier_ok(d0, evs@.take(ei as int), r0, entries_view(
                        stack@,
                    )),
                decreases evs@.len() - ei,
            {
                let e = evs[ei];
                let ghost pre = evs@.take(ei as int);
                let ghost m_pre = entries_view(stack@);
                proof {
                    assert(evs@.take(ei as int + 1) =~= pre.push(e));
                    assert(!pre.contains(e)) by {
                        if pre.contains(e) {
                            let k = choose|k: int| 0 <= k < pre.len() && pre[k] == e;
                            assert(evs@[k] == e && k < ei);
                        }
                    }
                }
                let mut es = EventSet::new();
                es.insert(e);
                let mut pat: Pattern = Vec::new();
                pat.push(es);
                proof {
                    assert(pattern_view(pat@) =~= singleton_pattern(e));
                }
                match find_pattern(&stack, &pat) {
                    Some(idx) => {
                        proof {
                            lemma_entries_view_at(stack@, idx as int);
                            assert(m_pre.contains_key(singleton_pattern(e)));
                            assert(m_pre[singleton_pattern(e)] == stack@[idx as int].1@);
                        }
                        let ghost old_stack = stack@;
                        insert_record_sorted(&mut stack[idx].1, r0);
                        proof {
                            assert(stack@ =~= old_stack.update(
                                idx as int,
                                (old_stack[idx as int].0, stack@[idx as int].1),
                            ));
                            lemma_entries_view_update(
                                old_stack,
                                idx as int,
                                stack@[idx as int],
                            );
                        }
                    },
                    None => {
                        proof {
                            lemma_entries_view_dom(stack@, singleton_pattern(e));
                            assert(!m_pre.contains_key(singleton_pattern(e)));
                        }
                        let mut list: Vec<Record> = Vec::new();
                        list.push(r0);
                        let ghost old_stack = stack@;
                        stack.push((pat, list));
                        proof {
                            lemma_entries_view_push(
                                old_stack,
                                stack@[old_stack.len() as int],
                            );
                            let l = stack@[old_stack.len() as int].1@;
                            assert forall|x: Record|
                                l.to_set().contains(x) <==> Set::<Record>::empty().insert(
                                r0,
                            ).contains(x) by {
                                if l.to_set().contains(x) {
                                    let k = choose|k: int| 0 <= k < l.len() && l[k] == x;
                                    assert(x == r0);
                                }
                                if x == r0 {
                                    assert(l[0] == r0);
                                    assert(l.contains(r0));
                                }
                            }
                            assert(l.to_set() =~= Set::<Record>::empty().insert(r0));
                            assert forall|i: int, j: int|
                                0 <= i < j < stack@.len() implies pattern_view(
                                stack@[i].0@,
                            ) != pattern_view(stack@[j].0@) by {
                                if j == stack@.len() - 1 {
                                    assert(pattern_view(old_stack[i].0@) != pattern_view(
                                        pat@,
                                    ));
                                }
                            }
                            assert(set_nonempty(singleton_pattern(e)[0])) by {
                                assert(singleton_pattern(e)[0].contains(e));
                            }
                            assert(pattern_ok(pattern_view(stack@[stack@.len() - 1].0@)));
                        }
                    },
                }
                proof {
                    let m_new = entries_view(stack@);
                    let k_e = singleton_pattern(e);
                    let added = partial_records(d0, pre, r0, e).insert(r0);
                    assert(m_new == m_pre.insert(k_e, m_new[k_e]));
                    assert(m_new[k_e].to_set() == added);
                    assert(strictly_sorted(m_new[k_e]));
                    assert forall|e2: usize| #[trigger]
                        m_new.contains_key(singleton_pattern(e2)) <==> (exists|r: Record|
                        has_pair(d0, e2, r)) || pre.push(e).contains(e2) by {
                        lemma_singleton_injective(e, e2);
                        if e2 == e {
                            assert(pre.push(e).contains(e)) by {
                                assert(pre.push(e)[pre.len() as int] == e);
                            }
                        } else {
                            assert(m_new.contains_key(singleton_pattern(e2))
                                == m_pre.contains_key(singleton_pattern(e2)));
                            assert(pre.push(e).contains(e2) == pre.contains(e2)) by {
                                if pre.push(e).contains(e2) {
                                    let k = choose|k: int|
                                        0 <= k < pre.push(e).len() && pre.push(e)[k]
                                            == e2;
                                    if k < pre.len() {
                                        assert(pre[k] == e2);
                                    }
                                }
                                if pre.contains(e2) {
                                    let k = choose|k: int|
                                        0 <= k < pre.len() && pre[k] == e2;
                                    assert(pre.push(e)[k] == e2);
                                }
                            }
                        }
                    }
                    assert forall|e2: usize|
                        m_new.contains_key(singleton_pattern(e2)) implies strictly_sorted(
                        #[trigger] m_new[singleton_pattern(e2)],
                    ) && m_new[singleton_pattern(e2)].to_set() == partial_records(
                        d0,
                        pre.push(e),
                        r0,
                        e2,
                    ) by {
                        lemma_singleton_injective(e, e2);
                        if e2 == e {
                            assert(partial_records(d0, pre.push(e), r0, e)
                                =~= added) by {
                                assert(pre.push(e)[pre.len() as int] == e);
                                assert(pre.push(e).contains(e));
                                assert(!pre.contains(e));
                            }
                        } else {
                            assert(m_new[singleton_pattern(e2)] == m_pre[
                                singleton_pattern(e2)]);
                            assert(pre.push(e).contains(e2) == pre.contains(e2)) by {
                                if pre.push(e).contains(e2) {
                                    let k = choose|k: int|
                                        0 <= k < pre.push(e).len() && pre.push(e)[k]
                                            == e2;
                                    if k < pre.len() {
                                        assert(pre[k] == e2);
                                    }
                                }
                                if pre.contains(e2) {
                                    let k = choose|k: int|
                                        0 <= k < pre.len() && pre[k] == e2;
                                    assert(pre.push(e)[k] == e2);
                                }
                            }
                            assert(partial_records(d0, pre.push(e), r0, e2)
                                == partial_records(d0, pre, r0, e2));
                        }
                    }
                    assert forall|k: Seq<Set<usize>>| #[trigger]
                        m_new.contains_key(k) implies exists|e2: usize|
                        k == singleton_pattern(e2) by {
                        if k != k_e {
                            assert(m_pre.contains_key(k));
                        }
                    }
                    assert(partial_frontier_ok(d0, pre.push(e), r0, m_new));
                }
                ei += 1;
            }
            proof {
                let m = entries_view(stack@);
                let full = evs@;
                assert(full.take(full.len() as int) =~= full);
                let d1 = data@.take(di as int + 1);
                assert forall|e: usize|
                    full.contains(e) <==> events_of(data@[di as int].1).contains(e) by {
                    assert(full.to_set() == events_of(data@[di as int].1));
                    if full.contains(e) {
                        assert(full.to_set().contains(e));
                    }
                    if events_of(data@[di as int].1).contains(e) {
                        assert(full.to_set().contains(e));
                    }
                }
                assert forall|e: usize| #[trigger]
                    m.contains_key(singleton_pattern(e)) <==> exists|r: Record|
                    has_pair(d1, e, r) by {
                    if m.contains_key(singleton_pattern(e)) {
                        if exists|r: Record| has_pair(d0, e, r) {
                            let r = choose|r: Record| has_pair(d0, e, r);
                            lemma_has_pair_extend(data@, di as int, e, r);
                            assert(has_pair(d1, e, r));
                        } else {
                            assert(full.contains(e));
                            lemma_has_pair_extend(data@, di as int, e, r0);
                            assert(has_pair(d1, e, r0));
                        }
                    }
                    if exists|r: Record| has_pair(d1, e, r) {
                        let r = choose|r: Record| has_pair(d1, e, r);
                        lemma_has_pair_extend(data@, di as int, e, r);
                    }
                }
                assert forall|e: usize|
                    m.contains_key(singleton_pattern(e)) implies (#[trigger] m[
                    singleton_pattern(e)]).to_set() == event_records(d1, e) by {
                    assert(m[singleton_pattern(e)].to_set() == partial_records(
                        d0,
                        full,
                        r0,
                        e,
                    ));
                    assert forall|r: Record|
                        partial_records(d0, full, r0, e).contains(r) <==> event_records(
                        d1,
                        e,
                    ).contains(r) by {
                        lemma_has_pair_extend(data@, di as int, e, r);
                    }
                    assert(partial_records(d0, full, r0, e) =~= event_records(d1, e));
                }
                assert(initial_frontier_ok(d1, m));
            }
            di += 1;
        }
        proof {
            assert(data@.take(data@.len() as int) =~= data@);
        }
        let mut store: Vec<(Pattern, Vec<Record>)> = Vec::new();
        let mut si: usize = 0;
        while si < stack.len()
            invariant
                0 <= si <= stack@.len(),
                store@.len() == si,
                table_wf(stack@),
                forall|i: int|
                    0 <= i < si ==> pattern_view(#[trigger] store@[i].0@) == pattern_view(
                        stack@[i].0@,
                    ) && store@[i].1@ == stack@[i].1@,
            decreases stack@.len() - si,
        {
            let p = clone_pattern(&stack[si].0);
            let l = clone_records(&stack[si].1);
            store.push((p, l));
            si += 1;
        }
        proof {
            lemma_entries_view_congruent(store@, stack@);
            assert(distinct_patterns(store@));
            assert(forall|i: int|
                0 <= i < store@.len() ==> strictly_sorted(#[trigger] store@[i].1@));
            assert(forall|i: int|
                0 <= i < store@.len() ==> pattern_ok(pattern_view(
                    #[trigger] store@[i].0@,
                )));
            assert(table_wf(store@));
        }
        Spade { stack, store }
    }
}

/// The frontier after appending `r` to the id-list of each singleton
/// pattern of `es`, creating entries for events not seen before.  The
/// appended lists are not re-sorted: that is the caller's duty when
/// bypassing `construct`.
pub open spec fn frontier_after_insert(
    m: Map<Seq<Set<usize>>, Seq<Record>>,
    es: Set<usize>,
    r: Record,
) -> Map<Seq<Set<usize>>, Seq<Record>> {
    Map::new(
        |k: Seq<Set<usize>>|
            m.contains_key(k) || exists|e: usize|
                es.contains(e) && k == singleton_pattern(e),
        |k: Seq<Set<usize>>|
            if exists|e: usize| es.contains(e) && k == singleton_pattern(e) {
                (if m.contains_key(k) {
                    m[k]
                } else {
                    Seq::<Record>::empty()
                }).push(r)
            } else {
                m[k]
            },
    )
}

/// Appending under one more event touches that event's singleton key alone.
proof fn lemma_frontier_insert_step(
    m: Map<Seq<Set<usize>>, Seq<Record>>,
    s: Set<usize>,
    e: usize,
    r: Record,
)
    requires
        !s.contains(e),
    ensures
        frontier_after_insert(m, s.insert(e), r) == frontier_after_insert(m, s, r).insert(
            singleton_pattern(e),
            (if m.contains_key(singleton_pattern(e)) {
                m[singleton_pattern(e)]
            } else {
                Seq::<Record>::empty()
            }).push(r),
        ),
{
    let lhs = frontier_after_insert(m, s.insert(e), r);
    let rhs = frontier_after_insert(m, s, r).insert(
        singleton_pattern(e),
        (if m.contains_key(singleton_pattern(e)) {
            m[singleton_pattern(e)]
        } else {
            Seq::<Record>::empty()
        }).push(r),
    );
    assert forall|k: Seq<Set<usize>>| #![auto] lhs.contains_key(k) <==> rhs.contains_key(
        k,
    ) by {
        if k == singleton_pattern(e) {
            assert(s.insert(e).contains(e));
            assert(lhs.contains_key(k));
        } else {
            assert forall|e2: usize|
                s.insert(e).contains(e2) && k == singleton_pattern(e2)
                    implies s.contains(e2) && k == singleton_pattern(e2) by {
                lemma_singleton_injective(e, e2);
            }
        }
    }
    assert forall|k: Seq<Set<usize>>| #![auto]
        lhs.contains_key(k) && rhs.contains_key(k) implies lhs[k] == rhs[k] by {
        if k == singleton_pattern(e) {
            assert(s.insert(e).contains(e));
            assert forall|e2: usize|
                !(s.contains(e2) && k == singleton_pattern(e2)) by {
                lemma_singleton_injective(e, e2);
            }
        } else {
            assert forall|e2: usize|
                s.insert(e).contains(e2) && k == singleton_pattern(e2)
                    implies s.contains(e2) by {
                lemma_singleton_injective(e, e2);
            }
            assert forall|e2: usize|
                s.contains(e2) && k == singleton_pattern(e2) implies s.insert(
                e,
            ).contains(e2) by {}
        }
    }
    assert(lhs =~= rhs);
}

impl Spade {
    /// Record one observation on the frontier: for each event of the set,
    /// append the record to that event's singleton-pattern id-list.  Lists
    /// are appended to in place, without re-sorting; `construct` is the
    /// ingestion path that leaves the frontier sorted.
    pub fn insert(&mut self, record: Record, event_set: EventSet)
        requires
            distinct_patterns(old(self).stack@),
        ensures
            distinct_patterns(final(self).stack@),
            final(self).stack_view() == frontier_after_insert(
                old(self).stack_view(),
                events_of(event_set),
                record,
            ),
            final(self).store@ == old(self).store@,
    {
        let evs = event_set.events();
        let ghost m0 = entries_view(self.stack@);
        let mut ei: usize = 0;
        proof {
            assert(evs@.take(0) =~= Seq::<usize>::empty());
            assert(evs@.take(0).to_set() =~= Set::<usize>::empty());
            assert(frontier_after_insert(m0, Set::<usize>::empty(), record) =~= m0);
        }
        while ei < evs.len()
            invariant
                0 <= ei <= evs@.len(),
                distinct_patterns(self.stack@),
                self.store@ == old(self).store@,
                forall|i: int, j: int| 0 <= i < j < evs@.len() ==> evs@[i] < evs@[j],
                forall|i: int| 0 <= i < evs@.len() ==> (#[trigger] evs@[i]) < usize::MAX,
                evs@.to_set() == events_of(event_set),
                m0 == old(self).stack_view(),
                entries_view(self.stack@) == frontier_after_insert(
                    m0,
                    evs@.take(ei as int).to_set(),
                    record,
                ),
            decreases evs@.len() - ei,
        {
            let e = evs[ei];
            let ghost pre = evs@.take(ei as int).to_set();
            let ghost m_cur = entries_view(self.stack@);
            proof {
                assert(!pre.contains(e)) by {
                    if evs@.take(ei as int).contains(e) {
                        let k = choose|k: int|
                            0 <= k < ei && evs@.take(ei as int)[k] == e;
                        assert(evs@[k] == e && k < ei);
                    }
                }
                assert(evs@.take(ei as int + 1) =~= evs@.take(ei as int).push(e));
                assert forall|x: usize|
                    evs@.take(ei as int + 1).to_set().contains(x) <==> pre.insert(
                    e,
                ).contains(x) by {
                    if evs@.take(ei as int + 1).contains(x) {
                        let k = choose|k: int|
                            0 <= k < ei + 1 && #[trigger] evs@.take(ei as int + 1)[k]
                                == x;
                        if k < ei {
                            assert(evs@.take(ei as int)[k] == x);
                        }
                    }
                    if pre.contains(x) {
                        let k = choose|k: int|
                            0 <= k < ei && evs@.take(ei as int)[k] == x;
                        assert(evs@.take(ei as int + 1)[k] == x);
                    }
                    if x == e {
                        assert(evs@.take(ei as int + 1)[ei as int] == e);
                    }
                }
                assert(evs@.take(ei as int + 1).to_set() =~= pre.insert(e));
                lemma_frontier_insert_step(m0, pre, e, record);
                assert forall|e2: usize|
                    !(pre.contains(e2) && singleton_pattern(e) == singleton_pattern(
                        e2,
                    )) by {
                    lemma_singleton_injective(e, e2);
                }
                assert(m_cur.contains_key(singleton_pattern(e)) == m0.contains_key(
                    singleton_pattern(e),
                ));
                if m0.contains_key(singleton_pattern(e)) {
                    assert(m_cur[singleton_pattern(e)] == m0[singleton_pattern(e)]);
                }
            }
            let mut es = EventSet::new();
            es.insert(e);
            let mut pat: Pattern = Vec::new();
            pat.push(es);
            proof {
                assert(pattern_view(pat@) =~= singleton_pattern(e));
            }
            match find_pattern(&self.stack, &pat) {
                Some(idx) => {
                    proof {
                        lemma_entries_view_at(self.stack@, idx as int);
                    }
                    let ghost old_stack = self.stack@;
                    self.stack[idx].1.push(record);
                    proof {
                        assert(self.stack@ =~= old_stack.update(
                            idx as int,
                            (old_stack[idx as int].0, self.stack@[idx as int].1),
                        ));
                        lemma_entries_view_update(
                            old_stack,
                            idx as int,
                            self.stack@[idx as int],
                        );
                    }
                },
                None => {
                    proof {
                        lemma_entries_view_dom(self.stack@, singleton_pattern(e));
                        assert(!m_cur.contains_key(singleton_pattern(e)));
                    }
                    let mut list: Vec<Record> = Vec::new();
                    list.push(record);
                    let ghost old_stack = self.stack@;
                    self.stack.push((pat, list));
                    proof {
                        lemma_entries_view_push(
                            old_stack,
                            self.stack@[old_stack.len() as int],
                        );
                        assert(self.stack@[old_stack.len() as int].1@
                            =~= Seq::<Record>::empty().push(record));
                        assert forall|i: int, j: int|
                            0 <= i < j < self.stack@.len() implies pattern_view(
                            self.stack@[i].0@,
                        ) != pattern_view(self.stack@[j].0@) by {
                            if j == self.stack@.len() - 1 {
                                assert(pattern_view(old_stack[i].0@) != pattern_view(
                                    pat@,
                                ));
                            }
                        }
                    }
                },
            }
            ei += 1;
        }
        proof {
            assert(evs@.take(evs@.len() as int) =~= evs@);
        }
    }
}

/// The running state of one expansion level: a well-formed table whose every
/// entry is derived from supported parents of the frontier `m0` and itself
/// exceeds the support threshold.
pub open spec fn level_inv(
    s: Seq<(Pattern, Vec<Record>)>,
    m0: Map<Seq<Set<usize>>, Seq<Record>>,
    min_sup: usize,
) -> bool {
    &&& table_wf(s)
    &&& forall|k: Seq<Set<usize>>| #[trigger]
        entries_view(s).contains_key(k) ==> frontier_derives(
            m0,
            min_sup,
            k,
            entries_view(s)[k],
        ) && entries_view(s)[k].len() > min_sup
}

/// Append a freshly derived entry, keeping the level state.
fn push_derived(
    result: &mut Vec<(Pattern, Vec<Record>)>,
    child: Pattern,
    list: Vec<Record>,
    min_sup: usize,
    Ghost(m0): Ghost<Map<Seq<Set<usize>>, Seq<Record>>>,
)
    requires
        level_inv(old(result)@, m0, min_sup),
        forall|i: int|
            0 <= i < old(result)@.len() ==> pattern_view(#[trigger] old(
                result,
            )@[i].0@) != pattern_view(child@),
        frontier_derives(m0, min_sup, pattern_view(child@), list@),
        list@.len() > min_sup,
        strictly_sorted(list@),
        pattern_ok(pattern_view(child@)),
    ensures
        level_inv(final(result)@, m0, min_sup),
        entries_view(final(result)@) == entries_view(old(result)@).insert(
            pattern_view(child@),
            list@,
        ),
{
    let ghost old_result = result@;
    result.push((child, list));
    proof {
        lemma_entries_view_push(old_result, result@[old_result.len() as int]);
        assert forall|i: int, j: int|
            0 <= i < j < result@.len() implies pattern_view(result@[i].0@)
            != pattern_view(result@[j].0@) by {
            if j == result@.len() - 1 {
                assert(pattern_view(old_result[i].0@) != pattern_view(
                    result@[j].0@,
                ));
            }
        }
        let kc = pattern_view(result@[old_result.len() as int].0@);
        assert forall|k: Seq<Set<usize>>| #[trigger]
            entries_view(result@).contains_key(k) implies frontier_derives(
            m0,
            min_sup,
            k,
            entries_view(result@)[k],
        ) && entries_view(result@)[k].len() > min_sup by {
            if k != kc {
                assert(entries_view(old_result).contains_key(k));
                assert(entries_view(result@)[k] == entries_view(old_result)[k]);
            }
        }
    }
}

/// Emit the temporal extension of `pa` by `pb`'s suffix, if its pattern is
/// new and its id-list keeps enough support.
fn emit_temporal(
    result: &mut Vec<(Pattern, Vec<Record>)>,
    pa: &Pattern,
    la: &Vec<Record>,
    pb: &Pattern,
    lb: &Vec<Record>,
    min_sup: usize,
    Ghost(m0): Ghost<Map<Seq<Set<usize>>, Seq<Record>>>,
)
    requires
        level_inv(old(result)@, m0, min_sup),
        strictly_sorted(la@),
        strictly_sorted(lb@),
        pattern_ok(pattern_view(pa@)),
        pattern_ok(pattern_view(pb@)),
        m0.contains_key(pattern_view(pa@)),
        m0[pattern_view(pa@)] == la@,
        la@.len() > min_sup,
        m0.contains_key(pattern_view(pb@)),
        m0[pattern_view(pb@)] == lb@,
        lb@.len() > min_sup,
        (pattern_view(pa@).len() == pattern_view(pb@).len() && pattern_view(
            pa@,
        ).drop_last() == pattern_view(pb@).drop_last()) || (pattern_view(pa@).len() + 1
            == pattern_view(pb@).len() && pattern_view(pb@).drop_last() == pattern_view(
            pa@,
        )),
    ensures
        level_inv(final(result)@, m0, min_sup),
        forall|k: Seq<Set<usize>>| #[trigger]
            entries_view(old(result)@).contains_key(k) ==> entries_view(
                final(result)@,
            ).contains_key(k),
        spec_join_temporal(la@, lb@).len() > min_sup ==> entries_view(
            final(result)@,
        ).contains_key(pattern_view(pa@).push(pattern_view(pb@).last())),
{
    let mut child: Pattern = clone_pattern(pa);
    child.push(es_clone(&pb[pb.len() - 1]));
    proof {
        assert(pattern_view(child@) =~= pattern_view(pa@).push(
            pattern_view(pb@).last(),
        ));
    }
    match find_pattern(result, &child) {
        Some(i) => {
            proof {
                lemma_entries_view_dom(result@, pattern_view(child@));
                assert(pattern_view(result@[i as int].0@) == pattern_view(child@));
            }
        },
        None => {
            let list = join_temporal(la, lb);
            if list.len() > min_sup {
                proof {
                    let ka = pattern_view(pa@);
                    let kb = pattern_view(pb@);
                    let kc = pattern_view(child@);
                    assert(derives(ka, m0[ka], kb, m0[kb], kc, list@));
                    assert(frontier_derives(m0, min_sup, kc, list@));
                    assert(pattern_ok(kc)) by {
                        assert forall|j: int| 0 <= j < kc.len() implies set_nonempty(
                            #[trigger] kc[j],
                        ) by {
                            if j < ka.len() {
                                assert(kc[j] == ka[j]);
                            } else {
                                assert(kc[j] == kb.last());
                                assert(set_nonempty(kb[kb.len() - 1]));
                            }
                        }
                    }
                }
                push_derived(result, child, list, min_sup, Ghost(m0));
            }
        },
    }
}

/// Emit the itemset combination of `pa` and `pb`, if its pattern is new and
/// its id-list keeps enough support.
fn emit_combine(
    result: &mut Vec<(Pattern, Vec<Record>)>,
    pa: &Pattern,
    la: &Vec<Record>,
    pb: &Pattern,
    lb: &Vec<Record>,
    min_sup: usize,
    Ghost(m0): Ghost<Map<Seq<Set<usize>>, Seq<Record>>>,
)
    requires
        level_inv(old(result)@, m0, min_sup),
        strictly_sorted(la@),
        strictly_sorted(lb@),
        pattern_ok(pattern_view(pa@)),
        pattern_ok(pattern_view(pb@)),
        m0.contains_key(pattern_view(pa@)),
        m0[pattern_view(pa@)] == la@,
        la@.len() > min_sup,
        m0.contains_key(pattern_view(pb@)),
        m0[pattern_view(pb@)] == lb@,
        lb@.len() > min_sup,
        pattern_view(pa@).len() == pattern_view(pb@).len(),
        pattern_view(pa@).drop_last() == pattern_view(pb@).drop_last(),
        pattern_view(pa@) != pattern_view(pb@),
    ensures
        level_inv(final(result)@, m0, min_sup),
        forall|k: Seq<Set<usize>>| #[trigger]
            entries_view(old(result)@).contains_key(k) ==> entries_view(
                final(result)@,
            ).contains_key(k),
        spec_join_itemset(la@, lb@).len() > min_sup ==> entries_view(
            final(result)@,
        ).contains_key(
            pattern_view(pa@).drop_last().push(
                pattern_view(pa@).last().union(pattern_view(pb@).last()),
            ),
        ),
{
    let n = pa.len();
    let mut child: Pattern = clone_pattern_prefix(pa, n - 1);
    let mut suffix = es_clone(&pa[n - 1]);
    es_union_with(&mut suffix, &pb[pb.len() - 1]);
    child.push(suffix);
    proof {
        assert(pattern_view(pa@).take(n - 1) =~= pattern_view(pa@).drop_last());
        assert(pattern_view(child@) =~= pattern_view(pa@).drop_last().push(
            pattern_view(pa@).last().union(pattern_view(pb@).last()),
        ));
    }
    match find_pattern(result, &child) {
        Some(i) => {
            proof {
                lemma_entries_view_dom(result@, pattern_view(child@));
                assert(pattern_view(result@[i as int].0@) == pattern_view(child@));
            }
        },
        None => {
            let list = join_itemset(la, lb);
            if list.len() > min_sup {
                proof {
                    let ka = pattern_view(pa@);
                    let kb = pattern_view(pb@);
                    let kc = pattern_view(child@);
                    assert(derives(ka, m0[ka], kb, m0[kb], kc, list@));
                    assert(frontier_derives(m0, min_sup, kc, list@));
                    assert(pattern_ok(kc)) by {
                        assert forall|j: int| 0 <= j < kc.len() implies set_nonempty(
                            #[trigger] kc[j],
                        ) by {
                            if j < ka.len() - 1 {
                                assert(kc[j] == ka.drop_last()[j]);
                                assert(ka[j] == ka.drop_last()[j]);
                                assert(set_nonempty(ka[j]));
                            } else {
                                assert(kc[j] == ka.last().union(kb.last()));
                                assert(set_nonempty(ka[ka.len() - 1]));
                                let x = choose|x: usize| #[trigger] ka[ka.len()
                                    - 1].contains(x);
                                assert(kc[j].contains(x));
                            }
                        }
                    }
                }
                push_derived(result, child, list, min_sup, Ghost(m0));
            }
        },
    }
}

/// Whether the listing holds the ordered pair (x, y).
#[verifier::opaque]
pub open spec fn pair_listed(pairs: Seq<(usize, usize)>, x: usize, y: usize) -> bool {
    exists|k: int|
        0 <= k < pairs.len() && (#[trigger] pairs[k]).0 == x && pairs[k].1 == y
}

/// The filter admitting a frontier entry to candidate pairing.
pub open spec fn supported(
    stack: Seq<(Pattern, Vec<Record>)>,
    min_sup: usize,
) -> spec_fn(int) -> bool {
    |i: int| 0 <= i < stack.len() && stack[i].1@.len() > min_sup
}

/// How many frontier entries pass the support filter.
pub open spec fn supported_count(stack: Seq<(Pattern, Vec<Record>)>, min_sup: usize) -> int {
    Seq::new(stack.len(), |i: int| i).filter(supported(stack, min_sup)).len() as int
}

/// A pushed listing keeps every pair it held.
proof fn lemma_pair_listed_push(
    pairs: Seq<(usize, usize)>,
    e: (usize, usize),
    x: usize,
    y: usize,
)
    requires
        pair_listed(pairs, x, y),
    ensures
        pair_listed(pairs.push(e), x, y),
{
    reveal(pair_listed);
    let k = choose|k: int|
        0 <= k < pairs.len() && (#[trigger] pairs[k]).0 == x && pairs[k].1 == y;
    assert(pairs.push(e)[k].0 == x && pairs.push(e)[k].1 == y);
}

/// Every child that the rules derive from this pair of frontier patterns,
/// in either order, with enough support, is a key of `rv`.
#[verifier::opaque]
pub open spec fn pair_covered(
    m0: Map<Seq<Set<usize>>, Seq<Record>>,
    min_sup: usize,
    ka: Seq<Set<usize>>,
    kb: Seq<Set<usize>>,
    rv: Map<Seq<Set<usize>>, Seq<Record>>,
) -> bool {
    forall|kc: Seq<Set<usize>>, vc: Seq<Record>|
        #![trigger derives(ka, m0[ka], kb, m0[kb], kc, vc)]
        #![trigger derives(kb, m0[kb], ka, m0[ka], kc, vc)]
        (derives(ka, m0[ka], kb, m0[kb], kc, vc) || derives(
            kb,
            m0[kb],
            ka,
            m0[ka],
            kc,
            vc,
        )) && vc.len() > min_sup ==> rv.contains_key(kc)
}

/// A covered pair stays covered when the table only gains keys.
proof fn lemma_pair_covered_mono(
    m0: Map<Seq<Set<usize>>, Seq<Record>>,
    min_sup: usize,
    ka: Seq<Set<usize>>,
    kb: Seq<Set<usize>>,
    rv1: Map<Seq<Set<usize>>, Seq<Record>>,
    rv2: Map<Seq<Set<usize>>, Seq<Record>>,
)
    requires
        pair_covered(m0, min_sup, ka, kb, rv1),
        forall|k: Seq<Set<usize>>| #[trigger]
            rv1.contains_key(k) ==> rv2.contains_key(k),
    ensures
        pair_covered(m0, min_sup, ka, kb, rv2),
{
    reveal(pair_covered);
    assert forall|kc: Seq<Set<usize>>, vc: Seq<Record>|
        #![trigger derives(ka, m0[ka], kb, m0[kb], kc, vc)]
        #![trigger derives(kb, m0[kb], ka, m0[ka], kc, vc)]
        (derives(ka, m0[ka], kb, m0[kb], kc, vc) || derives(
            kb,
            m0[kb],
            ka,
            m0[ka],
            kc,
            vc,
        )) && vc.len() > min_sup implies rv2.contains_key(kc) by {
        assert(rv1.contains_key(kc));
    }
}

/// Fire every expansion rule that the pair matches, in both orders.
fn process_pair(
    result: &mut Vec<(Pattern, Vec<Record>)>,
    pa: &Pattern,
    la: &Vec<Record>,
    pb: &Pattern,
    lb: &Vec<Record>,
    min_sup: usize,
    Ghost(m0): Ghost<Map<Seq<Set<usize>>, Seq<Record>>>,
)
    requires
        level_inv(old(result)@, m0, min_sup),
        strictly_sorted(la@),
        strictly_sorted(lb@),
        pattern_ok(pattern_view(pa@)),
        pattern_ok(pattern_view(pb@)),
        m0.contains_key(pattern_view(pa@)),
        m0[pattern_view(pa@)] == la@,
        la@.len() > min_sup,
        m0.contains_key(pattern_view(pb@)),
        m0[pattern_view(pb@)] == lb@,
        lb@.len() > min_sup,
    ensures
        level_inv(final(result)@, m0, min_sup),
        forall|k: Seq<Set<usize>>| #[trigger]
            entries_view(old(result)@).contains_key(k) ==> entries_view(
                final(result)@,
            ).contains_key(k),
        pair_covered(
            m0,
            min_sup,
            pattern_view(pa@),
            pattern_view(pb@),
            entries_view(final(result)@),
        ),
{
    let ghost kav = pattern_view(pa@);
    let ghost kbv = pattern_view(pb@);
    let ka = pa.len();
    let kb = pb.len();
    proof {
        assert(kav.len() == ka as int && kbv.len() == kb as int);
        assert(ka >= 1 && kb >= 1);
    }
    let e_cond = ka == kb && pattern_eq_upto(pa, pb, ka - 1);
    let p_eq = pattern_eq(pa, pb);
    let x_ab = ka < kb && kb - ka == 1 && pattern_eq_upto(pa, pb, ka);
    let x_ba = kb < ka && ka - kb == 1 && pattern_eq_upto(pb, pa, kb);
    proof {
        assert(kav.take(ka - 1 as int) =~= kav.drop_last());
        if ka == kb {
            assert(kbv.take(ka - 1 as int) =~= kbv.drop_last());
        }
        if ka < kb && kb - ka == 1 {
            assert(kav.take(ka as int) =~= kav);
            assert(kbv.take(ka as int) =~= kbv.drop_last());
        }
        if kb < ka && ka - kb == 1 {
            assert(kbv.take(kb as int) =~= kbv);
            assert(kav.take(kb as int) =~= kav.drop_last());
        }
    }
    if e_cond {
        emit_temporal(result, pa, la, pb, lb, min_sup, Ghost(m0));
        if !p_eq {
            emit_temporal(result, pb, lb, pa, la, min_sup, Ghost(m0));
            emit_combine(result, pa, la, pb, lb, min_sup, Ghost(m0));
        }
    }
    if x_ab {
        emit_temporal(result, pa, la, pb, lb, min_sup, Ghost(m0));
    }
    if x_ba {
        emit_temporal(result, pb, lb, pa, la, min_sup, Ghost(m0));
    }
    proof {
        reveal(pair_covered);
        let rv = entries_view(result@);
        assert forall|kc: Seq<Set<usize>>, vc: Seq<Record>|
            #![trigger derives(kav, m0[kav], kbv, m0[kbv], kc, vc)]
            #![trigger derives(kbv, m0[kbv], kav, m0[kav], kc, vc)]
            (derives(kav, m0[kav], kbv, m0[kbv], kc, vc) || derives(
                kbv,
                m0[kbv],
                kav,
                m0[kav],
                kc,
                vc,
            )) && vc.len() > min_sup implies rv.contains_key(kc) by {
            if derives(kav, m0[kav], kbv, m0[kbv], kc, vc) {
                if rule_extend(kav, m0[kav], kbv, m0[kbv], kc, vc) {
                    assert(e_cond);
                    assert(kc == kav.push(kbv.last()));
                    assert(vc == spec_join_temporal(la@, lb@));
                } else if rule_combine(kav, m0[kav], kbv, m0[kbv], kc, vc) {
                    assert(e_cond && !p_eq);
                    assert(kc == kav.drop_last().push(kav.last().union(kbv.last())));
                    assert(vc == spec_join_itemset(la@, lb@));
                } else {
                    assert(rule_prefix(kav, m0[kav], kbv, m0[kbv], kc, vc));
                    assert(x_ab);
                    assert(kc == kav.push(kbv.last()));
                    assert(vc == spec_join_temporal(la@, lb@));
                }
            } else {
                if rule_extend(kbv, m0[kbv], kav, m0[kav], kc, vc) {
                    assert(e_cond);
                    if p_eq {
                        assert(kav == kbv && la@ == lb@);
                        assert(kc == kav.push(kbv.last()));
                        assert(vc == spec_join_temporal(la@, lb@));
                    } else {
                        assert(kc == kbv.push(kav.last()));
                        assert(vc == spec_join_temporal(lb@, la@));
                    }
                } else if rule_combine(kbv, m0[kbv], kav, m0[kav], kc, vc) {
                    assert(e_cond && !p_eq);
                    assert(kbv.last().union(kav.last()) =~= kav.last().union(
                        kbv.last(),
                    ));
                    assert(kc =~= kav.drop_last().push(
                        kav.last().union(kbv.last()),
                    ));
                    assert(vc == spec_join_itemset(lb@, la@));
                    crate::joins::lemma_itemset_join_symmetric(la@, lb@);
                } else {
                    assert(rule_prefix(kbv, m0[kbv], kav, m0[kav], kc, vc));
                    assert(x_ba);
                    assert(kc == kbv.push(kav.last()));
                    assert(vc == spec_join_temporal(lb@, la@));
                }
            }
        }
    }
}

impl Spade {
    /// The candidate parent pairs of one level: indices of every pair of
    /// frontier entries whose id-lists exceed the threshold, each unordered
    /// pair once, self-pairs included.
    fn candidate(&self, min_sup: usize) -> (pairs: Vec<(usize, usize)>)
        ensures
            forall|k: int|
                0 <= k < pairs@.len() ==> (#[trigger] pairs@[k]).0 < self.stack@.len()
                    && pairs@[k].1 < self.stack@.len() && self.stack@[pairs@[k].0 as int].1@.len()
                    > min_sup && self.stack@[pairs@[k].1 as int].1@.len() > min_sup,
            forall|x: usize, y: usize|
                0 <= x < self.stack@.len() && 0 <= y < self.stack@.len()
                    && (#[trigger] self.stack@[x as int].1@).len() > min_sup && (
                #[trigger] self.stack@[y as int].1@).len() > min_sup ==> pair_listed(
                    pairs@,
                    x,
                    y,
                ) || pair_listed(pairs@, y, x),
            forall|k: int| 0 <= k < pairs@.len() ==> (#[trigger] pairs@[k]).0 <= pairs@[k].1,
            forall|k1: int, k2: int|
                0 <= k1 < k2 < pairs@.len() ==> pairs@[k1] != pairs@[k2],
            2 * pairs@.len() == supported_count(self.stack@, min_sup) * (supported_count(
                self.stack@,
                min_sup,
            ) + 1),
    {
        let mut kept: Vec<usize> = Vec::new();
        let mut i: usize = 0;
        while i < self.stack.len()
            invariant
                0 <= i <= self.stack@.len(),
                forall|k: int|
                    0 <= k < kept@.len() ==> (#[trigger] kept@[k]) < self.stack@.len()
                        && self.stack@[kept@[k] as int].1@.len() > min_sup,
                forall|x: int|
                    0 <= x < i && self.stack@[x].1@.len() > min_sup ==> exists|k: int|
                        0 <= k < kept@.len() && (#[trigger] kept@[k]) == x,
                forall|k: int| 0 <= k < kept@.len() ==> (#[trigger] kept@[k]) < i,
                forall|k1: int, k2: int|
                    0 <= k1 < k2 < kept@.len() ==> kept@[k1] < kept@[k2],
                kept@.len() == Seq::new(i as nat, |k: int| k).filter(
                    supported(self.stack@, min_sup),
                ).len(),
            decreases self.stack@.len() - i,
        {
            let ghost old_kept = kept@;
            if self.stack[i].1.len() > min_sup {
                kept.push(i);
            }
            proof {
                assert forall|x: int|
                    0 <= x < i + 1 && self.stack@[x].1@.len() > min_sup implies exists|
                    k: int,
                |
                    0 <= k < kept@.len() && (#[trigger] kept@[k]) == x by {
                    if x < i {
                        let k = choose|k: int|
                            0 <= k < old_kept.len() && (#[trigger] old_kept[k]) == x;
                        assert(kept@[k] == x);
                    } else {
                        assert(kept@[kept@.len() - 1] == x);
                    }
                }
                broadcast use vstd::prelude::Seq::lemma_filter_push;

                let pred = supported(self.stack@, min_sup);
                let idxs = Seq::new(i as nat, |k: int| k);
                assert(Seq::new((i + 1) as nat, |k: int| k) =~= idxs.push(i as int));
                assert(idxs.push(i as int).filter(pred) == Seq::new(
                    (i + 1) as nat,
                    |k: int| k,
                ).filter(pred));
                assert(pred(i as int) == (self.stack@[i as int].1@.len() > min_sup));
            }
            i += 1;
        }
        let mut pairs: Vec<(usize, usize)> = Vec::new();
        let mut a: usize = 0;
        while a < kept.len()
            invariant
                0 <= a <= kept@.len(),
                forall|k: int|
                    0 <= k < kept@.len() ==> (#[trigger] kept@[k]) < self.stack@.len()
                        && self.stack@[kept@[k] as int].1@.len() > min_sup,
                forall|x: int|
                    0 <= x < self.stack@.len() && self.stack@[x].1@.len() > min_sup
                        ==> exists|k: int| 0 <= k < kept@.len() && (#[trigger] kept@[k])
                        == x,
                forall|k: int|
                    0 <= k < pairs@.len() ==> (#[trigger] pairs@[k]).0 < self.stack@.len()
                        && pairs@[k].1 < self.stack@.len() && self.stack@[pairs@[k].0 as int].1@.len()
                        > min_sup && self.stack@[pairs@[k].1 as int].1@.len() > min_sup,
                forall|u: int, v: int|
                    #![trigger kept@[u], kept@[v]]
                    0 <= u < a && u <= v < kept@.len() ==> pair_listed(
                        pairs@,
                        kept@[u],
                        kept@[v],
                    ),
                forall|k1: int, k2: int|
                    0 <= k1 < k2 < kept@.len() ==> kept@[k1] < kept@[k2],
                forall|k: int|
                    0 <= k < pairs@.len() ==> (#[trigger] pairs@[k]).0 <= pairs@[k].1,
                forall|k1: int, k2: int|
                    0 <= k1 < k2 < pairs@.len() ==> pairs@[k1] != pairs@[k2],
                a < kept@.len() ==> forall|k: int|
                    0 <= k < pairs@.len() ==> (#[trigger] pairs@[k]).0 < kept@[a as int],
                2 * pairs@.len() == a * (2 * kept@.len() - a + 1),
            decreases kept@.len() - a,
        {
            let mut b: usize = a;
            while b < kept.len()
                invariant
                    0 <= a < kept@.len(),
                    a <= b <= kept@.len(),
                    forall|k: int|
                        0 <= k < kept@.len() ==> (#[trigger] kept@[k]) < self.stack@.len()
                            && self.stack@[kept@[k] as int].1@.len() > min_sup,
                    forall|k: int|
                        0 <= k < pairs@.len() ==> (#[trigger] pairs@[k]).0 < self.stack@.len()
                            && pairs@[k].1 < self.stack@.len() && self.stack@[pairs@[k].0 as int].1@.len()
                            > min_sup && self.stack@[pairs@[k].1 as int].1@.len()
                            > min_sup,
                    forall|u: int, v: int|
                        #![trigger kept@[u], kept@[v]]
                        0 <= u < a && u <= v < kept@.len() ==> pair_listed(
                            pairs@,
                            kept@[u],
                            kept@[v],
                        ),
                    forall|v: int|
                        #![trigger kept@[v]]
                        a <= v < b ==> pair_listed(pairs@, kept@[a as int], kept@[v]),
                    forall|k1: int, k2: int|
                        0 <= k1 < k2 < kept@.len() ==> kept@[k1] < kept@[k2],
                    forall|k: int|
                        0 <= k < pairs@.len() ==> (#[trigger] pairs@[k]).0
                            <= pairs@[k].1,
                    forall|k1: int, k2: int|
                        0 <= k1 < k2 < pairs@.len() ==> pairs@[k1] != pairs@[k2],
                    forall|k: int|
                        0 <= k < pairs@.len() ==> (#[trigger] pairs@[k]).0 <= kept@[
                            a as int],
                    forall|k: int|
                        0 <= k < pairs@.len() ==> ((#[trigger] pairs@[k]).0 == kept@[
                            a as int] ==> a < b && pairs@[k].1 <= kept@[b - 1]),
                    2 * pairs@.len() == a * (2 * kept@.len() - a + 1) + 2 * (b - a),
                decreases kept@.len() - b,
            {
                let ghost old_pairs = pairs@;
                pairs.push((kept[a], kept[b]));
                proof {
                    assert forall|u: int, v: int|
                        #![trigger kept@[u], kept@[v]]
                        0 <= u < a && u <= v < kept@.len() implies pair_listed(
                        pairs@,
                        kept@[u],
                        kept@[v],
                    ) by {
                        lemma_pair_listed_push(
                            old_pairs,
                            (kept@[a as int], kept@[b as int]),
                            kept@[u],
                            kept@[v],
                        );
                    }
                    assert forall|v: int|
                        #![trigger kept@[v]]
                        a <= v < b + 1 implies pair_listed(
                        pairs@,
                        kept@[a as int],
                        kept@[v],
                    ) by {
                        if v < b {
                            lemma_pair_listed_push(
                                old_pairs,
                                (kept@[a as int], kept@[b as int]),
                                kept@[a as int],
                                kept@[v],
                            );
                        } else {
                            reveal(pair_listed);
                            assert((pairs@[pairs@.len() - 1]).0 == kept@[a as int]
                                && pairs@[pairs@.len() - 1].1 == kept@[v]);
                        }
                    }
                    if a < b {
                        assert(kept@[b - 1] < kept@[b as int]);
                    }
                    assert forall|k1: int, k2: int|
                        0 <= k1 < k2 < pairs@.len() implies pairs@[k1] != pairs@[k2] by {
                        if k2 == pairs@.len() - 1 {
                            assert(pairs@[k1] == old_pairs[k1]);
                            if old_pairs[k1].0 == kept@[a as int] {
                                assert(old_pairs[k1].1 <= kept@[b - 1]);
                            }
                        }
                    }
                }
                b += 1;
            }
            proof {
                assert forall|u: int, v: int|
                    #![trigger kept@[u], kept@[v]]
                    0 <= u < a + 1 && u <= v < kept@.len() implies pair_listed(
                    pairs@,
                    kept@[u],
                    kept@[v],
                ) by {
                    if u == a {
                        assert(a <= v < kept@.len());
                    }
                }
                let n = kept@.len() as int;
                assert((a as int) * (2 * n - (a as int) + 1) + 2 * (n - (a as int)) == (
                (a as int) + 1) * (2 * n - ((a as int) + 1) + 1)) by (nonlinear_arith);
                if a + 1 < kept@.len() {
                    assert(kept@[a as int] < kept@[a as int + 1]);
                }
            }
            a += 1;
        }
        proof {
            assert forall|x: usize, y: usize|
                0 <= x < self.stack@.len() && 0 <= y < self.stack@.len()
                    && (#[trigger] self.stack@[x as int].1@).len() > min_sup && (
                #[trigger] self.stack@[y as int].1@).len() > min_sup implies pair_listed(
                pairs@,
                x,
                y,
            ) || pair_listed(pairs@, y, x) by {
                let kx = choose|k: int|
                    0 <= k < kept@.len() && (#[trigger] kept@[k]) == x as int;
                let ky = choose|k: int|
                    0 <= k < kept@.len() && (#[trigger] kept@[k]) == y as int;
                if kx <= ky {
                    assert(pair_listed(pairs@, kept@[kx], kept@[ky]));
                } else {
                    assert(pair_listed(pairs@, kept@[ky], kept@[kx]));
                }
            }
            let n = kept@.len() as int;
            assert(n * (2 * n - n + 1) == n * (n + 1)) by (nonlinear_arith);
            assert(kept@.len() == supported_count(self.stack@, min_sup));
        }
        pairs
    }

    /// Advance one BFS level.  Every candidate pair of supported frontier
    /// patterns fires the join rules it matches; a pattern stands in the
    /// next frontier exactly when some rule derives it from parents whose
    /// id-lists exceed `min_sup`, and its own id-list does too.  The next
    /// frontier replaces the current one, and its entries join the store,
    /// which never revises what it holds.
    pub fn next(&mut self, min_sup: usize)
        requires
            old(self).wf(),
        ensures
            final(self).wf(),
            forall|k: Seq<Set<usize>>| #[trigger]
                final(self).stack_view().contains_key(k) ==> frontier_derives(
                    old(self).stack_view(),
                    min_sup,
                    k,
                    final(self).stack_view()[k],
                ) && final(self).stack_view()[k].len() > min_sup,
            final(self).store_view() == final(self).stack_view().union_prefer_right(
                old(self).store_view(),
            ),
            forall|ka: Seq<Set<usize>>, kb: Seq<Set<usize>>, kc: Seq<Set<usize>>, vc: Seq<Record>|
                #![trigger derives(ka, old(self).stack_view()[ka], kb, old(self).stack_view()[kb], kc, vc)]
                old(self).stack_view().contains_key(ka) && old(self).stack_view().contains_key(kb)
                    && old(self).stack_view()[ka].len() > min_sup && old(
                self,
                ).stack_view()[kb].len() > min_sup && derives(
                    ka,
                    old(self).stack_view()[ka],
                    kb,
                    old(self).stack_view()[kb],
                    kc,
                    vc,
                ) && vc.len() > min_sup ==> final(self).stack_view().contains_key(kc),
    {
        let ghost m0 = entries_view(self.stack@);
        let cands = self.candidate(min_sup);
        let mut result: Vec<(Pattern, Vec<Record>)> = Vec::new();
        let mut ci: usize = 0;
        while ci < cands.len()
            invariant
                0 <= ci <= cands@.len(),
                self == old(self),
                m0 == entries_view(self.stack@),
                old(self).wf(),
                forall|k: int|
                    0 <= k < cands@.len() ==> (#[trigger] cands@[k]).0 < self.stack@.len()
                        && cands@[k].1 < self.stack@.len() && self.stack@[cands@[k].0 as int].1@.len()
                        > min_sup && self.stack@[cands@[k].1 as int].1@.len() > min_sup,
                forall|x: usize, y: usize|
                    0 <= x < self.stack@.len() && 0 <= y < self.stack@.len()
                        && (#[trigger] self.stack@[x as int].1@).len() > min_sup && (
                    #[trigger] self.stack@[y as int].1@).len() > min_sup ==> pair_listed(
                        cands@,
                        x,
                        y,
                    ) || pair_listed(cands@, y, x),
                level_inv(result@, m0, min_sup),
                forall|k: int|
                    0 <= k < ci ==> pair_covered(
                        m0,
                        min_sup,
                        pattern_view(self.stack@[(#[trigger] cands@[k]).0 as int].0@),
                        pattern_view(self.stack@[cands@[k].1 as int].0@),
                        entries_view(result@),
                    ),
            decreases cands@.len() - ci,
        {
            let ia = cands[ci].0;
            let ib = cands[ci].1;
            proof {
                lemma_entries_view_at(self.stack@, ia as int);
                lemma_entries_view_at(self.stack@, ib as int);
                assert(pattern_ok(pattern_view(self.stack@[ia as int].0@)));
                assert(pattern_ok(pattern_view(self.stack@[ib as int].0@)));
            }
            let ghost rv_before = entries_view(result@);
            process_pair(
                &mut result,
                &self.stack[ia].0,
                &self.stack[ia].1,
                &self.stack[ib].0,
                &self.stack[ib].1,
                min_sup,
                Ghost(m0),
            );
            proof {
                assert forall|k: int| 0 <= k < ci + 1 implies pair_covered(
                    m0,
                    min_sup,
                    pattern_view(self.stack@[(#[trigger] cands@[k]).0 as int].0@),
                    pattern_view(self.stack@[cands@[k].1 as int].0@),
                    entries_view(result@),
                ) by {
                    if k < ci {
                        lemma_pair_covered_mono(
                            m0,
                            min_sup,
                            pattern_view(self.stack@[cands@[k].0 as int].0@),
                            pattern_view(self.stack@[cands@[k].1 as int].0@),
                            rv_before,
                            entries_view(result@),
                        );
                    }
                }
            }
            ci += 1;
        }
        proof {
            assert forall|ka: Seq<Set<usize>>, kb: Seq<Set<usize>>, kc: Seq<
                Set<usize>,
            >, vc: Seq<Record>|
                #![trigger derives(ka, m0[ka], kb, m0[kb], kc, vc)]
                m0.contains_key(ka) && m0.contains_key(kb) && m0[ka].len() > min_sup
                    && m0[kb].len() > min_sup && derives(ka, m0[ka], kb, m0[kb], kc, vc)
                    && vc.len() > min_sup implies entries_view(result@).contains_key(
                kc,
            ) by {
                lemma_entries_view_dom(self.stack@, ka);
                lemma_entries_view_dom(self.stack@, kb);
                let x = choose|x: int|
                    0 <= x < self.stack@.len() && pattern_view(
                        #[trigger] self.stack@[x].0@,
                    ) == ka;
                let y = choose|y: int|
                    0 <= y < self.stack@.len() && pattern_view(
                        #[trigger] self.stack@[y].0@,
                    ) == kb;
                lemma_entries_view_at(self.stack@, x);
                lemma_entries_view_at(self.stack@, y);
                broadcast use vstd::std_specs::vec::axiom_spec_len;

                assert(self.stack@.len() == vstd::std_specs::vec::spec_vec_len(
                    &self.stack,
                ));
                let xu = x as usize;
                let yu = y as usize;
                assert(self.stack@[xu as int].1@.len() > min_sup);
                assert(self.stack@[yu as int].1@.len() > min_sup);
                assert(pair_listed(cands@, xu, yu) || pair_listed(cands@, yu, xu));
                reveal(pair_listed);
                reveal(pair_covered);
                if pair_listed(cands@, xu, yu) {
                    let k = choose|k: int|
                        0 <= k < cands@.len() && (#[trigger] cands@[k]).0 == xu
                            && cands@[k].1 == yu;
                    assert(pattern_view(self.stack@[cands@[k].0 as int].0@) == ka);
                    assert(pattern_view(self.stack@[cands@[k].1 as int].0@) == kb);
                    assert(pair_covered(m0, min_sup, ka, kb, entries_view(result@)));
                } else {
                    let k = choose|k: int|
                        0 <= k < cands@.len() && (#[trigger] cands@[k]).0 == yu
                            && cands@[k].1 == xu;
                    assert(pattern_view(self.stack@[cands@[k].0 as int].0@) == kb);
                    assert(pattern_view(self.stack@[cands@[k].1 as int].0@) == ka);
                    assert(pair_covered(m0, min_sup, kb, ka, entries_view(result@)));
                }
            }
        }
        let ghost store0 = entries_view(self.store@);
        let mut si: usize = 0;
        proof {
            assert(entries_view(result@.take(0)) =~= Map::<Seq<Set<usize>>, Seq<
                Record,
            >>::empty());
            assert(entries_view(result@.take(0)).union_prefer_right(store0) =~= store0);
        }
        while si < result.len()
            invariant
                0 <= si <= result@.len(),
                level_inv(result@, m0, min_sup),
                table_wf(self.store@),
                self.stack@ == old(self).stack@,
                entries_view(self.store@) == entries_view(
                    result@.take(si as int),
                ).union_prefer_right(store0),
            decreases result@.len() - si,
        {
            let ghost pre = result@.take(si as int);
            let ghost k = pattern_view(result@[si as int].0@);
            proof {
                assert(result@.take(si as int + 1) =~= pre.push(result@[si as int]));
                lemma_entries_view_push(pre, result@[si as int]);
                assert(!entries_view(pre).contains_key(k)) by {
                    lemma_entries_view_dom(pre, k);
                    if exists|i: int|
                        0 <= i < pre.len() && pattern_view(#[trigger] pre[i].0@) == k {
                        let i = choose|i: int|
                            0 <= i < pre.len() && pattern_view(#[trigger] pre[i].0@)
                                == k;
                        assert(pattern_view(result@[i].0@) == pattern_view(
                            result@[si as int].0@,
                        ));
                    }
                }
            }
            match find_pattern(&self.store, &result[si].0) {
                Some(_) => {
                    proof {
                        lemma_entries_view_dom(self.store@, k);
                        assert(entries_view(self.store@).contains_key(k));
                        assert(store0.contains_key(k)) by {
                            if !store0.contains_key(k) {
                                assert(entries_view(pre).contains_key(k));
                            }
                        }
                        assert(entries_view(result@.take(si as int + 1)).union_prefer_right(
                            store0,
                        ) =~= entries_view(pre).union_prefer_right(store0));
                    }
                },
                None => {
                    proof {
                        lemma_entries_view_dom(self.store@, k);
                    }
                    let p = clone_pattern(&result[si].0);
                    let l = clone_records(&result[si].1);
                    let ghost old_store = self.store@;
                    self.store.push((p, l));
                    proof {
                        lemma_entries_view_push(
                            old_store,
                            self.store@[old_store.len() as int],
                        );
                        assert forall|i: int, j: int|
                            0 <= i < j < self.store@.len() implies pattern_view(
                            self.store@[i].0@,
                        ) != pattern_view(self.store@[j].0@) by {
                            if j == self.store@.len() - 1 {
                                assert(pattern_view(old_store[i].0@) != k);
                            }
                        }
                        assert(entries_view(result@.take(si as int + 1)).union_prefer_right(
                            store0,
                        ) =~= entries_view(self.store@));
                        assert(entries_view(self.store@).contains_key(k));
                        assert(level_inv(result@, m0, min_sup));
                        assert(frontier_derives(m0, min_sup, k, result@[si as int].1@))
                            by {
                            lemma_entries_view_at(result@, si as int);
                        }
                        assert(strictly_sorted(result@[si as int].1@));
                        assert(pattern_ok(k));
                    }
                },
            }
            si += 1;
        }
        proof {
            assert(result@.take(result@.len() as int) =~= result@);
        }
        self.stack = result;
    }

    /// How many patterns the frontier holds.
    pub fn frontier_len(&self) -> (n: usize)
        ensures
            n == self.stack@.len(),
    {
        self.stack.len()
    }

    /// How many patterns the store holds.
    pub fn store_len(&self) -> (n: usize)
        ensures
            n == self.store@.len(),
    {
        self.store.len()
    }

    /// The id-list the frontier holds for a pattern, if any.
    pub fn frontier_list(&self, p: &Pattern) -> (r: Option<Vec<Record>>)
        requires
            distinct_patterns(self.stack@),
        ensures
            match r {
                Some(v) => self.stack_view().contains_key(pattern_view(p@)) && v@
                    == self.stack_view()[pattern_view(p@)],
                None => !self.stack_view().contains_key(pattern_view(p@)),
            },
    {
        match find_pattern(&self.stack, p) {
            Some(i) => {
                proof {
                    lemma_entries_view_at(self.stack@, i as int);
                }
                Some(clone_records(&self.stack[i].1))
            },
            None => {
                proof {
                    lemma_entries_view_dom(self.stack@, pattern_view(p@));
                }
                None
            },
        }
    }

    /// The id-list the store holds for a pattern, if any.
    pub fn store_list(&self, p: &Pattern) -> (r: Option<Vec<Record>>)
        requires
            distinct_patterns(self.store@),
        ensures
            match r {
                Some(v) => self.store_view().contains_key(pattern_view(p@)) && v@
                    == self.store_view()[pattern_view(p@)],
                None => !self.store_view().contains_key(pattern_view(p@)),
            },
    {
        match find_pattern(&self.store, p) {
            Some(i) => {
                proof {
                    lemma_entries_view_at(self.store@, i as int);
                }
                Some(clone_records(&self.store[i].1))
            },
            None => {
                proof {
                    lemma_entries_view_dom(self.store@, pattern_view(p@));
                }
                None
            },
        }
    }
}

/// The score of a pattern: the product of its event sets' sizes.
pub open spec fn score_of(k: Seq<Set<usize>>) -> nat
    decreases k.len(),
{
    if k.len() == 0 {
        1
    } else {
        score_of(k.drop_last()) * k.last().len()
    }
}

/// The score as the machine computes it, saturating at the word size.
pub open spec fn sat_score(k: Seq<Set<usize>>) -> nat {
    if score_of(k) > usize::MAX {
        usize::MAX as nat
    } else {
        score_of(k)
    }
}

/// The report lists exactly the store's entries: each line carries a stored
/// pattern and its support, and every stored pattern appears.
/// The line reports some entry of the store: its pattern and that entry's
/// id-list length.
pub open spec fn line_in_store(
    store: Seq<(Pattern, Vec<Record>)>,
    line: (Pattern, usize),
) -> bool {
    exists|j: int|
        0 <= j < store.len() && pattern_view((#[trigger] store[j]).0@) == pattern_view(
            line.0@,
        ) && line.1 == store[j].1@.len()
}

/// Some line of the report carries this entry's pattern and id-list length.
pub open spec fn entry_in_report(
    r: Seq<(Pattern, usize)>,
    entry: (Pattern, Vec<Record>),
) -> bool {
    exists|i: int|
        0 <= i < r.len() && pattern_view((#[trigger] r[i]).0@) == pattern_view(
            entry.0@,
        ) && r[i].1 == entry.1@.len()
}

pub open spec fn report_matches(
    store: Seq<(Pattern, Vec<Record>)>,
    r: Seq<(Pattern, usize)>,
) -> bool {
    &&& r.len() == store.len()
    &&& forall|i: int| 0 <= i < r.len() ==> line_in_store(store, #[trigger] r[i])
    &&& forall|j: int| 0 <= j < store.len() ==> entry_in_report(r, #[trigger] store[j])
}

/// A permutation of the store's (pattern, support) lines matches the store.
proof fn lemma_report_matches(
    store: Seq<(Pattern, Vec<Record>)>,
    base: Seq<(Pattern, usize)>,
    out: Seq<(Pattern, usize)>,
)
    requires
        base.len() == store.len(),
        forall|k: int|
            0 <= k < base.len() ==> pattern_view((#[trigger] base[k]).0@) == pattern_view(
                store[k].0@,
            ) && base[k].1 == store[k].1@.len(),
        out.to_multiset() == base.to_multiset(),
    ensures
        report_matches(store, out),
{
    vstd::seq_lib::to_multiset_len(out);
    vstd::seq_lib::to_multiset_len(base);
    assert forall|i: int| 0 <= i < out.len() implies line_in_store(
        store,
        #[trigger] out[i],
    ) by {
        vstd::seq_lib::to_multiset_contains(out, out[i]);
        vstd::seq_lib::to_multiset_contains(base, out[i]);
        assert(out.contains(out[i]));
        assert(base.contains(out[i]));
        let j = choose|j: int| 0 <= j < base.len() && base[j] == out[i];
        assert(0 <= j < store.len() && pattern_view(store[j].0@) == pattern_view(
            out[i].0@,
        ) && out[i].1 == store[j].1@.len());
    }
    assert forall|j: int| 0 <= j < store.len() implies entry_in_report(
        out,
        #[trigger] store[j],
    ) by {
        assert(base.contains(base[j]));
        vstd::seq_lib::to_multiset_contains(base, base[j]);
        vstd::seq_lib::to_multiset_contains(out, base[j]);
        assert(out.contains(base[j]));
        let i = choose|i: int| 0 <= i < out.len() && out[i] == base[j];
        assert(0 <= i < out.len() && pattern_view(out[i].0@) == pattern_view(
            store[j].0@,
        ) && out[i].1 == store[j].1@.len());
    }
}

/// Report order: by score, then by support, both descending.
pub open spec fn report_ge(x: (Pattern, usize), y: (Pattern, usize)) -> bool {
    sat_score(pattern_view(x.0@)) > sat_score(pattern_view(y.0@)) || (sat_score(
        pattern_view(x.0@),
    ) == sat_score(pattern_view(y.0@)) && x.1 >= y.1)
}

/// What a report line denotes: the pattern's model and its support.
pub open spec fn line_view(x: (Pattern, usize)) -> (Seq<Set<usize>>, usize) {
    (pattern_view(x.0@), x.1)
}

/// What a report's lines denote, in order.
pub open spec fn lines_view(s: Seq<(Pattern, usize)>) -> Seq<(Seq<Set<usize>>, usize)> {
    s.map_values(|x: (Pattern, usize)| line_view(x))
}

/// Strict report order on line denotations.
pub open spec fn line_gt(x: (Seq<Set<usize>>, usize), y: (Seq<Set<usize>>, usize)) -> bool {
    sat_score(x.0) > sat_score(y.0) || (sat_score(x.0) == sat_score(y.0) && x.1 > y.1)
}

/// The first index among `s`'s first `m` lines holding a maximal line.
pub open spec fn first_max_at(s: Seq<(Seq<Set<usize>>, usize)>, m: int) -> int
    decreases m,
{
    if m <= 1 {
        0
    } else {
        let p = first_max_at(s, m - 1);
        if line_gt(s[m - 1], s[p]) {
            m - 1
        } else {
            p
        }
    }
}

/// The first maximal line's index lies among the lines considered.
proof fn lemma_first_max_at_range(s: Seq<(Seq<Set<usize>>, usize)>, m: int)
    requires
        1 <= m,
    ensures
        0 <= first_max_at(s, m) < m,
    decreases m,
{
    if m > 1 {
        lemma_first_max_at_range(s, m - 1);
    }
}

/// The report's line sequence: repeatedly take the first maximal line.  The
/// fuel `n` runs down once per line taken.
pub open spec fn spec_report_rec(s: Seq<(Seq<Set<usize>>, usize)>, n: nat) -> Seq<
    (Seq<Set<usize>>, usize),
>
    decreases n,
{
    if n == 0 || s.len() == 0 {
        Seq::empty()
    } else {
        let p = first_max_at(s, s.len() as int);
        seq![s[p]] + spec_report_rec(s.remove(p), (n - 1) as nat)
    }
}

/// The report's line sequence, a deterministic function of the stored lines.
pub open spec fn spec_report_seq(s: Seq<(Seq<Set<usize>>, usize)>) -> Seq<
    (Seq<Set<usize>>, usize),
> {
    spec_report_rec(s, s.len())
}

/// One selection step of the report order.
proof fn lemma_spec_report_unfold(s: Seq<(Seq<Set<usize>>, usize)>)
    requires
        s.len() > 0,
    ensures
        0 <= first_max_at(s, s.len() as int) < s.len(),
        spec_report_seq(s) == seq![s[first_max_at(s, s.len() as int)]]
            + spec_report_seq(s.remove(first_max_at(s, s.len() as int))),
{
    lemma_first_max_at_range(s, s.len() as int);
    let p = first_max_at(s, s.len() as int);
    assert(s.remove(p).len() == s.len() - 1);
}

/// What the store's entries denote as report lines.
pub open spec fn store_line_views(store: Seq<(Pattern, Vec<Record>)>) -> Seq<
    (Seq<Set<usize>>, usize),
> {
    store.map_values(
        |en: (Pattern, Vec<Record>)| (pattern_view(en.0@), en.1@.len() as usize),
    )
}

/// A strictly increasing sequence enumerates a set of its own size.
proof fn lemma_strictly_increasing_card(s: Seq<usize>)
    requires
        forall|i: int, j: int| 0 <= i < j < s.len() ==> s[i] < s[j],
    ensures
        s.to_set().finite(),
        s.to_set().len() == s.len(),
    decreases s.len(),
{
    broadcast use vstd::seq_lib::seq_to_set_is_finite;

    if s.len() == 0 {
        assert(s.to_set() =~= Set::<usize>::empty());
    } else {
        let d = s.drop_last();
        lemma_strictly_increasing_card(d);
        assert forall|x: usize| s.to_set().contains(x) <==> d.to_set().insert(
            s.last(),
        ).contains(x) by {
            if s.contains(x) {
                let k = choose|k: int| 0 <= k < s.len() && s[k] == x;
                if k < s.len() - 1 {
                    assert(d[k] == x);
                    assert(d.contains(x));
                }
            }
            if d.contains(x) {
                let k = choose|k: int| 0 <= k < d.len() && d[k] == x;
                assert(s[k] == x);
                assert(s.contains(x));
            }
            if x == s.last() {
                assert(s.contains(x));
            }
        }
        assert(s.to_set() =~= d.to_set().insert(s.last()));
        assert(!d.to_set().contains(s.last())) by {
            if d.contains(s.last()) {
                let k = choose|k: int| 0 <= k < d.len() && d[k] == s.last();
                assert(s[k] < s[s.len() - 1]);
            }
        }
    }
}

/// The saturated score of a pattern, from its event sets.
fn pattern_score(p: &Pattern) -> (s: usize)
    ensures
        s as nat == sat_score(pattern_view(p@)),
{
    let mut acc: usize = 1;
    let mut i: usize = 0;
    proof {
        assert(pattern_view(p@).take(0) =~= Seq::<Set<usize>>::empty());
    }
    while i < p.len()
        invariant
            0 <= i <= p@.len(),
            acc as nat == sat_score(pattern_view(p@).take(i as int)),
        decreases p@.len() - i,
    {
        let evs = p[i].events();
        let cnt = evs.len();
        proof {
            lemma_strictly_increasing_card(evs@);
        }
        proof {
            assert((acc as u128) * (cnt as u128) <= u128::MAX) by (nonlinear_arith)
                requires
                    acc as u128 <= 0xFFFF_FFFF_FFFF_FFFFu128,
                    cnt as u128 <= 0xFFFF_FFFF_FFFF_FFFFu128,
            ;
        }
        let prod: u128 = (acc as u128) * (cnt as u128);
        let newacc: usize = if prod > usize::MAX as u128 {
            usize::MAX
        } else {
            prod as usize
        };
        proof {
            let kv = pattern_view(p@);
            let pre = kv.take(i as int);
            let post = kv.take(i as int + 1);
            assert(post.drop_last() =~= pre);
            assert(post.last() == kv[i as int]);
            let c = kv[i as int].len();
            assert(c == cnt as nat);
            assert(score_of(post) == score_of(pre) * c);
            if score_of(pre) <= usize::MAX {
                assert(acc as nat == score_of(pre));
                assert(prod as nat == score_of(post));
            } else {
                assert(acc == usize::MAX);
                if c == 0 {
                    assert(score_of(post) == 0) by (nonlinear_arith)
                        requires
                            score_of(post) == score_of(pre) * c,
                            c == 0,
                    ;
                    assert(prod == 0) by (nonlinear_arith)
                        requires
                            prod == (acc as u128) * (cnt as u128),
                            cnt == 0,
                    ;
                } else {
                    assert(score_of(post) >= score_of(pre)) by (nonlinear_arith)
                        requires
                            score_of(post) == score_of(pre) * c,
                            c >= 1,
                            score_of(pre) >= 0,
                    ;
                    assert(prod as nat >= usize::MAX as nat) by (nonlinear_arith)
                        requires
                            prod == (usize::MAX as nat) * c,
                            c >= 1,
                    ;
                    assert(score_of(post) > usize::MAX);
                    assert(newacc == usize::MAX);
                }
            }
        }
        acc = newacc;
        i += 1;
    }
    proof {
        assert(pattern_view(p@).take(p@.len() as int) =~= pattern_view(p@));
    }
    acc
}

/// Whether `x` comes strictly before `y` in the report order.
fn report_cmp_gt(x: &(Pattern, usize), y: &(Pattern, usize)) -> (r: bool)
    ensures
        r == line_gt(line_view(*x), line_view(*y)),
{
    let sx = pattern_score(&x.0);
    let sy = pattern_score(&y.0);
    if sx != sy {
        sx > sy
    } else {
        x.1 > y.1
    }
}

/// Sort report entries by score, then support, both descending, by repeated
/// selection of a maximum.
fn sort_report(v: Vec<(Pattern, usize)>) -> (r: Vec<(Pattern, usize)>)
    ensures
        r@.to_multiset() == v@.to_multiset(),
        forall|i: int, j: int| 0 <= i < j < r@.len() ==> report_ge(r@[i], r@[j]),
        lines_view(r@) == spec_report_seq(lines_view(v@)),
{
    broadcast use vstd::seq_lib::group_to_multiset_ensures;
    broadcast use vstd::multiset::group_multiset_axioms;

    let ghost vviews = lines_view(v@);
    let mut rem = v;
    let mut out: Vec<(Pattern, usize)> = Vec::new();
    proof {
        assert(out@.to_multiset() =~= Multiset::<(Pattern, usize)>::empty());
        assert(out@.to_multiset().add(rem@.to_multiset()) =~= v@.to_multiset());
        assert(lines_view(out@) + spec_report_seq(lines_view(rem@))
            =~= spec_report_seq(vviews));
    }
    while rem.len() > 0
        invariant
            out@.to_multiset().add(rem@.to_multiset()) == v@.to_multiset(),
            forall|i: int, j: int| 0 <= i < j < out@.len() ==> report_ge(out@[i], out@[j]),
            forall|i: int, m: int|
                0 <= i < out@.len() && 0 <= m < rem@.len() ==> report_ge(
                    out@[i],
                    rem@[m],
                ),
            vviews == lines_view(v@),
            lines_view(out@) + spec_report_seq(lines_view(rem@))
                == spec_report_seq(vviews),
        decreases rem@.len(),
    {
        let ghost rv = lines_view(rem@);
        let mut mi: usize = 0;
        let mut m: usize = 1;
        while m < rem.len()
            invariant
                0 < rem@.len(),
                0 <= mi < m <= rem@.len() || (mi == 0 && m <= 1),
                mi < rem@.len(),
                rv == lines_view(rem@),
                m <= rem@.len() ==> mi as int == first_max_at(rv, m as int),
                forall|k: int| 0 <= k < m && k < rem@.len() ==> report_ge(
                    rem@[mi as int],
                    #[trigger] rem@[k],
                ),
            decreases rem@.len() - m,
        {
            let ghost mi0 = mi;
            if report_cmp_gt(&rem[m], &rem[mi]) {
                mi = m;
            }
            proof {
                assert(rv[m as int] == line_view(rem@[m as int]));
                assert(rv[mi0 as int] == line_view(rem@[mi0 as int]));
                assert(first_max_at(rv, m as int + 1) == if line_gt(
                    rv[m as int],
                    rv[first_max_at(rv, m as int)],
                ) {
                    m as int
                } else {
                    first_max_at(rv, m as int)
                });
            }
            m += 1;
        }
        proof {
            assert(mi as int == first_max_at(rv, rem@.len() as int));
            lemma_spec_report_unfold(rv);
        }
        let ghost old_rem = rem@;
        let ghost old_out = out@;
        let e = rem.remove(mi);
        proof {
            vstd::seq_lib::to_multiset_remove(old_rem, mi as int);
            vstd::seq_lib::to_multiset_contains(old_rem, e);
            assert(old_rem[mi as int] == e);
            assert(old_rem.contains(e)) by {
                assert(old_rem[mi as int] == e);
            }
            assert forall|k: int| 0 <= k < rem@.len() implies report_ge(
                e,
                #[trigger] rem@[k],
            ) by {
                if k < mi {
                    assert(rem@[k] == old_rem[k]);
                } else {
                    assert(rem@[k] == old_rem[k + 1]);
                }
            }
        }
        out.push(e);
        proof {
            vstd::seq_lib::to_multiset_build(old_out, e);
            assert(out@ == old_out.push(e));
            assert(out@.to_multiset() =~= old_out.to_multiset().insert(e));
            assert forall|x: (Pattern, usize)|
                out@.to_multiset().add(rem@.to_multiset()).count(x) == v@.to_multiset().count(
                x,
            ) by {
                assert(old_out.to_multiset().add(old_rem.to_multiset()).count(x)
                    == v@.to_multiset().count(x));
            }
            assert(out@.to_multiset().add(rem@.to_multiset()) =~= v@.to_multiset());
            assert forall|i: int, j: int|
                0 <= i < j < out@.len() implies report_ge(out@[i], out@[j]) by {
                if j < out@.len() - 1 {
                    assert(report_ge(old_out[i], old_out[j]));
                } else {
                    assert(out@[j] == e);
                    assert(report_ge(old_out[i], old_rem[mi as int]));
                }
            }
            assert(lines_view(rem@) =~= rv.remove(mi as int)) by {
                assert forall|k: int|
                    0 <= k < rem@.len() implies lines_view(rem@)[k]
                    == rv.remove(mi as int)[k] by {
                    if k < mi {
                        assert(rem@[k] == old_rem[k]);
                    } else {
                        assert(rem@[k] == old_rem[k + 1]);
                    }
                }
            }
            assert(lines_view(out@) =~= lines_view(old_out)
                + seq![rv[mi as int]]) by {
                assert(line_view(e) == rv[mi as int]);
            }
            assert(lines_view(out@) + spec_report_seq(
                lines_view(rem@),
            ) =~= (lines_view(old_out) + seq![rv[mi as int]])
                + spec_report_seq(rv.remove(mi as int)));
            assert((lines_view(old_out) + seq![rv[mi as int]])
                + spec_report_seq(rv.remove(mi as int)) =~= lines_view(old_out)
                + (seq![rv[mi as int]] + spec_report_seq(rv.remove(mi as int))));
            assert(lines_view(out@) + spec_report_seq(
                lines_view(rem@),
            ) == spec_report_seq(vviews));
        }
    }
    proof {
        assert(lines_view(rem@) =~= Seq::<(Seq<Set<usize>>, usize)>::empty());
        assert(spec_report_seq(Seq::<(Seq<Set<usize>>, usize)>::empty())
            == Seq::<(Seq<Set<usize>>, usize)>::empty());
        assert(lines_view(out@) =~= lines_view(out@)
            + spec_report_seq(lines_view(rem@)));
    }
    out
}

impl Spade {
    /// Every stored pattern with its support — the length of its id-list —
    /// ordered by the product of its event sets' sizes, then by support,
    /// both descending.  The whole sequence is a function of the store:
    /// among lines of equal score and support, store order decides, so
    /// repeated calls on an unchanged store agree.
    pub fn report(&self) -> (r: Vec<(Pattern, usize)>)
        ensures
            report_matches(self.store@, r@),
            forall|i: int, j: int| 0 <= i < j < r@.len() ==> report_ge(r@[i], r@[j]),
            lines_view(r@) == spec_report_seq(store_line_views(self.store@)),
    {
        broadcast use vstd::seq_lib::group_to_multiset_ensures;
        broadcast use vstd::multiset::group_multiset_axioms;

        let mut base: Vec<(Pattern, usize)> = Vec::new();
        let mut i: usize = 0;
        while i < self.store.len()
            invariant
                0 <= i <= self.store@.len(),
                base@.len() == i,
                forall|k: int|
                    0 <= k < i ==> pattern_view((#[trigger] base@[k]).0@) == pattern_view(
                        self.store@[k].0@,
                    ) && base@[k].1 == self.store@[k].1@.len(),
            decreases self.store@.len() - i,
        {
            let p = clone_pattern(&self.store[i].0);
            let sup = self.store[i].1.len();
            base.push((p, sup));
            i += 1;
        }
        let out = sort_report(base);
        proof {
            lemma_report_matches(self.store@, base@, out@);
            assert(lines_view(base@) =~= store_line_views(self.store@));
        }
        out
    }
}

/// Three-way lexicographic comparison of two event listings: negative when
/// `x` comes first, zero exactly on equal listings.
pub open spec fn events_cmp(x: Seq<usize>, y: Seq<usize>) -> int
    decreases x.len(),
{
    if x.len() == 0 && y.len() == 0 {
        0
    } else if x.len() == 0 {
        -1
    } else if y.len() == 0 {
        1
    } else if x[0] < y[0] {
        -1
    } else if x[0] > y[0] {
        1
    } else {
        events_cmp(x.drop_first(), y.drop_first())
    }
}

/// Three-way lexicographic comparison of two sequences of event listings:
/// the total order of patterns, read off their listings.
pub open spec fn listing_cmp(a: Seq<Seq<usize>>, b: Seq<Seq<usize>>) -> int
    decreases a.len(),
{
    if a.len() == 0 && b.len() == 0 {
        0
    } else if a.len() == 0 {
        -1
    } else if b.len() == 0 {
        1
    } else if events_cmp(a[0], b[0]) != 0 {
        events_cmp(a[0], b[0])
    } else {
        listing_cmp(a.drop_first(), b.drop_first())
    }
}

/// Comparing the other way round negates the answer.
pub proof fn lemma_events_cmp_flip(x: Seq<usize>, y: Seq<usize>)
    ensures
        events_cmp(y, x) == -events_cmp(x, y),
    decreases x.len() + y.len(),
{
    if x.len() > 0 && y.len() > 0 && x[0] == y[0] {
        lemma_events_cmp_flip(x.drop_first(), y.drop_first());
    }
}

/// Listings comparing equal are equal.
pub proof fn lemma_events_cmp_eq(x: Seq<usize>, y: Seq<usize>)
    requires
        events_cmp(x, y) == 0,
    ensures
        x == y,
    decreases x.len(),
{
    if x.len() == 0 {
        assert(y.len() == 0);
        assert(x =~= y);
    } else {
        assert(y.len() > 0 && x[0] == y[0]);
        lemma_events_cmp_eq(x.drop_first(), y.drop_first());
        assert forall|i: int| 0 <= i < x.len() implies x[i] == y[i] by {
            if i > 0 {
                assert(x[i] == x.drop_first()[i - 1]);
                assert(y[i] == y.drop_first()[i - 1]);
            }
        }
        assert(x =~= y);
    }
}

/// The listing order is transitive.
pub proof fn lemma_events_cmp_trans(x: Seq<usize>, y: Seq<usize>, z: Seq<usize>)
    requires
        events_cmp(x, y) <= 0,
        events_cmp(y, z) <= 0,
    ensures
        events_cmp(x, z) <= 0,
        events_cmp(x, y) < 0 || events_cmp(y, z) < 0 ==> events_cmp(x, z) < 0,
    decreases x.len() + y.len() + z.len(),
{
    if x.len() > 0 {
        assert(y.len() > 0);
        assert(z.len() > 0);
        if x[0] == y[0] && y[0] == z[0] {
            lemma_events_cmp_trans(x.drop_first(), y.drop_first(), z.drop_first());
        }
    } else if z.len() == 0 {
        assert(y.len() == 0);
    }
}

/// Comparing the other way round negates the answer.
pub proof fn lemma_listing_cmp_flip(a: Seq<Seq<usize>>, b: Seq<Seq<usize>>)
    ensures
        listing_cmp(b, a) == -listing_cmp(a, b),
    decreases a.len() + b.len(),
{
    if a.len() > 0 && b.len() > 0 {
        lemma_events_cmp_flip(a[0], b[0]);
        if events_cmp(a[0], b[0]) == 0 {
            lemma_listing_cmp_flip(a.drop_first(), b.drop_first());
        }
    }
}

/// Listing sequences comparing equal are equal.
pub proof fn lemma_listing_cmp_eq(a: Seq<Seq<usize>>, b: Seq<Seq<usize>>)
    requires
        listing_cmp(a, b) == 0,
    ensures
        a == b,
    decreases a.len(),
{
    if a.len() == 0 {
        assert(b.len() == 0);
        assert(a =~= b);
    } else {
        assert(b.len() > 0 && events_cmp(a[0], b[0]) == 0);
        lemma_events_cmp_eq(a[0], b[0]);
        lemma_listing_cmp_eq(a.drop_first(), b.drop_first());
        assert forall|i: int| 0 <= i < a.len() implies a[i] == b[i] by {
            if i > 0 {
                assert(a[i] == a.drop_first()[i - 1]);
                assert(b[i] == b.drop_first()[i - 1]);
            }
        }
        assert(a =~= b);
    }
}

/// The pattern order is transitive.
pub proof fn lemma_listing_cmp_trans(a: Seq<Seq<usize>>, b: Seq<Seq<usize>>, c: Seq<Seq<usize>>)
    requires
        listing_cmp(a, b) <= 0,
        listing_cmp(b, c) <= 0,
    ensures
        listing_cmp(a, c) <= 0,
    decreases a.len() + b.len() + c.len(),
{
    if a.len() > 0 && c.len() > 0 {
        assert(b.len() > 0);
        let eab = events_cmp(a[0], b[0]);
        let ebc = events_cmp(b[0], c[0]);
        lemma_events_cmp_trans(a[0], b[0], c[0]);
        if eab == 0 && ebc == 0 {
            lemma_events_cmp_eq(a[0], b[0]);
            lemma_events_cmp_eq(b[0], c[0]);
            lemma_listing_cmp_trans(a.drop_first(), b.drop_first(), c.drop_first());
        }
    } else if a.len() > 0 {
        assert(b.len() > 0);
    }
}

/// The strictly ascending listing of a set of events, where one exists.
pub open spec fn listing_of(s: Set<usize>) -> Seq<usize> {
    choose|l: Seq<usize>| ascending(l) && l.to_set() == s
}

/// A pattern's listings: one per event set.
pub open spec fn pattern_listing(k: Seq<Set<usize>>) -> Seq<Seq<usize>> {
    k.map_values(|s: Set<usize>| listing_of(s))
}

/// The listings of a report line's pattern.
pub open spec fn entry_listing(x: (Pattern, usize)) -> Seq<Seq<usize>> {
    pattern_listing(pattern_view(x.0@))
}

/// Strictly ascending listings holding the same events are equal.
pub proof fn lemma_ascending_unique(x: Seq<usize>, y: Seq<usize>)
    requires
        ascending(x),
        ascending(y),
        x.to_set() == y.to_set(),
    ensures
        x == y,
    decreases x.len(),
{
    broadcast use vstd::seq_lib::group_seq_properties;

    if x.len() == 0 {
        if y.len() > 0 {
            assert(y.to_set().contains(y[0]));
            assert(x.to_set().contains(y[0]));
        }
        assert(x =~= y);
    } else if y.len() == 0 {
        assert(x.to_set().contains(x[0]));
        assert(y.to_set().contains(x[0]));
        assert(x =~= y);
    } else {
        assert(x.to_set().contains(x[0]));
        assert(y.to_set().contains(y[0]));
        assert(x.to_set().contains(y[0]));
        assert(y.to_set().contains(x[0]));
        let i = choose|i: int| 0 <= i < x.len() && x[i] == y[0];
        let j = choose|j: int| 0 <= j < y.len() && y[j] == x[0];
        assert(x[i] == y[0] && y[j] == x[0]);
        if i > 0 {
            assert(x[0] < x[i]);
        }
        if j > 0 {
            assert(y[0] < y[j]);
        }
        assert(x[0] == y[0]);
        let xr = x.drop_first();
        let yr = y.drop_first();
        assert forall|e: usize| xr.to_set().contains(e) implies yr.to_set().contains(e) by {
            let k = choose|k: int| 0 <= k < xr.len() && xr[k] == e;
            assert(x[k + 1] == e);
            assert(x[0] < e);
            assert(y.to_set().contains(e));
            let k2 = choose|k2: int| 0 <= k2 < y.len() && y[k2] == e;
            assert(k2 > 0);
            assert(yr[k2 - 1] == e);
        }
        assert forall|e: usize| yr.to_set().contains(e) implies xr.to_set().contains(e) by {
            let k = choose|k: int| 0 <= k < yr.len() && yr[k] == e;
            assert(y[k + 1] == e);
            assert(y[0] < e);
            assert(x.to_set().contains(e));
            let k2 = choose|k2: int| 0 <= k2 < x.len() && x[k2] == e;
            assert(k2 > 0);
            assert(xr[k2 - 1] == e);
        }
        assert(xr.to_set() =~= yr.to_set());
        lemma_ascending_unique(xr, yr);
        assert(x =~= Seq::empty().push(x[0]) + xr);
        assert(y =~= Seq::empty().push(y[0]) + yr);
    }
}

/// A strictly ascending listing is the one its set names.
pub proof fn lemma_listing_of(l: Seq<usize>)
    requires
        ascending(l),
    ensures
        listing_of(l.to_set()) == l,
{
    assert(exists|l2: Seq<usize>| ascending(l2) && l2.to_set() == l.to_set()) by {
        assert(ascending(l) && l.to_set() == l.to_set());
    }
    let picked = listing_of(l.to_set());
    assert(ascending(picked) && picked.to_set() == l.to_set());
    lemma_ascending_unique(picked, l);
}

/// A listing that enumerates a pattern is the pattern's listing.
pub proof fn lemma_listing_matches_determines(l: Seq<Seq<usize>>, k: Seq<Set<usize>>)
    requires
        listing_matches(l, k),
    ensures
        pattern_listing(k) == l,
{
    assert forall|j: int| 0 <= j < l.len() implies pattern_listing(k)[j] == l[j] by {
        lemma_listing_of(l[j]);
    }
    assert(pattern_listing(k) =~= l);
}

/// Compare two strictly ascending event listings lexicographically.
fn cmp_events(x: &Vec<usize>, y: &Vec<usize>) -> (c: i32)
    ensures
        c as int == events_cmp(x@, y@),
{
    let mut i: usize = 0;
    proof {
        assert(x@.skip(0) =~= x@);
        assert(y@.skip(0) =~= y@);
    }
    loop
        invariant
            0 <= i <= x@.len(),
            0 <= i <= y@.len(),
            events_cmp(x@, y@) == events_cmp(x@.skip(i as int), y@.skip(i as int)),
        decreases x@.len() - i,
    {
        if i >= x.len() && i >= y.len() {
            proof {
                assert(x@.skip(i as int) =~= Seq::<usize>::empty());
                assert(y@.skip(i as int) =~= Seq::<usize>::empty());
            }
            return 0;
        }
        if i >= x.len() {
            proof {
                assert(x@.skip(i as int) =~= Seq::<usize>::empty());
                assert(y@.skip(i as int).len() > 0);
            }
            return -1;
        }
        if i >= y.len() {
            proof {
                assert(y@.skip(i as int) =~= Seq::<usize>::empty());
                assert(x@.skip(i as int).len() > 0);
            }
            return 1;
        }
        proof {
            assert(x@.skip(i as int)[0] == x@[i as int]);
            assert(y@.skip(i as int)[0] == y@[i as int]);
        }
        if x[i] < y[i] {
            return -1;
        }
        if x[i] > y[i] {
            return 1;
        }
        proof {
            assert(x@.skip(i as int).drop_first() =~= x@.skip(i as int + 1));
            assert(y@.skip(i as int).drop_first() =~= y@.skip(i as int + 1));
        }
        i += 1;
    }
}

/// Compare two patterns lexicographically by their event listings; equal
/// answers mean equal patterns.
fn cmp_pattern(a: &Pattern, b: &Pattern) -> (c: i32)
    ensures
        c as int == listing_cmp(
            pattern_listing(pattern_view(a@)),
            pattern_listing(pattern_view(b@)),
        ),
{
    let ghost la = pattern_listing(pattern_view(a@));
    let ghost lb = pattern_listing(pattern_view(b@));
    let mut i: usize = 0;
    proof {
        assert(la.skip(0) =~= la);
        assert(lb.skip(0) =~= lb);
    }
    loop
        invariant
            0 <= i <= a@.len(),
            0 <= i <= b@.len(),
            la == pattern_listing(pattern_view(a@)),
            lb == pattern_listing(pattern_view(b@)),
            la.len() == a@.len(),
            lb.len() == b@.len(),
            listing_cmp(la, lb) == listing_cmp(la.skip(i as int), lb.skip(i as int)),
        decreases a@.len() - i,
    {
        if i >= a.len() && i >= b.len() {
            proof {
                assert(la.skip(i as int) =~= Seq::<Seq<usize>>::empty());
                assert(lb.skip(i as int) =~= Seq::<Seq<usize>>::empty());
            }
            return 0;
        }
        if i >= a.len() {
            proof {
                assert(la.skip(i as int) =~= Seq::<Seq<usize>>::empty());
                assert(lb.skip(i as int).len() > 0);
            }
            return -1;
        }
        if i >= b.len() {
            proof {
                assert(lb.skip(i as int) =~= Seq::<Seq<usize>>::empty());
                assert(la.skip(i as int).len() > 0);
            }
            return 1;
        }
        let ea = a[i].events();
        let eb = b[i].events();
        let c = cmp_events(&ea, &eb);
        proof {
            assert(ea@.to_set() =~= events_of(a@[i as int]));
            assert(eb@.to_set() =~= events_of(b@[i as int]));
            lemma_listing_of(ea@);
            lemma_listing_of(eb@);
            assert(la[i as int] == listing_of(pattern_view(a@)[i as int]));
            assert(la[i as int] == ea@);
            assert(lb[i as int] == eb@);
            assert(la.skip(i as int)[0] == la[i as int]);
            assert(lb.skip(i as int)[0] == lb[i as int]);
        }
        if c != 0 {
            return c;
        }
        proof {
            assert(la.skip(i as int).drop_first() =~= la.skip(i as int + 1));
            assert(lb.skip(i as int).drop_first() =~= lb.skip(i as int + 1));
        }
        i += 1;
    }
}

/// Order report lines ascending by the total order of their patterns, by
/// repeated selection of a minimum.  With pairwise distinct patterns the
/// output is a strictly ordered rearrangement of the input.
fn sort_by_pattern(v: Vec<(Pattern, usize)>) -> (r: Vec<(Pattern, usize)>)
    requires
        forall|i: int, j: int|
            0 <= i < j < v@.len() ==> pattern_view(v@[i].0@) != pattern_view(v@[j].0@),
    ensures
        r@.len() == v@.len(),
        r@.to_multiset() == v@.to_multiset(),
        forall|i: int, j: int|
            0 <= i < j < r@.len() ==> listing_cmp(
                entry_listing(r@[i]),
                entry_listing(r@[j]),
            ) <= 0,
        forall|i: int, j: int|
            0 <= i < j < r@.len() ==> pattern_view(r@[i].0@) != pattern_view(r@[j].0@),
{
    broadcast use vstd::seq_lib::group_to_multiset_ensures;
    broadcast use vstd::multiset::group_multiset_axioms;

    let mut rem = v;
    let mut out: Vec<(Pattern, usize)> = Vec::new();
    proof {
        assert(out@.to_multiset() =~= Multiset::<(Pattern, usize)>::empty());
        assert(out@.to_multiset().add(rem@.to_multiset()) =~= v@.to_multiset());
    }
    while rem.len() > 0
        invariant
            out@.len() + rem@.len() == v@.len(),
            out@.to_multiset().add(rem@.to_multiset()) == v@.to_multiset(),
            forall|x: int, y: int|
                0 <= x < y < out@.len() ==> listing_cmp(
                    entry_listing(out@[x]),
                    entry_listing(out@[y]),
                ) <= 0,
            forall|x: int, k: int|
                0 <= x < out@.len() && 0 <= k < rem@.len() ==> listing_cmp(
                    entry_listing(out@[x]),
                    entry_listing(rem@[k]),
                ) <= 0,
            forall|x: int, y: int|
                0 <= x < y < out@.len() ==> pattern_view(out@[x].0@) != pattern_view(
                    out@[y].0@,
                ),
            forall|x: int, y: int|
                0 <= x < y < rem@.len() ==> pattern_view(rem@[x].0@) != pattern_view(
                    rem@[y].0@,
                ),
            forall|x: int, k: int|
                0 <= x < out@.len() && 0 <= k < rem@.len() ==> pattern_view(out@[x].0@)
                    != pattern_view(rem@[k].0@),
        decreases rem@.len(),
    {
        let mut mi: usize = 0;
        let mut m: usize = 1;
        proof {
            lemma_listing_cmp_flip(entry_listing(rem@[0]), entry_listing(rem@[0]));
        }
        while m < rem.len()
            invariant
                0 < rem@.len(),
                mi < rem@.len(),
                m <= rem@.len(),
                forall|k: int|
                    0 <= k < m ==> listing_cmp(
                        entry_listing(rem@[mi as int]),
                        entry_listing(#[trigger] rem@[k]),
                    ) <= 0,
            decreases rem@.len() - m,
        {
            let ghost old_mi = mi as int;
            let c = cmp_pattern(&rem[m].0, &rem[mi].0);
            if c < 0 {
                mi = m;
            }
            proof {
                if c < 0 {
                    assert forall|k: int|
                        0 <= k < m + 1 implies listing_cmp(
                        entry_listing(rem@[mi as int]),
                        entry_listing(#[trigger] rem@[k]),
                    ) <= 0 by {
                        if k == m as int {
                            lemma_listing_cmp_flip(
                                entry_listing(rem@[mi as int]),
                                entry_listing(rem@[mi as int]),
                            );
                        } else {
                            lemma_listing_cmp_trans(
                                entry_listing(rem@[m as int]),
                                entry_listing(rem@[old_mi]),
                                entry_listing(rem@[k]),
                            );
                        }
                    }
                } else {
                    lemma_listing_cmp_flip(
                        entry_listing(rem@[m as int]),
                        entry_listing(rem@[mi as int]),
                    );
                }
            }
            m += 1;
        }
        let ghost old_rem = rem@;
        let ghost old_out = out@;
        let e = rem.remove(mi);
        proof {
            vstd::seq_lib::to_multiset_remove(old_rem, mi as int);
            vstd::seq_lib::to_multiset_contains(old_rem, e);
            assert(old_rem.contains(e)) by {
                assert(old_rem[mi as int] == e);
            }
        }
        out.push(e);
        proof {
            vstd::seq_lib::to_multiset_build(old_out, e);
            assert forall|x: (Pattern, usize)|
                out@.to_multiset().add(rem@.to_multiset()).count(x) == v@.to_multiset().count(
                x,
            ) by {
                assert(old_out.to_multiset().add(old_rem.to_multiset()).count(x)
                    == v@.to_multiset().count(x));
            }
            assert(out@.to_multiset().add(rem@.to_multiset()) =~= v@.to_multiset());
            assert forall|k: int| 0 <= k < rem@.len() implies rem@[k] == (if k
                < mi as int {
                old_rem[k]
            } else {
                old_rem[k + 1]
            }) by {}
            assert forall|x: int, k: int|
                0 <= x < out@.len() && 0 <= k < rem@.len() implies listing_cmp(
                entry_listing(out@[x]),
                entry_listing(rem@[k]),
            ) <= 0 by {
                let k0: int = if k < mi as int {
                    k
                } else {
                    k + 1
                };
                assert(rem@[k] == old_rem[k0]);
                if x < old_out.len() {
                    assert(out@[x] == old_out[x]);
                } else {
                    assert(out@[x] == old_rem[mi as int]);
                }
            }
            assert forall|x: int, k: int|
                0 <= x < out@.len() && 0 <= k < rem@.len() implies pattern_view(
                out@[x].0@,
            ) != pattern_view(rem@[k].0@) by {
                let k0: int = if k < mi as int {
                    k
                } else {
                    k + 1
                };
                assert(rem@[k] == old_rem[k0]);
                if x < old_out.len() {
                    assert(out@[x] == old_out[x]);
                } else {
                    assert(out@[x] == old_rem[mi as int]);
                    assert(k0 != mi as int);
                }
            }
            assert forall|x: int, y: int|
                0 <= x < y < out@.len() implies listing_cmp(
                entry_listing(out@[x]),
                entry_listing(out@[y]),
            ) <= 0 && pattern_view(out@[x].0@) != pattern_view(out@[y].0@) by {
                if y < old_out.len() {
                    assert(out@[x] == old_out[x] && out@[y] == old_out[y]);
                } else {
                    assert(out@[x] == old_out[x]);
                    assert(out@[y] == old_rem[mi as int]);
                }
            }
        }
    }
    proof {
        vstd::seq_lib::to_multiset_len(out@);
        vstd::seq_lib::to_multiset_len(v@);
    }
    out
}


/// A strictly ascending sequence of event identifiers.
pub open spec fn ascending(s: Seq<usize>) -> bool {
    forall|x: int, y: int| 0 <= x < y < s.len() ==> s[x] < s[y]
}

/// The listing enumerates the pattern: one strictly ascending sequence per
/// event set, holding exactly its events.
pub open spec fn listing_matches(l: Seq<Seq<usize>>, k: Seq<Set<usize>>) -> bool {
    &&& l.len() == k.len()
    &&& forall|j: int| 0 <= j < l.len() ==> (#[trigger] l[j]).to_set() == k[j]
    &&& forall|j: int| 0 <= j < l.len() ==> ascending(#[trigger] l[j])
}

/// The character of one decimal digit.
pub open spec fn digit_char(d: nat) -> char {
    if d == 0 {
        '0'
    } else if d == 1 {
        '1'
    } else if d == 2 {
        '2'
    } else if d == 3 {
        '3'
    } else if d == 4 {
        '4'
    } else if d == 5 {
        '5'
    } else if d == 6 {
        '6'
    } else if d == 7 {
        '7'
    } else if d == 8 {
        '8'
    } else {
        '9'
    }
}

/// The decimal digits of `n`, most significant first.
pub open spec fn spec_decimal(n: nat) -> Seq<char>
    decreases n,
{
    if n < 10 {
        seq![digit_char(n)]
    } else {
        spec_decimal(n / 10).push(digit_char(n % 10))
    }
}

/// The event listings' Debug texts, joined by arrows.
pub open spec fn spec_joined(ls: Seq<Seq<usize>>) -> Seq<char>
    decreases ls.len(),
{
    if ls.len() == 0 {
        Seq::empty()
    } else if ls.len() == 1 {
        debug_text_of(ls[0])
    } else {
        spec_joined(ls.drop_last()) + " -> "@ + debug_text_of(ls.last())
    }
}

/// The text of one dump line: the pattern's event listings joined by
/// arrows, then its support in decimal, closing the line.
pub open spec fn spec_line(ls: Seq<Seq<usize>>, support: usize) -> Seq<char> {
    "Pattern: "@ + spec_joined(ls) + ", Support: "@ + spec_decimal(support as nat) + "\n"@
}

/// The dump's text: its lines, concatenated.
pub open spec fn spec_render_lines(lines: Seq<(Seq<Seq<usize>>, usize)>) -> Seq<char>
    decreases lines.len(),
{
    if lines.len() == 0 {
        Seq::empty()
    } else {
        spec_render_lines(lines.drop_last()) + spec_line(
            lines.last().0,
            lines.last().1,
        )
    }
}

/// The one-character text of one decimal digit.
fn digit_str(d: usize) -> (s: &'static str)
    requires
        d < 10,
    ensures
        s@ == seq![digit_char(d as nat)],
{
    if d == 0 {
        proof {
            reveal_strlit("0");
            assert("0"@ =~= seq![digit_char(0)]);
        }
        "0"
    } else if d == 1 {
        proof {
            reveal_strlit("1");
            assert("1"@ =~= seq![digit_char(1)]);
        }
        "1"
    } else if d == 2 {
        proof {
            reveal_strlit("2");
            assert("2"@ =~= seq![digit_char(2)]);
        }
        "2"
    } else if d == 3 {
        proof {
            reveal_strlit("3");
            assert("3"@ =~= seq![digit_char(3)]);
        }
        "3"
    } else if d == 4 {
        proof {
            reveal_strlit("4");
            assert("4"@ =~= seq![digit_char(4)]);
        }
        "4"
    } else if d == 5 {
        proof {
            reveal_strlit("5");
            assert("5"@ =~= seq![digit_char(5)]);
        }
        "5"
    } else if d == 6 {
        proof {
            reveal_strlit("6");
            assert("6"@ =~= seq![digit_char(6)]);
        }
        "6"
    } else if d == 7 {
        proof {
            reveal_strlit("7");
            assert("7"@ =~= seq![digit_char(7)]);
        }
        "7"
    } else if d == 8 {
        proof {
            reveal_strlit("8");
            assert("8"@ =~= seq![digit_char(8)]);
        }
        "8"
    } else {
        proof {
            reveal_strlit("9");
            assert("9"@ =~= seq![digit_char(9)]);
        }
        "9"
    }
}

/// Render a count in decimal.
fn decimal_string(n: usize) -> (out: String)
    ensures
        out@ == spec_decimal(n as nat),
    decreases n,
{
    if n < 10 {
        let mut out = String::new();
        out.append(digit_str(n));
        proof {
            assert(out@ =~= seq![digit_char(n as nat)]);
        }
        out
    } else {
        let mut out = decimal_string(n / 10);
        out.append(digit_str(n % 10));
        proof {
            assert((n / 10) as nat == (n as nat) / 10);
            assert((n % 10) as nat == (n as nat) % 10);
            assert(out@ =~= spec_decimal((n as nat) / 10).push(digit_char((n as nat) % 10)));
        }
        out
    }
}

/// Build one dump line from a pattern's event listings and its support.
fn render_line(events: &Vec<Vec<usize>>, support: usize) -> (out: String)
    ensures
        out@ == spec_line(listings_view(events@), support),
        out@.len() > 0,
{
    let ghost lv = listings_view(events@);
    let mut line = String::new();
    line.append("Pattern: ");
    let mut i: usize = 0;
    proof {
        assert(lv.take(0) =~= Seq::<Seq<usize>>::empty());
        assert(line@ =~= "Pattern: "@ + spec_joined(lv.take(0)));
    }
    while i < events.len()
        invariant
            0 <= i <= events@.len(),
            lv == listings_view(events@),
            lv.len() == events@.len(),
            line@ == "Pattern: "@ + spec_joined(lv.take(i as int)),
        decreases events@.len() - i,
    {
        if i > 0 {
            line.append(" -> ");
        }
        let t = debug_listing(&events[i]);
        line.append(t.as_str());
        proof {
            assert(lv.take(i as int + 1).drop_last() =~= lv.take(i as int));
            assert(lv.take(i as int + 1).last() == lv[i as int]);
            assert(lv[i as int] == events@[i as int]@);
            if i == 0 {
                assert(spec_joined(lv.take(1)) == debug_text_of(lv[0]));
                assert(line@ =~= "Pattern: "@ + spec_joined(lv.take(1)));
            } else {
                assert(spec_joined(lv.take(i as int + 1)) == spec_joined(lv.take(i as int))
                    + " -> "@ + debug_text_of(lv[i as int]));
                assert(line@ =~= "Pattern: "@ + spec_joined(lv.take(i as int + 1)));
            }
        }
        i += 1;
    }
    proof {
        assert(lv.take(events@.len() as int) =~= lv);
    }
    line.append(", Support: ");
    let d = decimal_string(support);
    line.append(d.as_str());
    line.append("\n");
    proof {
        reveal_strlit("\n");
        assert(line@ =~= spec_line(lv, support));
    }
    line
}

/// The line reports some frontier pattern holding at least 30 records: its
/// event listing and that entry's id-list length.
pub open spec fn line_from_frontier(
    stack: Seq<(Pattern, Vec<Record>)>,
    line: (Seq<Seq<usize>>, usize),
) -> bool {
    exists|j: int|
        0 <= j < stack.len() && (#[trigger] stack[j]).1@.len() >= 30 && listing_matches(
            line.0,
            pattern_view(stack[j].0@),
        ) && line.1 == stack[j].1@.len()
}

/// Some line reports this frontier entry.
pub open spec fn frontier_entry_lined(
    lines: Seq<(Seq<Seq<usize>>, usize)>,
    en: (Pattern, Vec<Record>),
) -> bool {
    exists|i: int|
        0 <= i < lines.len() && listing_matches(
            (#[trigger] lines[i]).0,
            pattern_view(en.0@),
        ) && lines[i].1 == en.1@.len()
}

/// The dump's lines describe exactly the frontier's entries with at least 30
/// records: every line reports one, and every such entry is reported.
pub open spec fn render_describes(
    stack: Seq<(Pattern, Vec<Record>)>,
    lines: Seq<(Seq<Seq<usize>>, usize)>,
) -> bool {
    &&& forall|i: int| 0 <= i < lines.len() ==> line_from_frontier(stack, #[trigger] lines[i])
    &&& forall|j: int|
        0 <= j < stack.len() && (#[trigger] stack[j]).1@.len() >= 30
            ==> frontier_entry_lined(lines, stack[j])
}

/// The lines stand in strictly ascending total order of their patterns:
/// no pattern is reported twice, and the listings fix the order.
pub open spec fn lines_strictly_ascending(lines: Seq<(Seq<Seq<usize>>, usize)>) -> bool {
    forall|i: int, j: int|
        0 <= i < j < lines.len() ==> listing_cmp(
            (#[trigger] lines[i]).0,
            (#[trigger] lines[j]).0,
        ) < 0
}

/// The pick reports some frontier entry holding at least 30 records.
pub open spec fn picked_from(stack: Seq<(Pattern, Vec<Record>)>, x: (Pattern, usize)) -> bool {
    exists|j: int|
        0 <= j < stack.len() && (#[trigger] stack[j]).1@.len() >= 30 && pattern_view(
            x.0@,
        ) == pattern_view(stack[j].0@) && x.1 == stack[j].1@.len()
}

/// Some pick reports this frontier entry.
pub open spec fn entry_picked(picked: Seq<(Pattern, usize)>, en: (Pattern, Vec<Record>)) -> bool {
    exists|k: int|
        0 <= k < picked.len() && pattern_view((#[trigger] picked[k]).0@) == pattern_view(
            en.0@,
        ) && picked[k].1 == en.1@.len()
}

impl Spade {
    /// A human-readable dump of the frontier: exactly one line per pattern
    /// whose id-list holds at least 30 records, with that id-list's length
    /// as its support, the lines in strictly ascending total order of the
    /// patterns.  Each line shows the pattern's ascending event listings
    /// joined by arrows, then the support in decimal.
    #[verifier::rlimit(100)]
    #[verifier::spinoff_prover]
    pub fn debug_render(&self) -> (out: String)
        requires
            self.wf(),
        ensures
            exists|lines: Seq<(Seq<Seq<usize>>, usize)>|
                #![auto]
                out@ == spec_render_lines(lines) && render_describes(
                    self.stack@,
                    lines,
                ) && lines_strictly_ascending(lines),
            (out@.len() == 0) <==> (forall|i: int|
                0 <= i < self.stack@.len() ==> (#[trigger] self.stack@[i].1@).len()
                    < 30),
    {
        let mut picked: Vec<(Pattern, usize)> = Vec::new();
        let mut i: usize = 0;
        while i < self.stack.len()
            invariant
                0 <= i <= self.stack@.len(),
                self.wf(),
                forall|k: int|
                    0 <= k < picked@.len() ==> picked_from(
                        self.stack@,
                        #[trigger] picked@[k],
                    ),
                forall|j: int|
                    0 <= j < i && (#[trigger] self.stack@[j]).1@.len() >= 30
                        ==> entry_picked(picked@, self.stack@[j]),
                forall|k: int| #![trigger picked@[k]]
                    0 <= k < picked@.len() ==> exists|j: int|
                        #![auto]
                        0 <= j < i && pattern_view(picked@[k].0@) == pattern_view(
                            self.stack@[j].0@,
                        ),
                forall|k1: int, k2: int|
                    0 <= k1 < k2 < picked@.len() ==> pattern_view(picked@[k1].0@)
                        != pattern_view(picked@[k2].0@),
            decreases self.stack@.len() - i,
        {
            let ghost old_picked = picked@;
            if self.stack[i].1.len() >= 30 {
                let p = clone_pattern(&self.stack[i].0);
                let sup = self.stack[i].1.len();
                picked.push((p, sup));
                proof {
                    assert(pattern_view(picked@[picked@.len() - 1].0@) == pattern_view(
                        self.stack@[i as int].0@,
                    ));
                    assert forall|k1: int, k2: int|
                        0 <= k1 < k2 < picked@.len() implies pattern_view(
                        picked@[k1].0@,
                    ) != pattern_view(picked@[k2].0@) by {
                        if k2 == picked@.len() - 1 {
                            let j = choose|j: int|
                                #![auto]
                                0 <= j < i && pattern_view(old_picked[k1].0@)
                                    == pattern_view(self.stack@[j].0@);
                            assert(pattern_view(self.stack@[j].0@) != pattern_view(
                                self.stack@[i as int].0@,
                            ));
                        } else {
                            assert(picked@[k1] == old_picked[k1]);
                            assert(picked@[k2] == old_picked[k2]);
                        }
                    }
                }
            }
            proof {
                assert forall|j: int|
                    0 <= j < i + 1 && (#[trigger] self.stack@[j]).1@.len() >= 30
                        implies entry_picked(picked@, self.stack@[j]) by {
                    if j < i {
                        let k = choose|k: int|
                            0 <= k < old_picked.len() && pattern_view(
                                (#[trigger] old_picked[k]).0@,
                            ) == pattern_view(self.stack@[j].0@) && old_picked[k].1
                                == self.stack@[j].1@.len();
                        assert(picked@[k] == old_picked[k]);
                    } else {
                        assert(pattern_view(
                            (picked@[picked@.len() - 1]).0@,
                        ) == pattern_view(self.stack@[j].0@));
                    }
                }
                assert forall|k: int| #![trigger picked@[k]]
                    0 <= k < picked@.len() implies exists|j: int|
                    #![auto]
                    0 <= j < i + 1 && pattern_view(picked@[k].0@) == pattern_view(
                        self.stack@[j].0@,
                    ) by {
                    if k < old_picked.len() {
                        let j = choose|j: int|
                            #![auto]
                            0 <= j < i && pattern_view(old_picked[k].0@) == pattern_view(
                                self.stack@[j].0@,
                            );
                        assert(picked@[k] == old_picked[k]);
                        assert(pattern_view(picked@[k].0@) == pattern_view(
                            self.stack@[j].0@,
                        ));
                    } else {
                        assert(pattern_view(picked@[k].0@) == pattern_view(
                            self.stack@[i as int].0@,
                        ));
                    }
                }
            }
            i += 1;
        }
        let sorted = sort_by_pattern(picked);
        let ghost pickedv = picked@;
        proof {
            broadcast use vstd::seq_lib::group_to_multiset_ensures;

            assert forall|k: int|
                0 <= k < sorted@.len() implies picked_from(
                self.stack@,
                #[trigger] sorted@[k],
            ) by {
                assert(sorted@.contains(sorted@[k]));
                assert(sorted@.to_multiset().count(sorted@[k]) > 0);
                assert(pickedv.contains(sorted@[k]));
                let k2 = choose|k2: int|
                    0 <= k2 < pickedv.len() && pickedv[k2] == sorted@[k];
                assert(picked_from(self.stack@, pickedv[k2]));
            }
            assert forall|j: int|
                0 <= j < self.stack@.len() && (#[trigger] self.stack@[j]).1@.len() >= 30
                    implies entry_picked(sorted@, self.stack@[j]) by {
                let k = choose|k: int|
                    0 <= k < pickedv.len() && pattern_view(
                        (#[trigger] pickedv[k]).0@,
                    ) == pattern_view(self.stack@[j].0@) && pickedv[k].1
                        == self.stack@[j].1@.len();
                assert(pickedv.contains(pickedv[k]));
                assert(pickedv.to_multiset().count(pickedv[k]) > 0);
                assert(sorted@.contains(pickedv[k]));
                let k2 = choose|k2: int|
                    0 <= k2 < sorted@.len() && sorted@[k2] == pickedv[k];
                assert(pattern_view((sorted@[k2]).0@) == pattern_view(
                    self.stack@[j].0@,
                ));
            }
        }
        let mut out_s = String::new();
        let ghost mut lines: Seq<(Seq<Seq<usize>>, usize)> = Seq::empty();
        let mut t: usize = 0;
        proof {
            assert(out_s@ == spec_render_lines(lines));
        }
        while t < sorted.len()
            invariant
                0 <= t <= sorted@.len(),
                lines.len() == t,
                out_s@ == spec_render_lines(lines),
                t > 0 ==> out_s@.len() > 0,
                forall|k: int|
                    0 <= k < t ==> listing_matches(
                        (#[trigger] lines[k]).0,
                        pattern_view(sorted@[k].0@),
                    ) && lines[k].1 == sorted@[k].1,
                forall|k: int|
                    0 <= k < sorted@.len() ==> picked_from(
                        self.stack@,
                        #[trigger] sorted@[k],
                    ),
                forall|j: int|
                    0 <= j < self.stack@.len() && (#[trigger] self.stack@[j]).1@.len()
                        >= 30 ==> entry_picked(sorted@, self.stack@[j]),
                forall|k1: int, k2: int|
                    0 <= k1 < k2 < sorted@.len() ==> listing_cmp(
                        entry_listing(sorted@[k1]),
                        entry_listing(sorted@[k2]),
                    ) <= 0,
                forall|k1: int, k2: int|
                    0 <= k1 < k2 < sorted@.len() ==> pattern_view(sorted@[k1].0@)
                        != pattern_view(sorted@[k2].0@),
            decreases sorted@.len() - t,
        {
            let p = &sorted[t].0;
            let mut evl: Vec<Vec<usize>> = Vec::new();
            let mut q: usize = 0;
            while q < p.len()
                invariant
                    0 <= q <= p@.len(),
                    evl@.len() == q,
                    forall|j: int|
                        0 <= j < q ==> (#[trigger] evl@[j])@.to_set() == events_of(
                            p@[j],
                        ) && ascending(evl@[j]@),
                decreases p@.len() - q,
            {
                evl.push(p[q].events());
                q += 1;
            }
            proof {
                assert(listing_matches(
                    listings_view(evl@),
                    pattern_view(p@),
                )) by {
                    assert forall|j: int|
                        0 <= j < evl@.len() implies (#[trigger] listings_view(
                        evl@,
                    )[j]).to_set() == pattern_view(p@)[j] && ascending(
                        listings_view(evl@)[j],
                    ) by {
                        assert(listings_view(evl@)[j] == evl@[j]@);
                    }
                }
            }
            let line = render_line(&evl, sorted[t].1);
            let ghost old_out = out_s@;
            let ghost old_lines = lines;
            out_s.append(line.as_str());
            proof {
                lines = lines.push(
                    (listings_view(evl@), sorted@[t as int].1),
                );
                assert(lines.drop_last() =~= old_lines);
                assert(lines.last() == (
                    listings_view(evl@),
                    sorted@[t as int].1,
                ));
                assert(out_s@ == spec_render_lines(lines));
                assert forall|k: int|
                    0 <= k < t + 1 implies listing_matches(
                    (#[trigger] lines[k]).0,
                    pattern_view(sorted@[k].0@),
                ) && lines[k].1 == sorted@[k].1 by {
                    if k < t {
                        assert(lines[k] == old_lines[k]);
                    }
                }
            }
            t += 1;
        }
        proof {
            assert(render_describes(self.stack@, lines)) by {
                assert forall|i2: int|
                    0 <= i2 < lines.len() implies line_from_frontier(
                    self.stack@,
                    #[trigger] lines[i2],
                ) by {
                    assert(picked_from(self.stack@, sorted@[i2]));
                    let j = choose|j: int|
                        0 <= j < self.stack@.len() && (#[trigger] self.stack@[j]).1@.len()
                            >= 30 && pattern_view(sorted@[i2].0@) == pattern_view(
                            self.stack@[j].0@,
                        ) && sorted@[i2].1 == self.stack@[j].1@.len();
                    assert(listing_matches(lines[i2].0, pattern_view(
                        self.stack@[j].0@,
                    )));
                }
                assert forall|j: int|
                    0 <= j < self.stack@.len() && (#[trigger] self.stack@[j]).1@.len()
                        >= 30 implies frontier_entry_lined(lines, self.stack@[j]) by {
                    let k = choose|k: int|
                        0 <= k < sorted@.len() && pattern_view(
                            (#[trigger] sorted@[k]).0@,
                        ) == pattern_view(self.stack@[j].0@) && sorted@[k].1
                            == self.stack@[j].1@.len();
                    assert(listing_matches(lines[k].0, pattern_view(
                        self.stack@[j].0@,
                    )));
                    assert(lines[k].1 == self.stack@[j].1@.len());
                }
            }
            assert forall|i2: int, j2: int|
                0 <= i2 < j2 < lines.len() implies listing_cmp(
                (#[trigger] lines[i2]).0,
                (#[trigger] lines[j2]).0,
            ) < 0 by {
                lemma_listing_matches_determines(
                    lines[i2].0,
                    pattern_view(sorted@[i2].0@),
                );
                lemma_listing_matches_determines(
                    lines[j2].0,
                    pattern_view(sorted@[j2].0@),
                );
                assert(lines[i2].0 == entry_listing(sorted@[i2]));
                assert(lines[j2].0 == entry_listing(sorted@[j2]));
                assert(listing_cmp(lines[i2].0, lines[j2].0) <= 0);
                if listing_cmp(lines[i2].0, lines[j2].0) == 0 {
                    lemma_listing_cmp_eq(lines[i2].0, lines[j2].0);
                    assert(pattern_view(sorted@[i2].0@) =~= pattern_view(
                        sorted@[j2].0@,
                    )) by {
                        assert forall|p: int|
                            0 <= p < lines[i2].0.len() implies pattern_view(
                            sorted@[i2].0@,
                        )[p] == pattern_view(sorted@[j2].0@)[p] by {
                            assert(pattern_view(sorted@[i2].0@)[p] == (
                            #[trigger] lines[i2].0[p]).to_set());
                            assert(pattern_view(sorted@[j2].0@)[p]
                                == lines[j2].0[p].to_set());
                        }
                    }
                }
            }
            assert(lines_strictly_ascending(lines));
            assert(out_s@ == spec_render_lines(lines) && render_describes(
                self.stack@,
                lines,
            ) && lines_strictly_ascending(lines));
            if out_s@.len() == 0 {
                assert forall|i2: int|
                    0 <= i2 < self.stack@.len() implies (
                #[trigger] self.stack@[i2].1@).len() < 30 by {
                    if self.stack@[i2].1@.len() >= 30 {
                        assert(entry_picked(sorted@, self.stack@[i2]));
                        let k = choose|k: int|
                            0 <= k < sorted@.len() && pattern_view(
                                (#[trigger] sorted@[k]).0@,
                            ) == pattern_view(self.stack@[i2].0@) && sorted@[k].1
                                == self.stack@[i2].1@.len();
                        assert(sorted@.len() > 0);
                    }
                }
            }
        }
        out_s
    }
}

} // verus!
