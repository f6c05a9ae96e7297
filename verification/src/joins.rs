//! Id-list joins: the two merge procedures at the heart of the miner.
//!
//! Both take two strictly sorted id-lists and return a strictly sorted
//! id-list.  The temporal join keeps the positions of `b` that are preceded,
//! within the same sid, by some position of `a`; the itemset join keeps the
//! positions shared by both lists.  Each is a pure function of its inputs,
//! stated exactly as a filter of `b`.

use vstd::prelude::*;

use crate::records::{rec_lt, sid_set, strictly_sorted, Record};

verus! {

/// Whether some record of `a` shares `r`'s sid and strictly precedes it.
pub open spec fn precedes_in(a: Seq<Record>, r: Record) -> bool {
    exists|i: int| 0 <= i < a.len() && a[i].sid == r.sid && a[i].eid < r.eid
}

/// The temporal join "a, then later b": the records of `b` that follow some
/// record of `a` within the same sid.
pub open spec fn spec_join_temporal(a: Seq<Record>, b: Seq<Record>) -> Seq<Record> {
    b.filter(|r: Record| precedes_in(a, r))
}

/// The itemset join "a and b together": the records of `b` that also occur
/// in `a`.
pub open spec fn spec_join_itemset(a: Seq<Record>, b: Seq<Record>) -> Seq<Record> {
    b.filter(|r: Record| a.contains(r))
}

/// A filtered sequence holds exactly the elements of its source that pass.
proof fn lemma_filter_membership(s: Seq<Record>, pred: spec_fn(Record) -> bool)
    ensures
        forall|r: Record| #[trigger]
            s.filter(pred).contains(r) <==> s.contains(r) && pred(r),
{
    broadcast use vstd::prelude::Seq::lemma_filter_contains_rev;
    broadcast use vstd::prelude::Seq::lemma_filter_pred;
    broadcast use vstd::prelude::Seq::lemma_filter_contains;

    assert forall|r: Record| #[trigger]
        s.filter(pred).contains(r) implies s.contains(r) && pred(r) by {
        let k = choose|k: int|
            0 <= k < s.filter(pred).len() && s.filter(pred)[k] == r;
        assert(pred(s.filter(pred)[k]));
    }
    assert forall|r: Record| s.contains(r) && pred(r) implies #[trigger] s.filter(
        pred,
    ).contains(r) by {
        let k = choose|k: int| 0 <= k < s.len() && s[k] == r;
        assert(s.filter(pred).contains(s[k]));
    }
}

/// One step of a filtered prefix: extending the prefix by `b[j]` appends it
/// to the filtered prefix exactly when it passes.
proof fn lemma_filter_take_step(b: Seq<Record>, j: int, pred: spec_fn(Record) -> bool)
    requires
        0 <= j < b.len(),
    ensures
        b.take(j + 1).filter(pred) == if pred(b[j]) {
            b.take(j).filter(pred).push(b[j])
        } else {
            b.take(j).filter(pred)
        },
{
    broadcast use vstd::prelude::Seq::lemma_filter_push;

    assert(b.take(j + 1) =~= b.take(j).push(b[j]));
    assert(b.take(j).push(b[j]).filter(pred) == b.take(j + 1).filter(pred));
}

/// Filtering preserves strict sortedness.
proof fn lemma_filter_sorted(s: Seq<Record>, pred: spec_fn(Record) -> bool)
    requires
        strictly_sorted(s),
    ensures
        strictly_sorted(s.filter(pred)),
    decreases s.len(),
{
    reveal(Seq::filter);
    if s.len() > 0 {
        let d = s.drop_last();
        assert(strictly_sorted(d));
        lemma_filter_sorted(d, pred);
        lemma_filter_membership(d, pred);
        let fd = d.filter(pred);
        if pred(s.last()) {
            assert forall|i: int, j: int|
                0 <= i < j < fd.push(s.last()).len() implies rec_lt(
                fd.push(s.last())[i],
                fd.push(s.last())[j],
            ) by {
                if j < fd.len() {
                    assert(rec_lt(fd[i], fd[j]));
                } else {
                    assert(fd.contains(fd[i]));
                    assert(d.contains(fd[i]));
                    let k = choose|k: int| 0 <= k < d.len() && d[k] == fd[i];
                    assert(rec_lt(s[k], s.last()));
                }
            }
        }
    }
}

/// The temporal join, as a two-pointer merge.  For each sid shared by both
/// lists it emits every record of `b` whose eid strictly exceeds the eid of
/// some record of `a` with that sid.
pub fn join_temporal(a: &Vec<Record>, b: &Vec<Record>) -> (c: Vec<Record>)
    requires
        strictly_sorted(a@),
        strictly_sorted(b@),
    ensures
        c@ == spec_join_temporal(a@, b@),
        strictly_sorted(c@),
{
    broadcast use vstd::prelude::Seq::lemma_take_succ_push;
    broadcast use vstd::prelude::Seq::lemma_filter_push;

    let ghost pred = |r: Record| precedes_in(a@, r);
    let mut c: Vec<Record> = Vec::new();
    let mut i: usize = 0;
    let mut j: usize = 0;
    proof {
        assert(b@.take(0).filter(pred) =~= Seq::<Record>::empty()) by {
            reveal(Seq::filter);
        }
    }
    while j < b.len() && i < a.len()
        invariant
            i <= a@.len(),
            j <= b@.len(),
            strictly_sorted(a@),
            strictly_sorted(b@),
            c@ == b@.take(j as int).filter(pred),
            pred == (|r: Record| precedes_in(a@, r)),
            j < b@.len() ==> forall|k: int| 0 <= k < i ==> a@[k].sid < b@[j as int].sid,
        decreases b@.len() - j + a@.len() - i,
    {
        let av = a[i];
        let bv = b[j];
        if av.sid < bv.sid {
            i += 1;
        } else if av.sid > bv.sid {
            proof {
                assert(!pred(b@[j as int])) by {
                    assert forall|k: int| 0 <= k < a@.len() implies !(a@[k].sid == b@[
                        j as int].sid && a@[k].eid < b@[j as int].eid) by {
                        if k >= i {
                            if k > i {
                                assert(rec_lt(a@[i as int], a@[k]));
                            }
                        }
                    }
                }
                if j + 1 < b@.len() {
                    assert(rec_lt(b@[j as int], b@[j as int + 1]));
                }
                lemma_filter_take_step(b@, j as int, pred);
            }
            j += 1;
        } else {
            if av.eid < bv.eid {
                proof {
                    assert(pred(b@[j as int])) by {
                        assert(0 <= i < a@.len() && a@[i as int].sid == b@[j as int].sid
                            && a@[i as int].eid < b@[j as int].eid);
                    }
                }
                c.push(bv);
            } else {
                proof {
                    assert(!pred(b@[j as int])) by {
                        assert forall|k: int| 0 <= k < a@.len() implies !(a@[k].sid == b@[
                            j as int].sid && a@[k].eid < b@[j as int].eid) by {
                            if k > i {
                                assert(rec_lt(a@[i as int], a@[k]));
                            }
                        }
                    }
                }
            }
            proof {
                if j + 1 < b@.len() {
                    assert(rec_lt(b@[j as int], b@[j as int + 1]));
                }
                lemma_filter_take_step(b@, j as int, pred);
            }
            j += 1;
        }
    }
    proof {
        if j < b@.len() {
            let tail = b@.skip(j as int);
            assert forall|r: Record| tail.contains(r) implies !pred(r) by {
                let m = choose|m: int| 0 <= m < tail.len() && tail[m] == r;
                assert(b@[j as int + m] == r);
                if m > 0 {
                    assert(rec_lt(b@[j as int], b@[j as int + m]));
                }
                assert(b@[j as int].sid <= r.sid);
                assert forall|k: int| 0 <= k < a@.len() implies !(a@[k].sid == r.sid && a@[
                    k].eid < r.eid) by {
                    assert(a@[k].sid < b@[j as int].sid);
                }
            }
            lemma_filter_membership(tail, pred);
            if tail.filter(pred).len() > 0 {
                assert(tail.filter(pred).contains(tail.filter(pred)[0]));
            }
            assert(tail.filter(pred) =~= Seq::<Record>::empty());
            assert(b@ =~= b@.take(j as int) + tail);
            assert(b@.filter(pred) == b@.take(j as int).filter(pred) + tail.filter(pred))
                by {
                broadcast use vstd::prelude::Seq::filter_distributes_over_add;

            }
            assert(c@ =~= b@.filter(pred));
        } else {
            assert(b@.take(j as int) =~= b@);
        }
        lemma_filter_sorted(b@, pred);
    }
    c
}

/// The itemset join, as a two-pointer merge: it emits the records present in
/// both lists.
pub fn join_itemset(a: &Vec<Record>, b: &Vec<Record>) -> (c: Vec<Record>)
    requires
        strictly_sorted(a@),
        strictly_sorted(b@),
    ensures
        c@ == spec_join_itemset(a@, b@),
        strictly_sorted(c@),
{
    broadcast use vstd::prelude::Seq::lemma_take_succ_push;
    broadcast use vstd::prelude::Seq::lemma_filter_push;

    let ghost pred = |r: Record| a@.contains(r);
    let mut c: Vec<Record> = Vec::new();
    let mut i: usize = 0;
    let mut j: usize = 0;
    proof {
        assert(b@.take(0).filter(pred) =~= Seq::<Record>::empty()) by {
            reveal(Seq::filter);
        }
    }
    while j < b.len() && i < a.len()
        invariant
            i <= a@.len(),
            j <= b@.len(),
            strictly_sorted(a@),
            strictly_sorted(b@),
            c@ == b@.take(j as int).filter(pred),
            pred == (|r: Record| a@.contains(r)),
            j < b@.len() ==> forall|k: int| 0 <= k < i ==> rec_lt(a@[k], b@[j as int]),
        decreases b@.len() - j + a@.len() - i,
    {
        let av = a[i];
        let bv = b[j];
        if av.sid < bv.sid || (av.sid == bv.sid && av.eid < bv.eid) {
            i += 1;
        } else if av.sid == bv.sid && av.eid == bv.eid {
            proof {
                assert(a@[i as int] == b@[j as int]);
                assert(pred(b@[j as int]));
                if j + 1 < b@.len() {
                    assert(rec_lt(b@[j as int], b@[j as int + 1]));
                }
            }
            proof {
                lemma_filter_take_step(b@, j as int, pred);
            }
            c.push(bv);
            i += 1;
            j += 1;
        } else {
            proof {
                assert(rec_lt(b@[j as int], a@[i as int]));
                assert(!pred(b@[j as int])) by {
                    assert forall|k: int| 0 <= k < a@.len() implies a@[k] != b@[j as int] by {
                        if k > i {
                            assert(rec_lt(a@[i as int], a@[k]));
                        }
                    }
                }
                if j + 1 < b@.len() {
                    assert(rec_lt(b@[j as int], b@[j as int + 1]));
                }
                lemma_filter_take_step(b@, j as int, pred);
            }
            j += 1;
        }
    }
    proof {
        if j < b@.len() {
            let tail = b@.skip(j as int);
            assert forall|r: Record| tail.contains(r) implies !pred(r) by {
                let m = choose|m: int| 0 <= m < tail.len() && tail[m] == r;
                assert(b@[j as int + m] == r);
                if m > 0 {
                    assert(rec_lt(b@[j as int], b@[j as int + m]));
                }
                assert forall|k: int| 0 <= k < a@.len() implies a@[k] != r by {
                    assert(rec_lt(a@[k], b@[j as int]));
                }
            }
            lemma_filter_membership(tail, pred);
            if tail.filter(pred).len() > 0 {
                assert(tail.filter(pred).contains(tail.filter(pred)[0]));
            }
            assert(tail.filter(pred) =~= Seq::<Record>::empty());
            assert(b@ =~= b@.take(j as int) + tail);
            assert(b@.filter(pred) == b@.take(j as int).filter(pred) + tail.filter(pred))
                by {
                broadcast use vstd::prelude::Seq::filter_distributes_over_add;

            }
            assert(c@ =~= b@.filter(pred));
        } else {
            assert(b@.take(j as int) =~= b@);
        }
        lemma_filter_sorted(b@, pred);
    }
    c
}

/// On sorted, duplicate-free id-lists the itemset join is symmetric: both
/// orders give the sorted listing of the shared records.
pub proof fn lemma_itemset_join_symmetric(a: Seq<Record>, b: Seq<Record>)
    requires
        strictly_sorted(a),
        strictly_sorted(b),
    ensures
        spec_join_itemset(a, b) == spec_join_itemset(b, a),
{
    let pa = |r: Record| a.contains(r);
    let pb = |r: Record| b.contains(r);
    lemma_filter_membership(b, pa);
    lemma_filter_membership(a, pb);
    lemma_filter_sorted(b, pa);
    lemma_filter_sorted(a, pb);
    assert forall|r: Record|
        b.filter(pa).to_set().contains(r) <==> a.filter(pb).to_set().contains(r) by {}
    assert(b.filter(pa).to_set() =~= a.filter(pb).to_set());
    crate::records::lemma_strictly_sorted_unique(b.filter(pa), a.filter(pb));
}

/// A sequence identifier occurs in `sid_set` exactly when some record of the
/// list carries it.
pub proof fn lemma_sid_set_contains(x: Seq<Record>, s: u32)
    ensures
        sid_set(x).contains(s) <==> exists|k: int| 0 <= k < x.len() && x[k].sid == s,
{
    broadcast use vstd::seq_lib::group_seq_properties;

    let mapped = x.map_values(|r: Record| r.sid);
    if sid_set(x).contains(s) {
        assert(mapped.contains(s));
        let k = choose|k: int| 0 <= k < mapped.len() && mapped[k] == s;
        assert(x[k].sid == s);
    }
    if exists|k: int| 0 <= k < x.len() && x[k].sid == s {
        let k = choose|k: int| 0 <= k < x.len() && x[k].sid == s;
        assert(mapped[k] == s);
        assert(mapped.contains(s));
    }
}

/// Antimonotonicity of support.  Both joins emit a sub-list of `b` whose
/// records all carry sids present in `a`, so a joined pattern is witnessed by
/// no more sids — and so has no greater support — than either parent.
pub proof fn lemma_join_antimonotone(a: Seq<Record>, b: Seq<Record>)
    ensures
        sid_set(spec_join_temporal(a, b)).subset_of(sid_set(a)),
        sid_set(spec_join_temporal(a, b)).subset_of(sid_set(b)),
        sid_set(spec_join_itemset(a, b)).subset_of(sid_set(a)),
        sid_set(spec_join_itemset(a, b)).subset_of(sid_set(b)),
        sid_set(spec_join_temporal(a, b)).len() <= sid_set(a).len(),
        sid_set(spec_join_temporal(a, b)).len() <= sid_set(b).len(),
        sid_set(spec_join_itemset(a, b)).len() <= sid_set(a).len(),
        sid_set(spec_join_itemset(a, b)).len() <= sid_set(b).len(),
        spec_join_temporal(a, b).len() <= b.len(),
        spec_join_itemset(a, b).len() <= b.len(),
{
    broadcast use vstd::seq_lib::group_seq_properties;
    broadcast use vstd::seq_lib::seq_to_set_is_finite;
    broadcast use vstd::prelude::Seq::lemma_filter_len;

    let tpred = |r: Record| precedes_in(a, r);
    let ipred = |r: Record| a.contains(r);
    lemma_filter_membership(b, tpred);
    lemma_filter_membership(b, ipred);
    let ct = spec_join_temporal(a, b);
    let ci = spec_join_itemset(a, b);
    assert forall|s: u32| sid_set(ct).contains(s) implies sid_set(a).contains(s) && sid_set(
        b,
    ).contains(s) by {
        lemma_sid_set_contains(ct, s);
        let k = choose|k: int| 0 <= k < ct.len() && ct[k].sid == s;
        assert(ct.contains(ct[k]));
        assert(b.contains(ct[k]) && tpred(ct[k]));
        let m = choose|m: int| 0 <= m < b.len() && b[m] == ct[k];
        lemma_sid_set_contains(b, s);
        let w = choose|w: int| 0 <= w < a.len() && a[w].sid == ct[k].sid && a[w].eid < ct[
            k].eid;
        lemma_sid_set_contains(a, s);
    }
    assert forall|s: u32| sid_set(ci).contains(s) implies sid_set(a).contains(s) && sid_set(
        b,
    ).contains(s) by {
        lemma_sid_set_contains(ci, s);
        let k = choose|k: int| 0 <= k < ci.len() && ci[k].sid == s;
        assert(ci.contains(ci[k]));
        assert(b.contains(ci[k]) && ipred(ci[k]));
        let m = choose|m: int| 0 <= m < b.len() && b[m] == ci[k];
        let w = choose|w: int| 0 <= w < a.len() && a[w] == ci[k];
        lemma_sid_set_contains(b, s);
        lemma_sid_set_contains(a, s);
    }
    vstd::set_lib::lemma_len_subset(sid_set(ct), sid_set(a));
    vstd::set_lib::lemma_len_subset(sid_set(ct), sid_set(b));
    vstd::set_lib::lemma_len_subset(sid_set(ci), sid_set(a));
    vstd::set_lib::lemma_len_subset(sid_set(ci), sid_set(b));
}

} // verus!
