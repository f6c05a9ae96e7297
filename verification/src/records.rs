//! Event positions: a `Record` names one (sid, eid) occurrence, ordered
//! lexicographically by sid, then eid.  Id-lists are kept strictly sorted
//! in that order, so a sorted id-list is determined by its set of records.

use vstd::prelude::*;

verus! {

/// One event occurrence: the sequence it belongs to and its timestep there.
#[derive(Clone, Copy, PartialEq, Eq, Structural, Debug)]
pub struct Record {
    pub sid: u32,
    pub eid: i32,
}

impl Record {
    pub fn new(sid: u32, eid: i32) -> (r: Record)
        ensures
            r.sid == sid,
            r.eid == eid,
    {
        Record { sid, eid }
    }
}

/// Strict lexicographic order on records: by sid, then by eid.
pub open spec fn rec_lt(a: Record, b: Record) -> bool {
    a.sid < b.sid || (a.sid == b.sid && a.eid < b.eid)
}

/// An id-list is strictly ascending by (sid, eid): sorted with no duplicates.
pub open spec fn strictly_sorted(s: Seq<Record>) -> bool {
    forall|i: int, j: int| 0 <= i < j < s.len() ==> rec_lt(s[i], s[j])
}

/// The distinct sequence identifiers of an id-list; its size is the support.
pub open spec fn sid_set(s: Seq<Record>) -> Set<u32> {
    s.map_values(|r: Record| r.sid).to_set()
}

/// The strict record order is a total order: two distinct records compare.
pub proof fn lemma_rec_order_total(a: Record, b: Record)
    ensures
        rec_lt(a, b) || rec_lt(b, a) || a == b,
{
}

/// A strictly sorted sequence is determined by its set of elements.
pub proof fn lemma_strictly_sorted_unique(x: Seq<Record>, y: Seq<Record>)
    requires
        strictly_sorted(x),
        strictly_sorted(y),
        x.to_set() == y.to_set(),
    ensures
        x == y,
    decreases x.len(),
{
    broadcast use vstd::seq_lib::group_seq_properties;

    if x.len() == 0 {
        if y.len() > 0 {
            assert(y.to_set().contains(y[0]));
            assert(x.to_set().contains(y[0]));
        }
        assert(x =~= y);
    } else if y.len() == 0 {
        assert(x.to_set().contains(x[0]));
        assert(y.to_set().contains(x[0]));
        assert(x =~= y);
    } else {
        assert(x.to_set().contains(x[0]));
        assert(y.to_set().contains(y[0]));
        assert(x.to_set().contains(y[0]));
        assert(y.to_set().contains(x[0]));
        let i = choose|i: int| 0 <= i < x.len() && x[i] == y[0];
        let j = choose|j: int| 0 <= j < y.len() && y[j] == x[0];
        assert(x[i] == y[0] && y[j] == x[0]);
        if i > 0 {
            assert(rec_lt(x[0], x[i]));
        }
        if j > 0 {
            assert(rec_lt(y[0], y[j]));
        }
        lemma_rec_order_total(x[0], y[0]);
        assert(x[0] == y[0]);
        let xr = x.drop_first();
        let yr = y.drop_first();
        assert forall|r: Record| xr.to_set().contains(r) implies yr.to_set().contains(r) by {
            let k = choose|k: int| 0 <= k < xr.len() && xr[k] == r;
            assert(x[k + 1] == r);
            assert(rec_lt(x[0], r));
            assert(x.to_set().contains(r));
            assert(y.to_set().contains(r));
            let m = choose|m: int| 0 <= m < y.len() && y[m] == r;
            assert(m != 0);
            assert(yr[m - 1] == r);
            assert(yr.to_set().contains(r));
        }
        assert forall|r: Record| yr.to_set().contains(r) implies xr.to_set().contains(r) by {
            let k = choose|k: int| 0 <= k < yr.len() && yr[k] == r;
            assert(y[k + 1] == r);
            assert(rec_lt(y[0], r));
            assert(y.to_set().contains(r));
            assert(x.to_set().contains(r));
            let m = choose|m: int| 0 <= m < x.len() && x[m] == r;
            assert(m != 0);
            assert(xr[m - 1] == r);
            assert(xr.to_set().contains(r));
        }
        assert(xr.to_set() =~= yr.to_set());
        lemma_strictly_sorted_unique(xr, yr);
        assert(x =~= Seq::empty().push(x[0]) + xr);
        assert(y =~= Seq::empty().push(y[0]) + yr);
    }
}

/// Insert a record into a strictly sorted id-list, keeping it sorted and
/// deduplicated: a record already present is not inserted again.
pub fn insert_record_sorted(list: &mut Vec<Record>, r: Record)
    requires
        strictly_sorted(old(list)@),
    ensures
        strictly_sorted(final(list)@),
        final(list)@.to_set() == old(list)@.to_set().insert(r),
{
    let ghost orig = list@;
    let mut i: usize = 0;
    while i < list.len() && (list[i].sid < r.sid || (list[i].sid == r.sid && list[i].eid
        < r.eid))
        invariant
            0 <= i <= list.len(),
            list@ == orig,
            strictly_sorted(orig),
            forall|k: int| 0 <= k < i ==> rec_lt(orig[k], r),
        decreases list.len() - i,
    {
        i += 1;
    }
    if i < list.len() && list[i].sid == r.sid && list[i].eid == r.eid {
        proof {
            assert(orig.to_set().contains(r)) by {
                assert(orig[i as int] == r);
            }
            assert(orig.to_set() =~= orig.to_set().insert(r));
        }
        return ;
    }
    proof {
        if i < orig.len() {
            lemma_rec_order_total(orig[i as int], r);
            assert(rec_lt(r, orig[i as int]));
        }
    }
    list.insert(i, r);
    proof {
        assert(list@ == orig.insert(i as int, r));
        assert forall|p: int, q: int| 0 <= p < q < list@.len() implies rec_lt(
            list@[p],
            list@[q],
        ) by {
            if p < i && q == i {
                assert(list@[p] == orig[p]);
            } else if p == i && q > i {
                assert(list@[q] == orig[q - 1]);
                if q - 1 > i {
                    assert(rec_lt(orig[i as int], orig[q - 1]));
                }
            } else if p < i && q > i {
                assert(list@[p] == orig[p] && list@[q] == orig[q - 1]);
            } else if q < i {
                assert(list@[p] == orig[p] && list@[q] == orig[q]);
            } else {
                assert(p > i && q > i);
                assert(list@[p] == orig[p - 1] && list@[q] == orig[q - 1]);
            }
        }
        assert forall|x: Record| list@.to_set().contains(x) implies orig.to_set().insert(
            r,
        ).contains(x) by {
            let k = choose|k: int| 0 <= k < list@.len() && list@[k] == x;
            if k < i {
                assert(orig[k] == x);
            } else if k > i {
                assert(orig[k - 1] == x);
            }
        }
        assert forall|x: Record| orig.to_set().insert(r).contains(x) implies list@.to_set()
            .contains(x) by {
            if x == r {
                assert(list@[i as int] == x);
            } else {
                let k = choose|k: int| 0 <= k < orig.len() && orig[k] == x;
                if k < i {
                    assert(list@[k] == x);
                } else {
                    assert(list@[k + 1] == x);
                }
            }
        }
        assert(list@.to_set() =~= orig.to_set().insert(r));
    }
}

} // verus!
