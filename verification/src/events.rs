//! Event sets, held in `bit_set::BitSet`.
//!
//! An event set is a set of small unsigned event identifiers; a pattern is a
//! non-empty sequence of event sets, read temporally.  The bitset is opaque
//! here: `events_of` names the set of identifiers it holds, and each
//! operation the miner needs is a thin wrapper whose contract states what
//! the crate's source shows over that name.

use vstd::prelude::*;

use crate::records::Record;

verus! {

/// A set of elementary event identifiers, observed together at one (sid, eid).
/// It is backed by `bit_set::BitSet` and opaque to the verifier: `events_of`
/// names its contents.
#[verifier::external_body]
pub struct EventSet {
    bits: bit_set::BitSet,
}

impl EventSet {
    /// Relies on bit_set::BitSet::new: the new set holds no element.
    #[verifier::external_body]
    pub fn new() -> (r: EventSet)
        ensures
            events_of(r) == Set::<usize>::empty(),
    {
        EventSet { bits: bit_set::BitSet::new() }
    }

    /// Relies on bit_set::BitSet::insert: it adds the one value to the set,
    /// growing the backing storage as needed.  The largest machine integer
    /// is excluded: growing the bit vector past it panics in bit_vec.
    #[verifier::external_body]
    pub fn insert(&mut self, value: usize)
        requires
            value < usize::MAX,
        ensures
            events_of(*final(self)) == events_of(*old(self)).insert(value),
    {
        self.bits.insert(value);
    }

    /// Relies on bit_set::BitSet::from_bytes: element `e` is present exactly
    /// when bit `7 - e % 8` of byte `e / 8` is set, the most significant bit
    /// of each byte coming first.
    #[verifier::external_body]
    pub fn from_bytes(bytes: &[u8]) -> (r: EventSet)
        requires
            bytes@.len() * 8 <= usize::MAX,
        ensures
            events_of(r) == Set::new(
                |e: usize|
                    e < bytes@.len() * 8 && (bytes@[e as int / 8] >> (7 - e % 8) as u8)
                        & 1u8 == 1u8,
            ),
    {
        EventSet { bits: bit_set::BitSet::from_bytes(bytes) }
    }

    /// Relies on bit_set::BitSet::iter, which yields each element once, in
    /// ascending order.  Every element is a bit index of a vector of at most
    /// usize::MAX bits, so it is below usize::MAX itself.
    #[verifier::external_body]
    pub fn events(&self) -> (r: Vec<usize>)
        ensures
            r@.to_set() == events_of(*self),
            forall|i: int, j: int| 0 <= i < j < r@.len() ==> r@[i] < r@[j],
            forall|i: int| 0 <= i < r@.len() ==> r@[i] < usize::MAX,
    {
        self.bits.iter().collect()
    }
}

/// An ordered, non-empty sequence of event sets.
pub type Pattern = Vec<EventSet>;

/// The set of event identifiers an event set holds.
pub uninterp spec fn events_of(s: EventSet) -> Set<usize>;

/// A pattern, seen as the sequence of the sets its event sets hold.
pub open spec fn pattern_view(p: Seq<EventSet>) -> Seq<Set<usize>> {
    p.map_values(|es: EventSet| events_of(es))
}

/// Relies on bit_set::BitSet::union_with: it ors the other set's bits into
/// this one, growing the backing storage as needed.
#[verifier::external_body]
pub(crate) fn es_union_with(s: &mut EventSet, other: &EventSet)
    ensures
        events_of(*final(s)) == events_of(*old(s)).union(events_of(*other)),
{
    s.bits.union_with(&other.bits);
}

/// Relies on bit_set::BitSet's PartialEq, which compares the two sets'
/// elements in ascending order, ignoring capacity.
#[verifier::external_body]
pub(crate) fn es_eq(a: &EventSet, b: &EventSet) -> (r: bool)
    ensures
        r <==> events_of(*a) == events_of(*b),
{
    a.bits == b.bits
}

/// Relies on bit_set::BitSet's Clone, which copies the underlying bits.
#[verifier::external_body]
pub(crate) fn es_clone(s: &EventSet) -> (r: EventSet)
    ensures
        events_of(r) == events_of(*s),
{
    EventSet { bits: s.bits.clone() }
}

/// The sequences of event identifiers a listing of vectors holds.
pub open spec fn listings_view(s: Seq<Vec<usize>>) -> Seq<Seq<usize>> {
    s.map_values(|v: Vec<usize>| v@)
}

/// The Debug text of one event listing, as a `Vec<usize>` renders it.
pub uninterp spec fn debug_text_of(events: Seq<usize>) -> Seq<char>;

/// Relies on the Debug formatting of Vec<usize>: the text is a function of
/// the listed values alone, named `debug_text_of`.
#[verifier::external_body]
pub(crate) fn debug_listing(events: &Vec<usize>) -> (out: String)
    ensures
        out@ == debug_text_of(events@),
{
    format!("{:?}", events)
}

/// Whether two patterns hold the same event sets.
pub(crate) fn pattern_eq(a: &Pattern, b: &Pattern) -> (r: bool)
    ensures
        r <==> pattern_view(a@) == pattern_view(b@),
{
    if a.len() != b.len() {
        return false;
    }
    let mut i: usize = 0;
    while i < a.len()
        invariant
            a@.len() == b@.len(),
            0 <= i <= a@.len(),
            forall|k: int| 0 <= k < i ==> events_of(a@[k]) == events_of(b@[k]),
        decreases a@.len() - i,
    {
        if !es_eq(&a[i], &b[i]) {
            proof {
                assert(pattern_view(a@)[i as int] != pattern_view(b@)[i as int]);
            }
            return false;
        }
        i += 1;
    }
    proof {
        assert(pattern_view(a@) =~= pattern_view(b@));
    }
    true
}

/// Whether the first `n` event sets of the two patterns agree.
pub(crate) fn pattern_eq_upto(a: &Pattern, b: &Pattern, n: usize) -> (r: bool)
    requires
        n <= a@.len(),
        n <= b@.len(),
    ensures
        r <==> pattern_view(a@).take(n as int) == pattern_view(b@).take(n as int),
{
    let mut i: usize = 0;
    while i < n
        invariant
            n <= a@.len(),
            n <= b@.len(),
            0 <= i <= n,
            forall|k: int| 0 <= k < i ==> events_of(a@[k]) == events_of(b@[k]),
        decreases n - i,
    {
        if !es_eq(&a[i], &b[i]) {
            proof {
                assert(pattern_view(a@).take(n as int)[i as int] != pattern_view(
                    b@,
                ).take(n as int)[i as int]);
            }
            return false;
        }
        i += 1;
    }
    proof {
        assert(pattern_view(a@).take(n as int) =~= pattern_view(b@).take(n as int));
    }
    true
}

/// Copy the first `n` event sets of a pattern.
pub(crate) fn clone_pattern_prefix(p: &Pattern, n: usize) -> (r: Pattern)
    requires
        n <= p@.len(),
    ensures
        pattern_view(r@) == pattern_view(p@).take(n as int),
{
    let mut r: Pattern = Vec::new();
    let mut i: usize = 0;
    while i < n
        invariant
            n <= p@.len(),
            0 <= i <= n,
            r@.len() == i,
            forall|k: int| 0 <= k < i ==> events_of(r@[k]) == events_of(p@[k]),
        decreases n - i,
    {
        r.push(es_clone(&p[i]));
        i += 1;
    }
    proof {
        assert(pattern_view(r@) =~= pattern_view(p@).take(n as int));
    }
    r
}

/// Copy a whole pattern.
pub(crate) fn clone_pattern(p: &Pattern) -> (r: Pattern)
    ensures
        pattern_view(r@) == pattern_view(p@),
{
    let r = clone_pattern_prefix(p, p.len());
    proof {
        assert(pattern_view(p@).take(p@.len() as int) =~= pattern_view(p@));
    }
    r
}

/// Copy an id-list.
pub(crate) fn clone_records(v: &Vec<Record>) -> (r: Vec<Record>)
    ensures
        r@ == v@,
{
    let mut r: Vec<Record> = Vec::new();
    let mut i: usize = 0;
    while i < v.len()
        invariant
            0 <= i <= v@.len(),
            r@ == v@.take(i as int),
        decreases v@.len() - i,
    {
        r.push(v[i]);
        proof {
            assert(r@ =~= v@.take(i as int + 1));
        }
        i += 1;
    }
    proof {
        assert(v@.take(v@.len() as int) =~= v@);
    }
    r
}

} // verus!
