//! Pattern tables: the frontier and the store.
//!
//! Both map patterns to id-lists.  A table is a vector of entries with
//! pairwise distinct pattern keys; `entries_view` reads it as a map from
//! pattern views to id-list views.

use vstd::prelude::*;

use crate::events::{pattern_eq, pattern_view, Pattern};
use crate::records::{strictly_sorted, Record};

verus! {

/// The map a table denotes.
pub open spec fn entries_view(s: Seq<(Pattern, Vec<Record>)>) -> Map<
    Seq<Set<usize>>,
    Seq<Record>,
>
    decreases s.len(),
{
    if s.len() == 0 {
        Map::empty()
    } else {
        entries_view(s.drop_last()).insert(
            pattern_view(s.last().0@),
            s.last().1@,
        )
    }
}

/// No two entries share a pattern.
pub open spec fn distinct_patterns(s: Seq<(Pattern, Vec<Record>)>) -> bool {
    forall|i: int, j: int|
        0 <= i < j < s.len() ==> pattern_view(s[i].0@) != pattern_view(s[j].0@)
}

/// A non-empty set of event identifiers.
pub open spec fn set_nonempty(s: Set<usize>) -> bool {
    exists|x: usize| s.contains(x)
}

/// A well-formed pattern: non-empty, with no empty event set.
pub open spec fn pattern_ok(k: Seq<Set<usize>>) -> bool {
    k.len() > 0 && forall|j: int| 0 <= j < k.len() ==> set_nonempty(#[trigger] k[j])
}

/// A well-formed table: distinct well-formed patterns, sorted id-lists.
pub open spec fn table_wf(s: Seq<(Pattern, Vec<Record>)>) -> bool {
    &&& distinct_patterns(s)
    &&& forall|i: int| 0 <= i < s.len() ==> strictly_sorted(#[trigger] s[i].1@)
    &&& forall|i: int| 0 <= i < s.len() ==> pattern_ok(pattern_view(#[trigger] s[i].0@))
}

/// A key is in the table's map exactly when some entry carries it.
pub proof fn lemma_entries_view_dom(s: Seq<(Pattern, Vec<Record>)>, k: Seq<Set<usize>>)
    ensures
        entries_view(s).contains_key(k) <==> exists|i: int|
            0 <= i < s.len() && pattern_view(#[trigger] s[i].0@) == k,
    decreases s.len(),
{
    if s.len() > 0 {
        let d = s.drop_last();
        lemma_entries_view_dom(d, k);
        if entries_view(s).contains_key(k) {
            if k == pattern_view(s.last().0@) {
                assert(pattern_view(s[s.len() - 1].0@) == k);
            } else {
                let i = choose|i: int|
                    0 <= i < d.len() && pattern_view(#[trigger] d[i].0@) == k;
                assert(pattern_view(s[i].0@) == k);
            }
        }
        if exists|i: int| 0 <= i < s.len() && pattern_view(#[trigger] s[i].0@) == k {
            let i = choose|i: int|
                0 <= i < s.len() && pattern_view(#[trigger] s[i].0@) == k;
            if i < s.len() - 1 {
                assert(pattern_view(d[i].0@) == k);
            }
        }
    }
}

/// In a table with distinct keys, each entry gives its key's value.
pub proof fn lemma_entries_view_at(s: Seq<(Pattern, Vec<Record>)>, i: int)
    requires
        0 <= i < s.len(),
        distinct_patterns(s),
    ensures
        entries_view(s).contains_key(pattern_view(s[i].0@)),
        entries_view(s)[pattern_view(s[i].0@)] == s[i].1@,
    decreases s.len(),
{
    if i < s.len() - 1 {
        let d = s.drop_last();
        assert(d[i] == s[i]);
        lemma_entries_view_at(d, i);
        assert(pattern_view(s[i].0@) != pattern_view(s[s.len() - 1].0@));
    }
}

/// Appending an entry inserts its key.
pub proof fn lemma_entries_view_push(s: Seq<(Pattern, Vec<Record>)>, e: (Pattern, Vec<Record>))
    ensures
        entries_view(s.push(e)) == entries_view(s).insert(pattern_view(e.0@), e.1@),
{
    assert(s.push(e).drop_last() =~= s);
    assert(s.push(e).last() == e);
}

/// Replacing an entry by one with the same pattern updates that key alone.
pub proof fn lemma_entries_view_update(
    s: Seq<(Pattern, Vec<Record>)>,
    i: int,
    e: (Pattern, Vec<Record>),
)
    requires
        0 <= i < s.len(),
        distinct_patterns(s),
        pattern_view(e.0@) == pattern_view(s[i].0@),
    ensures
        entries_view(s.update(i, e)) == entries_view(s).insert(pattern_view(e.0@), e.1@),
    decreases s.len(),
{
    let k = pattern_view(e.0@);
    let d = s.drop_last();
    if i == s.len() - 1 {
        assert(s.update(i, e).drop_last() =~= d);
        assert(s.update(i, e).last() == e);
        assert(entries_view(d).insert(k, s[i].1@).insert(k, e.1@) =~= entries_view(
            d,
        ).insert(k, e.1@));
    } else {
        assert(s.update(i, e).drop_last() =~= d.update(i, e));
        assert(d[i] == s[i]);
        lemma_entries_view_update(d, i, e);
        let klast = pattern_view(s[s.len() - 1].0@);
        assert(s.update(i, e).last() == s.last());
        assert(k != klast);
        assert(entries_view(d).insert(k, e.1@).insert(klast, s.last().1@)
            =~= entries_view(d).insert(klast, s.last().1@).insert(k, e.1@));
    }
}

/// Tables with the same patterns and id-lists, entry by entry, denote the
/// same map.
pub proof fn lemma_entries_view_congruent(
    s: Seq<(Pattern, Vec<Record>)>,
    t: Seq<(Pattern, Vec<Record>)>,
)
    requires
        s.len() == t.len(),
        forall|i: int|
            0 <= i < s.len() ==> pattern_view(#[trigger] s[i].0@) == pattern_view(
                #[trigger] t[i].0@,
            ) && s[i].1@ == t[i].1@,
    ensures
        entries_view(s) == entries_view(t),
    decreases s.len(),
{
    if s.len() > 0 {
        assert(forall|i: int|
            0 <= i < s.len() - 1 ==> s.drop_last()[i] == s[i] && t.drop_last()[i]
                == t[i]);
        lemma_entries_view_congruent(s.drop_last(), t.drop_last());
        assert(s.last() == s[s.len() - 1] && t.last() == t[t.len() - 1]);
    }
}

/// Find the entry holding a pattern, if any.
pub(crate) fn find_pattern(entries: &Vec<(Pattern, Vec<Record>)>, p: &Pattern) -> (r: Option<
    usize,
>)
    ensures
        match r {
            Some(i) => 0 <= i < entries@.len() && pattern_view(entries@[i as int].0@)
                == pattern_view(p@),
            None => forall|i: int|
                0 <= i < entries@.len() ==> pattern_view(#[trigger] entries@[i].0@)
                    != pattern_view(p@),
        },
{
    let mut i: usize = 0;
    while i < entries.len()
        invariant
            0 <= i <= entries@.len(),
            forall|k: int|
                0 <= k < i ==> pattern_view(#[trigger] entries@[k].0@) != pattern_view(
                    p@,
                ),
        decreases entries@.len() - i,
    {
        if pattern_eq(&entries[i].0, p) {
            return Some(i);
        }
        i += 1;
    }
    None
}

} // verus!
