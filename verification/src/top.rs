//! The bounded, ranked list that every node keeps of the best entries below it.
//!
//! The list is modelled as a `Seq<EntryView>`; the functions here say what
//! including an entry and bumping a cached entry do to that sequence.

use vstd::prelude::*;
use crate::entry::{fold, lemma_rank_total, lemma_rank_transitive, outranks, Entry, EntryView};

verus! {

/// The views of a vector of entries, in order.
pub open spec fn entry_views(v: Seq<Entry>) -> Seq<EntryView> {
    Seq::new(v.len(), |i: int| v[i]@)
}

/// Every entry outranks all entries behind it.
pub open spec fn ranked(s: Seq<EntryView>) -> bool {
    forall|i: int, j: int| 0 <= i < j < s.len() ==> outranks(#[trigger] s[i], #[trigger] s[j])
}

/// No name occurs twice, whatever the casing.
pub open spec fn distinct_names(s: Seq<EntryView>) -> bool {
    forall|i: int, j: int|
        0 <= i < j < s.len() ==> fold(#[trigger] s[i].name) != fold(#[trigger] s[j].name)
}

/// A well-formed list: ranked, without repeated names, of at most `k` entries.
pub open spec fn top_wf(s: Seq<EntryView>, k: nat) -> bool {
    &&& ranked(s)
    &&& distinct_names(s)
    &&& s.len() <= k
}

/// The first index at or after `i` whose entry carries `name`, or the length if there is none.
pub open spec fn position_from(s: Seq<EntryView>, name: Seq<char>, i: int) -> int
    decreases s.len() - i,
{
    if i < 0 || i >= s.len() {
        s.len() as int
    } else if fold(s[i].name) == fold(name) {
        i
    } else {
        position_from(s, name, i + 1)
    }
}

/// Where `name` is cached in `s`, or `s.len()` if it is not.
pub open spec fn position_of(s: Seq<EntryView>, name: Seq<char>) -> int {
    position_from(s, name, 0)
}

/// Whether `name` is cached in `s`.
pub open spec fn holds_name(s: Seq<EntryView>, name: Seq<char>) -> bool {
    position_of(s, name) < s.len()
}

/// The first index at or after `i` whose entry does not outrank `e`.
pub open spec fn slot_from(s: Seq<EntryView>, e: EntryView, i: int) -> int
    decreases s.len() - i,
{
    if i < 0 || i >= s.len() {
        s.len() as int
    } else if outranks(s[i], e) {
        slot_from(s, e, i + 1)
    } else {
        i
    }
}

/// The index at which `e` belongs in `s`: behind the entries that outrank it.
pub open spec fn slot_of(s: Seq<EntryView>, e: EntryView) -> int {
    slot_from(s, e, 0)
}

/// `s` with `e` put at its rank.
pub open spec fn placed(s: Seq<EntryView>, e: EntryView) -> Seq<EntryView> {
    s.insert(slot_of(s, e), e)
}

/// `s` with the entry at `p` given the count `times` and moved to its new rank.
/// The cached spelling of the name stays.
pub open spec fn recounted(s: Seq<EntryView>, p: int, times: u64) -> Seq<EntryView> {
    placed(s.remove(p), EntryView { name: s[p].name, times })
}

/// A full list whose last entry `e` does not outrank: including `e` changes nothing.
pub open spec fn shuts_out(s: Seq<EntryView>, e: EntryView, k: nat) -> bool {
    s.len() >= k && (s.len() == 0 || !outranks(e, s.last()))
}

/// The list after `e` is included, for a bound of `k` entries.
///
/// A full list that `e` cannot improve stays as it is. Otherwise a cached
/// entry of the same name takes `e`'s count and moves to its rank; a new name
/// is put at its rank and the last entry leaves if the list has outgrown `k`.
pub open spec fn included(s: Seq<EntryView>, e: EntryView, k: nat) -> Seq<EntryView> {
    if shuts_out(s, e, k) {
        s
    } else if holds_name(s, e.name) {
        recounted(s, position_of(s, e.name), e.times)
    } else if s.len() + 1 > k {
        placed(s, e).take(k as int)
    } else {
        placed(s, e)
    }
}

/// Whether `s` caches `e`'s name with a count one below `e`'s.
pub open spec fn can_bump(s: Seq<EntryView>, e: EntryView) -> bool {
    holds_name(s, e.name) && s[position_of(s, e.name)].times + 1 == e.times
}

/// The list after the cached entry of `e`'s name has been raised to `e`'s count.
pub open spec fn bumped(s: Seq<EntryView>, e: EntryView) -> Seq<EntryView> {
    if can_bump(s, e) {
        recounted(s, position_of(s, e.name), e.times)
    } else {
        s
    }
}

/// The number of cached entries that a response may use.
pub open spec fn limit_of(s: Seq<EntryView>, k: nat) -> nat {
    if s.len() <= k {
        s.len()
    } else {
        k
    }
}

/// `position_from` returns the first match at or after `i`.
pub proof fn lemma_position_from(s: Seq<EntryView>, name: Seq<char>, i: int)
    requires
        0 <= i <= s.len(),
    ensures
        i <= position_from(s, name, i) <= s.len(),
        forall|j: int| i <= j < position_from(s, name, i) ==> fold(#[trigger] s[j].name) != fold(name),
        position_from(s, name, i) < s.len() ==> fold(s[position_from(s, name, i)].name) == fold(name),
    decreases s.len() - i,
{
    if i < s.len() && fold(s[i].name) != fold(name) {
        lemma_position_from(s, name, i + 1);
    }
}

/// An index is the position of `name` if it holds the first match.
pub proof fn lemma_position_is(s: Seq<EntryView>, name: Seq<char>, p: int)
    requires
        0 <= p <= s.len(),
        forall|j: int| 0 <= j < p ==> fold(#[trigger] s[j].name) != fold(name),
        p < s.len() ==> fold(s[p].name) == fold(name),
    ensures
        position_of(s, name) == p,
{
    lemma_position_from(s, name, 0);
}

/// `slot_from` returns the first entry at or after `i` that does not outrank `e`.
pub proof fn lemma_slot_from(s: Seq<EntryView>, e: EntryView, i: int)
    requires
        0 <= i <= s.len(),
    ensures
        i <= slot_from(s, e, i) <= s.len(),
        forall|j: int| i <= j < slot_from(s, e, i) ==> outranks(#[trigger] s[j], e),
        slot_from(s, e, i) < s.len() ==> !outranks(s[slot_from(s, e, i)], e),
    decreases s.len() - i,
{
    if i < s.len() && outranks(s[i], e) {
        lemma_slot_from(s, e, i + 1);
    }
}

/// An index is the slot of `e` if it is the first that does not outrank `e`.
pub proof fn lemma_slot_is(s: Seq<EntryView>, e: EntryView, p: int)
    requires
        0 <= p <= s.len(),
        forall|j: int| 0 <= j < p ==> outranks(#[trigger] s[j], e),
        p < s.len() ==> !outranks(s[p], e),
    ensures
        slot_of(s, e) == p,
{
    lemma_slot_from(s, e, 0);
}

/// Putting a new name at its rank keeps the list ranked and its names distinct.
pub proof fn lemma_placed_wf(s: Seq<EntryView>, e: EntryView)
    requires
        ranked(s),
        distinct_names(s),
        !holds_name(s, e.name),
    ensures
        ranked(placed(s, e)),
        distinct_names(placed(s, e)),
        placed(s, e).len() == s.len() + 1,
        placed(s, e)[slot_of(s, e)] == e,
        0 <= slot_of(s, e) <= s.len(),
{
    let p = slot_of(s, e);
    let t = placed(s, e);
    lemma_slot_from(s, e, 0);
    lemma_position_from(s, e.name, 0);
    assert forall|i: int, j: int| 0 <= i < j < t.len() implies outranks(
        #[trigger] t[i],
        #[trigger] t[j],
    ) by {
        if j == p {
            assert(t[i] == s[i]);
        } else if i == p {
            assert(t[j] == s[j - 1]);
            assert(fold(s[p].name) != fold(e.name));
            lemma_rank_total(s[p], e);
            if j - 1 > p {
                lemma_rank_transitive(e, s[p], s[j - 1]);
            }
        } else {
            let i0 = if i < p { i } else { i - 1 };
            let j0 = if j < p { j } else { j - 1 };
            assert(t[i] == s[i0] && t[j] == s[j0]);
        }
    }
    assert forall|i: int, j: int| 0 <= i < j < t.len() implies fold(#[trigger] t[i].name) != fold(
        #[trigger] t[j].name,
    ) by {
        let i0 = if i < p { i } else { i - 1 };
        let j0 = if j < p { j } else { j - 1 };
        if i == p {
            assert(t[j] == s[j0]);
        } else if j == p {
            assert(t[i] == s[i0]);
        } else {
            assert(t[i] == s[i0] && t[j] == s[j0]);
        }
    }
}

/// Removing an entry keeps the list ranked and distinct, and its name is gone.
pub proof fn lemma_removed_wf(s: Seq<EntryView>, p: int)
    requires
        ranked(s),
        distinct_names(s),
        0 <= p < s.len(),
    ensures
        ranked(s.remove(p)),
        distinct_names(s.remove(p)),
        !holds_name(s.remove(p), s[p].name),
{
    let t = s.remove(p);
    assert forall|i: int, j: int| 0 <= i < j < t.len() implies outranks(
        #[trigger] t[i],
        #[trigger] t[j],
    ) && fold(t[i].name) != fold(t[j].name) by {
        let i0 = if i < p { i } else { i + 1 };
        let j0 = if j < p { j } else { j + 1 };
        assert(t[i] == s[i0] && t[j] == s[j0]);
    }
    lemma_position_from(t, s[p].name, 0);
    let q = position_of(t, s[p].name);
    if q < t.len() {
        let q0 = if q < p { q } else { q + 1 };
        assert(t[q] == s[q0]);
        if q0 < p {
            assert(fold(s[q0].name) != fold(s[p].name));
        } else {
            assert(fold(s[p].name) != fold(s[q0].name));
        }
    }
}

/// Giving a cached entry a new count keeps the list well formed and its length.
pub proof fn lemma_recounted_wf(s: Seq<EntryView>, p: int, times: u64)
    requires
        ranked(s),
        distinct_names(s),
        0 <= p < s.len(),
    ensures
        ranked(recounted(s, p, times)),
        distinct_names(recounted(s, p, times)),
        recounted(s, p, times).len() == s.len(),
{
    lemma_removed_wf(s, p);
    let e = EntryView { name: s[p].name, times };
    lemma_position_from(s.remove(p), s[p].name, 0);
    lemma_position_from(s.remove(p), e.name, 0);
    lemma_placed_wf(s.remove(p), e);
}

/// Including an entry keeps a list well formed.
pub proof fn lemma_included_wf(s: Seq<EntryView>, e: EntryView, k: nat)
    requires
        top_wf(s, k),
    ensures
        top_wf(included(s, e, k), k),
        k > 0 ==> included(s, e, k).len() > 0,
        included(s, e, k).len() >= s.len(),
{
    lemma_position_from(s, e.name, 0);
    if shuts_out(s, e, k) {
    } else if holds_name(s, e.name) {
        lemma_recounted_wf(s, position_of(s, e.name), e.times);
    } else {
        lemma_placed_wf(s, e);
        if s.len() + 1 > k {
            let t = placed(s, e);
            let u = t.take(k as int);
            assert forall|i: int, j: int| 0 <= i < j < u.len() implies outranks(
                #[trigger] u[i],
                #[trigger] u[j],
            ) && fold(u[i].name) != fold(u[j].name) by {
                assert(u[i] == t[i] && u[j] == t[j]);
            }
        }
    }
}

/// Bumping a cached entry keeps a list well formed and its length.
pub proof fn lemma_bumped_wf(s: Seq<EntryView>, e: EntryView, k: nat)
    requires
        top_wf(s, k),
    ensures
        top_wf(bumped(s, e), k),
        bumped(s, e).len() == s.len(),
{
    lemma_position_from(s, e.name, 0);
    if can_bump(s, e) {
        lemma_recounted_wf(s, position_of(s, e.name), e.times);
    }
}

} // verus!
