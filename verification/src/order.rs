//! The ranking of entries as a three-way comparison.

use std::cmp::Ordering;
use vstd::prelude::*;
use crate::entry::{lemma_rank_total, outranks, same_entry, Entry, EntryView};

verus! {

/// How `a` compares with `b`: greater when it outranks `b`, equal when both
/// are the same entry, less when `b` outranks it.
pub open spec fn rank_order(a: EntryView, b: EntryView) -> Ordering {
    if outranks(a, b) {
        Ordering::Greater
    } else if same_entry(a, b) {
        Ordering::Equal
    } else {
        Ordering::Less
    }
}

/// The comparison is a total order: swapping the arguments reverses it.
pub proof fn lemma_rank_order_reverse(a: EntryView, b: EntryView)
    ensures
        rank_order(a, b) == Ordering::Greater <==> rank_order(b, a) == Ordering::Less,
        rank_order(a, b) == Ordering::Equal <==> rank_order(b, a) == Ordering::Equal,
        rank_order(a, b) == Ordering::Less <==> outranks(b, a),
{
    lemma_rank_total(a, b);
    lemma_rank_total(b, a);
}

impl Entry {
    /// Compares two entries by rank: more votes are greater; with equal votes
    /// the name that comes first, case folded, is greater.
    pub fn cmp(&self, other: &Entry) -> (r: Ordering)
        ensures
            r == rank_order(self@, other@),
    {
        if self.outranks(other) {
            Ordering::Greater
        } else if self.same(other) {
            Ordering::Equal
        } else {
            Ordering::Less
        }
    }
}

impl PartialOrd for Entry {
    fn partial_cmp(&self, other: &Self) -> (r: Option<Ordering>) {
        Some(self.cmp(other))
    }
}

impl vstd::std_specs::cmp::PartialOrdSpecImpl for Entry {
    open spec fn obeys_partial_cmp_spec() -> bool {
        true
    }

    open spec fn partial_cmp_spec(&self, other: &Self) -> Option<Ordering> {
        Some(rank_order(self@, other@))
    }
}

} // verus!
