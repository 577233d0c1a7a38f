//! The bulk file of names: a JSON object that gives each name its count.

use std::collections::HashMap;
use vstd::prelude::*;
use crate::entry::{Entry, EntryView};
use crate::top::entry_views;

verus! {

/// The counts that a JSON text gives to names, if the text is a JSON object
/// of counts that fit 32 bits.
pub uninterp spec fn json_counts(text: Seq<char>) -> Option<Map<Seq<char>, u32>>;

/// `pairs` lists `counts`: every pair is a name with its count, every name
/// is listed, and none twice.
pub open spec fn pairs_list(pairs: Seq<(String, u32)>, counts: Map<Seq<char>, u32>) -> bool {
    &&& forall|i: int|
        0 <= i < pairs.len() ==> counts.contains_key((#[trigger] pairs[i]).0@) && counts[pairs[i].0@]
            == pairs[i].1
    &&& forall|name: Seq<char>| #[trigger]
        counts.contains_key(name) ==> exists|i: int|
            0 <= i < pairs.len() && (#[trigger] pairs[i]).0@ == name
    &&& forall|i: int, j: int|
        0 <= i < j < pairs.len() ==> (#[trigger] pairs[i]).0@ != (#[trigger] pairs[j]).0@
}

/// `entries` lists `counts`: every entry is a name with its count, every
/// name is listed, and none twice.
pub open spec fn entries_list(entries: Seq<EntryView>, counts: Map<Seq<char>, u32>) -> bool {
    &&& forall|i: int|
        0 <= i < entries.len() ==> counts.contains_key((#[trigger] entries[i]).name)
            && counts[entries[i].name] == entries[i].times
    &&& forall|name: Seq<char>| #[trigger]
        counts.contains_key(name) ==> exists|i: int|
            0 <= i < entries.len() && (#[trigger] entries[i]).name == name
    &&& forall|i: int, j: int|
        0 <= i < j < entries.len() ==> (#[trigger] entries[i]).name != (#[trigger] entries[j]).name
}

/// Stands for `serde_json::from_str` at the type of a map from names to
/// 32-bit counts: the names with their counts, in no particular order, or
/// nothing if the text is no such JSON object.
#[verifier::external_body]
fn parse_counts(text: &str) -> (pairs: Option<Vec<(String, u32)>>)
    ensures
        match pairs {
            Some(pairs) => json_counts(text@) is Some && pairs_list(pairs@, json_counts(text@)->0),
            None => json_counts(text@) is None,
        },
{
    match serde_json::from_str::<HashMap<String, u32>>(text) {
        Ok(counts) => Some(counts.into_iter().collect()),
        Err(_) => None,
    }
}

/// The entries that pairs of names and counts stand for, in the same order.
pub fn entries_of(pairs: Vec<(String, u32)>) -> (entries: Vec<Entry>)
    ensures
        entries@.len() == pairs@.len(),
        forall|i: int|
            0 <= i < pairs@.len() ==> (#[trigger] entries@[i])@ == (EntryView {
                name: pairs@[i].0@,
                times: pairs@[i].1 as u64,
            }),
{
    let mut entries: Vec<Entry> = Vec::new();
    let mut i: usize = 0;
    while i < pairs.len()
        invariant
            i <= pairs.len(),
            entries.len() == i,
            forall|j: int|
                0 <= j < i ==> (#[trigger] entries@[j])@ == (EntryView {
                    name: pairs@[j].0@,
                    times: pairs@[j].1 as u64,
                }),
        decreases pairs.len() - i,
    {
        let times: u64 = pairs[i].1 as u64;
        entries.push(Entry::new(pairs[i].0.clone(), times));
        i += 1;
    }
    entries
}

/// Entries made of pairs that list counts list these counts too.
pub proof fn lemma_entries_list(
    pairs: Seq<(String, u32)>,
    entries: Seq<Entry>,
    counts: Map<Seq<char>, u32>,
)
    requires
        pairs_list(pairs, counts),
        entries.len() == pairs.len(),
        forall|i: int|
            0 <= i < pairs.len() ==> (#[trigger] entries[i])@ == (EntryView {
                name: pairs[i].0@,
                times: pairs[i].1 as u64,
            }),
    ensures
        entries_list(entry_views(entries), counts),
{
    let views = entry_views(entries);
    assert forall|name: Seq<char>| #[trigger] counts.contains_key(name) implies exists|i: int|
        0 <= i < views.len() && (#[trigger] views[i]).name == name by {
        let i = choose|i: int| 0 <= i < pairs.len() && (#[trigger] pairs[i]).0@ == name;
        assert(views[i].name == entries[i]@.name);
    }
    assert forall|i: int, j: int| 0 <= i < j < views.len() implies (#[trigger] views[i]).name != (
    #[trigger] views[j]).name by {
        assert(pairs[i].0@ != pairs[j].0@);
        assert(views[i] == entries[i]@ && views[j] == entries[j]@);
    }
    assert forall|i: int| 0 <= i < views.len() implies counts.contains_key(
        (#[trigger] views[i]).name,
    ) && counts[views[i].name] == views[i].times by {
        assert(counts.contains_key(pairs[i].0@));
        assert(views[i] == entries[i]@);
    }
}

/// The entries that the bulk file `text` holds, in no particular order, or
/// nothing if the text is no JSON object of counts.
pub fn load_json(text: &str) -> (entries: Option<Vec<Entry>>)
    ensures
        match entries {
            Some(entries) => json_counts(text@) is Some && entries_list(
                entry_views(entries@),
                json_counts(text@)->0,
            ),
            None => json_counts(text@) is None,
        },
{
    match parse_counts(text) {
        Some(pairs) => {
            let ghost listed = pairs@;
            let entries = entries_of(pairs);
            proof {
                lemma_entries_list(listed, entries@, json_counts(text@)->0);
            }
            Some(entries)
        },
        None => None,
    }
}

} // verus!
