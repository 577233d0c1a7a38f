//! Answering a query: the walk to the node of a prefix, and the answer that
//! this node assembles from its own entry and its cached list.

use vstd::pervasive::unreached;
use vstd::prelude::*;
use vstd::string::StrSliceExecFns;
use crate::entry::{fold, same_entry, Entry, EntryView};
use crate::model::{answer, capped, others};
use crate::node::Node;
use crate::shape::{lemma_answer_bounded, lemma_answer_ranked};
use crate::top::{entry_views, limit_of, ranked};
use crate::tree::Tree;

verus! {

/// Why a query has no answer.
#[derive(Debug)]
pub enum GetPrefixError {
    /// No node has the given prefix.
    NotFound(String),
}

/// What one node contributes to a query.
#[derive(Debug)]
pub enum SearchResult {
    /// The node is the one of the prefix: its answer.
    Success(Vec<Entry>),
    /// The walk goes on at the node in this position.
    Next(usize),
}

/// The answer to a query: entries, the best first.
#[derive(Debug)]
pub enum Output {
    Values(Vec<Entry>),
}

impl Default for Output {
    fn default() -> (output: Output)
        ensures
            output.values() == Seq::<EntryView>::empty(),
    {
        let output = Output::Values(Vec::new());
        assert(output.values() =~= Seq::<EntryView>::empty());
        output
    }
}

impl Output {
    /// The entries of the answer, as contracts see them.
    pub open spec fn values(&self) -> Seq<EntryView> {
        match self {
            Output::Values(list) => entry_views(list@),
        }
    }
}

impl SearchResult {
    /// The answer that the last step of a query holds. A step that only leads
    /// on holds none.
    pub fn into_output(self) -> (output: Output)
        requires
            self is Success,
        ensures
            self == SearchResult::Success(output->Values_0),
    {
        match self {
            SearchResult::Success(values) => Output::Values(values),
            SearchResult::Next(_) => unreached(),
        }
    }
}

/// The entries other than `own` are an initial part of what a longer list yields.
proof fn lemma_others_take(s: Seq<EntryView>, own: EntryView, i: int)
    requires
        0 <= i <= s.len(),
    ensures
        others(s.take(i), own).len() <= others(s, own).len(),
        others(s.take(i), own) == others(s, own).take(others(s.take(i), own).len() as int),
    decreases s.len(),
{
    if i == s.len() {
        assert(s.take(i) =~= s);
        assert(others(s, own) =~= others(s, own).take(others(s, own).len() as int));
    } else {
        assert(s.drop_last().take(i) =~= s.take(i));
        lemma_others_take(s.drop_last(), own, i);
        let short = others(s.take(i), own);
        assert(short =~= others(s, own).take(short.len() as int));
    }
}

/// One more entry of the list, and what it adds to the entries other than `own`.
proof fn lemma_others_step(s: Seq<EntryView>, own: EntryView, i: int)
    requires
        0 <= i < s.len(),
    ensures
        others(s.take(i + 1), own) == if same_entry(s[i], own) {
            others(s.take(i), own)
        } else {
            others(s.take(i), own).push(s[i])
        },
{
    assert(s.take(i + 1).drop_last() =~= s.take(i));
}

impl Node {
    /// The answer of this node to a query for its own prefix.
    pub fn collect_top(&self) -> (list: Vec<Entry>)
        ensures
            entry_views(list@) == answer(self@.data, self@.suggestions as nat),
    {
        let top = self.get_top();
        let room = self.limit();
        let mut list: Vec<Entry> = Vec::new();
        let ghost cached = self@.data.top;
        let ghost own = self@.data.own();
        if self.is_name() {
            let me = self.get_entry();
            list.push(me.clone());
            let mut i: usize = 0;
            assert(cached.take(0) =~= Seq::<EntryView>::empty());
            assert(entry_views(list@) =~= seq![own] + others(cached.take(0), own));
            while i < top.len() && list.len() < room
                invariant
                    i <= top.len(),
                    entry_views(top@) == cached,
                    me@ == own,
                    room == limit_of(cached, self@.suggestions as nat),
                    entry_views(list@) == seq![own] + others(cached.take(i as int), own),
                    list.len() <= room || list.len() == 1,
                decreases top.len() - i,
            {
                proof {
                    lemma_others_step(cached, own, i as int);
                }
                if !top[i].same(me) {
                    let ghost before = list@;
                    list.push(top[i].clone());
                    assert(entry_views(list@) =~= entry_views(before).push(cached[i as int]));
                    assert(entry_views(list@) =~= seq![own] + others(cached.take(i as int), own).push(
                        cached[i as int],
                    ));
                }
                i += 1;
            }
            proof {
                lemma_others_take(cached, own, i as int);
                let part = others(cached.take(i as int), own);
                let all = others(cached, own);
                let cut: nat = if room >= 1 { (room - 1) as nat } else { 0 };
                assert(part.len() + 1 == list@.len());
                if i == top.len() {
                    assert(cached.take(i as int) =~= cached);
                }
                assert(part =~= capped(all, cut));
            }
        } else {
            let mut i: usize = 0;
            while i < room
                invariant
                    i <= room <= top.len(),
                    entry_views(top@) == cached,
                    entry_views(list@) == cached.take(i as int),
                decreases room - i,
            {
                let ghost before = list@;
                list.push(top[i].clone());
                assert(entry_views(list@) =~= entry_views(before).push(cached[i as int]));
                assert(cached.take(i + 1) =~= cached.take(i as int).push(cached[i as int]));
                i += 1;
            }
            assert(cached.take(room as int) =~= capped(cached, room as nat));
        }
        list
    }

    /// One step of a query: the answer if the walk has consumed the whole
    /// prefix, else the child to go on with, if there is one.
    pub fn get_top_entries(&self, prefix: &str, counter: &mut usize) -> (result: Result<
        SearchResult,
        GetPrefixError,
    >)
        requires
            *old(counter) <= prefix@.len(),
        ensures
            match result {
                Ok(SearchResult::Success(list)) => {
                    &&& *old(counter) == prefix@.len()
                    &&& *final(counter) == *old(counter)
                    &&& entry_views(list@) == answer(self@.data, self@.suggestions as nat)
                },
                Ok(SearchResult::Next(child)) => {
                    &&& *old(counter) < prefix@.len()
                    &&& *final(counter) == *old(counter) + 1
                    &&& self@.child_for(prefix@[*old(counter) as int]) == Some(child)
                },
                Err(GetPrefixError::NotFound(missing)) => {
                    &&& *old(counter) < prefix@.len()
                    &&& *final(counter) == *old(counter) + 1
                    &&& self@.child_for(prefix@[*old(counter) as int]) is None
                    &&& missing@ == prefix@
                },
            },
    {
        let length = prefix.unicode_len();
        if *counter == length {
            return Ok(SearchResult::Success(self.collect_top()));
        }
        let character = prefix.get_char(*counter);
        *counter += 1;
        match self.next_child(character) {
            None => Err(GetPrefixError::NotFound(prefix.to_owned())),
            Some(child) => Ok(SearchResult::Next(child)),
        }
    }
}

impl Tree {
    /// The answer to a query for `prefix`: that of the node of the prefix,
    /// whatever the casing, or `NotFound` if the tree has no such node.
    pub fn get_top(&self, prefix: &str) -> (result: Result<Output, GetPrefixError>)
        requires
            self.wf(),
        ensures
            match result {
                Ok(output) => {
                    &&& self@.contains_key(fold(prefix@))
                    &&& output.values() == answer(self@[fold(prefix@)], self.suggestions())
                    &&& output.values().len() <= self.suggestions()
                    &&& if self@[fold(prefix@)].times > 0 {
                        ranked(output.values().skip(1))
                    } else {
                        ranked(output.values())
                    }
                },
                Err(GetPrefixError::NotFound(missing)) => {
                    &&& !self@.contains_key(fold(prefix@))
                    &&& missing@ == prefix@
                },
            },
    {
        let mut counter: usize = 0;
        let mut traveller: usize = 0;
        let ghost key = fold(prefix@);
        assert(key.take(0) =~= self.key_at(0));
        loop
            invariant
                self.wf(),
                key == fold(prefix@),
                counter <= prefix@.len(),
                traveller < self.size(),
                self.key_at(traveller as int) == key.take(counter as int),
            decreases prefix@.len() - counter,
        {
            let ghost depth = counter as int;
            proof {
                assert(self.node_ok(traveller as int));
                self.lemma_filed(traveller as int);
            }
            let step = self.node(traveller).get_top_entries(prefix, &mut counter);
            match step {
                Err(err) => {
                    proof {
                        self.lemma_no_child(traveller as int, prefix@[depth]);
                        assert(key.take(depth + 1) =~= key.take(depth).push(key[depth]));
                        if self.holds(key) {
                            self.lemma_prefix_closed(key, depth + 1);
                        }
                    }
                    return Err(err);
                },
                Ok(SearchResult::Next(child)) => {
                    proof {
                        self.lemma_child(traveller as int, prefix@[depth]);
                        assert(key.take(depth + 1) =~= key.take(depth).push(key[depth]));
                    }
                    traveller = child;
                },
                Ok(found) => {
                    proof {
                        assert(key.take(depth) =~= key);
                        lemma_answer_bounded(self@[key], self.suggestions());
                        lemma_answer_ranked(self@[key], self.suggestions());
                    }
                    return Ok(found.into_output());
                },
            }
        }
    }
}

} // verus!
