//! Voting: the walk down to the node of a name, which counts the vote, and
//! the walk back up, which repairs the cached lists on the way.

use vstd::prelude::*;
use vstd::string::StrSliceExecFns;
use crate::entry::{fold, lemma_fold_drop_last, Entry};
use crate::exact::{exact, lemma_voted_exact};
use crate::model::{blocks, can_vote, halt_depth, repaired, vote_entry, voted, voted_above};
use crate::node::Node;
use crate::top::{lemma_bumped_wf, lemma_included_wf};
use crate::tree::Tree;

verus! {

/// What a vote, or one step of it, comes to.
#[derive(Debug)]
pub enum VoteResult {
    /// The walk goes on at the node in this position.
    Next(usize),
    /// The vote was counted: the name's entry as it now stands.
    Success(Entry),
    /// The tree has no such name.
    NotFound,
}

impl Node {
    /// One step of the walk down: at the depth of the whole name the node
    /// counts the vote if it is a name, before that it names the child to go
    /// on with, if there is one.
    pub fn vote(&mut self, name: &str, counter: &mut usize) -> (result: VoteResult)
        requires
            *old(counter) <= name@.len(),
            *old(counter) == name@.len() ==> old(self)@.data.times < u64::MAX,
        ensures
            match result {
                VoteResult::Success(entry) => {
                    &&& *old(counter) == name@.len()
                    &&& old(self)@.data.times > 0
                    &&& entry@.name == old(self)@.data.prefix
                    &&& entry@.times == old(self)@.data.times + 1
                    &&& final(self)@ == old(self)@.with_times(entry@.times)
                    &&& *final(counter) == *old(counter)
                },
                VoteResult::NotFound => {
                    &&& final(self)@ == old(self)@
                    &&& *final(counter) == *old(counter)
                    &&& if *old(counter) == name@.len() {
                        old(self)@.data.times == 0
                    } else {
                        old(self)@.child_for(name@[*old(counter) as int]) is None
                    }
                },
                VoteResult::Next(child) => {
                    &&& *old(counter) < name@.len()
                    &&& *final(counter) == *old(counter) + 1
                    &&& old(self)@.child_for(name@[*old(counter) as int]) == Some(child)
                    &&& final(self)@ == old(self)@
                },
            },
    {
        let length = name.unicode_len();
        if *counter == length {
            if !self.is_name() {
                return VoteResult::NotFound;
            }
            let times: u64 = *self.get_times() + 1;
            let entry = Entry::new(self.get_prefix().to_owned(), times);
            *self.get_times_mut() = times;
            return VoteResult::Success(entry);
        }
        let character = name.get_char(*counter);
        match self.next_child(character) {
            None => VoteResult::NotFound,
            Some(child) => {
                *counter += 1;
                VoteResult::Next(child)
            },
        }
    }

    /// One step of the walk up: unless the list blocks `entry`, the node
    /// repairs its list. Says whether the walk goes on.
    pub fn repair_top(&mut self, entry: &Entry) -> (goes_on: bool)
        requires
            old(self).wf(),
        ensures
            final(self).wf(),
            goes_on == !blocks(old(self)@.data.top, entry@),
            final(self)@ == old(self)@.with_top(
                if goes_on {
                    repaired(old(self)@.data.top, entry@, old(self)@.suggestions as nat)
                } else {
                    old(self)@.data.top
                },
            ),
            final(self)@.data.top.len() >= old(self)@.data.top.len(),
    {
        proof {
            lemma_bumped_wf(self@.data.top, entry@, self@.suggestions as nat);
            lemma_included_wf(self@.data.top, entry@, self@.suggestions as nat);
        }
        let top = self.get_top();
        let length = top.len();
        if length > 0 && *top[length - 1].get_times() > *entry.get_times() {
            return false;
        }
        if !self.update_top(entry) {
            self.include_top(entry);
        }
        true
    }
}

impl Tree {
    /// Whether `name` is a name of the tree whose count is the greatest that
    /// can be held: a vote for it cannot be counted.
    pub fn is_saturated(&self, name: &str) -> (saturated: bool)
        requires
            self.wf(),
        ensures
            saturated == (can_vote(self@, name@) && self@[fold(name@)].times == u64::MAX),
    {
        match self.locate(name) {
            Some(i) => {
                proof {
                    self.lemma_filed(i as int);
                }
                *self.node(i).get_times() == u64::MAX
            },
            None => false,
        }
    }

    /// Votes for `name`.
    ///
    /// Where the tree has a node for the name, whatever the casing, and that
    /// node is a name, the node counts one more vote, the lists from that node
    /// upwards are repaired as far as the vote travels, and the result is the
    /// name's entry as it now stands. Otherwise the tree stays as it is and
    /// the result is `NotFound`.
    pub fn vote(&mut self, name: &str) -> (result: VoteResult)
        requires
            old(self).wf(),
            can_vote(old(self)@, name@) ==> old(self)@[fold(name@)].times < u64::MAX,
        ensures
            final(self).wf(),
            final(self).suggestions() == old(self).suggestions(),
            final(self).same_shape(old(self)),
            exact(old(self)@, old(self).suggestions()) ==> exact(
                final(self)@,
                final(self).suggestions(),
            ),
            match result {
                VoteResult::Success(entry) => {
                    &&& can_vote(old(self)@, name@)
                    &&& entry@ == vote_entry(old(self)@, name@)
                    &&& final(self)@ == voted(old(self)@, name@, old(self).suggestions())
                },
                VoteResult::NotFound => {
                    &&& !can_vote(old(self)@, name@)
                    &&& final(self)@ == old(self)@
                },
                VoteResult::Next(_) => false,
            },
    {
        let mut counter: usize = 0;
        let mut traveller: usize = 0;
        let ghost m = self@;
        let ghost k = self.suggestions();
        let ghost key = fold(name@);
        let ghost start = *self;
        assert(key.take(0) =~= self.key_at(0));
        proof {
            self.lemma_view_wf();
            if exact(m, k) && can_vote(m, name@) {
                lemma_voted_exact(m, name@, k);
            }
        }
        let mut counted: Option<Entry> = None;
        while counted.is_none()
            invariant
                self.wf(),
                self.suggestions() == k,
                k == old(self).suggestions(),
                m == old(self)@,
                key == fold(name@),
                start == *old(self),
                self.same_shape(&start),
                can_vote(m, name@) ==> m[key].times < u64::MAX,
                exact(m, k) && can_vote(m, name@) ==> exact(voted(m, name@, k), k),
                traveller < self.size(),
                counted is None ==> {
                    &&& self@ == m
                    &&& counter <= name@.len()
                    &&& self.key_at(traveller as int) == key.take(counter as int)
                },
                counted is Some ==> {
                    &&& self.key_at(traveller as int) == key
                    &&& can_vote(m, name@)
                    &&& counted->0@ == vote_entry(m, name@)
                    &&& self@ == voted_above(m, name@, k, key.len() as int)
                },
            decreases name@.len() - counter + if counted is None { 1int } else { 0int },
        {
            let ghost depth = counter as int;
            let ghost before = *self;
            proof {
                assert(self.node_ok(traveller as int));
                self.lemma_filed(traveller as int);
                if depth == key.len() {
                    assert(key.take(depth) =~= key);
                }
            }
            let step = self.node_mut(traveller).vote(name, &mut counter);
            proof {
                before.lemma_restored(self, traveller as int);
                self.lemma_same_shape_chain(&before, &start);
            }
            match step {
                VoteResult::Next(child) => {
                    proof {
                        assert(self@ =~= before@);
                        self.lemma_child(traveller as int, name@[depth]);
                        assert(key.take(depth + 1) =~= key.take(depth).push(key[depth]));
                    }
                    traveller = child;
                },
                VoteResult::NotFound => {
                    proof {
                        assert(self@ =~= before@);
                        if depth < key.len() {
                            self.lemma_no_child(traveller as int, name@[depth]);
                            assert(key.take(depth + 1) =~= key.take(depth).push(key[depth]));
                            if self.holds(key) {
                                self.lemma_prefix_closed(key, depth + 1);
                            }
                        }
                    }
                    return VoteResult::NotFound;
                },
                VoteResult::Success(entry) => {
                    proof {
                        assert(self@ =~= voted_above(m, name@, k, key.len() as int)) by {
                            let want = voted_above(m, name@, k, key.len() as int);
                            assert forall|q: Seq<char>| self@.contains_key(q) implies #[trigger] self@[q]
                                == want[q] by {
                                if q.is_prefix_of(key) && q.len() >= key.len() {
                                    assert(q =~= key);
                                }
                            }
                        }
                    }
                    counted = Some(entry);
                },
            }
        }
        let entry = match counted {
            Some(entry) => entry,
            None => {
                return VoteResult::NotFound;
            },
        };
        let ghost e = entry@;
        let mut depth: Ghost<int> = Ghost(key.len() as int);
        loop
            invariant
                self.wf(),
                self.suggestions() == k,
                k == old(self).suggestions(),
                m == old(self)@,
                key == fold(name@),
                e == entry@,
                e == vote_entry(m, name@),
                can_vote(m, name@),
                0 <= depth@ <= key.len(),
                traveller < self.size(),
                self.key_at(traveller as int) == key.take(depth@),
                self@ == voted_above(m, name@, k, depth@),
                halt_depth(m, key, e, key.len() as int) == halt_depth(m, key, e, depth@),
                exact(m, k) ==> exact(voted(m, name@, k), k),
                start == *old(self),
                self.same_shape(&start),
            decreases depth@,
        {
            let ghost before = *self;
            let ghost here = key.take(depth@);
            proof {
                assert(self.node_ok(traveller as int));
                self.lemma_filed(traveller as int);
                assert(here.is_prefix_of(key));
            }
            let goes_on = self.node_mut(traveller).repair_top(&entry);
            proof {
                before.lemma_restored(self, traveller as int);
                self.lemma_same_shape_chain(&before, &start);
            }
            if !goes_on {
                assert(self@ =~= before@);
                return VoteResult::Success(entry);
            }
            proof {
                assert(self@ =~= voted_above(m, name@, k, depth@ - 1)) by {
                    let want = voted_above(m, name@, k, depth@ - 1);
                    assert forall|q: Seq<char>| self@.contains_key(q) implies #[trigger] self@[q]
                        == want[q] by {
                        if q.is_prefix_of(key) && q.len() == depth@ {
                            assert(q =~= here);
                        }
                    }
                }
                assert(self.node_ok(traveller as int));
                assert(self.key_at(0).len() == 0);
            }
            match self.node(traveller).get_parent() {
                None => {
                    proof {
                        assert(traveller == 0);
                        assert(here.len() == depth@);
                        assert(depth@ == 0);
                        assert(halt_depth(m, key, e, 0) == halt_depth(m, key, e, -1));
                    }
                    return VoteResult::Success(entry);
                },
                Some(parent) => {
                    proof {
                        assert(self.linked_up(traveller as int));
                        lemma_fold_drop_last(self.at(traveller as int).data.prefix);
                        assert(here.drop_last() =~= key.take(depth@ - 1));
                        depth@ = depth@ - 1;
                    }
                    traveller = parent;
                },
            }
        }
    }
}

} // verus!
