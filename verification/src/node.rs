//! A vertex of the prefix tree: its own entry, the links to its parent and
//! children, and the ranked list of the best entries below it.

use std::collections::HashMap;
use vstd::prelude::*;
use crate::entry::{fold, fold_char, fold_char_exec, outranks, Entry, EntryView};
use crate::top::{
    bumped, can_bump, entry_views, included, lemma_bumped_wf, lemma_included_wf, lemma_position_is,
    lemma_slot_is, limit_of, position_of, recounted, shuts_out, slot_of, top_wf,
};

verus! {

broadcast use vstd::std_specs::hash::group_hash_axioms;

/// What a node stores about its prefix: the prefix as first spelled, its
/// count, and the cached list of the best entries at or below it.
pub struct NodeData {
    pub prefix: Seq<char>,
    pub times: u64,
    pub top: Seq<EntryView>,
}

/// A node as contracts see it. Links are positions in the tree's storage;
/// children are keyed by the code of the folded character that leads to them.
pub struct NodeView {
    pub parent: Option<usize>,
    pub id: usize,
    pub data: NodeData,
    pub children: Map<u32, usize>,
    pub suggestions: usize,
}

/// A node of the prefix tree.
pub struct Node {
    parent: Option<usize>,
    id: usize,
    entry: Entry,
    children: HashMap<u32, usize>,
    top: Vec<Entry>,
    suggestions: usize,
}

impl NodeData {
    /// The node's own entry: its prefix with its count.
    pub open spec fn own(self) -> EntryView {
        EntryView { name: self.prefix, times: self.times }
    }

    /// The folded prefix: the key under which the tree files the node.
    pub open spec fn key(self) -> Seq<char> {
        fold(self.prefix)
    }
}

impl View for Node {
    type V = NodeView;

    closed spec fn view(&self) -> NodeView {
        NodeView {
            parent: self.parent,
            id: self.id,
            data: NodeData {
                prefix: self.entry@.name,
                times: self.entry@.times,
                top: entry_views(self.top@),
            },
            children: self.children@,
            suggestions: self.suggestions,
        }
    }
}

/// The index in `top` of the entry that carries `entry`'s name, or the length.
fn find_name(top: &Vec<Entry>, entry: &Entry) -> (p: usize)
    ensures
        p <= top.len(),
        p == position_of(entry_views(top@), entry@.name),
{
    let mut i: usize = 0;
    while i < top.len()
        invariant
            i <= top.len(),
            forall|j: int| 0 <= j < i ==> fold(#[trigger] entry_views(top@)[j].name) != fold(entry@.name),
        decreases top.len() - i,
    {
        if top[i].same_name(entry) {
            proof {
                lemma_position_is(entry_views(top@), entry@.name, i as int);
            }
            return i;
        }
        i += 1;
    }
    proof {
        lemma_position_is(entry_views(top@), entry@.name, i as int);
    }
    i
}

/// The index in `top` behind the entries that outrank `entry`.
fn find_slot(top: &Vec<Entry>, entry: &Entry) -> (p: usize)
    ensures
        p <= top.len(),
        p == slot_of(entry_views(top@), entry@),
{
    let mut i: usize = 0;
    while i < top.len()
        invariant
            i <= top.len(),
            forall|j: int| 0 <= j < i ==> outranks(#[trigger] entry_views(top@)[j], entry@),
        decreases top.len() - i,
    {
        if !top[i].outranks(entry) {
            proof {
                lemma_slot_is(entry_views(top@), entry@, i as int);
            }
            return i;
        }
        i += 1;
    }
    proof {
        lemma_slot_is(entry_views(top@), entry@, i as int);
    }
    i
}

/// Gives the entry at `p` the count `times` and moves it to its rank.
fn recount(top: &mut Vec<Entry>, p: usize, times: u64)
    requires
        p < old(top).len(),
    ensures
        entry_views(final(top)@) == recounted(entry_views(old(top)@), p as int, times),
{
    let mut moved = top.remove(p);
    *moved.get_times_mut() = times;
    assert(entry_views(top@) =~= entry_views(old(top)@).remove(p as int));
    let slot = find_slot(top, &moved);
    let ghost before = top@;
    top.insert(slot, moved);
    assert(entry_views(top@) =~= entry_views(before).insert(slot as int, moved@));
}

impl Node {
    /// A node's invariant: its list is ranked, without repeated names, and
    /// within the bound.
    pub open spec fn wf(&self) -> bool {
        top_wf(self@.data.top, self@.suggestions as nat)
    }

    /// Creates a node without children and with an empty list.
    pub fn new(parent: Option<usize>, id: usize, prefix: String, times: u64, suggestions: usize) -> (node: Node)
        ensures
            node.wf(),
            node@ == (NodeView {
                parent,
                id,
                data: NodeData { prefix: prefix@, times, top: Seq::empty() },
                children: Map::empty(),
                suggestions,
            }),
    {
        let node = Node {
            parent,
            id,
            entry: Entry::new(prefix, times),
            children: HashMap::new(),
            top: Vec::new(),
            suggestions,
        };
        assert(node@.data.top =~= Seq::empty());
        node
    }

    /// The greatest number of entries that the node caches.
    pub fn get_suggestions(&self) -> (k: usize)
        ensures
            k == self@.suggestions,
    {
        self.suggestions
    }

    /// The prefix that leads to this node, as first spelled.
    pub fn get_prefix(&self) -> (prefix: &str)
        ensures
            prefix@ == self@.data.prefix,
    {
        self.entry.get_name()
    }

    /// The count of the node's own prefix.
    pub fn get_times(&self) -> (times: &u64)
        ensures
            *times == self@.data.times,
    {
        self.entry.get_times()
    }

    /// The node's own entry.
    pub fn get_entry(&self) -> (entry: &Entry)
        ensures
            entry@ == self@.data.own(),
    {
        &self.entry
    }

    /// The position of the parent, or `None` at the root.
    pub fn get_parent(&self) -> (parent: Option<usize>)
        ensures
            parent == self@.parent,
    {
        self.parent
    }

    /// The children: for the code of each folded character that leads on, the
    /// position of the node that it leads to.
    pub fn get_children(&self) -> (children: &HashMap<u32, usize>)
        ensures
            children@ == self@.children,
    {
        &self.children
    }

    /// The node's handle: its own position in the tree's storage, by which
    /// its children name it as their parent.
    pub fn get_lock(&self) -> (id: usize)
        ensures
            id == self@.id,
    {
        self.id
    }

    /// The cached list, best entry first.
    pub fn get_top(&self) -> (top: &Vec<Entry>)
        ensures
            entry_views(top@) == self@.data.top,
    {
        &self.top
    }

    /// Whether the node's prefix is itself a name: its count is positive.
    pub fn is_name(&self) -> (r: bool)
        ensures
            r == (self@.data.times > 0),
    {
        *self.entry.get_times() > 0
    }

    /// The number of cached entries that a response may use.
    pub fn limit(&self) -> (n: usize)
        ensures
            n == limit_of(self@.data.top, self@.suggestions as nat),
    {
        if self.top.len() <= self.suggestions {
            self.top.len()
        } else {
            self.suggestions
        }
    }

    /// The child reached by `character`, whatever its case, if there is one.
    pub fn next_child(&self, character: char) -> (child: Option<usize>)
        ensures
            child == self@.child_for(character),
    {
        let key = fold_char_exec(character) as u32;
        match self.children.get(&key) {
            Some(index) => Some(*index),
            None => None,
        }
    }

    /// Mutable access to the count of the node's own prefix.
    pub fn get_times_mut(&mut self) -> (times: &mut u64)
        ensures
            *times == old(self)@.data.times,
            final(self)@ == old(self)@.with_times(*final(times)),
    {
        self.entry.get_times_mut()
    }

    /// Files `child` as the node reached by `character`.
    pub(crate) fn add_child(&mut self, character: char, child: usize)
        ensures
            final(self)@ == (NodeView {
                children: old(self)@.children.insert(fold_char(character) as u32, child),
                ..old(self)@
            }),
    {
        let key = fold_char_exec(character) as u32;
        self.children.insert(key, child);
    }

    /// Includes `entry` in the cached list.
    pub fn include_top(&mut self, entry: &Entry)
        requires
            old(self).wf(),
        ensures
            final(self).wf(),
            final(self)@ == old(self)@.with_top(
                included(old(self)@.data.top, entry@, old(self)@.suggestions as nat),
            ),
    {
        let ghost before = self@.data.top;
        let ghost k = self.suggestions as nat;
        proof {
            lemma_included_wf(before, entry@, k);
        }
        let len = self.top.len();
        if len >= self.suggestions && (len == 0 || !entry.outranks(&self.top[len - 1])) {
            assert(shuts_out(before, entry@, k));
            return;
        }
        assert(!shuts_out(before, entry@, k));
        let p = find_name(&self.top, entry);
        if p < len {
            recount(&mut self.top, p, *entry.get_times());
        } else {
            let slot = find_slot(&self.top, entry);
            let ghost list = self.top@;
            self.top.insert(slot, entry.clone());
            assert(entry_views(self.top@) =~= entry_views(list).insert(slot as int, entry@));
            if self.top.len() > self.suggestions {
                let ghost longer = self.top@;
                self.top.truncate(self.suggestions);
                assert(entry_views(self.top@) =~= entry_views(longer).take(k as int));
            }
        }
    }

    /// Raises the cached entry of `entry`'s name to `entry`'s count, if the
    /// list holds that name with a count one lower. Says whether it did.
    pub fn update_top(&mut self, entry: &Entry) -> (found: bool)
        requires
            old(self).wf(),
        ensures
            final(self).wf(),
            found == can_bump(old(self)@.data.top, entry@),
            final(self)@ == old(self)@.with_top(bumped(old(self)@.data.top, entry@)),
    {
        proof {
            lemma_bumped_wf(self@.data.top, entry@, self.suggestions as nat);
        }
        let p = find_name(&self.top, entry);
        if p < self.top.len() {
            let cached: u64 = *self.top[p].get_times();
            let wanted: u64 = *entry.get_times();
            if cached < wanted && wanted - cached == 1 {
                recount(&mut self.top, p, wanted);
                return true;
            }
        }
        false
    }
}

impl NodeView {
    /// The child filed under the folded form of `character`, if any.
    pub open spec fn child_for(self, character: char) -> Option<usize> {
        if self.children.contains_key(fold_char(character) as u32) {
            Some(self.children[fold_char(character) as u32])
        } else {
            None
        }
    }

    /// This node with another cached list.
    pub open spec fn with_top(self, top: Seq<EntryView>) -> NodeView {
        NodeView { data: NodeData { top, ..self.data }, ..self }
    }

    /// This node with another count.
    pub open spec fn with_times(self, times: u64) -> NodeView {
        NodeView { data: NodeData { times, ..self.data }, ..self }
    }
}

} // verus!
