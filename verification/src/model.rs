//! What the tree's operations do, stated on the tree's view: a map from
//! folded prefixes to what their nodes store.

use vstd::prelude::*;
use crate::entry::{fold, same_entry, EntryView};
use crate::node::NodeData;
use crate::top::{bumped, can_bump, included, limit_of, top_wf};
use crate::tree::TreeView;

verus! {

/// A view that a tree can have: the root is there, every node is filed under
/// the folded form of its prefix, every prefix of a key is a key and is
/// spelled as its extensions spell it, every list is well formed for the
/// bound `k`, and a name's own node caches at least one entry.
pub open spec fn model_wf(m: TreeView, k: nat) -> bool {
    &&& k >= 1
    &&& m.contains_key(Seq::<char>::empty())
    &&& forall|key: Seq<char>| #[trigger]
        m.contains_key(key) ==> {
            &&& m[key].key() == key
            &&& top_wf(m[key].top, k)
            &&& (m[key].times > 0 ==> m[key].top.len() > 0)
            &&& (key.len() > 0 ==> m.contains_key(key.drop_last()) && m[key.drop_last()].prefix
                == m[key].prefix.drop_last())
        }
}

/// `s`, cut to at most `n` entries.
pub open spec fn capped(s: Seq<EntryView>, n: nat) -> Seq<EntryView> {
    if s.len() <= n {
        s
    } else {
        s.take(n as int)
    }
}

/// The entries of `s` other than `own`, in order.
pub open spec fn others(s: Seq<EntryView>, own: EntryView) -> Seq<EntryView>
    decreases s.len(),
{
    if s.len() == 0 {
        s
    } else if same_entry(s.last(), own) {
        others(s.drop_last(), own)
    } else {
        others(s.drop_last(), own).push(s.last())
    }
}

/// The answer that a node gives to a query for its prefix.
///
/// A node that is a name answers with its own entry first, followed by the
/// cached entries other than itself, as many as fit within the number of cached
/// entries. A node that is no name answers with its cached entries.
pub open spec fn answer(node: NodeData, k: nat) -> Seq<EntryView> {
    let room = limit_of(node.top, k);
    if node.times > 0 {
        seq![node.own()] + capped(
            others(node.top, node.own()),
            if room >= 1 {
                (room - 1) as nat
            } else {
                0
            },
        )
    } else {
        capped(node.top, room)
    }
}

/// How the node at depth `depth` on the way to `name` is spelled once `name`
/// has been loaded: as the tree already spells it, or else as its parent is
/// spelled, followed by the character of `name` that leads to it.
pub open spec fn spelled(m: TreeView, name: Seq<char>, depth: nat) -> Seq<char>
    decreases depth,
{
    let key = fold(name).take(depth as int);
    if m.contains_key(key) {
        m[key].prefix
    } else if depth == 0 {
        Seq::empty()
    } else {
        spelled(m, name, (depth - 1) as nat).push(name[depth - 1])
    }
}

/// What the node under `key` stores before a load reaches it.
pub open spec fn before_load(m: TreeView, name: Seq<char>, key: Seq<char>) -> NodeData {
    if m.contains_key(key) {
        m[key]
    } else {
        NodeData { prefix: spelled(m, name, key.len()), times: 0, top: Seq::empty() }
    }
}

/// The tree after the entry `e` has been loaded, for the bound `k`.
///
/// Every folded prefix of the name has a node. Each of these nodes has
/// included `e` in its list, and the node of the whole name has `e`'s count.
/// All other nodes are as they were.
pub open spec fn loaded(m: TreeView, e: EntryView, k: nat) -> TreeView {
    Map::new(
        |key: Seq<char>| m.contains_key(key) || key.is_prefix_of(fold(e.name)),
        |key: Seq<char>|
            if key.is_prefix_of(fold(e.name)) {
                let was = before_load(m, e.name, key);
                NodeData {
                    prefix: was.prefix,
                    times: if key.len() == e.name.len() {
                        e.times
                    } else {
                        was.times
                    },
                    top: included(was.top, e, k),
                }
            } else {
                m[key]
            },
    )
}

/// Whether `name` can be voted for: it has a node, and that node is a name.
pub open spec fn can_vote(m: TreeView, name: Seq<char>) -> bool {
    m.contains_key(fold(name)) && m[fold(name)].times > 0
}

/// The entry that a vote for `name` produces: the node's spelling, with one more vote.
pub open spec fn vote_entry(m: TreeView, name: Seq<char>) -> EntryView {
    EntryView { name: m[fold(name)].prefix, times: (m[fold(name)].times + 1) as u64 }
}

/// A list stops a vote from travelling further up when even its last entry
/// has more votes than `e`.
pub open spec fn blocks(top: Seq<EntryView>, e: EntryView) -> bool {
    top.len() > 0 && top.last().times > e.times
}

/// A list after a vote has passed through it: the cached entry of that name is
/// raised if it is there with the previous count, else the entry is included.
pub open spec fn repaired(top: Seq<EntryView>, e: EntryView, k: nat) -> Seq<EntryView> {
    if can_bump(top, e) {
        bumped(top, e)
    } else {
        included(top, e, k)
    }
}

/// The depth, at or above `depth`, of the first node on the way up from `key`
/// whose list blocks `e`; `-1` if none does.
pub open spec fn halt_depth(m: TreeView, key: Seq<char>, e: EntryView, depth: int) -> int
    decreases depth + 1,
{
    if depth < 0 {
        -1
    } else if blocks(m[key.take(depth)].top, e) {
        depth
    } else {
        halt_depth(m, key, e, depth - 1)
    }
}

/// The tree after a vote for `name` has been counted and has repaired the
/// lists of the nodes on the way to `name` that lie deeper than `above`.
pub open spec fn voted_above(m: TreeView, name: Seq<char>, k: nat, above: int) -> TreeView {
    let key = fold(name);
    let e = vote_entry(m, name);
    Map::new(
        |q: Seq<char>| m.contains_key(q),
        |q: Seq<char>|
            NodeData {
                prefix: m[q].prefix,
                times: if q == key {
                    e.times
                } else {
                    m[q].times
                },
                top: if q.is_prefix_of(key) && q.len() > above {
                    repaired(m[q].top, e, k)
                } else {
                    m[q].top
                },
            },
    )
}

/// The tree after a vote for `name`, where `can_vote(m, name)`.
///
/// The node of the name has one more vote. From that node upwards, every node
/// below the first one whose list blocks the new entry has repaired its list.
pub open spec fn voted(m: TreeView, name: Seq<char>, k: nat) -> TreeView {
    let key = fold(name);
    voted_above(m, name, k, halt_depth(m, key, vote_entry(m, name), key.len() as int))
}

} // verus!
