//! The prefix tree: nodes kept in one growable store and linked by position.

use vstd::prelude::*;
use vstd::string::StrSliceExecFns;
use crate::entry::{fold, fold_char, lemma_fold_drop_last, lemma_fold_push, push_char};
use crate::exact::{exact, lemma_empty_exact};
use crate::model::model_wf;
use crate::node::{Node, NodeData, NodeView};
use crate::top::top_wf;

verus! {

/// The tree as contracts see it: for every folded prefix that has a node,
/// what that node stores.
pub type TreeView = Map<Seq<char>, NodeData>;

/// The view of a tree that holds the root only.
pub open spec fn empty_view() -> TreeView {
    Map::<Seq<char>, NodeData>::empty().insert(
        Seq::empty(),
        NodeData { prefix: Seq::empty(), times: 0, top: Seq::empty() },
    )
}

/// A prefix tree of entries. Position 0 holds the root, the node of the
/// empty prefix.
pub struct Tree {
    nodes: Vec<Node>,
}

impl View for Tree {
    type V = TreeView;

    open spec fn view(&self) -> TreeView {
        Map::new(|key: Seq<char>| self.holds(key), |key: Seq<char>| self.at(self.index_of(key)).data)
    }
}

impl Tree {
    /// The number of nodes.
    pub closed spec fn size(&self) -> nat {
        self.nodes.len() as nat
    }

    /// The node at position `i`.
    pub closed spec fn at(&self, i: int) -> NodeView {
        self.nodes[i]@
    }

    /// The folded prefix of the node at position `i`.
    pub open spec fn key_at(&self, i: int) -> Seq<char> {
        self.at(i).data.key()
    }

    /// Whether some node has the folded prefix `key`.
    pub open spec fn holds(&self, key: Seq<char>) -> bool {
        exists|i: int| 0 <= i < self.size() && #[trigger] self.key_at(i) == key
    }

    /// The position of the node with the folded prefix `key`.
    pub open spec fn index_of(&self, key: Seq<char>) -> int {
        choose|i: int| 0 <= i < self.size() && #[trigger] self.key_at(i) == key
    }

    /// The bound on every node's cached list.
    pub open spec fn suggestions(&self) -> nat {
        self.at(0).suggestions as nat
    }

    /// The node at `i` is the child that its parent files under its last character.
    pub open spec fn linked_up(&self, i: int) -> bool {
        let n = self.at(i);
        match n.parent {
            Some(p) => {
                &&& p < self.size()
                &&& n.data.prefix.len() > 0
                &&& self.at(p as int).data.prefix == n.data.prefix.drop_last()
                &&& self.at(p as int).child_for(n.data.prefix.last()) == Some(i as usize)
            },
            None => false,
        }
    }

    /// The child that the node at `i` files under `code` names that node as its
    /// parent and ends in a character with that code.
    pub open spec fn linked_down(&self, i: int, code: u32) -> bool {
        let j = self.at(i).children[code];
        &&& 0 < j < self.size()
        &&& self.at(j as int).parent == Some(i as usize)
        &&& self.at(j as int).data.prefix.len() > 0
        &&& fold_char(self.at(j as int).data.prefix.last()) as u32 == code
    }

    /// What holds of the node at `i` in a well-formed tree.
    pub open spec fn node_ok(&self, i: int) -> bool {
        let n = self.at(i);
        &&& n.id == i
        &&& n.suggestions == self.suggestions()
        &&& top_wf(n.data.top, self.suggestions())
        &&& (n.data.times > 0 ==> n.data.top.len() > 0)
        &&& (i > 0 ==> self.linked_up(i))
        &&& forall|code: u32| #[trigger] n.children.contains_key(code) ==> self.linked_down(i, code)
    }

    /// The tree's invariant.
    ///
    /// The root is the node of the empty prefix and has no parent. Every other
    /// node extends its parent's prefix by one character and is filed there
    /// under that character's folded form. No two nodes have the same folded
    /// prefix. Every list is well formed for a bound of at least one, and a
    /// name's own node caches at least one entry.
    pub open spec fn wf(&self) -> bool {
        &&& self.size() >= 1
        &&& self.suggestions() >= 1
        &&& self.at(0).parent is None
        &&& self.at(0).data.prefix.len() == 0
        &&& forall|i: int| 0 <= i < self.size() ==> #[trigger] self.node_ok(i)
        &&& forall|i: int, j: int|
            0 <= i < self.size() && 0 <= j < self.size() && i != j ==> #[trigger] self.key_at(i)
                != #[trigger] self.key_at(j)
    }

    /// This tree has every node of `before` in its position, with its
    /// spelling, its parent and the children that it had. Nodes may have
    /// come, nodes may have filed more children, and counts and lists may
    /// differ.
    pub open spec fn keeps(&self, before: &Tree) -> bool {
        &&& before.size() <= self.size()
        &&& forall|j: int|
            0 <= j < before.size() ==> {
                &&& (#[trigger] self.at(j)).parent == before.at(j).parent
                &&& self.at(j).id == before.at(j).id
                &&& self.at(j).suggestions == before.at(j).suggestions
                &&& self.at(j).data.prefix == before.at(j).data.prefix
                &&& before.at(j).children.submap_of(self.at(j).children)
            }
    }

    /// This tree has the nodes of `before` and no others, each in its
    /// position and with its spelling, its parent and its children. Counts
    /// and lists may differ.
    pub open spec fn same_shape(&self, before: &Tree) -> bool {
        &&& self.size() == before.size()
        &&& forall|j: int|
            0 <= j < before.size() ==> {
                &&& #[trigger] self.at(j) == (NodeView {
                    data: self.at(j).data,
                    ..before.at(j)
                })
                &&& self.at(j).data.prefix == before.at(j).data.prefix
            }
    }

    /// What a tree keeps of a tree that keeps a third, it keeps of the third.
    pub proof fn lemma_keeps_chain(&self, middle: &Tree, first: &Tree)
        requires
            self.keeps(middle),
            middle.keeps(first),
        ensures
            self.keeps(first),
    {
        assert forall|j: int| 0 <= j < first.size() implies {
            &&& (#[trigger] self.at(j)).parent == first.at(j).parent
            &&& self.at(j).id == first.at(j).id
            &&& self.at(j).suggestions == first.at(j).suggestions
            &&& self.at(j).data.prefix == first.at(j).data.prefix
            &&& first.at(j).children.submap_of(self.at(j).children)
        } by {
            let m = middle.at(j);
            assert(m.parent == first.at(j).parent);
            assert forall|code: u32| #[trigger]
                first.at(j).children.dom().contains(code) implies self.at(j).children.dom().contains(
                code,
            ) && first.at(j).children[code] == self.at(j).children[code] by {
                assert(m.children.dom().contains(code));
            }
        }
    }

    /// A tree of the same shape as one of the same shape as a third has the
    /// shape of the third; and a tree of the same shape keeps all nodes.
    pub proof fn lemma_same_shape_chain(&self, middle: &Tree, first: &Tree)
        requires
            self.same_shape(middle),
            middle.same_shape(first),
        ensures
            self.same_shape(first),
            self.keeps(first),
    {
        assert forall|j: int| 0 <= j < first.size() implies {
            &&& #[trigger] self.at(j) == (NodeView { data: self.at(j).data, ..first.at(j) })
            &&& self.at(j).data.prefix == first.at(j).data.prefix
        } by {
            let m = middle.at(j);
            assert(m.parent == first.at(j).parent);
        }
    }

    /// Every node is found under its folded prefix.
    pub proof fn lemma_filed(&self, i: int)
        requires
            self.wf(),
            0 <= i < self.size(),
        ensures
            self.holds(self.key_at(i)),
            self.index_of(self.key_at(i)) == i,
            self@.contains_key(self.key_at(i)),
            self@[self.key_at(i)] == self.at(i).data,
    {
    }

    /// The child filed under a character has the parent's folded prefix
    /// followed by the folded character, and the parent's spelling followed by
    /// one character.
    pub proof fn lemma_child(&self, i: int, character: char)
        requires
            self.wf(),
            0 <= i < self.size(),
            self.at(i).child_for(character) is Some,
        ensures
            0 < self.at(i).child_for(character)->0 < self.size(),
            self.key_at(self.at(i).child_for(character)->0 as int) == self.key_at(i).push(
                fold_char(character),
            ),
            self.at(self.at(i).child_for(character)->0 as int).parent == Some(i as usize),
            self.at(self.at(i).child_for(character)->0 as int).data.prefix.drop_last() == self.at(
                i,
            ).data.prefix,
    {
        let code = fold_char(character) as u32;
        let j = self.at(i).children[code] as int;
        assert(self.node_ok(i));
        assert(self.at(i).children.contains_key(code));
        assert(self.linked_down(i, code));
        assert(self.node_ok(j));
        assert(self.linked_up(j));
        let spelling = self.at(j).data.prefix;
        lemma_fold_drop_last(spelling);
        assert(fold_char(spelling.last()) == fold_char(character));
        assert(fold(spelling) =~= fold(spelling).drop_last().push(fold(spelling).last()));
    }

    /// Where a node files no child under a character, the tree has no node
    /// for the extended prefix.
    pub proof fn lemma_no_child(&self, i: int, character: char)
        requires
            self.wf(),
            0 <= i < self.size(),
            self.at(i).child_for(character) is None,
        ensures
            !self.holds(self.key_at(i).push(fold_char(character))),
    {
        let key = self.key_at(i).push(fold_char(character));
        if self.holds(key) {
            let j = self.index_of(key);
            assert(self.node_ok(j));
            assert(self.key_at(0).len() == 0);
            assert(key.len() > 0);
            assert(j != 0);
            assert(self.linked_up(j));
            let spelling = self.at(j).data.prefix;
            let p = self.at(j).parent->0 as int;
            lemma_fold_drop_last(spelling);
            assert(key.drop_last() =~= self.key_at(i));
            assert(self.key_at(p) == self.key_at(i));
            assert(p == i);
            assert(key.last() == fold_char(character));
        }
    }

    /// With a node for a key, the tree has a node for each of the key's prefixes.
    pub proof fn lemma_prefix_closed(&self, key: Seq<char>, n: int)
        requires
            self.wf(),
            self.holds(key),
            0 <= n <= key.len(),
        ensures
            self.holds(key.take(n)),
        decreases key.len() - n,
    {
        if n == key.len() {
            assert(key.take(n) =~= key);
        } else {
            self.lemma_prefix_closed(key, n + 1);
            let longer = key.take(n + 1);
            let j = self.index_of(longer);
            assert(self.node_ok(j));
            assert(self.key_at(0).len() == 0);
            assert(longer.len() > 0);
            assert(self.linked_up(j));
            let p = self.at(j).parent->0 as int;
            lemma_fold_drop_last(self.at(j).data.prefix);
            assert(longer.drop_last() =~= key.take(n));
            assert(self.key_at(p) == key.take(n));
        }
    }

    /// The view of a well-formed tree is a well-formed model.
    pub proof fn lemma_view_wf(&self)
        requires
            self.wf(),
        ensures
            model_wf(self@, self.suggestions()),
    {
        assert(self.node_ok(0));
        assert(self.key_at(0) =~= Seq::<char>::empty());
        assert forall|key: Seq<char>| #[trigger] self@.contains_key(key) implies {
            &&& self@[key].key() == key
            &&& top_wf(self@[key].top, self.suggestions())
            &&& (self@[key].times > 0 ==> self@[key].top.len() > 0)
            &&& (key.len() > 0 ==> self@.contains_key(key.drop_last()) && self@[key.drop_last()].prefix
                == self@[key].prefix.drop_last())
        } by {
            let j = self.index_of(key);
            assert(self.node_ok(j));
            if key.len() > 0 {
                assert(self.key_at(0).len() == 0);
                assert(self.linked_up(j));
                let p = self.at(j).parent->0 as int;
                lemma_fold_drop_last(self.at(j).data.prefix);
                self.lemma_filed(p);
            }
        }
    }

    /// Changing what one node stores, but neither its spelling nor its links,
    /// changes the view at that node's key only and keeps the tree well formed.
    pub proof fn lemma_restored(&self, after: &Tree, i: int)
        requires
            self.wf(),
            0 <= i < self.size(),
            after.size() == self.size(),
            forall|j: int| 0 <= j < self.size() && j != i ==> after.at(j) == self.at(j),
            after.at(i) == (NodeView { data: after.at(i).data, ..self.at(i) }),
            after.at(i).data.prefix == self.at(i).data.prefix,
            top_wf(after.at(i).data.top, self.suggestions()),
            after.at(i).data.times > 0 ==> after.at(i).data.top.len() > 0,
        ensures
            after.wf(),
            after.suggestions() == self.suggestions(),
            after@ == self@.insert(self.key_at(i), after.at(i).data),
            after.same_shape(self),
            after.keeps(self),
    {
        assert(forall|j: int| 0 <= j < self.size() ==> after.key_at(j) == self.key_at(j));
        assert forall|j: int| 0 <= j < after.size() implies #[trigger] after.node_ok(j) by {
            assert(self.node_ok(j));
            if j > 0 {
                assert(self.linked_up(j));
                assert(after.linked_up(j));
            }
            assert forall|code: u32| #[trigger]
                after.at(j).children.contains_key(code) implies after.linked_down(j, code) by {
                assert(self.linked_down(j, code));
            }
        }
        assert forall|key: Seq<char>| self.holds(key) == after.holds(key) by {
            if self.holds(key) {
                assert(after.key_at(self.index_of(key)) == key);
            }
            if after.holds(key) {
                assert(self.key_at(after.index_of(key)) == key);
            }
        }
        let want = self@.insert(self.key_at(i), after.at(i).data);
        assert forall|key: Seq<char>| #[trigger] after@.contains_key(key) implies after@[key]
            == want[key] by {
            let j = after.index_of(key);
            assert(self.key_at(j) == key);
            assert(self.index_of(key) == j);
        }
        assert(self.holds(self.key_at(i)));
        assert(after@ =~= want);
    }

    /// Appending a fresh child under a character that the parent did not file
    /// adds that child's key to the view and keeps the tree well formed.
    pub proof fn lemma_grown(&self, after: &Tree, p: int, character: char)
        requires
            self.wf(),
            0 <= p < self.size(),
            self.size() <= usize::MAX,
            self.at(p).child_for(character) is None,
            after.size() == self.size() + 1,
            forall|j: int| 0 <= j < self.size() && j != p ==> after.at(j) == self.at(j),
            after.at(p) == (NodeView {
                children: self.at(p).children.insert(
                    fold_char(character) as u32,
                    self.size() as usize,
                ),
                ..self.at(p)
            }),
            after.at(self.size() as int) == (NodeView {
                parent: Some(p as usize),
                id: self.size() as usize,
                data: NodeData {
                    prefix: self.at(p).data.prefix.push(character),
                    times: 0,
                    top: Seq::empty(),
                },
                children: Map::empty(),
                suggestions: self.at(p).suggestions,
            }),
        ensures
            after.wf(),
            after.suggestions() == self.suggestions(),
            after.key_at(self.size() as int) == self.key_at(p).push(fold_char(character)),
            !self@.contains_key(after.key_at(self.size() as int)),
            after@ == self@.insert(after.key_at(self.size() as int), after.at(self.size() as int).data),
    {
        let n = self.size() as int;
        let code = fold_char(character) as u32;
        let spelling = self.at(p).data.prefix.push(character);
        let key = self.key_at(p).push(fold_char(character));
        lemma_fold_push(self.at(p).data.prefix, character);
        self.lemma_no_child(p, character);
        assert(self.node_ok(p));
        assert(self.node_ok(0));
        assert(forall|j: int| 0 <= j < n ==> after.key_at(j) == self.key_at(j));
        assert(after.key_at(n) == key);
        assert(spelling.drop_last() =~= self.at(p).data.prefix);
        assert(spelling.last() == character);
        assert forall|j: int| 0 <= j < after.size() implies #[trigger] after.node_ok(j) by {
            if j < n {
                assert(self.node_ok(j));
                if j > 0 {
                    assert(self.linked_up(j));
                    let q = self.at(j).parent->0 as int;
                    if q == p {
                        assert(self.at(p).child_for(self.at(j).data.prefix.last()) == Some(j as usize));
                        assert(fold_char(self.at(j).data.prefix.last()) as u32 != code);
                    }
                    assert(after.linked_up(j));
                }
                assert forall|c: u32| #[trigger]
                    after.at(j).children.contains_key(c) implies after.linked_down(j, c) by {
                    if j == p && c == code {
                        assert(after.at(j).children[c] == n);
                    } else {
                        assert(self.at(j).children.contains_key(c));
                        assert(self.linked_down(j, c));
                    }
                }
            } else {
                assert(after.linked_up(j));
            }
        }
        assert forall|i: int, j: int|
            0 <= i < after.size() && 0 <= j < after.size() && i != j implies #[trigger] after.key_at(
            i,
        ) != #[trigger] after.key_at(j) by {
            if i == n {
                assert(self.key_at(j) == after.key_at(j));
            } else if j == n {
                assert(self.key_at(i) == after.key_at(i));
            }
        }
        let want = self@.insert(key, after.at(n).data);
        assert forall|q: Seq<char>| after.holds(q) <==> (self.holds(q) || q == key) by {
            if self.holds(q) {
                assert(after.key_at(self.index_of(q)) == q);
            }
            if after.holds(q) && q != key {
                assert(self.key_at(after.index_of(q)) == q);
            }
        }
        assert forall|q: Seq<char>| #[trigger] after@.contains_key(q) implies after@[q] == want[q] by {
            let j = after.index_of(q);
            if j < n {
                assert(self.key_at(j) == q);
                assert(self.index_of(q) == j);
            }
        }
        assert(after@ =~= want);
    }

    /// Creates a tree that holds the root only.
    pub fn new_empty(suggestions: usize) -> (tree: Tree)
        requires
            suggestions >= 1,
        ensures
            tree.wf(),
            tree.suggestions() == suggestions,
            tree@ == empty_view(),
            tree.size() == 1,
            tree.at(0) == (NodeView {
                parent: None,
                id: 0,
                data: NodeData { prefix: Seq::empty(), times: 0, top: Seq::empty() },
                children: Map::empty(),
                suggestions,
            }),
            exact(tree@, suggestions as nat),
    {
        let root = Node::new(None, 0, String::new(), 0, suggestions);
        let mut nodes: Vec<Node> = Vec::new();
        nodes.push(root);
        let tree = Tree { nodes };
        proof {
            assert(tree.node_ok(0));
            assert(tree.key_at(0) =~= Seq::<char>::empty());
            assert(tree.holds(Seq::<char>::empty()));
            assert forall|key: Seq<char>| tree.holds(key) implies key == Seq::<char>::empty() by {
                assert(tree.index_of(key) == 0);
            }
            assert(tree@ =~= Map::<Seq<char>, NodeData>::empty().insert(
                Seq::empty(),
                NodeData { prefix: Seq::empty(), times: 0, top: Seq::empty() },
            ));
            lemma_empty_exact(
                NodeData { prefix: Seq::empty(), times: 0, top: Seq::empty() },
                suggestions as nat,
            );
        }
        tree
    }

    /// The root: the node of the empty prefix.
    pub fn get_node(&self) -> (root: &Node)
        requires
            self.wf(),
        ensures
            root@ == self.at(0),
            root@.data == self@[Seq::<char>::empty()],
    {
        proof {
            self.lemma_filed(0);
            assert(self.key_at(0) =~= Seq::<char>::empty());
        }
        &self.nodes[0]
    }

    /// The position of the node of `prefix`, whatever the casing, if the tree
    /// has one.
    pub fn locate(&self, prefix: &str) -> (found: Option<usize>)
        requires
            self.wf(),
        ensures
            match found {
                Some(i) => i < self.size() && self.key_at(i as int) == fold(prefix@),
                None => !self@.contains_key(fold(prefix@)),
            },
    {
        let length = prefix.unicode_len();
        let mut counter: usize = 0;
        let mut traveller: usize = 0;
        let ghost key = fold(prefix@);
        assert(key.take(0) =~= self.key_at(0));
        while counter < length
            invariant
                self.wf(),
                key == fold(prefix@),
                length == prefix@.len(),
                counter <= length,
                traveller < self.size(),
                self.key_at(traveller as int) == key.take(counter as int),
            decreases length - counter,
        {
            let character = prefix.get_char(counter);
            proof {
                assert(self.node_ok(traveller as int));
                assert(key.take(counter + 1) =~= key.take(counter as int).push(key[counter as int]));
            }
            match self.nodes[traveller].next_child(character) {
                Some(child) => {
                    proof {
                        self.lemma_child(traveller as int, character);
                    }
                    traveller = child;
                },
                None => {
                    proof {
                        self.lemma_no_child(traveller as int, character);
                        if self.holds(key) {
                            self.lemma_prefix_closed(key, counter + 1);
                        }
                    }
                    return None;
                },
            }
            counter += 1;
        }
        assert(key.take(counter as int) =~= key);
        Some(traveller)
    }

    /// The node at position `i`.
    pub fn node(&self, i: usize) -> (node: &Node)
        requires
            i < self.size(),
        ensures
            node@ == self.at(i as int),
    {
        &self.nodes[i]
    }

    /// The child of the node at `at` for `character`; it is created, as a node
    /// that is no name yet, if the parent files none.
    pub fn next_child_create(&mut self, at: usize, character: char) -> (child: usize)
        requires
            old(self).wf(),
            at < old(self).size(),
        ensures
            final(self).wf(),
            final(self).suggestions() == old(self).suggestions(),
            child < final(self).size(),
            final(self).key_at(child as int) == old(self).key_at(at as int).push(fold_char(character)),
            final(self).at(child as int).data.prefix.drop_last() == old(self).at(at as int).data.prefix,
            final(self).at(at as int).data == old(self).at(at as int).data,
            final(self).keeps(old(self)),
            old(self).at(at as int).child_for(character) is Some ==> {
                &&& child == old(self).at(at as int).child_for(character)->0
                &&& final(self).size() == old(self).size()
                &&& forall|j: int|
                    0 <= j < old(self).size() ==> final(self).at(j) == old(self).at(j)
            },
            old(self).at(at as int).child_for(character) is None ==> {
                &&& child == old(self).size()
                &&& final(self).size() == old(self).size() + 1
                &&& final(self).at(at as int) == (NodeView {
                    children: old(self).at(at as int).children.insert(
                        fold_char(character) as u32,
                        child,
                    ),
                    ..old(self).at(at as int)
                })
                &&& final(self).at(child as int) == (NodeView {
                    parent: Some(at),
                    id: child,
                    data: NodeData {
                        prefix: old(self).at(at as int).data.prefix.push(character),
                        times: 0,
                        top: Seq::empty(),
                    },
                    children: Map::empty(),
                    suggestions: old(self).at(at as int).suggestions,
                })
                &&& forall|j: int|
                    0 <= j < old(self).size() && j != at ==> final(self).at(j) == old(self).at(j)
            },
            old(self)@.contains_key(final(self).key_at(child as int)) <==> old(self).at(
                at as int,
            ).child_for(character) is Some,
            old(self)@.contains_key(final(self).key_at(child as int)) ==> final(self)@ == old(self)@
                && child < old(self).size(),
            !old(self)@.contains_key(final(self).key_at(child as int)) ==> final(self)@ == old(
                self,
            )@.insert(
                final(self).key_at(child as int),
                NodeData {
                    prefix: old(self).at(at as int).data.prefix.push(character),
                    times: 0,
                    top: Seq::empty(),
                },
            ),
    {
        let found = self.nodes[at].next_child(character);
        proof {
            assert(self.node_ok(at as int));
            if found is Some {
                self.lemma_child(at as int, character);
                self.lemma_filed(found->0 as int);
            } else {
                self.lemma_no_child(at as int, character);
            }
        }
        match found {
            Some(child) => child,
            None => {
                let child = self.nodes.len();
                let suggestions = self.nodes[at].get_suggestions();
                let mut prefix = self.nodes[at].get_prefix().to_owned();
                push_char(&mut prefix, character);
                let node = Node::new(Some(at), child, prefix, 0, suggestions);
                self.nodes[at].add_child(character, child);
                self.nodes.push(node);
                proof {
                    old(self).lemma_grown(self, at as int, character);
                }
                child
            },
        }
    }

    /// Mutable access to the node at position `i`; no other node can change
    /// through it.
    pub(crate) fn node_mut(&mut self, i: usize) -> (node: &mut Node)
        requires
            i < old(self).size(),
        ensures
            node@ == old(self).at(i as int),
            final(self).size() == old(self).size(),
            final(self).at(i as int) == final(node)@,
            forall|j: int|
                0 <= j < old(self).size() && j != i ==> final(self).at(j) == old(self).at(j),
    {
        &mut self.nodes[i]
    }
}

} // verus!
