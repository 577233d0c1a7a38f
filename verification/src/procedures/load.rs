//! Loading entries: the walk that creates the nodes of a name, lets every node
//! on the way take the entry into its list, and sets the count of the name's node.

use vstd::prelude::*;
use vstd::string::StrSliceExecFns;
use crate::entry::{fold, fold_char, Entry, EntryView};
use crate::exact::{exact, lemma_empty_exact, lemma_loaded_exact};
use crate::model::{before_load, loaded, model_wf, spelled};
use crate::node::{Node, NodeData};
use crate::shape::{lemma_empty_view, lemma_loaded_wf};
use crate::top::{entry_views, included, lemma_included_wf};
use crate::tree::{empty_view, Tree, TreeView};

verus! {

/// Why an entry was not loaded.
#[derive(Debug)]
pub enum LoadError {
    /// The entry's name is empty. Holds the entry and the depth reached.
    EntryNameIsEmpty(Entry, usize),
    /// A link led to no node. A well-formed tree never reports it.
    ReferenceEmptyDuringLoad(Entry, usize),
}

/// The tree while `e` is being loaded and the walk stands at depth `depth`:
/// the nodes above that depth have included `e`, the node at that depth
/// exists, and nothing else has changed.
spec fn loading(m: TreeView, e: EntryView, k: nat, depth: nat) -> TreeView {
    Map::new(
        |key: Seq<char>|
            m.contains_key(key) || (key.is_prefix_of(fold(e.name)) && key.len() <= depth),
        |key: Seq<char>|
            if key.is_prefix_of(fold(e.name)) && key.len() < depth {
                loaded(m, e, k)[key]
            } else {
                before_load(m, e.name, key)
            },
    )
}

/// The tree after the entries `es` have been loaded, one after the other.
pub open spec fn loaded_all(m: TreeView, es: Seq<EntryView>, k: nat) -> TreeView
    decreases es.len(),
{
    if es.len() == 0 {
        m
    } else {
        loaded(loaded_all(m, es.drop_last(), k), es.last(), k)
    }
}

/// The number of entries at the head of `es` that have a name.
pub open spec fn named_run(es: Seq<EntryView>) -> nat
    decreases es.len(),
{
    if es.len() == 0 {
        0
    } else if named_run(es.drop_last()) == es.len() - 1 && es.last().name.len() > 0 {
        es.len()
    } else {
        named_run(es.drop_last())
    }
}

/// No entry of `es` lowers the count that its name has when its turn comes.
pub open spec fn never_lowers(m: TreeView, es: Seq<EntryView>, k: nat) -> bool {
    forall|i: int|
        0 <= i < es.len() ==> {
            let then = loaded_all(m, es.take(i), k);
            then.contains_key(fold(#[trigger] es[i].name)) ==> then[fold(es[i].name)].times
                <= es[i].times
        }
}

/// The entries before the first one without a name all have one.
pub proof fn lemma_named_run(es: Seq<EntryView>)
    ensures
        named_run(es) <= es.len(),
        forall|i: int| 0 <= i < named_run(es) ==> (#[trigger] es[i]).name.len() > 0,
        named_run(es) < es.len() ==> es[named_run(es) as int].name.len() == 0,
    decreases es.len(),
{
    if es.len() > 0 {
        lemma_named_run(es.drop_last());
        assert forall|i: int| 0 <= i < named_run(es) implies (#[trigger] es[i]).name.len() > 0 by {
            if i < es.len() - 1 {
                assert(es.drop_last()[i] == es[i]);
            }
        }
        if named_run(es) < es.len() - 1 {
            assert(es.drop_last()[named_run(es) as int] == es[named_run(es) as int]);
        }
    }
}

/// An index is the named run if all entries before it have a name and the entry at it has none.
proof fn lemma_named_run_is(es: Seq<EntryView>, n: int)
    requires
        0 <= n <= es.len(),
        forall|i: int| 0 <= i < n ==> (#[trigger] es[i]).name.len() > 0,
        n < es.len() ==> es[n].name.len() == 0,
    ensures
        named_run(es) == n,
{
    lemma_named_run(es);
}

/// No two entries of `es` have the same name, whatever the casing.
pub open spec fn distinct_entries(es: Seq<EntryView>) -> bool {
    forall|i: int, j: int|
        0 <= i < j < es.len() ==> fold(#[trigger] es[i].name) != fold(#[trigger] es[j].name)
}

/// Loads that never lower a count keep a well-formed view well formed and
/// every list exact.
pub proof fn lemma_loaded_all_exact(m: TreeView, es: Seq<EntryView>, k: nat)
    requires
        model_wf(m, k),
        exact(m, k),
        never_lowers(m, es, k),
    ensures
        model_wf(loaded_all(m, es, k), k),
        exact(loaded_all(m, es, k), k),
    decreases es.len(),
{
    if es.len() > 0 {
        let head = es.drop_last();
        assert forall|i: int| 0 <= i < head.len() implies {
            let then = loaded_all(m, head.take(i), k);
            then.contains_key(fold(#[trigger] head[i].name)) ==> then[fold(head[i].name)].times
                <= head[i].times
        } by {
            assert(head.take(i) =~= es.take(i));
            assert(head[i] == es[i]);
        }
        lemma_loaded_all_exact(m, head, k);
        assert(es.take(es.len() - 1) =~= head);
        assert(es[es.len() - 1] == es.last());
        lemma_loaded_wf(loaded_all(m, head, k), es.last(), k);
        lemma_loaded_exact(loaded_all(m, head, k), es.last(), k);
    }
}

/// After loads into a tree that held the root only, every node with a
/// positive count is the node of a loaded name.
pub proof fn lemma_loaded_all_names(es: Seq<EntryView>, k: nat, q: Seq<char>)
    requires
        loaded_all(empty_view(), es, k).contains_key(q),
        loaded_all(empty_view(), es, k)[q].times > 0,
    ensures
        exists|i: int| 0 <= i < es.len() && fold(#[trigger] es[i].name) == q,
    decreases es.len(),
{
    if es.len() > 0 {
        let head = es.drop_last();
        let before = loaded_all(empty_view(), head, k);
        let e = es.last();
        if q.is_prefix_of(fold(e.name)) && q.len() == e.name.len() {
            assert(q =~= fold(e.name));
            assert(fold(es[es.len() - 1].name) == q);
        } else {
            assert(before.contains_key(q) && before[q].times > 0);
            lemma_loaded_all_names(head, k, q);
            let i = choose|i: int| 0 <= i < head.len() && fold(#[trigger] head[i].name) == q;
            assert(es[i] == head[i]);
        }
    }
}

/// Entries with distinct names, loaded into a tree that held the root only,
/// never lower a count: all lists are exact afterwards.
pub proof fn lemma_distinct_loads_exact(es: Seq<EntryView>, k: nat)
    requires
        k >= 1,
        distinct_entries(es),
    ensures
        never_lowers(empty_view(), es, k),
        model_wf(loaded_all(empty_view(), es, k), k),
        exact(loaded_all(empty_view(), es, k), k),
{
    assert forall|i: int| 0 <= i < es.len() implies {
        let then = loaded_all(empty_view(), es.take(i), k);
        then.contains_key(fold(#[trigger] es[i].name)) ==> then[fold(es[i].name)].times
            <= es[i].times
    } by {
        let then = loaded_all(empty_view(), es.take(i), k);
        let d = fold(es[i].name);
        if then.contains_key(d) && then[d].times > 0 {
            lemma_loaded_all_names(es.take(i), k, d);
            let j = choose|j: int| 0 <= j < i && fold(#[trigger] es.take(i)[j].name) == d;
            assert(es.take(i)[j] == es[j]);
        }
    }
    lemma_empty_view(k);
    lemma_empty_exact(NodeData { prefix: Seq::empty(), times: 0, top: Seq::empty() }, k);
    lemma_loaded_all_exact(empty_view(), es, k);
}

impl Node {
    /// One step of a load: the node includes `entry` in its list; at the
    /// depth of the whole name it takes the entry's count, before that it
    /// names the character that leads on.
    pub fn load(&mut self, entry: &Entry, counter: &mut usize) -> (result: Result<
        Option<char>,
        LoadError,
    >)
        requires
            old(self).wf(),
            *old(counter) <= entry@.name.len(),
        ensures
            final(self).wf(),
            match result {
                Err(LoadError::EntryNameIsEmpty(refused, depth)) => {
                    &&& entry@.name.len() == 0
                    &&& refused@ == entry@
                    &&& depth == *old(counter)
                    &&& *final(counter) == *old(counter)
                    &&& final(self)@ == old(self)@
                },
                Err(LoadError::ReferenceEmptyDuringLoad(_, _)) => false,
                Ok(None) => {
                    &&& entry@.name.len() > 0
                    &&& *old(counter) == entry@.name.len()
                    &&& *final(counter) == *old(counter)
                    &&& final(self)@ == old(self)@.with_top(
                        included(old(self)@.data.top, entry@, old(self)@.suggestions as nat),
                    ).with_times(entry@.times)
                },
                Ok(Some(character)) => {
                    &&& *old(counter) < entry@.name.len()
                    &&& *final(counter) == *old(counter) + 1
                    &&& character == entry@.name[*old(counter) as int]
                    &&& final(self)@ == old(self)@.with_top(
                        included(old(self)@.data.top, entry@, old(self)@.suggestions as nat),
                    )
                },
            },
    {
        let name = entry.get_name();
        let length = name.unicode_len();
        if length == 0 {
            return Err(LoadError::EntryNameIsEmpty(entry.clone(), *counter));
        }
        self.include_top(entry);
        if *counter == length {
            *self.get_times_mut() = *entry.get_times();
            Ok(None)
        } else {
            let character = name.get_char(*counter);
            *counter += 1;
            Ok(Some(character))
        }
    }
}

/// The walk has reached the depth of the whole name: the load is complete.
proof fn lemma_loading_done(m: TreeView, e: EntryView, k: nat)
    requires
        m.contains_key(Seq::<char>::empty()),
    ensures
        loading(m, e, k, e.name.len()).insert(fold(e.name), loaded(m, e, k)[fold(e.name)]) == loaded(
            m,
            e,
            k,
        ),
{
    let key = fold(e.name);
    let a = loading(m, e, k, e.name.len()).insert(key, loaded(m, e, k)[key]);
    let b = loaded(m, e, k);
    assert(key.is_prefix_of(key));
    assert forall|q: Seq<char>| a.contains_key(q) implies #[trigger] a[q] == b[q] by {
        if q.is_prefix_of(key) && q.len() == key.len() {
            assert(q =~= key);
        }
    }
    assert(a =~= b);
}

impl Tree {
    /// Loads one entry.
    ///
    /// An entry with an empty name is refused and the tree stays as it is.
    /// Otherwise every folded prefix of the name has a node afterwards, each of
    /// them has included the entry in its list, and the node of the whole name
    /// has the entry's count.
    pub fn include_entry(&mut self, entry: Entry) -> (result: Result<(), LoadError>)
        requires
            old(self).wf(),
        ensures
            final(self).wf(),
            final(self).suggestions() == old(self).suggestions(),
            final(self).keeps(old(self)),
            exact(old(self)@, old(self).suggestions()) && (old(self)@.contains_key(fold(entry@.name))
                ==> old(self)@[fold(entry@.name)].times <= entry@.times) ==> exact(
                final(self)@,
                final(self).suggestions(),
            ),
            match result {
                Ok(()) => {
                    &&& entry@.name.len() > 0
                    &&& final(self)@ == loaded(old(self)@, entry@, old(self).suggestions())
                },
                Err(LoadError::EntryNameIsEmpty(refused, depth)) => {
                    &&& entry@.name.len() == 0
                    &&& refused@ == entry@
                    &&& depth == 0
                    &&& final(self)@ == old(self)@
                },
                Err(LoadError::ReferenceEmptyDuringLoad(_, _)) => false,
            },
    {
        let mut counter: usize = 0;
        let mut traveller: usize = 0;
        let ghost m = self@;
        let ghost e = entry@;
        let ghost k = self.suggestions();
        let ghost key = fold(e.name);
        let ghost start = *self;
        proof {
            self.lemma_filed(0);
            self.lemma_view_wf();
            if exact(m, k) && (m.contains_key(key) ==> m[key].times <= e.times) {
                lemma_loaded_exact(m, e, k);
            }
            assert(self.key_at(0) =~= key.take(0));
            assert(self@ =~= loading(m, e, k, 0)) by {
                assert forall|q: Seq<char>| q.is_prefix_of(key) && q.len() <= 0 implies m.contains_key(
                    q,
                ) by {
                    assert(q =~= Seq::<char>::empty());
                }
            }
        }
        loop
            invariant
                self.wf(),
                self.suggestions() == k,
                k == old(self).suggestions(),
                m == old(self)@,
                e == entry@,
                key == fold(e.name),
                m.contains_key(Seq::<char>::empty()),
                counter <= e.name.len(),
                traveller < self.size(),
                self.key_at(traveller as int) == key.take(counter as int),
                self@ == loading(m, e, k, counter as nat),
                start == *old(self),
                self.keeps(&start),
                exact(m, k) && (m.contains_key(key) ==> m[key].times <= e.times) ==> exact(
                    loaded(m, e, k),
                    k,
                ),
            decreases e.name.len() - counter,
        {
            let ghost depth = counter as int;
            let ghost here = key.take(depth);
            let ghost before = *self;
            proof {
                assert(self.node_ok(traveller as int));
                self.lemma_filed(traveller as int);
                assert(here.is_prefix_of(key));
                lemma_included_wf(self.at(traveller as int).data.top, e, k);
            }
            let step = self.node_mut(traveller).load(&entry, &mut counter);
            proof {
                before.lemma_restored(self, traveller as int);
                self.lemma_keeps_chain(&before, &start);
            }
            match step {
                Err(err) => {
                    proof {
                        assert(forall|j: int| 0 <= j < self.size() ==> self.at(j) == before.at(j));
                        assert(self@ =~= before@);
                        assert(here =~= Seq::<char>::empty());
                        assert(loading(m, e, k, 0) =~= m);
                    }
                    return Err(err);
                },
                Ok(None) => {
                    proof {
                        assert(here =~= key);
                        lemma_loading_done(m, e, k);
                    }
                    return Ok(());
                },
                Ok(Some(character)) => {
                    let ghost grown = *self;
                    let child = self.next_child_create(traveller, character);
                    proof {
                        self.lemma_keeps_chain(&grown, &start);
                        let there = key.take(depth + 1);
                        assert(there =~= here.push(fold_char(character)));
                        assert(there.is_prefix_of(key));
                        assert(self.key_at(child as int) == there);
                        assert(before_load(m, e.name, here).prefix == spelled(m, e.name, depth as nat));
                        assert(self@ =~= loading(m, e, k, (depth + 1) as nat)) by {
                            let want = loading(m, e, k, (depth + 1) as nat);
                            assert forall|q: Seq<char>| self@.contains_key(q) == want.contains_key(
                                q,
                            ) by {
                                if q.is_prefix_of(key) && q.len() == depth + 1 {
                                    assert(q =~= there);
                                }
                                if q.is_prefix_of(key) && q.len() == depth {
                                    assert(q =~= here);
                                }
                            }
                            assert forall|q: Seq<char>| self@.contains_key(q) implies #[trigger] self@[q]
                                == want[q] by {
                                if q.is_prefix_of(key) && q.len() == depth + 1 {
                                    assert(q =~= there);
                                }
                                if q.is_prefix_of(key) && q.len() == depth {
                                    assert(q =~= here);
                                }
                            }
                        }
                    }
                    traveller = child;
                },
            }
        }
    }

    /// Loads entries one after the other and stops at the first that has no
    /// name: the entries before it stay loaded, and the error holds the one
    /// that was refused.
    pub fn load(&mut self, entries: Vec<Entry>) -> (result: Result<(), LoadError>)
        requires
            old(self).wf(),
        ensures
            final(self).wf(),
            final(self).suggestions() == old(self).suggestions(),
            final(self).keeps(old(self)),
            final(self)@ == loaded_all(
                old(self)@,
                entry_views(entries@).take(named_run(entry_views(entries@)) as int),
                old(self).suggestions(),
            ),
            exact(old(self)@, old(self).suggestions()) && never_lowers(
                old(self)@,
                entry_views(entries@),
                old(self).suggestions(),
            ) ==> exact(final(self)@, final(self).suggestions()),
            match result {
                Ok(()) => named_run(entry_views(entries@)) == entries@.len(),
                Err(LoadError::EntryNameIsEmpty(refused, depth)) => {
                    &&& named_run(entry_views(entries@)) < entries@.len()
                    &&& refused@ == entries@[named_run(entry_views(entries@)) as int]@
                    &&& depth == 0
                },
                Err(LoadError::ReferenceEmptyDuringLoad(_, _)) => false,
            },
    {
        let ghost m = self@;
        let ghost k = self.suggestions();
        let ghost es = entry_views(entries@);
        let ghost start = *self;
        let mut i: usize = 0;
        assert(es.take(0) =~= Seq::<EntryView>::empty());
        while i < entries.len()
            invariant
                self.wf(),
                self.suggestions() == k,
                k == old(self).suggestions(),
                m == old(self)@,
                es == entry_views(entries@),
                i <= entries.len(),
                forall|j: int| 0 <= j < i ==> (#[trigger] es[j]).name.len() > 0,
                self@ == loaded_all(m, es.take(i as int), k),
                start == *old(self),
                self.keeps(&start),
                exact(m, k) && never_lowers(m, es, k) ==> exact(self@, k),
            decreases entries.len() - i,
        {
            let ghost before = *self;
            assert(es.take(i + 1).drop_last() =~= es.take(i as int));
            assert(es[i as int] == entries@[i as int]@);
            let step = self.include_entry(entries[i].clone());
            proof {
                self.lemma_keeps_chain(&before, &start);
            }
            match step {
                Ok(()) => {},
                Err(err) => {
                    proof {
                        lemma_named_run_is(es, i as int);
                    }
                    return Err(err);
                },
            }
            i += 1;
        }
        proof {
            lemma_named_run_is(es, i as int);
        }
        Ok(())
    }

    /// Creates a tree and loads `entries` into it.
    pub fn new(suggestions: usize, entries: Vec<Entry>) -> (result: Result<Tree, LoadError>)
        requires
            suggestions >= 1,
        ensures
            match result {
                Ok(tree) => {
                    &&& tree.wf()
                    &&& tree.suggestions() == suggestions
                    &&& named_run(entry_views(entries@)) == entries@.len()
                    &&& tree@ == loaded_all(empty_view(), entry_views(entries@), suggestions as nat)
                    &&& never_lowers(empty_view(), entry_views(entries@), suggestions as nat)
                        ==> exact(tree@, suggestions as nat)
                    &&& distinct_entries(entry_views(entries@)) ==> exact(tree@, suggestions as nat)
                },
                Err(LoadError::EntryNameIsEmpty(refused, depth)) => {
                    &&& named_run(entry_views(entries@)) < entries@.len()
                    &&& refused@ == entries@[named_run(entry_views(entries@)) as int]@
                    &&& depth == 0
                },
                Err(LoadError::ReferenceEmptyDuringLoad(_, _)) => false,
            },
    {
        let mut tree = Tree::new_empty(suggestions);
        proof {
            assert(entry_views(entries@).take(entries@.len() as int) =~= entry_views(entries@));
            if distinct_entries(entry_views(entries@)) {
                lemma_distinct_loads_exact(entry_views(entries@), suggestions as nat);
            }
        }
        match tree.load(entries) {
            Ok(()) => Ok(tree),
            Err(err) => Err(err),
        }
    }
}

} // verus!
