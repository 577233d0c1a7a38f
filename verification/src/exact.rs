//! When cached lists are exact: every list holds precisely the best entries
//! of the nodes at or below its node. Loading and voting keep them so.

use vstd::prelude::*;
use crate::entry::{
    fold, lemma_fold_push, lemma_rank_total, lemma_rank_transitive, outranks, EntryView,
};
use crate::model::{
    before_load, blocks, can_vote, halt_depth, loaded, model_wf, spelled, vote_entry, voted,
};
use crate::node::NodeData;
use crate::tree::TreeView;
use crate::top::{
    bumped, can_bump, distinct_names, holds_name, included, lemma_placed_wf, lemma_position_from,
    lemma_removed_wf, lemma_slot_from, placed, position_of, ranked, recounted, shuts_out, slot_of,
    top_wf,
};

verus! {

/// The entries that a list draws from: for each folded name, that name's
/// entry as it stands.
pub type Population = Map<Seq<char>, EntryView>;

/// Every member is filed under the folded form of its name.
pub open spec fn population_wf(p: Population) -> bool {
    forall|q: Seq<char>| #[trigger] p.contains_key(q) ==> fold(p[q].name) == q
}

/// Whether the list holds an entry for the folded name `key`.
pub open spec fn caches(top: Seq<EntryView>, key: Seq<char>) -> bool {
    exists|i: int| 0 <= i < top.len() && fold(#[trigger] top[i].name) == key
}

/// Every cached entry is a member's entry, with the member's count.
pub open spec fn sound(top: Seq<EntryView>, p: Population) -> bool {
    forall|i: int|
        0 <= i < top.len() ==> p.contains_key(fold(#[trigger] top[i].name)) && p[fold(
            top[i].name,
        )].times == top[i].times
}

/// Every member with a positive count is cached, unless the list is full and
/// the member does not outrank its last entry.
pub open spec fn complete(top: Seq<EntryView>, p: Population, k: nat) -> bool {
    forall|q: Seq<char>|
        #[trigger] p.contains_key(q) && p[q].times > 0 ==> caches(top, q) || (top.len() == k
            && !outranks(p[q], top.last()))
}

/// `after` is `before` once the entry `e` has been recorded: `e`'s name is a
/// member with `e`'s count, which is no lower than it was; the other members
/// are as they were, but for new members without votes.
pub open spec fn records(before: Population, after: Population, e: EntryView) -> bool {
    let d = fold(e.name);
    &&& population_wf(before)
    &&& population_wf(after)
    &&& after.contains_key(d)
    &&& after[d].times == e.times
    &&& before.contains_key(d) ==> before[d].times <= e.times
    &&& forall|q: Seq<char>| #[trigger]
        before.contains_key(q) ==> after.contains_key(q) && (q != d ==> after[q] == before[q])
    &&& forall|q: Seq<char>| #[trigger]
        after.contains_key(q) && !before.contains_key(q) && q != d ==> after[q].times == 0
}

/// In a ranked list no entry is outranked by the last one.
proof fn lemma_last_is_least(s: Seq<EntryView>, i: int)
    requires
        ranked(s),
        0 <= i < s.len(),
    ensures
        !outranks(s.last(), s[i]),
{
    if i < s.len() - 1 {
        lemma_rank_total(s[i], s.last());
    } else {
        lemma_rank_total(s[i], s[i]);
    }
}

/// What outranks an entry outranks all that the entry does not fall behind.
proof fn lemma_rank_chain(a: EntryView, b: EntryView, c: EntryView)
    requires
        outranks(a, b),
        !outranks(c, b),
    ensures
        outranks(a, c),
{
    lemma_rank_total(b, c);
    if outranks(b, c) {
        lemma_rank_transitive(a, b, c);
    }
}

/// A list that holds a name with the previous count is not shut to the
/// raised entry: raising the cached entry is including the entry.
pub proof fn lemma_repaired_is_included(top: Seq<EntryView>, e: EntryView, k: nat)
    requires
        top_wf(top, k),
    ensures
        can_bump(top, e) ==> bumped(top, e) == included(top, e, k),
{
    if can_bump(top, e) {
        lemma_position_from(top, e.name, 0);
        let p = position_of(top, e.name);
        lemma_last_is_least(top, p);
        assert(outranks(e, top[p]));
        lemma_rank_chain(e, top[p], top.last());
    }
}

/// The entries of a list with one more entry at its rank.
proof fn lemma_placed_parts(s: Seq<EntryView>, e: EntryView)
    ensures
        0 <= slot_of(s, e) <= s.len(),
        placed(s, e).len() == s.len() + 1,
        placed(s, e)[slot_of(s, e)] == e,
        forall|i: int| 0 <= i < slot_of(s, e) ==> #[trigger] placed(s, e)[i] == s[i],
        forall|i: int| slot_of(s, e) <= i < s.len() ==> #[trigger] placed(s, e)[i + 1] == s[i],
        forall|i: int| 0 <= i < slot_of(s, e) ==> outranks(#[trigger] s[i], e),
        slot_of(s, e) < s.len() ==> !outranks(s[slot_of(s, e)], e),
{
    lemma_slot_from(s, e, 0);
}

/// The case of a list that is shut to the entry.
proof fn lemma_included_exact_shut(
    top: Seq<EntryView>,
    before: Population,
    after: Population,
    e: EntryView,
    k: nat,
)
    requires
        k >= 1,
        top_wf(top, k),
        sound(top, before),
        complete(top, before, k),
        records(before, after, e),
        shuts_out(top, e, k),
    ensures
        sound(included(top, e, k), after),
        complete(included(top, e, k), after, k),
{
    let d = fold(e.name);
    let t = included(top, e, k);
    lemma_position_from(top, e.name, 0);
    assert forall|i: int| 0 <= i < t.len() implies after.contains_key(
        fold(#[trigger] t[i].name),
    ) && after[fold(t[i].name)].times == t[i].times by {
        let q = fold(top[i].name);
        assert(before.contains_key(q));
        if q == d && before[d].times < e.times {
            lemma_last_is_least(top, i);
            lemma_rank_chain(e, top[i], top.last());
        }
    }
    assert forall|q: Seq<char>| #[trigger] after.contains_key(q) && after[q].times > 0 implies caches(
        t,
        q,
    ) || (t.len() == k && !outranks(after[q], t.last())) by {
        if q != d {
            assert(before.contains_key(q));
        }
    }
}

/// Whether `x` stands in `s` at an index other than `p`.
spec fn stands_beside(s: Seq<EntryView>, p: int, x: EntryView) -> bool {
    exists|j: int| 0 <= j < s.len() && j != p && #[trigger] s[j] == x
}

/// What a list holds once the entry at `p` has a new count: that entry with
/// the new count, and the other entries of the list.
proof fn lemma_recounted_parts(top: Seq<EntryView>, p: int, times: u64)
    requires
        ranked(top),
        distinct_names(top),
        0 <= p < top.len(),
    ensures
        recounted(top, p, times).len() == top.len(),
        recounted(top, p, times).contains(EntryView { name: top[p].name, times }),
        forall|i: int|
            0 <= i < top.len() ==> (#[trigger] recounted(top, p, times)[i] == (EntryView {
                name: top[p].name,
                times,
            }) || stands_beside(top, p, recounted(top, p, times)[i])),
        forall|j: int|
            0 <= j < top.len() && j != p ==> recounted(top, p, times).contains(#[trigger] top[j]),
{
    let r = top.remove(p);
    let x = EntryView { name: top[p].name, times };
    let t = recounted(top, p, times);
    lemma_removed_wf(top, p);
    lemma_position_from(r, x.name, 0);
    lemma_placed_wf(r, x);
    lemma_placed_parts(r, x);
    let slot = slot_of(r, x);
    assert(t[slot] == x);
    assert forall|i: int| 0 <= i < top.len() implies (#[trigger] t[i] == x || stands_beside(
        top,
        p,
        t[i],
    )) by {
        if i < slot {
            assert(t[i] == r[i]);
            let j = if i < p { i } else { i + 1 };
            assert(top[j] == t[i]);
        } else if i > slot {
            assert(t[(i - 1) + 1] == r[i - 1]);
            let j = if i - 1 < p { i - 1 } else { i };
            assert(top[j] == t[i]);
        }
    }
    assert forall|j: int| 0 <= j < top.len() && j != p implies t.contains(#[trigger] top[j]) by {
        let jr = if j < p { j } else { j - 1 };
        assert(r[jr] == top[j]);
        if jr < slot {
            assert(t[jr] == r[jr]);
        } else {
            assert(t[jr + 1] == r[jr]);
        }
    }
}

/// Raising a cached entry's count leaves a last entry that the old last
/// entry does not outrank.
proof fn lemma_recounted_last(top: Seq<EntryView>, p: int, times: u64)
    requires
        ranked(top),
        distinct_names(top),
        0 <= p < top.len(),
        top[p].times <= times,
    ensures
        !outranks(top.last(), recounted(top, p, times).last()),
{
    let x = EntryView { name: top[p].name, times };
    let t = recounted(top, p, times);
    lemma_recounted_parts(top, p, times);
    let last = t[top.len() - 1];
    assert(last == t.last());
    if last == x {
        lemma_last_is_least(top, p);
        lemma_rank_total(x, top[p]);
        if outranks(x, top[p]) {
            if outranks(top.last(), x) {
                lemma_rank_transitive(top.last(), x, top[p]);
            }
        }
    } else {
        assert(stands_beside(top, p, last));
        let j = choose|j: int| 0 <= j < top.len() && j != p && #[trigger] top[j] == last;
        lemma_last_is_least(top, j);
    }
}

/// The case of a list that holds the name already.
proof fn lemma_included_exact_held(
    top: Seq<EntryView>,
    before: Population,
    after: Population,
    e: EntryView,
    k: nat,
)
    requires
        k >= 1,
        top_wf(top, k),
        sound(top, before),
        complete(top, before, k),
        records(before, after, e),
        !shuts_out(top, e, k),
        holds_name(top, e.name),
    ensures
        sound(included(top, e, k), after),
        complete(included(top, e, k), after, k),
{
    let d = fold(e.name);
    let t = included(top, e, k);
    lemma_position_from(top, e.name, 0);
    let p = position_of(top, e.name);
    let x = EntryView { name: top[p].name, times: e.times };
    assert(t == recounted(top, p, e.times));
    assert(before.contains_key(d));
    lemma_recounted_parts(top, p, e.times);
    lemma_recounted_last(top, p, e.times);
    assert forall|i: int| 0 <= i < t.len() implies after.contains_key(fold(#[trigger] t[i].name))
        && after[fold(t[i].name)].times == t[i].times by {
        if t[i] != x {
            assert(stands_beside(top, p, t[i]));
            let j = choose|j: int| 0 <= j < top.len() && j != p && #[trigger] top[j] == t[i];
            assert(fold(top[j].name) != fold(top[p].name));
            assert(before.contains_key(fold(top[j].name)));
        }
    }
    assert forall|q: Seq<char>| #[trigger] after.contains_key(q) && after[q].times > 0 implies caches(
        t,
        q,
    ) || (t.len() == k && !outranks(after[q], t.last())) by {
        if q == d {
            let i = choose|i: int| 0 <= i < t.len() && t[i] == x;
            assert(fold(t[i].name) == d);
        } else {
            assert(before.contains_key(q));
            if caches(top, q) {
                let j = choose|j: int| 0 <= j < top.len() && fold(#[trigger] top[j].name) == q;
                assert(t.contains(top[j]));
                let i = choose|i: int| 0 <= i < t.len() && t[i] == top[j];
                assert(fold(t[i].name) == q);
            } else {
                if outranks(after[q], t.last()) {
                    lemma_rank_chain(after[q], t.last(), top.last());
                }
            }
        }
    }
}

/// What a list holds once a new name has been put at its rank and the list
/// has been cut to the bound: the new entry and the old entries; only the
/// old last entry can have left, and then the new last entry outranks it.
proof fn lemma_fresh_parts(top: Seq<EntryView>, e: EntryView, k: nat)
    requires
        k >= 1,
        top_wf(top, k),
        !shuts_out(top, e, k),
        !holds_name(top, e.name),
    ensures
        included(top, e, k).len() == if top.len() == k { k } else { top.len() + 1 },
        included(top, e, k).contains(e),
        forall|i: int|
            0 <= i < included(top, e, k).len() ==> (#[trigger] included(top, e, k)[i] == e
                || top.contains(included(top, e, k)[i])),
        forall|j: int|
            0 <= j < top.len() && (top.len() < k || j < k - 1) ==> included(top, e, k).contains(
                #[trigger] top[j],
            ),
        top.len() == k ==> outranks(included(top, e, k).last(), top.last()),
{
    let t = included(top, e, k);
    let u = placed(top, e);
    lemma_position_from(top, e.name, 0);
    lemma_placed_wf(top, e);
    lemma_placed_parts(top, e);
    let slot = slot_of(top, e);
    if top.len() == k {
        lemma_rank_total(e, top.last());
        assert(slot <= k - 1);
        assert(t == u.take(k as int));
        if slot == k - 1 {
            assert(t.last() == e);
        } else {
            assert(u[(k - 2) + 1] == top[k - 2]);
            assert(t.last() == top[k - 2]);
        }
    } else {
        assert(t == u);
    }
    assert(forall|i: int| 0 <= i < t.len() ==> t[i] == u[i]);
    assert(t[slot] == e);
    assert forall|i: int| 0 <= i < t.len() implies (#[trigger] t[i] == e || top.contains(t[i])) by {
        if i < slot {
            assert(u[i] == top[i]);
        } else if i > slot {
            assert(u[(i - 1) + 1] == top[i - 1]);
        }
    }
    assert forall|j: int| 0 <= j < top.len() && (top.len() < k || j < k - 1) implies t.contains(
        #[trigger] top[j],
    ) by {
        if j < slot {
            assert(u[j] == top[j]);
            assert(t[j] == top[j]);
        } else {
            assert(u[j + 1] == top[j]);
            assert(t[j + 1] == top[j]);
        }
    }
}

/// The case of a name that is new to the list.
proof fn lemma_included_exact_fresh(
    top: Seq<EntryView>,
    before: Population,
    after: Population,
    e: EntryView,
    k: nat,
)
    requires
        k >= 1,
        top_wf(top, k),
        sound(top, before),
        complete(top, before, k),
        records(before, after, e),
        !shuts_out(top, e, k),
        !holds_name(top, e.name),
    ensures
        sound(included(top, e, k), after),
        complete(included(top, e, k), after, k),
{
    let d = fold(e.name);
    let t = included(top, e, k);
    lemma_position_from(top, e.name, 0);
    lemma_fresh_parts(top, e, k);
    assert(forall|j: int| 0 <= j < top.len() ==> fold(#[trigger] top[j].name) != d);
    assert forall|i: int| 0 <= i < t.len() implies after.contains_key(fold(#[trigger] t[i].name))
        && after[fold(t[i].name)].times == t[i].times by {
        if t[i] != e {
            assert(top.contains(t[i]));
            let j = choose|j: int| 0 <= j < top.len() && top[j] == t[i];
            assert(before.contains_key(fold(top[j].name)));
        }
    }
    assert forall|q: Seq<char>| #[trigger] after.contains_key(q) && after[q].times > 0 implies caches(
        t,
        q,
    ) || (t.len() == k && !outranks(after[q], t.last())) by {
        if q == d {
            let i = choose|i: int| 0 <= i < t.len() && t[i] == e;
            assert(fold(t[i].name) == d);
        } else {
            assert(before.contains_key(q));
            if caches(top, q) {
                let j = choose|j: int| 0 <= j < top.len() && fold(#[trigger] top[j].name) == q;
                if top.len() < k || j < k - 1 {
                    assert(t.contains(top[j]));
                    let i = choose|i: int| 0 <= i < t.len() && t[i] == top[j];
                    assert(fold(t[i].name) == q);
                } else {
                    assert(before[q].times == top[j].times);
                    lemma_rank_total(t.last(), top.last());
                }
            } else {
                if outranks(after[q], t.last()) {
                    lemma_rank_transitive(after[q], t.last(), top.last());
                }
            }
        }
    }
}

/// Including an entry that the population has just recorded keeps a sound
/// and complete list sound and complete.
pub proof fn lemma_included_exact(
    top: Seq<EntryView>,
    before: Population,
    after: Population,
    e: EntryView,
    k: nat,
)
    requires
        k >= 1,
        top_wf(top, k),
        sound(top, before),
        complete(top, before, k),
        records(before, after, e),
    ensures
        sound(included(top, e, k), after),
        complete(included(top, e, k), after, k),
{
    if shuts_out(top, e, k) {
        lemma_included_exact_shut(top, before, after, e, k);
    } else if holds_name(top, e.name) {
        lemma_included_exact_held(top, before, after, e, k);
    } else {
        lemma_included_exact_fresh(top, before, after, e, k);
    }
}

/// The own entries of the nodes at or below the node of `key`.
pub open spec fn population(m: TreeView, key: Seq<char>) -> Population {
    Map::new(|q: Seq<char>| m.contains_key(q) && key.is_prefix_of(q), |q: Seq<char>| m[q].own())
}

/// The list of the node of `key` is exact: it caches only entries of nodes at
/// or below that node, each with its present count, and it misses a name
/// there only when it is full and the name does not outrank its last entry.
pub open spec fn exact_at(m: TreeView, key: Seq<char>, k: nat) -> bool {
    &&& sound(m[key].top, population(m, key))
    &&& complete(m[key].top, population(m, key), k)
}

/// Every list of the tree is exact.
pub open spec fn exact(m: TreeView, k: nat) -> bool {
    forall|key: Seq<char>| #[trigger] m.contains_key(key) ==> exact_at(m, key, k)
}

/// With a key, a well-formed view holds each of the key's prefixes.
pub proof fn lemma_model_prefix(m: TreeView, k: nat, q: Seq<char>, n: int)
    requires
        model_wf(m, k),
        m.contains_key(q),
        0 <= n <= q.len(),
    ensures
        m.contains_key(q.take(n)),
    decreases q.len() - n,
{
    if n == q.len() {
        assert(q.take(n) =~= q);
    } else {
        lemma_model_prefix(m, k, q, n + 1);
        assert(q.take(n + 1).drop_last() =~= q.take(n));
    }
}

/// A node that the view lacks has no node below it.
proof fn lemma_nothing_below(m: TreeView, k: nat, key: Seq<char>)
    requires
        model_wf(m, k),
        !m.contains_key(key),
    ensures
        population(m, key) =~= Map::<Seq<char>, EntryView>::empty(),
{
    assert forall|q: Seq<char>| !(m.contains_key(q) && key.is_prefix_of(q)) by {
        if m.contains_key(q) && key.is_prefix_of(q) {
            lemma_model_prefix(m, k, q, key.len() as int);
            assert(q.take(key.len() as int) =~= key);
        }
    }
}

/// The members of a population are filed under their folded names.
proof fn lemma_population_wf(m: TreeView, k: nat, key: Seq<char>)
    requires
        model_wf(m, k),
    ensures
        population_wf(population(m, key)),
{
}

/// The spelling that a load gives to a node on its way folds to that node's key.
pub proof fn lemma_spelled_key(m: TreeView, k: nat, name: Seq<char>, depth: nat)
    requires
        model_wf(m, k),
        depth <= name.len(),
    ensures
        fold(spelled(m, name, depth)) == fold(name).take(depth as int),
    decreases depth,
{
    let key = fold(name).take(depth as int);
    if m.contains_key(key) {
    } else if depth == 0 {
        assert(fold(Seq::<char>::empty()) =~= key);
    } else {
        lemma_spelled_key(m, k, name, (depth - 1) as nat);
        lemma_fold_push(spelled(m, name, (depth - 1) as nat), name[depth - 1]);
        assert(key =~= fold(name).take(depth - 1).push(fold(name)[depth - 1]));
    }
}

/// Loading an entry keeps every list exact, provided that the load does not
/// lower the count of a name that the tree already has.
pub proof fn lemma_loaded_exact(m: TreeView, e: EntryView, k: nat)
    requires
        model_wf(m, k),
        exact(m, k),
        m.contains_key(fold(e.name)) ==> m[fold(e.name)].times <= e.times,
    ensures
        exact(loaded(m, e, k), k),
{
    let d = fold(e.name);
    let after = loaded(m, e, k);
    assert forall|key: Seq<char>| #[trigger] after.contains_key(key) implies exact_at(after, key, k) by {
        if key.is_prefix_of(d) {
            lemma_loaded_exact_on_path(m, e, k, key);
        } else {
            assert(population(after, key) =~= population(m, key)) by {
                assert forall|q: Seq<char>| key.is_prefix_of(q) implies !q.is_prefix_of(d) by {
                    if q.is_prefix_of(d) {
                        assert(key =~= d.take(key.len() as int));
                    }
                }
            }
        }
    }
}

/// The part of `lemma_loaded_exact` for a node on the way to the name.
proof fn lemma_loaded_exact_on_path(m: TreeView, e: EntryView, k: nat, key: Seq<char>)
    requires
        model_wf(m, k),
        exact(m, k),
        m.contains_key(fold(e.name)) ==> m[fold(e.name)].times <= e.times,
        key.is_prefix_of(fold(e.name)),
    ensures
        exact_at(loaded(m, e, k), key, k),
{
    let d = fold(e.name);
    let after = loaded(m, e, k);
    let was = before_load(m, e.name, key);
    let p0 = population(m, key);
    let p1 = population(after, key);
    lemma_population_wf(m, k, key);
    assert(d.is_prefix_of(d));
    if !m.contains_key(key) {
        lemma_nothing_below(m, k, key);
    }
    assert(sound(was.top, p0));
    assert(complete(was.top, p0, k));
    assert(population_wf(p1)) by {
        assert forall|q: Seq<char>| #[trigger] p1.contains_key(q) implies fold(p1[q].name) == q by {
            if q.is_prefix_of(d) {
                assert(q =~= d.take(q.len() as int));
                lemma_spelled_key(m, k, e.name, q.len());
            }
        }
    }
    assert forall|q: Seq<char>| #[trigger] p0.contains_key(q) implies p1.contains_key(q) && (q != d
        ==> p1[q] == p0[q]) by {
        if q.is_prefix_of(d) && q.len() == e.name.len() {
            assert(q =~= d);
        }
    }
    assert forall|q: Seq<char>| #[trigger]
        p1.contains_key(q) && !p0.contains_key(q) && q != d implies p1[q].times == 0 by {
        if q.is_prefix_of(d) && q.len() == e.name.len() {
            assert(q =~= d);
        }
    }
    assert(records(p0, p1, e));
    lemma_included_exact(was.top, p0, p1, e, k);
}

/// Where the walk up from a key halts.
pub proof fn lemma_halt_depth(m: TreeView, key: Seq<char>, e: EntryView, depth: int)
    requires
        depth >= -1,
    ensures
        -1 <= halt_depth(m, key, e, depth) <= depth,
        halt_depth(m, key, e, depth) >= 0 ==> blocks(
            m[key.take(halt_depth(m, key, e, depth))].top,
            e,
        ),
        forall|j: int|
            halt_depth(m, key, e, depth) < j <= depth ==> !blocks(#[trigger] m[key.take(j)].top, e),
    decreases depth + 1,
{
    if depth >= 0 && !blocks(m[key.take(depth)].top, e) {
        lemma_halt_depth(m, key, e, depth - 1);
    }
}

/// A list with distinct names, each of which another list caches, is no
/// longer than that list.
proof fn lemma_names_fit(s: Seq<EntryView>, t: Seq<EntryView>)
    requires
        distinct_names(s),
        forall|i: int| 0 <= i < s.len() ==> caches(t, fold(#[trigger] s[i].name)),
    ensures
        s.len() <= t.len(),
    decreases s.len(),
{
    if s.len() > 0 {
        let last = s.last();
        let j = choose|j: int| 0 <= j < t.len() && fold(#[trigger] t[j].name) == fold(last.name);
        let s1 = s.drop_last();
        let t1 = t.remove(j);
        assert forall|i: int| 0 <= i < s1.len() implies caches(t1, fold(#[trigger] s1[i].name)) by {
            assert(s1[i] == s[i]);
            assert(caches(t, fold(s[i].name)));
            let h = choose|h: int| 0 <= h < t.len() && fold(#[trigger] t[h].name) == fold(s[i].name);
            assert(fold(s[i].name) != fold(s[s.len() - 1].name));
            assert(h != j);
            let h1 = if h < j { h } else { h - 1 };
            assert(t1[h1] == t[h]);
        }
        assert forall|a: int, b: int| 0 <= a < b < s1.len() implies fold(#[trigger] s1[a].name)
            != fold(#[trigger] s1[b].name) by {
            assert(s1[a] == s[a] && s1[b] == s[b]);
        }
        lemma_names_fit(s1, t1);
    }
}

/// Above a list that blocks a raised entry, no list caches the entry's name,
/// and every list is full with a last entry that the raised entry does not
/// outrank.
proof fn lemma_blocked_above(m: TreeView, k: nat, key: Seq<char>, halt: Seq<char>, d: Seq<char>, e: EntryView)
    requires
        model_wf(m, k),
        exact(m, k),
        m.contains_key(d),
        fold(e.name) == d,
        m[d].times > 0,
        e.times == m[d].times + 1,
        key.is_prefix_of(halt),
        halt.is_prefix_of(d),
        blocks(m[halt].top, e),
    ensures
        m.contains_key(key),
        !caches(m[key].top, d),
        m[key].top.len() == k,
        !outranks(e, m[key].top.last()),
{
    lemma_model_prefix(m, k, d, halt.len() as int);
    assert(d.take(halt.len() as int) =~= halt);
    lemma_model_prefix(m, k, halt, key.len() as int);
    assert(halt.take(key.len() as int) =~= key);
    assert(key.is_prefix_of(d)) by {
        assert(key =~= d.take(key.len() as int));
    }
    let low = m[halt].top;
    let high = m[key].top;
    let p_low = population(m, halt);
    let p_high = population(m, key);
    assert(exact_at(m, halt, k));
    assert(exact_at(m, key, k));
    assert(p_low.contains_key(d));
    assert(p_high.contains_key(d));
    // every entry of the blocking list has more votes than the raised entry
    assert forall|i: int| 0 <= i < low.len() implies (#[trigger] low[i]).times > e.times by {
        if i < low.len() - 1 {
            assert(outranks(low[i], low.last()));
        }
    }
    // so the name is not among them, and the blocking list is full
    if caches(low, d) {
        let i = choose|i: int| 0 <= i < low.len() && fold(#[trigger] low[i].name) == d;
        assert(p_low[d].times == low[i].times);
    }
    assert(low.len() == k);
    // each of its entries is a name below the upper node
    assert forall|i: int| 0 <= i < low.len() implies p_high.contains_key(fold(#[trigger] low[i].name))
        && p_high[fold(low[i].name)].times == low[i].times by {
        let q = fold(low[i].name);
        assert(p_low.contains_key(q));
        assert(key.is_prefix_of(q)) by {
            assert(key =~= q.take(key.len() as int));
        }
    }
    if high.len() != k {
        assert forall|i: int| 0 <= i < low.len() implies caches(high, fold(#[trigger] low[i].name)) by {
            assert(p_high.contains_key(fold(low[i].name)));
        }
        lemma_names_fit(low, high);
    }
    if outranks(e, high.last()) {
        let short = high.drop_last();
        assert forall|i: int| 0 <= i < low.len() implies caches(short, fold(#[trigger] low[i].name)) by {
            let q = fold(low[i].name);
            assert(p_high.contains_key(q));
            assert(outranks(low[i], e));
            lemma_rank_transitive(low[i], e, high.last());
            assert(outranks(p_high[q], high.last()));
            assert(caches(high, q));
            let j = choose|j: int| 0 <= j < high.len() && fold(#[trigger] high[j].name) == q;
            assert(p_high[fold(high[j].name)].times == high[j].times);
            lemma_rank_total(high[j], high[j]);
            assert(j != high.len() - 1);
            assert(short[j] == high[j]);
        }
        lemma_names_fit(low, short);
    }
    if caches(high, d) {
        let j = choose|j: int| 0 <= j < high.len() && fold(#[trigger] high[j].name) == d;
        assert(p_high[d].times == high[j].times);
        assert(outranks(e, high[j]));
        lemma_last_is_least(high, j);
        lemma_rank_chain(e, high[j], high.last());
    }
}

/// The part of `lemma_voted_exact` for a node on the way that repairs its list.
proof fn lemma_voted_exact_repaired(m: TreeView, name: Seq<char>, k: nat, key: Seq<char>)
    requires
        model_wf(m, k),
        exact(m, k),
        can_vote(m, name),
        m[fold(name)].times < u64::MAX,
        m.contains_key(key),
        key.is_prefix_of(fold(name)),
        key.len() > halt_depth(m, fold(name), vote_entry(m, name), fold(name).len() as int),
    ensures
        exact_at(voted(m, name, k), key, k),
{
    let d = fold(name);
    let e = vote_entry(m, name);
    let after = voted(m, name, k);
    let p0 = population(m, key);
    let p1 = population(after, key);
    lemma_population_wf(m, k, key);
    assert(d.is_prefix_of(d));
    assert(exact_at(m, key, k));
    lemma_repaired_is_included(m[key].top, e, k);
    assert(after[key].top == included(m[key].top, e, k));
    assert(fold(e.name) == d);
    assert(population_wf(p1));
    assert(records(p0, p1, e));
    lemma_included_exact(m[key].top, p0, p1, e, k);
}

/// The part of `lemma_voted_exact` for a node on the way that the vote does
/// not reach.
proof fn lemma_voted_exact_halted(m: TreeView, name: Seq<char>, k: nat, key: Seq<char>)
    requires
        model_wf(m, k),
        exact(m, k),
        can_vote(m, name),
        m[fold(name)].times < u64::MAX,
        m.contains_key(key),
        key.is_prefix_of(fold(name)),
        key.len() <= halt_depth(m, fold(name), vote_entry(m, name), fold(name).len() as int),
    ensures
        exact_at(voted(m, name, k), key, k),
{
    let d = fold(name);
    let e = vote_entry(m, name);
    let h = halt_depth(m, d, e, d.len() as int);
    let after = voted(m, name, k);
    let p0 = population(m, key);
    let p1 = population(after, key);
    lemma_halt_depth(m, d, e, d.len() as int);
    let halt = d.take(h);
    assert(key.is_prefix_of(halt)) by {
        assert(key =~= d.take(key.len() as int));
        assert(key =~= halt.take(key.len() as int));
    }
    lemma_blocked_above(m, k, key, halt, d, e);
    assert(exact_at(m, key, k));
    let top = m[key].top;
    assert(after[key].top == top);
    assert forall|i: int| 0 <= i < top.len() implies p1.contains_key(fold(#[trigger] top[i].name))
        && p1[fold(top[i].name)].times == top[i].times by {
        assert(p0.contains_key(fold(top[i].name)));
    }
    assert forall|q: Seq<char>| #[trigger] p1.contains_key(q) && p1[q].times > 0 implies caches(top, q)
        || (top.len() == k && !outranks(p1[q], top.last())) by {
        assert(p0.contains_key(q));
    }
}

/// A vote keeps every list exact.
pub proof fn lemma_voted_exact(m: TreeView, name: Seq<char>, k: nat)
    requires
        model_wf(m, k),
        exact(m, k),
        can_vote(m, name),
        m[fold(name)].times < u64::MAX,
    ensures
        exact(voted(m, name, k), k),
{
    let d = fold(name);
    let e = vote_entry(m, name);
    let h = halt_depth(m, d, e, d.len() as int);
    let after = voted(m, name, k);
    assert forall|key: Seq<char>| #[trigger] after.contains_key(key) implies exact_at(after, key, k) by {
        if key.is_prefix_of(d) {
            if key.len() > h {
                lemma_voted_exact_repaired(m, name, k, key);
            } else {
                lemma_voted_exact_halted(m, name, k, key);
            }
        } else {
            assert(population(after, key) =~= population(m, key));
        }
    }
}

/// Where every list is exact, a name that a list at or above its node does
/// not cache is shut out by a full list: every cached entry outranks it, and
/// each of them is the present entry of a node at or below the list's node.
pub proof fn lemma_exact_means_best(m: TreeView, k: nat, key: Seq<char>, q: Seq<char>)
    requires
        model_wf(m, k),
        m.contains_key(key),
        exact_at(m, key, k),
        m.contains_key(q),
        key.is_prefix_of(q),
        m[q].times > 0,
        !caches(m[key].top, q),
    ensures
        m[key].top.len() == k,
        forall|i: int|
            0 <= i < k ==> {
                &&& outranks(#[trigger] m[key].top[i], m[q].own())
                &&& m.contains_key(fold(m[key].top[i].name))
                &&& key.is_prefix_of(fold(m[key].top[i].name))
                &&& m[fold(m[key].top[i].name)].times == m[key].top[i].times
            },
{
    let top = m[key].top;
    let p = population(m, key);
    assert(p.contains_key(q));
    assert forall|i: int| 0 <= i < k implies {
        &&& outranks(#[trigger] top[i], m[q].own())
        &&& m.contains_key(fold(top[i].name))
        &&& key.is_prefix_of(fold(top[i].name))
        &&& m[fold(top[i].name)].times == top[i].times
    } by {
        assert(p.contains_key(fold(top[i].name)));
        assert(fold(top.last().name) != q);
        lemma_rank_total(top.last(), m[q].own());
        if i < k - 1 {
            lemma_rank_transitive(top[i], top.last(), m[q].own());
        }
    }
}

/// The tree after votes for `names`, one after the other. A vote for what is
/// no name of the tree at that time changes nothing.
pub open spec fn voted_all(m: TreeView, names: Seq<Seq<char>>, k: nat) -> TreeView
    decreases names.len(),
{
    if names.len() == 0 {
        m
    } else {
        let before = voted_all(m, names.drop_last(), k);
        if can_vote(before, names.last()) {
            voted(before, names.last(), k)
        } else {
            before
        }
    }
}

/// Votes, in whatever order they are counted, keep every list exact: each
/// list, the root's among them, holds the best entries by the counts as
/// they stand in the end.
pub proof fn lemma_votes_exact(m: TreeView, names: Seq<Seq<char>>, k: nat)
    requires
        model_wf(m, k),
        exact(m, k),
        forall|q: Seq<char>| #[trigger] m.contains_key(q) ==> m[q].times + names.len() <= u64::MAX,
    ensures
        model_wf(voted_all(m, names, k), k),
        exact(voted_all(m, names, k), k),
        forall|q: Seq<char>|
            voted_all(m, names, k).contains_key(q) <==> #[trigger] m.contains_key(q),
        forall|q: Seq<char>| #[trigger]
            m.contains_key(q) ==> m[q].times <= voted_all(m, names, k)[q].times <= m[q].times
                + names.len(),
    decreases names.len(),
{
    if names.len() > 0 {
        let before = voted_all(m, names.drop_last(), k);
        lemma_votes_exact(m, names.drop_last(), k);
        if can_vote(before, names.last()) {
            assert(m.contains_key(fold(names.last())));
            lemma_voted_exact(before, names.last(), k);
            crate::shape::lemma_voted_wf(before, names.last(), k);
        }
    }
}

/// In a tree that holds only a root without votes and with an empty list,
/// every list is exact.
pub proof fn lemma_empty_exact(root: NodeData, k: nat)
    requires
        root.top.len() == 0,
        root.times == 0,
    ensures
        exact(Map::<Seq<char>, NodeData>::empty().insert(Seq::empty(), root), k),
{
    let m = Map::<Seq<char>, NodeData>::empty().insert(Seq::empty(), root);
    assert forall|key: Seq<char>| #[trigger] m.contains_key(key) implies exact_at(m, key, k) by {
        assert(key == Seq::<char>::empty());
        assert forall|q: Seq<char>| #[trigger] population(m, key).contains_key(q) implies population(
            m,
            key,
        )[q].times == 0 by {
            assert(q == Seq::<char>::empty());
        }
    }
}

} // verus!
