//! What views and answers look like: loading and voting keep a view well
//! formed, loading an entry a second time changes nothing, and an answer is
//! bounded, ranked behind the node's own entry, and holds the best names
//! below the node where the node's list is exact.

use vstd::prelude::*;
use crate::entry::{fold, lemma_rank_total, lemma_rank_transitive, outranks, same_entry, EntryView};
use crate::exact::{
    caches, exact_at, lemma_exact_means_best, lemma_repaired_is_included, lemma_spelled_key,
    population,
};
use crate::model::{answer, before_load, can_vote, capped, loaded, model_wf, others, spelled, voted};
use crate::node::NodeData;
use crate::top::{
    distinct_names, holds_name, included, lemma_included_wf, lemma_placed_wf, lemma_position_from,
    lemma_position_is, lemma_removed_wf, lemma_slot_from, lemma_slot_is, limit_of, placed,
    position_of, ranked, shuts_out, slot_of, top_wf,
};
use crate::tree::{empty_view, TreeView};

verus! {

/// A tree that holds the root only is well formed; it finds the empty prefix
/// and no other, answers it with nothing, and has no name to vote for.
pub proof fn lemma_empty_view(k: nat)
    requires
        k >= 1,
    ensures
        model_wf(empty_view(), k),
        forall|prefix: Seq<char>| #[trigger]
            empty_view().contains_key(fold(prefix)) <==> prefix.len() == 0,
        answer(empty_view()[Seq::<char>::empty()], k) == Seq::<EntryView>::empty(),
        forall|name: Seq<char>| !#[trigger] can_vote(empty_view(), name),
{
    let none = Seq::<char>::empty();
    assert(fold(none) =~= none);
    assert(ranked(Seq::<EntryView>::empty()));
    assert forall|prefix: Seq<char>| #[trigger]
        empty_view().contains_key(fold(prefix)) <==> prefix.len() == 0 by {
        if prefix.len() == 0 {
            assert(fold(prefix) =~= none);
        } else {
            assert(fold(prefix).len() > 0);
        }
    }
    assert forall|name: Seq<char>| !#[trigger] can_vote(empty_view(), name) by {
        if empty_view().contains_key(fold(name)) {
            assert(fold(name) == none);
        }
    }
    assert(answer(empty_view()[none], k) =~= Seq::<EntryView>::empty());
}

/// The entries other than `own` are entries of the list, in the list's order.
pub proof fn lemma_others_ranked(s: Seq<EntryView>, own: EntryView)
    requires
        ranked(s),
    ensures
        ranked(others(s, own)),
        others(s, own).len() <= s.len(),
        forall|i: int|
            0 <= i < others(s, own).len() ==> s.contains(#[trigger] others(s, own)[i]) && !same_entry(
                others(s, own)[i],
                own,
            ),
    decreases s.len(),
{
    if s.len() > 0 {
        let head = s.drop_last();
        lemma_others_ranked(head, own);
        let t = others(s, own);
        let t0 = others(head, own);
        assert forall|i: int| 0 <= i < t.len() implies s.contains(#[trigger] t[i]) && !same_entry(
            t[i],
            own,
        ) by {
            if i < t0.len() {
                assert(head.contains(t0[i]));
                let j = choose|j: int| 0 <= j < head.len() && head[j] == t0[i];
                assert(s[j] == t[i]);
            } else {
                assert(s[s.len() - 1] == t[i]);
            }
        }
        assert forall|i: int, j: int| 0 <= i < j < t.len() implies outranks(
            #[trigger] t[i],
            #[trigger] t[j],
        ) by {
            if j == t0.len() {
                assert(head.contains(t0[i]));
                let h = choose|h: int| 0 <= h < head.len() && head[h] == t0[i];
                assert(outranks(s[h], s[s.len() - 1]));
            }
        }
    }
}

/// Every entry of the list that is not `own` is among the entries other than `own`.
pub proof fn lemma_others_holds(s: Seq<EntryView>, own: EntryView, j: int)
    requires
        0 <= j < s.len(),
        !same_entry(s[j], own),
    ensures
        others(s, own).contains(s[j]),
    decreases s.len(),
{
    let t = others(s, own);
    if j == s.len() - 1 {
        assert(t[t.len() - 1] == s[j]);
    } else {
        lemma_others_holds(s.drop_last(), own, j);
        let t0 = others(s.drop_last(), own);
        let i = choose|i: int| 0 <= i < t0.len() && t0[i] == s.drop_last()[j];
        assert(t[i] == s[j]);
    }
}

/// The entries other than `own` are the whole list exactly if no entry is `own`.
pub proof fn lemma_others_all(s: Seq<EntryView>, own: EntryView)
    ensures
        others(s, own).len() <= s.len(),
        others(s, own).len() == s.len() <==> forall|j: int|
            0 <= j < s.len() ==> !same_entry(#[trigger] s[j], own),
    decreases s.len(),
{
    if s.len() > 0 {
        let head = s.drop_last();
        lemma_others_all(head, own);
        if others(s, own).len() == s.len() {
            assert forall|j: int| 0 <= j < s.len() implies !same_entry(#[trigger] s[j], own) by {
                if j < s.len() - 1 {
                    assert(head[j] == s[j]);
                }
            }
        }
        if forall|j: int| 0 <= j < s.len() ==> !same_entry(#[trigger] s[j], own) {
            assert forall|j: int| 0 <= j < head.len() implies !same_entry(#[trigger] head[j], own) by {
                assert(head[j] == s[j]);
            }
            assert(!same_entry(s[s.len() - 1], own));
        }
    }
}

/// In a list without repeated names at most one entry is `own`.
pub proof fn lemma_others_most(s: Seq<EntryView>, own: EntryView)
    requires
        distinct_names(s),
    ensures
        others(s, own).len() + 1 >= s.len(),
    decreases s.len(),
{
    if s.len() > 0 {
        let head = s.drop_last();
        assert forall|i: int, j: int| 0 <= i < j < head.len() implies fold(#[trigger] head[i].name)
            != fold(#[trigger] head[j].name) by {
            assert(head[i] == s[i] && head[j] == s[j]);
        }
        if same_entry(s.last(), own) {
            lemma_others_all(head, own);
            assert forall|j: int| 0 <= j < head.len() implies !same_entry(#[trigger] head[j], own) by {
                assert(head[j] == s[j]);
                assert(fold(s[j].name) != fold(s[s.len() - 1].name));
            }
        } else {
            lemma_others_most(head, own);
        }
    }
}

/// Where the list of a node is exact, the node's answer holds the best names
/// at or below the node: a name other than the node's own that the answer
/// leaves out is outranked by every cached entry of the answer, and the
/// answer is full.
pub proof fn lemma_answer_holds_best(m: TreeView, k: nat, key: Seq<char>, q: Seq<char>)
    requires
        model_wf(m, k),
        m.contains_key(key),
        exact_at(m, key, k),
        m.contains_key(q),
        key.is_prefix_of(q),
        q != key,
        m[q].times > 0,
        forall|i: int|
            0 <= i < answer(m[key], k).len() ==> fold(#[trigger] answer(m[key], k)[i].name) != q,
    ensures
        answer(m[key], k).len() == k,
        forall|i: int|
            (if m[key].times > 0 {
                1int
            } else {
                0int
            }) <= i < k ==> outranks(#[trigger] answer(m[key], k)[i], m[q].own()),
{
    let node = m[key];
    let top = node.top;
    let all = answer(node, k);
    let p = population(m, key);
    assert(p.contains_key(q));
    assert(p.contains_key(key)) by {
        assert(key.is_prefix_of(key));
    }
    if node.times == 0 {
        assert(forall|i: int| 0 <= i < all.len() ==> all[i] == top[i]);
        if caches(top, q) {
            let j = choose|j: int| 0 <= j < top.len() && fold(#[trigger] top[j].name) == q;
            assert(fold(all[j].name) == q);
        }
        lemma_exact_means_best(m, k, key, q);
    } else {
        let own = node.own();
        let rest = others(top, own);
        let cut: nat = (top.len() - 1) as nat;
        lemma_others_ranked(top, own);
        lemma_others_all(top, own);
        lemma_others_most(top, own);
        assert(all =~= seq![own] + capped(rest, cut));
        assert(forall|i: int| 1 <= i < all.len() ==> all[i] == rest[i - 1]);
        if caches(top, q) {
            let j = choose|j: int| 0 <= j < top.len() && fold(#[trigger] top[j].name) == q;
            assert(p[q].times == top[j].times);
            lemma_others_holds(top, own, j);
            let at = choose|at: int| 0 <= at < rest.len() && rest[at] == top[j];
            if at < cut {
                assert(all[at + 1] == rest[at]);
                assert(fold(all[at + 1].name) == q);
            }
            assert(rest.len() == top.len());
            if caches(top, key) {
                let h = choose|h: int| 0 <= h < top.len() && fold(#[trigger] top[h].name) == key;
                assert(p[key].times == top[h].times);
                assert(same_entry(top[h], own));
            }
            assert(top.len() == k);
            assert forall|i: int| 1 <= i < k implies outranks(#[trigger] all[i], m[q].own()) by {
                assert(outranks(rest[i - 1], rest[at]));
            }
        } else {
            lemma_exact_means_best(m, k, key, q);
            assert forall|i: int| 1 <= i < k implies outranks(#[trigger] all[i], m[q].own()) by {
                assert(top.contains(rest[i - 1]));
                let h = choose|h: int| 0 <= h < top.len() && top[h] == rest[i - 1];
                assert(outranks(top[h], m[q].own()));
            }
        }
    }
}

/// An answer holds at most as many entries as the bound allows.
pub proof fn lemma_answer_bounded(node: NodeData, k: nat)
    requires
        k >= 1,
        top_wf(node.top, k),
        node.times > 0 ==> node.top.len() > 0,
    ensures
        answer(node, k).len() <= k,
{
}

/// The cached entries of an answer are ranked, and none of them is the
/// node's own entry. The answer of a node that is no name is ranked as a
/// whole; that of a name is ranked as a whole exactly if the own entry
/// outranks the entry that follows it.
pub proof fn lemma_answer_ranked(node: NodeData, k: nat)
    requires
        top_wf(node.top, k),
    ensures
        node.times == 0 ==> ranked(answer(node, k)),
        node.times > 0 ==> {
            &&& answer(node, k).len() >= 1
            &&& answer(node, k)[0] == node.own()
            &&& ranked(answer(node, k).skip(1))
            &&& forall|i: int|
                1 <= i < answer(node, k).len() ==> !same_entry(#[trigger] answer(node, k)[i], node.own())
            &&& ranked(answer(node, k)) <==> (answer(node, k).len() == 1 || outranks(
                node.own(),
                answer(node, k)[1],
            ))
        },
{
    let all = answer(node, k);
    if node.times > 0 {
        let own = node.own();
        lemma_others_ranked(node.top, own);
        let room = limit_of(node.top, k);
        let cut: nat = if room >= 1 { (room - 1) as nat } else { 0 };
        let tail = capped(others(node.top, own), cut);
        assert(all.skip(1) =~= tail);
        assert(forall|i: int| 0 <= i < tail.len() ==> tail[i] == others(node.top, own)[i]);
        assert(forall|i: int| 1 <= i < all.len() ==> all[i] == tail[i - 1]);
        if all.len() > 1 && outranks(own, all[1]) {
            assert forall|i: int, j: int| 0 <= i < j < all.len() implies outranks(
                #[trigger] all[i],
                #[trigger] all[j],
            ) by {
                if i == 0 {
                    if j > 1 {
                        assert(outranks(tail[0], tail[j - 1]));
                        lemma_rank_transitive(own, all[1], all[j]);
                    }
                } else {
                    assert(outranks(tail[i - 1], tail[j - 1]));
                }
            }
        }
        if ranked(all) && all.len() > 1 {
            assert(outranks(all[0], all[1]));
        }
    } else {
        let room = limit_of(node.top, k);
        assert(forall|i: int| 0 <= i < all.len() ==> all[i] == node.top[i]);
    }
}

/// Taking an entry in a second time changes nothing.
pub proof fn lemma_included_twice(top: Seq<EntryView>, e: EntryView, k: nat)
    requires
        k >= 1,
        top_wf(top, k),
    ensures
        included(included(top, e, k), e, k) == included(top, e, k),
{
    let once = included(top, e, k);
    lemma_included_wf(top, e, k);
    lemma_position_from(top, e.name, 0);
    if shuts_out(top, e, k) {
    } else if shuts_out(once, e, k) {
    } else if holds_name(top, e.name) {
        let p = position_of(top, e.name);
        let r = top.remove(p);
        let x = EntryView { name: top[p].name, times: e.times };
        lemma_removed_wf(top, p);
        lemma_position_from(r, x.name, 0);
        lemma_position_from(r, e.name, 0);
        lemma_placed_wf(r, x);
        lemma_slot_from(r, x, 0);
        let slot = slot_of(r, x);
        assert(once == r.insert(slot, x));
        assert forall|j: int| 0 <= j < slot implies fold(#[trigger] once[j].name) != fold(e.name) by {
            assert(once[j] == r[j]);
        }
        lemma_position_is(once, e.name, slot);
        assert(once.remove(slot) =~= r);
        assert(once[slot] == x);
    } else {
        let u = placed(top, e);
        lemma_placed_wf(top, e);
        lemma_slot_from(top, e, 0);
        let slot = slot_of(top, e);
        if top.len() + 1 > k {
            lemma_rank_total(e, top.last());
            assert(slot <= k - 1);
            assert(once == u.take(k as int));
            let short = top.drop_last();
            assert(once[slot] == e);
            assert forall|j: int| 0 <= j < slot implies fold(#[trigger] once[j].name) != fold(
                e.name,
            ) by {
                assert(once[j] == top[j]);
            }
            lemma_position_is(once, e.name, slot);
            assert(once.remove(slot) =~= short);
            assert forall|j: int| 0 <= j < slot implies outranks(#[trigger] short[j], e) by {
                assert(short[j] == top[j]);
            }
            lemma_slot_is(short, e, slot);
            assert(short.insert(slot, e) =~= once);
        } else {
            assert(once == u);
            assert(once[slot] == e);
            assert forall|j: int| 0 <= j < slot implies fold(#[trigger] once[j].name) != fold(
                e.name,
            ) by {
                assert(once[j] == top[j]);
            }
            lemma_position_is(once, e.name, slot);
            assert(once.remove(slot) =~= top);
        }
    }
}

/// Loading an entry that has just been loaded changes nothing: the tree, and
/// with it every answer, is as after the first load.
pub proof fn lemma_reload(m: TreeView, e: EntryView, k: nat)
    requires
        model_wf(m, k),
    ensures
        loaded(loaded(m, e, k), e, k) == loaded(m, e, k),
{
    let once = loaded(m, e, k);
    let twice = loaded(once, e, k);
    assert forall|key: Seq<char>| #[trigger] once.contains_key(key) implies twice[key] == once[key] by {
        if key.is_prefix_of(fold(e.name)) {
            let was = before_load(m, e.name, key);
            lemma_included_twice(was.top, e, k);
        }
    }
    assert(twice =~= once);
}

/// Loading an entry keeps a view well formed.
pub proof fn lemma_loaded_wf(m: TreeView, e: EntryView, k: nat)
    requires
        model_wf(m, k),
    ensures
        model_wf(loaded(m, e, k), k),
{
    let d = fold(e.name);
    let after = loaded(m, e, k);
    assert(Seq::<char>::empty().is_prefix_of(d));
    assert forall|key: Seq<char>| #[trigger] after.contains_key(key) implies {
        &&& after[key].key() == key
        &&& top_wf(after[key].top, k)
        &&& (after[key].times > 0 ==> after[key].top.len() > 0)
        &&& (key.len() > 0 ==> after.contains_key(key.drop_last()) && after[key.drop_last()].prefix
            == after[key].prefix.drop_last())
    } by {
        if key.is_prefix_of(d) {
            let was = before_load(m, e.name, key);
            let depth = key.len();
            assert(key =~= d.take(depth as int));
            lemma_spelled_key(m, k, e.name, depth);
            lemma_included_wf(was.top, e, k);
            if depth > 0 {
                let up = key.drop_last();
                assert(up =~= d.take(depth - 1));
                assert(up.is_prefix_of(d));
                if m.contains_key(key) {
                    assert(m.contains_key(up));
                } else {
                    let spelling = spelled(m, e.name, (depth - 1) as nat);
                    assert(spelling.push(e.name[depth - 1]).drop_last() =~= spelling);
                }
            }
        } else {
            if key.len() > 0 {
                let up = key.drop_last();
                assert(m.contains_key(up));
                if up.is_prefix_of(d) {
                    assert(before_load(m, e.name, up) == m[up]);
                }
            }
        }
    }
}

/// A vote keeps a view well formed.
pub proof fn lemma_voted_wf(m: TreeView, name: Seq<char>, k: nat)
    requires
        model_wf(m, k),
        can_vote(m, name),
        m[fold(name)].times < u64::MAX,
    ensures
        model_wf(voted(m, name, k), k),
{
    let after = voted(m, name, k);
    let e = crate::model::vote_entry(m, name);
    assert forall|key: Seq<char>| #[trigger] after.contains_key(key) implies {
        &&& after[key].key() == key
        &&& top_wf(after[key].top, k)
        &&& (after[key].times > 0 ==> after[key].top.len() > 0)
        &&& (key.len() > 0 ==> after.contains_key(key.drop_last()) && after[key.drop_last()].prefix
            == after[key].prefix.drop_last())
    } by {
        lemma_repaired_is_included(m[key].top, e, k);
        lemma_included_wf(m[key].top, e, k);
        if key.len() > 0 {
            assert(m.contains_key(key.drop_last()));
        }
    }
}

} // verus!
