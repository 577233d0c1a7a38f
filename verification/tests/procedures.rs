use prefix_tree::entry::Entry;
use prefix_tree::procedures::get::{GetPrefixError, Output};
use prefix_tree::procedures::load::LoadError;
use prefix_tree::procedures::vote::VoteResult;
use prefix_tree::tree::Tree;

fn all_entries() -> Vec<Entry> {
    Vec::from([
        Entry::new("a".into(), 5),
        Entry::new("ab".into(), 50),
        Entry::new("aa".into(), 12),
        Entry::new("ace".into(), 33),
        Entry::new("bb".into(), 44),
        Entry::new("abc".into(), 100),
        Entry::new("cb".into(), 12),
        Entry::new("ba".into(), 44),
        Entry::new("acc".into(), 51),
        Entry::new("cb".into(), 12),
        Entry::new("bbc".into(), 5),
        Entry::new("ddd".into(), 6),
    ])
}

fn tree() -> Tree {
    let entries: Vec<Entry> = all_entries();
    let mut tree: Tree = Tree::new_empty(5);

    for entry in entries {
        match tree.include_entry(entry.clone()) {
            Ok(_) => {}
            Err(err) => {
                panic!("Error including initial entries. Entry: {entry:?}, error: {err:?} .")
            }
        };
    }

    tree
}

fn get_entry(tree: &Tree, name: &str) -> Entry {
    let top: Vec<Entry> = match tree.get_top(name) {
        Err(GetPrefixError::NotFound(prefix)) => panic!("Prefix {prefix} not found"),
        Ok(value) => match value {
            Output::Values(values) => values,
        },
    };

    top.first()
        .expect("Failed to get entry for that name")
        .clone()
}

fn validate_get(tree: &Tree, expected: &Entry) {
    let prefix: &str = expected.get_name();
    let entry: Entry = get_entry(tree, prefix);

    assert_eq!(
        entry, *expected,
        "Comparison failure, expected {expected:?}, got {entry:?}"
    );
}

#[test]
fn procedures_get() {
    let tree: Tree = tree();

    let entries: Vec<Entry> = all_entries();

    for expected in &entries {
        validate_get(&tree, expected);
    }
}

fn validate_get_all(tree: &Tree, prefix: &str, expected: Vec<Entry>) {
    let top: Vec<Entry> = match tree.get_top(prefix) {
        Err(GetPrefixError::NotFound(prefix)) => panic!("Prefix {prefix} not found"),
        Ok(value) => match value {
            Output::Values(values) => values,
        },
    };

    for i in 0..top.len() {
        let current: &Entry = &top[i];
        let expected: &Entry = &expected[i];

        assert_eq!(*current, *expected, "Expected {expected:?}, got {current:?}");
    }
}

#[test]
fn procedures_get_all() {
    let tree: Tree = tree();

    let expected: Vec<Entry> = Vec::from([
        Entry::new("abc".into(), 100),
        Entry::new("acc".into(), 51),
        Entry::new("ab".into(), 50),
        Entry::new("ba".into(), 44),
        Entry::new("bb".into(), 44),
    ]);

    validate_get_all(&tree, "", expected);

    let expected: Vec<Entry> = Vec::from([
        Entry::new("a".into(), 5),
        Entry::new("abc".into(), 100),
        Entry::new("acc".into(), 51),
        Entry::new("ab".into(), 50),
        Entry::new("ace".into(), 33),
        Entry::new("aa".into(), 12),
    ]);

    validate_get_all(&tree, "a", expected);

    let expected: Vec<Entry> =
        Vec::from([Entry::new("ab".into(), 50), Entry::new("abc".into(), 100)]);

    validate_get_all(&tree, "ab", expected);

    let expected: Vec<Entry> =
        Vec::from([Entry::new("acc".into(), 51), Entry::new("ace".into(), 33)]);

    validate_get_all(&tree, "ac", expected);

    let expected: Vec<Entry> = Vec::from([Entry::new("acc".into(), 51)]);

    validate_get_all(&tree, "acc", expected);
}

#[test]
fn procedures_get_all_with_different_capitalization() {
    let tree: Tree = tree();

    let expected: Vec<Entry> = Vec::from([
        Entry::new("aBC".into(), 100),
        Entry::new("ACC".into(), 51),
        Entry::new("ab".into(), 50),
        Entry::new("Ba".into(), 44),
        Entry::new("BB".into(), 44),
    ]);

    validate_get_all(&tree, "", expected);

    let expected: Vec<Entry> = Vec::from([
        Entry::new("A".into(), 5),
        Entry::new("aBc".into(), 100),
        Entry::new("ACC".into(), 51),
        Entry::new("Ab".into(), 50),
        Entry::new("aCE".into(), 33),
        Entry::new("AA".into(), 12),
    ]);

    validate_get_all(&tree, "A", expected);

    let expected: Vec<Entry> =
        Vec::from([Entry::new("aB".into(), 50), Entry::new("ABc".into(), 100)]);

    validate_get_all(&tree, "aB", expected);

    let expected: Vec<Entry> =
        Vec::from([Entry::new("aCC".into(), 51), Entry::new("ACe".into(), 33)]);

    validate_get_all(&tree, "AC", expected);

    let expected: Vec<Entry> = Vec::from([Entry::new("aCC".into(), 51)]);

    validate_get_all(&tree, "AcC", expected);
}

/// Vote in given name 2 times and asserts that it updated properly
fn validate_vote(tree: &mut Tree, prefix: &str) {
    let before: Entry = get_entry(tree, prefix);
    let expected: Entry = Entry::new(before.get_name().into(), before.get_times() + 2);

    tree.vote(prefix);
    tree.vote(prefix);

    let after: Entry = get_entry(tree, prefix);

    assert_eq!(
        expected, after,
        "Failed vote. Expected {expected:?}. Got {after:?}"
    );
}

#[test]
fn procedures_vote() {
    let mut tree: Tree = tree();

    for entry in all_entries() {
        validate_vote(&mut tree, entry.get_name());
    }
}

fn listing(tree: &Tree, prefix: &str) -> Vec<(String, u64)> {
    match tree.get_top(prefix) {
        Ok(Output::Values(values)) => values
            .iter()
            .map(|entry| (entry.get_name().to_string(), *entry.get_times()))
            .collect(),
        Err(GetPrefixError::NotFound(_)) => panic!("prefix {prefix} not found"),
    }
}

fn cached(tree: &Tree, prefix: &str) -> Vec<(String, u64)> {
    let mut index = 0;
    for character in prefix.chars() {
        index = tree.node(index).next_child(character).expect("the prefix has a node");
    }
    tree.node(index)
        .get_top()
        .iter()
        .map(|entry| (entry.get_name().to_string(), *entry.get_times()))
        .collect()
}

fn pairs(expected: &[(&str, u64)]) -> Vec<(String, u64)> {
    expected.iter().map(|(name, times)| (name.to_string(), *times)).collect()
}

fn tree_of(suggestions: usize, entries: &[(&str, u64)]) -> Tree {
    let mut tree = Tree::new_empty(suggestions);
    for (name, times) in entries {
        assert!(tree.include_entry(Entry::new(name.to_string(), *times)).is_ok());
    }
    tree
}

#[test]
fn vote_after_load_counts_one_more() {
    let mut tree = tree_of(5, &[("abc", 5)]);
    match tree.vote("abc") {
        VoteResult::Success(entry) => {
            assert_eq!(entry.get_name(), "abc");
            assert_eq!(*entry.get_times(), 6);
        }
        _ => panic!("the vote was not counted"),
    }
    assert_eq!(listing(&tree, "abc"), pairs(&[("abc", 6)]));
    assert_eq!(listing(&tree, "ab"), pairs(&[("abc", 6)]));
    assert_eq!(listing(&tree, ""), pairs(&[("abc", 6)]));
}

#[test]
fn traversal_ignores_case_and_display_keeps_it() {
    let mut tree = tree_of(5, &[("Abc", 5)]);
    assert_eq!(listing(&tree, "abc"), pairs(&[("Abc", 5)]));
    assert_eq!(listing(&tree, "ABC"), pairs(&[("Abc", 5)]));
    assert_eq!(listing(&tree, "aB"), pairs(&[("Abc", 5)]));
    match tree.vote("aBC") {
        VoteResult::Success(entry) => {
            assert_eq!(entry.get_name(), "Abc");
            assert_eq!(*entry.get_times(), 6);
        }
        _ => panic!("the vote was not counted"),
    }
    assert_eq!(listing(&tree, "abc"), pairs(&[("Abc", 6)]));
}

#[test]
fn a_later_casing_changes_the_count_but_not_the_spelling() {
    let tree = tree_of(5, &[("Abc", 5), ("aBD", 2), ("ABC", 7)]);
    assert_eq!(listing(&tree, "abc"), pairs(&[("Abc", 7)]));
    assert_eq!(listing(&tree, "abd"), pairs(&[("AbD", 2)]));
    assert_eq!(cached(&tree, ""), pairs(&[("Abc", 7), ("aBD", 2)]));
}

#[test]
fn every_name_under_a_prefix_is_cached_while_there_is_room() {
    let tree = tree_of(4, &[("car", 3), ("cart", 9), ("care", 1), ("dog", 5)]);
    assert_eq!(cached(&tree, "c"), pairs(&[("cart", 9), ("car", 3), ("care", 1)]));
    assert_eq!(cached(&tree, "car"), pairs(&[("cart", 9), ("car", 3), ("care", 1)]));
    assert_eq!(cached(&tree, "cart"), pairs(&[("cart", 9)]));
    assert_eq!(cached(&tree, ""), pairs(&[("cart", 9), ("dog", 5), ("car", 3), ("care", 1)]));
    assert_eq!(listing(&tree, "car"), pairs(&[("car", 3), ("cart", 9), ("care", 1)]));
}

#[test]
fn a_full_list_keeps_the_best_names_of_its_subtree() {
    let tree = tree_of(2, &[("a", 1), ("ab", 10), ("ac", 9), ("ad", 11)]);
    assert_eq!(cached(&tree, "a"), pairs(&[("ad", 11), ("ab", 10)]));
    assert_eq!(cached(&tree, ""), pairs(&[("ad", 11), ("ab", 10)]));
    assert_eq!(listing(&tree, "a"), pairs(&[("a", 1), ("ad", 11)]));
    assert_eq!(listing(&tree, ""), pairs(&[("ad", 11), ("ab", 10)]));
}

#[test]
fn loading_an_entry_again_changes_nothing() {
    let entries = [("car", 3), ("cart", 9), ("care", 1), ("dog", 5), ("do", 9)];
    let once = tree_of(3, &entries);
    let mut twice = tree_of(3, &entries);
    for (name, times) in entries {
        assert!(twice.include_entry(Entry::new(name.to_string(), times)).is_ok());
    }
    for prefix in ["", "c", "ca", "car", "cart", "care", "d", "do", "dog"] {
        assert_eq!(listing(&once, prefix), listing(&twice, prefix));
        assert_eq!(cached(&once, prefix), cached(&twice, prefix));
    }
    assert_eq!(cached(&twice, ""), pairs(&[("cart", 9), ("do", 9), ("dog", 5)]));
}

#[test]
fn a_vote_below_the_cached_minimum_is_pruned_until_it_ties() {
    let mut tree = tree_of(2, &[("a", 10), ("b", 9), ("c", 1)]);
    assert_eq!(listing(&tree, ""), pairs(&[("a", 10), ("b", 9)]));
    assert!(matches!(tree.vote("c"), VoteResult::Success(_)));
    assert_eq!(listing(&tree, ""), pairs(&[("a", 10), ("b", 9)]));
    for _ in 0..8 {
        assert!(matches!(tree.vote("c"), VoteResult::Success(_)));
    }
    assert_eq!(listing(&tree, "c"), pairs(&[("c", 10)]));
    assert_eq!(listing(&tree, ""), pairs(&[("a", 10), ("c", 10)]));
}

#[test]
fn an_empty_tree_finds_nothing() {
    let mut tree = Tree::new_empty(3);
    match tree.get_top("xyz") {
        Err(GetPrefixError::NotFound(prefix)) => assert_eq!(prefix, "xyz"),
        Ok(_) => panic!("an empty tree has no such prefix"),
    }
    assert!(matches!(tree.vote("xyz"), VoteResult::NotFound));
    assert!(matches!(tree.vote(""), VoteResult::NotFound));
    assert_eq!(listing(&tree, ""), pairs(&[]));
}

#[test]
fn a_prefix_that_is_no_name_cannot_be_voted_for() {
    let mut tree = tree_of(3, &[("abc", 5)]);
    assert!(matches!(tree.vote("ab"), VoteResult::NotFound));
    assert!(matches!(tree.vote("abcd"), VoteResult::NotFound));
    assert!(matches!(tree.vote("x"), VoteResult::NotFound));
    assert_eq!(listing(&tree, "ab"), pairs(&[("abc", 5)]));
}

#[test]
fn votes_in_any_order_leave_the_same_lists() {
    let entries = [("ab", 4), ("ac", 4), ("ad", 3), ("b", 5), ("bc", 2)];
    let votes = ["ad", "ad", "bc", "ac", "bc", "bc", "bc", "ab"];
    let mut forward = tree_of(3, &entries);
    for name in votes {
        assert!(matches!(forward.vote(name), VoteResult::Success(_)));
    }
    let mut backward = tree_of(3, &entries);
    for name in votes.iter().rev() {
        assert!(matches!(backward.vote(name), VoteResult::Success(_)));
    }
    for prefix in ["", "a", "b"] {
        assert_eq!(cached(&forward, prefix), cached(&backward, prefix));
    }
    assert_eq!(cached(&forward, ""), pairs(&[("bc", 6), ("ab", 5), ("ac", 5)]));
    assert_eq!(cached(&forward, "a"), pairs(&[("ab", 5), ("ac", 5), ("ad", 5)]));
    assert_eq!(cached(&forward, "b"), pairs(&[("bc", 6), ("b", 5)]));
}

#[test]
fn a_vote_that_ties_the_last_entry_enters_by_its_name() {
    let mut tree = tree_of(2, &[("x", 7), ("m", 5), ("b", 4)]);
    assert_eq!(cached(&tree, ""), pairs(&[("x", 7), ("m", 5)]));
    assert!(matches!(tree.vote("b"), VoteResult::Success(_)));
    assert_eq!(cached(&tree, ""), pairs(&[("x", 7), ("b", 5)]));
    let mut tree = tree_of(2, &[("x", 7), ("m", 5), ("z", 4)]);
    assert!(matches!(tree.vote("z"), VoteResult::Success(_)));
    assert_eq!(cached(&tree, ""), pairs(&[("x", 7), ("m", 5)]));
}

#[test]
fn an_entry_without_a_name_is_refused() {
    let mut tree = tree_of(3, &[("abc", 5)]);
    match tree.include_entry(Entry::new(String::new(), 9)) {
        Err(LoadError::EntryNameIsEmpty(entry, depth)) => {
            assert_eq!(entry.get_name(), "");
            assert_eq!(*entry.get_times(), 9);
            assert_eq!(depth, 0);
        }
        _ => panic!("an empty name was loaded"),
    }
    assert_eq!(listing(&tree, ""), pairs(&[("abc", 5)]));
}

#[test]
fn a_bulk_load_stops_at_the_first_entry_without_a_name() {
    let mut tree = Tree::new_empty(3);
    let entries = vec![
        Entry::new("one".into(), 1),
        Entry::new("two".into(), 2),
        Entry::new(String::new(), 3),
        Entry::new("four".into(), 4),
    ];
    match tree.load(entries) {
        Err(LoadError::EntryNameIsEmpty(entry, 0)) => assert_eq!(*entry.get_times(), 3),
        _ => panic!("the load did not stop"),
    }
    assert_eq!(listing(&tree, ""), pairs(&[("two", 2), ("one", 1)]));
    assert!(matches!(tree.get_top("four"), Err(GetPrefixError::NotFound(_))));
}

#[test]
fn a_new_tree_holds_what_it_was_given() {
    let entries = vec![Entry::new("one".into(), 1), Entry::new("two".into(), 2)];
    let tree = match Tree::new(1, entries) {
        Ok(tree) => tree,
        Err(_) => panic!("the entries were refused"),
    };
    assert_eq!(listing(&tree, ""), pairs(&[("two", 2)]));
    assert_eq!(listing(&tree, "o"), pairs(&[("one", 1)]));
    assert_eq!(tree.get_node().get_suggestions(), 1);
    assert!(Tree::new(1, vec![Entry::new(String::new(), 1)]).is_err());
}

#[test]
fn an_entry_loaded_without_votes_is_cached_but_is_no_name() {
    let mut tree = tree_of(3, &[("idle", 0), ("busy", 2)]);
    assert_eq!(listing(&tree, ""), pairs(&[("busy", 2), ("idle", 0)]));
    assert_eq!(listing(&tree, "idle"), pairs(&[("idle", 0)]));
    assert!(matches!(tree.vote("idle"), VoteResult::NotFound));
}

#[test]
fn names_may_hold_any_character() {
    let mut tree = tree_of(3, &[("harald hardrada", 10), ("h\u{e9}l\u{e8}ne", 4), ("H\u{c9}", 1)]);
    assert_eq!(listing(&tree, "harald h"), pairs(&[("harald hardrada", 10)]));
    assert_eq!(listing(&tree, "h\u{e9}"), pairs(&[("h\u{e9}l\u{e8}ne", 4)]));
    assert_eq!(listing(&tree, "H\u{c9}"), pairs(&[("h\u{c9}", 1)]));
    assert!(matches!(tree.get_top("h\u{c8}"), Err(GetPrefixError::NotFound(_))));
    assert!(matches!(tree.vote("H\u{e9}l\u{e8}ne"), VoteResult::Success(_)));
    assert_eq!(listing(&tree, "h"), pairs(&[("harald hardrada", 10), ("h\u{e9}l\u{e8}ne", 5), ("H\u{c9}", 1)]));
}

#[test]
fn a_name_with_the_greatest_count_is_saturated() {
    let tree = tree_of(1, &[("x", u64::MAX), ("xy", 3), ("z", 0)]);
    assert!(tree.is_saturated("x"));
    assert!(tree.is_saturated("X"));
    assert!(!tree.is_saturated("xy"));
    assert!(!tree.is_saturated("z"));
    assert!(!tree.is_saturated("nobody"));
    assert!(!tree.is_saturated(""));
    let lowered = tree_of(1, &[("x", u64::MAX), ("x", 0)]);
    assert!(!lowered.is_saturated("x"));
}

#[test]
fn a_prefix_is_located_at_the_position_of_its_node() {
    let tree = tree_of(3, &[("Ab", 1), ("ac", 2)]);
    assert_eq!(tree.locate(""), Some(0));
    assert_eq!(tree.locate("a"), Some(1));
    assert_eq!(tree.locate("AB"), Some(2));
    assert_eq!(tree.locate("aC"), Some(3));
    assert_eq!(tree.locate("abc"), None);
    assert_eq!(tree.locate("b"), None);
    assert_eq!(tree.node(3).get_prefix(), "Ac");
    assert_eq!(tree.node(3).get_parent(), Some(1));
}

#[test]
fn loads_and_votes_leave_every_node_in_its_position() {
    let mut tree = tree_of(3, &[("Ab", 1), ("ac", 2)]);
    assert!(tree.include_entry(Entry::new("abd".to_string(), 7)).is_ok());
    assert!(matches!(tree.vote("ac"), VoteResult::Success(_)));
    assert_eq!(tree.locate("a"), Some(1));
    assert_eq!(tree.locate("ab"), Some(2));
    assert_eq!(tree.locate("ac"), Some(3));
    assert_eq!(tree.locate("abd"), Some(4));
    assert_eq!(tree.node(2).get_prefix(), "Ab");
    assert_eq!(tree.node(4).get_parent(), Some(2));
    assert_eq!(tree.node(1).get_children().len(), 2);
}
