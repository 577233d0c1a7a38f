use prefix_tree::entry::Entry;
use prefix_tree::node::Node;
use prefix_tree::procedures::get::{GetPrefixError, Output, SearchResult};
use prefix_tree::procedures::load::LoadError;
use prefix_tree::procedures::vote::VoteResult;
use prefix_tree::tree::Tree;

fn entry(name: &str, times: u64) -> Entry {
    Entry::new(name.to_string(), times)
}

fn listed(node: &Node) -> Vec<(String, u64)> {
    node.get_top()
        .iter()
        .map(|entry| (entry.get_name().to_string(), *entry.get_times()))
        .collect()
}

fn pairs(expected: &[(&str, u64)]) -> Vec<(String, u64)> {
    expected.iter().map(|(name, times)| (name.to_string(), *times)).collect()
}

fn node_with(suggestions: usize, entries: &[(&str, u64)]) -> Node {
    let mut node = Node::new(None, 0, String::new(), 0, suggestions);
    for (name, times) in entries {
        node.include_top(&entry(name, *times));
    }
    node
}

#[test]
fn a_new_node_is_bare() {
    let node = Node::new(Some(4), 7, "Ab".to_string(), 3, 5);
    assert_eq!(node.get_parent(), Some(4));
    assert_eq!(node.get_lock(), 7);
    assert_eq!(node.get_prefix(), "Ab");
    assert_eq!(*node.get_times(), 3);
    assert_eq!(node.get_suggestions(), 5);
    assert_eq!(node.get_entry().get_name(), "Ab");
    assert_eq!(*node.get_entry().get_times(), 3);
    assert!(node.is_name());
    assert!(node.get_top().is_empty());
    assert!(node.get_children().is_empty());
    assert_eq!(node.limit(), 0);
    assert_eq!(node.next_child('a'), None);
    assert!(!Node::new(None, 0, String::new(), 0, 5).is_name());
}

#[test]
fn the_count_can_be_set() {
    let mut node = Node::new(None, 0, "x".to_string(), 0, 1);
    *node.get_times_mut() = 8;
    assert_eq!(*node.get_times(), 8);
    assert_eq!(node.get_prefix(), "x");
    assert!(node.is_name());
}

#[test]
fn entries_are_kept_in_rank_order() {
    let node = node_with(5, &[("c", 3), ("a", 9), ("B", 3), ("d", 1)]);
    assert_eq!(listed(&node), pairs(&[("a", 9), ("B", 3), ("c", 3), ("d", 1)]));
    assert_eq!(node.limit(), 4);
}

#[test]
fn a_full_list_drops_its_last_entry_for_a_better_one() {
    let mut node = node_with(3, &[("a", 9), ("b", 7), ("c", 5)]);
    assert_eq!(node.limit(), 3);
    node.include_top(&entry("d", 8));
    assert_eq!(listed(&node), pairs(&[("a", 9), ("d", 8), ("b", 7)]));
    node.include_top(&entry("e", 10));
    assert_eq!(listed(&node), pairs(&[("e", 10), ("a", 9), ("d", 8)]));
    assert_eq!(node.limit(), 3);
}

#[test]
fn a_full_list_is_shut_to_what_does_not_outrank_its_last_entry() {
    let mut node = node_with(2, &[("a", 9), ("m", 7)]);
    node.include_top(&entry("c", 6));
    assert_eq!(listed(&node), pairs(&[("a", 9), ("m", 7)]));
    node.include_top(&entry("z", 7));
    assert_eq!(listed(&node), pairs(&[("a", 9), ("m", 7)]));
    node.include_top(&entry("M", 7));
    assert_eq!(listed(&node), pairs(&[("a", 9), ("m", 7)]));
    node.include_top(&entry("b", 7));
    assert_eq!(listed(&node), pairs(&[("a", 9), ("b", 7)]));
}

#[test]
fn a_cached_name_takes_the_new_count_and_keeps_its_spelling() {
    let mut node = node_with(3, &[("Ann", 9), ("bob", 7), ("cy", 5)]);
    node.include_top(&entry("BOB", 12));
    assert_eq!(listed(&node), pairs(&[("bob", 12), ("Ann", 9), ("cy", 5)]));
    node.include_top(&entry("ann", 6));
    assert_eq!(listed(&node), pairs(&[("bob", 12), ("Ann", 6), ("cy", 5)]));
    node.include_top(&entry("ann", 6));
    assert_eq!(listed(&node), pairs(&[("bob", 12), ("Ann", 6), ("cy", 5)]));
}

#[test]
fn a_list_bounded_by_one_keeps_the_best() {
    let mut node = node_with(1, &[("b", 2)]);
    node.include_top(&entry("a", 2));
    assert_eq!(listed(&node), pairs(&[("a", 2)]));
    node.include_top(&entry("c", 2));
    assert_eq!(listed(&node), pairs(&[("a", 2)]));
    node.include_top(&entry("c", 3));
    assert_eq!(listed(&node), pairs(&[("c", 3)]));
    assert_eq!(node.limit(), 1);
}

#[test]
fn a_bump_needs_the_name_with_the_count_before() {
    let mut node = node_with(3, &[("Ann", 9), ("bob", 8), ("cy", 5)]);
    assert!(node.update_top(&entry("BOB", 9)));
    assert_eq!(listed(&node), pairs(&[("Ann", 9), ("bob", 9), ("cy", 5)]));
    assert!(node.update_top(&entry("bob", 10)));
    assert_eq!(listed(&node), pairs(&[("bob", 10), ("Ann", 9), ("cy", 5)]));
    assert!(!node.update_top(&entry("bob", 10)));
    assert!(!node.update_top(&entry("bob", 12)));
    assert!(!node.update_top(&entry("dan", 6)));
    assert!(!node.update_top(&entry("cy", 0)));
    assert_eq!(listed(&node), pairs(&[("bob", 10), ("Ann", 9), ("cy", 5)]));
}

#[test]
fn a_repair_stops_at_a_list_whose_last_entry_has_more_votes() {
    let mut node = node_with(2, &[("a", 9), ("b", 7)]);
    assert!(!node.repair_top(&entry("c", 6)));
    assert_eq!(listed(&node), pairs(&[("a", 9), ("b", 7)]));
    assert!(node.repair_top(&entry("c", 7)));
    assert_eq!(listed(&node), pairs(&[("a", 9), ("b", 7)]));
    assert!(node.repair_top(&entry("c", 8)));
    assert_eq!(listed(&node), pairs(&[("a", 9), ("c", 8)]));
    assert!(node.repair_top(&entry("c", 9)));
    assert_eq!(listed(&node), pairs(&[("a", 9), ("c", 9)]));
    let mut bare = Node::new(None, 0, String::new(), 0, 2);
    assert!(bare.repair_top(&entry("c", 1)));
    assert_eq!(listed(&bare), pairs(&[("c", 1)]));
}

fn answer(node: &Node) -> Vec<(String, u64)> {
    node.collect_top()
        .iter()
        .map(|entry| (entry.get_name().to_string(), *entry.get_times()))
        .collect()
}

#[test]
fn a_name_answers_with_itself_first_and_never_twice() {
    let mut node = Node::new(None, 0, "ab".to_string(), 5, 3);
    node.include_top(&entry("AB", 5));
    node.include_top(&entry("abc", 9));
    node.include_top(&entry("abd", 1));
    assert_eq!(listed(&node), pairs(&[("abc", 9), ("AB", 5), ("abd", 1)]));
    assert_eq!(answer(&node), pairs(&[("ab", 5), ("abc", 9), ("abd", 1)]));
}

#[test]
fn a_name_that_its_list_misses_takes_the_place_of_the_last_entry() {
    let mut node = Node::new(None, 0, "ab".to_string(), 1, 2);
    node.include_top(&entry("abc", 9));
    node.include_top(&entry("abd", 8));
    assert_eq!(answer(&node), pairs(&[("ab", 1), ("abc", 9)]));
}

#[test]
fn what_is_no_name_answers_with_its_list() {
    let node = node_with(3, &[("abc", 9), ("abd", 8)]);
    assert_eq!(answer(&node), pairs(&[("abc", 9), ("abd", 8)]));
    assert_eq!(answer(&Node::new(None, 0, String::new(), 0, 3)), pairs(&[]));
}

#[test]
fn a_query_step_answers_at_the_end_of_the_prefix() {
    let node = node_with(3, &[("abc", 9)]);
    let mut counter = 2;
    match node.get_top_entries("ab", &mut counter) {
        Ok(SearchResult::Success(entries)) => assert_eq!(entries.len(), 1),
        _ => panic!("the prefix was consumed"),
    }
    assert_eq!(counter, 2);
    let mut counter = 1;
    match node.get_top_entries("ab", &mut counter) {
        Err(GetPrefixError::NotFound(prefix)) => assert_eq!(prefix, "ab"),
        _ => panic!("the node has no child"),
    }
    assert_eq!(counter, 2);
}

#[test]
fn the_last_step_of_a_query_holds_the_answer() {
    let found = SearchResult::Success(vec![entry("abc", 9), entry("abd", 8)]);
    let Output::Values(values) = found.into_output();
    assert_eq!(values.len(), 2);
    assert_eq!(values[0].get_name(), "abc");
    assert_eq!(*values[1].get_times(), 8);
}

#[test]
fn a_query_step_names_the_child_to_go_on_with() {
    let mut tree = Tree::new_empty(3);
    let child = tree.next_child_create(0, 'B');
    assert_eq!(child, 1);
    assert_eq!(tree.next_child_create(0, 'b'), 1);
    let grandchild = tree.next_child_create(child, 'c');
    assert_eq!(grandchild, 2);
    assert_eq!(tree.node(grandchild).get_prefix(), "Bc");
    assert_eq!(tree.node(grandchild).get_parent(), Some(1));
    assert_eq!(tree.node(grandchild).get_lock(), 2);
    assert_eq!(tree.node(child).get_children().len(), 1);
    assert_eq!(tree.get_node().get_children().len(), 1);
    assert_eq!(tree.get_node().get_children().get(&('b' as u32)), Some(&1));
    assert_eq!(tree.node(child).get_prefix(), "B");
    assert_eq!(*tree.node(child).get_times(), 0);
    assert_eq!(tree.node(child).get_suggestions(), 3);
    assert!(tree.node(grandchild).get_children().is_empty());
    assert!(!tree.node(grandchild).is_name());
    let mut counter = 0;
    match tree.get_node().get_top_entries("bC", &mut counter) {
        Ok(SearchResult::Next(next)) => assert_eq!(next, child),
        _ => panic!("the root has a child for b"),
    }
    assert_eq!(counter, 1);
    match tree.node(child).get_top_entries("bC", &mut counter) {
        Ok(SearchResult::Next(next)) => assert_eq!(next, grandchild),
        _ => panic!("the child has a child for c"),
    }
    assert_eq!(counter, 2);
}

#[test]
fn a_load_step_caches_the_entry_and_leads_on_or_sets_the_count() {
    let mut node = Node::new(None, 0, String::new(), 0, 3);
    let loaded = entry("Hi", 4);
    let mut counter = 0;
    match node.load(&loaded, &mut counter) {
        Ok(Some(character)) => assert_eq!(character, 'H'),
        _ => panic!("the name goes on"),
    }
    assert_eq!(counter, 1);
    assert_eq!(listed(&node), pairs(&[("Hi", 4)]));
    assert_eq!(*node.get_times(), 0);
    let mut last = Node::new(Some(1), 2, "Hi".to_string(), 0, 3);
    let mut counter = 2;
    assert!(matches!(last.load(&loaded, &mut counter), Ok(None)));
    assert_eq!(counter, 2);
    assert_eq!(*last.get_times(), 4);
    assert_eq!(listed(&last), pairs(&[("Hi", 4)]));
}

#[test]
fn a_load_step_refuses_an_empty_name() {
    let mut node = Node::new(None, 0, String::new(), 0, 3);
    let mut counter = 0;
    match node.load(&entry("", 4), &mut counter) {
        Err(LoadError::EntryNameIsEmpty(refused, depth)) => {
            assert_eq!(*refused.get_times(), 4);
            assert_eq!(depth, 0);
        }
        _ => panic!("an empty name was loaded"),
    }
    assert!(node.get_top().is_empty());
}

#[test]
fn a_vote_step_counts_at_the_end_of_the_name() {
    let mut node = Node::new(None, 0, "Hi".to_string(), 4, 3);
    let mut counter = 2;
    match node.vote("hi", &mut counter) {
        VoteResult::Success(entry) => {
            assert_eq!(entry.get_name(), "Hi");
            assert_eq!(*entry.get_times(), 5);
        }
        _ => panic!("the node is a name"),
    }
    assert_eq!(*node.get_times(), 5);
    let mut idle = Node::new(None, 0, "Hi".to_string(), 0, 3);
    assert!(matches!(idle.vote("hi", &mut counter), VoteResult::NotFound));
    assert_eq!(*idle.get_times(), 0);
    let mut counter = 1;
    assert!(matches!(idle.vote("hi", &mut counter), VoteResult::NotFound));
    assert_eq!(counter, 1);
}
