use prefix_tree::endpoints::{get_entries, get_top_entries, parse_name, vote, Input, VoteOutput};
use prefix_tree::entry::Entry;
use prefix_tree::procedures::get::Output;
use prefix_tree::procedures::vote::VoteResult;
use prefix_tree::tree::Tree;
use std::cmp::Ordering;
use warp::http::StatusCode;

const RECOMMENDATIONS: usize = 10;

fn entries() -> Vec<Entry> {
    Vec::from([
        ("Alice", 300).into(),
        ("abc", 100).into(),
        ("aaron", 50).into(),
        ("loki", 40).into(),
        ("uthred", 30).into(),
        ("ANN", 10).into(),
        ("harald hardrada", 10).into(),
        ("ISabelLa", 10).into(),
        ("Shiro", 10).into(),
        ("sigvald", 10).into(),
        ("oliver", 5).into(),
        ("Olivia", 4).into(),
        ("Olly", 3).into(),
        ("Orianna", 2).into(),
        ("Orpheus", 1).into(),
    ])
}

fn new_tree() -> Tree {
    let mut tree: Tree = Tree::new_empty(RECOMMENDATIONS);

    entries()
        .iter()
        .for_each(|entry| tree.include_entry(entry.to_owned()).unwrap());

    tree
}

fn assert_entries(tree: &Tree, prefix: &str, expected: Vec<Entry>) {
    let Output::Values(results) = tree.get_top(prefix).unwrap();
    let mut valid: bool = expected.len().eq(&results.len());

    for i in 0..(expected.len()) {
        if expected[i].cmp(&results[i]).is_ne() {
            valid = false;
            break;
        }
    }

    if !valid {
        println!("Prefix: {prefix}");
        println!("Length(expected): {}", expected.len());
        println!("Length(Retrieved): {}", results.len());
        println!("\n\nAcquired/Expected:");
        for (index, result) in results.iter().enumerate() {
            let comparison: &str = match result.cmp(&expected[index]) {
                Ordering::Equal => "=",
                Ordering::Greater => ">",
                Ordering::Less => "<",
            };

            println!("{result:?} {comparison} {:?}", expected[index]);
        }

        panic!("Failed comparison between entries.")
    }
}

#[test]
fn get_entries_success() {
    let tree: Tree = new_tree();

    let expected: Vec<Entry> = Vec::from(&entries()[0..RECOMMENDATIONS]);

    assert_entries(&tree, "", expected);

    let prefix: &str = "a";
    let expected: Vec<Entry> = [
        ("Alice", 300).into(),
        ("abc", 100).into(),
        ("aaron", 50).into(),
        ("ann", 10).into(),
    ]
    .to_vec();

    assert_entries(&tree, prefix, expected);

    let prefix: &str = "harald hardrada";
    let expected: Vec<Entry> = [("harald hardrada", 10).into()].to_vec();

    assert_entries(&tree, prefix, expected);

    let prefix: &str = "abc";
    let expected: Vec<Entry> = [("abc", 100).into()].to_vec();

    assert_entries(&tree, prefix, expected);

    let prefix: &str = "o";
    let expected: Vec<Entry> = [
        ("oliver", 5).into(),
        ("Olivia", 4).into(),
        ("Olly", 3).into(),
        ("Orianna", 2).into(),
        ("Orpheus", 1).into(),
    ]
    .to_vec();

    assert_entries(&tree, prefix, expected);

    let prefix: &str = "ol";
    let expected: Vec<Entry> = [
        ("oliver", 5).into(),
        ("Olivia", 4).into(),
        ("Olly", 3).into(),
    ]
    .to_vec();

    assert_entries(&tree, prefix, expected);

    let prefix: &str = "or";
    let expected: Vec<Entry> = [("Orianna", 2).into(), ("Orpheus", 1).into()].to_vec();

    assert_entries(&tree, prefix, expected);
}

fn new_success() -> VoteResult {
    let entry: Entry = Entry::new("AName".into(), 42);
    let success: VoteResult = VoteResult::Success(entry);

    success
}

#[test]
fn post_post_result_not_found() {
    let not_found: VoteResult = VoteResult::NotFound;

    let response: VoteOutput = not_found.into_output();

    // Status code 400
    let expected_status_code = StatusCode::BAD_REQUEST;
    assert_eq!(response.status(), expected_status_code.as_u16());
}

#[test]
fn post_post_result_success() {
    let entry: Entry = Entry::new("AName".into(), 32);
    let success: VoteResult = VoteResult::Success(entry);

    let response: VoteOutput = success.into_output();

    // Status code 201
    let expected_status_code = StatusCode::CREATED;
    assert_eq!(response.status(), expected_status_code.as_u16());
}

#[test]
fn post_not_found_is_400() {
    let not_found: VoteResult = VoteResult::NotFound;
    let response: VoteOutput = not_found.into_output();

    assert_eq!(response.status(), StatusCode::BAD_REQUEST.as_u16());
}

#[test]
fn post_success_is_201() {
    let success = new_success();
    let response: VoteOutput = success.into_output();

    assert_eq!(response.status(), StatusCode::CREATED.as_u16());
}

#[test]
fn mod_post_result_not_found() {
    let not_found: VoteResult = VoteResult::NotFound;

    let response: VoteOutput = not_found.into_output();

    // Status code 400
    let expected_status_code = StatusCode::BAD_REQUEST;
    assert_eq!(response.status(), expected_status_code.as_u16());
    assert!(matches!(response, VoteOutput::BadRequest));
}

#[test]
fn mod_post_result_success() {
    let entry: Entry = Entry::new("AName".into(), 32);
    let success: VoteResult = VoteResult::Success(entry);

    let response: VoteOutput = success.into_output();

    // Status code 201
    let expected_status_code = StatusCode::CREATED;
    assert_eq!(response.status(), expected_status_code.as_u16());
    match response {
        VoteOutput::Created(entry) => {
            assert_eq!(entry.get_name(), "AName");
            assert_eq!(*entry.get_times(), 32);
        }
        VoteOutput::BadRequest => panic!("a counted vote has an entry"),
    }
}

#[test]
fn mod_not_found_is_400() {
    let not_found: VoteResult = VoteResult::NotFound;
    let response: VoteOutput = not_found.into_output();

    assert_eq!(response.status(), 400);
}

#[test]
fn mod_success_is_201() {
    let success = new_success();
    let response: VoteOutput = success.into_output();

    assert_eq!(response.status(), 201);
}

fn names(output: Output) -> Vec<(String, u64)> {
    let Output::Values(values) = output;
    values
        .iter()
        .map(|entry| (entry.get_name().to_string(), *entry.get_times()))
        .collect()
}

#[test]
fn a_path_is_percent_decoded() {
    assert_eq!(parse_name("harald%20hardrada".to_string()), "harald hardrada");
    assert_eq!(parse_name("%41bc".to_string()), "Abc");
    assert_eq!(parse_name("%6f%6C".to_string()), "ol");
    assert_eq!(parse_name("h%C3%A9".to_string()), "h\u{e9}");
    assert_eq!(parse_name("plain".to_string()), "plain");
    assert_eq!(parse_name(String::new()), "");
    assert_eq!(parse_name("20%2520".to_string()), "20%20");
}

#[test]
fn a_path_that_does_not_decode_is_taken_as_it_is() {
    assert_eq!(parse_name("100%".to_string()), "100%");
    assert_eq!(parse_name("a%2".to_string()), "a%2");
    assert_eq!(parse_name("a%zzb".to_string()), "a%zzb");
    assert_eq!(parse_name("%%20".to_string()), "%%20");
    assert_eq!(parse_name("bad%FFtext".to_string()), "bad%FFtext");
    assert_eq!(parse_name("%C3".to_string()), "%C3");
}

#[test]
fn a_query_decodes_its_path_and_answers_for_the_name() {
    let tree = new_tree();
    assert_eq!(
        names(get_entries("harald%20h".to_string(), &tree)),
        vec![("harald hardrada".to_string(), 10)]
    );
    assert_eq!(
        names(get_entries("%4Fl".to_string(), &tree)),
        vec![("oliver".to_string(), 5), ("Olivia".to_string(), 4), ("Olly".to_string(), 3)]
    );
}

#[test]
fn an_unknown_prefix_has_the_empty_answer() {
    let tree = new_tree();
    assert_eq!(names(get_entries("xyz".to_string(), &tree)), vec![]);
    assert_eq!(names(get_entries("o%".to_string(), &tree)), vec![]);
    let empty = Tree::new_empty(3);
    assert_eq!(names(get_entries("xyz".to_string(), &empty)), vec![]);
    assert_eq!(names(get_top_entries(&empty)), vec![]);
    assert_eq!(names(Output::default()), vec![]);
}

#[test]
fn the_empty_path_asks_for_the_best_of_the_tree() {
    let tree = new_tree();
    let best = names(get_top_entries(&tree));
    assert_eq!(best.len(), RECOMMENDATIONS);
    assert_eq!(best[0], ("Alice".to_string(), 300));
    assert_eq!(best[9], ("sigvald".to_string(), 10));
    assert_eq!(best, names(get_entries(String::new(), &tree)));
}

#[test]
fn a_vote_request_is_counted_or_refused() {
    let mut tree = new_tree();
    match vote(Input { name: "olly".to_string() }, &mut tree) {
        VoteOutput::Created(entry) => {
            assert_eq!(entry.get_name(), "olly");
            assert_eq!(*entry.get_times(), 4);
        }
        VoteOutput::BadRequest => panic!("the vote was refused"),
    }
    let refused = vote(Input { name: "nobody".to_string() }, &mut tree);
    assert!(matches!(refused, VoteOutput::BadRequest));
    assert_eq!(refused.status(), 400);
    let listed = names(get_entries("ol".to_string(), &tree));
    assert_eq!(
        listed,
        vec![("oliver".to_string(), 5), ("Olivia".to_string(), 4), ("Olly".to_string(), 4)]
    );
}
