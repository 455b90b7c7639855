use minitar::search::{search, search_case_insensitive};

#[test]
fn one_result() {
    let query = "duct";
    let contents = "\
Rust:
safe, fast, productive.
Pick three.
Duct tape.";

    assert_eq!(vec!["safe, fast, productive."], search(query, contents));
}

#[test]
fn case_insensitive() {
    let query = "rUsT";
    let contents = "\
Rust:
safe, fast, productive.
Pick three.
Trust me.";

    assert_eq!(
        vec!["Rust:", "Trust me."],
        search_case_insensitive(query, contents)
    );
}

#[test]
fn no_match_gives_nothing() {
    let results = search("absent", "one line\nanother line");
    assert!(results.is_empty());
}

#[test]
fn crlf_line_endings_are_stripped() {
    let results = search("line", "first line\r\nsecond\r\nthird line\r\n");
    assert_eq!(vec!["first line", "third line"], results);
}

#[test]
fn empty_query_matches_every_line() {
    let results = search("", "a\nb");
    assert_eq!(vec!["a", "b"], results);
}

#[test]
fn case_insensitive_folds_both_sides() {
    // fails if the lowercase step handed its input back unchanged
    let results = search_case_insensitive("WIDGET", "widget works\nnothing here");
    assert_eq!(vec!["widget works"], results);
}
