use minigrep::{search, search_case_insensitive};

#[test]
fn one_result() {
    let query = "poised";
    let contents = "\
In the twenty-first century,
no pop star was as poised,
as polished, or as generally fierce as Beyoncé. She scored";

    assert_eq!(vec!["no pop star was as poised,"], search(query, contents));
}

#[test]
fn case_insensitive() {
    let query = "He";
    let contents = "\
In the twenty-first century,
no pop star was as poised,
as polished, or as generally fierce as Beyoncé.
She scored";

    assert_eq!(
        vec![
            "In the twenty-first century,",
            "as polished, or as generally fierce as Beyoncé.",
            "She scored"
        ],
        search_case_insensitive(query, contents)
    );
}

#[test]
fn empty_query_returns_every_line() {
    let contents = "first\nsecond\nthird";
    assert_eq!(vec!["first", "second", "third"], search("", contents));
}

#[test]
fn empty_corpus_returns_nothing() {
    let empty: Vec<&str> = Vec::new();
    assert_eq!(empty, search("anything", ""));
    assert_eq!(empty, search_case_insensitive("anything", ""));
}

#[test]
fn query_longer_than_every_line() {
    let empty: Vec<&str> = Vec::new();
    assert_eq!(empty, search("a needle far too long", "short\nlines\nonly"));
}

#[test]
fn line_with_repeated_occurrences_appears_once() {
    assert_eq!(vec!["aaaa"], search("aa", "aaaa\nbbbb"));
}

#[test]
fn results_keep_corpus_order() {
    let contents = "alpha one\nbeta\nalpha two\ngamma\nalpha three";
    assert_eq!(
        vec!["alpha one", "alpha two", "alpha three"],
        search("alpha", contents)
    );
}

#[test]
fn case_insensitive_result_is_superset_of_exact() {
    let query = "Rust";
    let contents = "Rust is fast\nrust never sleeps\nTrust me\nnothing here";
    let exact = search(query, contents);
    let folded = search_case_insensitive(query, contents);
    for line in &exact {
        assert!(folded.contains(line));
    }
    assert_eq!(vec!["Rust is fast"], exact);
    assert_eq!(vec!["Rust is fast", "rust never sleeps", "Trust me"], folded);
}

#[test]
fn folding_applies_to_query_and_line() {
    let contents = "rust is great\nTrust me\nC only";
    assert_eq!(
        vec!["rust is great", "Trust me"],
        search_case_insensitive("RUST", contents)
    );
}

#[test]
fn folding_is_ascii_only() {
    // Case folding covers the ASCII letters alone: an accented capital is
    // not folded, so it does not match its accented lower-case form.
    let contents = "BEYONCÉ IS FIERCE\nBeyoncé sang";
    assert_eq!(
        vec!["Beyoncé sang"],
        search_case_insensitive("beyoncé", contents)
    );
}

// The next four tests pin the line-splitting rule: lines are separated by
// '\n', a '\r' directly before a separator is dropped, a trailing separator
// opens no empty final line, and a '\r' on its own separates nothing.

#[test]
fn trailing_newline_opens_no_extra_line() {
    assert_eq!(vec!["a", "b"], search("", "a\nb\n"));
}

#[test]
fn carriage_return_before_newline_is_dropped() {
    assert_eq!(vec!["one", "two"], search("", "one\r\ntwo"));
    assert_eq!(vec!["one"], search("one", "one\r\ntwo"));
}

#[test]
fn lone_carriage_return_separates_nothing() {
    assert_eq!(vec!["a\rb"], search("", "a\rb"));
}

#[test]
fn empty_line_between_separators_is_kept() {
    assert_eq!(vec!["a", "", "b"], search("", "a\n\nb"));
}
