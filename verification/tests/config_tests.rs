use minigrep::{run_search, Config};

fn args(list: &[&str]) -> Vec<String> {
    list.iter().map(|s| s.to_string()).collect()
}

#[test]
fn too_few_arguments_is_an_error() {
    let two = args(&["prog", "query"]);
    let r = Config::new(&two, false);
    assert_eq!(r.err(), Some("not enough args were passed in by user"));

    let none = args(&[]);
    assert!(Config::new(&none, false).is_err());
}

#[test]
fn three_arguments_build_a_request() {
    let three = args(&["prog", "needle", "haystack.txt"]);
    let config = Config::new(&three, false).unwrap();
    assert_eq!(config.query, "needle");
    assert_eq!(config.filename, "haystack.txt");
    assert!(config.case_sensitive);
}

#[test]
fn environment_toggle_disables_case_sensitivity() {
    let three = args(&["prog", "needle", "haystack.txt"]);
    let config = Config::new(&three, true).unwrap();
    assert!(!config.case_sensitive);
}

#[test]
fn run_search_follows_the_request_policy() {
    let contents = "Rust\nrust";
    let three = args(&["prog", "rust", "unused.txt"]);

    let sensitive = Config::new(&three, false).unwrap();
    assert_eq!(vec!["rust"], run_search(&sensitive, contents));

    let insensitive = Config::new(&three, true).unwrap();
    assert_eq!(vec!["Rust", "rust"], run_search(&insensitive, contents));
}
