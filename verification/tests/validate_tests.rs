use iron_mockside::model::{Command, Mock, ANY_PROFILE, DEFAULT_PROFILE};
use iron_mockside::parser;
use iron_mockside::validate::{
    missing_files, referenced_files, referenced_profiles, response_files, shadowing_pairs,
    unreferenced_profiles,
    validate, verify_all_profiles_are_referenced, verify_mocks_dont_shadow_each_other,
    verify_response_files_exist,
};

fn rules_of(text: &str) -> Vec<Mock> {
    parser::process_config_file(text).unwrap().rules
}

fn files(names: &[&str]) -> Vec<String> {
    names.iter().map(|name| name.to_string()).collect()
}

#[test]
fn second_rule_with_the_same_patterns_is_shadowed() {
    let config = rules_of("GET /a\n# comment\nA.http\n\nGET /a\nB.http");
    assert_eq!(2, config.len());
    assert!(!verify_mocks_dont_shadow_each_other(&config));
    assert_eq!(vec![(0, 1)], shadowing_pairs(&config));
    assert!(!validate(&config, &files(&["A.http", "B.http"])));
}

#[test]
fn profile_that_nothing_switches_to_is_rejected() {
    let config = rules_of("/x\n`[ghost]; ghost.http\n");
    assert!(!verify_all_profiles_are_referenced(&config));
    assert_eq!(vec![0], unreferenced_profiles(&config));
    assert!(!validate(&config, &files(&["ghost.http"])));
}

#[test]
fn missing_file_is_rejected() {
    let config = rules_of("GET /a\nmissing.html\n");
    assert!(!verify_response_files_exist(&config, &files(&[])));
    let missing = missing_files(&config, &files(&[]));
    assert_eq!(1, missing.len());
    assert_eq!("missing.html", missing[0].file);
    assert_eq!(1, missing[0].line_number);
    assert!(!validate(&config, &files(&[])));
    assert!(validate(&config, &files(&["missing.html"])));
}

#[test]
fn each_missing_file_is_reported_once_with_its_first_line() {
    let config = rules_of("a\none.http; two.http\n\nb\ntwo.http;three.http;one.http\n\nc\n`reset; one.http\n");
    let missing = missing_files(&config, &files(&["two.http"]));
    let found: Vec<(String, usize)> =
        missing.into_iter().map(|mention| (mention.file, mention.line_number)).collect();
    assert_eq!(vec![("one.http".to_string(), 1), ("three.http".to_string(), 4)], found);
    assert!(!verify_response_files_exist(&config, &files(&["two.http"])));
    assert!(verify_response_files_exist(&config, &files(&["three.http", "one.http", "two.http"])));
}

#[test]
fn referenced_files_lists_each_file_once() {
    let config = rules_of("a\none.http; two.http\n\nb\ntwo.http;three.http;one.http\n");
    let found: Vec<(String, usize)> = referenced_files(&config)
        .into_iter()
        .map(|mention| (mention.file, mention.line_number))
        .collect();
    assert_eq!(
        vec![
            ("one.http".to_string(), 1),
            ("two.http".to_string(), 1),
            ("three.http".to_string(), 4)
        ],
        found
    );
}

#[test]
fn response_files_are_the_tokens_after_the_directive() {
    assert_eq!(files(&["headers", "body"]), response_files("headers;body"));
    assert_eq!(files(&["headers", "body"]), response_files(" headers ; ; body ;"));
    assert_eq!(files(&["reset.http"]), response_files("`reset; reset.http"));
    assert_eq!(files(&["a.http", "b.http"]), response_files("`[admin] after 10;a.http;b.http"));
    assert_eq!(files(&[]), response_files("`delay 5;"));
    assert_eq!(files(&[]), response_files(""));
    assert_eq!(files(&[]), response_files(" ; ;"));
    assert_eq!(files(&["b]", "x"]), response_files("`[a;b]; x"));
    assert_eq!(files(&["404.html"]), response_files("404.html"));
}

#[test]
fn validation_gives_the_same_verdict_twice() {
    let good = rules_of("GET /a\nA.http\n\nGET /b\nB.http\n");
    let bad = rules_of("GET /a\nA.http\n\nGET /a\nB.http\n");
    let present = files(&["A.http", "B.http"]);
    assert!(validate(&good, &present));
    assert_eq!(validate(&good, &present), validate(&good, &present));
    assert!(!validate(&bad, &present));
    assert_eq!(validate(&bad, &present), validate(&bad, &present));
}

#[test]
fn default_and_any_need_no_switch() {
    let config = rules_of("a\n`[default]; a.http\n\nb\n`[any]; b.http\n\nc\nc.http\n");
    assert!(verify_all_profiles_are_referenced(&config));
    assert!(unreferenced_profiles(&config).is_empty());
}

#[test]
fn all_unreferenced_rules_are_listed() {
    let config = rules_of(
        "a\n`[one]; a.http\n\nb\n`[two] after 5; b.http\n\nc\n`profile [two]; c.http\n\nd\n`[three] delay 5; d.http\n",
    );
    assert_eq!(vec![0, 3], unreferenced_profiles(&config));
    assert!(!verify_all_profiles_are_referenced(&config));
}

#[test]
fn rule_without_patterns_shadows_what_follows_in_its_profile() {
    let mut config = rules_of("GET /a\nA.http\n\nGET /b\n`[p]; B.http\n");
    config.insert(
        0,
        Mock {
            filenames: "all.http".to_string(),
            patterns: Vec::new(),
            time: None,
            delay: None,
            profile: DEFAULT_PROFILE,
            destination_profile: ANY_PROFILE,
            command: Command::Serve,
            line_number: 0,
        },
    );
    assert_eq!(vec![(0, 1)], shadowing_pairs(&config));
}

#[test]
fn empty_list_is_accepted() {
    let config: Vec<Mock> = Vec::new();
    assert!(validate(&config, &files(&[])));
    assert!(referenced_files(&config).is_empty());
}

#[test]
fn referenced_profiles_are_the_destinations_of_switches() {
    let config = rules_of(
        "a\n`[one]; a.http\n\nb\n`profile [two]; b.http\n\nc\n`profile [default]; c.http\n\nd\n`profile [two]; d.http\n",
    );
    let referenced = referenced_profiles(&config);
    assert_eq!(2, referenced.len());
    assert!(referenced.contains(&2));
    assert!(referenced.contains(&0));
    assert!(!referenced.contains(&1));
    assert!(!referenced.contains(&-1));
    assert!(referenced_profiles(&Vec::new()).is_empty());
}
