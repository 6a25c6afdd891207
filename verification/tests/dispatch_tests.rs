use iron_mockside::dispatch::{dispatch, find_mock, find_mock_index, ServerState};
use iron_mockside::model::{default_mock, Command, Mock, ANY_PROFILE, DEFAULT_PROFILE};
use iron_mockside::parser;
use iron_mockside::validate;

fn rules_of(text: &str) -> Vec<Mock> {
    parser::process_config_file(text).unwrap().rules
}

fn files(names: &[&str]) -> Vec<String> {
    names.iter().map(|name| name.to_string()).collect()
}

#[test]
fn first_rule_that_matches_answers() {
    let config = rules_of("GET /a\nA.http\n");
    let mut state = ServerState::new(0);
    let response = dispatch("GET /a HTTP/1.1\r\n\r\n", &config, &mut state, 0);
    assert_eq!(Some(0), response.matched);
    assert_eq!(files(&["A.http"]), response.files);
    assert_eq!(None, response.pause);
    assert_eq!(ServerState::new(0), state);
}

#[test]
fn no_match_gets_the_default_rule() {
    let config = rules_of("GET /a\nA.http\n");
    let mut state = ServerState::new(0);
    let response = dispatch("GET /b HTTP/1.1\r\n\r\n", &config, &mut state, 0);
    assert_eq!(None, response.matched);
    assert_eq!(files(&["404.html"]), response.files);
}

#[test]
fn default_rule_serves_404_in_any_profile() {
    let rule = default_mock();
    assert_eq!("404.html", rule.filenames);
    assert!(rule.patterns.is_empty());
    assert_eq!(ANY_PROFILE, rule.profile);
    assert_eq!(ANY_PROFILE, rule.destination_profile);
    assert_eq!(Command::Serve, rule.command);
    assert_eq!(None, rule.time);
    assert_eq!(None, rule.delay);
    assert_eq!(0, rule.line_number);
}

#[test]
fn reset_moves_the_time_origin() {
    let config = rules_of("/reset\n`reset; reset.http\n\n/poll\n`after 1000; late.http\n");
    let mut state = ServerState::new(0);

    let response = dispatch("GET /poll", &config, &mut state, 0);
    assert_eq!(None, response.matched);
    assert_eq!(files(&["404.html"]), response.files);

    let response = dispatch("GET /reset", &config, &mut state, 0);
    assert_eq!(Some(0), response.matched);
    assert_eq!(files(&["reset.http"]), response.files);
    assert_eq!(0, state.time_origin);

    let response = dispatch("GET /poll", &config, &mut state, 500);
    assert_eq!(None, response.matched);
    assert_eq!(files(&["404.html"]), response.files);

    let response = dispatch("GET /poll", &config, &mut state, 1500);
    assert_eq!(Some(1), response.matched);
    assert_eq!(files(&["late.http"]), response.files);
}

#[test]
fn reset_closes_time_gates_until_the_wait_is_over() {
    let config = rules_of("/reset\n`reset; reset.http\n\n/poll\n`after 1000; late.http\n");
    let mut state = ServerState::new(0);
    assert_eq!(Some(1), dispatch("GET /poll", &config, &mut state, 5000).matched);
    assert_eq!(Some(0), dispatch("GET /reset", &config, &mut state, 5000).matched);
    assert_eq!(5000, state.time_origin);
    assert_eq!(None, dispatch("GET /poll", &config, &mut state, 5000).matched);
    assert_eq!(None, dispatch("GET /poll", &config, &mut state, 5999).matched);
    assert_eq!(Some(1), dispatch("GET /poll", &config, &mut state, 6000).matched);
}

#[test]
fn switch_makes_scoped_rules_active() {
    let config = rules_of("/x\n`[admin]; admin.http\n\n/login\n`profile [admin]; switched.http\n");
    let mut state = ServerState::new(0);

    let response = dispatch("GET /x", &config, &mut state, 0);
    assert_eq!(None, response.matched);
    assert_eq!(files(&["404.html"]), response.files);
    assert_eq!(DEFAULT_PROFILE, state.current_profile);

    let response = dispatch("GET /login", &config, &mut state, 0);
    assert_eq!(Some(1), response.matched);
    assert_eq!(files(&["switched.http"]), response.files);
    assert_eq!(1, state.current_profile);

    let response = dispatch("GET /x", &config, &mut state, 0);
    assert_eq!(Some(0), response.matched);
    assert_eq!(files(&["admin.http"]), response.files);
}

#[test]
fn switch_rules_are_active_in_every_profile() {
    let config = rules_of(
        "/to_b\n`profile [b]; b.http\n\n/to_default\n`profile [default]; d.http\n\n/x\n`[b]; x.http\n",
    );
    let mut state = ServerState::new(0);
    assert_eq!(Some(0), dispatch("/to_b", &config, &mut state, 0).matched);
    assert_eq!(1, state.current_profile);
    assert_eq!(Some(1), dispatch("/to_default", &config, &mut state, 0).matched);
    assert_eq!(DEFAULT_PROFILE, state.current_profile);
    assert_eq!(None, dispatch("/x", &config, &mut state, 0).matched);
}

#[test]
fn scoped_rule_never_answers_in_another_profile() {
    let config = rules_of("/x\n`[admin]; admin.http\n\n/login\n`profile [admin]; switched.http\n");
    for profile in [-1, 0, 2, 3] {
        assert_eq!(None, find_mock_index("GET /x", &config, 0, 0, profile));
    }
    assert_eq!(Some(0), find_mock_index("GET /x", &config, 0, 0, 1));
}

#[test]
fn match_is_the_same_on_every_call() {
    let config = rules_of("a\nA.http\n\nb\nB.http\n");
    let first = find_mock_index("a b", &config, 0, 10, 0);
    let second = find_mock_index("a b", &config, 0, 10, 0);
    assert_eq!(Some(0), first);
    assert_eq!(first, second);
    assert_eq!(find_mock("a b", &config, 0, 10, 0), find_mock("a b", &config, 0, 10, 0));
}

#[test]
fn find_mock_returns_the_rule_itself() {
    let config = rules_of("a\nA.http\n\nb\nB.http\n");
    let found = find_mock("only b", &config, 0, 0, 0).unwrap();
    assert_eq!("B.http", found.filenames);
    assert_eq!(4, found.line_number);
    assert!(find_mock("neither", &config, 0, 0, 0).is_none());
}

#[test]
fn rule_that_matches_keeps_matching_later() {
    let config = rules_of("/poll\n`after 1000; late.http\n");
    assert_eq!(None, find_mock_index("/poll", &config, 100, 1099, 0));
    for now in [1100, 1101, 5000, u64::MAX] {
        assert_eq!(Some(0), find_mock_index("/poll", &config, 100, now, 0));
    }
}

#[test]
fn clock_before_the_origin_counts_as_no_time() {
    let config = rules_of("/poll\n`after 1; late.http\n\n/zero\n`after 0; zero.http\n");
    assert_eq!(None, find_mock_index("/poll", &config, 100, 50, 0));
    assert_eq!(Some(1), find_mock_index("/zero", &config, 100, 50, 0));
}

#[test]
fn every_pattern_must_occur() {
    let config = rules_of("POST /login\nContent-Length: 42\nok.http\n");
    assert_eq!(None, find_mock_index("POST /login HTTP/1.1", &config, 0, 0, 0));
    assert_eq!(
        Some(0),
        find_mock_index("POST /login HTTP/1.1\r\nContent-Length: 42\r\n", &config, 0, 0, 0)
    );
}

#[test]
fn delay_is_handed_out_and_changes_nothing() {
    let config = rules_of("POST /login\n`delay 500; login-ok.http\n");
    let mut state = ServerState::new(7);
    let response = dispatch("POST /login", &config, &mut state, 10);
    assert_eq!(Some(500), response.pause);
    assert_eq!(files(&["login-ok.http"]), response.files);
    assert_eq!(ServerState::new(7), state);
}

#[test]
fn apply_does_what_the_command_says() {
    let config = rules_of(
        "a\n`profile [p]; a.http\n\nb\n`reset; b.http\n\nc\n`delay 5; c.http\n\nd\n`after 5; d.http\n\ne\ne.http\n",
    );
    let start = ServerState { current_profile: 0, time_origin: 3, connection_counter: 9 };

    let mut state = start;
    assert_eq!(None, state.apply(&config[0], 100));
    assert_eq!(ServerState { current_profile: 1, ..start }, state);

    let mut state = start;
    assert_eq!(None, state.apply(&config[1], 100));
    assert_eq!(ServerState { time_origin: 100, ..start }, state);

    let mut state = start;
    assert_eq!(Some(5), state.apply(&config[2], 100));
    assert_eq!(start, state);

    let mut state = start;
    assert_eq!(None, state.apply(&config[3], 100));
    assert_eq!(start, state);

    let mut state = start;
    assert_eq!(None, state.apply(&config[4], 100));
    assert_eq!(start, state);
}

#[test]
fn connections_are_counted() {
    let mut state = ServerState::new(0);
    assert_eq!(1, state.next_connection());
    assert_eq!(2, state.next_connection());
    state.connection_counter = usize::MAX;
    assert_eq!(usize::MAX, state.next_connection());
    assert_eq!(0, state.current_profile);
}

#[test]
fn every_rule_of_an_accepted_list_can_answer() {
    let text = "/admin\n`[admin] ; admin-home.http\n\n/login_as_admin\n`profile [admin]; switched.http\n\nGET /health\n200.http\n\nPOST /login\nContent-Length: 42\n`delay 500; login-ok.http\n";
    let config = rules_of(text);
    assert!(validate::verify_mocks_dont_shadow_each_other(&config));
    for (position, rule) in config.iter().enumerate() {
        let mut request = String::new();
        for pattern in &rule.patterns {
            request.push_str(pattern);
            request.push('\n');
        }
        let now = rule.time.unwrap_or(0);
        assert_eq!(Some(position), find_mock_index(&request, &config, 0, now, rule.profile));
    }
}

#[test]
fn rule_behind_one_with_an_earlier_wait_never_answers() {
    let config = rules_of("a\nfirst.http\n\na\n`after 1000; late.http\n");
    assert!(validate::verify_mocks_dont_shadow_each_other(&config));
    for now in [0, 999, 1000, 5000] {
        assert_eq!(Some(0), find_mock_index("a", &config, 0, now, 0));
    }
}
