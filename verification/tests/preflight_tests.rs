use iron_mockside::preflight::{find_empty_line, preflight, KmpTables, Preflight};

#[test]
fn has_empty_line() {
    let complete = b"head\r\n\r\nbody";
    assert!(find_empty_line(&complete[..]));
    let headers = b"head";
    assert!(!find_empty_line(&headers[..]));
    let headers_end = b"head\r\n\r\n";
    assert!(find_empty_line(&headers_end[..]));
    let complete_empty = b"head\r\n\r\n\r\n";
    assert!(find_empty_line(&complete_empty[..]));
}

#[test]
fn get_is_dispatched_at_once() {
    let tables = KmpTables::new();
    assert_eq!(Preflight::Dispatch, preflight(b"GET /a HTTP/1.1\r\n\r\n", &tables));
    assert_eq!(Preflight::Dispatch, preflight(b"PO", &tables));
}

#[test]
fn post_with_body_is_dispatched() {
    let tables = KmpTables::new();
    let request = b"POST /a HTTP/1.1\r\nContent-Length: 3\r\n\r\nabc";
    assert_eq!(Preflight::Dispatch, preflight(request, &tables));
}

#[test]
fn post_without_body_is_dispatched() {
    let tables = KmpTables::new();
    let request = b"POST /a HTTP/1.1\r\nContent-Length: 0\r\n";
    assert_eq!(Preflight::Dispatch, preflight(request, &tables));
}

#[test]
fn post_that_expects_continue_gets_it() {
    let tables = KmpTables::new();
    let request = b"POST /a HTTP/1.1\r\nContent-Length: 3\r\nExpect: 100-continue\r\n";
    assert_eq!(Preflight::ContinueThenRead, preflight(request, &tables));
}

#[test]
fn post_with_late_body_is_read_again() {
    let tables = KmpTables::new();
    let request = b"POST /a HTTP/1.1\r\nContent-Length: 3\r\n";
    assert_eq!(Preflight::ReadMore, preflight(request, &tables));
}

#[test]
fn empty_line_is_two_line_feeds_in_a_row() {
    assert!(!find_empty_line(b""));
    assert!(!find_empty_line(b"\n"));
    assert!(!find_empty_line(b"\r\n"));
    assert!(find_empty_line(b"\n\n"));
    assert!(find_empty_line(b"\r\n\r\n"));
    assert!(find_empty_line(b"\n\nx"));
    assert!(!find_empty_line(b"a\nb\nc\n"));
    assert!(!find_empty_line(b"\r\r\n\r\r"));
    assert!(find_empty_line(b"\r\r\n\r\r\n\r\r"));
    assert!(find_empty_line(b"a\n\r\r\nb"));
    assert!(find_empty_line(b"a\nb\n\n"));
    assert!(!find_empty_line(b"a\n \nb"));
}

#[test]
fn post_whose_headers_have_ended_is_dispatched() {
    let tables = KmpTables::new();
    let request = b"POST /a HTTP/1.1\r\nContent-Length: 3\r\nExpect: 100-continue\r\n\r\n";
    assert_eq!(Preflight::Dispatch, preflight(request, &tables));
    let request = b"POST /a HTTP/1.1\r\nContent-Length: 3\r\n\r\n";
    assert_eq!(Preflight::Dispatch, preflight(request, &tables));
}

#[test]
fn headers_are_found_anywhere_in_the_request() {
    let tables = KmpTables::new();
    assert!(tables.has_content_length_zero(b"Content-Length: 0"));
    assert!(tables.has_content_length_zero(b"POST /\r\nContent-Length: 01\r\n"));
    assert!(!tables.has_content_length_zero(b"POST /\r\nContent-Length: 1\r\n"));
    assert!(!tables.has_content_length_zero(b"content-length: 0"));
    assert!(!tables.has_content_length_zero(b""));
    assert!(tables.has_expect_100_continue(b"xExpect: 100-continuex"));
    assert!(!tables.has_expect_100_continue(b"Expect: 100-continu"));
    assert!(!tables.has_expect_100_continue(b"Expect: 100-continuContent-Length: 0"));
}

#[test]
fn content_length_zero_wins_over_expect() {
    let tables = KmpTables::new();
    let request = b"POST /a HTTP/1.1\r\nExpect: 100-continue\r\nContent-Length: 0\r\n";
    assert_eq!(Preflight::Dispatch, preflight(request, &tables));
    assert_eq!(Preflight::ReadMore, preflight(b"POST", &tables));
    assert_eq!(Preflight::Dispatch, preflight(b"post /a\r\n", &tables));
    assert_eq!(Preflight::Dispatch, preflight(b"", &tables));
}
