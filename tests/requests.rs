use docsearch::indexer::Indexer;
use docsearch::server::{is_framed_request, parse_request, results_text, HTTPError, Request, Server, Status, HTTP};

#[test]
fn parses_get_with_body() {
    let r = parse_request("GET / HTTP/1.1\r\nHost: x\r\n\r\nhello world\0\0\0").unwrap();
    assert_eq!(r.method, HTTP::Get);
    assert_eq!(r.body, "hello world");
}

#[test]
fn parses_post_without_route() {
    let r = parse_request("POST\r\n\r\n\0doc\0").unwrap();
    assert_eq!(r.method, HTTP::Post);
    assert_eq!(r.body, "doc");
}

#[test]
fn body_ends_at_next_separator() {
    let r = parse_request("PUT / x\r\n\r\nfirst\r\n\r\nsecond").unwrap();
    assert_eq!(r.method, HTTP::Put);
    assert_eq!(r.body, "first");
}

#[test]
fn leading_white_space_before_method() {
    let r = parse_request("\tDELETE /\r\n\r\n").unwrap();
    assert_eq!(r.method, HTTP::Delete);
    assert_eq!(r.body, "");
    // a leading space makes the piece after the first space the route
    assert!(matches!(parse_request(" DELETE /\r\n\r\n"), Err(HTTPError::NotFound)));
}

#[test]
fn other_route_is_not_found() {
    assert!(matches!(parse_request("GET /x HTTP/1.1\r\n\r\nq"), Err(HTTPError::NotFound)));
    assert!(matches!(parse_request("FOO /x HTTP/1.1\r\n\r\nq"), Err(HTTPError::NotFound)));
}

#[test]
fn unknown_method_is_not_allowed() {
    assert!(matches!(parse_request("PATCH / HTTP/1.1\r\n\r\nq"), Err(HTTPError::MethodNotAllowed)));
    assert!(matches!(parse_request("get / HTTP/1.1\r\n\r\nq"), Err(HTTPError::MethodNotAllowed)));
}

#[test]
fn framing() {
    assert!(is_framed_request("GET /\r\n\r\n"));
    assert!(!is_framed_request("GET / HTTP/1.1\r\n"));
    assert!(!is_framed_request(" \t\r\n\r\nbody"));
    assert!(!is_framed_request(""));
}

#[test]
fn error_codes() {
    assert_eq!(HTTPError::NotFound.code(), 404);
    assert_eq!(HTTPError::MethodNotAllowed.code(), 405);
}

#[test]
fn post_then_get_answers_ranked() {
    let mut s = Server::new(("127.0.0.1".to_string(), 9766), Indexer::new());
    let a = s.handle_request(Request { method: HTTP::Post, body: "cat dog".to_string() });
    assert_eq!(a.status, Status::Success);
    assert!(a.results.is_none());
    s.handle_request(Request { method: HTTP::Post, body: "cat cat".to_string() });
    s.handle_request(Request { method: HTTP::Post, body: "bird".to_string() });
    let r = s.handle_request(Request { method: HTTP::Get, body: "cat".to_string() });
    assert_eq!(r.status, Status::Success);
    assert_eq!(r.results.unwrap(), vec!["cat cat".to_string(), "cat dog".to_string()]);
    let none = s.handle_request(Request { method: HTTP::Get, body: "fish".to_string() });
    assert_eq!(none.results.unwrap(), Vec::<String>::new());
    let (host, port) = s.addr();
    assert_eq!(host, "127.0.0.1");
    assert_eq!(port, 9766);
}

#[test]
fn put_and_delete_change_nothing() {
    let mut s = Server::new(("h".to_string(), 1), Indexer::new());
    let r = s.handle_request(Request { method: HTTP::Put, body: "x".to_string() });
    assert_eq!(r.status, Status::Success);
    assert!(r.results.is_none());
    s.handle_request(Request { method: HTTP::Delete, body: "x".to_string() });
    let g = s.handle_request(Request { method: HTTP::Get, body: "x".to_string() });
    assert!(g.results.unwrap().is_empty());
}

#[test]
fn errors_answer_with_their_status() {
    let s = Server::new(("h".to_string(), 1), Indexer::new());
    assert_eq!(s.handle_error(HTTPError::NotFound).status, Status::NotFound);
    assert_eq!(s.handle_error(HTTPError::MethodNotAllowed).status, Status::MethodNotAllowed);
    assert!(s.handle_error(HTTPError::NotFound).results.is_none());
}

#[test]
fn results_text_quotes_and_joins() {
    assert_eq!(results_text(&vec![]), "");
    assert_eq!(results_text(&vec!["a b".to_string()]), "\"a b\"");
    assert_eq!(results_text(&vec!["x".to_string(), "".to_string(), "y z".to_string()]), "\"x\",\"\",\"y z\"");
}

#[test]
fn search_then_answer_ranks_hits() {
    let mut s = Server::new(("h".to_string(), 1), Indexer::new());
    s.handle_request(Request { method: HTTP::Post, body: "cat dog".to_string() });
    s.handle_request(Request { method: HTTP::Post, body: "cat cat".to_string() });
    let hits = s.search("cat".to_string());
    assert_eq!(hits.len(), 2);
    assert_eq!(hits[0].1, "cat dog");
    let r = s.answer_search(hits);
    assert_eq!(r.status, Status::Success);
    assert_eq!(r.results.unwrap(), vec!["cat cat".to_string(), "cat dog".to_string()]);
    assert!(s.search("fish".to_string()).is_empty());
}

#[test]
fn headers_are_not_needed() {
    let r = parse_request("POST / HTTP/1.1\r\nHost: a\r\nno colon here\r\n\r\nx y\0\0").unwrap();
    assert_eq!(r.method, HTTP::Post);
    assert_eq!(r.body, "x y");
}
