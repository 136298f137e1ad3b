use netlabs::proxy::{forbidden_body, Decision, State};

#[test]
fn blacklisted_hosts_are_refused() {
    let state = State::new(vec!["www.southcn.com".to_string(), "www.southcn.com".to_string()]);
    assert!(!state.is_allowed("/www.southcn.com/index.html"));
    assert!(state.is_allowed("/example.org/index.html"));
    assert!(state.is_allowed("/"));
    assert_eq!(state.decide("/www.southcn.com/", "/www.southcn.com/"), Decision::Forbidden);
    assert_eq!(forbidden_body(), "host is blacklisted!");
}

#[test]
fn favicon_and_forwarding() {
    let state = State::new(vec![]);
    assert_eq!(state.decide("/favicon.ico", "/favicon.ico"), Decision::NotFound);
    assert_eq!(
        state.decide("/example.org/a", "/example.org/a?x=1"),
        Decision::Forward("http://example.org/a?x=1".to_string())
    );
}

#[test]
fn journal_records_requests() {
    let mut state = State::new(vec![]);
    state.add_request("/example.org/".to_string(), "200 OK".to_string());
    assert!(state.is_allowed("/example.org/"));
}
