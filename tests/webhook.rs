use externaldns_webhook::webhook::{
    media_type_matches, route, status_code, Listener, Listeners, Method, Outcome, Route, MEDIATYPE,
};

#[test]
fn get_root_without_matching_accept_is_not_acceptable() {
    let r = route(Listener::Provider, Method::Get, "/", Some("application/json"));
    assert_eq!(r, Route::NotAcceptable);
    assert_eq!(status_code(r, Outcome::Done), 406);
    let r = route(Listener::Provider, Method::Get, "/", None);
    assert_eq!(status_code(r, Outcome::Done), 406);
}

#[test]
fn get_root_with_exact_accept_gives_domain_filter() {
    let r = route(Listener::Provider, Method::Get, "/", Some(MEDIATYPE));
    assert_eq!(r, Route::DomainFilter);
    assert_eq!(status_code(r, Outcome::Done), 200);
}

#[test]
fn media_type_tolerates_blanks_around_separator() {
    assert!(media_type_matches("application/external.dns.webhook+json;version=1"));
    assert!(media_type_matches("application/external.dns.webhook+json; version=1"));
    assert!(media_type_matches(" application/external.dns.webhook+json ;\tversion=1 "));
    assert!(!media_type_matches("application/external.dns.webhook+json;version=2"));
    assert!(!media_type_matches("application/external.dns. webhook+json;version=1"));
    assert!(!media_type_matches("application/external.dns.webhook+json"));
    assert!(!media_type_matches("application/external.dns.webhook+json;version=1;x"));
    assert!(!media_type_matches(""));
}

#[test]
fn provider_routes() {
    let m = Some(MEDIATYPE);
    assert_eq!(route(Listener::Provider, Method::Get, "/records", m), Route::Records);
    assert_eq!(route(Listener::Provider, Method::Get, "/records", None), Route::NotAcceptable);
    assert_eq!(route(Listener::Provider, Method::Post, "/records", None), Route::ApplyChanges);
    assert_eq!(route(Listener::Provider, Method::Post, "/adjustendpoints", m), Route::AdjustEndpoints);
    assert_eq!(
        route(Listener::Provider, Method::Post, "/adjustendpoints", Some("text/plain")),
        Route::NotAcceptable
    );
    assert_eq!(route(Listener::Provider, Method::Get, "/healthz", m), Route::NotFound);
    assert_eq!(route(Listener::Provider, Method::Other, "/", m), Route::NotFound);
}

#[test]
fn exposed_routes() {
    assert_eq!(route(Listener::Exposed, Method::Get, "/healthz", None), Route::Healthz);
    assert_eq!(route(Listener::Exposed, Method::Get, "/metrics", None), Route::Metrics);
    assert_eq!(route(Listener::Exposed, Method::Get, "/", Some(MEDIATYPE)), Route::NotFound);
}

#[test]
fn status_codes() {
    assert_eq!(status_code(Route::ApplyChanges, Outcome::Done), 204);
    assert_eq!(status_code(Route::ApplyChanges, Outcome::Malformed), 400);
    assert_eq!(status_code(Route::ApplyChanges, Outcome::Failed), 500);
    assert_eq!(status_code(Route::Records, Outcome::Done), 200);
    assert_eq!(status_code(Route::NotFound, Outcome::Done), 404);
}

#[test]
fn listener_addresses() {
    let l = Listeners::new();
    assert_eq!(l.provider_address, "127.0.0.1");
    assert_eq!(l.provider_port, 8888);
    assert_eq!(l.exposed_address, "0.0.0.0");
    assert_eq!(l.exposed_port, 8080);
}
