use ws_relay::origin::decide_for_host;
use ws_relay::{check_origin, OriginDecision, OriginHeader};

fn text(origin: &str) -> OriginHeader {
    OriginHeader::Text(origin.to_string())
}

#[test]
fn origin_of_another_host_is_forbidden() {
    let allowed = "example.com".to_string();
    let decision = check_origin(&allowed, text("https://evil.test"));
    assert_eq!(OriginDecision::Forbidden, decision);
    assert_eq!(Some(403), decision.status());
}

#[test]
fn origin_of_a_subdomain_is_accepted() {
    let allowed = "example.com".to_string();
    let decision = check_origin(&allowed, text("https://sub.example.com"));
    assert_eq!(OriginDecision::Accept, decision);
    assert_eq!(None, decision.status());
}

#[test]
fn origin_of_the_host_itself_is_accepted() {
    let allowed = "example.com".to_string();
    assert_eq!(OriginDecision::Accept, check_origin(&allowed, text("https://example.com")));
    assert_eq!(OriginDecision::Accept, check_origin(&allowed, text("http://example.com:8080/a?b")));
    assert_eq!(OriginDecision::Accept, check_origin(&allowed, text("https://a.b.example.com")));
}

#[test]
fn origin_that_only_ends_alike_is_forbidden() {
    let allowed = "example.com".to_string();
    assert_eq!(OriginDecision::Forbidden, check_origin(&allowed, text("https://notexample.com")));
    assert_eq!(OriginDecision::Forbidden, check_origin(&allowed, text("https://example.com.evil.test")));
    assert_eq!(OriginDecision::Forbidden, check_origin(&allowed, text("https://com")));
}

#[test]
fn origin_that_cannot_be_used_is_a_bad_request() {
    let allowed = "example.com".to_string();
    for header in [
        OriginHeader::Missing,
        OriginHeader::Unreadable,
        text("https://exa mple.com"),
        text(""),
        text("/only/a/path"),
    ] {
        let decision = check_origin(&allowed, header);
        assert_eq!(OriginDecision::BadRequest, decision);
        assert_eq!(Some(400), decision.status());
    }
}

#[test]
fn without_a_configured_host_everything_passes() {
    let allowed = String::new();
    for header in [
        OriginHeader::Missing,
        OriginHeader::Unreadable,
        text("https://evil.test"),
        text("/only/a/path"),
    ] {
        assert_eq!(OriginDecision::Accept, check_origin(&allowed, header));
    }
}

#[test]
fn decision_for_a_given_host() {
    let allowed = "example.com".to_string();
    assert_eq!(OriginDecision::BadRequest, decide_for_host(&allowed, None));
    assert_eq!(OriginDecision::Accept, decide_for_host(&allowed, Some("example.com".to_string())));
    assert_eq!(OriginDecision::Accept, decide_for_host(&allowed, Some("x.example.com".to_string())));
    assert_eq!(OriginDecision::Forbidden, decide_for_host(&allowed, Some(".example.co".to_string())));
    assert_eq!(OriginDecision::Forbidden, decide_for_host(&allowed, Some("xexample.com".to_string())));
    assert_eq!(OriginDecision::Accept, decide_for_host(&allowed, Some(".example.com".to_string())));
}
