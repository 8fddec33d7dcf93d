use soulfire::oauth::{
    auth_redirect_uri, authorization_code_valid, cookie_lifetime_secs, scope_accepted, token_request_body,
    REQUIRED_SCOPE,
};

#[test]
fn authorization_codes() {
    assert!(authorization_code_valid("abc123XYZ"));
    assert!(authorization_code_valid(""));
    assert!(authorization_code_valid("äb9"));
    assert!(!authorization_code_valid("ab-c"));
    assert!(!authorization_code_valid("abc&redirect_uri=x"));
    assert!(!authorization_code_valid("a b"));
}

#[test]
fn scopes() {
    assert_eq!(REQUIRED_SCOPE, "role_connections.write");
    assert!(scope_accepted("role_connections.write"));
    assert!(!scope_accepted("role_connections.write identify"));
    assert!(!scope_accepted("identify"));
    assert!(!scope_accepted(""));
}

#[test]
fn cookie_lifetimes() {
    assert_eq!(cookie_lifetime_secs(604800), 604700);
    assert_eq!(cookie_lifetime_secs(101), 1);
    assert_eq!(cookie_lifetime_secs(100), 0);
    assert_eq!(cookie_lifetime_secs(50), 0);
    assert_eq!(cookie_lifetime_secs(u64::MAX), u64::MAX - 100);
}

#[test]
fn token_request() {
    let uri = auth_redirect_uri("soulfire.example.net", "genshin");
    assert_eq!(uri, "https://soulfire.example.net/games/genshin/discord-auth-flow");
    assert_eq!(
        token_request_body("abc123", &uri),
        "grant_type=authorization_code&code=abc123&redirect_uri=https%3A%2F%2Fsoulfire.example.net%2Fgames%2Fgenshin%2Fdiscord-auth-flow"
    );
    assert_eq!(
        token_request_body("c", "a-b_c.d~e f\u{fc}"),
        "grant_type=authorization_code&code=c&redirect_uri=a-b_c.d~e%20f%C3%BC"
    );
}
