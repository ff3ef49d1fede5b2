use rcloneflix::auth::{extract_code, ApiKeys, GoogleTokens};

#[test]
fn the_code_parameter_is_extracted_from_the_redirect() {
    let req = b"GET /oauth/callback?code=abc123&scope=email HTTP/1.1\r\nHost: localhost\r\n\r\n";
    assert_eq!(extract_code(req), Some(b"abc123".to_vec()));
}

#[test]
fn the_code_may_come_after_other_parameters() {
    let req = b"GET /cb?state=xyz&code=4%2FqQ HTTP/1.1\r\n";
    assert_eq!(extract_code(req), Some(b"4%2FqQ".to_vec()));
}

#[test]
fn a_request_without_a_code_yields_none() {
    assert_eq!(extract_code(b"GET /oauth/callback?error=denied HTTP/1.1\r\n"), None);
    assert_eq!(extract_code(b"GET /oauth/callback HTTP/1.1\r\n"), None);
    assert_eq!(extract_code(b""), None);
    assert_eq!(extract_code(b"GET\r\n"), None);
}

#[test]
fn the_query_ends_at_a_second_question_mark() {
    // Only the segment between the first `?` and the next one is the
    // query: a stray `?` never leaks into the code's value.
    assert_eq!(extract_code(b"GET /cb?code=ab?cd=ef HTTP/1.1\r\n"), Some(b"ab".to_vec()));
    assert_eq!(extract_code(b"GET /cb?state=x?code=hidden HTTP/1.1\r\n"), None);
}

#[test]
fn a_code_key_without_a_value_decides_and_yields_none() {
    // The first parameter keyed `code` decides: bare `code` has no value,
    // and a later `code=x` is never reached.
    assert_eq!(extract_code(b"GET /cb?code&code=late HTTP/1.1\r\n"), None);
}

#[test]
fn token_and_key_carriers_hold_their_fields() {
    let t = GoogleTokens {
        access_token: String::from("at"),
        refresh_token: String::from("rt"),
        expires_at: 1700000000,
        email: String::from("user@example.com"),
        display_name: String::from("User"),
    };
    assert_eq!(t.expires_at, 1700000000);
    assert_eq!(t.email, "user@example.com");
    let k = ApiKeys { tmdb: String::from("k1"), theporndb: String::from("k2") };
    assert_eq!(k.tmdb, "k1");
    assert_eq!(k.theporndb, "k2");
}
