use rcloneflix::session::{build_session_file_url, SessionRegistry, StreamSession};

#[test]
fn session_file_url_is_percent_encoded_per_segment() {
    // The space escapes as %20 so the helper resolves the URL back to the
    // original file; only `/` stays as the separator.
    let url = build_session_file_url(9000, b"/Shows/My File.mkv");
    assert_eq!(url, b"http://127.0.0.1:9000/Shows/My%20File.mkv".to_vec());
}

#[test]
fn session_file_url_escapes_everything_else() {
    let url = build_session_file_url(9000, b"a#b/c");
    assert_eq!(url, b"http://127.0.0.1:9000/a%23b/c".to_vec());
}

#[test]
fn registry_replaces_a_session_under_the_same_id() {
    let mut reg = SessionRegistry::new();
    assert_eq!(reg.take_session(b"one"), None);
    reg.insert_session(b"one".to_vec(), 100);
    // Opening the same id again: take the old helper out, then register.
    let old = reg.take_session(b"one");
    assert_eq!(old, Some(100));
    reg.insert_session(b"one".to_vec(), 101);
    assert_eq!(reg.take_session(b"one"), Some(101));
}

#[test]
fn registry_keeps_sessions_apart() {
    let mut reg = SessionRegistry::new();
    reg.insert_session(b"a".to_vec(), 1);
    reg.insert_session(b"b".to_vec(), 2);
    assert_eq!(reg.take_session(b"b"), Some(2));
    assert_eq!(reg.take_session(b"b"), None);
    assert_eq!(reg.take_session(b"a"), Some(1));
}

#[test]
fn drain_returns_every_helper_in_start_order() {
    let mut reg = SessionRegistry::new();
    reg.insert_session(b"a".to_vec(), 1);
    reg.insert_session(b"b".to_vec(), 2);
    reg.insert_session(b"c".to_vec(), 3);
    let pids = reg.drain_all();
    assert_eq!(pids, vec![1, 2, 3]);
    assert_eq!(reg.take_session(b"a"), None);
}

#[test]
fn stream_session_carries_its_urls() {
    let s = StreamSession {
        session_id: b"sess".to_vec(),
        serve_url: b"http://127.0.0.1:9000".to_vec(),
        file_url: build_session_file_url(9000, b"x y"),
    };
    assert_eq!(s.file_url, b"http://127.0.0.1:9000/x%20y".to_vec());
    assert_eq!(s.session_id, b"sess".to_vec());
}
