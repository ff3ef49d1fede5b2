use rcloneflix::supervisor::{
    choose_serve_port, wait_step, ServeHandle, Supervisor, SuperviseError, WaitVerdict,
    READY_TIMEOUT_MS,
};

#[test]
fn a_chosen_port_is_a_port_or_the_exhaustion_error() {
    match choose_serve_port() {
        Ok(_) => {}
        Err(e) => assert_eq!(e, SuperviseError::NoFreePort),
    }
}

#[test]
fn fresh_supervisor_holds_nothing() {
    let mut s = Supervisor::new();
    assert_eq!(s.current_port(), None);
    assert_eq!(s.take_for_kill(), None);
}

#[test]
fn ready_helper_is_registered() {
    let mut s = Supervisor::new();
    let old = s.take_for_kill();
    assert_eq!(old, None);
    let h = ServeHandle { pid: 41, port: 8080 };
    let r = s.install_if_ready(h, true);
    assert_eq!(r, Ok(h));
    assert_eq!(s.current_port(), Some(8080));
}

#[test]
fn replacement_takes_the_old_helper_out_first() {
    let mut s = Supervisor::new();
    s.install_if_ready(ServeHandle { pid: 1, port: 1111 }, true).unwrap();
    // A new open first takes the old handle out for termination…
    let old = s.take_for_kill();
    assert_eq!(old, Some(ServeHandle { pid: 1, port: 1111 }));
    assert_eq!(s.current_port(), None);
    // …and only then registers the replacement: never two at once.
    s.install_if_ready(ServeHandle { pid: 2, port: 2222 }, true).unwrap();
    assert_eq!(s.current_port(), Some(2222));
}

#[test]
fn timeout_leaves_no_handle_registered() {
    let mut s = Supervisor::new();
    let r = s.install_if_ready(ServeHandle { pid: 7, port: 7777 }, false);
    assert_eq!(r, Err(SuperviseError::ReadyTimeout));
    assert_eq!(s.current_port(), None);
}

#[test]
fn wait_verdicts_follow_the_deadline() {
    assert_eq!(wait_step(0, true), WaitVerdict::Ready);
    assert_eq!(wait_step(0, false), WaitVerdict::Retry);
    assert_eq!(wait_step(READY_TIMEOUT_MS - 100, true), WaitVerdict::Ready);
    assert_eq!(wait_step(READY_TIMEOUT_MS - 100, false), WaitVerdict::Retry);
    // At or past the ten-second deadline nothing more is tried.
    assert_eq!(wait_step(READY_TIMEOUT_MS, false), WaitVerdict::TimedOut);
    assert_eq!(wait_step(READY_TIMEOUT_MS, true), WaitVerdict::TimedOut);
    assert_eq!(wait_step(READY_TIMEOUT_MS + 5000, false), WaitVerdict::TimedOut);
}
