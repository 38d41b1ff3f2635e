use iumenu::ipc::{
    client_step, get_socket_path, handle_request, is_toggle_message, is_toggle_reply,
    toggle_reply, toggle_request, ClientAction, ClientEvent, ClientPhase, ToggleError,
};

#[test]
fn socket_in_xdg_runtime_dir() {
    assert_eq!(
        get_socket_path(Some("/run/user/1000".to_string()), Some("bob".to_string())),
        "/run/user/1000/iumenu.sock"
    );
    assert_eq!(get_socket_path(Some("/run/".to_string()), None), "/run/iumenu.sock");
    assert_eq!(get_socket_path(Some(String::new()), None), "iumenu.sock");
}

#[test]
fn socket_falls_back_to_tmp() {
    assert_eq!(get_socket_path(None, Some("bob".to_string())), "/tmp/runtime-bob/iumenu.sock");
    assert_eq!(get_socket_path(None, None), "/tmp/runtime-user/iumenu.sock");
}

#[test]
fn server_toggles_on_toggle_message() {
    assert!(handle_request(b"toggle"));
    assert!(handle_request(b" toggle\n"));
    assert!(!handle_request(b""));
    assert!(!handle_request(b"toggl"));
    assert!(!handle_request(b"TOGGLE"));
    assert!(!handle_request(b"toggle now"));
}

#[test]
fn server_decodes_invalid_utf8_lossily() {
    assert!(!handle_request(b"\xfftoggle"));
    assert!(!handle_request(b"toggle\xc3"));
    assert!(handle_request("\u{3000}toggle\u{a0}".as_bytes()));
}

#[test]
fn toggle_message_check() {
    assert!(is_toggle_message("\ttoggle "));
    assert!(!is_toggle_message("to ggle"));
}

#[test]
fn client_request_is_accepted_by_server() {
    let request = toggle_request();
    assert_eq!(request, b"toggle".to_vec());
    assert!(handle_request(&request));
}

#[test]
fn server_reply_is_accepted_by_client() {
    let reply = toggle_reply();
    assert_eq!(reply, b"ok".to_vec());
    assert!(is_toggle_reply(&reply));
    assert!(!is_toggle_reply(b"ok\n"));
    assert!(!is_toggle_reply(b""));
    assert!(!is_toggle_reply(b"no"));
}

#[test]
fn client_full_exchange_succeeds() {
    let (p, a) = client_step(ClientPhase::Start, ClientEvent::SocketChecked(true));
    assert_eq!((&p, &a), (&ClientPhase::Connecting, &ClientAction::Connect));
    let (p, a) = client_step(p, ClientEvent::Connected);
    assert_eq!((&p, &a), (&ClientPhase::Sending, &ClientAction::Send));
    let (p, a) = client_step(p, ClientEvent::Sent);
    assert_eq!((&p, &a), (&ClientPhase::Receiving, &ClientAction::Receive));
    let (p, a) = client_step(p, ClientEvent::Received(b"ok".to_vec()));
    assert_eq!((&p, &a), (&ClientPhase::Done, &ClientAction::Succeed));
}

#[test]
fn client_errors() {
    assert_eq!(
        client_step(ClientPhase::Start, ClientEvent::SocketChecked(false)).1,
        ClientAction::Fail(ToggleError::ServerNotRunning)
    );
    assert_eq!(
        client_step(ClientPhase::Connecting, ClientEvent::TimedOut).1,
        ClientAction::Fail(ToggleError::ConnectTimedOut)
    );
    assert_eq!(
        client_step(ClientPhase::Sending, ClientEvent::TimedOut).1,
        ClientAction::Fail(ToggleError::WriteTimedOut)
    );
    assert_eq!(
        client_step(ClientPhase::Receiving, ClientEvent::TimedOut).1,
        ClientAction::Fail(ToggleError::ReadTimedOut)
    );
    assert_eq!(
        client_step(ClientPhase::Receiving, ClientEvent::Received(b"nope".to_vec())).1,
        ClientAction::Fail(ToggleError::InvalidResponse)
    );
}

#[test]
fn finished_client_ignores_events() {
    let (p, a) = client_step(ClientPhase::Done, ClientEvent::Received(b"ok".to_vec()));
    assert_eq!(p, ClientPhase::Done);
    assert_eq!(a, ClientAction::Ignore);
    let (p, a) = client_step(ClientPhase::Sending, ClientEvent::Connected);
    assert_eq!(p, ClientPhase::Sending);
    assert_eq!(a, ClientAction::Ignore);
}
