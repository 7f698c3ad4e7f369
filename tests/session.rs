use kak_lsp::session::{
    lock_file_name, pid_file_name, resolve_session, server_args, start, step, ClientAction,
    ClientEvent, ClientState, SessionError, CONNECT_ATTEMPTS,
};

#[test]
fn connect_first_delivers() {
    let (s, a) = start();
    assert_eq!((s, a), (ClientState::AttemptConnect, ClientAction::Connect));
    assert_eq!(
        step(s, ClientEvent::Connected),
        (ClientState::Delivered, ClientAction::Finish)
    );
}

#[test]
fn lock_winner_becomes_backend() {
    let (s, _) = step(ClientState::AttemptConnect, ClientEvent::ConnectFailed);
    assert_eq!(s, ClientState::AttemptLock);
    let (s, a) = step(s, ClientEvent::LockAcquired);
    assert_eq!((s, a), (ClientState::BecomeBackend, ClientAction::SpawnBackend));
    let (s, a) = step(s, ClientEvent::BackendStarted);
    assert_eq!((s, a), (ClientState::ReleaseLock, ClientAction::ReleaseLock));
    assert_eq!(
        step(s, ClientEvent::LockReleased),
        (ClientState::Delivered, ClientAction::Finish)
    );
}

#[test]
fn lock_loser_retries_then_gives_up() {
    let (mut s, a) = step(ClientState::AttemptLock, ClientEvent::LockBusy);
    assert_eq!(a, ClientAction::Connect);
    let mut connects = 1;
    loop {
        let (n, a) = step(s, ClientEvent::ConnectFailed);
        s = n;
        if a == ClientAction::WaitThenConnect {
            connects += 1;
        } else {
            assert_eq!((s, a), (ClientState::Failed, ClientAction::GiveUp));
            break;
        }
    }
    assert_eq!(connects, CONNECT_ATTEMPTS);
}

#[test]
fn lock_loser_connects_to_winner() {
    let (s, _) = step(ClientState::AttemptLock, ClientEvent::LockBusy);
    let (s, _) = step(s, ClientEvent::ConnectFailed);
    assert_eq!(s, ClientState::RetryConnect { attempt: 2 });
    assert_eq!(
        step(s, ClientEvent::Connected),
        (ClientState::Delivered, ClientAction::Finish)
    );
}

#[test]
fn lock_error_fails() {
    assert_eq!(
        step(ClientState::AttemptLock, ClientEvent::LockError),
        (ClientState::Failed, ClientAction::GiveUp)
    );
}

#[test]
fn session_names_fall_back_on_each_other() {
    let r = resolve_session(Some("kak".to_string()), None).unwrap();
    assert_eq!((r.session.as_str(), r.lsp_session.as_str()), ("kak", "kak"));
    let r = resolve_session(None, Some("lsp".to_string())).unwrap();
    assert_eq!((r.session.as_str(), r.lsp_session.as_str()), ("lsp", "lsp"));
    let r = resolve_session(Some("kak".to_string()), Some("lsp".to_string())).unwrap();
    assert_eq!((r.session.as_str(), r.lsp_session.as_str()), ("kak", "lsp"));
    assert_eq!(resolve_session(None, None).err(), Some(SessionError::Missing));
    assert_eq!(
        resolve_session(Some("kak".to_string()), Some(String::new())).err(),
        Some(SessionError::Empty)
    );
}

#[test]
fn control_file_names() {
    assert_eq!(lock_file_name("s1"), "s1.lock");
    assert_eq!(pid_file_name("s1"), "s1.pid");
}

#[test]
fn server_args_drop_request_flag() {
    let args = vec![
        "kak-lsp".to_string(),
        "--request".to_string(),
        "-s".to_string(),
        "x".to_string(),
    ];
    assert_eq!(
        server_args(&args),
        vec!["kak-lsp", "-s", "x", "--daemonize", "--initial-request"]
    );
}
