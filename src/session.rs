//! Which process serves a session: forward a request to a running server,
//! become the server, or give up after a bounded number of retries.
use vstd::prelude::*;
use vstd::string::StringExecFns;

verus! {

/// How many times a client retries to connect while another process starts the server.
pub const CONNECT_ATTEMPTS: u32 = 10;

/// Milliseconds to wait between two connection attempts.
pub const CONNECT_RETRY_DELAY_MS: u64 = 30;

/// Where a client stands in delivering its request.
#[derive(PartialEq, Eq, Structural, Clone, Copy, Debug)]
pub enum ClientState {
    /// Trying the session's socket.
    AttemptConnect,
    /// No server answered: contending for the session's lock file.
    AttemptLock,
    /// Holding the lock: starting a server and handing it the request.
    BecomeBackend,
    /// The server started: releasing and removing the lock file.
    ReleaseLock,
    /// Another process holds the lock: connection attempt number `attempt` (from one).
    RetryConnect { attempt: u32 },
    /// The request reached a server.
    Delivered,
    /// The request could not be delivered.
    Failed,
}

/// What happened when the client carried out its last action.
#[derive(PartialEq, Eq, Structural, Clone, Copy, Debug)]
pub enum ClientEvent {
    /// A connection was made and the request written to it.
    Connected,
    /// No server accepted the connection.
    ConnectFailed,
    /// The exclusive lock was taken.
    LockAcquired,
    /// Another process holds the lock.
    LockBusy,
    /// The lock file could not be created, locked, unlocked or removed.
    LockError,
    /// The server process finished its start-up.
    BackendStarted,
    /// The lock was released and its file removed.
    LockReleased,
}

/// What the client must do next.
#[derive(PartialEq, Eq, Structural, Clone, Copy, Debug)]
pub enum ClientAction {
    /// Connect to the socket and write the request.
    Connect,
    /// Create the lock file and try to lock it exclusively.
    TryLock,
    /// Start the server with the request on its input and wait for its start-up.
    SpawnBackend,
    /// Unlock and remove the lock file.
    ReleaseLock,
    /// Wait `CONNECT_RETRY_DELAY_MS`, then connect and write the request.
    WaitThenConnect,
    /// Stop: the request was delivered.
    Finish,
    /// Stop: report that the request could not be delivered.
    GiveUp,
}

/// A client state that the coordinator can reach.
pub open spec fn is_valid_state(s: ClientState) -> bool {
    match s {
        ClientState::RetryConnect { attempt } => 1 <= attempt <= CONNECT_ATTEMPTS,
        _ => true,
    }
}

/// Whether no further step follows.
pub open spec fn is_terminal(s: ClientState) -> bool {
    s == ClientState::Delivered || s == ClientState::Failed
}

/// The next state and action after `event` in state `s`. An event that the
/// state does not expect fails the delivery; a terminal state stays put.
pub open spec fn next(s: ClientState, event: ClientEvent) -> (ClientState, ClientAction) {
    match s {
        ClientState::AttemptConnect => match event {
            ClientEvent::Connected => (ClientState::Delivered, ClientAction::Finish),
            ClientEvent::ConnectFailed => (ClientState::AttemptLock, ClientAction::TryLock),
            _ => (ClientState::Failed, ClientAction::GiveUp),
        },
        ClientState::AttemptLock => match event {
            ClientEvent::LockAcquired => (ClientState::BecomeBackend, ClientAction::SpawnBackend),
            ClientEvent::LockBusy => (
                ClientState::RetryConnect { attempt: 1 },
                ClientAction::Connect,
            ),
            _ => (ClientState::Failed, ClientAction::GiveUp),
        },
        ClientState::BecomeBackend => match event {
            ClientEvent::BackendStarted => (ClientState::ReleaseLock, ClientAction::ReleaseLock),
            _ => (ClientState::Failed, ClientAction::GiveUp),
        },
        ClientState::ReleaseLock => match event {
            ClientEvent::LockReleased => (ClientState::Delivered, ClientAction::Finish),
            _ => (ClientState::Failed, ClientAction::GiveUp),
        },
        ClientState::RetryConnect { attempt } => match event {
            ClientEvent::Connected => (ClientState::Delivered, ClientAction::Finish),
            ClientEvent::ConnectFailed => if attempt < CONNECT_ATTEMPTS {
                (
                    ClientState::RetryConnect { attempt: (attempt + 1) as u32 },
                    ClientAction::WaitThenConnect,
                )
            } else {
                (ClientState::Failed, ClientAction::GiveUp)
            },
            _ => (ClientState::Failed, ClientAction::GiveUp),
        },
        ClientState::Delivered => (ClientState::Delivered, ClientAction::Finish),
        ClientState::Failed => (ClientState::Failed, ClientAction::GiveUp),
    }
}

/// An upper bound on the steps left before a terminal state.
pub open spec fn steps_left(s: ClientState) -> nat {
    match s {
        ClientState::AttemptConnect => CONNECT_ATTEMPTS as nat + 3,
        ClientState::AttemptLock => CONNECT_ATTEMPTS as nat + 2,
        ClientState::BecomeBackend => 2,
        ClientState::ReleaseLock => 1,
        ClientState::RetryConnect { attempt } => (CONNECT_ATTEMPTS + 1 - attempt) as nat,
        ClientState::Delivered => 0,
        ClientState::Failed => 0,
    }
}

/// The action that starts a delivery, and the state it starts in.
pub fn start() -> (r: (ClientState, ClientAction))
    ensures
        r == (ClientState::AttemptConnect, ClientAction::Connect),
{
    (ClientState::AttemptConnect, ClientAction::Connect)
}

/// One step of a delivery: from the state and what the last action brought,
/// the next state and the action to carry out.
pub fn step(s: ClientState, event: ClientEvent) -> (r: (ClientState, ClientAction))
    requires
        is_valid_state(s),
    ensures
        r == next(s, event),
        is_valid_state(r.0),
{
    match s {
        ClientState::AttemptConnect => match event {
            ClientEvent::Connected => (ClientState::Delivered, ClientAction::Finish),
            ClientEvent::ConnectFailed => (ClientState::AttemptLock, ClientAction::TryLock),
            _ => (ClientState::Failed, ClientAction::GiveUp),
        },
        ClientState::AttemptLock => match event {
            ClientEvent::LockAcquired => (ClientState::BecomeBackend, ClientAction::SpawnBackend),
            ClientEvent::LockBusy => (
                ClientState::RetryConnect { attempt: 1 },
                ClientAction::Connect,
            ),
            _ => (ClientState::Failed, ClientAction::GiveUp),
        },
        ClientState::BecomeBackend => match event {
            ClientEvent::BackendStarted => (ClientState::ReleaseLock, ClientAction::ReleaseLock),
            _ => (ClientState::Failed, ClientAction::GiveUp),
        },
        ClientState::ReleaseLock => match event {
            ClientEvent::LockReleased => (ClientState::Delivered, ClientAction::Finish),
            _ => (ClientState::Failed, ClientAction::GiveUp),
        },
        ClientState::RetryConnect { attempt } => match event {
            ClientEvent::Connected => (ClientState::Delivered, ClientAction::Finish),
            ClientEvent::ConnectFailed => if attempt < CONNECT_ATTEMPTS {
                (ClientState::RetryConnect { attempt: attempt + 1 }, ClientAction::WaitThenConnect)
            } else {
                (ClientState::Failed, ClientAction::GiveUp)
            },
            _ => (ClientState::Failed, ClientAction::GiveUp),
        },
        ClientState::Delivered => (ClientState::Delivered, ClientAction::Finish),
        ClientState::Failed => (ClientState::Failed, ClientAction::GiveUp),
    }
}

/// Every step from a state that is not terminal moves closer to a terminal
/// state, so a delivery ends, delivered or failed, after a bounded number of
/// steps; and a terminal state is left only to itself.
pub proof fn lemma_step_progress(s: ClientState, event: ClientEvent)
    requires
        is_valid_state(s),
    ensures
        is_valid_state(next(s, event).0),
        !is_terminal(s) ==> steps_left(next(s, event).0) < steps_left(s),
        is_terminal(s) ==> next(s, event).0 == s,
        steps_left(s) <= CONNECT_ATTEMPTS + 3,
{
}

/// A client makes at most one connection attempt before contending for the
/// lock and `CONNECT_ATTEMPTS` after losing it; it waits only between two of
/// those later attempts.
pub proof fn lemma_retries_bounded(s: ClientState, event: ClientEvent)
    requires
        is_valid_state(s),
        next(s, event).1 == ClientAction::WaitThenConnect,
    ensures
        s matches ClientState::RetryConnect { attempt } && attempt < CONNECT_ATTEMPTS,
        next(s, event).0 == (ClientState::RetryConnect {
            attempt: (s->attempt + 1) as u32,
        }),
{
}

/// The two names of a session: the editor's session, and the family of
/// control files (socket, lock file, pid file) of its server.
pub struct SessionNames {
    pub session: String,
    pub lsp_session: String,
}

/// Why no session could be named.
#[derive(PartialEq, Eq, Structural, Clone, Copy, Debug)]
pub enum SessionError {
    /// Neither the editor nor the command line named a session.
    Missing,
    /// The control-file session name is empty.
    Empty,
}

/// The session names from the editor's session `editor` and the command
/// line's `--session` value `given`: each falls back on the other.
pub fn resolve_session(editor: Option<String>, given: Option<String>) -> (r: Result<SessionNames, SessionError>)
    ensures
        match r {
            Ok(names) => {
                &&& editor is Some || given is Some
                &&& names.session@ == (if editor is Some { editor->0@ } else { given->0@ })
                &&& names.lsp_session@ == (if given is Some { given->0@ } else { editor->0@ })
                &&& names.lsp_session@.len() > 0
            },
            Err(e) => {
                &&& e == SessionError::Missing <==> (editor is None && given is None)
                &&& e == SessionError::Empty <==> (editor is Some || given is Some) && (if given is Some { given->0@ } else { editor->0@ }).len() == 0
            },
        },
{
    match (editor, given) {
        (None, None) => Err(SessionError::Missing),
        (Some(e), None) => {
            if e.as_str().is_empty() {
                Err(SessionError::Empty)
            } else {
                let l = e.clone();
                Ok(SessionNames { session: e, lsp_session: l })
            }
        },
        (None, Some(g)) => {
            if g.as_str().is_empty() {
                Err(SessionError::Empty)
            } else {
                let s = g.clone();
                Ok(SessionNames { session: s, lsp_session: g })
            }
        },
        (Some(e), Some(g)) => {
            if g.as_str().is_empty() {
                Err(SessionError::Empty)
            } else {
                Ok(SessionNames { session: e, lsp_session: g })
            }
        },
    }
}

/// Name of the lock file of the session `lsp_session`.
pub fn lock_file_name(lsp_session: &str) -> (r: String)
    ensures
        r@ == lsp_session@ + ".lock"@,
{
    let mut r = String::from_str(lsp_session);
    r.append(".lock");
    r
}

/// Name of the pid file of the session `lsp_session`.
pub fn pid_file_name(lsp_session: &str) -> (r: String)
    ensures
        r@ == lsp_session@ + ".pid"@,
{
    let mut r = String::from_str(lsp_session);
    r.append(".pid");
    r
}

/// The arguments `args` without the client's forwarding flag, followed by
/// the flags that make the new process a background server that reads its
/// first request from its input.
pub fn server_args(args: &Vec<String>) -> (r: Vec<String>)
    ensures
        r@.len() >= 2,
        r@.drop_last().drop_last().map_values(|a: String| a@) == args@.map_values(|a: String| a@).filter(
            |a: Seq<char>| a != "--request"@,
        ),
        r@[r@.len() - 2]@ == "--daemonize"@,
        r@.last()@ == "--initial-request"@,
{
    let request = String::from_str("--request");
    let mut out: Vec<String> = Vec::new();
    let ghost input = args@.map_values(|a: String| a@);
    let ghost pred = |a: Seq<char>| a != "--request"@;
    let mut i: usize = 0;
    proof {
        reveal(Seq::filter);
    }
    assert(out@.map_values(|a: String| a@) =~= input.take(0).filter(pred));
    while i < args.len()
        invariant
            i <= args@.len(),
            input == args@.map_values(|a: String| a@),
            request@ == "--request"@,
            pred == (|a: Seq<char>| a != "--request"@),
            out@.map_values(|a: String| a@) == input.take(i as int).filter(pred),
        decreases args@.len() - i,
    {
        proof {
            reveal(Seq::filter);
        }
        assert(input.take(i + 1).drop_last() == input.take(i as int));
        assert(input.take(i + 1).last() == args@[i as int]@);
        let a = &args[i];
        if !(*a == request) {
            out.push(String::from_str(a.as_str()));
        }
        i = i + 1;
        assert(out@.map_values(|a: String| a@) =~= input.take(i as int).filter(pred));
    }
    assert(input.take(i as int) == input);
    out.push(String::from_str("--daemonize"));
    out.push(String::from_str("--initial-request"));
    assert(out@.drop_last().drop_last().map_values(|a: String| a@) =~= input.filter(pred));
    out
}

} // verus!
