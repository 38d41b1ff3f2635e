//! The protocol between the launcher server and the toggle client: where the
//! socket lives, what the client sends, when the server toggles, and how the
//! client goes from one step to the next.

use vstd::prelude::*;
use vstd::slice::slice_to_vec;
use vstd::utf8::{decode_utf8, encode_utf8, valid_utf8};

use crate::text::{
    is_space, lemma_trim_chars, lemma_trim_end_before_spaces, lemma_trim_end_shape,
    lemma_trim_start_after_spaces, lemma_trim_start_shape, opt_view, str_equals, trim, trim_end,
    trim_start, trim_str,
};

verus! {

/// `name` placed in the directory `dir` (as `PathBuf::join` does on Unix
/// with a relative name: a `/` is put between them unless `dir` is empty or
/// already ends with one).
pub open spec fn join_path(dir: Seq<char>, name: Seq<char>) -> Seq<char> {
    if dir.len() == 0 {
        name
    } else if dir.last() == '/' {
        dir + name
    } else {
        dir + seq!['/'] + name
    }
}

/// The runtime directory: `XDG_RUNTIME_DIR` when it is set, otherwise
/// `/tmp/runtime-` followed by `USER` (or `user` when that is not set).
pub open spec fn runtime_dir(xdg_runtime_dir: Option<Seq<char>>, user: Option<Seq<char>>) -> Seq<
    char,
> {
    match xdg_runtime_dir {
        Some(d) => d,
        None => "/tmp/runtime-"@ + match user {
            Some(u) => u,
            None => "user"@,
        },
    }
}

/// The path of the server's socket, `iumenu.sock` in the runtime directory,
/// given the values of `XDG_RUNTIME_DIR` and `USER` (`None` for one that is
/// not set).
pub fn get_socket_path(xdg_runtime_dir: Option<String>, user: Option<String>) -> (r: String)
    ensures
        r@ == join_path(runtime_dir(opt_view(xdg_runtime_dir), opt_view(user)), "iumenu.sock"@),
{
    let dir = match xdg_runtime_dir {
        Some(d) => d,
        None => {
            let mut d = "/tmp/runtime-".to_owned();
            match user {
                Some(u) => d.append(u.as_str()),
                None => d.append("user"),
            }
            d
        },
    };
    let n = dir.as_str().unicode_len();
    let mut path = dir.clone();
    if n > 0 && dir.as_str().get_char(n - 1) != '/' {
        path.append("/");
        proof {
            reveal_strlit("/");
        }
    }
    path.append("iumenu.sock");
    path
}

/// Law: the socket is `iumenu.sock` in the runtime directory: in
/// `XDG_RUNTIME_DIR` when that is set, with a `/` put between unless the
/// directory is empty or already ends with one; otherwise in
/// `/tmp/runtime-` followed by the user's name, or by `user` when `USER` is
/// not set either.
pub proof fn lemma_socket_path(xdg_runtime_dir: Option<Seq<char>>, user: Option<Seq<char>>)
    ensures
        xdg_runtime_dir matches Some(d) ==> (d.len() > 0 && d.last() != '/' ==> join_path(
            runtime_dir(xdg_runtime_dir, user),
            "iumenu.sock"@,
        ) == d + "/iumenu.sock"@),
        xdg_runtime_dir matches Some(d) ==> (d.len() > 0 && d.last() == '/' ==> join_path(
            runtime_dir(xdg_runtime_dir, user),
            "iumenu.sock"@,
        ) == d + "iumenu.sock"@),
        xdg_runtime_dir matches Some(d) ==> (d.len() == 0 ==> join_path(
            runtime_dir(xdg_runtime_dir, user),
            "iumenu.sock"@,
        ) == "iumenu.sock"@),
        xdg_runtime_dir is None ==> (user matches Some(u) ==> (u.len() == 0 || u.last() != '/'
            ==> join_path(runtime_dir(xdg_runtime_dir, user), "iumenu.sock"@) == "/tmp/runtime-"@
            + u + "/iumenu.sock"@)),
        xdg_runtime_dir is None && user is None ==> join_path(
            runtime_dir(xdg_runtime_dir, user),
            "iumenu.sock"@,
        ) == "/tmp/runtime-user/iumenu.sock"@,
{
    reveal_strlit("iumenu.sock");
    reveal_strlit("/iumenu.sock");
    reveal_strlit("/tmp/runtime-");
    reveal_strlit("user");
    reveal_strlit("/tmp/runtime-user/iumenu.sock");
    let name = "iumenu.sock"@;
    assert("/iumenu.sock"@ =~= seq!['/'] + name);
    match xdg_runtime_dir {
        Some(d) => {
            assert(d + seq!['/'] + name =~= d + "/iumenu.sock"@);
        },
        None => {
            let base = "/tmp/runtime-"@;
            match user {
                Some(u) => {
                    let dir = base + u;
                    if u.len() > 0 {
                        assert(dir.last() == u.last());
                    }
                    assert(dir + seq!['/'] + name =~= base + u + "/iumenu.sock"@);
                },
                None => {
                    let dir = base + "user"@;
                    assert(dir + seq!['/'] + name =~= "/tmp/runtime-user/iumenu.sock"@);
                },
            }
        },
    }
}

/// How long the client waits for the connection, in milliseconds.
pub const CONNECT_TIMEOUT_MS: u64 = 500;

/// How long the client waits for sending the request and for reading the
/// reply, in milliseconds.
pub const IO_TIMEOUT_MS: u64 = 200;

/// How many bytes the server and the client read from the socket at most.
pub const READ_BUFFER_LEN: usize = 32;

/// What the client sends to ask for a toggle: the bytes of `toggle`.
pub open spec fn request_bytes() -> Seq<u8> {
    encode_utf8("toggle"@)
}

/// What the server answers once it has toggled: the bytes of `ok`.
pub open spec fn reply_bytes() -> Seq<u8> {
    encode_utf8("ok"@)
}

/// The bytes the client sends to ask for a toggle.
pub fn toggle_request() -> (r: Vec<u8>)
    ensures
        r@ == request_bytes(),
{
    slice_to_vec("toggle".as_bytes())
}

/// The bytes the server answers with once it has toggled.
pub fn toggle_reply() -> (r: Vec<u8>)
    ensures
        r@ == reply_bytes(),
{
    slice_to_vec("ok".as_bytes())
}

/// The text that `String::from_utf8_lossy` makes of `bytes`.
pub uninterp spec fn utf8_lossy(bytes: Seq<u8>) -> Seq<char>;

/// Decodes `bytes` with `String::from_utf8_lossy`. The contract claims that
/// the text is a function of the bytes, named by `utf8_lossy`, and, as the
/// documentation says, that valid UTF-8 is decoded as it stands and that
/// invalid sequences are replaced by U+FFFD, so that the text of invalid
/// bytes holds that character; where the replacements stand is not stated.
#[verifier::external_body]
fn decode_utf8_lossy(bytes: &[u8]) -> (r: String)
    ensures
        r@ == utf8_lossy(bytes@),
        valid_utf8(bytes@) ==> r@ == decode_utf8(bytes@),
        !valid_utf8(bytes@) ==> r@.contains('\u{fffd}'),
{
    String::from_utf8_lossy(bytes).into_owned()
}

/// The message asks for a toggle: it is `toggle`, give or take surrounding
/// white space.
pub open spec fn is_toggle_text(message: Seq<char>) -> bool {
    trim(message) == "toggle"@
}

/// The text the server reads from the bytes it received: their UTF-8
/// decoding when they are valid UTF-8, otherwise what `from_utf8_lossy`
/// makes of them.
pub open spec fn received_text(received: Seq<u8>) -> Seq<char> {
    if valid_utf8(received) {
        decode_utf8(received)
    } else {
        utf8_lossy(received)
    }
}

/// The server toggles on what it received: something, which decodes to a
/// toggle message.
pub open spec fn request_accepted(received: Seq<u8>) -> bool {
    received.len() > 0 && is_toggle_text(received_text(received))
}

/// Law: a message asks for a toggle exactly when it is `toggle` with
/// nothing but white space before and after it.
pub proof fn lemma_toggle_text(message: Seq<char>, before: Seq<char>, after: Seq<char>)
    ensures
        (forall|k: int| 0 <= k < before.len() ==> is_space(#[trigger] before[k])) && (forall|k: int|
            0 <= k < after.len() ==> is_space(#[trigger] after[k])) ==> is_toggle_text(
            before + "toggle"@ + after,
        ),
        is_toggle_text(message) ==> exists|a: int, b: int|
            0 <= a <= b <= message.len() && message.subrange(a, b) == "toggle"@ && (forall|k: int|
                0 <= k < a ==> is_space(#[trigger] message[k])) && (forall|k: int|
                b <= k < message.len() ==> is_space(#[trigger] message[k])),
{
    reveal_strlit("toggle");
    let t = "toggle"@;
    if (forall|k: int| 0 <= k < before.len() ==> is_space(#[trigger] before[k])) && (forall|k: int|
        0 <= k < after.len() ==> is_space(#[trigger] after[k])) {
        let m = before + t + after;
        assert(m =~= before + (t + after));
        lemma_trim_start_after_spaces(before, t + after);
        assert((t + after)[0] == 't');
        assert(trim_start(t + after) == t + after);
        lemma_trim_end_before_spaces(t, after);
        assert(t.last() == 'e');
        assert(trim_end(t) == t);
    }
    if is_toggle_text(message) {
        lemma_trim_start_shape(message);
        let ts = trim_start(message);
        let a = message.len() - ts.len();
        lemma_trim_end_shape(ts);
        let b = a + trim_end(ts).len();
        assert(message.subrange(a, b) =~= trim_end(ts));
        assert forall|k: int| b <= k < message.len() implies is_space(#[trigger] message[k]) by {
            assert(message[k] == ts[k - a]);
        }
    }
}

/// Whether a decoded message asks for a toggle.
pub fn is_toggle_message(message: &str) -> (r: bool)
    ensures
        r == is_toggle_text(message@),
{
    let t = trim_str(message);
    str_equals(t.as_str(), "toggle")
}

/// Whether the server toggles (and answers with the reply) on the bytes it
/// received from a client; it never toggles on bytes that are not valid
/// UTF-8.
pub fn handle_request(received: &[u8]) -> (r: bool)
    ensures
        r == request_accepted(received@),
        r ==> valid_utf8(received@),
{
    if received.len() == 0 {
        return false;
    }
    let message = decode_utf8_lossy(received);
    let r = is_toggle_message(message.as_str());
    proof {
        if !valid_utf8(received@) {
            let c = '\u{fffd}';
            assert(!is_space(c));
            lemma_trim_chars(message@);
            assert(trim(message@).contains(c));
            reveal_strlit("toggle");
            if trim(message@) == "toggle"@ {
                let k = choose|k: int| 0 <= k < trim(message@).len() && trim(message@)[k] == c;
                assert("toggle"@[k] == c);
            }
        }
    }
    r
}

/// Whether the bytes the client read back are the server's reply.
pub fn is_toggle_reply(response: &[u8]) -> (r: bool)
    ensures
        r == (response@ == reply_bytes()),
{
    let expected = "ok".as_bytes();
    if response.len() != expected.len() {
        return false;
    }
    let mut i: usize = 0;
    while i < response.len()
        invariant
            i <= response@.len(),
            response@.len() == expected@.len(),
            expected@ == reply_bytes(),
            forall|j: int| 0 <= j < i ==> response@[j] == expected@[j],
        decreases response@.len() - i,
    {
        if response[i] != expected[i] {
            return false;
        }
        i = i + 1;
    }
    assert(response@ =~= expected@);
    true
}

/// Why a toggle request failed.
#[derive(Debug, PartialEq, Eq, Structural)]
pub enum ToggleError {
    /// There is no socket: the server is not running.
    ServerNotRunning,
    /// Connecting to the server took too long.
    ConnectTimedOut,
    /// Sending the request took too long.
    WriteTimedOut,
    /// Reading the reply took too long.
    ReadTimedOut,
    /// The server answered something other than the reply.
    InvalidResponse,
}

/// Where the client is in a toggle request.
#[derive(Debug, PartialEq, Eq, Structural)]
pub enum ClientPhase {
    /// Nothing done yet: the client is looking for the socket.
    Start,
    /// The client is connecting to the socket.
    Connecting,
    /// The client is sending the request.
    Sending,
    /// The client is reading the reply.
    Receiving,
    /// The request is over.
    Done,
}

/// What happened to the step that the client last asked for.
pub enum ClientEvent {
    /// The socket file was looked for: whether it exists.
    SocketChecked(bool),
    /// The connection is open.
    Connected,
    /// The request was written.
    Sent,
    /// These bytes were read back.
    Received(Vec<u8>),
    /// The step did not finish in time.
    TimedOut,
}

/// What the client does next.
#[derive(Debug, PartialEq, Eq, Structural)]
pub enum ClientAction {
    /// Connect to the socket.
    Connect,
    /// Write the request (the bytes of `toggle_request`).
    Send,
    /// Read the reply.
    Receive,
    /// Stop: the server toggled.
    Succeed,
    /// Stop: the request failed for this reason.
    Fail(ToggleError),
    /// The event does not belong to this phase: nothing to do.
    Ignore,
}

/// The client's next phase and action after `event` in `phase`.
pub open spec fn client_transition(phase: ClientPhase, event: ClientEvent) -> (
    ClientPhase,
    ClientAction,
) {
    match (phase, event) {
        (ClientPhase::Start, ClientEvent::SocketChecked(exists)) => if exists {
            (ClientPhase::Connecting, ClientAction::Connect)
        } else {
            (ClientPhase::Done, ClientAction::Fail(ToggleError::ServerNotRunning))
        },
        (ClientPhase::Connecting, ClientEvent::Connected) => (
            ClientPhase::Sending,
            ClientAction::Send,
        ),
        (ClientPhase::Connecting, ClientEvent::TimedOut) => (
            ClientPhase::Done,
            ClientAction::Fail(ToggleError::ConnectTimedOut),
        ),
        (ClientPhase::Sending, ClientEvent::Sent) => (ClientPhase::Receiving, ClientAction::Receive),
        (ClientPhase::Sending, ClientEvent::TimedOut) => (
            ClientPhase::Done,
            ClientAction::Fail(ToggleError::WriteTimedOut),
        ),
        (ClientPhase::Receiving, ClientEvent::Received(bytes)) => (
            ClientPhase::Done,
            if bytes@ == reply_bytes() {
                ClientAction::Succeed
            } else {
                ClientAction::Fail(ToggleError::InvalidResponse)
            },
        ),
        (ClientPhase::Receiving, ClientEvent::TimedOut) => (
            ClientPhase::Done,
            ClientAction::Fail(ToggleError::ReadTimedOut),
        ),
        (p, _) => (p, ClientAction::Ignore),
    }
}

/// The client's next phase and action after `event` in `phase`: it looks for
/// the socket, connects, sends the request, reads the reply, and succeeds
/// only when the reply is `ok`; a missing socket or a step that times out
/// ends the request with the matching error.
pub fn client_step(phase: ClientPhase, event: ClientEvent) -> (r: (ClientPhase, ClientAction))
    ensures
        r == client_transition(phase, event),
{
    match (phase, event) {
        (ClientPhase::Start, ClientEvent::SocketChecked(exists)) => if exists {
            (ClientPhase::Connecting, ClientAction::Connect)
        } else {
            (ClientPhase::Done, ClientAction::Fail(ToggleError::ServerNotRunning))
        },
        (ClientPhase::Connecting, ClientEvent::Connected) => (
            ClientPhase::Sending,
            ClientAction::Send,
        ),
        (ClientPhase::Connecting, ClientEvent::TimedOut) => (
            ClientPhase::Done,
            ClientAction::Fail(ToggleError::ConnectTimedOut),
        ),
        (ClientPhase::Sending, ClientEvent::Sent) => (ClientPhase::Receiving, ClientAction::Receive),
        (ClientPhase::Sending, ClientEvent::TimedOut) => (
            ClientPhase::Done,
            ClientAction::Fail(ToggleError::WriteTimedOut),
        ),
        (ClientPhase::Receiving, ClientEvent::Received(bytes)) => {
            let action = if is_toggle_reply(bytes.as_slice()) {
                ClientAction::Succeed
            } else {
                ClientAction::Fail(ToggleError::InvalidResponse)
            };
            (ClientPhase::Done, action)
        },
        (ClientPhase::Receiving, ClientEvent::TimedOut) => (
            ClientPhase::Done,
            ClientAction::Fail(ToggleError::ReadTimedOut),
        ),
        (p, _) => (p, ClientAction::Ignore),
    }
}

/// Law: the request that the client sends is one on which the server
/// toggles.
pub proof fn lemma_request_accepted()
    ensures
        request_accepted(request_bytes()),
{
    broadcast use vstd::utf8::group_utf8_lib;

    reveal_strlit("toggle");
    let t = "toggle"@;
    assert(vstd::utf8::is_ascii_chars(t));
    vstd::utf8::is_ascii_chars_encode_utf8(t);
    vstd::utf8::encode_utf8_valid_utf8(t);
    vstd::utf8::encode_utf8_decode_utf8(t);
    assert(trim(t) == t);
}

/// The phases and actions of a client that goes through `events` from
/// `phase`, one step per event.
pub open spec fn client_run(phase: ClientPhase, events: Seq<ClientEvent>) -> (
    ClientPhase,
    Seq<ClientAction>,
)
    decreases events.len(),
{
    if events.len() == 0 {
        (phase, Seq::empty())
    } else {
        let (next, action) = client_transition(phase, events[0]);
        let (last, rest) = client_run(next, events.skip(1));
        (last, seq![action] + rest)
    }
}

/// Law: a client step succeeds only while reading the reply, on the reply
/// bytes; and a finished request stays finished, ignoring any event.
pub proof fn lemma_success_only_on_reply(phase: ClientPhase, event: ClientEvent)
    ensures
        client_transition(phase, event).1 == ClientAction::Succeed ==> phase
            == ClientPhase::Receiving && (event matches ClientEvent::Received(b) && b@
            == reply_bytes()),
        phase == ClientPhase::Done ==> client_transition(phase, event) == (
            ClientPhase::Done,
            ClientAction::Ignore,
        ),
{
}

/// Law: a client that finds the socket, connects, sends, and reads back the
/// reply succeeds, after asking for exactly those steps.
pub proof fn lemma_toggle_exchange(reply: Vec<u8>)
    requires
        reply@ == reply_bytes(),
    ensures
        client_run(
            ClientPhase::Start,
            seq![
                ClientEvent::SocketChecked(true),
                ClientEvent::Connected,
                ClientEvent::Sent,
                ClientEvent::Received(reply),
            ],
        ) == (
            ClientPhase::Done,
            seq![
                ClientAction::Connect,
                ClientAction::Send,
                ClientAction::Receive,
                ClientAction::Succeed,
            ],
        ),
{
    let events = seq![
        ClientEvent::SocketChecked(true),
        ClientEvent::Connected,
        ClientEvent::Sent,
        ClientEvent::Received(reply),
    ];
    assert(events.skip(1) =~= seq![ClientEvent::Connected, ClientEvent::Sent, ClientEvent::Received(reply)]);
    assert(events.skip(1).skip(1) =~= seq![ClientEvent::Sent, ClientEvent::Received(reply)]);
    assert(events.skip(1).skip(1).skip(1) =~= seq![ClientEvent::Received(reply)]);
    assert(events.skip(1).skip(1).skip(1).skip(1) =~= Seq::<ClientEvent>::empty());
    let r5 = client_run(ClientPhase::Done, events.skip(1).skip(1).skip(1).skip(1));
    assert(r5.0 == ClientPhase::Done && r5.1 =~= Seq::<ClientAction>::empty());
    assert(events.skip(1).skip(1).skip(1)[0] == ClientEvent::Received(reply));
    let r4 = client_run(ClientPhase::Receiving, events.skip(1).skip(1).skip(1));
    assert(r4.0 == ClientPhase::Done);
    assert(r4.1 =~= seq![ClientAction::Succeed]);
    let r3 = client_run(ClientPhase::Sending, events.skip(1).skip(1));
    assert(r3.1 =~= seq![ClientAction::Receive, ClientAction::Succeed]);
    let r2 = client_run(ClientPhase::Connecting, events.skip(1));
    assert(r2.1 =~= seq![ClientAction::Send, ClientAction::Receive, ClientAction::Succeed]);
    assert(client_run(ClientPhase::Start, events).1 =~= seq![
        ClientAction::Connect,
        ClientAction::Send,
        ClientAction::Receive,
        ClientAction::Succeed,
    ]);
}


/// The client actions hold no `Ignore`: every event fitted the phase it came
/// in, as when the events answer the actions that the client asked for.
pub open spec fn no_ignored(actions: Seq<ClientAction>) -> bool {
    forall|i: int| 0 <= i < actions.len() ==> actions[i] != ClientAction::Ignore
}

/// The event is the reply read back in time.
pub open spec fn is_reply_event(event: ClientEvent) -> bool {
    event matches ClientEvent::Received(b) && b@ == reply_bytes()
}

/// The events that lead from `phase` to success, and nothing after: each
/// remaining step done in time, then the reply.
pub open spec fn succeeding_events(phase: ClientPhase, events: Seq<ClientEvent>) -> bool {
    match phase {
        ClientPhase::Start => events.len() == 4 && events[0] == ClientEvent::SocketChecked(true)
            && events[1] == ClientEvent::Connected && events[2] == ClientEvent::Sent
            && is_reply_event(events[3]),
        ClientPhase::Connecting => events.len() == 3 && events[0] == ClientEvent::Connected
            && events[1] == ClientEvent::Sent && is_reply_event(events[2]),
        ClientPhase::Sending => events.len() == 2 && events[0] == ClientEvent::Sent
            && is_reply_event(events[1]),
        ClientPhase::Receiving => events.len() == 1 && is_reply_event(events[0]),
        ClientPhase::Done => false,
    }
}

/// From any phase, a run whose events all fit succeeds exactly on the
/// events that lead to success.
pub proof fn lemma_run_succeeds(phase: ClientPhase, events: Seq<ClientEvent>)
    requires
        no_ignored(client_run(phase, events).1),
    ensures
        client_run(phase, events).1.contains(ClientAction::Succeed) <==> succeeding_events(
            phase,
            events,
        ),
    decreases events.len(),
{
    let acts = client_run(phase, events).1;
    if events.len() == 0 {
        assert(acts.len() == 0);
    } else {
        let (next, action) = client_transition(phase, events[0]);
        let rest = events.skip(1);
        let tail = client_run(next, rest).1;
        assert(acts == seq![action] + tail);
        assert(action != ClientAction::Ignore) by {
            assert(acts[0] == action);
        }
        assert(no_ignored(tail)) by {
            assert forall|i: int| 0 <= i < tail.len() implies tail[i] != ClientAction::Ignore by {
                assert(acts[i + 1] == tail[i]);
            }
        }
        lemma_run_succeeds(next, rest);
        if next == ClientPhase::Done && rest.len() > 0 {
            assert(tail[0] == ClientAction::Ignore);
        }
        assert(acts.contains(ClientAction::Succeed) <==> (action == ClientAction::Succeed
            || tail.contains(ClientAction::Succeed))) by {
            if acts.contains(ClientAction::Succeed) {
                let i = choose|i: int| 0 <= i < acts.len() && acts[i] == ClientAction::Succeed;
                if i > 0 {
                    assert(tail[i - 1] == ClientAction::Succeed);
                }
            }
            if tail.contains(ClientAction::Succeed) {
                let i = choose|i: int| 0 <= i < tail.len() && tail[i] == ClientAction::Succeed;
                assert(acts[i + 1] == ClientAction::Succeed);
            }
            if action == ClientAction::Succeed {
                assert(acts[0] == ClientAction::Succeed);
            }
        }
        if rest.len() > 0 {
            assert(rest[0] == events[1]);
        }
        if rest.len() > 1 {
            assert(rest[1] == events[2]);
        }
        if rest.len() > 2 {
            assert(rest[2] == events[3]);
        }
    }
}

/// Law: a toggle request, driven by events that answer the client's
/// actions, succeeds exactly when the socket exists, the connection opens in
/// time, the request is sent in time, and the reply read back in time is
/// `ok`.
pub proof fn lemma_toggle_succeeds_exactly(events: Seq<ClientEvent>)
    requires
        no_ignored(client_run(ClientPhase::Start, events).1),
    ensures
        client_run(ClientPhase::Start, events).1.contains(ClientAction::Succeed) <==> (
        events.len() == 4 && events[0] == ClientEvent::SocketChecked(true) && events[1]
            == ClientEvent::Connected && events[2] == ClientEvent::Sent && is_reply_event(
            events[3],
        )),
{
    lemma_run_succeeds(ClientPhase::Start, events);
}

} // verus!
