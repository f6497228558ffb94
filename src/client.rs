use vstd::prelude::*;

use crate::tunnel::{MessageView, TunnelMessage, texts_view};

verus! {

/// Why a client exchange with the server failed.
#[derive(Debug, PartialEq, Eq)]
pub enum ClientError {
    /// No connection to the server could be opened.
    ConnectFailed,
    /// The server refused the request, with its reason.
    Rejected(String),
    /// The server answered with a message that does not fit the request.
    UnexpectedReply,
}

/// Phases of a client tunnel session.
#[derive(Debug, Clone, Copy, PartialEq, Eq, Structural)]
pub enum ClientState {
    Connecting,
    Registering,
    Active,
    ShuttingDown,
    Closed,
}

/// What happened outside the session since the last step.
pub enum ClientEvent {
    /// The connection to the server is open.
    Connected,
    /// The connection to the server could not be opened.
    ConnectFailed,
    /// The server answered on the registration stream.
    Reply(TunnelMessage),
    /// The operator asked the tunnel to stop.
    Interrupted,
    /// The unregistration was sent, or sending it failed.
    UnregisterDone,
}

/// What the session asks its driver to do next.
#[derive(Debug, PartialEq, Eq)]
pub enum ClientAction {
    /// Open a stream and send `Register` for the session's domain and port.
    SendRegister,
    /// Run the local HTTP listener until interrupted.
    StartProxy,
    /// Send `Unregister` for the domain on a fresh stream, best effort.
    SendUnregister,
    /// Stop: the session is over and ends well.
    Finish,
    /// Stop with an error.
    Fail(ClientError),
    /// Nothing to do for this event in this phase.
    Ignore,
}

/// The request that registers `domain` for local port `port`.
pub fn register_request(domain: &String, port: u16) -> (r: TunnelMessage)
    ensures
        r@ == (MessageView::Register { domain: domain@, port }),
{
    TunnelMessage::Register { domain: domain.clone(), port }
}

/// The request that gives `domain` up.
pub fn unregister_request(domain: &String) -> (r: TunnelMessage)
    ensures
        r@ == (MessageView::Unregister { domain: domain@ }),
{
    TunnelMessage::Unregister { domain: domain.clone() }
}

/// Reads the server's answer to `Register`: the registered domain, the server's
/// reason for a refusal, or `UnexpectedReply`.
pub fn registration_result(reply: TunnelMessage) -> (r: Result<String, ClientError>)
    ensures
        match reply@ {
            MessageView::Registered { domain } => r matches Ok(d) && d@ == domain,
            MessageView::Error { message } => r matches Err(ClientError::Rejected(m)) && m@
                == message,
            _ => r matches Err(ClientError::UnexpectedReply),
        },
{
    match reply {
        TunnelMessage::Registered { domain } => Ok(domain),
        TunnelMessage::Error { message } => Err(ClientError::Rejected(message)),
        _ => Err(ClientError::UnexpectedReply),
    }
}

/// Reads the server's answer to `List`: the listed domains, or `UnexpectedReply`.
pub fn listing_result(reply: TunnelMessage) -> (r: Result<Vec<String>, ClientError>)
    ensures
        match reply@ {
            MessageView::TunnelList { tunnels } => r matches Ok(v) && texts_view(v@) == tunnels,
            _ => r matches Err(ClientError::UnexpectedReply),
        },
{
    match reply {
        TunnelMessage::TunnelList { tunnels } => Ok(tunnels),
        _ => Err(ClientError::UnexpectedReply),
    }
}

/// One step of a client tunnel session: the next phase and what to do.
/// A refused or unexpected registration reply closes the session with an error;
/// an interrupt while active leads to one best-effort unregistration, then the end.
pub fn client_step(state: ClientState, event: ClientEvent) -> (r: (ClientState, ClientAction))
    ensures
        match (state, event) {
            (ClientState::Connecting, ClientEvent::Connected) => r.0 == ClientState::Registering
                && r.1 matches ClientAction::SendRegister,
            (ClientState::Connecting, ClientEvent::ConnectFailed) => r.0 == ClientState::Closed
                && r.1 matches ClientAction::Fail(ClientError::ConnectFailed),
            (ClientState::Registering, ClientEvent::Reply(m)) => match m@ {
                MessageView::Registered { .. } => r.0 == ClientState::Active
                    && r.1 matches ClientAction::StartProxy,
                MessageView::Error { message } => r.0 == ClientState::Closed && (r.1 matches ClientAction::Fail(
                    ClientError::Rejected(t),
                ) && t@ == message),
                _ => r.0 == ClientState::Closed
                    && r.1 matches ClientAction::Fail(ClientError::UnexpectedReply),
            },
            (ClientState::Active, ClientEvent::Interrupted) => r.0 == ClientState::ShuttingDown
                && r.1 matches ClientAction::SendUnregister,
            (ClientState::ShuttingDown, ClientEvent::UnregisterDone) => r.0 == ClientState::Closed
                && r.1 matches ClientAction::Finish,
            _ => r.0 == state && r.1 matches ClientAction::Ignore,
        },
{
    match (state, event) {
        (ClientState::Connecting, ClientEvent::Connected) => (
            ClientState::Registering,
            ClientAction::SendRegister,
        ),
        (ClientState::Connecting, ClientEvent::ConnectFailed) => (
            ClientState::Closed,
            ClientAction::Fail(ClientError::ConnectFailed),
        ),
        (ClientState::Registering, ClientEvent::Reply(m)) => match registration_result(m) {
            Ok(_) => (ClientState::Active, ClientAction::StartProxy),
            Err(e) => (ClientState::Closed, ClientAction::Fail(e)),
        },
        (ClientState::Active, ClientEvent::Interrupted) => (
            ClientState::ShuttingDown,
            ClientAction::SendUnregister,
        ),
        (ClientState::ShuttingDown, ClientEvent::UnregisterDone) => (
            ClientState::Closed,
            ClientAction::Finish,
        ),
        (s, _) => (s, ClientAction::Ignore),
    }
}

} // verus!
