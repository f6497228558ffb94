use vstd::prelude::*;

use crate::config::Auth;
use crate::codec::{CodecError, MAX_MESSAGE_SIZE, decode, decode_result, encode, encode_message};
use crate::registry::{
    Registry,
    RecordView,
    after_register,
    has_domain,
    lemma_without_drops,
    listed,
    without,
    without_connection,
};
use crate::text::same_text;
use crate::tunnel::{MessageView, TunnelMessage, texts_view};

verus! {

/// The text of the `Error` reply to a registration of a taken domain.
pub open spec fn in_use_message(domain: Seq<char>) -> Seq<char> {
    "Domain "@ + domain + " is already in use"@
}

/// The registry after client `client`, on connection `conn`, sends `m` at time `now`.
pub open spec fn serve_step(
    s: Seq<RecordView>,
    client: Seq<char>,
    conn: u64,
    m: MessageView,
    now: u64,
) -> Seq<RecordView> {
    match m {
        MessageView::Register { domain, port } => after_register(
            s,
            RecordView {
                domain,
                client_id: client,
                connection: conn,
                target_port: port,
                created_at: now,
            },
        ),
        MessageView::Unregister { domain } => without(s, domain),
        _ => s,
    }
}

/// The reply to `m` from client `client`; `None` where the message is ignored.
pub open spec fn serve_reply(s: Seq<RecordView>, client: Seq<char>, m: MessageView) -> Option<
    MessageView,
> {
    match m {
        MessageView::Register { domain, port } => if has_domain(s, domain) {
            Some(MessageView::Error { message: in_use_message(domain) })
        } else {
            Some(MessageView::Registered { domain })
        },
        MessageView::Unregister { domain } => Some(MessageView::Unregistered { domain }),
        MessageView::List => Some(MessageView::TunnelList { tunnels: listed(s, Some(client)) }),
        _ => None,
    }
}

/// The registry after `client` sends `msgs` in turn on connection `conn`.
pub open spec fn serve_all(
    s: Seq<RecordView>,
    client: Seq<char>,
    conn: u64,
    msgs: Seq<MessageView>,
    now: u64,
) -> Seq<RecordView>
    decreases msgs.len(),
{
    if msgs.len() == 0 {
        s
    } else {
        serve_step(serve_all(s, client, conn, msgs.drop_last(), now), client, conn, msgs.last(), now)
    }
}

/// The text of the `Error` reply sent in place of a reply too large to encode.
pub open spec fn too_large_text() -> Seq<char> {
    "Reply too large"@
}

/// The bytes sent back for reply `v`.
pub open spec fn reply_bytes(v: MessageView) -> Seq<u8> {
    if encode_message(v).len() <= MAX_MESSAGE_SIZE {
        encode_message(v)
    } else {
        encode_message(MessageView::Error { message: too_large_text() })
    }
}

/// What the connection handler does after reading one stream.
pub enum StreamAction {
    /// Write these bytes back on the stream and close its write side.
    Send(Vec<u8>),
    /// Send nothing and go on with the next stream.
    Drop,
    /// Close the whole connection.
    Close,
}

/// An accepted connection from an authorized client.
pub struct Session {
    client_id: String,
    connection: u64,
}

impl Session {
    pub closed spec fn peer(&self) -> Seq<char> {
        self.client_id@
    }

    pub closed spec fn conn(&self) -> u64 {
        self.connection
    }

    /// Admits connection `connection` from `client_id` only if the allow-list
    /// holds it. The caller numbers its connections so that no two live ones share
    /// a number.
    pub fn accept(auth: &Auth, client_id: String, connection: u64) -> (r: Option<Session>)
        ensures
            r is Some <==> auth@.contains(client_id@),
            r matches Some(x) ==> x.peer() == client_id@ && x.conn() == connection,
    {
        if auth.is_authorized(client_id.as_str()) {
            Some(Session { client_id, connection })
        } else {
            None
        }
    }

    /// The identity of the connected client.
    pub fn client_id(&self) -> (r: &String)
        ensures
            r@ == self.peer(),
    {
        &self.client_id
    }

    /// Applies one control message to the registry and gives the reply, if any.
    pub fn handle(&self, registry: &mut Registry, msg: TunnelMessage, now: u64) -> (r: Option<
        TunnelMessage,
    >)
        requires
            old(registry).well_formed(),
        ensures
            final(registry).well_formed(),
            final(registry)@ == serve_step(old(registry)@, self.peer(), self.conn(), msg@, now),
            match serve_reply(old(registry)@, self.peer(), msg@) {
                Some(v) => r matches Some(x) && x@ == v,
                None => r is None,
            },
    {
        match msg {
            TunnelMessage::Register { domain, port } => {
                let reply_domain = domain.clone();
                match registry.register_tunnel(
                    domain,
                    self.client_id.clone(),
                    self.connection,
                    port,
                    now,
                ) {
                    Ok(()) => Some(TunnelMessage::Registered { domain: reply_domain }),
                    Err(_) => {
                        let message = in_use_text(&reply_domain);
                        Some(TunnelMessage::Error { message })
                    },
                }
            },
            TunnelMessage::Unregister { domain } => {
                registry.unregister_tunnel(domain.as_str());
                Some(TunnelMessage::Unregistered { domain })
            },
            TunnelMessage::List => {
                let tunnels = registry.domains(Some(self.client_id.as_str()));
                assert(texts_view(tunnels@) == tunnels@.map_values(|s: String| s@));
                Some(TunnelMessage::TunnelList { tunnels })
            },
            _ => None,
        }
    }

    /// Handles the bytes read from one stream. Oversized input closes the
    /// connection; malformed input and messages a server does not take are
    /// dropped; anything else is applied and answered.
    #[verifier::rlimit(100)]
    #[verifier::spinoff_prover]
    pub fn serve_stream(&self, registry: &mut Registry, input: &[u8], now: u64) -> (r: StreamAction)
        requires
            old(registry).well_formed(),
        ensures
            final(registry).well_formed(),
            match decode_result(input@) {
                Err(CodecError::TooLarge) => r is Close && final(registry)@ == old(registry)@,
                Err(CodecError::Malformed) => r is Drop && final(registry)@ == old(registry)@,
                Ok(m) => final(registry)@ == serve_step(
                    old(registry)@,
                    self.peer(),
                    self.conn(),
                    m,
                    now,
                ) && match serve_reply(old(registry)@, self.peer(), m) {
                    Some(v) => r matches StreamAction::Send(b) && b@ == reply_bytes(v),
                    None => r is Drop,
                },
            },
    {
        match decode(input) {
            Err(CodecError::TooLarge) => StreamAction::Close,
            Err(CodecError::Malformed) => StreamAction::Drop,
            Ok(msg) => match self.handle(registry, msg, now) {
                None => StreamAction::Drop,
                Some(reply) => match encode(&reply) {
                    Ok(bytes) => StreamAction::Send(bytes),
                    Err(_) => {
                        proof {
                            reveal_strlit("Reply too large");
                            reveal_with_fuel(vstd::utf8::encode_utf8, 16);
                        }
                        let fallback = TunnelMessage::Error { message: "Reply too large".to_owned() };
                        match encode(&fallback) {
                            Ok(bytes) => StreamAction::Send(bytes),
                            Err(_) => StreamAction::Close,
                        }
                    },
                },
            },
        }
    }

    /// Ends the session: the records registered through this connection go, and
    /// those of every other connection stay, even of the same client.
    pub fn close(&self, registry: &mut Registry)
        requires
            old(registry).well_formed(),
        ensures
            final(registry).well_formed(),
            final(registry)@ == without_connection(old(registry)@, self.conn()),
    {
        registry.release_connection(self.connection);
    }
}

fn in_use_text(domain: &String) -> (r: String)
    ensures
        r@ == in_use_message(domain@),
{
    proof {
        reveal_strlit("Domain ");
        reveal_strlit(" is already in use");
    }
    "Domain ".to_owned().concat(domain.as_str()).concat(" is already in use")
}

proof fn lemma_step_keeps_out(s: Seq<RecordView>, p: Seq<char>, c: Seq<char>, conn: u64, m: MessageView, now: u64)
    requires
        p != c,
        forall|i: int| 0 <= i < s.len() ==> #[trigger] s[i].client_id != c,
    ensures
        forall|i: int|
            0 <= i < serve_step(s, p, conn, m, now).len() ==> #[trigger] serve_step(
                s,
                p,
                conn,
                m,
                now,
            )[i].client_id != c,
{
    let n = serve_step(s, p, conn, m, now);
    match m {
        MessageView::Unregister { domain } => {
            lemma_without_drops(s, domain);
            assert forall|i: int| 0 <= i < n.len() implies #[trigger] n[i].client_id != c by {
                assert(n.contains(n[i]));
                assert(s.contains(n[i]));
                let j = choose|j: int| 0 <= j < s.len() && s[j] == n[i];
                assert(s[j].client_id != c);
            }
        },
        MessageView::Register { domain, port } => {
            assert forall|i: int| 0 <= i < n.len() implies #[trigger] n[i].client_id != c by {
                if i < s.len() {
                    assert(n[i] == s[i]);
                }
            }
        },
        _ => {},
    }
}

/// Authorization gate: sessions exist only for identities on the allow-list, so
/// whatever an admitted client sends, no record owned by an identity off the list
/// appears in the registry.
pub proof fn lemma_authorization_gate(
    s: Seq<RecordView>,
    allowed: Set<Seq<char>>,
    peer: Seq<char>,
    outsider: Seq<char>,
    conn: u64,
    msgs: Seq<MessageView>,
    now: u64,
)
    requires
        allowed.contains(peer),
        !allowed.contains(outsider),
        forall|i: int| 0 <= i < s.len() ==> #[trigger] s[i].client_id != outsider,
    ensures
        forall|i: int|
            0 <= i < serve_all(s, peer, conn, msgs, now).len() ==> #[trigger] serve_all(
                s,
                peer,
                conn,
                msgs,
                now,
            )[i].client_id != outsider,
    decreases msgs.len(),
{
    if msgs.len() > 0 {
        lemma_authorization_gate(s, allowed, peer, outsider, conn, msgs.drop_last(), now);
        lemma_step_keeps_out(
            serve_all(s, peer, conn, msgs.drop_last(), now),
            peer,
            outsider,
            conn,
            msgs.last(),
            now,
        );
    }
}

/// A route of the admin endpoint.
#[derive(Debug, Clone, Copy, PartialEq, Eq, Structural)]
pub enum AdminRoute {
    /// `GET /health`
    Health,
    /// `GET /tunnels`
    Tunnels,
    /// Anything else.
    NotFound,
}

/// Picks the admin route for a request line.
pub fn admin_route(method: &str, path: &str) -> (r: AdminRoute)
    ensures
        r == (if method@ == "GET"@ && path@ == "/health"@ {
            AdminRoute::Health
        } else if method@ == "GET"@ && path@ == "/tunnels"@ {
            AdminRoute::Tunnels
        } else {
            AdminRoute::NotFound
        }),
{
    proof {
        reveal_strlit("GET");
        reveal_strlit("/health");
        reveal_strlit("/tunnels");
    }
    if same_text(method, "GET") {
        if same_text(path, "/health") {
            return AdminRoute::Health;
        }
        if same_text(path, "/tunnels") {
            return AdminRoute::Tunnels;
        }
    }
    AdminRoute::NotFound
}

/// The status code that an admin route answers with.
pub fn admin_status(route: AdminRoute) -> (r: u16)
    ensures
        r == (if route == AdminRoute::NotFound {
            404u16
        } else {
            200u16
        }),
{
    match route {
        AdminRoute::NotFound => 404,
        _ => 200,
    }
}

} // verus!
