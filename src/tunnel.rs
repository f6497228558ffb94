use vstd::prelude::*;

verus! {

/// Messages exchanged between client and server over one stream.
pub enum TunnelMessage {
    /// Client asks to route a domain to one of its local ports.
    Register { domain: String, port: u16 },
    /// Server confirms a registration.
    Registered { domain: String },
    /// Client gives a domain up.
    Unregister { domain: String },
    /// Server confirms that the domain is no longer routed.
    Unregistered { domain: String },
    /// Client asks for the domains it owns.
    List,
    /// Server answers a `List`.
    TunnelList { tunnels: Vec<String> },
    /// Server reports a refused request.
    Error { message: String },
    /// An HTTP request carried through the tunnel.
    HttpRequest { method: String, uri: String, headers: Vec<(String, String)>, body: Vec<u8> },
    /// An HTTP response carried through the tunnel.
    HttpResponse { status: u16, headers: Vec<(String, String)>, body: Vec<u8> },
}

/// The mathematical value of a `TunnelMessage`: text as characters, lists as sequences.
pub enum MessageView {
    Register { domain: Seq<char>, port: u16 },
    Registered { domain: Seq<char> },
    Unregister { domain: Seq<char> },
    Unregistered { domain: Seq<char> },
    List,
    TunnelList { tunnels: Seq<Seq<char>> },
    Error { message: Seq<char> },
    HttpRequest {
        method: Seq<char>,
        uri: Seq<char>,
        headers: Seq<(Seq<char>, Seq<char>)>,
        body: Seq<u8>,
    },
    HttpResponse { status: u16, headers: Seq<(Seq<char>, Seq<char>)>, body: Seq<u8> },
}

pub open spec fn texts_view(v: Seq<String>) -> Seq<Seq<char>> {
    v.map_values(|s: String| s@)
}

pub open spec fn pairs_view(v: Seq<(String, String)>) -> Seq<(Seq<char>, Seq<char>)> {
    v.map_values(|p: (String, String)| (p.0@, p.1@))
}

impl View for TunnelMessage {
    type V = MessageView;

    open spec fn view(&self) -> MessageView {
        match self {
            TunnelMessage::Register { domain, port } => MessageView::Register {
                domain: domain@,
                port: *port,
            },
            TunnelMessage::Registered { domain } => MessageView::Registered { domain: domain@ },
            TunnelMessage::Unregister { domain } => MessageView::Unregister { domain: domain@ },
            TunnelMessage::Unregistered { domain } => MessageView::Unregistered { domain: domain@ },
            TunnelMessage::List => MessageView::List,
            TunnelMessage::TunnelList { tunnels } => MessageView::TunnelList {
                tunnels: texts_view(tunnels@),
            },
            TunnelMessage::Error { message } => MessageView::Error { message: message@ },
            TunnelMessage::HttpRequest { method, uri, headers, body } => MessageView::HttpRequest {
                method: method@,
                uri: uri@,
                headers: pairs_view(headers@),
                body: body@,
            },
            TunnelMessage::HttpResponse { status, headers, body } => MessageView::HttpResponse {
                status: *status,
                headers: pairs_view(headers@),
                body: body@,
            },
        }
    }
}

} // verus!
