use vstd::prelude::*;
use vstd::utf8::*;

use crate::text::same_text;

verus! {

/// Status of a reply synthesized when the local service cannot be reached.
pub const BAD_GATEWAY: u16 = 502;

/// Header names with their values as raw bytes, kept as sent.
pub open spec fn header_view(v: Seq<(String, Vec<u8>)>) -> Seq<(Seq<char>, Seq<u8>)> {
    v.map_values(|h: (String, Vec<u8>)| (h.0@, h.1@))
}

/// An HTTP response with its body fully buffered.
pub struct HttpReply {
    pub status: u16,
    pub headers: Vec<(String, Vec<u8>)>,
    pub body: Vec<u8>,
}

/// How an attempt to pass a request on to the local service ended.
pub enum ForwardOutcome {
    /// Nothing accepted a connection on the destination port.
    Unreachable,
    /// The connection was made, but the exchange failed.
    SendFailed,
    /// The service answered.
    Answered { status: u16, headers: Vec<(String, Vec<u8>)>, body: Vec<u8> },
}

pub open spec fn unavailable_text() -> Seq<char> {
    "Local service unavailable"@
}

pub open spec fn send_failed_text() -> Seq<char> {
    "Failed to forward request"@
}

fn text_bytes(s: &str) -> (r: Vec<u8>)
    ensures
        r@ == encode_utf8(s@),
        s@.len() > 0 ==> r@.len() > 0,
{
    let b = s.as_bytes();
    proof {
        encode_utf8_decode_utf8(s@);
        if b@.len() == 0 {
            assert(b@ =~= Seq::<u8>::empty());
            assert(decode_utf8(Seq::<u8>::empty()) =~= Seq::<char>::empty());
        }
    }
    let mut v: Vec<u8> = Vec::new();
    let mut i: usize = 0;
    while i < b.len()
        invariant
            i <= b@.len(),
            v@ == b@.subrange(0, i as int),
        decreases b@.len() - i,
    {
        v.push(b[i]);
        assert(b@.subrange(0, i + 1) =~= b@.subrange(0, i as int).push(b@[i as int]));
        i += 1;
    }
    assert(b@.subrange(0, b@.len() as int) =~= b@);
    v
}

/// The response handed to the visitor. The service's status, headers and body
/// pass through unchanged; a failure becomes a `502` with a short, non-empty
/// explanation as body.
pub fn forward_reply(outcome: ForwardOutcome) -> (r: HttpReply)
    ensures
        match outcome {
            ForwardOutcome::Unreachable => r.status == BAD_GATEWAY && r.headers@.len() == 0
                && r.body@ == encode_utf8(unavailable_text()) && r.body@.len() > 0,
            ForwardOutcome::SendFailed => r.status == BAD_GATEWAY && r.headers@.len() == 0
                && r.body@ == encode_utf8(send_failed_text()) && r.body@.len() > 0,
            ForwardOutcome::Answered { status, headers, body } => r.status == status
                && header_view(r.headers@) == header_view(headers@) && r.body@ == body@,
        },
{
    match outcome {
        ForwardOutcome::Unreachable => {
            proof {
                reveal_strlit("Local service unavailable");
            }
            HttpReply {
                status: BAD_GATEWAY,
                headers: Vec::new(),
                body: text_bytes("Local service unavailable"),
            }
        },
        ForwardOutcome::SendFailed => {
            proof {
                reveal_strlit("Failed to forward request");
            }
            HttpReply {
                status: BAD_GATEWAY,
                headers: Vec::new(),
                body: text_bytes("Failed to forward request"),
            }
        },
        ForwardOutcome::Answered { status, headers, body } => HttpReply { status, headers, body },
    }
}

pub open spec fn has_header(hs: Seq<(Seq<char>, Seq<u8>)>, name: Seq<char>) -> bool {
    exists|i: int| 0 <= i < hs.len() && #[trigger] hs[i].0 == name
}

/// The request headers with `host: domain` added when no `host` header is present.
pub fn with_host_header(headers: Vec<(String, Vec<u8>)>, domain: &String) -> (r: Vec<
    (String, Vec<u8>),
>)
    ensures
        header_view(r@) == if has_header(header_view(headers@), "host"@) {
            header_view(headers@)
        } else {
            header_view(headers@).push(("host"@, encode_utf8(domain@)))
        },
{
    proof {
        reveal_strlit("host");
    }
    let ghost v = header_view(headers@);
    let mut i: usize = 0;
    while i < headers.len()
        invariant
            i <= headers@.len(),
            v == header_view(headers@),
            forall|k: int| 0 <= k < i ==> v[k].0 != "host"@,
        decreases headers@.len() - i,
    {
        if same_text(headers[i].0.as_str(), "host") {
            assert(v[i as int].0 == "host"@);
            return headers;
        }
        i += 1;
    }
    let value = text_bytes(domain.as_str());
    let mut out = headers;
    out.push(("host".to_owned(), value));
    assert(header_view(out@) =~= v.push(("host"@, encode_utf8(domain@))));
    out
}

} // verus!
