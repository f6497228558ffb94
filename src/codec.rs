use vstd::prelude::*;
use vstd::utf8::*;

use crate::tunnel::{MessageView, TunnelMessage, texts_view, pairs_view};

verus! {

/// Largest encoded size of one control message, in bytes.
pub const MAX_MESSAGE_SIZE: usize = 1048576;

/// Why a byte buffer could not be turned into a message, or a message into bytes.
#[derive(Debug, Clone, Copy, PartialEq, Eq, Structural)]
pub enum CodecError {
    /// The encoded form is longer than `MAX_MESSAGE_SIZE`.
    TooLarge,
    /// The bytes are not the encoding of any message.
    Malformed,
}

// ---------------------------------------------------------------- wire format

pub open spec fn be32(n: u32) -> Seq<u8> {
    seq![(n >> 24u32) as u8, (n >> 16u32) as u8, (n >> 8u32) as u8, n as u8]
}

pub open spec fn be16(n: u16) -> Seq<u8> {
    seq![(n >> 8u16) as u8, n as u8]
}

pub open spec fn enc_bytes(b: Seq<u8>) -> Seq<u8> {
    be32(b.len() as u32) + b
}

pub open spec fn enc_text(s: Seq<char>) -> Seq<u8> {
    enc_bytes(encode_utf8(s))
}

pub open spec fn enc_text_items(ss: Seq<Seq<char>>) -> Seq<u8>
    decreases ss.len(),
{
    if ss.len() == 0 {
        Seq::empty()
    } else {
        enc_text_items(ss.drop_last()) + enc_text(ss.last())
    }
}

pub open spec fn enc_texts(ss: Seq<Seq<char>>) -> Seq<u8> {
    be32(ss.len() as u32) + enc_text_items(ss)
}

pub open spec fn enc_pair(h: (Seq<char>, Seq<char>)) -> Seq<u8> {
    enc_text(h.0) + enc_text(h.1)
}

pub open spec fn enc_pair_items(hs: Seq<(Seq<char>, Seq<char>)>) -> Seq<u8>
    decreases hs.len(),
{
    if hs.len() == 0 {
        Seq::empty()
    } else {
        enc_pair_items(hs.drop_last()) + enc_pair(hs.last())
    }
}

pub open spec fn enc_pairs(hs: Seq<(Seq<char>, Seq<char>)>) -> Seq<u8> {
    be32(hs.len() as u32) + enc_pair_items(hs)
}

/// The encoding of a message: a tag byte, then its fields in order. Integers are
/// big-endian; text and byte strings carry a 4-byte length; lists a 4-byte count.
/// The format is binary rather than JSON: the tag names the variant and fixes the
/// order and kind of its fields, and every length is explicit, so a buffer
/// describes and delimits itself without a schema beyond this function. It does not
/// interoperate with peers that speak JSON on the stream.
pub open spec fn encode_message(m: MessageView) -> Seq<u8> {
    match m {
        MessageView::Register { domain, port } => seq![0u8] + enc_text(domain) + be16(port),
        MessageView::Registered { domain } => seq![1u8] + enc_text(domain),
        MessageView::Unregister { domain } => seq![2u8] + enc_text(domain),
        MessageView::Unregistered { domain } => seq![3u8] + enc_text(domain),
        MessageView::List => seq![4u8],
        MessageView::TunnelList { tunnels } => seq![5u8] + enc_texts(tunnels),
        MessageView::Error { message } => seq![6u8] + enc_text(message),
        MessageView::HttpRequest { method, uri, headers, body } => seq![7u8] + enc_text(method)
            + enc_text(uri) + enc_pairs(headers) + enc_bytes(body),
        MessageView::HttpResponse { status, headers, body } => seq![8u8] + be16(status)
            + enc_pairs(headers) + enc_bytes(body),
    }
}

// ---------------------------------------------------------------- reading it back

pub open spec fn read_be32(b: Seq<u8>, p: int) -> u32 {
    ((b[p] as u32) << 24u32) | ((b[p + 1] as u32) << 16u32) | ((b[p + 2] as u32) << 8u32) | (
    b[p + 3] as u32)
}

pub open spec fn parse_be32(b: Seq<u8>, p: int) -> Option<(u32, int)> {
    if 0 <= p && p + 4 <= b.len() {
        Some((read_be32(b, p), p + 4))
    } else {
        None
    }
}

pub open spec fn parse_be16(b: Seq<u8>, p: int) -> Option<(u16, int)> {
    if 0 <= p && p + 2 <= b.len() {
        Some((((b[p] as u16) << 8u16) | (b[p + 1] as u16), p + 2))
    } else {
        None
    }
}

pub open spec fn parse_bytes(b: Seq<u8>, p: int) -> Option<(Seq<u8>, int)> {
    match parse_be32(b, p) {
        Some((n, q)) => if q + n <= b.len() {
            Some((b.subrange(q, q + n), q + n))
        } else {
            None
        },
        None => None,
    }
}

pub open spec fn parse_text(b: Seq<u8>, p: int) -> Option<(Seq<char>, int)> {
    match parse_bytes(b, p) {
        Some((raw, q)) => if valid_utf8(raw) {
            Some((decode_utf8(raw), q))
        } else {
            None
        },
        None => None,
    }
}

pub open spec fn parse_text_items(b: Seq<u8>, p: int, n: nat) -> Option<(Seq<Seq<char>>, int)>
    decreases n,
{
    if n == 0 {
        Some((Seq::empty(), p))
    } else {
        match parse_text_items(b, p, (n - 1) as nat) {
            Some((items, q)) => match parse_text(b, q) {
                Some((t, r)) => Some((items.push(t), r)),
                None => None,
            },
            None => None,
        }
    }
}

pub open spec fn parse_texts(b: Seq<u8>, p: int) -> Option<(Seq<Seq<char>>, int)> {
    match parse_be32(b, p) {
        Some((n, q)) => parse_text_items(b, q, n as nat),
        None => None,
    }
}

pub open spec fn parse_pair(b: Seq<u8>, p: int) -> Option<((Seq<char>, Seq<char>), int)> {
    match parse_text(b, p) {
        Some((k, q)) => match parse_text(b, q) {
            Some((v, r)) => Some(((k, v), r)),
            None => None,
        },
        None => None,
    }
}

pub open spec fn parse_pair_items(b: Seq<u8>, p: int, n: nat) -> Option<
    (Seq<(Seq<char>, Seq<char>)>, int),
>
    decreases n,
{
    if n == 0 {
        Some((Seq::empty(), p))
    } else {
        match parse_pair_items(b, p, (n - 1) as nat) {
            Some((items, q)) => match parse_pair(b, q) {
                Some((h, r)) => Some((items.push(h), r)),
                None => None,
            },
            None => None,
        }
    }
}

pub open spec fn parse_pairs(b: Seq<u8>, p: int) -> Option<(Seq<(Seq<char>, Seq<char>)>, int)> {
    match parse_be32(b, p) {
        Some((n, q)) => parse_pair_items(b, q, n as nat),
        None => None,
    }
}

/// The fields of an `HttpRequest`, read from position 1, and where they end.
pub open spec fn parse_request(b: Seq<u8>) -> Option<(MessageView, int)> {
    match parse_text(b, 1) {
        Some((method, pos1)) => match parse_text(b, pos1) {
            Some((uri, pos2)) => match parse_pairs(b, pos2) {
                Some((headers, pos3)) => match parse_bytes(b, pos3) {
                    Some((body, pos4)) => Some(
                        (MessageView::HttpRequest { method, uri, headers, body }, pos4),
                    ),
                    None => None,
                },
                None => None,
            },
            None => None,
        },
        None => None,
    }
}

/// The fields that follow tag `tag`, read from position 1, and where they end.
pub open spec fn parse_fields(b: Seq<u8>, tag: u8) -> Option<(MessageView, int)> {
    if tag == 0 {
        match parse_text(b, 1) {
            Some((domain, p)) => match parse_be16(b, p) {
                Some((port, q)) => Some((MessageView::Register { domain, port }, q)),
                None => None,
            },
            None => None,
        }
    } else if tag == 1 {
        match parse_text(b, 1) {
            Some((domain, p)) => Some((MessageView::Registered { domain }, p)),
            None => None,
        }
    } else if tag == 2 {
        match parse_text(b, 1) {
            Some((domain, p)) => Some((MessageView::Unregister { domain }, p)),
            None => None,
        }
    } else if tag == 3 {
        match parse_text(b, 1) {
            Some((domain, p)) => Some((MessageView::Unregistered { domain }, p)),
            None => None,
        }
    } else if tag == 4 {
        Some((MessageView::List, 1))
    } else if tag == 5 {
        match parse_texts(b, 1) {
            Some((tunnels, p)) => Some((MessageView::TunnelList { tunnels }, p)),
            None => None,
        }
    } else if tag == 6 {
        match parse_text(b, 1) {
            Some((message, p)) => Some((MessageView::Error { message }, p)),
            None => None,
        }
    } else if tag == 7 {
        parse_request(b)
    } else if tag == 8 {
        match parse_be16(b, 1) {
            Some((status, pos1)) => match parse_pairs(b, pos1) {
                Some((headers, pos2)) => match parse_bytes(b, pos2) {
                    Some((body, pos3)) => Some(
                        (MessageView::HttpResponse { status, headers, body }, pos3),
                    ),
                    None => None,
                },
                None => None,
            },
            None => None,
        }
    } else {
        None
    }
}

/// The message that `b` encodes, if it is exactly the encoding of one.
pub open spec fn parse_message(b: Seq<u8>) -> Option<MessageView> {
    if b.len() == 0 {
        None
    } else {
        match parse_fields(b, b[0]) {
            Some((m, end)) => if end == b.len() {
                Some(m)
            } else {
                None
            },
            None => None,
        }
    }
}

/// What `decode` returns for a buffer.
#[verifier::opaque]
pub open spec fn decode_result(b: Seq<u8>) -> Result<MessageView, CodecError> {
    if b.len() > MAX_MESSAGE_SIZE {
        Err(CodecError::TooLarge)
    } else {
        match parse_message(b) {
            Some(m) => Ok(m),
            None => Err(CodecError::Malformed),
        }
    }
}



// ---------------------------------------------------------------- writing

fn put_be32(out: &mut Vec<u8>, n: u32)
    ensures
        final(out)@ == old(out)@ + be32(n),
{
    out.push((n >> 24u32) as u8);
    out.push((n >> 16u32) as u8);
    out.push((n >> 8u32) as u8);
    out.push(n as u8);
    assert(final(out)@ =~= old(out)@ + be32(n));
}

fn put_be16(out: &mut Vec<u8>, n: u16)
    ensures
        final(out)@ == old(out)@ + be16(n),
{
    out.push((n >> 8u16) as u8);
    out.push(n as u8);
    assert(final(out)@ =~= old(out)@ + be16(n));
}

fn put_bytes(out: &mut Vec<u8>, b: &[u8])
    ensures
        final(out)@ == old(out)@ + enc_bytes(b@),
{
    put_be32(out, b.len() as u32);
    let ghost start = out@;
    let mut i: usize = 0;
    while i < b.len()
        invariant
            i <= b@.len(),
            out@ == start + b@.subrange(0, i as int),
        decreases b@.len() - i,
    {
        out.push(b[i]);
        assert(b@.subrange(0, i + 1) =~= b@.subrange(0, i as int).push(b@[i as int]));
        i += 1;
    }
    assert(b@.subrange(0, b@.len() as int) =~= b@);
    assert(out@ =~= old(out)@ + enc_bytes(b@));
}

fn put_text(out: &mut Vec<u8>, s: &String)
    ensures
        final(out)@ == old(out)@ + enc_text(s@),
{
    let bytes = s.as_str().as_bytes();
    put_bytes(out, bytes);
}

fn put_texts(out: &mut Vec<u8>, ss: &Vec<String>)
    ensures
        final(out)@ == old(out)@ + enc_texts(texts_view(ss@)),
{
    let ghost v = texts_view(ss@);
    put_be32(out, ss.len() as u32);
    let ghost start = out@;
    let mut i: usize = 0;
    while i < ss.len()
        invariant
            i <= ss@.len(),
            v == texts_view(ss@),
            out@ == start + enc_text_items(v.subrange(0, i as int)),
        decreases ss@.len() - i,
    {
        put_text(out, &ss[i]);
        assert(v.subrange(0, i + 1).drop_last() =~= v.subrange(0, i as int));
        assert(out@ =~= start + enc_text_items(v.subrange(0, i + 1)));
        i += 1;
    }
    assert(v.subrange(0, ss@.len() as int) =~= v);
    assert(out@ =~= old(out)@ + enc_texts(v));
}

fn put_pairs(out: &mut Vec<u8>, hs: &Vec<(String, String)>)
    ensures
        final(out)@ == old(out)@ + enc_pairs(pairs_view(hs@)),
{
    let ghost v = pairs_view(hs@);
    put_be32(out, hs.len() as u32);
    let ghost start = out@;
    let mut i: usize = 0;
    while i < hs.len()
        invariant
            i <= hs@.len(),
            v == pairs_view(hs@),
            out@ == start + enc_pair_items(v.subrange(0, i as int)),
        decreases hs@.len() - i,
    {
        let h = &hs[i];
        put_text(out, &h.0);
        put_text(out, &h.1);
        assert(v.subrange(0, i + 1).drop_last() =~= v.subrange(0, i as int));
        assert(out@ =~= start + enc_pair_items(v.subrange(0, i + 1)));
        i += 1;
    }
    assert(v.subrange(0, hs@.len() as int) =~= v);
    assert(out@ =~= old(out)@ + enc_pairs(v));
}

/// Encodes a message; fails when the encoding exceeds `MAX_MESSAGE_SIZE`.
pub fn encode(m: &TunnelMessage) -> (r: Result<Vec<u8>, CodecError>)
    ensures
        r is Ok <==> encode_message(m@).len() <= MAX_MESSAGE_SIZE,
        r matches Ok(b) ==> b@ == encode_message(m@),
        r matches Err(e) ==> e == CodecError::TooLarge,
{
    let mut out: Vec<u8> = Vec::new();
    match m {
        TunnelMessage::Register { domain, port } => {
            out.push(0u8);
            put_text(&mut out, domain);
            put_be16(&mut out, *port);
        },
        TunnelMessage::Registered { domain } => {
            out.push(1u8);
            put_text(&mut out, domain);
        },
        TunnelMessage::Unregister { domain } => {
            out.push(2u8);
            put_text(&mut out, domain);
        },
        TunnelMessage::Unregistered { domain } => {
            out.push(3u8);
            put_text(&mut out, domain);
        },
        TunnelMessage::List => {
            out.push(4u8);
        },
        TunnelMessage::TunnelList { tunnels } => {
            out.push(5u8);
            put_texts(&mut out, tunnels);
        },
        TunnelMessage::Error { message } => {
            out.push(6u8);
            put_text(&mut out, message);
        },
        TunnelMessage::HttpRequest { method, uri, headers, body } => {
            out.push(7u8);
            put_text(&mut out, method);
            put_text(&mut out, uri);
            put_pairs(&mut out, headers);
            put_bytes(&mut out, body.as_slice());
        },
        TunnelMessage::HttpResponse { status, headers, body } => {
            out.push(8u8);
            put_be16(&mut out, *status);
            put_pairs(&mut out, headers);
            put_bytes(&mut out, body.as_slice());
        },
    }
    assert(out@ =~= encode_message(m@));
    if out.len() > MAX_MESSAGE_SIZE {
        Err(CodecError::TooLarge)
    } else {
        Ok(out)
    }
}


// ---------------------------------------------------------------- reading

/// Relies on std's `String::from_utf8`: it accepts exactly the well-formed UTF-8
/// byte strings, and the string it returns holds those bytes.
#[verifier::external_body]
fn string_from_utf8(bytes: Vec<u8>) -> (r: Option<String>)
    ensures
        r is Some <==> valid_utf8(bytes@),
        r matches Some(s) ==> encode_utf8(s@) == bytes@,
{
    String::from_utf8(bytes).ok()
}

fn get_be32(b: &[u8], p: usize) -> (r: Option<(u32, usize)>)
    ensures
        r is Some <==> parse_be32(b@, p as int) is Some,
        r matches Some((n, q)) ==> parse_be32(b@, p as int) == Some((n, q as int)),
{
    if b.len() >= 4 && p <= b.len() - 4 {
        let n: u32 = ((b[p] as u32) << 24u32) | ((b[p + 1] as u32) << 16u32) | ((b[p + 2] as u32)
            << 8u32) | (b[p + 3] as u32);
        Some((n, p + 4))
    } else {
        None
    }
}

fn get_be16(b: &[u8], p: usize) -> (r: Option<(u16, usize)>)
    ensures
        r is Some <==> parse_be16(b@, p as int) is Some,
        r matches Some((n, q)) ==> parse_be16(b@, p as int) == Some((n, q as int)),
{
    if b.len() >= 2 && p <= b.len() - 2 {
        let n: u16 = ((b[p] as u16) << 8u16) | (b[p + 1] as u16);
        Some((n, p + 2))
    } else {
        None
    }
}

fn get_bytes(b: &[u8], p: usize) -> (r: Option<(Vec<u8>, usize)>)
    ensures
        match parse_bytes(b@, p as int) {
            Some((raw, q)) => r matches Some((v, q2)) && v@ == raw && q2 == q,
            None => r is None,
        },
{
    match get_be32(b, p) {
        Some((n, q)) => {
            if (n as usize) <= b.len() - q {
                let end: usize = q + n as usize;
                let mut v: Vec<u8> = Vec::new();
                let mut i: usize = q;
                while i < end
                    invariant
                        q <= i <= end <= b@.len(),
                        v@ == b@.subrange(q as int, i as int),
                    decreases end - i,
                {
                    v.push(b[i]);
                    assert(b@.subrange(q as int, i + 1) =~= b@.subrange(q as int, i as int).push(
                        b@[i as int],
                    ));
                    i += 1;
                }
                Some((v, end))
            } else {
                None
            }
        },
        None => None,
    }
}

fn get_text(b: &[u8], p: usize) -> (r: Option<(String, usize)>)
    ensures
        match parse_text(b@, p as int) {
            Some((t, q)) => r matches Some((s, q2)) && s@ == t && q2 == q,
            None => r is None,
        },
{
    match get_bytes(b, p) {
        Some((raw, q)) => {
            match string_from_utf8(raw) {
                Some(s) => {
                    proof {
                        encode_utf8_decode_utf8(s@);
                    }
                    Some((s, q))
                },
                None => None,
            }
        },
        None => None,
    }
}

proof fn lemma_text_items_fail(b: Seq<u8>, p: int, i: nat, n: nat)
    requires
        parse_text_items(b, p, i) is None,
        i <= n,
    ensures
        parse_text_items(b, p, n) is None,
    decreases n - i,
{
    if i < n {
        lemma_text_items_fail(b, p, i, (n - 1) as nat);
    }
}

proof fn lemma_pair_items_fail(b: Seq<u8>, p: int, i: nat, n: nat)
    requires
        parse_pair_items(b, p, i) is None,
        i <= n,
    ensures
        parse_pair_items(b, p, n) is None,
    decreases n - i,
{
    if i < n {
        lemma_pair_items_fail(b, p, i, (n - 1) as nat);
    }
}

fn get_texts(b: &[u8], p: usize) -> (r: Option<(Vec<String>, usize)>)
    ensures
        match parse_texts(b@, p as int) {
            Some((ts, q)) => r matches Some((v, q2)) && texts_view(v@) == ts && q2 == q,
            None => r is None,
        },
{
    match get_be32(b, p) {
        Some((n, q0)) => {
            let mut v: Vec<String> = Vec::new();
            let mut pos: usize = q0;
            let mut i: u32 = 0;
            assert(texts_view(v@) =~= Seq::empty());
            while i < n
                invariant
                    i <= n,
                    parse_be32(b@, p as int) == Some((n, q0 as int)),
                    parse_text_items(b@, q0 as int, i as nat) == Some((texts_view(v@), pos as int)),
                decreases n - i,
            {
                match get_text(b, pos) {
                    Some((t, q)) => {
                        assert(texts_view(v@.push(t)) =~= texts_view(v@).push(t@));
                        v.push(t);
                        pos = q;
                        i += 1;
                    },
                    None => {
                        proof {
                            lemma_text_items_fail(b@, q0 as int, (i + 1) as nat, n as nat);
                        }
                        return None;
                    },
                }
            }
            Some((v, pos))
        },
        None => None,
    }
}

fn get_pairs(b: &[u8], p: usize) -> (r: Option<(Vec<(String, String)>, usize)>)
    ensures
        match parse_pairs(b@, p as int) {
            Some((hs, q)) => r matches Some((v, q2)) && pairs_view(v@) == hs && q2 == q,
            None => r is None,
        },
{
    match get_be32(b, p) {
        Some((n, q0)) => {
            let mut v: Vec<(String, String)> = Vec::new();
            let mut pos: usize = q0;
            let mut i: u32 = 0;
            assert(pairs_view(v@) =~= Seq::empty());
            while i < n
                invariant
                    i <= n,
                    parse_be32(b@, p as int) == Some((n, q0 as int)),
                    parse_pair_items(b@, q0 as int, i as nat) == Some((pairs_view(v@), pos as int)),
                decreases n - i,
            {
                let pair = match get_text(b, pos) {
                    Some((k, q1)) => match get_text(b, q1) {
                        Some((x, q2)) => Some((k, x, q2)),
                        None => None,
                    },
                    None => None,
                };
                match pair {
                    Some((k, x, q)) => {
                        assert(pairs_view(v@.push((k, x))) =~= pairs_view(v@).push((k@, x@)));
                        v.push((k, x));
                        pos = q;
                        i += 1;
                    },
                    None => {
                        proof {
                            lemma_pair_items_fail(b@, q0 as int, (i + 1) as nat, n as nat);
                        }
                        return None;
                    },
                }
            }
            Some((v, pos))
        },
        None => None,
    }
}

fn get_fields(b: &[u8], tag: u8) -> (r: Option<(TunnelMessage, usize)>)
    ensures
        match parse_fields(b@, tag) {
            Some((mv, q)) => r matches Some((m, q2)) && m@ == mv && q2 == q,
            None => r is None,
        },
{
    if tag == 0 {
        match get_text(b, 1) {
            Some((domain, p)) => match get_be16(b, p) {
                Some((port, q)) => Some((TunnelMessage::Register { domain, port }, q)),
                None => None,
            },
            None => None,
        }
    } else if tag == 1 {
        match get_text(b, 1) {
            Some((domain, p)) => Some((TunnelMessage::Registered { domain }, p)),
            None => None,
        }
    } else if tag == 2 {
        match get_text(b, 1) {
            Some((domain, p)) => Some((TunnelMessage::Unregister { domain }, p)),
            None => None,
        }
    } else if tag == 3 {
        match get_text(b, 1) {
            Some((domain, p)) => Some((TunnelMessage::Unregistered { domain }, p)),
            None => None,
        }
    } else if tag == 4 {
        Some((TunnelMessage::List, 1))
    } else if tag == 5 {
        match get_texts(b, 1) {
            Some((tunnels, p)) => Some((TunnelMessage::TunnelList { tunnels }, p)),
            None => None,
        }
    } else if tag == 6 {
        match get_text(b, 1) {
            Some((message, p)) => Some((TunnelMessage::Error { message }, p)),
            None => None,
        }
    } else if tag == 7 {
        match get_text(b, 1) {
            Some((method, pos1)) => match get_text(b, pos1) {
                Some((uri, pos2)) => match get_pairs(b, pos2) {
                    Some((headers, pos3)) => match get_bytes(b, pos3) {
                        Some((body, pos4)) => Some(
                            (TunnelMessage::HttpRequest { method, uri, headers, body }, pos4),
                        ),
                        None => None,
                    },
                    None => None,
                },
                None => None,
            },
            None => None,
        }
    } else if tag == 8 {
        match get_be16(b, 1) {
            Some((status, pos1)) => match get_pairs(b, pos1) {
                Some((headers, pos2)) => match get_bytes(b, pos2) {
                    Some((body, pos3)) => Some(
                        (TunnelMessage::HttpResponse { status, headers, body }, pos3),
                    ),
                    None => None,
                },
                None => None,
            },
            None => None,
        }
    } else {
        None
    }
}

/// Decodes one message. Input over `MAX_MESSAGE_SIZE` is `TooLarge`; input that
/// is not exactly the encoding of a message is `Malformed`.
pub fn decode(b: &[u8]) -> (r: Result<TunnelMessage, CodecError>)
    ensures
        match decode_result(b@) {
            Ok(mv) => r matches Ok(m) && m@ == mv,
            Err(e) => r matches Err(e2) && e2 == e,
        },
        r matches Ok(m) ==> b@ == encode_message(m@),
{
    proof {
        reveal(decode_result);
    }
    if b.len() > MAX_MESSAGE_SIZE {
        return Err(CodecError::TooLarge);
    }
    if b.len() == 0 {
        return Err(CodecError::Malformed);
    }
    match get_fields(b, b[0]) {
        Some((m, end)) => {
            if end == b.len() {
                proof {
                    lemma_parse_sound(b@);
                }
                Ok(m)
            } else {
                Err(CodecError::Malformed)
            }
        },
        None => Err(CodecError::Malformed),
    }
}

// ---------------------------------------------------------------- round trip

proof fn lemma_be32_read(n: u32)
    ensures
        read_be32(be32(n), 0) == n,
{
    let b = be32(n);
    let b0 = (n >> 24u32) as u8;
    let b1 = (n >> 16u32) as u8;
    let b2 = (n >> 8u32) as u8;
    let b3 = n as u8;
    assert(b[0] == b0 && b[1] == b1 && b[2] == b2 && b[3] == b3);
    assert(((((n >> 24u32) as u8) as u32) << 24u32) | ((((n >> 16u32) as u8) as u32) << 16u32) | (
    (((n >> 8u32) as u8) as u32) << 8u32) | ((n as u8) as u32) == n) by (bit_vector);
}

proof fn lemma_be16_read(n: u16)
    ensures
        (((be16(n)[0] as u16) << 8u16) | (be16(n)[1] as u16)) == n,
{
    assert(((((n >> 8u16) as u8) as u16) << 8u16) | ((n as u8) as u16) == n) by (bit_vector);
}

/// Splits a window of `b` that holds `e1 + e2` into its two parts.
proof fn lemma_split(b: Seq<u8>, p: int, e1: Seq<u8>, e2: Seq<u8>)
    requires
        0 <= p,
        p + e1.len() + e2.len() <= b.len(),
        b.subrange(p, p + e1.len() + e2.len()) == e1 + e2,
    ensures
        b.subrange(p, p + e1.len()) == e1,
        b.subrange(p + e1.len(), p + e1.len() + e2.len()) == e2,
{
    let w = b.subrange(p, p + e1.len() + e2.len());
    assert forall|i: int| 0 <= i < e1.len() implies b[p + i] == e1[i] by {
        assert(w[i] == b[p + i]);
        assert((e1 + e2)[i] == e1[i]);
    }
    assert forall|i: int| 0 <= i < e2.len() implies b[p + e1.len() + i] == e2[i] by {
        assert(w[e1.len() + i] == b[p + e1.len() + i]);
        assert((e1 + e2)[e1.len() + i] == e2[i]);
    }
    assert(b.subrange(p, p + e1.len()) =~= e1);
    assert(b.subrange(p + e1.len(), p + e1.len() + e2.len()) =~= e2);
}

proof fn lemma_parse_be32(b: Seq<u8>, p: int, n: u32)
    requires
        0 <= p,
        p + 4 <= b.len(),
        b.subrange(p, p + 4) == be32(n),
    ensures
        parse_be32(b, p) == Some((n, p + 4)),
{
    lemma_be32_read(n);
    let w = b.subrange(p, p + 4);
    assert(w[0] == b[p] && w[1] == b[p + 1] && w[2] == b[p + 2] && w[3] == b[p + 3]);
}

proof fn lemma_parse_be16(b: Seq<u8>, p: int, n: u16)
    requires
        0 <= p,
        p + 2 <= b.len(),
        b.subrange(p, p + 2) == be16(n),
    ensures
        parse_be16(b, p) == Some((n, p + 2)),
{
    lemma_be16_read(n);
    let w = b.subrange(p, p + 2);
    assert(w[0] == b[p] && w[1] == b[p + 1]);
}

proof fn lemma_parse_bytes(b: Seq<u8>, p: int, raw: Seq<u8>)
    requires
        0 <= p,
        raw.len() <= MAX_MESSAGE_SIZE,
        p + enc_bytes(raw).len() <= b.len(),
        b.subrange(p, p + enc_bytes(raw).len()) == enc_bytes(raw),
    ensures
        parse_bytes(b, p) == Some((raw, p + enc_bytes(raw).len())),
{
    lemma_split(b, p, be32(raw.len() as u32), raw);
    lemma_parse_be32(b, p, raw.len() as u32);
}

proof fn lemma_parse_text(b: Seq<u8>, p: int, s: Seq<char>)
    requires
        0 <= p,
        enc_text(s).len() <= MAX_MESSAGE_SIZE,
        p + enc_text(s).len() <= b.len(),
        b.subrange(p, p + enc_text(s).len()) == enc_text(s),
    ensures
        parse_text(b, p) == Some((s, p + enc_text(s).len())),
{
    lemma_parse_bytes(b, p, encode_utf8(s));
    encode_utf8_valid_utf8(s);
    encode_utf8_decode_utf8(s);
}

proof fn lemma_text_items_len(ss: Seq<Seq<char>>)
    ensures
        enc_text_items(ss).len() >= 4 * ss.len(),
    decreases ss.len(),
{
    if ss.len() > 0 {
        lemma_text_items_len(ss.drop_last());
    }
}

proof fn lemma_parse_text_items(b: Seq<u8>, p: int, ss: Seq<Seq<char>>)
    requires
        0 <= p,
        enc_text_items(ss).len() <= MAX_MESSAGE_SIZE,
        p + enc_text_items(ss).len() <= b.len(),
        b.subrange(p, p + enc_text_items(ss).len()) == enc_text_items(ss),
    ensures
        parse_text_items(b, p, ss.len()) == Some((ss, p + enc_text_items(ss).len())),
    decreases ss.len(),
{
    if ss.len() > 0 {
        let init = ss.drop_last();
        lemma_split(b, p, enc_text_items(init), enc_text(ss.last()));
        lemma_parse_text_items(b, p, init);
        lemma_parse_text(b, p + enc_text_items(init).len(), ss.last());
        assert(init.push(ss.last()) =~= ss);
    } else {
        assert(enc_text_items(ss).len() == 0);
    }
}

proof fn lemma_parse_texts(b: Seq<u8>, p: int, ss: Seq<Seq<char>>)
    requires
        0 <= p,
        enc_texts(ss).len() <= MAX_MESSAGE_SIZE,
        p + enc_texts(ss).len() <= b.len(),
        b.subrange(p, p + enc_texts(ss).len()) == enc_texts(ss),
    ensures
        parse_texts(b, p) == Some((ss, p + enc_texts(ss).len())),
{
    lemma_text_items_len(ss);
    lemma_split(b, p, be32(ss.len() as u32), enc_text_items(ss));
    lemma_parse_be32(b, p, ss.len() as u32);
    lemma_parse_text_items(b, p + 4, ss);
}

proof fn lemma_parse_pair(b: Seq<u8>, p: int, h: (Seq<char>, Seq<char>))
    requires
        0 <= p,
        enc_pair(h).len() <= MAX_MESSAGE_SIZE,
        p + enc_pair(h).len() <= b.len(),
        b.subrange(p, p + enc_pair(h).len()) == enc_pair(h),
    ensures
        parse_pair(b, p) == Some((h, p + enc_pair(h).len())),
{
    lemma_split(b, p, enc_text(h.0), enc_text(h.1));
    lemma_parse_text(b, p, h.0);
    lemma_parse_text(b, p + enc_text(h.0).len(), h.1);
}

proof fn lemma_pair_items_len(hs: Seq<(Seq<char>, Seq<char>)>)
    ensures
        enc_pair_items(hs).len() >= 8 * hs.len(),
    decreases hs.len(),
{
    if hs.len() > 0 {
        lemma_pair_items_len(hs.drop_last());
    }
}

proof fn lemma_parse_pair_items(b: Seq<u8>, p: int, hs: Seq<(Seq<char>, Seq<char>)>)
    requires
        0 <= p,
        enc_pair_items(hs).len() <= MAX_MESSAGE_SIZE,
        p + enc_pair_items(hs).len() <= b.len(),
        b.subrange(p, p + enc_pair_items(hs).len()) == enc_pair_items(hs),
    ensures
        parse_pair_items(b, p, hs.len()) == Some((hs, p + enc_pair_items(hs).len())),
    decreases hs.len(),
{
    if hs.len() > 0 {
        let init = hs.drop_last();
        lemma_split(b, p, enc_pair_items(init), enc_pair(hs.last()));
        lemma_parse_pair_items(b, p, init);
        lemma_parse_pair(b, p + enc_pair_items(init).len(), hs.last());
        assert(init.push(hs.last()) =~= hs);
    } else {
        assert(enc_pair_items(hs).len() == 0);
    }
}

proof fn lemma_parse_pairs(b: Seq<u8>, p: int, hs: Seq<(Seq<char>, Seq<char>)>)
    requires
        0 <= p,
        enc_pairs(hs).len() <= MAX_MESSAGE_SIZE,
        p + enc_pairs(hs).len() <= b.len(),
        b.subrange(p, p + enc_pairs(hs).len()) == enc_pairs(hs),
    ensures
        parse_pairs(b, p) == Some((hs, p + enc_pairs(hs).len())),
{
    lemma_pair_items_len(hs);
    lemma_split(b, p, be32(hs.len() as u32), enc_pair_items(hs));
    lemma_parse_be32(b, p, hs.len() as u32);
    lemma_parse_pair_items(b, p + 4, hs);
}

/// Round trip: every message whose encoding fits the size limit is read back
/// from that encoding unchanged.
#[verifier::rlimit(60)]
#[verifier::spinoff_prover]
pub proof fn lemma_round_trip(m: MessageView)
    requires
        encode_message(m).len() <= MAX_MESSAGE_SIZE,
    ensures
        parse_message(encode_message(m)) == Some(m),
        decode_result(encode_message(m)) == Ok::<MessageView, CodecError>(m),
{
    reveal(decode_result);
    let b = encode_message(m);
    match m {
        MessageView::Register { domain, port } => {
            let e1 = enc_text(domain);
            let pos1: int = 1 + e1.len() as int;
            assert(b.subrange(1, pos1) =~= e1);
            assert(b.subrange(pos1, pos1 + 2) =~= be16(port));
            lemma_parse_text(b, 1, domain);
            lemma_parse_be16(b, pos1, port);
        },
        MessageView::Registered { domain } => {
            assert(b.subrange(1, b.len() as int) =~= enc_text(domain));
            lemma_parse_text(b, 1, domain);
        },
        MessageView::Unregister { domain } => {
            assert(b.subrange(1, b.len() as int) =~= enc_text(domain));
            lemma_parse_text(b, 1, domain);
        },
        MessageView::Unregistered { domain } => {
            assert(b.subrange(1, b.len() as int) =~= enc_text(domain));
            lemma_parse_text(b, 1, domain);
        },
        MessageView::List => {},
        MessageView::TunnelList { tunnels } => {
            assert(b.subrange(1, b.len() as int) =~= enc_texts(tunnels));
            lemma_parse_texts(b, 1, tunnels);
        },
        MessageView::Error { message } => {
            assert(b.subrange(1, b.len() as int) =~= enc_text(message));
            lemma_parse_text(b, 1, message);
        },
        MessageView::HttpRequest { method, uri, headers, body } => {
            let e1 = enc_text(method);
            let e2 = enc_text(uri);
            let e3 = enc_pairs(headers);
            let e4 = enc_bytes(body);
            let pos1: int = 1 + e1.len() as int;
            let pos2: int = pos1 + e2.len() as int;
            let pos3: int = pos2 + e3.len() as int;
            assert(b.subrange(1, pos1) =~= e1);
            assert(b.subrange(pos1, pos2) =~= e2);
            assert(b.subrange(pos2, pos3) =~= e3);
            assert(b.subrange(pos3, pos3 + e4.len()) =~= e4);
            lemma_parse_text(b, 1, method);
            lemma_parse_text(b, pos1, uri);
            lemma_parse_pairs(b, pos2, headers);
            lemma_parse_bytes(b, pos3, body);
        },
        MessageView::HttpResponse { status, headers, body } => {
            let e2 = enc_pairs(headers);
            let e3 = enc_bytes(body);
            let pos2: int = 3 + e2.len() as int;
            assert(b.subrange(1, 3) =~= be16(status));
            assert(b.subrange(3, pos2) =~= e2);
            assert(b.subrange(pos2, pos2 + e3.len()) =~= e3);
            lemma_parse_be16(b, 1, status);
            lemma_parse_pairs(b, 3, headers);
            lemma_parse_bytes(b, pos2, body);
        },
    }
}


// ---------------------------------------------------------------- only encodings are read

proof fn lemma_join(b: Seq<u8>, p: int, q: int, r: int, e1: Seq<u8>, e2: Seq<u8>)
    requires
        0 <= p <= q <= r <= b.len(),
        b.subrange(p, q) == e1,
        b.subrange(q, r) == e2,
    ensures
        b.subrange(p, r) == e1 + e2,
{
    assert(b.subrange(p, r) =~= b.subrange(p, q) + b.subrange(q, r));
}

proof fn lemma_be32_sound(b: Seq<u8>, p: int)
    requires
        0 <= p,
        p + 4 <= b.len(),
    ensures
        be32(read_be32(b, p)) == b.subrange(p, p + 4),
{
    let (b0, b1, b2, b3) = (b[p], b[p + 1], b[p + 2], b[p + 3]);
    let n = read_be32(b, p);
    assert(n == ((b0 as u32) << 24u32) | ((b1 as u32) << 16u32) | ((b2 as u32) << 8u32) | (b3 as u32));
    assert((((((b0 as u32) << 24u32) | ((b1 as u32) << 16u32) | ((b2 as u32) << 8u32) | (b3 as u32))
        >> 24u32) as u8) == b0 && (((((b0 as u32) << 24u32) | ((b1 as u32) << 16u32) | ((b2 as u32)
        << 8u32) | (b3 as u32)) >> 16u32) as u8) == b1 && (((((b0 as u32) << 24u32) | ((b1 as u32)
        << 16u32) | ((b2 as u32) << 8u32) | (b3 as u32)) >> 8u32) as u8) == b2 && ((((b0 as u32)
        << 24u32) | ((b1 as u32) << 16u32) | ((b2 as u32) << 8u32) | (b3 as u32)) as u8) == b3)
        by (bit_vector);
    assert(be32(n) =~= b.subrange(p, p + 4));
}

proof fn lemma_be16_sound(b: Seq<u8>, p: int)
    requires
        0 <= p,
        p + 2 <= b.len(),
    ensures
        parse_be16(b, p) matches Some((n, q)) && be16(n) == b.subrange(p, q) && q == p + 2,
{
    let (b0, b1) = (b[p], b[p + 1]);
    assert(((((b0 as u16) << 8u16) | (b1 as u16)) >> 8u16) as u8 == b0 && ((((b0 as u16) << 8u16)
        | (b1 as u16)) as u8) == b1) by (bit_vector);
    let n = ((b0 as u16) << 8u16) | (b1 as u16);
    assert(be16(n) =~= b.subrange(p, p + 2));
}

proof fn lemma_bytes_sound(b: Seq<u8>, p: int)
    requires
        parse_bytes(b, p) is Some,
    ensures
        parse_bytes(b, p) matches Some((raw, q)) && p <= q <= b.len() && b.subrange(p, q)
            == enc_bytes(raw),
{
    let (n, q0) = parse_be32(b, p)->Some_0;
    lemma_be32_sound(b, p);
    let raw = b.subrange(q0, q0 + n);
    assert(raw.len() as u32 == n);
    lemma_join(b, p, q0, q0 + n, be32(n), raw);
}

proof fn lemma_text_sound(b: Seq<u8>, p: int)
    requires
        parse_text(b, p) is Some,
    ensures
        parse_text(b, p) matches Some((t, q)) && p <= q <= b.len() && b.subrange(p, q) == enc_text(t),
{
    lemma_bytes_sound(b, p);
    let (raw, q) = parse_bytes(b, p)->Some_0;
    decode_utf8_encode_utf8(raw);
}

proof fn lemma_text_items_sound(b: Seq<u8>, p: int, n: nat)
    requires
        0 <= p <= b.len(),
        parse_text_items(b, p, n) is Some,
    ensures
        parse_text_items(b, p, n) matches Some((ts, q)) && p <= q <= b.len() && b.subrange(p, q)
            == enc_text_items(ts) && ts.len() == n,
    decreases n,
{
    if n == 0 {
        assert(b.subrange(p, p) =~= Seq::<u8>::empty());
    } else {
        lemma_text_items_sound(b, p, (n - 1) as nat);
        let (items, q) = parse_text_items(b, p, (n - 1) as nat)->Some_0;
        lemma_text_sound(b, q);
        let (t, r) = parse_text(b, q)->Some_0;
        assert(items.push(t).drop_last() =~= items);
        lemma_join(b, p, q, r, enc_text_items(items), enc_text(t));
    }
}

proof fn lemma_texts_sound(b: Seq<u8>, p: int)
    requires
        parse_texts(b, p) is Some,
    ensures
        parse_texts(b, p) matches Some((ts, q)) && p <= q <= b.len() && b.subrange(p, q) == enc_texts(
            ts,
        ),
{
    let (n, q0) = parse_be32(b, p)->Some_0;
    lemma_be32_sound(b, p);
    lemma_text_items_sound(b, q0, n as nat);
    let (ts, q) = parse_text_items(b, q0, n as nat)->Some_0;
    lemma_join(b, p, q0, q, be32(n), enc_text_items(ts));
}

proof fn lemma_pair_sound(b: Seq<u8>, p: int)
    requires
        parse_pair(b, p) is Some,
    ensures
        parse_pair(b, p) matches Some((h, q)) && p <= q <= b.len() && b.subrange(p, q) == enc_pair(h),
{
    lemma_text_sound(b, p);
    let (k, q1) = parse_text(b, p)->Some_0;
    lemma_text_sound(b, q1);
    let (v, q2) = parse_text(b, q1)->Some_0;
    lemma_join(b, p, q1, q2, enc_text(k), enc_text(v));
}

proof fn lemma_pair_items_sound(b: Seq<u8>, p: int, n: nat)
    requires
        0 <= p <= b.len(),
        parse_pair_items(b, p, n) is Some,
    ensures
        parse_pair_items(b, p, n) matches Some((hs, q)) && p <= q <= b.len() && b.subrange(p, q)
            == enc_pair_items(hs) && hs.len() == n,
    decreases n,
{
    if n == 0 {
        assert(b.subrange(p, p) =~= Seq::<u8>::empty());
    } else {
        lemma_pair_items_sound(b, p, (n - 1) as nat);
        let (items, q) = parse_pair_items(b, p, (n - 1) as nat)->Some_0;
        lemma_pair_sound(b, q);
        let (h, r) = parse_pair(b, q)->Some_0;
        assert(items.push(h).drop_last() =~= items);
        lemma_join(b, p, q, r, enc_pair_items(items), enc_pair(h));
    }
}

proof fn lemma_pairs_sound(b: Seq<u8>, p: int)
    requires
        parse_pairs(b, p) is Some,
    ensures
        parse_pairs(b, p) matches Some((hs, q)) && p <= q <= b.len() && b.subrange(p, q) == enc_pairs(
            hs,
        ),
{
    let (n, q0) = parse_be32(b, p)->Some_0;
    lemma_be32_sound(b, p);
    lemma_pair_items_sound(b, q0, n as nat);
    let (hs, q) = parse_pair_items(b, q0, n as nat)->Some_0;
    lemma_join(b, p, q0, q, be32(n), enc_pair_items(hs));
}

proof fn lemma_sound_register(b: Seq<u8>)
    requires
        b.len() > 0,
        b[0] == 0,
        parse_message(b) is Some,
    ensures
        encode_message(parse_message(b)->Some_0) == b,
{
    let tag = b[0];
    assert(b.subrange(0, 1) =~= seq![tag]);
    lemma_text_sound(b, 1);
    let (d, q1) = parse_text(b, 1)->Some_0;
    lemma_be16_sound(b, q1);
    lemma_join(b, 0, 1, q1, seq![tag], enc_text(d));
    let (port, q2) = parse_be16(b, q1)->Some_0;
    lemma_join(b, 0, q1, q2, seq![tag] + enc_text(d), be16(port));
    assert(b.subrange(0, b.len() as int) =~= b);
}

proof fn lemma_sound_text_only(b: Seq<u8>)
    requires
        b.len() > 0,
        b[0] == 1 || b[0] == 2 || b[0] == 3 || b[0] == 6,
        parse_message(b) is Some,
    ensures
        encode_message(parse_message(b)->Some_0) == b,
{
    let tag = b[0];
    assert(b.subrange(0, 1) =~= seq![tag]);
    lemma_text_sound(b, 1);
    let (d, q1) = parse_text(b, 1)->Some_0;
    lemma_join(b, 0, 1, q1, seq![tag], enc_text(d));
    assert(b.subrange(0, b.len() as int) =~= b);
}

proof fn lemma_sound_list(b: Seq<u8>)
    requires
        b.len() > 0,
        b[0] == 4 || b[0] == 5,
        parse_message(b) is Some,
    ensures
        encode_message(parse_message(b)->Some_0) == b,
{
    let tag = b[0];
    assert(b.subrange(0, 1) =~= seq![tag]);
    if tag == 5 {
        lemma_texts_sound(b, 1);
        let (ts, q1) = parse_texts(b, 1)->Some_0;
        lemma_join(b, 0, 1, q1, seq![tag], enc_texts(ts));
        assert(b.subrange(0, b.len() as int) =~= b);
    } else {
        assert(b =~= seq![4u8]);
    }
}

#[verifier::rlimit(100)]
#[verifier::spinoff_prover]
proof fn lemma_sound_request(b: Seq<u8>)
    requires
        b.len() > 0,
        b[0] == 7,
        parse_request(b) matches Some((_, end)) && end == b.len(),
    ensures
        encode_message(parse_request(b)->Some_0.0) == b,
{
    let tag = b[0];
    assert(b.subrange(0, 1) =~= seq![tag]);
    lemma_text_sound(b, 1);
    let (meth, q1) = parse_text(b, 1)->Some_0;
    lemma_text_sound(b, q1);
    let (uri, q2) = parse_text(b, q1)->Some_0;
    lemma_pairs_sound(b, q2);
    let (hs, q3) = parse_pairs(b, q2)->Some_0;
    lemma_bytes_sound(b, q3);
    let (body, q4) = parse_bytes(b, q3)->Some_0;
    assert(parse_request(b) == Some(
        (MessageView::HttpRequest { method: meth, uri, headers: hs, body }, q4),
    ));
    lemma_join(b, 0, 1, q1, seq![tag], enc_text(meth));
    lemma_join(b, 0, q1, q2, seq![tag] + enc_text(meth), enc_text(uri));
    lemma_join(b, 0, q2, q3, seq![tag] + enc_text(meth) + enc_text(uri), enc_pairs(hs));
    lemma_join(
        b,
        0,
        q3,
        q4,
        seq![tag] + enc_text(meth) + enc_text(uri) + enc_pairs(hs),
        enc_bytes(body),
    );
    assert(b.subrange(0, b.len() as int) =~= b);
}

#[verifier::rlimit(100)]
#[verifier::spinoff_prover]
proof fn lemma_sound_response(b: Seq<u8>)
    requires
        b.len() > 0,
        b[0] == 8,
        parse_message(b) is Some,
    ensures
        encode_message(parse_message(b)->Some_0) == b,
{
    let tag = b[0];
    assert(b.subrange(0, 1) =~= seq![tag]);
    lemma_be16_sound(b, 1);
    let (status, q1) = parse_be16(b, 1)->Some_0;
    lemma_pairs_sound(b, q1);
    let (hs, q2) = parse_pairs(b, q1)->Some_0;
    lemma_bytes_sound(b, q2);
    let (body, q3) = parse_bytes(b, q2)->Some_0;
    assert(parse_fields(b, tag) == Some((MessageView::HttpResponse { status, headers: hs, body }, q3)));
    assert(q3 == b.len());
    lemma_join(b, 0, 1, q1, seq![tag], be16(status));
    lemma_join(b, 0, q1, q2, seq![tag] + be16(status), enc_pairs(hs));
    lemma_join(b, 0, q2, q3, seq![tag] + be16(status) + enc_pairs(hs), enc_bytes(body));
    assert(b.subrange(0, b.len() as int) =~= b);
}

/// Only encodings are read: a buffer that parses as a message is exactly the
/// encoding of that message.
pub proof fn lemma_parse_sound(b: Seq<u8>)
    requires
        parse_message(b) is Some,
    ensures
        encode_message(parse_message(b)->Some_0) == b,
{
    let tag = b[0];
    if tag == 0 {
        lemma_sound_register(b);
    } else if tag == 1 || tag == 2 || tag == 3 || tag == 6 {
        lemma_sound_text_only(b);
    } else if tag == 4 || tag == 5 {
        lemma_sound_list(b);
    } else if tag == 7 {
        assert(parse_fields(b, tag) == parse_request(b));
        lemma_sound_request(b);
    } else {
        lemma_sound_response(b);
    }
}

} // verus!
