//! The framed wire protocol.
//!
//! Each connection carries an 11-byte prefix once per direction,
//! then length-prefixed payloads: a big-endian 16-bit length followed
//! by that many bytes of UTF-8 JSON. A payload is a tagged union with
//! fields `cmd` (the variant name) and `data`. This module defines
//! the request and response payloads, their canonical byte layout,
//! the parsers, the round-trip proof tying the two together, and the
//! stateful client/server codecs working over byte buffers.

use vstd::prelude::*;
use vstd::utf8::{valid_utf8, decode_utf8, encode_utf8};
use vstd::string::StrSliceExecFns;

use crate::json::{
    escape, escape_into, dec_u64, push_dec_u64, match_at, lit_at, parse_str_body, parse_str_exec,
    parse_num, parse_num_exec, lemma_parse_escape, lemma_parse_num_of_dec,
    lemma_parse_str_body_advances, is_digit,
};

verus! {

broadcast use vstd::utf8::encode_utf8_valid_utf8, vstd::utf8::encode_utf8_decode_utf8;

/// Client request payload.
#[derive(PartialEq, Debug)]
pub enum Request {
    /// Carries the sender's own advertised node address.
    Handshake(String),
    Ping,
    Pong,
    /// Message(msg_id, type_id, version, body); `body` is an opaque
    /// serialized payload.
    Message(u64, String, String, String),
}

/// Server response payload.
#[derive(PartialEq, Debug)]
pub enum Response {
    /// On the wire this variant is the bare connection prefix, never
    /// a JSON frame.
    Handshake,
    Ping,
    Pong,
    /// The type-ids for which the sender has local handlers.
    Supported(Vec<String>),
    /// Result(msg_id, body): the reply correlated to a `Message`.
    Result(u64, String),
}

/// Mathematical shape of a request.
pub enum ReqView {
    Handshake(Seq<char>),
    Ping,
    Pong,
    Message(u64, Seq<char>, Seq<char>, Seq<char>),
}

/// Mathematical shape of a response.
pub enum RespView {
    Handshake,
    Ping,
    Pong,
    Supported(Seq<Seq<char>>),
    Result(u64, Seq<char>),
}

impl View for Request {
    type V = ReqView;

    open spec fn view(&self) -> ReqView {
        match self {
            Request::Handshake(a) => ReqView::Handshake(a@),
            Request::Ping => ReqView::Ping,
            Request::Pong => ReqView::Pong,
            Request::Message(id, t, v, b) => ReqView::Message(*id, t@, v@, b@),
        }
    }
}

impl View for Response {
    type V = RespView;

    open spec fn view(&self) -> RespView {
        match self {
            Response::Handshake => RespView::Handshake,
            Response::Ping => RespView::Ping,
            Response::Pong => RespView::Pong,
            Response::Supported(ts) => RespView::Supported(ts.deep_view()),
            Response::Result(id, b) => RespView::Result(*id, b@),
        }
    }
}

// ---------------------------------------------------------------
// Canonical payload layout: literal segments
// ---------------------------------------------------------------
/// `{"cmd":"`
pub open spec fn lit_open() -> Seq<u8> {
    seq![0x7bu8, 0x22, 0x63, 0x6d, 0x64, 0x22, 0x3a, 0x22]
}

/// `Handshake","data":"`
pub open spec fn lit_handshake_req() -> Seq<u8> {
    seq![0x48u8, 0x61, 0x6e, 0x64, 0x73, 0x68, 0x61, 0x6b, 0x65, 0x22, 0x2c, 0x22, 0x64, 0x61, 0x74, 0x61, 0x22, 0x3a, 0x22]
}

/// `Handshake"}`
pub open spec fn lit_handshake_resp() -> Seq<u8> {
    seq![0x48u8, 0x61, 0x6e, 0x64, 0x73, 0x68, 0x61, 0x6b, 0x65, 0x22, 0x7d]
}

/// `Ping"}`
pub open spec fn lit_ping() -> Seq<u8> {
    seq![0x50u8, 0x69, 0x6e, 0x67, 0x22, 0x7d]
}

/// `Pong"}`
pub open spec fn lit_pong() -> Seq<u8> {
    seq![0x50u8, 0x6f, 0x6e, 0x67, 0x22, 0x7d]
}

/// `Message","data":[`
pub open spec fn lit_message() -> Seq<u8> {
    seq![0x4du8, 0x65, 0x73, 0x73, 0x61, 0x67, 0x65, 0x22, 0x2c, 0x22, 0x64, 0x61, 0x74, 0x61, 0x22, 0x3a, 0x5b]
}

/// `Supported","data":[`
pub open spec fn lit_supported() -> Seq<u8> {
    seq![0x53u8, 0x75, 0x70, 0x70, 0x6f, 0x72, 0x74, 0x65, 0x64, 0x22, 0x2c, 0x22, 0x64, 0x61, 0x74, 0x61, 0x22, 0x3a, 0x5b]
}

/// `Result","data":[`
pub open spec fn lit_result() -> Seq<u8> {
    seq![0x52u8, 0x65, 0x73, 0x75, 0x6c, 0x74, 0x22, 0x2c, 0x22, 0x64, 0x61, 0x74, 0x61, 0x22, 0x3a, 0x5b]
}

/// `,"`
pub open spec fn lit_comma_quote() -> Seq<u8> {
    seq![0x2cu8, 0x22]
}

/// `]}`
pub open spec fn lit_close() -> Seq<u8> {
    seq![0x5du8, 0x7d]
}

// ---------------------------------------------------------------
// Canonical payload layout of whole messages
// ---------------------------------------------------------------
/// A quoted, escaped string literal for the UTF-8 bytes of `c`.
pub open spec fn strq(c: Seq<char>) -> Seq<u8> {
    seq![0x22u8] + escape(encode_utf8(c)) + seq![0x22u8]
}

/// Comma-separated quoted string literals.
pub open spec fn enc_items(ts: Seq<Seq<char>>) -> Seq<u8>
    decreases ts.len(),
{
    if ts.len() == 0 {
        Seq::empty()
    } else if ts.len() == 1 {
        strq(ts[0])
    } else {
        strq(ts[0]) + seq![0x2cu8] + enc_items(ts.subrange(1, ts.len() as int))
    }
}

/// The canonical payload bytes of a request.
pub open spec fn spec_encode_request(r: ReqView) -> Seq<u8> {
    match r {
        ReqView::Handshake(a) => lit_open() + lit_handshake_req() + escape(encode_utf8(a))
            + seq![0x22u8, 0x7d],
        ReqView::Ping => lit_open() + lit_ping(),
        ReqView::Pong => lit_open() + lit_pong(),
        ReqView::Message(id, t, v, b) => lit_open() + lit_message() + dec_u64(id as nat)
            + lit_comma_quote() + escape(encode_utf8(t)) + seq![0x22u8, 0x2c, 0x22] + escape(
            encode_utf8(v),
        ) + seq![0x22u8, 0x2c, 0x22] + escape(encode_utf8(b)) + seq![0x22u8] + lit_close(),
    }
}

/// The canonical payload bytes of a response.
pub open spec fn spec_encode_response(r: RespView) -> Seq<u8> {
    match r {
        RespView::Handshake => lit_open() + lit_handshake_resp(),
        RespView::Ping => lit_open() + lit_ping(),
        RespView::Pong => lit_open() + lit_pong(),
        RespView::Supported(ts) => lit_open() + lit_supported() + enc_items(ts) + lit_close(),
        RespView::Result(id, b) => lit_open() + lit_result() + dec_u64(id as nat)
            + lit_comma_quote() + escape(encode_utf8(b)) + seq![0x22u8] + lit_close(),
    }
}

// ---------------------------------------------------------------
// Exec encoders
// ---------------------------------------------------------------
fn push_open(out: &mut Vec<u8>)
    ensures
        final(out)@ == old(out)@ + lit_open(),
{
    out.push(0x7b);
    out.push(0x22);
    out.push(0x63);
    out.push(0x6d);
    out.push(0x64);
    out.push(0x22);
    out.push(0x3a);
    out.push(0x22);
    assert(out@ =~= old(out)@ + lit_open());
}

fn push_handshake_req(out: &mut Vec<u8>)
    ensures
        final(out)@ == old(out)@ + lit_handshake_req(),
{
    out.push(0x48);
    out.push(0x61);
    out.push(0x6e);
    out.push(0x64);
    out.push(0x73);
    out.push(0x68);
    out.push(0x61);
    out.push(0x6b);
    out.push(0x65);
    out.push(0x22);
    out.push(0x2c);
    out.push(0x22);
    out.push(0x64);
    out.push(0x61);
    out.push(0x74);
    out.push(0x61);
    out.push(0x22);
    out.push(0x3a);
    out.push(0x22);
    assert(out@ =~= old(out)@ + lit_handshake_req());
}

fn push_handshake_resp(out: &mut Vec<u8>)
    ensures
        final(out)@ == old(out)@ + lit_handshake_resp(),
{
    out.push(0x48);
    out.push(0x61);
    out.push(0x6e);
    out.push(0x64);
    out.push(0x73);
    out.push(0x68);
    out.push(0x61);
    out.push(0x6b);
    out.push(0x65);
    out.push(0x22);
    out.push(0x7d);
    assert(out@ =~= old(out)@ + lit_handshake_resp());
}

fn push_ping(out: &mut Vec<u8>)
    ensures
        final(out)@ == old(out)@ + lit_ping(),
{
    out.push(0x50);
    out.push(0x69);
    out.push(0x6e);
    out.push(0x67);
    out.push(0x22);
    out.push(0x7d);
    assert(out@ =~= old(out)@ + lit_ping());
}

fn push_pong(out: &mut Vec<u8>)
    ensures
        final(out)@ == old(out)@ + lit_pong(),
{
    out.push(0x50);
    out.push(0x6f);
    out.push(0x6e);
    out.push(0x67);
    out.push(0x22);
    out.push(0x7d);
    assert(out@ =~= old(out)@ + lit_pong());
}

fn push_message(out: &mut Vec<u8>)
    ensures
        final(out)@ == old(out)@ + lit_message(),
{
    out.push(0x4d);
    out.push(0x65);
    out.push(0x73);
    out.push(0x73);
    out.push(0x61);
    out.push(0x67);
    out.push(0x65);
    out.push(0x22);
    out.push(0x2c);
    out.push(0x22);
    out.push(0x64);
    out.push(0x61);
    out.push(0x74);
    out.push(0x61);
    out.push(0x22);
    out.push(0x3a);
    out.push(0x5b);
    assert(out@ =~= old(out)@ + lit_message());
}

fn push_supported(out: &mut Vec<u8>)
    ensures
        final(out)@ == old(out)@ + lit_supported(),
{
    out.push(0x53);
    out.push(0x75);
    out.push(0x70);
    out.push(0x70);
    out.push(0x6f);
    out.push(0x72);
    out.push(0x74);
    out.push(0x65);
    out.push(0x64);
    out.push(0x22);
    out.push(0x2c);
    out.push(0x22);
    out.push(0x64);
    out.push(0x61);
    out.push(0x74);
    out.push(0x61);
    out.push(0x22);
    out.push(0x3a);
    out.push(0x5b);
    assert(out@ =~= old(out)@ + lit_supported());
}

fn push_result(out: &mut Vec<u8>)
    ensures
        final(out)@ == old(out)@ + lit_result(),
{
    out.push(0x52);
    out.push(0x65);
    out.push(0x73);
    out.push(0x75);
    out.push(0x6c);
    out.push(0x74);
    out.push(0x22);
    out.push(0x2c);
    out.push(0x22);
    out.push(0x64);
    out.push(0x61);
    out.push(0x74);
    out.push(0x61);
    out.push(0x22);
    out.push(0x3a);
    out.push(0x5b);
    assert(out@ =~= old(out)@ + lit_result());
}

/// Appends the escaped UTF-8 bytes of `s` (no quotes) to `out`.
fn push_escaped_str(out: &mut Vec<u8>, s: &str)
    ensures
        final(out)@ == old(out)@ + escape(encode_utf8(s@)),
{
    let bytes = s.as_bytes_vec();
    escape_into(out, &bytes);
}

/// Encodes a request into its canonical payload bytes.
#[verifier::rlimit(80)]
#[verifier::spinoff_prover]
pub fn encode_request_payload(r: &Request) -> (out: Vec<u8>)
    ensures
        out@ == spec_encode_request(r@),
{
    let mut out: Vec<u8> = Vec::new();
    push_open(&mut out);
    match r {
        Request::Handshake(a) => {
            push_handshake_req(&mut out);
            push_escaped_str(&mut out, a.as_str());
            out.push(0x22);
            out.push(0x7d);
            assert(out@ =~= spec_encode_request(r@));
        },
        Request::Ping => {
            push_ping(&mut out);
            assert(out@ =~= spec_encode_request(r@));
        },
        Request::Pong => {
            push_pong(&mut out);
            assert(out@ =~= spec_encode_request(r@));
        },
        Request::Message(id, t, v, b) => {
            push_message(&mut out);
            push_dec_u64(&mut out, *id);
            out.push(0x2c);
            out.push(0x22);
            push_escaped_str(&mut out, t.as_str());
            out.push(0x22);
            out.push(0x2c);
            out.push(0x22);
            push_escaped_str(&mut out, v.as_str());
            out.push(0x22);
            out.push(0x2c);
            out.push(0x22);
            push_escaped_str(&mut out, b.as_str());
            out.push(0x22);
            out.push(0x5d);
            out.push(0x7d);
            assert(out@ =~= spec_encode_request(r@));
        },
    }
    out
}

proof fn lemma_enc_items_push(ts: Seq<Seq<char>>, t: Seq<char>)
    ensures
        ts.len() == 0 ==> enc_items(ts.push(t)) == strq(t),
        ts.len() > 0 ==> enc_items(ts.push(t)) == enc_items(ts) + seq![0x2cu8] + strq(t),
    decreases ts.len(),
{
    if ts.len() == 0 {
        assert(ts.push(t).len() == 1);
        assert(ts.push(t)[0] == t);
    } else {
        let tail = ts.subrange(1, ts.len() as int);
        assert(ts.push(t).subrange(1, ts.push(t).len() as int) =~= tail.push(t));
        lemma_enc_items_push(tail, t);
        if ts.len() == 1 {
            assert(tail.len() == 0);
            assert(enc_items(ts.push(t)) =~= enc_items(ts) + seq![0x2cu8] + strq(t));
        } else {
            assert(enc_items(ts.push(t)) =~= enc_items(ts) + seq![0x2cu8] + strq(t));
        }
    }
}

/// Encodes a response into its canonical payload bytes.
#[verifier::rlimit(80)]
#[verifier::spinoff_prover]
pub fn encode_response_payload(r: &Response) -> (out: Vec<u8>)
    ensures
        out@ == spec_encode_response(r@),
{
    let mut out: Vec<u8> = Vec::new();
    push_open(&mut out);
    match r {
        Response::Handshake => {
            push_handshake_resp(&mut out);
            assert(out@ =~= spec_encode_response(r@));
        },
        Response::Ping => {
            push_ping(&mut out);
            assert(out@ =~= spec_encode_response(r@));
        },
        Response::Pong => {
            push_pong(&mut out);
            assert(out@ =~= spec_encode_response(r@));
        },
        Response::Supported(ts) => {
            push_supported(&mut out);
            let ghost base = out@;
            let ghost dv = ts.deep_view();
            let mut k: usize = 0;
            proof {
                assert(dv.len() == ts@.len());
                assert(forall|q: int| 0 <= q < ts@.len() ==> dv[q] == #[trigger] ts@[q]@);
                assert(dv.subrange(0, 0) =~= Seq::<Seq<char>>::empty());
                assert(out@ =~= base + enc_items(dv.subrange(0, 0)));
            }
            while k < ts.len()
                invariant
                    k <= ts@.len(),
                    dv == ts.deep_view(),
                    dv.len() == ts@.len(),
                    forall|q: int| 0 <= q < ts@.len() ==> dv[q] == #[trigger] ts@[q]@,
                    out@ == base + enc_items(dv.subrange(0, k as int)),
                decreases ts@.len() - k,
            {
                if k > 0 {
                    out.push(0x2c);
                }
                out.push(0x22);
                push_escaped_str(&mut out, ts[k].as_str());
                out.push(0x22);
                proof {
                    assert(dv.subrange(0, k + 1) =~= dv.subrange(0, k as int).push(
                        dv[k as int],
                    ));
                    lemma_enc_items_push(dv.subrange(0, k as int), dv[k as int]);
                    assert(out@ =~= base + enc_items(dv.subrange(0, k + 1)));
                }
                k = k + 1;
            }
            out.push(0x5d);
            out.push(0x7d);
            proof {
                assert(dv.subrange(0, dv.len() as int) =~= dv);
            }
            assert(out@ =~= spec_encode_response(r@));
        },
        Response::Result(id, b) => {
            push_result(&mut out);
            push_dec_u64(&mut out, *id);
            out.push(0x2c);
            out.push(0x22);
            push_escaped_str(&mut out, b.as_str());
            out.push(0x22);
            out.push(0x5d);
            out.push(0x7d);
            assert(out@ =~= spec_encode_response(r@));
        },
    }
    out
}

// ---------------------------------------------------------------
// Spec parsers
// ---------------------------------------------------------------
/// Parses a bracketed list tail of quoted strings starting at `i`
/// (just after the opening `[`), up to and including the closing `]`.
pub open spec fn parse_str_list(s: Seq<u8>, i: int) -> Option<(Seq<Seq<u8>>, int)>
    decreases s.len() - i,
        when 0 <= i <= s.len()
        via parse_str_list_dec
{
    if i >= s.len() {
        None
    } else if s[i] == 0x5d {
        Some((Seq::empty(), i + 1))
    } else if s[i] == 0x22 {
        match parse_str_body(s, i + 1) {
            Some((c, n)) => if n < s.len() && s[n] == 0x2c {
                match parse_str_list(s, n + 1) {
                    Some((items, m)) => Some((seq![c] + items, m)),
                    None => None,
                }
            } else if n < s.len() && s[n] == 0x5d {
                Some((seq![c], n + 1))
            } else {
                None
            },
            None => None,
        }
    } else {
        None
    }
}

#[via_fn]
proof fn parse_str_list_dec(s: Seq<u8>, i: int) {
    if 0 <= i && i < s.len() && s[i] != 0x5d && s[i] == 0x22 {
        if parse_str_body(s, i + 1) is Some {
            lemma_parse_str_body_advances(s, i + 1);
        }
    }
}

/// Parses the tail of a `Message` payload starting just after the
/// opening `[` of its data array.
pub open spec fn spec_parse_message_tail(s: Seq<u8>, j: int) -> Option<ReqView>
    recommends
        0 <= j <= s.len(),
{
    match parse_num(s, j) {
        Some((idv, n1)) => if idv <= u64::MAX && match_at(s, n1, lit_comma_quote()) {
            match parse_str_body(s, n1 + 2) {
                Some((t, n2)) => if match_at(s, n2, lit_comma_quote()) {
                    match parse_str_body(s, n2 + 2) {
                        Some((vv, n3)) => if match_at(s, n3, lit_comma_quote()) {
                            match parse_str_body(s, n3 + 2) {
                                Some((bb, n4)) => if match_at(s, n4, lit_close()) && n4 + 2
                                    == s.len() && valid_utf8(t) && valid_utf8(vv) && valid_utf8(
                                    bb,
                                ) {
                                    Some(
                                        ReqView::Message(
                                            idv as u64,
                                            decode_utf8(t),
                                            decode_utf8(vv),
                                            decode_utf8(bb),
                                        ),
                                    )
                                } else {
                                    None
                                },
                                None => None,
                            }
                        } else {
                            None
                        },
                        None => None,
                    }
                } else {
                    None
                },
                None => None,
            }
        } else {
            None
        },
        None => None,
    }
}

/// Which request, if any, a payload denotes.
pub open spec fn spec_parse_request(s: Seq<u8>) -> Option<ReqView> {
    if !match_at(s, 0, lit_open()) {
        None
    } else {
        let i = lit_open().len() as int;
        if match_at(s, i, lit_handshake_req()) {
            let j = i + lit_handshake_req().len() as int;
            match parse_str_body(s, j) {
                Some((c, n)) => if n + 1 == s.len() && s[n] == 0x7d && valid_utf8(c) {
                    Some(ReqView::Handshake(decode_utf8(c)))
                } else {
                    None
                },
                None => None,
            }
        } else if match_at(s, i, lit_ping()) && s.len() == i + lit_ping().len() {
            Some(ReqView::Ping)
        } else if match_at(s, i, lit_pong()) && s.len() == i + lit_pong().len() {
            Some(ReqView::Pong)
        } else if match_at(s, i, lit_message()) {
            spec_parse_message_tail(s, i + lit_message().len() as int)
        } else {
            None
        }
    }
}

/// Parses the tail of a `Result` payload starting just after the
/// opening `[` of its data array.
pub open spec fn spec_parse_result_tail(s: Seq<u8>, j: int) -> Option<RespView>
    recommends
        0 <= j <= s.len(),
{
    match parse_num(s, j) {
        Some((idv, n1)) => if idv <= u64::MAX && match_at(s, n1, lit_comma_quote()) {
            match parse_str_body(s, n1 + 2) {
                Some((bb, n2)) => if match_at(s, n2, lit_close()) && n2 + 2 == s.len()
                    && valid_utf8(bb) {
                    Some(RespView::Result(idv as u64, decode_utf8(bb)))
                } else {
                    None
                },
                None => None,
            }
        } else {
            None
        },
        None => None,
    }
}

/// Which response, if any, a payload denotes.
pub open spec fn spec_parse_response(s: Seq<u8>) -> Option<RespView> {
    if !match_at(s, 0, lit_open()) {
        None
    } else {
        let i = lit_open().len() as int;
        if match_at(s, i, lit_handshake_resp()) && s.len() == i + lit_handshake_resp().len() {
            Some(RespView::Handshake)
        } else if match_at(s, i, lit_ping()) && s.len() == i + lit_ping().len() {
            Some(RespView::Ping)
        } else if match_at(s, i, lit_pong()) && s.len() == i + lit_pong().len() {
            Some(RespView::Pong)
        } else if match_at(s, i, lit_supported()) {
            let j = i + lit_supported().len() as int;
            match parse_str_list(s, j) {
                Some((items, n)) => if n + 1 == s.len() && 0 <= n < s.len() && s[n] == 0x7d && (
                forall|k: int| 0 <= k < items.len() ==> valid_utf8(#[trigger] items[k])) {
                    Some(RespView::Supported(items.map_values(|c: Seq<u8>| decode_utf8(c))))
                } else {
                    None
                },
                None => None,
            }
        } else if match_at(s, i, lit_result()) {
            spec_parse_result_tail(s, i + lit_result().len() as int)
        } else {
            None
        }
    }
}

// ---------------------------------------------------------------
// Exec literal values
// ---------------------------------------------------------------
fn lit_open_vec() -> (r: Vec<u8>)
    ensures
        r@ == lit_open(),
{
    let mut v: Vec<u8> = Vec::new();
    push_open(&mut v);
    v
}

fn lit_handshake_req_vec() -> (r: Vec<u8>)
    ensures
        r@ == lit_handshake_req(),
{
    let mut v: Vec<u8> = Vec::new();
    push_handshake_req(&mut v);
    v
}

fn lit_handshake_resp_vec() -> (r: Vec<u8>)
    ensures
        r@ == lit_handshake_resp(),
{
    let mut v: Vec<u8> = Vec::new();
    push_handshake_resp(&mut v);
    v
}

fn lit_ping_vec() -> (r: Vec<u8>)
    ensures
        r@ == lit_ping(),
{
    let mut v: Vec<u8> = Vec::new();
    push_ping(&mut v);
    v
}

fn lit_pong_vec() -> (r: Vec<u8>)
    ensures
        r@ == lit_pong(),
{
    let mut v: Vec<u8> = Vec::new();
    push_pong(&mut v);
    v
}

fn lit_message_vec() -> (r: Vec<u8>)
    ensures
        r@ == lit_message(),
{
    let mut v: Vec<u8> = Vec::new();
    push_message(&mut v);
    v
}

fn lit_supported_vec() -> (r: Vec<u8>)
    ensures
        r@ == lit_supported(),
{
    let mut v: Vec<u8> = Vec::new();
    push_supported(&mut v);
    v
}

fn lit_result_vec() -> (r: Vec<u8>)
    ensures
        r@ == lit_result(),
{
    let mut v: Vec<u8> = Vec::new();
    push_result(&mut v);
    v
}

fn lit_comma_quote_vec() -> (r: Vec<u8>)
    ensures
        r@ == lit_comma_quote(),
{
    let mut v: Vec<u8> = Vec::new();
    v.push(0x2c);
    v.push(0x22);
    assert(v@ =~= lit_comma_quote());
    v
}

fn lit_close_vec() -> (r: Vec<u8>)
    ensures
        r@ == lit_close(),
{
    let mut v: Vec<u8> = Vec::new();
    v.push(0x5d);
    v.push(0x7d);
    assert(v@ =~= lit_close());
    v
}

// ---------------------------------------------------------------
// Exec decoders
// ---------------------------------------------------------------
/// Relies on `String::from_utf8`: returns the decoded string exactly
/// when the bytes are valid UTF-8, and preserves their content.
#[verifier::external_body]
fn bytes_to_string(v: &Vec<u8>) -> (r: Option<String>)
    ensures
        r is Some <==> valid_utf8(v@),
        (r matches Some(s) ==> s@ == decode_utf8(v@)),
{
    String::from_utf8(v.clone()).ok()
}

/// Parses a bracketed list tail of quoted strings, as
/// `parse_str_list` describes.
#[verifier::rlimit(80)]
#[verifier::spinoff_prover]
fn parse_str_list_exec(v: &Vec<u8>, i: usize) -> (r: Option<(Vec<Vec<u8>>, usize)>)
    requires
        i <= v@.len(),
    ensures
        (r matches Some(p) ==> parse_str_list(v@, i as int) == Some((p.0.deep_view(), p.1 as int))
            && i < p.1 <= v@.len()),
        r is None ==> parse_str_list(v@, i as int) is None,
{
    let ghost whole = parse_str_list(v@, i as int);
    let mut out: Vec<Vec<u8>> = Vec::new();
    let mut j: usize = i;
    loop
        invariant
            i <= j <= v@.len(),
            whole == parse_str_list(v@, i as int),
            whole is Some <==> parse_str_list(v@, j as int) is Some,
            forall|items: Seq<Seq<u8>>, m: int|
                parse_str_list(v@, j as int) == Some((items, m)) ==> whole == Some(
                    (out.deep_view() + items, m),
                ),
        decreases v@.len() - j,
    {
        if j >= v.len() {
            return None;
        }
        let b = v[j];
        if b == 0x5d {
            proof {
                assert(parse_str_list(v@, j as int) == Some((Seq::<Seq<u8>>::empty(), j + 1)));
                assert(out.deep_view() + Seq::<Seq<u8>>::empty() =~= out.deep_view());
            }
            return Some((out, j + 1));
        } else if b == 0x22 {
            match parse_str_exec(v, j + 1) {
                Some((c, n)) => {
                    let ghost gc = c@;
                    if n < v.len() && v[n] == 0x2c {
                        let ghost prev = out.deep_view();
                        proof {
                            assert(c.deep_view() =~= gc);
                        }
                        out.push(c);
                        proof {
                            assert(out.deep_view() =~= prev.push(gc)) by {
                                assert(forall|t: int|
                                    0 <= t < prev.len() ==> out.deep_view()[t] == prev[t]);
                                assert(out.deep_view()[prev.len() as int] == gc);
                            }
                            assert forall|items: Seq<Seq<u8>>, m: int|
                                parse_str_list(v@, n + 1) == Some((items, m)) implies whole
                                == Some((out.deep_view() + items, m)) by {
                                assert(parse_str_list(v@, j as int) == Some(
                                    (seq![gc] + items, m),
                                ));
                                assert(prev + (seq![gc] + items) =~= out.deep_view() + items);
                            }
                            assert(whole is Some <==> parse_str_list(v@, n + 1) is Some);
                        }
                        j = n + 1;
                    } else if n < v.len() && v[n] == 0x5d {
                        let ghost prev = out.deep_view();
                        proof {
                            assert(c.deep_view() =~= gc);
                        }
                        out.push(c);
                        proof {
                            assert(out.deep_view() =~= prev.push(gc)) by {
                                assert(forall|t: int|
                                    0 <= t < prev.len() ==> out.deep_view()[t] == prev[t]);
                                assert(out.deep_view()[prev.len() as int] == gc);
                            }
                            assert(parse_str_list(v@, j as int) == Some((seq![gc], n + 1)));
                            assert(prev + seq![gc] =~= out.deep_view());
                        }
                        return Some((out, n + 1));
                    } else {
                        proof {
                            assert(parse_str_list(v@, j as int) is None);
                        }
                        return None;
                    }
                },
                None => {
                    proof {
                        assert(parse_str_list(v@, j as int) is None);
                    }
                    return None;
                },
            }
        } else {
            proof {
                assert(parse_str_list(v@, j as int) is None);
            }
            return None;
        }
    }
}

/// Decodes a request payload, as `spec_parse_request` describes.
#[verifier::rlimit(80)]
#[verifier::spinoff_prover]
pub fn decode_request_payload(v: &Vec<u8>) -> (r: Option<Request>)
    ensures
        (r matches Some(req) ==> spec_parse_request(v@) == Some(req@)),
        r is None ==> spec_parse_request(v@) is None,
{
    let open = lit_open_vec();
    if !lit_at(v, 0, &open) {
        return None;
    }
    let i: usize = 8;
    assert(i as int == lit_open().len());
    let hs = lit_handshake_req_vec();
    if lit_at(v, i, &hs) {
        let j = i + hs.len();
        match parse_str_exec(v, j) {
            Some((c, n)) => {
                let ghost gc = c@;
                if n < v.len() && v[n] == 0x7d && n + 1 == v.len() {
                    match bytes_to_string(&c) {
                        Some(a) => {
                            return Some(Request::Handshake(a));
                        },
                        None => {
                            return None;
                        },
                    }
                } else {
                    return None;
                }
            },
            None => {
                return None;
            },
        }
    }
    let ping = lit_ping_vec();
    if lit_at(v, i, &ping) && v.len() == i + ping.len() {
        return Some(Request::Ping);
    }
    let pong = lit_pong_vec();
    if lit_at(v, i, &pong) && v.len() == i + pong.len() {
        return Some(Request::Pong);
    }
    let msg = lit_message_vec();
    if lit_at(v, i, &msg) {
        let j = i + msg.len();
        let cq = lit_comma_quote_vec();
        let close = lit_close_vec();
        match parse_num_exec(v, j) {
            Some((id, n1)) => {
                if !lit_at(v, n1, &cq) {
                    return None;
                }
                proof {
                    assert(n1 + 2 <= v.len());
                }
                match parse_str_exec(v, n1 + 2) {
                    Some((t, n2)) => {
                        if !lit_at(v, n2, &cq) {
                            return None;
                        }
                        proof {
                            assert(n2 + 2 <= v.len());
                        }
                        match parse_str_exec(v, n2 + 2) {
                            Some((vv, n3)) => {
                                if !lit_at(v, n3, &cq) {
                                    return None;
                                }
                                proof {
                                    assert(n3 + 2 <= v.len());
                                }
                                match parse_str_exec(v, n3 + 2) {
                                    Some((bb, n4)) => {
                                        let closed = lit_at(v, n4, &close);
                                        proof {
                                            if closed {
                                                assert(n4 + 2 <= v.len());
                                            }
                                        }
                                        if !(closed && n4 + 2 == v.len()) {
                                            return None;
                                        }
                                        let ts = bytes_to_string(&t);
                                        let vs = bytes_to_string(&vv);
                                        let bs = bytes_to_string(&bb);
                                        match (ts, vs, bs) {
                                            (Some(t2), Some(v2), Some(b2)) => {
                                                return Some(Request::Message(id, t2, v2, b2));
                                            },
                                            _ => {
                                                return None;
                                            },
                                        }
                                    },
                                    None => {
                                        return None;
                                    },
                                }
                            },
                            None => {
                                return None;
                            },
                        }
                    },
                    None => {
                        return None;
                    },
                }
            },
            None => {
                return None;
            },
        }
    }
    None
}

/// Decodes a response payload, as `spec_parse_response` describes.
#[verifier::rlimit(80)]
#[verifier::spinoff_prover]
pub fn decode_response_payload(v: &Vec<u8>) -> (r: Option<Response>)
    ensures
        (r matches Some(resp) ==> spec_parse_response(v@) == Some(resp@)),
        r is None ==> spec_parse_response(v@) is None,
{
    let open = lit_open_vec();
    if !lit_at(v, 0, &open) {
        return None;
    }
    let i: usize = 8;
    assert(i as int == lit_open().len());
    let hs = lit_handshake_resp_vec();
    if lit_at(v, i, &hs) && v.len() == i + hs.len() {
        return Some(Response::Handshake);
    }
    let ping = lit_ping_vec();
    if lit_at(v, i, &ping) && v.len() == i + ping.len() {
        return Some(Response::Ping);
    }
    let pong = lit_pong_vec();
    if lit_at(v, i, &pong) && v.len() == i + pong.len() {
        return Some(Response::Pong);
    }
    let sup = lit_supported_vec();
    if lit_at(v, i, &sup) {
        let j = i + sup.len();
        match parse_str_list_exec(v, j) {
            Some((items, n)) => {
                let ghost gitems = items.deep_view();
                if !(n < v.len() && n + 1 == v.len()) {
                    return None;
                }
                if !(v[n] == 0x7d) {
                    return None;
                }
                proof {
                    assert((forall|q: int|
                        0 <= q < gitems.len() ==> valid_utf8(#[trigger] gitems[q]))
                        ==> spec_parse_response(v@) == Some(
                        RespView::Supported(gitems.map_values(|c: Seq<u8>| decode_utf8(c))),
                    ));
                    assert(!(forall|q: int|
                        0 <= q < gitems.len() ==> valid_utf8(#[trigger] gitems[q]))
                        ==> spec_parse_response(v@) is None);
                }
                let ghost if_valid = spec_parse_response(v@) == Some(
                    RespView::Supported(gitems.map_values(|c: Seq<u8>| decode_utf8(c))),
                );
                let ghost if_invalid = spec_parse_response(v@) is None;
                let mut out: Vec<String> = Vec::new();
                let mut k: usize = 0;
                while k < items.len()
                    invariant
                        k <= items@.len(),
                        gitems == items.deep_view(),
                        gitems.len() == items@.len(),
                        out@.len() == k,
                        (forall|q: int|
                            0 <= q < gitems.len() ==> valid_utf8(#[trigger] gitems[q]))
                            ==> if_valid,
                        !(forall|q: int|
                            0 <= q < gitems.len() ==> valid_utf8(#[trigger] gitems[q]))
                            ==> if_invalid,
                        if_valid == (spec_parse_response(v@) == Some(
                            RespView::Supported(
                                gitems.map_values(|c: Seq<u8>| decode_utf8(c)),
                            ),
                        )),
                        if_invalid == (spec_parse_response(v@) is None),
                        forall|q: int|
                            0 <= q < k ==> valid_utf8(#[trigger] gitems[q]) && out@[q]@
                                == decode_utf8(gitems[q]),
                    decreases items@.len() - k,
                {
                    proof {
                        assert(gitems[k as int] == items@[k as int]@);
                    }
                    match bytes_to_string(&items[k]) {
                        Some(s2) => {
                            out.push(s2);
                        },
                        None => {
                            proof {
                                assert(!valid_utf8(gitems[k as int]));
                                assert(!(forall|q: int|
                                    0 <= q < gitems.len() ==> valid_utf8(#[trigger] gitems[q])));
                            }
                            return None;
                        },
                    }
                    k = k + 1;
                }
                proof {
                    assert(out.deep_view() =~= gitems.map_values(|c: Seq<u8>| decode_utf8(c)));
                }
                return Some(Response::Supported(out));
            },
            None => {
                return None;
            },
        }
    }
    let res = lit_result_vec();
    if lit_at(v, i, &res) {
        let j = i + res.len();
        let cq = lit_comma_quote_vec();
        let close = lit_close_vec();
        match parse_num_exec(v, j) {
            Some((id, n1)) => {
                if !lit_at(v, n1, &cq) {
                    return None;
                }
                proof {
                    assert(n1 + 2 <= v.len());
                }
                match parse_str_exec(v, n1 + 2) {
                    Some((bb, n2)) => {
                        let closed = lit_at(v, n2, &close);
                        proof {
                            if closed {
                                assert(n2 + 2 <= v.len());
                            }
                        }
                        if !(closed && n2 + 2 == v.len()) {
                            return None;
                        }
                        match bytes_to_string(&bb) {
                            Some(b2) => {
                                return Some(Response::Result(id, b2));
                            },
                            None => {
                                return None;
                            },
                        }
                    },
                    None => {
                        return None;
                    },
                }
            },
            None => {
                return None;
            },
        }
    }
    None
}

// ---------------------------------------------------------------
// Round trip: parsing a canonical encoding yields the message back
// ---------------------------------------------------------------
proof fn lemma_match_lay(s: Seq<u8>, i: int, lit: Seq<u8>)
    requires
        0 <= i,
        i + lit.len() <= s.len(),
        forall|k: int| 0 <= k < lit.len() ==> s[i + k] == lit[k],
    ensures
        match_at(s, i, lit),
{
    assert(s.subrange(i, i + lit.len()) =~= lit);
}

proof fn lemma_mismatch(s: Seq<u8>, i: int, lit: Seq<u8>, k: int)
    requires
        0 <= i,
        0 <= k < lit.len(),
        i + k < s.len(),
        s[i + k] != lit[k],
    ensures
        !match_at(s, i, lit),
{
    if match_at(s, i, lit) {
        assert(s.subrange(i, i + lit.len())[k] == s[i + k]);
    }
}

/// Parsing the canonical layout of a quoted string list yields the
/// UTF-8 encodings of its items.
proof fn lemma_parse_items(s: Seq<u8>, i: int, ts: Seq<Seq<char>>)
    requires
        0 <= i,
        i + enc_items(ts).len() + 1 <= s.len(),
        s.subrange(i, i + enc_items(ts).len()) == enc_items(ts),
        s[i + enc_items(ts).len()] == 0x5d,
    ensures
        parse_str_list(s, i) == Some(
            (ts.map_values(|c: Seq<char>| encode_utf8(c)), i + enc_items(ts).len() + 1),
        ),
    decreases ts.len(),
{
    let l = enc_items(ts).len() as int;
    if ts.len() == 0 {
        assert(enc_items(ts) == Seq::<u8>::empty());
        assert(s[i] == 0x5d);
        assert(ts.map_values(|c: Seq<char>| encode_utf8(c)) =~= Seq::<Seq<u8>>::empty());
    } else {
        let e0 = encode_utf8(ts[0]);
        let sq = strq(ts[0]);
        assert(sq.len() == escape(e0).len() + 2);
        assert forall|k: int| 0 <= k < sq.len() && k < l implies s[i + k] == sq[k] by {
            assert(s.subrange(i, i + l)[k] == s[i + k]);
            if ts.len() == 1 {
                assert(enc_items(ts)[k] == sq[k]);
            } else {
                assert(enc_items(ts) == sq + seq![0x2cu8] + enc_items(
                    ts.subrange(1, ts.len() as int),
                ));
                assert(enc_items(ts)[k] == sq[k]);
            }
        }
        if ts.len() == 1 {
            assert(enc_items(ts) == sq);
            assert(s[i] == sq[0] && sq[0] == 0x22);
            assert(s.subrange(i + 1, i + 1 + escape(e0).len()) =~= escape(e0)) by {
                assert forall|k: int| 0 <= k < escape(e0).len() implies s.subrange(
                    i + 1,
                    i + 1 + escape(e0).len(),
                )[k] == escape(e0)[k] by {
                    assert(s[i + 1 + k] == sq[1 + k]);
                    assert(sq[1 + k] == escape(e0)[k]);
                }
            }
            assert(s[i + 1 + escape(e0).len()] == sq[sq.len() - 1]);
            assert(sq[sq.len() - 1] == 0x22);
            lemma_parse_escape(s, i + 1, e0);
            let n = i + 1 + escape(e0).len() + 1;
            assert(n == i + l);
            assert(s[n] == 0x5d);
            assert(parse_str_list(s, i) == Some((seq![e0], n + 1)));
            assert(seq![e0] =~= ts.map_values(|c: Seq<char>| encode_utf8(c)));
        } else {
            let rest = ts.subrange(1, ts.len() as int);
            assert(enc_items(ts) == sq + seq![0x2cu8] + enc_items(rest));
            assert(s[i] == sq[0] && sq[0] == 0x22);
            assert(s.subrange(i + 1, i + 1 + escape(e0).len()) =~= escape(e0)) by {
                assert forall|k: int| 0 <= k < escape(e0).len() implies s.subrange(
                    i + 1,
                    i + 1 + escape(e0).len(),
                )[k] == escape(e0)[k] by {
                    assert(s[i + 1 + k] == sq[1 + k]);
                    assert(sq[1 + k] == escape(e0)[k]);
                }
            }
            assert(s[i + 1 + escape(e0).len()] == sq[sq.len() - 1]);
            assert(sq[sq.len() - 1] == 0x22);
            lemma_parse_escape(s, i + 1, e0);
            let n = i + sq.len() as int;
            assert(parse_str_body(s, i + 1) == Some((e0, n)));
            assert(s[n] == enc_items(ts)[sq.len() as int]) by {
                assert(s.subrange(i, i + l)[sq.len() as int] == s[n]);
            }
            assert(enc_items(ts)[sq.len() as int] == 0x2c);
            assert(s.subrange(n + 1, n + 1 + enc_items(rest).len()) =~= enc_items(rest)) by {
                assert forall|k: int| 0 <= k < enc_items(rest).len() implies s.subrange(
                    n + 1,
                    n + 1 + enc_items(rest).len(),
                )[k] == enc_items(rest)[k] by {
                    assert(s.subrange(i, i + l)[sq.len() + 1 + k] == s[n + 1 + k]);
                    assert(enc_items(ts)[sq.len() + 1 + k] == enc_items(rest)[k]);
                }
            }
            assert(s[n + 1 + enc_items(rest).len()] == 0x5d);
            lemma_parse_items(s, n + 1, rest);
            let m = n + 1 + enc_items(rest).len() + 1;
            assert(parse_str_list(s, i) == Some(
                (seq![e0] + rest.map_values(|c: Seq<char>| encode_utf8(c)), m),
            ));
            assert(seq![e0] + rest.map_values(|c: Seq<char>| encode_utf8(c)) =~= ts.map_values(
                |c: Seq<char>| encode_utf8(c),
            ));
            assert(m == i + l + 1);
        }
    }
}

/// Round trip: parsing the canonical encoding of a request yields
/// the request back.
pub proof fn lemma_request_round_trip(r: ReqView)
    ensures
        spec_parse_request(spec_encode_request(r)) == Some(r),
{
    let s = spec_encode_request(r);
    match r {
        ReqView::Ping => {
            assert(s == lit_open() + lit_ping());
            assert(s.len() == 14);
            lemma_match_lay(s, 0, lit_open());
            assert(!match_at(s, 8, lit_handshake_req()));
            lemma_match_lay(s, 8, lit_ping());
        },
        ReqView::Pong => {
            assert(s == lit_open() + lit_pong());
            assert(s.len() == 14);
            lemma_match_lay(s, 0, lit_open());
            assert(!match_at(s, 8, lit_handshake_req()));
            assert(s[9] == 0x6f);
            lemma_mismatch(s, 8, lit_ping(), 1);
            lemma_match_lay(s, 8, lit_pong());
        },
        ReqView::Handshake(a) => {
            let e = encode_utf8(a);
            let le = escape(e).len() as int;
            assert(s == lit_open() + lit_handshake_req() + escape(e) + seq![0x22u8, 0x7d]);
            assert(s.len() == 29 + le);
            lemma_match_lay(s, 0, lit_open());
            lemma_match_lay(s, 8, lit_handshake_req());
            assert(s.subrange(27, 27 + le) =~= escape(e)) by {
                assert forall|k: int| 0 <= k < le implies s.subrange(27, 27 + le)[k] == escape(
                    e,
                )[k] by {
                    assert(s[27 + k] == escape(e)[k]);
                }
            }
            assert(s[27 + le] == 0x22);
            lemma_parse_escape(s, 27, e);
            let n = 28 + le;
            assert(parse_str_body(s, 27) == Some((e, n)));
            assert(s[n] == 0x7d);
        },
        ReqView::Message(id, t, v, b) => {
            lemma_message_round_trip(id, t, v, b);
        },
    }
}

#[verifier::rlimit(100)]
#[verifier::spinoff_prover]
proof fn lemma_message_round_trip(id: u64, t: Seq<char>, v: Seq<char>, b: Seq<char>)
    ensures
        spec_parse_request(spec_encode_request(ReqView::Message(id, t, v, b))) == Some(
            ReqView::Message(id, t, v, b),
        ),
{
    let r = ReqView::Message(id, t, v, b);
    let s = spec_encode_request(r);
    let et = encode_utf8(t);
    let ev = encode_utf8(v);
    let eb = encode_utf8(b);
    let d = dec_u64(id as nat);
    let mid = seq![0x22u8, 0x2c, 0x22];
    assert(s == lit_open() + lit_message() + d + lit_comma_quote() + escape(et) + mid
        + escape(ev) + mid + escape(eb) + seq![0x22u8] + lit_close());
    let dl = d.len() as int;
    let lt = escape(et).len() as int;
    let lv = escape(ev).len() as int;
    let lb = escape(eb).len() as int;
    assert(s.len() == 25 + dl + 2 + lt + 3 + lv + 3 + lb + 3);
    lemma_match_lay(s, 0, lit_open());
    assert(s[8] == 0x4d);
    lemma_mismatch(s, 8, lit_handshake_req(), 0);
    lemma_mismatch(s, 8, lit_ping(), 0);
    lemma_mismatch(s, 8, lit_pong(), 0);
    lemma_match_lay(s, 8, lit_message());
    // the msg id digits
    assert(s.subrange(25, 25 + dl) =~= d) by {
        assert forall|k: int| 0 <= k < dl implies s.subrange(25, 25 + dl)[k] == d[k] by {
            assert(s[25 + k] == d[k]);
        }
    }
    assert(s[25 + dl] == 0x2c);
    lemma_parse_num_of_dec(s, 25, id);
    let n1 = 25 + dl;
    assert(parse_num(s, 25) == Some((id as nat, n1)));
    assert(s[n1 + 1] == 0x22);
    lemma_match_lay(s, n1, lit_comma_quote());
    // type id string
    assert(s.subrange(n1 + 2, n1 + 2 + lt) =~= escape(et)) by {
        assert forall|k: int| 0 <= k < lt implies s.subrange(n1 + 2, n1 + 2 + lt)[k]
            == escape(et)[k] by {
            assert(s[n1 + 2 + k] == escape(et)[k]);
        }
    }
    assert(s[n1 + 2 + lt] == 0x22);
    lemma_parse_escape(s, n1 + 2, et);
    let n2 = n1 + 2 + lt + 1;
    assert(parse_str_body(s, n1 + 2) == Some((et, n2)));
    assert(s[n2] == 0x2c && s[n2 + 1] == 0x22);
    lemma_match_lay(s, n2, lit_comma_quote());
    // version string
    assert(s.subrange(n2 + 2, n2 + 2 + lv) =~= escape(ev)) by {
        assert forall|k: int| 0 <= k < lv implies s.subrange(n2 + 2, n2 + 2 + lv)[k]
            == escape(ev)[k] by {
            assert(s[n2 + 2 + k] == escape(ev)[k]);
        }
    }
    assert(s[n2 + 2 + lv] == 0x22);
    lemma_parse_escape(s, n2 + 2, ev);
    let n3 = n2 + 2 + lv + 1;
    assert(parse_str_body(s, n2 + 2) == Some((ev, n3)));
    assert(s[n3] == 0x2c && s[n3 + 1] == 0x22);
    lemma_match_lay(s, n3, lit_comma_quote());
    // body string
    assert(s.subrange(n3 + 2, n3 + 2 + lb) =~= escape(eb)) by {
        assert forall|k: int| 0 <= k < lb implies s.subrange(n3 + 2, n3 + 2 + lb)[k]
            == escape(eb)[k] by {
            assert(s[n3 + 2 + k] == escape(eb)[k]);
        }
    }
    assert(s[n3 + 2 + lb] == 0x22);
    lemma_parse_escape(s, n3 + 2, eb);
    let n4 = n3 + 2 + lb + 1;
    assert(parse_str_body(s, n3 + 2) == Some((eb, n4)));
    assert(s[n4] == 0x5d && s[n4 + 1] == 0x7d);
    lemma_match_lay(s, n4, lit_close());
    assert(n4 + 2 == s.len());
    assert(spec_parse_message_tail(s, 25) == Some(r));
}

/// Round trip: parsing the canonical encoding of a response yields
/// the response back.
#[verifier::rlimit(100)]
#[verifier::spinoff_prover]
pub proof fn lemma_response_round_trip(r: RespView)
    ensures
        spec_parse_response(spec_encode_response(r)) == Some(r),
{
    let s = spec_encode_response(r);
    match r {
        RespView::Handshake => {
            assert(s == lit_open() + lit_handshake_resp());
            assert(s.len() == 19);
            lemma_match_lay(s, 0, lit_open());
            lemma_match_lay(s, 8, lit_handshake_resp());
        },
        RespView::Ping => {
            assert(s == lit_open() + lit_ping());
            assert(s.len() == 14);
            lemma_match_lay(s, 0, lit_open());
            assert(!match_at(s, 8, lit_handshake_resp()));
            lemma_match_lay(s, 8, lit_ping());
        },
        RespView::Pong => {
            assert(s == lit_open() + lit_pong());
            assert(s.len() == 14);
            lemma_match_lay(s, 0, lit_open());
            assert(!match_at(s, 8, lit_handshake_resp()));
            assert(s[9] == 0x6f);
            lemma_mismatch(s, 8, lit_ping(), 1);
            lemma_match_lay(s, 8, lit_pong());
        },
        RespView::Supported(ts) => {
            let l = enc_items(ts).len() as int;
            assert(s == lit_open() + lit_supported() + enc_items(ts) + lit_close());
            assert(s.len() == 29 + l);
            lemma_match_lay(s, 0, lit_open());
            assert(s[8] == 0x53);
            lemma_mismatch(s, 8, lit_handshake_resp(), 0);
            lemma_mismatch(s, 8, lit_ping(), 0);
            lemma_mismatch(s, 8, lit_pong(), 0);
            lemma_match_lay(s, 8, lit_supported());
            assert(s.subrange(27, 27 + l) =~= enc_items(ts)) by {
                assert forall|k: int| 0 <= k < l implies s.subrange(27, 27 + l)[k] == enc_items(
                    ts,
                )[k] by {
                    assert(s[27 + k] == enc_items(ts)[k]);
                }
            }
            assert(s[27 + l] == 0x5d);
            lemma_parse_items(s, 27, ts);
            let n = 27 + l + 1;
            let items = ts.map_values(|c: Seq<char>| encode_utf8(c));
            assert(parse_str_list(s, 27) == Some((items, n)));
            assert(s[n] == 0x7d);
            assert(n + 1 == s.len());
            assert(forall|k: int| 0 <= k < items.len() ==> valid_utf8(#[trigger] items[k]));
            assert(items.map_values(|c: Seq<u8>| decode_utf8(c)) =~= ts);
        },
        RespView::Result(id, b) => {
            let eb = encode_utf8(b);
            let d = dec_u64(id as nat);
            assert(s == lit_open() + lit_result() + d + lit_comma_quote() + escape(eb)
                + seq![0x22u8] + lit_close());
            let dl = d.len() as int;
            let lb = escape(eb).len() as int;
            assert(s.len() == 24 + dl + 2 + lb + 3);
            lemma_match_lay(s, 0, lit_open());
            assert(s[8] == 0x52);
            lemma_mismatch(s, 8, lit_handshake_resp(), 0);
            lemma_mismatch(s, 8, lit_ping(), 0);
            lemma_mismatch(s, 8, lit_pong(), 0);
            lemma_mismatch(s, 8, lit_supported(), 0);
            lemma_match_lay(s, 8, lit_result());
            assert(s.subrange(24, 24 + dl) =~= d) by {
                assert forall|k: int| 0 <= k < dl implies s.subrange(24, 24 + dl)[k] == d[k] by {
                    assert(s[24 + k] == d[k]);
                }
            }
            assert(s[24 + dl] == 0x2c);
            lemma_parse_num_of_dec(s, 24, id);
            let n1 = 24 + dl;
            assert(parse_num(s, 24) == Some((id as nat, n1)));
            assert(s[n1 + 1] == 0x22);
            lemma_match_lay(s, n1, lit_comma_quote());
            assert(s.subrange(n1 + 2, n1 + 2 + lb) =~= escape(eb)) by {
                assert forall|k: int| 0 <= k < lb implies s.subrange(n1 + 2, n1 + 2 + lb)[k]
                    == escape(eb)[k] by {
                    assert(s[n1 + 2 + k] == escape(eb)[k]);
                }
            }
            assert(s[n1 + 2 + lb] == 0x22);
            lemma_parse_escape(s, n1 + 2, eb);
            let n2 = n1 + 2 + lb + 1;
            assert(parse_str_body(s, n1 + 2) == Some((eb, n2)));
            assert(s[n2] == 0x5d && s[n2 + 1] == 0x7d);
            lemma_match_lay(s, n2, lit_close());
            assert(n2 + 2 == s.len());
            assert(spec_parse_result_tail(s, 24) == Some(r));
        },
    }
}

// ---------------------------------------------------------------
// Frame layer
// ---------------------------------------------------------------
/// `ACTIX/1.0\r\n`, exchanged once per direction before any frame.
pub open spec fn wire_prefix() -> Seq<u8> {
    seq![0x41u8, 0x43, 0x54, 0x49, 0x58, 0x2f, 0x31, 0x2e, 0x30, 0x0d, 0x0a]
}

pub fn wire_prefix_vec() -> (r: Vec<u8>)
    ensures
        r@ == wire_prefix(),
{
    let mut v: Vec<u8> = Vec::new();
    v.push(0x41);
    v.push(0x43);
    v.push(0x54);
    v.push(0x49);
    v.push(0x58);
    v.push(0x2f);
    v.push(0x31);
    v.push(0x2e);
    v.push(0x30);
    v.push(0x0d);
    v.push(0x0a);
    assert(v@ =~= wire_prefix());
    v
}

/// Why a byte stream was rejected.
#[derive(Clone, Copy, PartialEq, Eq, Structural, Debug)]
pub enum ProtocolError {
    /// The first 11 bytes of the stream are not the wire prefix.
    PrefixMismatch,
    /// A complete frame's payload is not a well-formed message.
    Malformed,
    /// A payload is too large for the 16-bit length field.
    Oversize,
}

/// The number a big-endian 16-bit length field denotes.
pub open spec fn be16(hi: u8, lo: u8) -> int {
    hi * 256 + lo
}

/// Whether the prefix requirement is met at the head of `s` for a
/// codec whose prefix-seen flag is `pre`.
pub open spec fn prefix_ok(pre: bool, s: Seq<u8>) -> bool {
    pre || (s.len() >= 11 && s.subrange(0, 11) == wire_prefix())
}

/// The buffer after the prefix, where `prefix_ok` holds.
pub open spec fn stripped(pre: bool, s: Seq<u8>) -> Seq<u8> {
    if pre {
        s
    } else {
        s.subrange(11, s.len() as int)
    }
}

/// The declared payload size of the frame at the head of `rest`.
pub open spec fn frame_size(rest: Seq<u8>) -> int
    recommends
        rest.len() >= 2,
{
    be16(rest[0], rest[1])
}

/// Whether `rest` holds one complete frame.
pub open spec fn frame_ready(rest: Seq<u8>) -> bool {
    rest.len() >= 2 && rest.len() >= 2 + frame_size(rest)
}

/// The payload of the complete frame at the head of `rest`.
pub open spec fn frame_payload(rest: Seq<u8>) -> Seq<u8>
    recommends
        frame_ready(rest),
{
    rest.subrange(2, 2 + frame_size(rest))
}

/// What remains of `rest` after its first frame.
pub open spec fn frame_rest(rest: Seq<u8>) -> Seq<u8>
    recommends
        frame_ready(rest),
{
    rest.subrange(2 + frame_size(rest), rest.len() as int)
}

/// Removes and returns the first `n` bytes of `v`.
fn split_off_front(v: &mut Vec<u8>, n: usize) -> (r: Vec<u8>)
    requires
        n <= old(v)@.len(),
    ensures
        r@ == old(v)@.subrange(0, n as int),
        final(v)@ == old(v)@.subrange(n as int, old(v)@.len() as int),
{
    let mut front: Vec<u8> = Vec::new();
    let mut i: usize = 0;
    while i < n
        invariant
            i <= n <= v@.len(),
            v@ == old(v)@,
            front@ == old(v)@.subrange(0, i as int),
        decreases n - i,
    {
        front.push(v[i]);
        proof {
            assert(old(v)@.subrange(0, i + 1) =~= old(v)@.subrange(0, i as int).push(
                old(v)@[i as int],
            ));
        }
        i = i + 1;
    }
    let mut rest: Vec<u8> = Vec::new();
    let mut j: usize = n;
    while j < v.len()
        invariant
            n <= j <= v@.len(),
            v@ == old(v)@,
            rest@ == old(v)@.subrange(n as int, j as int),
        decreases v@.len() - j,
    {
        rest.push(v[j]);
        proof {
            assert(old(v)@.subrange(n as int, j + 1) =~= old(v)@.subrange(n as int, j as int).push(
                old(v)@[j as int],
            ));
        }
        j = j + 1;
    }
    *v = rest;
    front
}

/// Appends all bytes of `src` to `dst`.
fn append_bytes(dst: &mut Vec<u8>, src: &Vec<u8>)
    ensures
        final(dst)@ == old(dst)@ + src@,
{
    let mut i: usize = 0;
    proof {
        assert(dst@ =~= old(dst)@ + src@.subrange(0, 0));
    }
    while i < src.len()
        invariant
            i <= src@.len(),
            dst@ == old(dst)@ + src@.subrange(0, i as int),
        decreases src@.len() - i,
    {
        dst.push(src[i]);
        proof {
            assert(src@.subrange(0, i + 1) =~= src@.subrange(0, i as int).push(src@[i as int]));
        }
        i = i + 1;
    }
    proof {
        assert(src@.subrange(0, src@.len() as int) =~= src@);
    }
}

/// The length field followed by the payload.
pub open spec fn framed(p: Seq<u8>) -> Seq<u8>
    recommends
        p.len() <= 0xffff,
{
    seq![(p.len() / 256) as u8, (p.len() % 256) as u8] + p
}

/// Codec for the server side of a connection: decodes requests,
/// encodes responses. Tracks whether the inbound prefix was consumed.
pub struct NetworkServerCodec {
    prefix: bool,
}

/// Codec for the client side of a connection: decodes responses,
/// encodes requests. Tracks whether the inbound prefix was consumed.
pub struct NetworkClientCodec {
    prefix: bool,
}

impl NetworkServerCodec {
    /// Whether the inbound prefix was already consumed.
    pub closed spec fn prefix_done(&self) -> bool {
        self.prefix
    }
}

impl NetworkClientCodec {
    /// Whether the inbound prefix was already consumed.
    pub closed spec fn prefix_done(&self) -> bool {
        self.prefix
    }
}

impl Default for NetworkServerCodec {
    fn default() -> (r: NetworkServerCodec)
        ensures
            !r.prefix_done(),
    {
        NetworkServerCodec { prefix: false }
    }
}

impl Default for NetworkClientCodec {
    fn default() -> (r: NetworkClientCodec)
        ensures
            !r.prefix_done(),
    {
        NetworkClientCodec { prefix: false }
    }
}

impl NetworkServerCodec {
    /// Consumes the prefix (once) and then at most one complete
    /// frame from the head of `src`, decoding its payload as a
    /// request. `Ok(None)` means more bytes are needed.
    pub fn decode(&mut self, src: &mut Vec<u8>) -> (r: Result<Option<Request>, ProtocolError>)
        ensures
            final(self).prefix_done() == prefix_ok(old(self).prefix_done(), old(src)@),
            !old(self).prefix_done() && old(src)@.len() < 11 ==> r == Ok::<
                Option<Request>,
                ProtocolError,
            >(None) && final(src)@ == old(src)@,
            !old(self).prefix_done() && old(src)@.len() >= 11 && old(src)@.subrange(0, 11)
                != wire_prefix() ==> r == Err::<Option<Request>, ProtocolError>(
                ProtocolError::PrefixMismatch,
            ) && final(src)@ == old(src)@,
            prefix_ok(old(self).prefix_done(), old(src)@) && !frame_ready(
                stripped(old(self).prefix_done(), old(src)@),
            ) ==> r == Ok::<Option<Request>, ProtocolError>(None) && final(src)@ == stripped(
                old(self).prefix_done(),
                old(src)@,
            ),
            prefix_ok(old(self).prefix_done(), old(src)@) && frame_ready(
                stripped(old(self).prefix_done(), old(src)@),
            ) ==> final(src)@ == frame_rest(stripped(old(self).prefix_done(), old(src)@)) && (
            match spec_parse_request(
                frame_payload(stripped(old(self).prefix_done(), old(src)@)),
            ) {
                Some(m) => r matches Ok(o) && o matches Some(req) && req@ == m,
                None => r == Err::<Option<Request>, ProtocolError>(ProtocolError::Malformed),
            }),
    {
        if !self.prefix {
            if src.len() < 11 {
                return Ok(None);
            }
            let pfx = wire_prefix_vec();
            if lit_at(src, 0, &pfx) {
                let _consumed = split_off_front(src, 11);
                self.prefix = true;
            } else {
                return Err(ProtocolError::PrefixMismatch);
            }
        }
        let ghost rest = src@;
        if src.len() < 2 {
            return Ok(None);
        }
        let size = (src[0] as usize) * 256 + (src[1] as usize);
        assert(size == frame_size(rest));
        if src.len() >= 2 && src.len() - 2 >= size {
            let _hdr = split_off_front(src, 2);
            let payload = split_off_front(src, size);
            proof {
                assert(payload@ =~= frame_payload(rest));
                assert(src@ =~= frame_rest(rest));
            }
            match decode_request_payload(&payload) {
                Some(req) => Ok(Some(req)),
                None => Err(ProtocolError::Malformed),
            }
        } else {
            Ok(None)
        }
    }

    /// Encodes a response onto `dst`: the `Handshake` response is
    /// the bare wire prefix; every other response is one frame.
    pub fn encode(&mut self, msg: &Response, dst: &mut Vec<u8>) -> (r: Result<(), ProtocolError>)
        ensures
            *final(self) == *old(self),
            msg@ is Handshake ==> r == Ok::<(), ProtocolError>(()) && final(dst)@ == old(dst)@
                + wire_prefix(),
            !(msg@ is Handshake) && spec_encode_response(msg@).len() <= 0xffff ==> r == Ok::<
                (),
                ProtocolError,
            >(()) && final(dst)@ == old(dst)@ + framed(spec_encode_response(msg@)),
            !(msg@ is Handshake) && spec_encode_response(msg@).len() > 0xffff ==> r == Err::<
                (),
                ProtocolError,
            >(ProtocolError::Oversize) && final(dst)@ == old(dst)@,
    {
        match msg {
            Response::Handshake => {
                let pfx = wire_prefix_vec();
                append_bytes(dst, &pfx);
                Ok(())
            },
            _ => {
                let payload = encode_response_payload(msg);
                if payload.len() > 0xffff {
                    return Err(ProtocolError::Oversize);
                }
                let hi = (payload.len() / 256) as u8;
                let lo = (payload.len() % 256) as u8;
                dst.push(hi);
                dst.push(lo);
                append_bytes(dst, &payload);
                proof {
                    assert(dst@ =~= old(dst)@ + framed(spec_encode_response(msg@)));
                }
                Ok(())
            },
        }
    }
}

impl NetworkClientCodec {
    /// Consumes the prefix (once) and then at most one complete
    /// frame from the head of `src`, decoding its payload as a
    /// response. `Ok(None)` means more bytes are needed.
    pub fn decode(&mut self, src: &mut Vec<u8>) -> (r: Result<Option<Response>, ProtocolError>)
        ensures
            final(self).prefix_done() == prefix_ok(old(self).prefix_done(), old(src)@),
            !old(self).prefix_done() && old(src)@.len() < 11 ==> r == Ok::<
                Option<Response>,
                ProtocolError,
            >(None) && final(src)@ == old(src)@,
            !old(self).prefix_done() && old(src)@.len() >= 11 && old(src)@.subrange(0, 11)
                != wire_prefix() ==> r == Err::<Option<Response>, ProtocolError>(
                ProtocolError::PrefixMismatch,
            ) && final(src)@ == old(src)@,
            prefix_ok(old(self).prefix_done(), old(src)@) && !frame_ready(
                stripped(old(self).prefix_done(), old(src)@),
            ) ==> r == Ok::<Option<Response>, ProtocolError>(None) && final(src)@ == stripped(
                old(self).prefix_done(),
                old(src)@,
            ),
            prefix_ok(old(self).prefix_done(), old(src)@) && frame_ready(
                stripped(old(self).prefix_done(), old(src)@),
            ) ==> final(src)@ == frame_rest(stripped(old(self).prefix_done(), old(src)@)) && (
            match spec_parse_response(
                frame_payload(stripped(old(self).prefix_done(), old(src)@)),
            ) {
                Some(m) => r matches Ok(o) && o matches Some(resp) && resp@ == m,
                None => r == Err::<Option<Response>, ProtocolError>(ProtocolError::Malformed),
            }),
    {
        if !self.prefix {
            if src.len() < 11 {
                return Ok(None);
            }
            let pfx = wire_prefix_vec();
            if lit_at(src, 0, &pfx) {
                let _consumed = split_off_front(src, 11);
                self.prefix = true;
            } else {
                return Err(ProtocolError::PrefixMismatch);
            }
        }
        let ghost rest = src@;
        if src.len() < 2 {
            return Ok(None);
        }
        let size = (src[0] as usize) * 256 + (src[1] as usize);
        assert(size == frame_size(rest));
        if src.len() >= 2 && src.len() - 2 >= size {
            let _hdr = split_off_front(src, 2);
            let payload = split_off_front(src, size);
            proof {
                assert(payload@ =~= frame_payload(rest));
                assert(src@ =~= frame_rest(rest));
            }
            match decode_response_payload(&payload) {
                Some(resp) => Ok(Some(resp)),
                None => Err(ProtocolError::Malformed),
            }
        } else {
            Ok(None)
        }
    }

    /// Encodes a request onto `dst`: a `Handshake` request opens the
    /// direction, so the wire prefix goes out first; every request is
    /// one frame.
    pub fn encode(&mut self, msg: &Request, dst: &mut Vec<u8>) -> (r: Result<(), ProtocolError>)
        ensures
            *final(self) == *old(self),
            spec_encode_request(msg@).len() <= 0xffff ==> r == Ok::<(), ProtocolError>(())
                && final(dst)@ == old(dst)@ + (if msg@ is Handshake {
                wire_prefix()
            } else {
                Seq::empty()
            }) + framed(spec_encode_request(msg@)),
            spec_encode_request(msg@).len() > 0xffff ==> r == Err::<(), ProtocolError>(
                ProtocolError::Oversize,
            ) && final(dst)@ == old(dst)@,
    {
        let payload = encode_request_payload(msg);
        if payload.len() > 0xffff {
            return Err(ProtocolError::Oversize);
        }
        if let Request::Handshake(_) = msg {
            let pfx = wire_prefix_vec();
            append_bytes(dst, &pfx);
        }
        let hi = (payload.len() / 256) as u8;
        let lo = (payload.len() % 256) as u8;
        dst.push(hi);
        dst.push(lo);
        append_bytes(dst, &payload);
        proof {
            if msg@ is Handshake {
                assert(dst@ =~= old(dst)@ + wire_prefix() + framed(spec_encode_request(msg@)));
            } else {
                assert(old(dst)@ + Seq::<u8>::empty() =~= old(dst)@);
                assert(dst@ =~= old(dst)@ + Seq::<u8>::empty() + framed(
                    spec_encode_request(msg@),
                ));
            }
        }
        Ok(())
    }
}

} // verus!
