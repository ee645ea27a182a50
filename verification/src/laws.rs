//! The service's cross-cutting guarantees, each proved once and for all:
//! chunk-boundary independence of request assembly, byte-exact delivery
//! under partial writes, connection isolation, echo and greeting route
//! behaviour, the JSON route's success and failure responses, and cleanup
//! of a peer that disconnects mid-request.
use vstd::prelude::*;

use crate::bytes::{ascii_of, dec_of, is_digit_byte, lemma_dec_of, lower_bytes, parse_dec};
use crate::connection::{
    step_read_spec, step_write_spec, ConnV, ReadEventV, WriteEvent, MAX_REQUEST_BYTES,
};
use crate::json::json_step_spec;
use crate::request::{
    assemble_spec, fold_headers, header_kv, lemma_assemble_extend, lemma_find_term_from_is,
    parse_head, req_line_of, skip_sp, split_lines, strip_cr, term_at, tok_end, trim_front, trim_of,
    AssembledV, ReqHeadV,
};
use crate::bytes::{find_byte_from, is_sp_ht, is_trim_byte};
use crate::response::{
    ct_accepts_json, dispatch_spec, resp_400, resp_json, resp_root, resp_text, starts_with,
};
use crate::table::is_terminal;

verus! {

/// A buffer delivered as two reads leaves the connection exactly where one
/// combined read would have: the assembler's verdict depends on the bytes,
/// never on the chunk boundary.
pub proof fn lemma_read_chunking(buf: Seq<u8>, a: Seq<u8>, b: Seq<u8>)
    requires
        buf.len() + a.len() + b.len() <= MAX_REQUEST_BYTES,
    ensures
        step_read_spec(
            step_read_spec(ConnV::Reading { buf }, ReadEventV::Data(a)),
            ReadEventV::Data(b),
        ) == step_read_spec(ConnV::Reading { buf }, ReadEventV::Data(a + b)),
{
    let s1 = buf + a;
    let s2 = buf + (a + b);
    assert(s2 =~= s1 + b);
    match assemble_spec(s1) {
        AssembledV::Incomplete => {
            assert(step_read_spec(ConnV::Reading { buf }, ReadEventV::Data(a)) == (
            ConnV::Reading { buf: s1 }));
        },
        AssembledV::Ready(h, body) => {
            lemma_assemble_extend(s1, b);
        },
        AssembledV::Malformed => {
            lemma_assemble_extend(s1, b);
        },
    }
}

/// The concatenation of a sequence of chunks.
pub open spec fn concat_chunks(chunks: Seq<Seq<u8>>) -> Seq<u8>
    decreases chunks.len(),
{
    if chunks.len() == 0 {
        Seq::empty()
    } else {
        chunks.first() + concat_chunks(chunks.drop_first())
    }
}

/// Feeding a connection one read of data per chunk, in order.
pub open spec fn feed_all(c: ConnV, chunks: Seq<Seq<u8>>) -> ConnV
    decreases chunks.len(),
{
    if chunks.len() == 0 {
        c
    } else {
        feed_all(step_read_spec(c, ReadEventV::Data(chunks.first())), chunks.drop_first())
    }
}

/// Data events do not move a connection that is not Reading.
pub proof fn lemma_feed_all_settled(c: ConnV, chunks: Seq<Seq<u8>>)
    requires
        !(c is Reading),
    ensures
        feed_all(c, chunks) == c,
    decreases chunks.len(),
{
    if chunks.len() > 0 {
        lemma_feed_all_settled(c, chunks.drop_first());
    }
}

/// Splitting a request across any number of delivery chunks parses
/// identically to delivering it in one: the connection ends in the same
/// state either way.
pub proof fn lemma_read_chunking_any(buf: Seq<u8>, chunks: Seq<Seq<u8>>)
    requires
        chunks.len() >= 1,
        buf.len() + concat_chunks(chunks).len() <= MAX_REQUEST_BYTES,
    ensures
        feed_all(ConnV::Reading { buf }, chunks) == step_read_spec(
            ConnV::Reading { buf },
            ReadEventV::Data(concat_chunks(chunks)),
        ),
    decreases chunks.len(),
{
    let c0 = chunks.first();
    let rest = chunks.drop_first();
    let s1 = step_read_spec(ConnV::Reading { buf }, ReadEventV::Data(c0));
    assert(feed_all(ConnV::Reading { buf }, chunks) == feed_all(s1, rest));
    if rest.len() == 0 {
        assert(feed_all(s1, rest) == s1);
        assert(concat_chunks(rest) =~= Seq::<u8>::empty());
        assert(concat_chunks(chunks) =~= c0);
    } else {
        assert(concat_chunks(chunks) == c0 + concat_chunks(rest));
        lemma_read_chunking(buf, c0, concat_chunks(rest));
        match s1 {
            ConnV::Reading { buf: buf2 } => {
                assert(buf2 == buf + c0);
                lemma_read_chunking_any(buf2, rest);
                assert(feed_all(s1, rest) == step_read_spec(
                    s1,
                    ReadEventV::Data(concat_chunks(rest)),
                ));
            },
            _ => {
                lemma_feed_all_settled(s1, rest);
                assert(step_read_spec(s1, ReadEventV::Data(concat_chunks(rest))) == s1);
            },
        }
    }
}

/// The sum of a sequence of write sizes.
pub open spec fn sum_of(ns: Seq<usize>) -> int
    decreases ns.len(),
{
    if ns.len() == 0 {
        0
    } else {
        ns.first() + sum_of(ns.drop_first())
    }
}

/// Positive write sizes sum to at least their count.
proof fn lemma_sum_lb(ns: Seq<usize>)
    requires
        forall|i: int| 0 <= i < ns.len() ==> ns[i] >= 1,
    ensures
        sum_of(ns) >= ns.len(),
    decreases ns.len(),
{
    if ns.len() > 0 {
        let rest = ns.drop_first();
        assert forall|i: int| 0 <= i < rest.len() implies rest[i] >= 1 by {
            assert(rest[i] == ns[i + 1]);
        }
        lemma_sum_lb(rest);
    }
}

/// Applying one write progress event per size, in order.
pub open spec fn apply_writes(c: ConnV, ns: Seq<usize>) -> ConnV
    decreases ns.len(),
{
    if ns.len() == 0 {
        c
    } else {
        apply_writes(step_write_spec(c, WriteEvent::Wrote(ns.first())), ns.drop_first())
    }
}

/// The bytes the writer is handed, step by step: each step sends the slice
/// of the response right after the bytes already confirmed.
pub open spec fn slices_sent(resp: Seq<u8>, w: int, ns: Seq<usize>) -> Seq<u8>
    decreases ns.len(),
{
    if ns.len() == 0 {
        Seq::empty()
    } else {
        resp.subrange(w, w + ns.first()) + slices_sent(resp, w + ns.first(), ns.drop_first())
    }
}

/// Partial writes of any positive sizes that add up to the unsent bytes
/// deliver the response byte for byte — nothing duplicated, nothing
/// dropped — and land the connection in Flushing.
pub proof fn lemma_partial_writes(resp: Seq<u8>, w: int, ns: Seq<usize>)
    requires
        0 <= w <= resp.len(),
        ns.len() >= 1,
        forall|i: int| 0 <= i < ns.len() ==> ns[i] >= 1,
        w + sum_of(ns) == resp.len(),
    ensures
        apply_writes(ConnV::Writing { resp, written: w }, ns) == ConnV::Flushing,
        slices_sent(resp, w, ns) == resp.subrange(w, resp.len() as int),
    decreases ns.len(),
{
    let n0 = ns.first();
    let rest = ns.drop_first();
    assert forall|i: int| 0 <= i < rest.len() implies rest[i] >= 1 by {
        assert(rest[i] == ns[i + 1]);
    }
    if rest.len() == 0 {
        assert(sum_of(rest) == 0);
        assert(w + n0 == resp.len());
        assert(step_write_spec(ConnV::Writing { resp, written: w }, WriteEvent::Wrote(n0))
            == ConnV::Flushing);
        assert(apply_writes(ConnV::Flushing, rest) == ConnV::Flushing);
        assert(slices_sent(resp, w + n0, rest) =~= Seq::<u8>::empty());
        assert(slices_sent(resp, w, ns) =~= resp.subrange(w, resp.len() as int));
    } else {
        lemma_sum_lb(rest);
        assert(w + n0 < resp.len());
        assert(step_write_spec(ConnV::Writing { resp, written: w }, WriteEvent::Wrote(n0)) == (
        ConnV::Writing { resp, written: w + n0 }));
        lemma_partial_writes(resp, w + n0, rest);
        assert(resp.subrange(w, w + n0) + resp.subrange(w + n0, resp.len() as int) =~= resp.subrange(
            w,
            resp.len() as int,
        ));
    }
}

/// Advancing the connection under one descriptor never changes what the
/// table holds under any other: the contracts of the delivery operations
/// update the map at the delivered key alone.
pub proof fn lemma_connection_isolation(m: Map<u64, ConnV>, fd: u64, c2: ConnV, other: u64)
    requires
        other != fd,
    ensures
        m.insert(fd, c2).contains_key(other) == m.contains_key(other),
        m.contains_key(other) ==> m.insert(fd, c2)[other] == m[other],
{
}

/// The echo route: for any path `/echo/<s>`, the empty suffix included,
/// the response is a success carrying exactly `s` as its body, with the
/// content length set to `s`'s byte length — whatever the body or the
/// headers of the request were.
pub proof fn lemma_echo(h: ReqHeadV, body: Seq<u8>, s: Seq<u8>)
    requires
        h.method == ascii_of("GET"@),
        h.path == ascii_of("/echo/"@) + s,
    ensures
        dispatch_spec(h, body) == resp_text(s),
        resp_text(s) == ascii_of("HTTP/1.1 200 OK\r\nContent-Type: text/plain\r\nContent-Length: "@)
            + dec_of(s.len()) + ascii_of("\r\n\r\n"@) + s,
{
    reveal_strlit("/echo/");
    reveal_strlit("GET");
    assert(ascii_of("/echo/"@).len() == 6);
    assert(starts_with(h.path, ascii_of("/echo/"@))) by {
        assert(h.path.subrange(0, 6) =~= ascii_of("/echo/"@));
    }
    assert(h.path.subrange(6, h.path.len() as int) =~= s);
}

/// The root route: the greeting is one fixed byte sequence, whatever the
/// request's body or headers — and so whatever any earlier request on any
/// connection did.
pub proof fn lemma_root_fixed(h: ReqHeadV, body: Seq<u8>)
    requires
        h.method == ascii_of("GET"@),
        h.path == ascii_of("/"@),
    ensures
        dispatch_spec(h, body) == resp_root(),
{
    reveal_strlit("GET");
    reveal_strlit("/");
    reveal_strlit("/echo/");
    reveal_strlit("POST");
    reveal_strlit("/json");
    assert(h.path.len() == 1);
    assert(!starts_with(h.path, ascii_of("/echo/"@)));
    assert(h.method != ascii_of("POST"@)) by {
        assert(ascii_of("GET"@).len() == 3 && ascii_of("POST"@).len() == 4);
    }
    assert(h.path != ascii_of("/json"@)) by {
        assert(ascii_of("/json"@).len() == 5);
    }
}

/// The JSON route: a parseable body is answered with the stepped document,
/// an unparseable one (or a refused content type, or an empty body) with
/// the bad-request response — the connection is answered either way, never
/// left hanging.
pub proof fn lemma_json_route(h: ReqHeadV, body: Seq<u8>)
    requires
        h.method == ascii_of("POST"@),
        h.path == ascii_of("/json"@),
    ensures
        json_step_spec(body) matches Some(out) ==> ((ct_accepts_json(h.content_type) && body.len()
            > 0) ==> dispatch_spec(h, body) == resp_json(out)),
        ct_accepts_json(h.content_type) && body.len() > 0 && json_step_spec(body) is None ==>
            dispatch_spec(h, body) == resp_400(),
        !(ct_accepts_json(h.content_type) && body.len() > 0) ==> dispatch_spec(h, body)
            == resp_400(),
{
    reveal_strlit("GET");
    reveal_strlit("POST");
    assert(h.method != ascii_of("GET"@)) by {
        assert(ascii_of("GET"@).len() == 3 && ascii_of("POST"@).len() == 4);
    }
}

/// `skip_sp` is determined by where the spaces stop.
proof fn lemma_skip_sp_is(s: Seq<u8>, i: int, e: int)
    requires
        0 <= i <= e <= s.len(),
        forall|k: int| i <= k < e ==> is_sp_ht(#[trigger] s[k]),
        e == s.len() || !is_sp_ht(s[e]),
    ensures
        skip_sp(s, i) == e,
    decreases e - i,
{
    if i < e {
        lemma_skip_sp_is(s, i + 1, e);
    }
}

/// `tok_end` is determined by where the token stops.
proof fn lemma_tok_end_is(s: Seq<u8>, i: int, e: int)
    requires
        0 <= i <= e <= s.len(),
        forall|k: int| i <= k < e ==> !is_sp_ht(#[trigger] s[k]),
        e == s.len() || is_sp_ht(s[e]),
    ensures
        tok_end(s, i) == e,
    decreases e - i,
{
    if i < e {
        lemma_tok_end_is(s, i + 1, e);
    }
}

/// The wire bytes of a plain echo request for the suffix `s`.
pub open spec fn echo_request(s: Seq<u8>) -> Seq<u8> {
    ascii_of("GET /echo/"@) + s + ascii_of(" HTTP/1.1\r\n\r\n"@)
}

/// The echo route, end to end on wire bytes: for any suffix free of
/// whitespace and line breaks, the empty one included, the assembler
/// accepts the request whole and the connection answers with exactly the
/// suffix as the body — however many reads the bytes arrived in, by the
/// chunking law.
pub proof fn lemma_echo_pipeline(s: Seq<u8>)
    requires
        s.len() <= MAX_REQUEST_BYTES - 23,
        forall|i: int|
            0 <= i < s.len() ==> (#[trigger] s[i] != 32 && s[i] != 9 && s[i] != 13 && s[i] != 10),
    ensures
        step_read_spec(
            ConnV::Reading { buf: Seq::<u8>::empty() },
            ReadEventV::Data(echo_request(s)),
        ) == (ConnV::Writing { resp: resp_text(s), written: 0 }),
{
    reveal_strlit("GET /echo/");
    reveal_strlit(" HTTP/1.1\r\n\r\n");
    reveal_strlit("GET");
    reveal_strlit("/echo/");
    let a = ascii_of("GET /echo/"@);
    let z = ascii_of(" HTTP/1.1\r\n\r\n"@);
    let n = s.len() as int;
    let buf = echo_request(s);
    assert(a.len() == 10 && z.len() == 13);
    assert(buf.len() == 23 + n);
    assert(Seq::<u8>::empty() + buf =~= buf);
    assert(buf[0] == 71 && buf[1] == 69 && buf[2] == 84 && buf[3] == 32);
    assert forall|k: int| 4 <= k < 10 implies buf[k] == #[trigger] a[k] && !is_sp_ht(buf[k]) && buf[k]
        != 13 && buf[k] != 10 by {}
    assert forall|k: int| 10 <= k < 10 + n implies buf[k] == s[k - 10] by {}
    assert forall|k: int| 10 + n <= k < 23 + n implies buf[k] == #[trigger] z[k - 10 - n] by {}
    assert(buf[10 + n] == 32);
    assert(buf[19 + n] == 13 && buf[20 + n] == 10 && buf[21 + n] == 13 && buf[22 + n] == 10);
    // the terminator stands at 19 + n and nowhere earlier
    let t = 19 + n;
    assert(term_at(buf, t));
    assert forall|k: int| 0 <= k < t implies !term_at(buf, k) by {
        assert(buf[k] != 13);
    }
    lemma_find_term_from_is(buf, 0, t);
    // the header block is one line: the request line
    let head = buf.subrange(0, t);
    assert forall|k: int| 0 <= k < head.len() implies #[trigger] head[k] != 10 by {
        assert(head[k] == buf[k]);
    }
    crate::bytes::lemma_find_byte_from(head, 10, 0);
    assert(find_byte_from(head, 10, 0) is None);
    assert(split_lines(head) == seq![strip_cr(head)]);
    assert(head[head.len() - 1] == buf[18 + n]);
    assert(strip_cr(head) == head);
    let lines = split_lines(head);
    assert(lines[0] == head);
    // the request line: "GET", then the path, then the protocol token
    assert(!is_sp_ht(head[0]));
    lemma_skip_sp_is(head, 0, 0);
    assert forall|k: int| 0 <= k < 3 implies !is_sp_ht(#[trigger] head[k]) by {
        assert(head[k] == buf[k]);
    }
    assert(is_sp_ht(head[3]));
    lemma_tok_end_is(head, 0, 3);
    lemma_skip_sp_is(head, 3, 4);
    assert forall|k: int| 4 <= k < 10 + n implies !is_sp_ht(#[trigger] head[k]) by {
        assert(head[k] == buf[k]);
        if 10 <= k {
            assert(buf[k] == s[k - 10]);
        }
    }
    assert(is_sp_ht(head[10 + n]));
    lemma_tok_end_is(head, 4, 10 + n);
    assert(req_line_of(head) == Some((head.subrange(0, 3), head.subrange(4, 10 + n))));
    assert(head.subrange(0, 3) =~= ascii_of("GET"@));
    assert(head.subrange(4, 10 + n) =~= ascii_of("/echo/"@) + s);
    // no header lines follow, so the declared length is zero
    assert(fold_headers(lines, 1, 0, None) == (0nat, Option::<Seq<u8>>::None));
    let h = ReqHeadV {
        method: ascii_of("GET"@),
        path: ascii_of("/echo/"@) + s,
        content_length: 0,
        content_type: None,
    };
    assert(parse_head(head) == Some(h));
    assert(buf.len() - (t + 4) >= 0);
    assert(buf.subrange(t + 4, t + 4) =~= Seq::<u8>::empty());
    assert(assemble_spec(buf) == AssembledV::Ready(h, Seq::<u8>::empty()));
    lemma_echo(h, Seq::<u8>::empty(), s);
}

/// The wire bytes of a JSON request for `body`, declaring its exact length.
pub open spec fn json_request(body: Seq<u8>) -> Seq<u8> {
    ascii_of("POST /json HTTP/1.1\r\nContent-Length: "@) + dec_of(body.len()) + ascii_of(
        "\r\n\r\n"@,
    ) + body
}

/// The JSON route, end to end on wire bytes: the assembler reads the
/// declared length out of the header block, carves exactly the body, and
/// the connection answers with the stepped document when the body parses
/// and with the bad-request response when it does not.
#[verifier::rlimit(100)]
pub proof fn lemma_json_pipeline(body: Seq<u8>)
    requires
        1 <= body.len(),
        body.len() + dec_of(body.len()).len() + 41 <= MAX_REQUEST_BYTES,
    ensures
        step_read_spec(
            ConnV::Reading { buf: Seq::<u8>::empty() },
            ReadEventV::Data(json_request(body)),
        ) == (ConnV::Writing {
            resp: match json_step_spec(body) {
                Some(out) => resp_json(out),
                None => resp_400(),
            },
            written: 0,
        }),
{
    reveal_strlit("POST /json HTTP/1.1\r\nContent-Length: ");
    reveal_strlit("\r\n\r\n");
    reveal_strlit("POST");
    reveal_strlit("/json");
    reveal_strlit("content-length");
    reveal_strlit("content-type");
    let a = ascii_of("POST /json HTTP/1.1\r\nContent-Length: "@);
    let d = dec_of(body.len());
    let z = ascii_of("\r\n\r\n"@);
    let buf = json_request(body);
    lemma_dec_of(body.len());
    let l = d.len() as int;
    let n = body.len() as int;
    assert(a.len() == 37 && z.len() == 4);
    assert(buf.len() == 41 + l + n);
    assert(Seq::<u8>::empty() + buf =~= buf);
    assert forall|k: int| 0 <= k < 37 implies buf[k] == #[trigger] a[k] by {}
    assert forall|k: int| 0 <= k < l implies buf[37 + k] == #[trigger] d[k] by {}
    assert forall|k: int| 0 <= k < n implies buf[41 + l + k] == #[trigger] body[k] by {}
    let t = 37 + l;
    assert(buf[t] == 13 && buf[t + 1] == 10 && buf[t + 2] == 13 && buf[t + 3] == 10);
    assert(term_at(buf, t));
    // the only earlier carriage return does not open a terminator
    assert forall|k: int| 0 <= k < t implies !term_at(buf, k) by {
        if k == 19 {
            assert(buf[21] == 67);
        } else {
            assert(buf[k] != 13);
        }
    }
    lemma_find_term_from_is(buf, 0, t);
    let head = buf.subrange(0, t);
    // the head splits at its one line feed into request line and header line
    assert forall|k: int| 0 <= k < head.len() && k != 20 implies #[trigger] head[k] != 10 by {
        assert(head[k] == buf[k]);
        if 37 <= k {
            assert(buf[k] == d[k - 37]);
            assert(is_digit_byte(d[k - 37]));
        }
    }
    assert(head[20] == 10);
    crate::request::lemma_find_byte_from_is(head, 10, 0, 20);
    let rest = head.subrange(21, head.len() as int);
    assert forall|k: int| 0 <= k < rest.len() implies #[trigger] rest[k] != 10 by {
        assert(rest[k] == head[21 + k]);
    }
    crate::bytes::lemma_find_byte_from(rest, 10, 0);
    assert(find_byte_from(rest, 10, 0) is None);
    assert(split_lines(rest) == seq![strip_cr(rest)]);
    assert(rest[rest.len() - 1] == buf[36 + l]);
    assert(strip_cr(rest) == rest);
    let line0 = strip_cr(head.subrange(0, 20));
    assert(head.subrange(0, 20).last() == buf[19]);
    assert(buf[19] == 13);
    assert(line0 =~= buf.subrange(0, 19));
    assert(split_lines(head) == seq![line0] + split_lines(rest));
    let lines = split_lines(head);
    assert(lines.len() == 2 && lines[0] == line0 && lines[1] == rest);
    // the request line: "POST", then "/json", then the protocol token
    assert(line0.len() == 19);
    assert(!is_sp_ht(line0[0]));
    lemma_skip_sp_is(line0, 0, 0);
    assert forall|k: int| 0 <= k < 4 implies !is_sp_ht(#[trigger] line0[k]) by {
        assert(line0[k] == buf[k]);
    }
    assert(is_sp_ht(line0[4]));
    lemma_tok_end_is(line0, 0, 4);
    lemma_skip_sp_is(line0, 4, 5);
    assert forall|k: int| 5 <= k < 10 implies !is_sp_ht(#[trigger] line0[k]) by {
        assert(line0[k] == buf[k]);
    }
    assert(is_sp_ht(line0[10]));
    lemma_tok_end_is(line0, 5, 10);
    assert(req_line_of(line0) == Some((line0.subrange(0, 4), line0.subrange(5, 10))));
    assert(line0.subrange(0, 4) =~= ascii_of("POST"@));
    assert(line0.subrange(5, 10) =~= ascii_of("/json"@));
    // the header line: its first colon splits name from value
    assert(rest.len() == 16 + l);
    assert forall|k: int| 0 <= k < 14 implies #[trigger] rest[k] != 58 by {
        assert(rest[k] == buf[21 + k]);
    }
    assert(rest[14] == 58);
    crate::request::lemma_find_byte_from_is(rest, 58, 0, 14);
    let rawkey = rest.subrange(0, 14);
    assert(!is_trim_byte(rawkey[0]) && !is_trim_byte(rawkey[13]));
    assert(trim_front(rawkey, 0) == 0);
    crate::request::lemma_trim_back_stops(rawkey, 14, 13);
    assert(trim_of(rawkey) =~= rawkey);
    assert(lower_bytes(rawkey) =~= ascii_of("content-length"@));
    let rawval = rest.subrange(15, 16 + l);
    assert(rawval.len() == 1 + l);
    assert(rawval[0] == 32);
    assert forall|k: int| 1 <= k < 1 + l implies is_digit_byte(#[trigger] rawval[k]) && !is_trim_byte(
        rawval[k],
    ) by {
        assert(rawval[k] == d[k - 1]);
    }
    assert(trim_front(rawval, 1) == 1);
    assert(trim_front(rawval, 0) == 1);
    crate::request::lemma_trim_back_stops(rawval, 1 + l, l);
    assert(trim_of(rawval) =~= d);
    assert(header_kv(rest) == Some((ascii_of("content-length"@), d)));
    // the declared length parses back to the body's length
    assert(d[0] != 43);
    assert(parse_dec(d) == Some(body.len()));
    assert(ascii_of("content-length"@) != ascii_of("content-type"@)) by {
        assert(ascii_of("content-length"@).len() == 14);
        assert(ascii_of("content-type"@).len() == 12);
    }
    assert(fold_headers(lines, 2, body.len(), None) == (body.len(), Option::<Seq<u8>>::None));
    assert(fold_headers(lines, 1, 0, None) == (body.len(), Option::<Seq<u8>>::None));
    let h = ReqHeadV {
        method: ascii_of("POST"@),
        path: ascii_of("/json"@),
        content_length: body.len(),
        content_type: None,
    };
    assert(parse_head(head) == Some(h));
    assert(buf.len() - (t + 4) >= n);
    assert(buf.subrange(t + 4, t + 4 + n) =~= body);
    assert(assemble_spec(buf) == AssembledV::Ready(h, body));
    lemma_json_route(h, body);
}

/// A peer that disconnects while its request is still being read fails the
/// connection at once; a failed connection is terminal, so the next
/// cleanup pass removes it from the table and hands its descriptor back
/// for closing.
pub proof fn lemma_eof_mid_request_fails(buf: Seq<u8>)
    ensures
        step_read_spec(ConnV::Reading { buf }, ReadEventV::Eof) == ConnV::Failed,
        is_terminal(step_read_spec(ConnV::Reading { buf }, ReadEventV::Eof)),
{
}

} // verus!
