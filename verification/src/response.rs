//! The response dispatcher: a pure function from a parsed request to the
//! full response bytes (status line, headers, body). Route selection
//! follows the service's table: the echo path, the JSON step, the fixed
//! greeting, and a not-found fallback.
use vstd::prelude::*;

use crate::bytes::{
    append_lit, append_vec, ascii_of, contains_seq, contains_sub, dec_of, eq_vec, format_decimal,
    lit_vec, subvec,
};
use crate::json::{json_step, json_step_spec};
use crate::request::{ReqHeadV, RequestHead};

verus! {

/// The bad-request response.
pub open spec fn resp_400() -> Seq<u8> {
    ascii_of("HTTP/1.1 400 Bad Request\r\n\r\n"@)
}

/// The not-found response.
pub open spec fn resp_404() -> Seq<u8> {
    ascii_of("HTTP/1.1 404 Not Found\r\n\r\n"@)
}

/// The fixed greeting served at the root path.
pub open spec fn resp_root() -> Seq<u8> {
    ascii_of("HTTP/1.1 200 OK\r\nContent-Length: 12\r\n\r\nHello world!"@)
}

/// A success response carrying `body` as plain text.
pub open spec fn resp_text(body: Seq<u8>) -> Seq<u8> {
    ascii_of("HTTP/1.1 200 OK\r\nContent-Type: text/plain\r\nContent-Length: "@) + dec_of(
        body.len(),
    ) + ascii_of("\r\n\r\n"@) + body
}

/// A success response carrying `body` as JSON.
pub open spec fn resp_json(body: Seq<u8>) -> Seq<u8> {
    ascii_of("HTTP/1.1 200 OK\r\nContent-Type: application/json\r\nContent-Length: "@) + dec_of(
        body.len(),
    ) + ascii_of("\r\n\r\n"@) + body
}

/// Whether the declared content type admits a JSON body: absent counts as
/// JSON, present must mention it.
pub open spec fn ct_accepts_json(ct: Option<Seq<u8>>) -> bool {
    match ct {
        None => true,
        Some(v) => contains_seq(v, ascii_of("application/json"@)),
    }
}

/// `s` begins with `p`.
pub open spec fn starts_with(s: Seq<u8>, p: Seq<u8>) -> bool {
    p.len() <= s.len() && s.subrange(0, p.len() as int) == p
}

/// The route table as one pure function of the parsed request. The echo
/// route answers the path suffix after `/echo/`, the empty suffix included.
pub open spec fn dispatch_spec(h: ReqHeadV, body: Seq<u8>) -> Seq<u8> {
    if h.method == ascii_of("GET"@) && starts_with(h.path, ascii_of("/echo/"@)) {
        resp_text(h.path.subrange(6, h.path.len() as int))
    } else if h.method == ascii_of("POST"@) && h.path == ascii_of("/json"@) {
        if ct_accepts_json(h.content_type) && body.len() > 0 {
            match json_step_spec(body) {
                Some(out) => resp_json(out),
                None => resp_400(),
            }
        } else {
            resp_400()
        }
    } else if h.method == ascii_of("GET"@) && h.path == ascii_of("/"@) {
        resp_root()
    } else {
        resp_404()
    }
}

/// Builds the bad-request response.
pub fn build_400() -> (r: Vec<u8>)
    ensures
        r@ == resp_400(),
{
    proof {
        reveal_strlit("HTTP/1.1 400 Bad Request\r\n\r\n");
        assert(vstd::string::is_ascii("HTTP/1.1 400 Bad Request\r\n\r\n"));
    }
    lit_vec("HTTP/1.1 400 Bad Request\r\n\r\n")
}

/// Builds the not-found response.
pub fn build_404() -> (r: Vec<u8>)
    ensures
        r@ == resp_404(),
{
    proof {
        reveal_strlit("HTTP/1.1 404 Not Found\r\n\r\n");
        assert(vstd::string::is_ascii("HTTP/1.1 404 Not Found\r\n\r\n"));
    }
    lit_vec("HTTP/1.1 404 Not Found\r\n\r\n")
}

/// Builds the fixed greeting response.
pub fn build_root() -> (r: Vec<u8>)
    ensures
        r@ == resp_root(),
{
    proof {
        reveal_strlit("HTTP/1.1 200 OK\r\nContent-Length: 12\r\n\r\nHello world!");
        assert(vstd::string::is_ascii("HTTP/1.1 200 OK\r\nContent-Length: 12\r\n\r\nHello world!"));
    }
    lit_vec("HTTP/1.1 200 OK\r\nContent-Length: 12\r\n\r\nHello world!")
}

/// Builds the plain-text success response around `body`.
pub fn build_text(body: &Vec<u8>) -> (r: Vec<u8>)
    ensures
        r@ == resp_text(body@),
{
    proof {
        reveal_strlit("HTTP/1.1 200 OK\r\nContent-Type: text/plain\r\nContent-Length: ");
        assert(vstd::string::is_ascii(
            "HTTP/1.1 200 OK\r\nContent-Type: text/plain\r\nContent-Length: ",
        ));
        reveal_strlit("\r\n\r\n");
        assert(vstd::string::is_ascii("\r\n\r\n"));
    }
    let mut r = lit_vec("HTTP/1.1 200 OK\r\nContent-Type: text/plain\r\nContent-Length: ");
    let mut digits = format_decimal(body.len());
    r.append(&mut digits);
    append_lit(&mut r, "\r\n\r\n");
    append_vec(&mut r, body);
    proof {
        assert(r@ =~= resp_text(body@));
    }
    r
}

/// Builds the JSON success response around `body`.
pub fn build_json(body: &Vec<u8>) -> (r: Vec<u8>)
    ensures
        r@ == resp_json(body@),
{
    proof {
        reveal_strlit("HTTP/1.1 200 OK\r\nContent-Type: application/json\r\nContent-Length: ");
        assert(vstd::string::is_ascii(
            "HTTP/1.1 200 OK\r\nContent-Type: application/json\r\nContent-Length: ",
        ));
        reveal_strlit("\r\n\r\n");
        assert(vstd::string::is_ascii("\r\n\r\n"));
    }
    let mut r = lit_vec("HTTP/1.1 200 OK\r\nContent-Type: application/json\r\nContent-Length: ");
    let mut digits = format_decimal(body.len());
    r.append(&mut digits);
    append_lit(&mut r, "\r\n\r\n");
    append_vec(&mut r, body);
    proof {
        assert(r@ =~= resp_json(body@));
    }
    r
}

/// Selects the route and materializes the response bytes for one fully
/// assembled request.
pub fn dispatch(h: &RequestHead, body: &Vec<u8>) -> (r: Vec<u8>)
    ensures
        r@ == dispatch_spec(h@, body@),
{
    proof {
        reveal_strlit("GET");
        assert(vstd::string::is_ascii("GET"));
        reveal_strlit("POST");
        assert(vstd::string::is_ascii("POST"));
        reveal_strlit("/echo/");
        assert(vstd::string::is_ascii("/echo/"));
        reveal_strlit("/json");
        assert(vstd::string::is_ascii("/json"));
        reveal_strlit("/");
        assert(vstd::string::is_ascii("/"));
        reveal_strlit("application/json");
        assert(vstd::string::is_ascii("application/json"));
    }
    let lit_get = lit_vec("GET");
    let lit_echo = lit_vec("/echo/");
    let is_get = eq_vec(&h.method, &lit_get);
    let path_len = h.path.len();
    let echo_prefix = if path_len >= 6 {
        let pre = subvec(&h.path, 0, 6);
        eq_vec(&pre, &lit_echo)
    } else {
        false
    };
    if is_get && echo_prefix {
        let content = subvec(&h.path, 6, path_len);
        return build_text(&content);
    }
    let lit_post = lit_vec("POST");
    let lit_json_path = lit_vec("/json");
    let is_post = eq_vec(&h.method, &lit_post);
    let is_json_path = eq_vec(&h.path, &lit_json_path);
    if is_post && is_json_path {
        let ct_ok = match &h.content_type {
            None => true,
            Some(v) => {
                let lit_aj = lit_vec("application/json");
                contains_sub(v, &lit_aj)
            },
        };
        if ct_ok && body.len() > 0 {
            match json_step(body) {
                Some(out) => {
                    return build_json(&out);
                },
                None => {
                    return build_400();
                },
            }
        }
        return build_400();
    }
    let lit_root = lit_vec("/");
    let is_root = eq_vec(&h.path, &lit_root);
    if is_get && is_root {
        return build_root();
    }
    build_404()
}

} // verus!
