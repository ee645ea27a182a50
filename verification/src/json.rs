//! A verified codec for the one JSON document shape the service accepts:
//! an object with exactly an unsigned `id` member and a string `value`
//! member, in either order. The string value is kept as its raw literal
//! content (still escaped), so re-serialization echoes it byte for byte.
use vstd::prelude::*;

use crate::bytes::{
    all_digits, ascii_of, dec_of, digits_val, eq_vec, format_decimal, is_digit_byte, lemma_dec_of,
    lemma_digits_val_prefix_mono, lit_vec, subvec,
};

verus! {

/// JSON insignificant whitespace.
pub open spec fn is_json_ws(b: u8) -> bool {
    b == 32 || b == 9 || b == 10 || b == 13
}

/// First index at or after `i` that is not JSON whitespace.
pub open spec fn skip_jws(s: Seq<u8>, i: int) -> int
    decreases s.len() - i,
{
    if 0 <= i < s.len() && is_json_ws(s[i]) {
        skip_jws(s, i + 1)
    } else {
        i
    }
}

/// Exec mirror of `skip_jws`.
fn skip_jws_x(v: &Vec<u8>, from: usize) -> (r: usize)
    requires
        from <= v@.len(),
    ensures
        r == skip_jws(v@, from as int),
        from <= r <= v@.len(),
{
    let len = v.len();
    let mut i: usize = from;
    while i < len && (v[i] == 32 || v[i] == 9 || v[i] == 10 || v[i] == 13)
        invariant
            len == v@.len(),
            from <= i <= len,
            skip_jws(v@, from as int) == skip_jws(v@, i as int),
        decreases len - i,
    {
        i = i + 1;
    }
    i
}

/// An ASCII hexadecimal digit.
pub open spec fn is_hex_byte(b: u8) -> bool {
    (48 <= b <= 57) || (65 <= b <= 70) || (97 <= b <= 102)
}

/// The single-character escapes of JSON string literals.
pub open spec fn is_simple_escape(b: u8) -> bool {
    b == 34 || b == 92 || b == 47 || b == 98 || b == 102 || b == 110 || b == 114 || b == 116
}

/// Scans string-literal content from `i` to the closing quote, validating
/// escapes and rejecting raw control bytes. Answers the index of the
/// closing quote.
pub open spec fn scan_content(s: Seq<u8>, i: int) -> Option<int>
    decreases s.len() - i,
{
    if i < 0 || i >= s.len() {
        None
    } else if s[i] == 34 {
        Some(i)
    } else if s[i] == 92 {
        if i + 1 < s.len() && is_simple_escape(s[i + 1]) {
            scan_content(s, i + 2)
        } else if i + 5 < s.len() && s[i + 1] == 117 && is_hex_byte(s[i + 2]) && is_hex_byte(
            s[i + 3],
        ) && is_hex_byte(s[i + 4]) && is_hex_byte(s[i + 5]) {
            scan_content(s, i + 6)
        } else {
            None
        }
    } else if s[i] < 32 {
        None
    } else {
        scan_content(s, i + 1)
    }
}

/// Exec mirror of `scan_content`.
fn scan_content_x(v: &Vec<u8>, from: usize) -> (r: Option<usize>)
    requires
        from <= v@.len(),
    ensures
        match r {
            Some(q) => scan_content(v@, from as int) == Some(q as int) && from <= q < v@.len()
                && v@[q as int] == 34,
            None => scan_content(v@, from as int) is None,
        },
{
    let len = v.len();
    let mut i: usize = from;
    loop
        invariant
            len == v@.len(),
            from <= i <= len,
            scan_content(v@, from as int) == scan_content(v@, i as int),
        decreases len - i,
    {
        if i >= len {
            return None;
        }
        let b = v[i];
        if b == 34 {
            return Some(i);
        }
        if b == 92 {
            if i + 1 < len {
                let e = v[i + 1];
                if e == 34 || e == 92 || e == 47 || e == 98 || e == 102 || e == 110 || e == 114
                    || e == 116 {
                    i = i + 2;
                    continue;
                }
            }
            if len - i > 5 {
                let u = v[i + 1];
                if u == 117 {
                    let h2 = v[i + 2];
                    let h3 = v[i + 3];
                    let h4 = v[i + 4];
                    let h5 = v[i + 5];
                    if ((48 <= h2 && h2 <= 57) || (65 <= h2 && h2 <= 70) || (97 <= h2 && h2 <= 102))
                        && ((48 <= h3 && h3 <= 57) || (65 <= h3 && h3 <= 70) || (97 <= h3 && h3
                        <= 102)) && ((48 <= h4 && h4 <= 57) || (65 <= h4 && h4 <= 70) || (97 <= h4
                        && h4 <= 102)) && ((48 <= h5 && h5 <= 57) || (65 <= h5 && h5 <= 70) || (97
                        <= h5 && h5 <= 102)) {
                        i = i + 6;
                        continue;
                    }
                }
            }
            return None;
        }
        if b < 32 {
            return None;
        }
        i = i + 1;
    }
}

/// End of the digit run starting at `i`.
pub open spec fn digits_end(s: Seq<u8>, i: int) -> int
    decreases s.len() - i,
{
    if 0 <= i < s.len() && is_digit_byte(s[i]) {
        digits_end(s, i + 1)
    } else {
        i
    }
}

/// Bounds and content of the digit run.
pub proof fn lemma_digits_end(s: Seq<u8>, i: int)
    requires
        0 <= i <= s.len(),
    ensures
        i <= digits_end(s, i) <= s.len(),
        forall|k: int| i <= k < digits_end(s, i) ==> is_digit_byte(#[trigger] s[k]),
        digits_end(s, i) < s.len() ==> !is_digit_byte(s[digits_end(s, i)]),
    decreases s.len() - i,
{
    if i < s.len() && is_digit_byte(s[i]) {
        lemma_digits_end(s, i + 1);
    }
}

/// A JSON unsigned integer at `i`: a digit run with no leading zero, whose
/// value fits the accepted identifier range. Answers the value and the
/// index just past the digits.
pub open spec fn parse_uint_at(s: Seq<u8>, i: int) -> Option<(nat, int)> {
    let e = digits_end(s, i);
    if 0 <= i && i < e && (s[i] != 48 || e == i + 1) && digits_val(s.subrange(i, e))
        <= u32::MAX as nat {
        Some((digits_val(s.subrange(i, e)), e))
    } else {
        None
    }
}

/// Exec mirror of `parse_uint_at`.
fn parse_uint_at_x(v: &Vec<u8>, from: usize) -> (r: Option<(u32, usize)>)
    requires
        from <= v@.len(),
    ensures
        match r {
            Some(p) => parse_uint_at(v@, from as int) == Some((p.0 as nat, p.1 as int)) && p.1
                <= v@.len(),
            None => parse_uint_at(v@, from as int) is None,
        },
{
    let len = v.len();
    proof {
        lemma_digits_end(v@, from as int);
    }
    let mut e: usize = from;
    while e < len && 48 <= v[e] && v[e] <= 57
        invariant
            len == v@.len(),
            from <= e <= len,
            digits_end(v@, from as int) == digits_end(v@, e as int),
        decreases len - e,
    {
        e = e + 1;
    }
    let ghost digits = v@.subrange(from as int, e as int);
    proof {
        lemma_digits_end(v@, from as int);
        assert(digits_end(v@, e as int) == e as int);
        assert(digits_end(v@, from as int) == e as int);
        assert forall|k: int| 0 <= k < digits.len() implies is_digit_byte(#[trigger] digits[k]) by {
            assert(digits[k] == v@[from + k]);
        }
    }
    if e == from {
        return None;
    }
    if v[from] == 48 && e > from + 1 {
        return None;
    }
    let mut acc: u64 = 0;
    let mut j: usize = from;
    while j < e
        invariant
            len == v@.len(),
            from <= j <= e <= len,
            from < e,
            digits_end(v@, from as int) == e as int,
            v@[from as int] != 48 || e == from + 1,
            digits == v@.subrange(from as int, e as int),
            all_digits(digits),
            acc == digits_val(digits.subrange(0, j - from)),
            acc <= u32::MAX,
        decreases e - j,
    {
        let b = v[j];
        proof {
            assert(digits[j - from] == v@[j as int]);
            let pre = digits.subrange(0, j - from + 1);
            assert(pre.drop_last() =~= digits.subrange(0, j - from));
            assert(pre.last() == v@[j as int]);
        }
        let d: u64 = (b - 48) as u64;
        acc = acc * 10 + d;
        if acc > u32::MAX as u64 {
            proof {
                lemma_digits_val_prefix_mono(digits, j - from + 1);
                assert(digits_val(digits) > u32::MAX as nat);
                assert(parse_uint_at(v@, from as int) is None);
            }
            return None;
        }
        j = j + 1;
    }
    proof {
        assert(digits.subrange(0, digits.len() as int) =~= digits);
    }
    Some((acc as u32, e))
}

/// One member of the object: the `id` number or the `value` string (kept
/// as raw literal content).
pub enum MemberV {
    IdM(nat),
    ValM(Seq<u8>),
}

/// Parses one member starting at the opening quote of its key. Answers the
/// member and the index just past its value.
pub open spec fn parse_member(s: Seq<u8>, i: int) -> Option<(MemberV, int)> {
    if !(0 <= i < s.len() && s[i] == 34) {
        None
    } else {
        match scan_content(s, i + 1) {
            None => None,
            Some(q) => {
                let key = s.subrange(i + 1, q);
                let c = skip_jws(s, q + 1);
                if !(c < s.len() && s[c] == 58) {
                    None
                } else {
                    let w = skip_jws(s, c + 1);
                    if key == ascii_of("id"@) {
                        match parse_uint_at(s, w) {
                            Some(p) => Some((MemberV::IdM(p.0), p.1)),
                            None => None,
                        }
                    } else if key == ascii_of("value"@) {
                        if w < s.len() && s[w] == 34 {
                            match scan_content(s, w + 1) {
                                Some(q2) => Some((MemberV::ValM(s.subrange(w + 1, q2)), q2 + 1)),
                                None => None,
                            }
                        } else {
                            None
                        }
                    } else {
                        None
                    }
                }
            },
        }
    }
}

/// The executable member.
pub enum Member {
    IdM(u32),
    ValM(Vec<u8>),
}

impl View for Member {
    type V = MemberV;

    open spec fn view(&self) -> MemberV {
        match self {
            Member::IdM(n) => MemberV::IdM(*n as nat),
            Member::ValM(v) => MemberV::ValM(v@),
        }
    }
}

/// Exec mirror of `parse_member`.
fn parse_member_x(v: &Vec<u8>, from: usize) -> (r: Option<(Member, usize)>)
    requires
        from <= v@.len(),
    ensures
        match r {
            Some(p) => parse_member(v@, from as int) == Some((p.0@, p.1 as int)) && p.1 <= v@.len(),
            None => parse_member(v@, from as int) is None,
        },
{
    let len = v.len();
    if from >= len || v[from] != 34 {
        return None;
    }
    let q = match scan_content_x(v, from + 1) {
        None => {
            return None;
        },
        Some(q) => q,
    };
    let key = subvec(v, from + 1, q);
    let c = skip_jws_x(v, q + 1);
    if c >= len || v[c] != 58 {
        return None;
    }
    let w = skip_jws_x(v, c + 1);
    proof {
        reveal_strlit("id");
        assert(vstd::string::is_ascii("id"));
        reveal_strlit("value");
        assert(vstd::string::is_ascii("value"));
    }
    let lit_id = lit_vec("id");
    let is_id = eq_vec(&key, &lit_id);
    let lit_value = lit_vec("value");
    let is_value = eq_vec(&key, &lit_value);
    if is_id {
        match parse_uint_at_x(v, w) {
            Some(p) => Some((Member::IdM(p.0), p.1)),
            None => None,
        }
    } else if is_value {
        if w < len && v[w] == 34 {
            match scan_content_x(v, w + 1) {
                Some(q2) => {
                    let raw = subvec(v, w + 1, q2);
                    Some((Member::ValM(raw), q2 + 1))
                },
                None => None,
            }
        } else {
            None
        }
    } else {
        None
    }
}

/// Parses a whole body as `{"id": n, "value": v}` with the two members in
/// either order and nothing else: the identifier and the raw string
/// content.
pub open spec fn json_parse(s: Seq<u8>) -> Option<(nat, Seq<u8>)> {
    let o = skip_jws(s, 0);
    if !(o < s.len() && s[o] == 123) {
        None
    } else {
        let k1 = skip_jws(s, o + 1);
        match parse_member(s, k1) {
            None => None,
            Some(m1) => {
                let c = skip_jws(s, m1.1);
                if !(c < s.len() && s[c] == 44) {
                    None
                } else {
                    let k2 = skip_jws(s, c + 1);
                    match parse_member(s, k2) {
                        None => None,
                        Some(m2) => {
                            let br = skip_jws(s, m2.1);
                            if !(br < s.len() && s[br] == 125) {
                                None
                            } else if skip_jws(s, br + 1) != s.len() {
                                None
                            } else {
                                match (m1.0, m2.0) {
                                    (MemberV::IdM(n), MemberV::ValM(v)) => Some((n, v)),
                                    (MemberV::ValM(v), MemberV::IdM(n)) => Some((n, v)),
                                    _ => None,
                                }
                            }
                        },
                    }
                }
            },
        }
    }
}

/// Exec mirror of `json_parse`.
pub fn json_parse_x(v: &Vec<u8>) -> (r: Option<(u32, Vec<u8>)>)
    ensures
        match r {
            Some(p) => json_parse(v@) == Some((p.0 as nat, p.1@)),
            None => json_parse(v@) is None,
        },
{
    let len = v.len();
    let o = skip_jws_x(v, 0);
    if o >= len || v[o] != 123 {
        return None;
    }
    let k1 = skip_jws_x(v, o + 1);
    let m1 = match parse_member_x(v, k1) {
        None => {
            return None;
        },
        Some(m) => m,
    };
    let c = skip_jws_x(v, m1.1);
    if c >= len || v[c] != 44 {
        return None;
    }
    let k2 = skip_jws_x(v, c + 1);
    let m2 = match parse_member_x(v, k2) {
        None => {
            return None;
        },
        Some(m) => m,
    };
    let br = skip_jws_x(v, m2.1);
    if br >= len || v[br] != 125 {
        return None;
    }
    if skip_jws_x(v, br + 1) != len {
        return None;
    }
    match (m1.0, m2.0) {
        (Member::IdM(n), Member::ValM(raw)) => Some((n, raw)),
        (Member::ValM(raw), Member::IdM(n)) => Some((n, raw)),
        _ => None,
    }
}

/// The serialized document `{"id":n,"value":"v"}` with `v` kept verbatim.
pub open spec fn json_ser(n: nat, v: Seq<u8>) -> Seq<u8> {
    ascii_of("{\"id\":"@) + dec_of(n) + ascii_of(",\"value\":\""@) + v + ascii_of("\"}"@)
}

/// Builds the serialized document.
pub fn json_ser_vec(n: u32, v: &Vec<u8>) -> (r: Vec<u8>)
    ensures
        r@ == json_ser(n as nat, v@),
{
    proof {
        reveal_strlit("{\"id\":");
        assert(vstd::string::is_ascii("{\"id\":"));
        reveal_strlit(",\"value\":\"");
        assert(vstd::string::is_ascii(",\"value\":\""));
        reveal_strlit("\"}");
        assert(vstd::string::is_ascii("\"}"));
    }
    let mut r = lit_vec("{\"id\":");
    let mut digits = format_decimal(n as usize);
    r.append(&mut digits);
    crate::bytes::append_lit(&mut r, ",\"value\":\"");
    crate::bytes::append_vec(&mut r, v);
    crate::bytes::append_lit(&mut r, "\"}");
    proof {
        assert(r@ =~= json_ser(n as nat, v@));
    }
    r
}

/// What the service does with a `/json` body: parse it, step the
/// identifier by one, and re-serialize with the value untouched. Nothing
/// when the body does not parse or the identifier cannot be stepped.
pub open spec fn json_step_spec(body: Seq<u8>) -> Option<Seq<u8>> {
    match json_parse(body) {
        Some(p) => if p.0 < u32::MAX as nat {
            Some(json_ser(p.0 + 1, p.1))
        } else {
            None
        },
        None => None,
    }
}

/// Well-formed string-literal content: no raw quote, no raw control byte,
/// every backslash opening a valid escape.
pub open spec fn valid_content(v: Seq<u8>) -> bool
    decreases v.len(),
{
    if v.len() == 0 {
        true
    } else if v[0] == 34 {
        false
    } else if v[0] == 92 {
        (v.len() >= 2 && is_simple_escape(v[1]) && valid_content(v.subrange(2, v.len() as int)))
            || (v.len() >= 6 && v[1] == 117 && is_hex_byte(v[2]) && is_hex_byte(v[3]) && is_hex_byte(
            v[4],
        ) && is_hex_byte(v[5]) && valid_content(v.subrange(6, v.len() as int)))
    } else {
        v[0] >= 32 && valid_content(v.subrange(1, v.len() as int))
    }
}

/// Scanning well-formed content embedded in `s` and closed by a quote
/// stops exactly at that quote.
pub proof fn lemma_valid_scan(s: Seq<u8>, i: int, v: Seq<u8>)
    requires
        0 <= i,
        i + v.len() < s.len(),
        forall|k: int| 0 <= k < v.len() ==> s[i + k] == #[trigger] v[k],
        s[i + v.len()] == 34,
        valid_content(v),
    ensures
        scan_content(s, i) == Some(i + v.len()),
    decreases v.len(),
{
    if v.len() == 0 {
        assert(s[i] == 34);
    } else {
        assert(s[i] == v[0]);
        if v[0] == 92 {
            if v.len() >= 2 && is_simple_escape(v[1]) && valid_content(
                v.subrange(2, v.len() as int),
            ) {
                let v2 = v.subrange(2, v.len() as int);
                assert(s[i + 1] == v[1]);
                assert forall|k: int| 0 <= k < v2.len() implies s[i + 2 + k] == #[trigger] v2[k] by {
                    assert(v2[k] == v[2 + k]);
                }
                lemma_valid_scan(s, i + 2, v2);
            } else {
                let v6 = v.subrange(6, v.len() as int);
                assert(s[i + 1] == v[1]);
                assert(s[i + 2] == v[2] && s[i + 3] == v[3] && s[i + 4] == v[4] && s[i + 5]
                    == v[5]);
                assert(!is_simple_escape(s[i + 1]));
                assert forall|k: int| 0 <= k < v6.len() implies s[i + 6 + k] == #[trigger] v6[k] by {
                    assert(v6[k] == v[6 + k]);
                }
                lemma_valid_scan(s, i + 6, v6);
            }
        } else {
            let v1 = v.subrange(1, v.len() as int);
            assert forall|k: int| 0 <= k < v1.len() implies s[i + 1 + k] == #[trigger] v1[k] by {
                assert(v1[k] == v[1 + k]);
            }
            lemma_valid_scan(s, i + 1, v1);
        }
    }
}

/// Whitespace skipping never moves backwards.
proof fn lemma_skip_jws_ge(s: Seq<u8>, i: int)
    requires
        0 <= i,
    ensures
        skip_jws(s, i) >= i,
    decreases s.len() - i,
{
    if 0 <= i < s.len() && is_json_ws(s[i]) {
        lemma_skip_jws_ge(s, i + 1);
    }
}

/// Content that a successful scan walked over is well-formed: the scan
/// admits exactly the escapes and byte ranges `valid_content` describes.
pub proof fn lemma_scan_gives_valid(s: Seq<u8>, i: int, q: int)
    requires
        0 <= i,
        scan_content(s, i) == Some(q),
    ensures
        i <= q < s.len(),
        s[q] == 34,
        valid_content(s.subrange(i, q)),
    decreases s.len() - i,
{
    if s[i] == 34 {
        assert(s.subrange(i, q) =~= Seq::<u8>::empty());
    } else if s[i] == 92 {
        if i + 1 < s.len() && is_simple_escape(s[i + 1]) {
            lemma_scan_gives_valid(s, i + 2, q);
            let v = s.subrange(i, q);
            assert(v[0] == 92 && v[1] == s[i + 1]);
            assert(v.subrange(2, v.len() as int) =~= s.subrange(i + 2, q));
        } else {
            lemma_scan_gives_valid(s, i + 6, q);
            let v = s.subrange(i, q);
            assert(v[0] == 92 && v[1] == s[i + 1] && v[2] == s[i + 2] && v[3] == s[i + 3] && v[4]
                == s[i + 4] && v[5] == s[i + 5]);
            assert(v.subrange(6, v.len() as int) =~= s.subrange(i + 6, q));
        }
    } else {
        lemma_scan_gives_valid(s, i + 1, q);
        let v = s.subrange(i, q);
        assert(v[0] == s[i]);
        assert(v.subrange(1, v.len() as int) =~= s.subrange(i + 1, q));
    }
}

/// `digits_end` is determined by where the digits stop.
proof fn lemma_digits_end_is(s: Seq<u8>, i: int, e: int)
    requires
        0 <= i <= e <= s.len(),
        forall|k: int| i <= k < e ==> is_digit_byte(#[trigger] s[k]),
        e == s.len() || !is_digit_byte(s[e]),
    ensures
        digits_end(s, i) == e,
    decreases e - i,
{
    if i < e {
        lemma_digits_end_is(s, i + 1, e);
    }
}

/// The codec round trip: a serialized document parses back to exactly the
/// identifier and the raw value it was built from, whatever whitespace-free
/// shape the serializer chose.
pub proof fn lemma_json_round_trip(n: nat, v: Seq<u8>)
    requires
        n <= u32::MAX as nat,
        valid_content(v),
    ensures
        json_parse(json_ser(n, v)) == Some((n, v)),
{
    reveal_strlit("{\"id\":");
    reveal_strlit(",\"value\":\"");
    reveal_strlit("\"}");
    reveal_strlit("id");
    reveal_strlit("value");
    let a = ascii_of("{\"id\":"@);
    let d = dec_of(n);
    let b = ascii_of(",\"value\":\""@);
    let c = ascii_of("\"}"@);
    let s = json_ser(n, v);
    lemma_dec_of(n);
    let l = d.len() as int;
    let vl = v.len() as int;
    assert(a.len() == 6 && b.len() == 10 && c.len() == 2);
    assert(s.len() == 18 + l + vl);
    assert(s =~= a + d + b + v + c);
    assert(s[0] == 123 && s[1] == 34 && s[2] == 105 && s[3] == 100 && s[4] == 34 && s[5] == 58);
    assert forall|k: int| 0 <= k < l implies s[6 + k] == #[trigger] d[k] by {}
    assert forall|k: int| 0 <= k < 10 implies s[6 + l + k] == #[trigger] b[k] by {}
    assert(s[6 + l] == 44 && s[7 + l] == 34 && s[8 + l] == 118 && s[9 + l] == 97 && s[10 + l]
        == 108 && s[11 + l] == 117 && s[12 + l] == 101 && s[13 + l] == 34 && s[14 + l] == 58 && s[15
        + l] == 34);
    assert forall|k: int| 0 <= k < vl implies s[16 + l + k] == #[trigger] v[k] by {}
    assert(s[16 + l + vl] == 34 && s[17 + l + vl] == 125);
    // the object opens immediately
    assert(skip_jws(s, 0) == 0);
    assert(skip_jws(s, 1) == 1);
    // first member: the key "id"
    assert(scan_content(s, 4) == Some(4int));
    assert(scan_content(s, 3) == Some(4int));
    assert(scan_content(s, 2) == Some(4int));
    assert(s.subrange(2, 4) =~= ascii_of("id"@));
    assert(skip_jws(s, 5) == 5);
    assert(forall|k: int| 0 <= k < l ==> is_digit_byte(#[trigger] d[k]));
    assert(is_digit_byte(s[6]) && !is_json_ws(s[6]));
    assert(skip_jws(s, 6) == 6);
    // its number: exactly the digits of n
    lemma_digits_end_is(s, 6, 6 + l);
    assert(s.subrange(6, 6 + l) =~= d);
    assert(digits_val(s.subrange(6, 6 + l)) == n);
    if s[6] == 48 {
        assert(d[0] == 48);
        assert(n == 0 && l == 1);
    }
    assert(parse_uint_at(s, 6) == Some((n, 6 + l)));
    assert(ascii_of("id"@).len() == 2);
    assert(parse_member(s, 1) == Some((MemberV::IdM(n), 6 + l)));
    // the comma, then the key "value"
    assert(skip_jws(s, 6 + l) == 6 + l);
    assert(skip_jws(s, 7 + l) == 7 + l);
    assert(scan_content(s, 13 + l) == Some(13 + l));
    assert(scan_content(s, 12 + l) == Some(13 + l));
    assert(scan_content(s, 11 + l) == Some(13 + l));
    assert(scan_content(s, 10 + l) == Some(13 + l));
    assert(scan_content(s, 9 + l) == Some(13 + l));
    assert(scan_content(s, 8 + l) == Some(13 + l));
    let key2 = s.subrange(8 + l, 13 + l);
    assert(key2 =~= ascii_of("value"@));
    assert(key2.len() == 5);
    assert(key2 != ascii_of("id"@));
    assert(skip_jws(s, 14 + l) == 14 + l);
    assert(skip_jws(s, 15 + l) == 15 + l);
    // its string: the raw content, closed by the quote the serializer wrote
    lemma_valid_scan(s, 16 + l, v);
    assert(scan_content(s, 16 + l) == Some(16 + l + vl));
    assert(s.subrange(16 + l, 16 + l + vl) =~= v);
    assert(parse_member(s, 7 + l) == Some((MemberV::ValM(v), 17 + l + vl)));
    // the closing brace ends the document
    assert(skip_jws(s, 17 + l + vl) == 17 + l + vl);
    assert(skip_jws(s, 18 + l + vl) == 18 + l + vl);
    assert(json_parse(s) == Some((n, v)));
}

/// Stepping a serialized document twice raises the identifier by exactly
/// two: the step is applied once per request, never more.
pub proof fn lemma_json_step_twice(n: nat, v: Seq<u8>)
    requires
        n + 2 <= u32::MAX as nat,
        valid_content(v),
    ensures
        json_step_spec(json_ser(n, v)) == Some(json_ser(n + 1, v)),
        json_step_spec(json_ser(n + 1, v)) == Some(json_ser(n + 2, v)),
{
    lemma_json_round_trip(n, v);
    lemma_json_round_trip(n + 1, v);
}

/// The string content a member parse extracted was walked by a successful
/// scan, so it is well-formed.
proof fn lemma_member_value_valid(s: Seq<u8>, i: int)
    ensures
        parse_member(s, i) matches Some(m) ==> (m.0 matches MemberV::ValM(v) ==> valid_content(v)),
{
    if 0 <= i < s.len() && s[i] == 34 {
        match scan_content(s, i + 1) {
            None => {},
            Some(q) => {
                lemma_scan_gives_valid(s, i + 1, q);
                let key = s.subrange(i + 1, q);
                let c = skip_jws(s, q + 1);
                if c < s.len() && s[c] == 58 {
                    lemma_skip_jws_ge(s, q + 1);
                    let w = skip_jws(s, c + 1);
                    lemma_skip_jws_ge(s, c + 1);
                    if key == ascii_of("value"@) && w < s.len() && s[w] == 34 {
                        match scan_content(s, w + 1) {
                            Some(q2) => {
                                lemma_scan_gives_valid(s, w + 1, q2);
                            },
                            None => {},
                        }
                    }
                }
            },
        }
    }
}

/// The value a whole-document parse hands back is well-formed string
/// content: what the parser accepted, the serializer can embed again.
pub proof fn lemma_parse_value_well_formed(body: Seq<u8>)
    ensures
        json_parse(body) matches Some(p) ==> valid_content(p.1),
{
    let o = skip_jws(body, 0);
    if o < body.len() && body[o] == 123 {
        let k1 = skip_jws(body, o + 1);
        lemma_member_value_valid(body, k1);
        match parse_member(body, k1) {
            None => {},
            Some(m1) => {
                let c = skip_jws(body, m1.1);
                if c < body.len() && body[c] == 44 {
                    let k2 = skip_jws(body, c + 1);
                    lemma_member_value_valid(body, k2);
                }
            },
        }
    }
}

/// The chain from one request to the next: a body that parses can be
/// stepped, and the response document it yields parses and steps again —
/// two successive requests raise the identifier by exactly two.
pub proof fn lemma_json_step_chain(body: Seq<u8>)
    ensures
        json_parse(body) matches Some(p) ==> (p.0 + 2 <= u32::MAX as nat ==> {
            &&& json_step_spec(body) == Some(json_ser((p.0 + 1) as nat, p.1))
            &&& json_step_spec(json_ser((p.0 + 1) as nat, p.1)) == Some(
                json_ser((p.0 + 2) as nat, p.1),
            )
        }),
{
    match json_parse(body) {
        Some(p) => {
            if p.0 + 2 <= u32::MAX as nat {
                lemma_parse_value_well_formed(body);
                lemma_json_round_trip((p.0 + 1) as nat, p.1);
            }
        },
        None => {},
    }
}

/// Exec mirror of `json_step_spec`.
pub fn json_step(body: &Vec<u8>) -> (r: Option<Vec<u8>>)
    ensures
        match r {
            Some(out) => json_step_spec(body@) == Some(out@),
            None => json_step_spec(body@) is None,
        },
{
    match json_parse_x(body) {
        Some(p) => {
            if p.0 < u32::MAX {
                Some(json_ser_vec(p.0 + 1, &p.1))
            } else {
                None
            }
        },
        None => None,
    }
}

} // verus!
