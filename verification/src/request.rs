//! The request assembler: finds the header terminator in the accumulated
//! read buffer, parses the request line and the headers before it, and
//! decides whether the declared body length is satisfied yet. The parse is
//! a pure function of the whole buffer, so the outcome cannot depend on how
//! the bytes were split across reads.
use vstd::prelude::*;

use crate::bytes::{
    ascii_of, eq_vec, find_byte, find_byte_from, is_sp_ht, is_trim_byte, lemma_find_byte_from,
    lit_vec, lower_bytes, parse_dec, parse_decimal, subvec, to_lower,
};

verus! {

/// The header terminator (carriage return, line feed, twice) stands at `i`.
pub open spec fn term_at(s: Seq<u8>, i: int) -> bool {
    0 <= i && i + 4 <= s.len() && s[i] == 13 && s[i + 1] == 10 && s[i + 2] == 13 && s[i + 3] == 10
}

/// First position at or after `i` where the header terminator stands.
pub open spec fn find_term_from(s: Seq<u8>, i: int) -> Option<int>
    decreases s.len() - i,
{
    if i < 0 || i + 4 > s.len() {
        None
    } else if term_at(s, i) {
        Some(i)
    } else {
        find_term_from(s, i + 1)
    }
}

/// `find_term_from` answers with the first terminator position, if any.
pub proof fn lemma_find_term_from(s: Seq<u8>, i: int)
    requires
        0 <= i,
    ensures
        match find_term_from(s, i) {
            Some(j) => i <= j && term_at(s, j) && forall|k: int| i <= k < j ==> !term_at(s, k),
            None => forall|k: int| i <= k ==> !term_at(s, k),
        },
    decreases s.len() - i,
{
    if i + 4 > s.len() {
        assert forall|k: int| i <= k implies !term_at(s, k) by {}
    } else if !term_at(s, i) {
        lemma_find_term_from(s, i + 1);
    }
}

/// Finds the first header terminator in `v`.
pub fn find_terminator(v: &Vec<u8>) -> (r: Option<usize>)
    ensures
        match r {
            Some(j) => find_term_from(v@, 0) == Some(j as int),
            None => find_term_from(v@, 0) is None,
        },
{
    let len = v.len();
    if len < 4 {
        return None;
    }
    let end = len - 4;
    let mut i: usize = 0;
    loop
        invariant
            len == v@.len(),
            4 <= len,
            end == len - 4,
            i <= end,
            find_term_from(v@, 0) == find_term_from(v@, i as int),
        decreases end - i,
    {
        if v[i] == 13 && v[i + 1] == 10 && v[i + 2] == 13 && v[i + 3] == 10 {
            return Some(i);
        }
        if i == end {
            proof {
                assert(find_term_from(v@, i + 1) is None);
            }
            return None;
        }
        i = i + 1;
    }
}

/// The search answers the position of a known first terminator.
pub proof fn lemma_find_term_from_is(s: Seq<u8>, i: int, j: int)
    requires
        0 <= i <= j,
        term_at(s, j),
        forall|k: int| i <= k < j ==> !term_at(s, k),
    ensures
        find_term_from(s, i) == Some(j),
    decreases j - i,
{
    if i < j {
        lemma_find_term_from_is(s, i + 1, j);
    }
}

/// Once the assembler has reached a verdict — a full request or a malformed
/// one — further bytes cannot change it: the verdict came from the bytes up
/// to the terminator and the declared body length, which are all in the
/// prefix already seen.
pub proof fn lemma_assemble_extend(s: Seq<u8>, ext: Seq<u8>)
    requires
        assemble_spec(s) is Ready || assemble_spec(s) is Malformed,
    ensures
        assemble_spec(s + ext) == assemble_spec(s),
{
    lemma_find_term_from(s, 0);
    let t = choose|t: int| find_term_from(s, 0) == Some(t);
    assert(term_at(s, t));
    let s2 = s + ext;
    assert(term_at(s2, t)) by {
        assert(s2[t] == s[t] && s2[t + 1] == s[t + 1] && s2[t + 2] == s[t + 2] && s2[t + 3] == s[t
            + 3]);
    }
    assert forall|k: int| 0 <= k < t implies !term_at(s2, k) by {
        if term_at(s2, k) {
            assert(s2[k] == s[k] && s2[k + 1] == s[k + 1] && s2[k + 2] == s[k + 2] && s2[k + 3]
                == s[k + 3]);
            assert(term_at(s, k));
        }
    }
    lemma_find_term_from_is(s2, 0, t);
    assert(s2.subrange(0, t) =~= s.subrange(0, t));
    match parse_head(s.subrange(0, t)) {
        None => {},
        Some(h) => {
            let cl = h.content_length as int;
            assert(s.len() - (t + 4) >= cl);
            assert(s2.subrange(t + 4, t + 4 + cl) =~= s.subrange(t + 4, t + 4 + cl));
        },
    }
}

/// A line with one trailing carriage return stripped.
pub open spec fn strip_cr(line: Seq<u8>) -> Seq<u8> {
    if line.len() > 0 && line.last() == 13 {
        line.drop_last()
    } else {
        line
    }
}

/// The lines of `s`, split on line feeds, each with one trailing carriage
/// return stripped. Always yields at least one line.
pub open spec fn split_lines(s: Seq<u8>) -> Seq<Seq<u8>>
    decreases s.len(),
{
    match find_byte_from(s, 10, 0) {
        Some(j) => if 0 <= j < s.len() {
            seq![strip_cr(s.subrange(0, j))] + split_lines(s.subrange(j + 1, s.len() as int))
        } else {
            seq![strip_cr(s)]
        },
        None => seq![strip_cr(s)],
    }
}

/// `split_lines` yields at least one line.
pub proof fn lemma_split_lines_nonempty(s: Seq<u8>)
    ensures
        split_lines(s).len() >= 1,
{
    match find_byte_from(s, 10, 0) {
        Some(j) => {}
        None => {}
    }
}

/// The views of a sequence of byte vectors.
pub open spec fn views_of(v: Seq<Vec<u8>>) -> Seq<Seq<u8>> {
    Seq::new(v.len(), |i: int| v[i]@)
}

/// If `b` stands at `j` in `s` and nowhere earlier at or after `i`, the
/// search finds exactly `j`.
pub proof fn lemma_find_byte_from_is(s: Seq<u8>, b: u8, i: int, j: int)
    requires
        0 <= i <= j < s.len(),
        s[j] == b,
        forall|k: int| i <= k < j ==> s[k] != b,
    ensures
        find_byte_from(s, b, i) == Some(j),
    decreases j - i,
{
    if i < j {
        lemma_find_byte_from_is(s, b, i + 1, j);
    }
}

/// If `b` stands nowhere at or after `i`, the search finds nothing.
proof fn lemma_find_byte_from_none(s: Seq<u8>, b: u8, i: int)
    requires
        0 <= i,
        forall|k: int| i <= k < s.len() ==> s[k] != b,
    ensures
        find_byte_from(s, b, i) is None,
    decreases s.len() - i,
{
    if i < s.len() {
        lemma_find_byte_from_none(s, b, i + 1);
    }
}

/// Copies the line `[from, to)` of `v`, stripping one trailing carriage
/// return.
fn line_of(v: &Vec<u8>, from: usize, to: usize) -> (r: Vec<u8>)
    requires
        from <= to <= v@.len(),
    ensures
        r@ == strip_cr(v@.subrange(from as int, to as int)),
{
    let end: usize = if to > from && v[to - 1] == 13 {
        to - 1
    } else {
        to
    };
    let r = subvec(v, from, end);
    proof {
        let piece = v@.subrange(from as int, to as int);
        if to > from && v@[to - 1] == 13 {
            assert(piece.last() == v@[to - 1]);
            assert(r@ =~= piece.drop_last());
        }
    }
    r
}

/// Splits `v` into its lines, as `split_lines` describes.
pub fn split_lines_vec(v: &Vec<u8>) -> (r: Vec<Vec<u8>>)
    ensures
        views_of(r@) == split_lines(v@),
{
    let len = v.len();
    let mut lines: Vec<Vec<u8>> = Vec::new();
    let mut pos: usize = 0;
    proof {
        assert(v@.subrange(0, v@.len() as int) =~= v@);
        assert(views_of(lines@) + split_lines(v@) =~= split_lines(v@));
    }
    loop
        invariant
            len == v@.len(),
            pos <= len,
            split_lines(v@) == views_of(lines@) + split_lines(
                v@.subrange(pos as int, v@.len() as int),
            ),
        decreases len - pos,
    {
        let ghost suffix = v@.subrange(pos as int, v@.len() as int);
        match find_byte(v, 10, pos) {
            Some(j) => {
                proof {
                    lemma_find_byte_from(v@, 10, pos as int);
                    assert forall|k: int| 0 <= k < j - pos implies suffix[k] != 10 by {
                        assert(suffix[k] == v@[pos + k]);
                    }
                    assert(suffix[j - pos] == v@[j as int]);
                    lemma_find_byte_from_is(suffix, 10, 0, j - pos);
                    assert(suffix.subrange(0, j - pos) =~= v@.subrange(pos as int, j as int));
                    assert(suffix.subrange(j - pos + 1, suffix.len() as int) =~= v@.subrange(
                        j + 1,
                        v@.len() as int,
                    ));
                    assert(split_lines(suffix) == seq![
                        strip_cr(v@.subrange(pos as int, j as int)),
                    ] + split_lines(v@.subrange(j + 1, v@.len() as int)));
                }
                let line = line_of(v, pos, j);
                proof {
                    assert(views_of(lines@.push(line)) =~= views_of(lines@) + seq![line@]);
                    assert(views_of(lines@) + (seq![line@] + split_lines(
                        v@.subrange(j + 1, v@.len() as int),
                    )) =~= (views_of(lines@) + seq![line@]) + split_lines(
                        v@.subrange(j + 1, v@.len() as int),
                    ));
                }
                lines.push(line);
                pos = j + 1;
            }
            None => {
                proof {
                    lemma_find_byte_from(v@, 10, pos as int);
                    assert forall|k: int| 0 <= k < suffix.len() implies suffix[k] != 10 by {
                        assert(suffix[k] == v@[pos + k]);
                    }
                    lemma_find_byte_from_none(suffix, 10, 0);
                    assert(split_lines(suffix) == seq![strip_cr(suffix)]);
                }
                let line = line_of(v, pos, len);
                proof {
                    assert(views_of(lines@.push(line)) =~= views_of(lines@) + seq![line@]);
                    assert(views_of(lines@) + seq![line@] =~= views_of(lines@) + split_lines(
                        suffix,
                    ));
                }
                lines.push(line);
                return lines;
            }
        }
    }
}

/// First index at or after `i` that is not a space or tab.
pub open spec fn skip_sp(s: Seq<u8>, i: int) -> int
    decreases s.len() - i,
{
    if 0 <= i < s.len() && is_sp_ht(s[i]) {
        skip_sp(s, i + 1)
    } else {
        i
    }
}

/// First index at or after `i` that is a space or tab, or the length.
pub open spec fn tok_end(s: Seq<u8>, i: int) -> int
    decreases s.len() - i,
{
    if 0 <= i < s.len() && !is_sp_ht(s[i]) {
        tok_end(s, i + 1)
    } else {
        i
    }
}

/// Bounds of the token scanners.
pub proof fn lemma_scan_bounds(s: Seq<u8>, i: int)
    requires
        0 <= i <= s.len(),
    ensures
        i <= skip_sp(s, i) <= s.len(),
        i <= tok_end(s, i) <= s.len(),
    decreases s.len() - i,
{
    if i < s.len() {
        lemma_scan_bounds(s, i + 1);
    }
}

/// Exec mirror of `skip_sp`.
fn skip_sp_x(v: &Vec<u8>, from: usize) -> (r: usize)
    requires
        from <= v@.len(),
    ensures
        r == skip_sp(v@, from as int),
        from <= r <= v@.len(),
{
    let len = v.len();
    let mut i: usize = from;
    while i < len && (v[i] == 32 || v[i] == 9)
        invariant
            len == v@.len(),
            from <= i <= len,
            skip_sp(v@, from as int) == skip_sp(v@, i as int),
        decreases len - i,
    {
        i = i + 1;
    }
    i
}

/// Exec mirror of `tok_end`.
fn tok_end_x(v: &Vec<u8>, from: usize) -> (r: usize)
    requires
        from <= v@.len(),
    ensures
        r == tok_end(v@, from as int),
        from <= r <= v@.len(),
{
    let len = v.len();
    let mut i: usize = from;
    while i < len && !(v[i] == 32 || v[i] == 9)
        invariant
            len == v@.len(),
            from <= i <= len,
            tok_end(v@, from as int) == tok_end(v@, i as int),
        decreases len - i,
    {
        i = i + 1;
    }
    i
}

/// Method and path of a request line: its first two whitespace-separated
/// tokens, or nothing when fewer than two are present.
pub open spec fn req_line_of(rl: Seq<u8>) -> Option<(Seq<u8>, Seq<u8>)> {
    let m0 = skip_sp(rl, 0);
    let m1 = tok_end(rl, m0);
    let p0 = skip_sp(rl, m1);
    let p1 = tok_end(rl, p0);
    if m0 < rl.len() && p0 < rl.len() {
        Some((rl.subrange(m0, m1), rl.subrange(p0, p1)))
    } else {
        None
    }
}

/// First index at or after `i` that is not trimmable whitespace.
pub open spec fn trim_front(s: Seq<u8>, i: int) -> int
    decreases s.len() - i,
{
    if 0 <= i < s.len() && is_trim_byte(s[i]) {
        trim_front(s, i + 1)
    } else {
        i
    }
}

/// Largest `j <= i` such that `s[j - 1]` is not trimmable whitespace.
pub open spec fn trim_back(s: Seq<u8>, i: int) -> int
    decreases i,
{
    if 0 < i <= s.len() && is_trim_byte(s[i - 1]) {
        trim_back(s, i - 1)
    } else {
        i
    }
}

/// `s` with whitespace removed from both ends.
pub open spec fn trim_of(s: Seq<u8>) -> Seq<u8> {
    let a = trim_front(s, 0);
    if a == s.len() {
        Seq::empty()
    } else {
        s.subrange(a, trim_back(s, s.len() as int))
    }
}

/// Bounds of `trim_front`.
proof fn lemma_trim_front_bounds(s: Seq<u8>, i: int)
    requires
        0 <= i <= s.len(),
    ensures
        i <= trim_front(s, i) <= s.len(),
        trim_front(s, i) < s.len() ==> !is_trim_byte(s[trim_front(s, i)]),
    decreases s.len() - i,
{
    if i < s.len() && is_trim_byte(s[i]) {
        lemma_trim_front_bounds(s, i + 1);
    }
}

/// `trim_back` stops above any non-whitespace index below `i`.
pub proof fn lemma_trim_back_stops(s: Seq<u8>, i: int, k: int)
    requires
        0 <= k < i <= s.len(),
        !is_trim_byte(s[k]),
    ensures
        k < trim_back(s, i) <= i,
    decreases i,
{
    if is_trim_byte(s[i - 1]) {
        lemma_trim_back_stops(s, i - 1, k);
    }
}

/// Exec mirror of `trim_of`.
pub fn trim_vec(v: &Vec<u8>) -> (r: Vec<u8>)
    ensures
        r@ == trim_of(v@),
{
    let len = v.len();
    let mut a: usize = 0;
    while a < len && (v[a] == 32 || v[a] == 9 || v[a] == 13 || v[a] == 10)
        invariant
            len == v@.len(),
            a <= len,
            trim_front(v@, 0) == trim_front(v@, a as int),
        decreases len - a,
    {
        a = a + 1;
    }
    if a == len {
        let r: Vec<u8> = Vec::new();
        return r;
    }
    let mut b: usize = len;
    while b > 0 && (v[b - 1] == 32 || v[b - 1] == 9 || v[b - 1] == 13 || v[b - 1] == 10)
        invariant
            len == v@.len(),
            b <= len,
            trim_back(v@, len as int) == trim_back(v@, b as int),
        decreases b,
    {
        b = b - 1;
    }
    proof {
        assert(!is_trim_byte(v@[a as int]));
        lemma_trim_back_stops(v@, len as int, a as int);
    }
    subvec(v, a, b)
}

/// A header line split at its first colon: lower-cased trimmed name and
/// trimmed value, or nothing when the line has no colon.
pub open spec fn header_kv(line: Seq<u8>) -> Option<(Seq<u8>, Seq<u8>)> {
    match find_byte_from(line, 58, 0) {
        Some(j) => Some(
            (
                lower_bytes(trim_of(line.subrange(0, j))),
                trim_of(line.subrange(j + 1, line.len() as int)),
            ),
        ),
        None => None,
    }
}

/// Folds the header lines from index `i` on, tracking the declared content
/// length (the last one that parses wins) and the last content type.
pub open spec fn fold_headers(lines: Seq<Seq<u8>>, i: int, cl: nat, ct: Option<Seq<u8>>) -> (
    nat,
    Option<Seq<u8>>,
)
    decreases lines.len() - i,
{
    if i < 0 || i >= lines.len() {
        (cl, ct)
    } else {
        match header_kv(lines[i]) {
            None => fold_headers(lines, i + 1, cl, ct),
            Some(kv) => {
                let cl2 = if kv.0 == ascii_of("content-length"@) {
                    match parse_dec(kv.1) {
                        Some(n) => n,
                        None => cl,
                    }
                } else {
                    cl
                };
                let ct2 = if kv.0 == ascii_of("content-type"@) {
                    Some(kv.1)
                } else {
                    ct
                };
                fold_headers(lines, i + 1, cl2, ct2)
            }
        }
    }
}

/// The parsed request head: method, path, declared body length, and the
/// content type if one was sent.
pub struct ReqHeadV {
    pub method: Seq<u8>,
    pub path: Seq<u8>,
    pub content_length: nat,
    pub content_type: Option<Seq<u8>>,
}

/// Parses the header block (the bytes before the terminator): request line
/// plus headers. Nothing when the request line has fewer than two tokens.
pub open spec fn parse_head(head: Seq<u8>) -> Option<ReqHeadV> {
    let lines = split_lines(head);
    match req_line_of(lines[0]) {
        None => None,
        Some(mp) => {
            let folded = fold_headers(lines, 1, 0, None);
            Some(
                ReqHeadV {
                    method: mp.0,
                    path: mp.1,
                    content_length: folded.0,
                    content_type: folded.1,
                },
            )
        }
    }
}

/// What the assembler concludes from a buffer.
pub enum AssembledV {
    /// No terminator yet, or the declared body bytes are not all present.
    Incomplete,
    /// The request line has fewer than two tokens.
    Malformed,
    /// A full request: its head and exactly the declared body bytes.
    Ready(ReqHeadV, Seq<u8>),
}

/// The assembler as a pure function of the accumulated buffer.
pub open spec fn assemble_spec(buf: Seq<u8>) -> AssembledV {
    match find_term_from(buf, 0) {
        None => AssembledV::Incomplete,
        Some(t) => match parse_head(buf.subrange(0, t)) {
            None => AssembledV::Malformed,
            Some(h) => {
                if buf.len() - (t + 4) >= h.content_length {
                    AssembledV::Ready(h, buf.subrange(t + 4, t + 4 + h.content_length))
                } else {
                    AssembledV::Incomplete
                }
            },
        },
    }
}

/// The view of an optional byte vector.
pub open spec fn opt_view(o: Option<Vec<u8>>) -> Option<Seq<u8>> {
    match o {
        Some(v) => Some(v@),
        None => None,
    }
}

/// The executable parsed request head.
pub struct RequestHead {
    pub method: Vec<u8>,
    pub path: Vec<u8>,
    pub content_length: usize,
    pub content_type: Option<Vec<u8>>,
}

impl View for RequestHead {
    type V = ReqHeadV;

    open spec fn view(&self) -> ReqHeadV {
        ReqHeadV {
            method: self.method@,
            path: self.path@,
            content_length: self.content_length as nat,
            content_type: opt_view(self.content_type),
        }
    }
}

/// The executable assembler outcome.
pub enum Assembled {
    Incomplete,
    Malformed,
    Ready(RequestHead, Vec<u8>),
}

impl View for Assembled {
    type V = AssembledV;

    open spec fn view(&self) -> AssembledV {
        match self {
            Assembled::Incomplete => AssembledV::Incomplete,
            Assembled::Malformed => AssembledV::Malformed,
            Assembled::Ready(h, b) => AssembledV::Ready(h@, b@),
        }
    }
}

/// Runs the assembler on the accumulated buffer.
pub fn assemble(buf: &Vec<u8>) -> (r: Assembled)
    ensures
        r@ == assemble_spec(buf@),
{
    let t = match find_terminator(buf) {
        None => {
            return Assembled::Incomplete;
        },
        Some(t) => t,
    };
    proof {
        lemma_find_term_from(buf@, 0);
    }
    let head = subvec(buf, 0, t);
    let ghost headv = buf@.subrange(0, t as int);
    let lines = split_lines_vec(&head);
    proof {
        lemma_split_lines_nonempty(headv);
        assert(views_of(lines@).len() == split_lines(headv).len());
    }
    let rl = &lines[0];
    proof {
        assert(rl@ == split_lines(headv)[0]);
        lemma_scan_bounds(rl@, 0);
    }
    let m0 = skip_sp_x(rl, 0);
    if m0 == rl.len() {
        return Assembled::Malformed;
    }
    let m1 = tok_end_x(rl, m0);
    let p0 = skip_sp_x(rl, m1);
    if p0 == rl.len() {
        return Assembled::Malformed;
    }
    let p1 = tok_end_x(rl, p0);
    let method = subvec(rl, m0, m1);
    let path = subvec(rl, p0, p1);
    let mut cl: usize = 0;
    let mut ct: Option<Vec<u8>> = None;
    let nlines = lines.len();
    let mut i: usize = 1;
    let ghost linesv = split_lines(headv);
    while i < nlines
        invariant
            nlines == lines@.len(),
            1 <= i <= nlines,
            views_of(lines@) == linesv,
            fold_headers(linesv, 1, 0, None) == fold_headers(
                linesv,
                i as int,
                cl as nat,
                opt_view(ct),
            ),
        decreases nlines - i,
    {
        let line = &lines[i];
        proof {
            assert(line@ == linesv[i as int]);
        }
        let ghost cl0 = cl as nat;
        let ghost ct0 = opt_view(ct);
        match find_byte(line, 58, 0) {
            Some(j) => {
                let rawkey = subvec(line, 0, j);
                let trimmed = trim_vec(&rawkey);
                let key = to_lower(&trimmed);
                let rawval = subvec(line, j + 1, line.len());
                let value = trim_vec(&rawval);
                proof {
                    assert(header_kv(line@) == Some((key@, value@)));
                }
                proof {
                    reveal_strlit("content-length");
                    assert(vstd::string::is_ascii("content-length"));
                    reveal_strlit("content-type");
                    assert(vstd::string::is_ascii("content-type"));
                }
                let lit_cl = lit_vec("content-length");
                let is_cl = eq_vec(&key, &lit_cl);
                let lit_ct = lit_vec("content-type");
                let is_ct = eq_vec(&key, &lit_ct);
                if is_cl {
                    match parse_decimal(&value) {
                        Some(n) => {
                            cl = n;
                        },
                        None => {},
                    }
                }
                if is_ct {
                    ct = Some(value);
                }
                proof {
                    assert(fold_headers(linesv, i as int, cl0, ct0) == fold_headers(
                        linesv,
                        i + 1,
                        cl as nat,
                        opt_view(ct),
                    ));
                }
            },
            None => {
                proof {
                    assert(header_kv(linesv[i as int]) is None);
                    assert(fold_headers(linesv, i as int, cl0, ct0) == fold_headers(
                        linesv,
                        i + 1,
                        cl as nat,
                        opt_view(ct),
                    ));
                }
            },
        }
        i = i + 1;
    }
    proof {
        assert(fold_headers(linesv, nlines as int, cl as nat, opt_view(ct)) == (
            cl as nat,
            opt_view(ct),
        ));
    }
    let h = RequestHead { method, path, content_length: cl, content_type: ct };
    let avail = buf.len() - t - 4;
    if avail >= cl {
        let body = subvec(buf, t + 4, t + 4 + cl);
        Assembled::Ready(h, body)
    } else {
        Assembled::Incomplete
    }
}

} // verus!
