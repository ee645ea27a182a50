//! Byte-sequence primitives shared by the request assembler, the JSON codec
//! and the response builder: ASCII literals, scanning, searching, and decimal
//! conversion, each exec function proved equal to its spec-level definition.
use vstd::prelude::*;
use vstd::string::StrSliceExecFns;

verus! {

/// The bytes of an ASCII character sequence, one byte per character.
pub open spec fn ascii_of(s: Seq<char>) -> Seq<u8> {
    Seq::new(s.len(), |i: int| s[i] as u8)
}

/// Builds the byte vector of an ASCII string slice.
pub fn lit_vec(s: &str) -> (r: Vec<u8>)
    requires
        vstd::string::is_ascii(s),
    ensures
        r@ == ascii_of(s@),
{
    proof {
        vstd::string::is_ascii_spec_bytes(s);
    }
    let r = s.as_bytes_vec();
    proof {
        assert(r@ =~= ascii_of(s@));
    }
    r
}

/// Appends the bytes of an ASCII string slice to a byte vector.
pub fn append_lit(dst: &mut Vec<u8>, s: &str)
    requires
        vstd::string::is_ascii(s),
    ensures
        final(dst)@ == old(dst)@ + ascii_of(s@),
{
    proof {
        vstd::string::is_ascii_spec_bytes(s);
    }
    let b = s.as_bytes();
    dst.extend_from_slice(b);
    proof {
        assert(dst@ =~= old(dst)@ + ascii_of(s@));
    }
}

/// Appends one byte vector to another.
pub fn append_vec(dst: &mut Vec<u8>, src: &Vec<u8>)
    ensures
        final(dst)@ == old(dst)@ + src@,
{
    dst.extend_from_slice(src.as_slice());
    proof {
        assert(dst@ =~= old(dst)@ + src@);
    }
}

/// Copies the range `[a, b)` of a byte vector.
pub fn subvec(v: &Vec<u8>, a: usize, b: usize) -> (r: Vec<u8>)
    requires
        a <= b <= v@.len(),
    ensures
        r@ == v@.subrange(a as int, b as int),
{
    let mut r: Vec<u8> = Vec::new();
    let mut i: usize = a;
    while i < b
        invariant
            a <= i <= b <= v@.len(),
            r@ == v@.subrange(a as int, i as int),
        decreases b - i,
    {
        r.push(v[i]);
        proof {
            assert(r@ =~= v@.subrange(a as int, i + 1));
        }
        i = i + 1;
    }
    r
}

/// Space or horizontal tab: the separators of the request line.
pub open spec fn is_sp_ht(b: u8) -> bool {
    b == 32 || b == 9
}

/// The characters trimmed from header names and values: space, tab,
/// carriage return and line feed.
pub open spec fn is_trim_byte(b: u8) -> bool {
    b == 32 || b == 9 || b == 13 || b == 10
}

/// An ASCII decimal digit.
pub open spec fn is_digit_byte(b: u8) -> bool {
    48 <= b <= 57
}

/// ASCII lower-casing of one byte.
pub open spec fn lower_byte(b: u8) -> u8 {
    if 65 <= b <= 90 {
        (b + 32) as u8
    } else {
        b
    }
}

/// ASCII lower-casing of a byte sequence.
pub open spec fn lower_bytes(s: Seq<u8>) -> Seq<u8> {
    Seq::new(s.len(), |i: int| lower_byte(s[i]))
}

/// ASCII lower-casing of a byte vector.
pub fn to_lower(v: &Vec<u8>) -> (r: Vec<u8>)
    ensures
        r@ == lower_bytes(v@),
{
    let mut r: Vec<u8> = Vec::new();
    let mut i: usize = 0;
    while i < v.len()
        invariant
            i <= v@.len(),
            r@ == lower_bytes(v@).subrange(0, i as int),
        decreases v@.len() - i,
    {
        let b = v[i];
        if 65 <= b && b <= 90 {
            r.push(b + 32);
        } else {
            r.push(b);
        }
        proof {
            assert(r@ =~= lower_bytes(v@).subrange(0, i + 1));
        }
        i = i + 1;
    }
    proof {
        assert(r@ =~= lower_bytes(v@));
    }
    r
}

/// First index at or after `i` that holds byte `b`, if any.
pub open spec fn find_byte_from(s: Seq<u8>, b: u8, i: int) -> Option<int>
    decreases s.len() - i,
{
    if i < 0 || i >= s.len() {
        None
    } else if s[i] == b {
        Some(i)
    } else {
        find_byte_from(s, b, i + 1)
    }
}

/// Where `find_byte_from` answers, the answer is a position of `b` in range,
/// with no earlier occurrence at or after `i`.
pub proof fn lemma_find_byte_from(s: Seq<u8>, b: u8, i: int)
    requires
        0 <= i,
    ensures
        match find_byte_from(s, b, i) {
            Some(j) => i <= j < s.len() && s[j] == b && forall|k: int|
                i <= k < j ==> s[k] != b,
            None => forall|k: int| i <= k < s.len() ==> s[k] != b,
        },
    decreases s.len() - i,
{
    if i < s.len() && s[i] != b {
        lemma_find_byte_from(s, b, i + 1);
    }
}

/// Finds the first occurrence of `b` in `v` at or after `from`.
pub fn find_byte(v: &Vec<u8>, b: u8, from: usize) -> (r: Option<usize>)
    requires
        from <= v@.len(),
    ensures
        match r {
            Some(j) => find_byte_from(v@, b, from as int) == Some(j as int) && from <= j
                < v@.len(),
            None => find_byte_from(v@, b, from as int) is None,
        },
{
    let mut i: usize = from;
    while i < v.len()
        invariant
            from <= i <= v@.len(),
            find_byte_from(v@, b, from as int) == find_byte_from(v@, b, i as int),
        decreases v@.len() - i,
    {
        if v[i] == b {
            return Some(i);
        }
        i = i + 1;
    }
    None
}

/// Whether the pattern `p` stands in `s` at position `i`.
pub open spec fn match_at(s: Seq<u8>, p: Seq<u8>, i: int) -> bool {
    0 <= i && i + p.len() <= s.len() && s.subrange(i, i + p.len()) == p
}

/// First position at or after `i` where `p` stands in `s`, if any.
pub open spec fn find_sub_from(s: Seq<u8>, p: Seq<u8>, i: int) -> Option<int>
    decreases s.len() - i,
{
    if i < 0 || i + p.len() > s.len() {
        None
    } else if p.len() == 0 {
        Some(i)
    } else if match_at(s, p, i) {
        Some(i)
    } else {
        find_sub_from(s, p, i + 1)
    }
}

/// `s` holds `p` somewhere.
pub open spec fn contains_seq(s: Seq<u8>, p: Seq<u8>) -> bool {
    find_sub_from(s, p, 0) is Some
}

/// Tests whether `p` stands in `s` at position `i`.
fn matches_at(s: &Vec<u8>, p: &Vec<u8>, i: usize) -> (r: bool)
    requires
        i + p@.len() <= s@.len(),
    ensures
        r == match_at(s@, p@, i as int),
{
    let slen = s.len();
    let plen = p.len();
    let mut k: usize = 0;
    while k < plen
        invariant
            slen == s@.len(),
            plen == p@.len(),
            i + p@.len() <= s@.len(),
            k <= p@.len(),
            s@.subrange(i as int, i + k) == p@.subrange(0, k as int),
        decreases p@.len() - k,
    {
        if s[i + k] != p[k] {
            proof {
                assert(s@.subrange(i as int, i + p@.len())[k as int] != p@[k as int]);
            }
            return false;
        }
        proof {
            assert(s@.subrange(i as int, i + k + 1) =~= p@.subrange(0, k + 1));
        }
        k = k + 1;
    }
    proof {
        assert(s@.subrange(i as int, i + p@.len()) =~= p@);
    }
    true
}

/// Whether `s` holds the byte pattern `p` anywhere.
pub fn contains_sub(s: &Vec<u8>, p: &Vec<u8>) -> (r: bool)
    ensures
        r == contains_seq(s@, p@),
{
    if p.len() > s.len() {
        return false;
    }
    if p.len() == 0 {
        return true;
    }
    let end = s.len() - p.len();
    let mut i: usize = 0;
    loop
        invariant
            0 < p@.len() <= s@.len(),
            end == s@.len() - p@.len(),
            i <= end,
            find_sub_from(s@, p@, 0) == find_sub_from(s@, p@, i as int),
        decreases end + 1 - i,
    {
        if i >= end {
            if matches_at(s, p, end) {
                return true;
            }
            proof {
                assert(find_sub_from(s@, p@, end as int + 1) is None);
                assert(find_sub_from(s@, p@, end as int) is None);
            }
            return false;
        }
        if matches_at(s, p, i) {
            return true;
        }
        i = i + 1;
    }
}

/// Byte-vector equality.
pub fn eq_vec(a: &Vec<u8>, b: &Vec<u8>) -> (r: bool)
    ensures
        r == (a@ == b@),
{
    if a.len() != b.len() {
        proof {
            assert(a@ != b@);
        }
        return false;
    }
    let len = a.len();
    let mut i: usize = 0;
    while i < len
        invariant
            len == a@.len() == b@.len(),
            i <= len,
            a@.subrange(0, i as int) == b@.subrange(0, i as int),
        decreases len - i,
    {
        if a[i] != b[i] {
            proof {
                assert(a@[i as int] != b@[i as int]);
            }
            return false;
        }
        proof {
            assert(a@.subrange(0, i + 1) =~= b@.subrange(0, i + 1));
        }
        i = i + 1;
    }
    proof {
        assert(a@ =~= a@.subrange(0, len as int));
        assert(b@ =~= b@.subrange(0, len as int));
    }
    true
}

/// Numeric value of a sequence of ASCII digits.
pub open spec fn digits_val(s: Seq<u8>) -> nat
    decreases s.len(),
{
    if s.len() == 0 {
        0
    } else {
        digits_val(s.drop_last()) * 10 + (s.last() - 48) as nat
    }
}

/// Every byte of `s` is an ASCII digit.
pub open spec fn all_digits(s: Seq<u8>) -> bool {
    forall|i: int| 0 <= i < s.len() ==> is_digit_byte(#[trigger] s[i])
}

/// The decimal digits of `n`, most significant first.
pub open spec fn dec_of(n: nat) -> Seq<u8>
    decreases n,
{
    if n < 10 {
        seq![(48 + n) as u8]
    } else {
        dec_of(n / 10) + seq![(48 + n % 10) as u8]
    }
}

/// `dec_of` yields digits whose value is `n` again, with no leading zero
/// unless `n` is zero itself.
pub proof fn lemma_dec_of(n: nat)
    ensures
        dec_of(n).len() >= 1,
        all_digits(dec_of(n)),
        digits_val(dec_of(n)) == n,
        dec_of(n)[0] == 48 ==> n == 0 && dec_of(n).len() == 1,
    decreases n,
{
    if n < 10 {
        assert(dec_of(n) =~= seq![(48 + n) as u8]);
        assert(digits_val(dec_of(n)) == digits_val(seq![(48 + n) as u8].drop_last()) * 10 + n);
        assert(seq![(48 + n) as u8].drop_last() =~= Seq::<u8>::empty());
    } else {
        lemma_dec_of(n / 10);
        let d = dec_of(n);
        assert(d =~= dec_of(n / 10) + seq![(48 + n % 10) as u8]);
        assert(d.drop_last() =~= dec_of(n / 10));
        assert(d.last() == (48 + n % 10) as u8);
        assert(digits_val(d) == (n / 10) * 10 + n % 10);
        assert((n / 10) * 10 + n % 10 == n) by (nonlinear_arith);
        assert(d[0] == dec_of(n / 10)[0]);
        assert(n / 10 > 0);
    }
}

/// Renders `n` as its decimal digits.
pub fn format_decimal(n: usize) -> (r: Vec<u8>)
    ensures
        r@ == dec_of(n as nat),
{
    let mut rev: Vec<u8> = Vec::new();
    let mut m: usize = n;
    proof {
        assert(Seq::<u8>::empty().reverse() =~= Seq::<u8>::empty());
        assert(dec_of(n as nat) =~= dec_of(n as nat) + rev@.reverse());
    }
    while m >= 10
        invariant
            dec_of(n as nat) == dec_of(m as nat) + rev@.reverse(),
        decreases m,
    {
        let d: u8 = (m % 10) as u8;
        let m2: usize = m / 10;
        proof {
            assert(m2 < m && m as nat / 10 == m2 as nat && m as nat % 10 == d as nat)
                by (nonlinear_arith)
                requires
                    m >= 10,
                    d == m % 10,
                    m2 == m / 10,
            ;
            assert(dec_of(m as nat) == dec_of(m2 as nat) + seq![(48 + d) as u8]);
            assert((rev@.push((48 + d) as u8)).reverse() =~= seq![(48 + d) as u8] + rev@.reverse());
            assert(dec_of(m2 as nat) + (seq![(48 + d) as u8] + rev@.reverse()) =~= (dec_of(
                m2 as nat,
            ) + seq![(48 + d) as u8]) + rev@.reverse());
        }
        rev.push(48 + d);
        m = m2;
    }
    proof {
        assert(dec_of(m as nat) == seq![(48 + m as nat) as u8]);
    }
    let mut r: Vec<u8> = Vec::new();
    r.push(48 + (m as u8));
    proof {
        assert(r@ =~= dec_of(m as nat));
    }
    let mut i: usize = rev.len();
    while i > 0
        invariant
            i <= rev@.len(),
            r@ == dec_of(m as nat) + rev@.reverse().subrange(0, rev@.len() - i),
        decreases i,
    {
        i = i - 1;
        proof {
            assert(rev@.reverse()[rev@.len() - i - 1] == rev@[i as int]);
            assert((dec_of(m as nat) + rev@.reverse().subrange(0, rev@.len() - i - 1)).push(
                rev@[i as int],
            ) =~= dec_of(m as nat) + rev@.reverse().subrange(0, rev@.len() - i));
        }
        r.push(rev[i]);
    }
    proof {
        assert(rev@.reverse().subrange(0, rev@.len() as int) =~= rev@.reverse());
        assert(r@ =~= dec_of(m as nat) + rev@.reverse());
    }
    r
}

/// The value of the digits of `s` parsed as a decimal number, if `s` is a
/// well-formed decimal with optional leading plus sign and the value fits
/// in `usize`.
pub open spec fn parse_dec(s: Seq<u8>) -> Option<nat> {
    let digits = if s.len() > 0 && s[0] == 43 {
        s.subrange(1, s.len() as int)
    } else {
        s
    };
    if digits.len() > 0 && all_digits(digits) && digits_val(digits) <= usize::MAX {
        Some(digits_val(digits))
    } else {
        None
    }
}

/// Parses `v` as a decimal `usize`, accepting an optional leading plus sign.
pub fn parse_decimal(v: &Vec<u8>) -> (r: Option<usize>)
    ensures
        match r {
            Some(n) => parse_dec(v@) == Some(n as nat),
            None => parse_dec(v@) is None,
        },
{
    let len = v.len();
    let start: usize = if len > 0 && v[0] == 43 {
        1
    } else {
        0
    };
    let ghost digits = if v@.len() > 0 && v@[0] == 43 {
        v@.subrange(1, v@.len() as int)
    } else {
        v@
    };
    proof {
        if !(v@.len() > 0 && v@[0] == 43) {
            assert(digits =~= v@.subrange(0, v@.len() as int));
        }
        assert(digits =~= v@.subrange(start as int, v@.len() as int));
    }
    if len == start {
        return None;
    }
    let mut i: usize = start;
    while i < len
        invariant
            len == v@.len(),
            start <= i <= v@.len(),
            start == 0 || start == 1,
            (start == 1) == (v@.len() > 0 && v@[0] == 43),
            digits == v@.subrange(start as int, v@.len() as int),
            forall|k: int| start <= k < i ==> is_digit_byte(#[trigger] v@[k]),
        decreases v@.len() - i,
    {
        let b = v[i];
        if b < 48 || b > 57 {
            proof {
                assert(digits[i - start] == v@[i as int]);
                assert(!is_digit_byte(digits[i - start]));
                assert(!all_digits(digits));
                assert(v@.subrange(0, v@.len() as int) =~= v@);
                assert(parse_dec(v@) is None);
            }
            return None;
        }
        i = i + 1;
    }
    proof {
        assert forall|k: int| 0 <= k < digits.len() implies is_digit_byte(#[trigger] digits[k]) by {
            assert(digits[k] == v@[start + k]);
        }
    }
    let mut acc: usize = 0;
    let mut j: usize = start;
    while j < len
        invariant
            len == v@.len(),
            start <= j <= v@.len(),
            start == 0 || start == 1,
            (start == 1) == (v@.len() > 0 && v@[0] == 43),
            start < v@.len(),
            digits == v@.subrange(start as int, v@.len() as int),
            all_digits(digits),
            acc == digits_val(digits.subrange(0, j - start)),
        decreases v@.len() - j,
    {
        let b = v[j];
        proof {
            assert(digits[j - start] == v@[j as int]);
            assert(is_digit_byte(digits[j - start]));
        }
        let d: usize = (b - 48) as usize;
        let ghost pre = digits.subrange(0, j - start + 1);
        proof {
            assert(pre.drop_last() =~= digits.subrange(0, j - start));
            assert(pre.last() == v@[j as int]);
            assert(digits_val(pre) == acc * 10 + d);
        }
        if acc > (usize::MAX - d) / 10 {
            proof {
                assert(acc * 10 + d > usize::MAX) by (nonlinear_arith)
                    requires
                        acc > (usize::MAX - d) / 10,
                        d <= 9,
                ;
                lemma_digits_val_prefix_mono(digits, j - start + 1);
                assert(digits_val(digits) > usize::MAX);
                assert(v@.subrange(0, v@.len() as int) =~= v@);
                assert(parse_dec(v@) is None);
            }
            return None;
        }
        proof {
            assert(acc * 10 + d <= usize::MAX) by (nonlinear_arith)
                requires
                    acc <= (usize::MAX - d) / 10,
                    d <= 9,
            ;
        }
        acc = acc * 10 + d;
        j = j + 1;
    }
    proof {
        assert(digits.subrange(0, digits.len() as int) =~= digits);
        assert(v@.subrange(0, v@.len() as int) =~= v@);
    }
    Some(acc)
}

/// If some prefix of a digit string already exceeds a bound, the whole
/// string's value exceeds it too.
pub proof fn lemma_digits_val_prefix_mono(s: Seq<u8>, i: int)
    requires
        0 <= i <= s.len(),
        all_digits(s),
    ensures
        digits_val(s) >= digits_val(s.subrange(0, i)),
    decreases s.len() - i,
{
    if i < s.len() {
        let a = s.subrange(0, i);
        let b = s.subrange(0, i + 1);
        assert(b.drop_last() =~= a);
        assert(digits_val(b) == digits_val(a) * 10 + (b.last() - 48));
        assert(digits_val(b) >= digits_val(a)) by (nonlinear_arith)
            requires
                digits_val(b) == digits_val(a) * 10 + (b.last() - 48),
                b.last() >= 48,
        ;
        lemma_digits_val_prefix_mono(s, i + 1);
    } else {
        assert(s.subrange(0, i) =~= s);
    }
}

} // verus!
