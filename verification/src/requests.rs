//! Parsing of the small request fields the core decides on: the start
//! offset of a Content-Range header, the session token inside a Cookie
//! header, and the credentials of a login form.
use vstd::prelude::*;
use vstd::string::*;

use crate::strutil::{spec_starts_with, str_starts_with};
use crate::multipart::{spec_find_chars, find_chars};


verus! {

pub open spec fn spec_is_digit(c: char) -> bool {
    '0' <= c && c <= '9'
}

pub open spec fn spec_all_digits(s: Seq<char>) -> bool {
    forall|i: int| 0 <= i < s.len() ==> spec_is_digit(#[trigger] s[i])
}

/// The number the digits spell, most significant first.
pub open spec fn spec_digits_value(s: Seq<char>) -> int
    decreases s.len(),
{
    if s.len() == 0 {
        0
    } else {
        spec_digits_value(s.drop_last()) * 10 + ((s.last() as int) - ('0' as int))
    }
}

proof fn lemma_digits_value_nonneg(s: Seq<char>)
    requires
        spec_all_digits(s),
    ensures
        spec_digits_value(s) >= 0,
    decreases s.len(),
{
    if s.len() > 0 {
        assert(spec_all_digits(s.drop_last()));
        lemma_digits_value_nonneg(s.drop_last());
    }
}

/// More digits never shrink the value.
proof fn lemma_digits_value_monotone(s: Seq<char>, k: int)
    requires
        spec_all_digits(s),
        0 <= k <= s.len(),
    ensures
        spec_digits_value(s) >= spec_digits_value(s.take(k)),
    decreases s.len() - k,
{
    if k == s.len() {
        assert(s.take(k) =~= s);
    } else {
        lemma_digits_value_monotone(s, k + 1);
        assert(s.take(k + 1).drop_last() =~= s.take(k));
        assert(spec_all_digits(s.take(k)));
        lemma_digits_value_nonneg(s.take(k));
        assert(spec_digits_value(s.take(k + 1)) == spec_digits_value(s.take(k)) * 10 + ((s[k] as int)
            - ('0' as int)));
    }
}

/// What `str::parse::<u64>` accepts of these inputs: an optional leading
/// plus sign, then digits, spelling a value that fits.
pub open spec fn spec_parse_u64(s: Seq<char>) -> Option<int> {
    let t = if s.len() > 0 && s[0] == '+' {
        s.skip(1)
    } else {
        s
    };
    if t.len() > 0 && spec_all_digits(t) && spec_digits_value(t) <= u64::MAX {
        Some(spec_digits_value(t))
    } else {
        None
    }
}

/// Reads an unsigned decimal number.
pub fn parse_u64(s: &str) -> (r: Option<u64>)
    ensures
        match r {
            Some(v) => spec_parse_u64(s@) == Some(v as int),
            None => spec_parse_u64(s@) is None,
        },
{
    let len = s.unicode_len();
    let start: usize = if len > 0 && s.get_char(0) == '+' {
        1
    } else {
        0
    };
    let ghost t = if s@.len() > 0 && s@[0] == '+' {
        s@.skip(1)
    } else {
        s@
    };
    proof {
        assert(t =~= s@.skip(start as int));
    }
    if len == start {
        return None;
    }
    let mut acc: u128 = 0;
    let mut i: usize = start;
    proof {
        assert(t.take(0) =~= Seq::<char>::empty());
    }
    while i < len
        invariant
            len == s@.len(),
            start <= i <= len,
            t == s@.skip(start as int),
            t == (if s@.len() > 0 && s@[0] == '+' {
                s@.skip(1)
            } else {
                s@
            }),
            spec_all_digits(t.take(i - start)),
            acc == spec_digits_value(t.take(i - start)),
            acc <= u64::MAX,
        decreases len - i,
    {
        let c = s.get_char(i);
        if !('0' <= c && c <= '9') {
            proof {
                assert(t[i - start] == c);
                assert(!spec_is_digit(t[i - start]));
            }
            return None;
        }
        let d: u128 = ((c as u8) - ('0' as u8)) as u128;
        proof {
            assert(t.take(i - start + 1).drop_last() =~= t.take(i - start));
            assert(t.take(i - start + 1).last() == t[i - start]);
            assert(t[i - start] == c);
        }
        acc = acc * 10 + d;
        i = i + 1;
        if acc > 0xFFFFFFFFFFFFFFFFu128 {
            proof {
                assert(spec_all_digits(t) ==> spec_digits_value(t) > u64::MAX) by {
                    if spec_all_digits(t) {
                        lemma_digits_value_monotone(t, i - start);
                    }
                }
                assert(spec_parse_u64(s@) is None);
            }
            return None;
        }
    }
    proof {
        assert(t.take(len - start) =~= t);
    }
    Some(acc as u64)
}

/// The start offset named by a Content-Range header of the form
/// "bytes <start>-<end>/<total>": the digits between the space and the
/// first dash, read as a number.
pub open spec fn spec_content_range_start(s: Seq<char>) -> Option<int> {
    if !spec_starts_with(s, "bytes "@) {
        None
    } else {
        let rest = s.skip(6);
        let slash = spec_find_chars(rest, "/"@);
        let range_part = if slash < 0 {
            rest
        } else {
            rest.take(slash)
        };
        let dash = spec_find_chars(range_part, "-"@);
        let start_str = if dash < 0 {
            range_part
        } else {
            range_part.take(dash)
        };
        spec_parse_u64(start_str)
    }
}

/// Reads the chunk's start offset out of a Content-Range header.
pub fn parse_content_range_start(s: &str) -> (r: Option<u64>)
    ensures
        match r {
            Some(v) => spec_content_range_start(s@) == Some(v as int),
            None => spec_content_range_start(s@) is None,
        },
{
    proof {
        reveal_strlit("bytes ");
        reveal_strlit("/");
        reveal_strlit("-");
    }
    if !str_starts_with(s, "bytes ") {
        return None;
    }
    let len = s.unicode_len();
    let rest = s.substring_char(6, len);
    proof {
        assert(rest@ =~= s@.skip(6));
    }
    let range_part = match find_chars(rest, "/") {
        None => rest,
        Some(p) => rest.substring_char(0, p),
    };
    proof {
        assert(range_part@ =~= (if spec_find_chars(rest@, "/"@) < 0 {
            rest@
        } else {
            rest@.take(spec_find_chars(rest@, "/"@))
        }));
    }
    let start_str = match find_chars(range_part, "-") {
        None => range_part,
        Some(p) => range_part.substring_char(0, p),
    };
    proof {
        assert(start_str@ =~= (if spec_find_chars(range_part@, "-"@) < 0 {
            range_part@
        } else {
            range_part@.take(spec_find_chars(range_part@, "-"@))
        }));
    }
    parse_u64(start_str)
}

pub open spec fn spec_is_blank(c: char) -> bool {
    c == ' ' || c == '\t'
}

pub open spec fn spec_trim_start(s: Seq<char>) -> Seq<char>
    decreases s.len(),
{
    if s.len() > 0 && spec_is_blank(s[0]) {
        spec_trim_start(s.skip(1))
    } else {
        s
    }
}

pub open spec fn spec_trim_end(s: Seq<char>) -> Seq<char>
    decreases s.len(),
{
    if s.len() > 0 && spec_is_blank(s.last()) {
        spec_trim_end(s.drop_last())
    } else {
        s
    }
}

/// The string without leading and trailing spaces and tabs.
pub open spec fn spec_trim(s: Seq<char>) -> Seq<char> {
    spec_trim_end(spec_trim_start(s))
}

/// Trims spaces and tabs from both ends.
pub fn trim_blanks(s: &str) -> (r: &str)
    ensures
        r@ == spec_trim(s@),
{
    let len = s.unicode_len();
    let mut a: usize = 0;
    proof {
        assert(s@.skip(0) =~= s@);
    }
    while a < len && (s.get_char(a) == ' ' || s.get_char(a) == '\t')
        invariant
            len == s@.len(),
            0 <= a <= len,
            spec_trim_start(s@) == spec_trim_start(s@.skip(a as int)),
        decreases len - a,
    {
        proof {
            assert(s@.skip(a as int)[0] == s@[a as int]);
            assert(s@.skip(a as int).skip(1) =~= s@.skip(a + 1));
        }
        a = a + 1;
    }
    proof {
        if a < len {
            assert(s@.skip(a as int)[0] == s@[a as int]);
        }
        assert(spec_trim_start(s@) == s@.skip(a as int));
    }
    let mut b: usize = len;
    proof {
        assert(s@.skip(a as int).take(len - a) =~= s@.skip(a as int));
    }
    while b > a && (s.get_char(b - 1) == ' ' || s.get_char(b - 1) == '\t')
        invariant
            len == s@.len(),
            a <= b <= len,
            spec_trim_start(s@) == s@.skip(a as int),
            spec_trim_end(s@.skip(a as int)) == spec_trim_end(s@.skip(a as int).take(b - a)),
        decreases b,
    {
        proof {
            let u = s@.skip(a as int).take(b - a);
            assert(u.last() == s@[b - 1]);
            assert(u.drop_last() =~= s@.skip(a as int).take(b - 1 - a));
        }
        b = b - 1;
    }
    proof {
        let u = s@.skip(a as int).take(b - a);
        if b > a {
            assert(u.last() == s@[b - 1]);
        }
        assert(spec_trim_end(u) == u);
        assert(spec_trim(s@) == s@.skip(a as int).take(b - a));
        assert(s@.subrange(a as int, b as int) =~= s@.skip(a as int).take(b - a));
    }
    s.substring_char(a, b)
}

/// The value of the session cookie: among the attributes separated by
/// semicolons, the first that — once trimmed — begins with "session_id="
/// yields everything after that prefix.
pub open spec fn spec_session_cookie(s: Seq<char>) -> Option<Seq<char>>
    decreases s.len(),
{
    let semi = spec_find_chars(s, ";"@);
    let part = if semi < 0 {
        s
    } else {
        s.take(semi)
    };
    let t = spec_trim(part);
    if spec_starts_with(t, "session_id="@) {
        Some(t.skip(11))
    } else if 0 <= semi && semi < s.len() {
        spec_session_cookie(s.skip(semi + 1))
    } else {
        None
    }
}

/// Pulls the session token out of a Cookie header line.
pub fn session_token_from_cookie(cookie_str: &str) -> (r: Option<String>)
    ensures
        match r {
            Some(token) => spec_session_cookie(cookie_str@) == Some(token@),
            None => spec_session_cookie(cookie_str@) is None,
        },
{
    let mut rest: &str = cookie_str;
    loop
        invariant
            spec_session_cookie(cookie_str@) == spec_session_cookie(rest@),
        decreases rest@.len(),
    {
        proof {
            reveal_strlit(";");
            reveal_strlit("session_id=");
        }
        let rlen = rest.unicode_len();
        let (part, next, has_next) = match find_chars(rest, ";") {
            None => (rest, rest, false),
            Some(p) => (rest.substring_char(0, p), rest.substring_char(p + 1, rlen), true),
        };
        proof {
            let semi = spec_find_chars(rest@, ";"@);
            if semi >= 0 {
                assert(part@ =~= rest@.take(semi));
                assert(next@ =~= rest@.skip(semi + 1));
            }
        }
        let t = trim_blanks(part);
        if str_starts_with(t, "session_id=") {
            let tlen = t.unicode_len();
            let token = t.substring_char(11, tlen);
            proof {
                assert(token@ =~= t@.skip(11));
            }
            return Some(String::from_str(token));
        }
        if !has_next {
            return None;
        }
        rest = next;
    }
}


pub open spec fn spec_is_hex_byte(b: u8) -> bool {
    (48 <= b && b <= 57) || (65 <= b && b <= 70) || (97 <= b && b <= 102)
}

/// Numeric value of a hexadecimal digit byte; unspecified input gives 0.
pub open spec fn spec_hex_byte_value(b: u8) -> int {
    if 48 <= b && b <= 57 {
        b - 48
    } else if 65 <= b && b <= 70 {
        b - 65 + 10
    } else if 97 <= b && b <= 102 {
        b - 97 + 10
    } else {
        0
    }
}

/// Percent-decoding over bytes, as form values need it: `%hh` becomes
/// the byte `hh`; a percent sign whose first following byte is not a
/// hex digit passes through alone; one whose second is not passes
/// through with that first digit; a percent sign within two bytes of the
/// end passes through with whatever follows it.
pub open spec fn spec_pct_decode_bytes(s: Seq<u8>) -> Seq<u8>
    decreases s.len(),
{
    if s.len() == 0 {
        Seq::empty()
    } else if s[0] != 37 {
        seq![s[0]] + spec_pct_decode_bytes(s.skip(1))
    } else if s.len() < 3 {
        s
    } else if !spec_is_hex_byte(s[1]) {
        seq![37u8] + spec_pct_decode_bytes(s.skip(1))
    } else if !spec_is_hex_byte(s[2]) {
        seq![37u8, s[1]] + spec_pct_decode_bytes(s.skip(2))
    } else {
        seq![(spec_hex_byte_value(s[1]) * 16 + spec_hex_byte_value(s[2])) as u8]
            + spec_pct_decode_bytes(s.skip(3))
    }
}

fn is_hex_byte(b: u8) -> (r: bool)
    ensures
        r == spec_is_hex_byte(b),
{
    (48 <= b && b <= 57) || (65 <= b && b <= 70) || (97 <= b && b <= 102)
}

fn hex_byte_value(b: u8) -> (r: u8)
    requires
        spec_is_hex_byte(b),
    ensures
        r == spec_hex_byte_value(b),
        r < 16,
{
    if 48 <= b && b <= 57 {
        b - 48
    } else if 65 <= b && b <= 70 {
        b - 65 + 10
    } else {
        b - 97 + 10
    }
}

/// Decodes percent-escapes over the bytes of a form value.
fn pct_decode_bytes(s: &Vec<u8>) -> (r: Vec<u8>)
    ensures
        r@ == spec_pct_decode_bytes(s@),
{
    let len = s.len();
    let mut out: Vec<u8> = Vec::new();
    let mut i: usize = 0;
    proof {
        assert(s@.skip(0) =~= s@);
        assert(out@ + s@.skip(0) =~= s@);
    }
    while i < len
        invariant
            len == s@.len(),
            0 <= i <= len,
            spec_pct_decode_bytes(s@) == out@ + spec_pct_decode_bytes(s@.skip(i as int)),
        decreases len - i,
    {
        let ghost t = s@.skip(i as int);
        proof {
            assert(t[0] == s@[i as int]);
        }
        let b = s[i];
        if b != 37 {
            proof {
                assert(t.skip(1) =~= s@.skip(i + 1));
                assert(out@ + (seq![t[0]] + spec_pct_decode_bytes(t.skip(1))) =~= out@.push(b)
                    + spec_pct_decode_bytes(s@.skip(i + 1)));
            }
            out.push(b);
            i = i + 1;
        } else if len - i < 3 {
            let ghost out0 = out@;
            let mut k = i;
            proof {
                assert(out0 + s@.subrange(i as int, i as int) =~= out0);
            }
            while k < len
                invariant
                    len == s@.len(),
                    i <= k <= len,
                    out@ == out0 + s@.subrange(i as int, k as int),
                decreases len - k,
            {
                proof {
                    assert(out0 + s@.subrange(i as int, k + 1) =~= (out0 + s@.subrange(
                        i as int,
                        k as int,
                    )).push(s@[k as int]));
                }
                out.push(s[k]);
                k = k + 1;
            }
            proof {
                assert(s@.subrange(i as int, len as int) =~= t);
                assert(spec_pct_decode_bytes(t) == t);
                assert(s@.skip(len as int) =~= Seq::<u8>::empty());
                assert(out@ + Seq::<u8>::empty() =~= out@);
            }
            i = len;
        } else {
            let h1 = s[i + 1];
            let h2 = s[i + 2];
            proof {
                assert(t[1] == s@[i + 1]);
                assert(t[2] == s@[i + 2]);
            }
            if !is_hex_byte(h1) {
                proof {
                    assert(t.skip(1) =~= s@.skip(i + 1));
                    assert(out@ + (seq![37u8] + spec_pct_decode_bytes(t.skip(1))) =~= out@.push(37)
                        + spec_pct_decode_bytes(s@.skip(i + 1)));
                }
                out.push(37);
                i = i + 1;
            } else if !is_hex_byte(h2) {
                proof {
                    assert(t.skip(2) =~= s@.skip(i + 2));
                    assert(out@ + (seq![37u8, t[1]] + spec_pct_decode_bytes(t.skip(2)))
                        =~= (out@.push(37)).push(h1) + spec_pct_decode_bytes(s@.skip(i + 2)));
                }
                out.push(37);
                out.push(h1);
                i = i + 2;
            } else {
                let v: u8 = hex_byte_value(h1) * 16 + hex_byte_value(h2);
                proof {
                    assert(t.skip(3) =~= s@.skip(i + 3));
                    assert(out@ + (seq![(spec_hex_byte_value(t[1]) * 16 + spec_hex_byte_value(
                        t[2],
                    )) as u8] + spec_pct_decode_bytes(t.skip(3))) =~= out@.push(v)
                        + spec_pct_decode_bytes(s@.skip(i + 3)));
                }
                out.push(v);
                i = i + 3;
            }
        }
    }
    proof {
        assert(s@.skip(len as int) =~= Seq::<u8>::empty());
        assert(out@ + Seq::<u8>::empty() =~= out@);
    }
    out
}

/// A form value as text: its percent-escapes resolved over the bytes,
/// which must then assemble to UTF-8; anything else is no value.
pub open spec fn spec_form_decoded(v: Seq<char>) -> Option<Seq<char>> {
    let db = spec_pct_decode_bytes(vstd::utf8::encode_utf8(v));
    if vstd::utf8::valid_utf8(db) {
        Some(vstd::utf8::decode_utf8(db))
    } else {
        None
    }
}

/// Decodes one form value to text.
fn decode_form_value(v: &str) -> (r: Option<String>)
    ensures
        match r {
            Some(t) => spec_form_decoded(v@) == Some(t@),
            None => spec_form_decoded(v@) is None,
        },
{
    let vb = v.as_bytes_vec();
    let db = pct_decode_bytes(&vb);
    match String::from_utf8(db) {
        Ok(t) => Some(t),
        Err(_) => None,
    }
}

/// The value of `key` in one `k=v` pair: the text between the first and
/// second equals sign, percent-decoded over its bytes and read as UTF-8,
/// when the key matches. A value that is not UTF-8 once decoded counts
/// as no value.
pub open spec fn spec_pair_value(pair: Seq<char>, key: Seq<char>) -> Option<Seq<char>> {
    let eq = spec_find_chars(pair, "="@);
    if eq < 0 {
        None
    } else if pair.take(eq) != key {
        None
    } else {
        let rest = pair.skip(eq + 1);
        let eq2 = spec_find_chars(rest, "="@);
        let v = if eq2 < 0 {
            rest
        } else {
            rest.take(eq2)
        };
        spec_form_decoded(v)
    }
}

/// The value of `key` among ampersand-separated pairs; when the key is
/// sent more than once the last occurrence wins.
pub open spec fn spec_form_field(s: Seq<char>, key: Seq<char>) -> Option<Seq<char>>
    decreases s.len(),
{
    let amp = spec_find_chars(s, "&"@);
    let pair = if amp < 0 {
        s
    } else {
        s.take(amp)
    };
    let this = spec_pair_value(pair, key);
    if 0 <= amp && amp < s.len() {
        match spec_form_field(s.skip(amp + 1), key) {
            Some(v) => Some(v),
            None => this,
        }
    } else {
        this
    }
}

fn pair_value(pair: &str, key: &str) -> (r: Option<String>)
    ensures
        match r {
            Some(v) => spec_pair_value(pair@, key@) == Some(v@),
            None => spec_pair_value(pair@, key@) is None,
        },
{
    proof {
        reveal_strlit("=");
    }
    let eq = match find_chars(pair, "=") {
        None => {
            return None;
        },
        Some(e) => e,
    };
    let k = pair.substring_char(0, eq);
    proof {
        assert(k@ =~= pair@.take(eq as int));
    }
    if !crate::strutil::str_eq(k, key) {
        return None;
    }
    let plen = pair.unicode_len();
    let rest = pair.substring_char(eq + 1, plen);
    proof {
        assert(rest@ =~= pair@.skip(eq + 1));
    }
    let v = match find_chars(rest, "=") {
        None => rest,
        Some(e2) => rest.substring_char(0, e2),
    };
    proof {
        assert(v@ =~= (if spec_find_chars(rest@, "="@) < 0 {
            rest@
        } else {
            rest@.take(spec_find_chars(rest@, "="@))
        }));
    }
    decode_form_value(v)
}

/// Looks a field up in a URL-encoded form body.
pub fn form_field(body: &str, key: &str) -> (r: Option<String>)
    ensures
        match r {
            Some(v) => spec_form_field(body@, key@) == Some(v@),
            None => spec_form_field(body@, key@) is None,
        },
{
    let mut rest: &str = body;
    let mut found: Option<String> = None;
    loop
        invariant
            spec_form_field(body@, key@) == (match spec_form_field(rest@, key@) {
                Some(v) => Some(v),
                None => match found {
                    Some(ref f) => Some(f@),
                    None => None,
                },
            }),
        decreases rest@.len(),
    {
        proof {
            reveal_strlit("&");
        }
        let rlen = rest.unicode_len();
        let (pair, next, has_next) = match find_chars(rest, "&") {
            None => (rest, rest, false),
            Some(p) => (rest.substring_char(0, p), rest.substring_char(p + 1, rlen), true),
        };
        proof {
            let amp = spec_find_chars(rest@, "&"@);
            if amp >= 0 {
                assert(pair@ =~= rest@.take(amp));
                assert(next@ =~= rest@.skip(amp + 1));
            }
        }
        let this = pair_value(pair, key);
        if this.is_some() {
            found = this;
        }
        if !has_next {
            return found;
        }
        rest = next;
    }
}

} // verus!
