//! Percent-decoding and encoding of URL path components.
//!
//! Decoding consumes `%hh` triples; a malformed triple is copied through
//! unchanged, and digits missing at the very end of the input are read as '0'.
use vstd::prelude::*;
use vstd::string::*;

use crate::strutil::{
    spec_is_hex_digit, spec_hex_value, spec_hex_digit, is_hex_digit, hex_value, hex_digit,
};

verus! {

/// Meaning of percent-decoding: each `%hh` becomes the character with code
/// `hh`; two characters are still consumed (as '0' where missing) when the
/// digits are not hexadecimal, and copied through after the '%'.
pub open spec fn spec_url_decode(s: Seq<char>) -> Seq<char>
    decreases s.len(),
{
    if s.len() == 0 {
        Seq::empty()
    } else if s[0] == '%' {
        let h1 = if s.len() >= 2 { s[1] } else { '0' };
        let h2 = if s.len() >= 3 { s[2] } else { '0' };
        let rest = if s.len() >= 3 { s.skip(3) } else { Seq::<char>::empty() };
        if spec_is_hex_digit(h1) && spec_is_hex_digit(h2) {
            seq![(spec_hex_value(h1) * 16 + spec_hex_value(h2)) as char] + spec_url_decode(rest)
        } else {
            seq!['%', h1, h2] + spec_url_decode(rest)
        }
    } else {
        seq![s[0]] + spec_url_decode(s.skip(1))
    }
}

/// Decodes percent-escapes in a path component.
pub fn url_decode(s: &str) -> (r: String)
    ensures
        r@ == spec_url_decode(s@),
{
    let len = s.unicode_len();
    let mut out = String::new();
    let mut i: usize = 0;
    proof {
        assert(s@.skip(0) =~= s@);
        assert(out@ + s@ =~= s@);
    }
    while i < len
        invariant
            len == s@.len(),
            0 <= i <= len,
            spec_url_decode(s@) == out@ + spec_url_decode(s@.skip(i as int)),
        decreases len - i,
    {
        let ghost t = s@.skip(i as int);
        proof {
            assert(t[0] == s@[i as int]);
        }
        let c = s.get_char(i);
        if c == '%' {
            let h1 = if len - i > 1 { s.get_char(i + 1) } else { '0' };
            let h2 = if len - i > 2 { s.get_char(i + 2) } else { '0' };
            proof {
                if t.len() >= 2 {
                    assert(t[1] == s@[i + 1]);
                }
                if t.len() >= 3 {
                    assert(t[2] == s@[i + 2]);
                    assert(t.skip(3) =~= s@.skip(i + 3));
                }
            }
            if is_hex_digit(h1) && is_hex_digit(h2) {
                let b: u8 = hex_value(h1) * 16 + hex_value(h2);
                proof {
                    let piece = seq![(spec_hex_value(h1) * 16 + spec_hex_value(h2)) as char];
                    assert(out@ + (piece + spec_url_decode(if t.len() >= 3 {
                        t.skip(3)
                    } else {
                        Seq::<char>::empty()
                    })) =~= out@.push(b as char) + spec_url_decode(if t.len() >= 3 {
                        t.skip(3)
                    } else {
                        Seq::<char>::empty()
                    }));
                }
                out.push(b as char);
            } else {
                proof {
                    let piece = seq!['%', h1, h2];
                    assert(out@ + (piece + spec_url_decode(if t.len() >= 3 {
                        t.skip(3)
                    } else {
                        Seq::<char>::empty()
                    })) =~= ((out@.push('%')).push(h1)).push(h2) + spec_url_decode(if t.len() >= 3 {
                        t.skip(3)
                    } else {
                        Seq::<char>::empty()
                    }));
                }
                out.push('%');
                out.push(h1);
                out.push(h2);
            }
            if len - i >= 3 {
                i = i + 3;
            } else {
                proof {
                    assert(s@.skip(len as int) =~= Seq::<char>::empty());
                }
                i = len;
            }
        } else {
            proof {
                assert(t.skip(1) =~= s@.skip(i + 1));
                assert(out@ + (seq![t[0]] + spec_url_decode(t.skip(1)))
                    =~= out@.push(c) + spec_url_decode(s@.skip(i + 1)));
            }
            out.push(c);
            i = i + 1;
        }
    }
    proof {
        assert(s@.skip(len as int) =~= Seq::<char>::empty());
        assert(out@ + Seq::<char>::empty() =~= out@);
    }
    out
}

pub open spec fn spec_is_ascii_alphanumeric(c: char) -> bool {
    ('0' <= c && c <= '9') || ('a' <= c && c <= 'z') || ('A' <= c && c <= 'Z')
}

/// Characters that pass through URL encoding unchanged.
pub open spec fn spec_unreserved(c: char) -> bool {
    spec_is_ascii_alphanumeric(c) || c == '-' || c == '_' || c == '.' || c == '~'
}

/// The expansion of one character under URL encoding. Characters outside
/// the unreserved set are written as '%' and two upper-case hex digits of
/// their code truncated to a byte.
pub open spec fn spec_encode_char(c: char) -> Seq<char> {
    if spec_unreserved(c) {
        seq![c]
    } else {
        let b = c as u8;
        seq!['%', spec_hex_digit(b as int / 16), spec_hex_digit(b as int % 16)]
    }
}

pub open spec fn spec_url_encode(s: Seq<char>) -> Seq<char>
    decreases s.len(),
{
    if s.len() == 0 {
        Seq::empty()
    } else {
        spec_encode_char(s[0]) + spec_url_encode(s.skip(1))
    }
}

/// Percent-encodes a name for use inside a URL path.
pub fn url_encode(s: &str) -> (r: String)
    ensures
        r@ == spec_url_encode(s@),
{
    let len = s.unicode_len();
    let mut out = String::new();
    let mut i: usize = 0;
    proof {
        assert(s@.skip(0) =~= s@);
        assert(out@ + s@ =~= s@);
    }
    while i < len
        invariant
            len == s@.len(),
            0 <= i <= len,
            spec_url_encode(s@) == out@ + spec_url_encode(s@.skip(i as int)),
        decreases len - i,
    {
        let ghost t = s@.skip(i as int);
        proof {
            assert(t[0] == s@[i as int]);
            assert(t.skip(1) =~= s@.skip(i + 1));
        }
        let c = s.get_char(i);
        let unreserved = (('0' <= c && c <= '9') || ('a' <= c && c <= 'z') || ('A' <= c && c
            <= 'Z')) || c == '-' || c == '_' || c == '.' || c == '~';
        if unreserved {
            proof {
                assert(out@ + (seq![c] + spec_url_encode(t.skip(1)))
                    =~= out@.push(c) + spec_url_encode(t.skip(1)));
            }
            out.push(c);
        } else {
            let b: u8 = #[verifier::truncate] (c as u8);
            let hi = hex_digit(b / 16);
            let lo = hex_digit(b % 16);
            proof {
                assert(out@ + (spec_encode_char(c) + spec_url_encode(t.skip(1)))
                    =~= ((out@.push('%')).push(hi)).push(lo) + spec_url_encode(t.skip(1)));
            }
            out.push('%');
            out.push(hi);
            out.push(lo);
        }
        i = i + 1;
    }
    proof {
        assert(s@.skip(len as int) =~= Seq::<char>::empty());
        assert(out@ + Seq::<char>::empty() =~= out@);
    }
    out
}

} // verus!
