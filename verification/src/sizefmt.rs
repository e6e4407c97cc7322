//! Human-readable rendering of byte counts, with one decimal place above
//! the byte range. The decimal is computed in integer tenths, rounding
//! half up.
use vstd::prelude::*;

use crate::strutil::{spec_decimal, push_decimal};

verus! {

/// `size` scaled by `unit`, in tenths, rounded half up.
pub open spec fn spec_tenths(size: int, unit: int) -> int {
    (size * 10 + unit / 2) / unit
}

/// One decimal place followed by a unit suffix, e.g. "1.5 KB".
pub open spec fn spec_scaled(size: int, unit: int, suffix: Seq<char>) -> Seq<char> {
    let t = spec_tenths(size, unit);
    spec_decimal(t / 10) + seq!['.'] + spec_decimal(t % 10) + seq![' '] + suffix
}

/// The rendering rule: bytes below 1 KiB exactly, then KB, MB and GB with
/// one decimal place.
pub open spec fn spec_format_file_size(size: int) -> Seq<char> {
    if size < 1024 {
        spec_decimal(size) + seq![' ', 'B']
    } else if size < 1048576 {
        spec_scaled(size, 1024, seq!['K', 'B'])
    } else if size < 1073741824 {
        spec_scaled(size, 1048576, seq!['M', 'B'])
    } else {
        spec_scaled(size, 1073741824, seq!['G', 'B'])
    }
}

fn push_scaled(out: &mut String, tenths: u64, u0: char, u1: char)
    ensures
        final(out)@ == old(out)@ + spec_decimal(tenths as int / 10) + seq!['.'] + spec_decimal(
            tenths as int % 10,
        ) + seq![' ', u0, u1],
{
    push_decimal(out, tenths / 10);
    out.push('.');
    push_decimal(out, tenths % 10);
    out.push(' ');
    out.push(u0);
    out.push(u1);
    proof {
        assert(final(out)@ =~= old(out)@ + spec_decimal(tenths as int / 10) + seq!['.']
            + spec_decimal(tenths as int % 10) + seq![' ', u0, u1]);
    }
}

/// Formats a byte count for display.
pub fn format_file_size(size: u64) -> (r: String)
    ensures
        r@ == spec_format_file_size(size as int),
{
    let mut out = String::new();
    if size < 1024 {
        push_decimal(&mut out, size);
        out.push(' ');
        out.push('B');
        proof {
            assert(out@ =~= spec_decimal(size as int) + seq![' ', 'B']);
        }
    } else if size < 1048576 {
        let t: u64 = (size * 10 + 512) / 1024;
        proof {
            assert(t == spec_tenths(size as int, 1024));
            assert(spec_scaled(size as int, 1024, seq!['K', 'B']) =~= Seq::<char>::empty()
                + spec_decimal(t as int / 10) + seq!['.'] + spec_decimal(t as int % 10) + seq![
                ' ',
                'K',
                'B',
            ]);
        }
        push_scaled(&mut out, t, 'K', 'B');
    } else if size < 1073741824 {
        let t: u64 = (size * 10 + 524288) / 1048576;
        proof {
            assert(t == spec_tenths(size as int, 1048576));
            assert(spec_scaled(size as int, 1048576, seq!['M', 'B']) =~= Seq::<char>::empty()
                + spec_decimal(t as int / 10) + seq!['.'] + spec_decimal(t as int % 10) + seq![
                ' ',
                'M',
                'B',
            ]);
        }
        push_scaled(&mut out, t, 'M', 'B');
    } else {
        let wide: u128 = ((size as u128) * 10 + 536870912) / 1073741824;
        proof {
            assert((size as u128) * 10 + 536870912 <= 0xFFFFFFFFFFFFFFFFu128 * 10 + 536870912);
            assert(wide <= 0xFFFFFFFFFFFFFFFFu128 * 10 / 1073741824 + 1);
        }
        let t: u64 = wide as u64;
        proof {
            assert(t == spec_tenths(size as int, 1073741824));
            assert(spec_scaled(size as int, 1073741824, seq!['G', 'B']) =~= Seq::<char>::empty()
                + spec_decimal(t as int / 10) + seq!['.'] + spec_decimal(t as int % 10) + seq![
                ' ',
                'G',
                'B',
            ]);
        }
        push_scaled(&mut out, t, 'G', 'B');
    }
    out
}

} // verus!
