//! Decimal rendering of counts, verified against `dec_str`.
use vstd::prelude::*;
use crate::strutil::push_char;

verus! {

/// The character for one decimal digit.
pub open spec fn digit_char(d: u8) -> char {
    ((d + 0x30) as u8) as char
}

/// The decimal representation of `n`, most significant digit first.
pub open spec fn dec_str(n: nat) -> Seq<char>
    decreases n,
{
    if n < 10 {
        seq![digit_char((n % 10) as u8)]
    } else {
        dec_str(n / 10) + seq![digit_char((n % 10) as u8)]
    }
}

/// Append the decimal representation of `n` to `out`.
pub fn append_dec(out: &mut String, n: u64)
    ensures
        final(out)@ == old(out)@ + dec_str(n as nat),
    decreases n,
{
    if n >= 10 {
        append_dec(out, n / 10);
    }
    let d: u8 = (n % 10) as u8;
    push_char(out, (d + 0x30) as char);
    proof {
        if n < 10 {
            assert(old(out)@ + dec_str(n as nat) =~= old(out)@.push(digit_char((n as nat % 10) as u8)));
        } else {
            assert(old(out)@ + dec_str(n as nat) =~= (old(out)@ + dec_str(n as nat / 10)).push(
                digit_char((n as nat % 10) as u8),
            ));
        }
    }
}

} // verus!
