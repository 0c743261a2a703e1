//! The text form of keys and values, as it is shown where a table is
//! written out for reading: text as it is, an integer in decimal, and bytes
//! as a list of hexadecimal numbers such as `[1, ff, a]`.

use crate::cbor::{CborWrite, Scalar};
use vstd::prelude::*;
use vstd::string::StringExecFns;

verus! {

/// The decimal digit for `d`, which is below ten.
pub open spec fn digit(d: nat) -> Seq<char> {
    if d == 0 {
        "0"@
    } else if d == 1 {
        "1"@
    } else if d == 2 {
        "2"@
    } else if d == 3 {
        "3"@
    } else if d == 4 {
        "4"@
    } else if d == 5 {
        "5"@
    } else if d == 6 {
        "6"@
    } else if d == 7 {
        "7"@
    } else if d == 8 {
        "8"@
    } else {
        "9"@
    }
}

/// The hexadecimal digit for `d`, which is below sixteen, in lower case.
pub open spec fn hex_digit(d: nat) -> Seq<char> {
    if d < 10 {
        digit(d)
    } else if d == 10 {
        "a"@
    } else if d == 11 {
        "b"@
    } else if d == 12 {
        "c"@
    } else if d == 13 {
        "d"@
    } else if d == 14 {
        "e"@
    } else {
        "f"@
    }
}

/// The number `n` in decimal, without leading zeros.
pub open spec fn decimal(n: nat) -> Seq<char>
    decreases n,
{
    if n < 10 {
        digit(n)
    } else {
        decimal(n / 10) + digit(n % 10)
    }
}

/// The byte `b` in hexadecimal, without a leading zero.
pub open spec fn hex(b: u8) -> Seq<char> {
    if b < 16 {
        hex_digit(b as nat)
    } else {
        hex_digit(b as nat / 16) + hex_digit(b as nat % 16)
    }
}

/// The bytes in hexadecimal, separated by a comma and a space.
pub open spec fn hex_items(bytes: Seq<u8>) -> Seq<char>
    decreases bytes.len(),
{
    if bytes.len() == 0 {
        Seq::empty()
    } else if bytes.len() == 1 {
        hex(bytes[0])
    } else {
        hex_items(bytes.drop_last()) + ", "@ + hex(bytes.last())
    }
}

/// The bytes as a list in square brackets.
pub open spec fn hex_list(bytes: Seq<u8>) -> Seq<char> {
    "["@ + hex_items(bytes) + "]"@
}

/// The text form of a value.
pub open spec fn text_of(s: Scalar) -> Seq<char> {
    match s {
        Scalar::U64(v) => decimal(v as nat),
        Scalar::Bytes(b) => hex_list(b),
        Scalar::Text(t) => t,
    }
}

/// The text of one hexadecimal digit.
fn hex_digit_str(d: u8) -> (r: &'static str)
    requires
        d < 16,
    ensures
        r@ == hex_digit(d as nat),
{
    if d == 0 {
        "0"
    } else if d == 1 {
        "1"
    } else if d == 2 {
        "2"
    } else if d == 3 {
        "3"
    } else if d == 4 {
        "4"
    } else if d == 5 {
        "5"
    } else if d == 6 {
        "6"
    } else if d == 7 {
        "7"
    } else if d == 8 {
        "8"
    } else if d == 9 {
        "9"
    } else if d == 10 {
        "a"
    } else if d == 11 {
        "b"
    } else if d == 12 {
        "c"
    } else if d == 13 {
        "d"
    } else if d == 14 {
        "e"
    } else {
        "f"
    }
}

/// Appends `n` in decimal to `out`.
pub fn push_decimal(out: &mut String, n: u64)
    ensures
        final(out)@ == old(out)@ + decimal(n as nat),
    decreases n,
{
    if n >= 10 {
        push_decimal(out, n / 10);
    }
    out.append(hex_digit_str((n % 10) as u8));
    assert(out@ =~= old(out)@ + decimal(n as nat));
}

/// Appends the byte `b` in hexadecimal to `out`.
pub fn push_hex(out: &mut String, b: u8)
    ensures
        final(out)@ == old(out)@ + hex(b),
{
    if b >= 16 {
        out.append(hex_digit_str(b / 16));
    }
    out.append(hex_digit_str(b % 16));
    assert(out@ =~= old(out)@ + hex(b));
}

/// Appends the bytes as a list in square brackets to `out`.
pub fn push_hex_list(out: &mut String, bytes: &[u8])
    ensures
        final(out)@ == old(out)@ + hex_list(bytes@),
{
    out.append("[");
    let mut i: usize = 0;
    while i < bytes.len()
        invariant
            i <= bytes@.len(),
            out@ == old(out)@ + "["@ + hex_items(bytes@.take(i as int)),
        decreases bytes@.len() - i,
    {
        let ghost done = bytes@.take(i as int);
        let ghost next = bytes@.take(i + 1);
        assert(next.drop_last() =~= done);
        if i > 0 {
            out.append(", ");
        }
        push_hex(out, bytes[i]);
        assert(out@ =~= old(out)@ + "["@ + hex_items(next));
        i += 1;
    }
    assert(bytes@.take(i as int) =~= bytes@);
    out.append("]");
    assert(out@ =~= old(out)@ + hex_list(bytes@));
}

/// A value that has a text form.
pub trait ToText: CborWrite {
    /// The text form of the value.
    fn to_text(&self) -> (r: String)
        ensures
            r@ == text_of(self.scalar()),
    ;
}

impl ToText for u64 {
    fn to_text(&self) -> (r: String) {
        let mut r: String = String::new();
        push_decimal(&mut r, *self);
        assert(r@ =~= decimal(*self as nat));
        r
    }
}

impl ToText for String {
    fn to_text(&self) -> (r: String) {
        self.clone()
    }
}

impl ToText for &str {
    fn to_text(&self) -> (r: String) {
        String::from_str(self)
    }
}

impl ToText for Vec<u8> {
    fn to_text(&self) -> (r: String) {
        let mut r: String = String::new();
        push_hex_list(&mut r, self.as_slice());
        assert(r@ =~= hex_list(self@));
        r
    }
}

impl ToText for &[u8] {
    fn to_text(&self) -> (r: String) {
        let mut r: String = String::new();
        push_hex_list(&mut r, self);
        assert(r@ =~= hex_list(self@));
        r
    }
}

impl<const N: usize> ToText for &[u8; N] {
    fn to_text(&self) -> (r: String) {
        let mut r: String = String::new();
        push_hex_list(&mut r, self.as_slice());
        assert(r@ =~= hex_list(self@));
        r
    }
}

} // verus!
