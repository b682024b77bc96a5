//! Text in and out: numbers as decimal digits, and strings made of the
//! bytes of a token.

use vstd::prelude::*;

verus! {

/// `String::push`: `c` is appended to the string.
#[verifier::external_body]
pub(crate) fn push_char(s: &mut String, c: char)
    ensures
        final(s)@ == old(s)@.push(c),
{
    s.push(c)
}

/// The character of a byte: the one with the byte's number.
pub open spec fn char_of(b: u8) -> char {
    b as char
}

/// The characters of the bytes of `bytes`.
pub open spec fn chars_of(bytes: Seq<u8>) -> Seq<char> {
    Seq::new(bytes.len(), |i: int| char_of(bytes[i]))
}

/// The digit that stands for `d`.
pub open spec fn digit(d: nat) -> char {
    char_of((48 + d % 10) as u8)
}

/// `n` in decimal digits, without leading zeros.
pub open spec fn decimal(n: nat) -> Seq<char>
    decreases n,
{
    if n < 10 {
        seq![digit(n)]
    } else {
        decimal(n / 10).push(digit(n % 10))
    }
}

/// `n` in decimal digits.
pub fn decimal_string(n: u32) -> (r: String)
    ensures
        r@ == decimal(n as nat),
    decreases n,
{
    if n < 10 {
        let mut s = String::new();
        push_char(&mut s, (48u8 + n as u8) as char);
        proof {
            assert(s@ =~= seq![digit(n as nat)]);
        }
        s
    } else {
        let mut s = decimal_string(n / 10);
        push_char(&mut s, (48u8 + (n % 10) as u8) as char);
        s
    }
}

/// The string of the characters of `bytes[from..to]`.
pub fn string_of(bytes: &[u8], from: usize, to: usize) -> (r: String)
    requires
        from <= to <= bytes@.len(),
    ensures
        r@ == chars_of(bytes@.subrange(from as int, to as int)),
{
    let mut s = String::new();
    let mut i: usize = from;
    while i < to
        invariant
            from <= i <= to <= bytes@.len(),
            s@ == chars_of(bytes@.subrange(from as int, i as int)),
        decreases to - i,
    {
        push_char(&mut s, bytes[i] as char);
        proof {
            assert(s@ =~= chars_of(bytes@.subrange(from as int, i as int + 1)));
        }
        i += 1;
    }
    s
}

} // verus!
