//! Diagnostic text: the decimal rendering of integers, as the standard
//! library's `Display` prints them, and appending text to a `String`.

use vstd::prelude::*;

verus! {

/// The character of a decimal digit.
pub open spec fn digit_char(d: nat) -> char {
    (d + 48) as char
}

/// Decimal digits of a natural number, most significant first, without
/// leading zeros.
pub open spec fn decimal(n: nat) -> Seq<char>
    decreases n,
{
    if n < 10 {
        seq![digit_char(n)]
    } else {
        decimal(n / 10).push(digit_char(n % 10))
    }
}

/// `String::push_str`: the text grows by the piece.
#[verifier::external_body]
pub(crate) fn push_text(out: &mut String, piece: &str)
    ensures
        final(out)@ == old(out)@ + piece@,
{
    out.push_str(piece);
}

/// `String::push`: the text grows by one character.
#[verifier::external_body]
pub(crate) fn push_char(out: &mut String, c: char)
    ensures
        final(out)@ == old(out)@.push(c),
{
    out.push(c);
}

fn digit(d: u64) -> (c: char)
    requires
        d < 10,
    ensures
        c == digit_char(d as nat),
{
    match d {
        0 => '0',
        1 => '1',
        2 => '2',
        3 => '3',
        4 => '4',
        5 => '5',
        6 => '6',
        7 => '7',
        8 => '8',
        _ => '9',
    }
}

/// Appends the decimal digits of `n`.
pub(crate) fn push_decimal(out: &mut String, n: u64)
    ensures
        final(out)@ == old(out)@ + decimal(n as nat),
    decreases n,
{
    if n >= 10 {
        push_decimal(out, n / 10);
    }
    let ghost middle = out@;
    push_char(out, digit(n % 10));
    proof {
        if n >= 10 {
            assert(out@ =~= old(out)@ + decimal(n as nat));
        } else {
            assert(out@ =~= old(out)@ + decimal(n as nat));
        }
    }
}

/// The lowercase character of a hexadecimal digit.
pub open spec fn hex_char(d: nat) -> char {
    if d < 10 {
        (d + 48) as char
    } else {
        (d + 87) as char
    }
}

/// The lowest `count` hexadecimal digits of `n`, most significant first,
/// zero-padded.
pub open spec fn hex_fixed(n: nat, count: nat) -> Seq<char>
    decreases count,
{
    if count == 0 {
        Seq::empty()
    } else {
        hex_fixed(n / 16, (count - 1) as nat).push(hex_char(n % 16))
    }
}

fn hex_digit(d: u64) -> (c: char)
    requires
        d < 16,
    ensures
        c == hex_char(d as nat),
{
    match d {
        0 => '0',
        1 => '1',
        2 => '2',
        3 => '3',
        4 => '4',
        5 => '5',
        6 => '6',
        7 => '7',
        8 => '8',
        9 => '9',
        10 => 'a',
        11 => 'b',
        12 => 'c',
        13 => 'd',
        14 => 'e',
        _ => 'f',
    }
}

/// Appends the lowest `count` hexadecimal digits of `n`, zero-padded.
pub(crate) fn push_hex_fixed(out: &mut String, n: u64, count: u64)
    ensures
        final(out)@ == old(out)@ + hex_fixed(n as nat, count as nat),
    decreases count,
{
    if count > 0 {
        push_hex_fixed(out, n / 16, count - 1);
        push_char(out, hex_digit(n % 16));
        proof {
            assert(out@ =~= old(out)@ + hex_fixed(n as nat, count as nat));
        }
    } else {
        proof {
            assert(out@ =~= old(out)@ + hex_fixed(n as nat, count as nat));
        }
    }
}

/// The `Debug` rendering of a byte list's entries, separated by `", "`.
pub open spec fn byte_list(bytes: Seq<u8>) -> Seq<char>
    decreases bytes.len(),
{
    if bytes.len() == 0 {
        Seq::empty()
    } else if bytes.len() == 1 {
        decimal(bytes[0] as nat)
    } else {
        byte_list(bytes.drop_last()) + ", "@ + decimal(bytes.last() as nat)
    }
}

/// Appends the `Debug` rendering of a byte array: its entries in decimal
/// between square brackets.
pub(crate) fn push_byte_list(out: &mut String, bytes: &[u8])
    ensures
        final(out)@ == old(out)@ + "["@ + byte_list(bytes@) + "]"@,
{
    push_text(out, "[");
    let ghost start = out@;
    let mut index: usize = 0;
    while index < bytes.len()
        invariant
            index <= bytes@.len(),
            out@ == start + byte_list(bytes@.take(index as int)),
        decreases bytes@.len() - index,
    {
        if index > 0 {
            push_text(out, ", ");
        }
        push_decimal(out, bytes[index] as u64);
        proof {
            let next = bytes@.take(index + 1);
            assert(next.drop_last() =~= bytes@.take(index as int));
            assert(next.last() == bytes@[index as int]);
            if index == 0 {
                assert(bytes@.take(0) =~= Seq::<u8>::empty());
            }
            assert(out@ =~= start + byte_list(next));
        }
        index = index + 1;
    }
    push_text(out, "]");
    proof {
        assert(bytes@.take(bytes@.len() as int) =~= bytes@);
        assert(out@ =~= old(out)@ + "["@ + byte_list(bytes@) + "]"@);
    }
}

/// Appends the `Debug` rendering of an eight-byte array.
pub(crate) fn push_bytes8(out: &mut String, bytes: [u8; 8])
    ensures
        final(out)@ == old(out)@ + "["@ + byte_list(bytes@) + "]"@,
{
    push_byte_list(out, bytes.as_slice());
}

/// Appends the decimal digits of a 128-bit integer.
pub(crate) fn push_decimal128(out: &mut String, n: u128)
    ensures
        final(out)@ == old(out)@ + decimal(n as nat),
    decreases n,
{
    if n >= 10 {
        push_decimal128(out, n / 10);
    }
    push_char(out, digit((n % 10) as u64));
    proof {
        assert(out@ =~= old(out)@ + decimal(n as nat));
    }
}

} // verus!
