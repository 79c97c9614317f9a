//! Text: numbers and byte strings written out in digits.

use vstd::prelude::*;

verus! {

/// The character of a digit, in lower case: `0` to `9`, then `a` to `f`.
pub open spec fn digit(d: nat) -> char {
    if d < 10 {
        (48 + d) as char
    } else {
        (87 + d) as char
    }
}

/// `n` in decimal, without leading zeros.
pub open spec fn decimal(n: nat) -> Seq<char>
    decreases n,
{
    if n < 10 {
        seq![digit(n)]
    } else {
        decimal(n / 10).push(digit(n % 10))
    }
}

/// The `width` low hexadecimal digits of `n`.
pub open spec fn hex_padded(n: nat, width: nat) -> Seq<char>
    decreases width,
{
    if width == 0 {
        Seq::empty()
    } else {
        hex_padded(n / 16, (width - 1) as nat).push(digit(n % 16))
    }
}

/// The bytes as two hexadecimal digits each, with one blank between bytes.
pub open spec fn hex_bytes(s: Seq<u8>) -> Seq<char>
    decreases s.len(),
{
    if s.len() == 0 {
        Seq::empty()
    } else if s.len() == 1 {
        hex_padded(s[0] as nat, 2)
    } else {
        hex_bytes(s.drop_last()).push(' ') + hex_padded(s.last() as nat, 2)
    }
}

/// The bytes in decimal with a comma and a blank between bytes.
pub open spec fn decimal_bytes(s: Seq<u8>) -> Seq<char>
    decreases s.len(),
{
    if s.len() == 0 {
        Seq::empty()
    } else if s.len() == 1 {
        decimal(s[0] as nat)
    } else {
        decimal_bytes(s.drop_last()) + seq![',', ' '] + decimal(s.last() as nat)
    }
}

/// A number of more digits is written as the digits before its last, and that one;
/// a digit is written as itself.
pub proof fn decimal_appends_digit(n: nat, d: nat)
    requires
        d < 10,
    ensures
        decimal(d) == seq![(48 + d) as char],
        n > 0 ==> decimal(10 * n + d) == decimal(n).push((48 + d) as char),
{
    assert((10 * n + d) / 10 == n);
    assert((10 * n + d) % 10 == d);
}

/// Hexadecimal digits are written from the highest of the width to the lowest, as
/// `0` to `9` and `a` to `f`.
pub proof fn hex_appends_digit(n: nat, d: nat, width: nat)
    requires
        d < 16,
    ensures
        hex_padded(n, 0) == Seq::<char>::empty(),
        hex_padded(16 * n + d, width + 1) == hex_padded(n, width).push(
            if d < 10 {
                (48 + d) as char
            } else {
                (87 + d) as char
            },
        ),
        hex_padded(n, width).len() == width,
    decreases width,
{
    assert((16 * n + d) / 16 == n);
    assert((16 * n + d) % 16 == d);
    if width > 0 {
        hex_appends_digit(n / 16, 0, (width - 1) as nat);
    }
}

/// One more byte is written behind a blank, unless it is the first, in hexadecimal
/// with two digits, and behind a comma and a blank in decimal.
pub proof fn bytes_append_byte(s: Seq<u8>, b: u8)
    ensures
        hex_bytes(Seq::empty()) == Seq::<char>::empty(),
        hex_bytes(seq![b]) == hex_padded(b as nat, 2),
        s.len() > 0 ==> hex_bytes(s.push(b)) == hex_bytes(s) + seq![' '] + hex_padded(b as nat, 2),
        decimal_bytes(Seq::empty()) == Seq::<char>::empty(),
        decimal_bytes(seq![b]) == decimal(b as nat),
        s.len() > 0 ==> decimal_bytes(s.push(b)) == decimal_bytes(s) + seq![',', ' '] + decimal(
            b as nat,
        ),
{
    assert(s.push(b).drop_last() =~= s);
    if s.len() > 0 {
        assert(hex_bytes(s.push(b)) =~= hex_bytes(s) + seq![' '] + hex_padded(b as nat, 2));
    }
}

/// Append one digit.
fn push_digit(out: &mut String, d: u8)
    requires
        d < 16,
    ensures
        final(out)@ == old(out)@.push(digit(d as nat)),
{
    proof {
        reveal_strlit("0");
        reveal_strlit("1");
        reveal_strlit("2");
        reveal_strlit("3");
        reveal_strlit("4");
        reveal_strlit("5");
        reveal_strlit("6");
        reveal_strlit("7");
        reveal_strlit("8");
        reveal_strlit("9");
        reveal_strlit("a");
        reveal_strlit("b");
        reveal_strlit("c");
        reveal_strlit("d");
        reveal_strlit("e");
        reveal_strlit("f");
    }
    let text = match d {
        0 => "0",
        1 => "1",
        2 => "2",
        3 => "3",
        4 => "4",
        5 => "5",
        6 => "6",
        7 => "7",
        8 => "8",
        9 => "9",
        10 => "a",
        11 => "b",
        12 => "c",
        13 => "d",
        14 => "e",
        _ => "f",
    };
    out.append(text);
    assert(out@ =~= old(out)@.push(digit(d as nat)));
}

/// Append `n` in decimal.
pub fn push_decimal(out: &mut String, n: u64)
    ensures
        final(out)@ == old(out)@ + decimal(n as nat),
    decreases n,
{
    if n >= 10 {
        push_decimal(out, n / 10);
    }
    push_digit(out, (n % 10) as u8);
    assert(out@ =~= old(out)@ + decimal(n as nat));
}

/// Append the `width` low hexadecimal digits of `n`.
pub fn push_hex_padded(out: &mut String, n: u64, width: usize)
    ensures
        final(out)@ == old(out)@ + hex_padded(n as nat, width as nat),
    decreases width,
{
    if width > 0 {
        push_hex_padded(out, n / 16, width - 1);
        push_digit(out, (n % 16) as u8);
    }
    assert(out@ =~= old(out)@ + hex_padded(n as nat, width as nat));
}

/// The bytes as two hexadecimal digits each, with one blank between bytes.
pub fn hex(bytes: &[u8]) -> (r: String)
    ensures
        r@ == hex_bytes(bytes@),
{
    let mut r = String::new();
    let mut i: usize = 0;
    proof {
        reveal_strlit(" ");
        assert(bytes@.take(0) =~= Seq::<u8>::empty());
    }
    while i < bytes.len()
        invariant
            i <= bytes@.len(),
            r@ == hex_bytes(bytes@.take(i as int)),
            " "@ == seq![' '],
        decreases bytes@.len() - i,
    {
        let ghost before = r@;
        if i > 0 {
            r.append(" ");
            assert(r@ =~= before.push(' '));
        }
        push_hex_padded(&mut r, bytes[i] as u64, 2);
        let ghost whole = bytes@.take(i + 1);
        assert(whole.drop_last() =~= bytes@.take(i as int));
        assert(whole.last() == bytes@[i as int]);
        assert(r@ =~= hex_bytes(whole));
        i = i + 1;
    }
    assert(bytes@.take(i as int) =~= bytes@);
    r
}

/// Append the bytes in decimal with a comma and a blank between bytes.
pub fn push_decimal_bytes(out: &mut String, bytes: &[u8])
    ensures
        final(out)@ == old(out)@ + decimal_bytes(bytes@),
{
    let mut i: usize = 0;
    let ghost start = out@;
    proof {
        reveal_strlit(", ");
        assert(", "@ =~= seq![',', ' ']);
        assert(bytes@.take(0) =~= Seq::<u8>::empty());
        assert(out@ =~= start + decimal_bytes(bytes@.take(0)));
    }
    while i < bytes.len()
        invariant
            i <= bytes@.len(),
            out@ == start + decimal_bytes(bytes@.take(i as int)),
            ", "@ == seq![',', ' '],
        decreases bytes@.len() - i,
    {
        if i > 0 {
            out.append(", ");
        }
        push_decimal(out, bytes[i] as u64);
        let ghost whole = bytes@.take(i + 1);
        assert(whole.drop_last() =~= bytes@.take(i as int));
        assert(whole.last() == bytes@[i as int]);
        assert(out@ =~= start + decimal_bytes(whole));
        i = i + 1;
    }
    assert(bytes@.take(i as int) =~= bytes@);
}

} // verus!
