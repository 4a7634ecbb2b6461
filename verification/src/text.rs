//! Numbers and addresses as text.

use crate::address::IpAddr;
use vstd::prelude::*;
use vstd::string::StringExecFns;

verus! {

/// The character for the digit `d`, below sixteen: `0` to `9`, then `a` to
/// `f`.
pub open spec fn digit_char(d: nat) -> char {
    if d == 0 {
        '0'
    } else if d == 1 {
        '1'
    } else if d == 2 {
        '2'
    } else if d == 3 {
        '3'
    } else if d == 4 {
        '4'
    } else if d == 5 {
        '5'
    } else if d == 6 {
        '6'
    } else if d == 7 {
        '7'
    } else if d == 8 {
        '8'
    } else if d == 9 {
        '9'
    } else if d == 10 {
        'a'
    } else if d == 11 {
        'b'
    } else if d == 12 {
        'c'
    } else if d == 13 {
        'd'
    } else if d == 14 {
        'e'
    } else {
        'f'
    }
}

/// The decimal digits of `n`, most significant first and without leading
/// zeros; zero is `0`.
pub open spec fn decimal(n: nat) -> Seq<char>
    decreases n,
{
    if n < 10 {
        seq![digit_char(n)]
    } else {
        decimal(n / 10).push(digit_char(n % 10))
    }
}

/// The hexadecimal digits of `n`, most significant first, in lower case and
/// without leading zeros; zero is `0`.
pub open spec fn hexadecimal(n: nat) -> Seq<char>
    decreases n,
{
    if n < 16 {
        seq![digit_char(n)]
    } else {
        hexadecimal(n / 16).push(digit_char(n % 16))
    }
}

/// The part of an IPv4 address at place `i`, counted from the left.
pub open spec fn octet(bits: u32, i: int) -> nat {
    ((bits >> ((24 - 8 * i) as u32)) & 0xff) as nat
}

/// The group of an IPv6 address at place `i`, counted from the left.
pub open spec fn group(bits: u128, i: int) -> nat {
    ((bits >> ((112 - 16 * i) as u128)) & 0xffff) as nat
}

/// The first `k` groups of an IPv6 address, in hexadecimal and with a colon
/// between each two.
pub open spec fn groups_text(bits: u128, k: int) -> Seq<char>
    decreases k,
{
    if k <= 0 {
        Seq::empty()
    } else if k == 1 {
        hexadecimal(group(bits, 0))
    } else {
        groups_text(bits, k - 1) + seq![':'] + hexadecimal(group(bits, k - 1))
    }
}

/// An address as text: an IPv4 address as its four parts in decimal with dots
/// between them, an IPv6 address as its eight groups in hexadecimal with
/// colons between them, in square brackets.
///
/// The text is made to be read back as one address with one port. So an IPv6
/// address stands in brackets, without which the colon before the port could
/// not be told from those of the address, and every group is written out,
/// which gives each address one text.
pub open spec fn ip_text(ip: IpAddr) -> Seq<char> {
    match ip {
        IpAddr::V4(bits) => decimal(octet(bits, 0)) + seq!['.'] + decimal(octet(bits, 1)) + seq![
            '.',
        ] + decimal(octet(bits, 2)) + seq!['.'] + decimal(octet(bits, 3)),
        IpAddr::V6(bits) => seq!['['] + groups_text(bits, 8) + seq![']'],
    }
}

/// An address and a port as text: the address, a colon, the port in decimal.
pub open spec fn address_text(ip: IpAddr, port: u16) -> Seq<char> {
    ip_text(ip) + seq![':'] + decimal(port as nat)
}

/// The parts of the IPv4 address `a.b.c.d` are `a`, `b`, `c` and `d`.
pub proof fn lemma_octets(a: u8, b: u8, c: u8, d: u8)
    ensures
        IpAddr::spec_from_octets(a, b, c, d) matches IpAddr::V4(bits) && octet(bits, 0) == a
            && octet(bits, 1) == b && octet(bits, 2) == c && octet(bits, 3) == d,
{
    let bits = ((a as u32) << 24) | ((b as u32) << 16) | ((c as u32) << 8) | (d as u32);
    assert(((bits >> 24u32) & 0xff) == a as u32 && ((bits >> 16u32) & 0xff) == b as u32 && ((bits
        >> 8u32) & 0xff) == c as u32 && ((bits >> 0u32) & 0xff) == d as u32) by (bit_vector)
        requires
            bits == ((a as u32) << 24) | ((b as u32) << 16) | ((c as u32) << 8) | (d as u32),
    ;
}

/// The text of one digit.
fn digit_str(d: u32) -> (text: &'static str)
    requires
        d < 16,
    ensures
        text@ == seq![digit_char(d as nat)],
{
    proof {
        reveal_strlit("0");
        reveal_strlit("1");
        reveal_strlit("2");
        reveal_strlit("3");
        reveal_strlit("4");
        reveal_strlit("5");
        reveal_strlit("6");
        reveal_strlit("7");
        reveal_strlit("8");
        reveal_strlit("9");
        reveal_strlit("a");
        reveal_strlit("b");
        reveal_strlit("c");
        reveal_strlit("d");
        reveal_strlit("e");
        reveal_strlit("f");
    }
    let text = if d == 0 {
        "0"
    } else if d == 1 {
        "1"
    } else if d == 2 {
        "2"
    } else if d == 3 {
        "3"
    } else if d == 4 {
        "4"
    } else if d == 5 {
        "5"
    } else if d == 6 {
        "6"
    } else if d == 7 {
        "7"
    } else if d == 8 {
        "8"
    } else if d == 9 {
        "9"
    } else if d == 10 {
        "a"
    } else if d == 11 {
        "b"
    } else if d == 12 {
        "c"
    } else if d == 13 {
        "d"
    } else if d == 14 {
        "e"
    } else {
        "f"
    };
    text
}

/// Appends the decimal digits of `n` to `out`.
fn push_decimal(out: &mut String, n: u32)
    ensures
        final(out)@ == old(out)@ + decimal(n as nat),
    decreases n,
{
    if n >= 10 {
        push_decimal(out, n / 10);
    }
    out.append(digit_str(n % 10));
}

/// Appends the hexadecimal digits of `n` to `out`.
fn push_hexadecimal(out: &mut String, n: u32)
    ensures
        final(out)@ == old(out)@ + hexadecimal(n as nat),
    decreases n,
{
    if n >= 16 {
        push_hexadecimal(out, n / 16);
    }
    out.append(digit_str(n % 16));
}

/// Appends a one-character text to `out`.
fn push_mark(out: &mut String, mark: &'static str, c: char)
    requires
        mark@.len() == 1,
        mark@[0] == c,
    ensures
        final(out)@ == old(out)@.push(c),
{
    out.append(mark);
}

/// Writes an address and a port as text.
pub fn format_address(ip: IpAddr, port: u16) -> (text: String)
    ensures
        text@ == address_text(ip, port),
{
    let mut out = String::new();
    match ip {
        IpAddr::V4(bits) => {
            let mut i: u32 = 0;
            while i < 4
                invariant
                    i <= 4,
                    i == 0 ==> out@ == Seq::<char>::empty(),
                    i == 1 ==> out@ == decimal(octet(bits, 0)),
                    i == 2 ==> out@ == decimal(octet(bits, 0)) + seq!['.'] + decimal(
                        octet(bits, 1),
                    ),
                    i == 3 ==> out@ == decimal(octet(bits, 0)) + seq!['.'] + decimal(
                        octet(bits, 1),
                    ) + seq!['.'] + decimal(octet(bits, 2)),
                    i == 4 ==> out@ == ip_text(ip),
                    ip == IpAddr::V4(bits),
                decreases 4 - i,
            {
                if i > 0 {
                    proof {
                        reveal_strlit(".");
                    }
                    push_mark(&mut out, ".", '.');
                }
                let part = (bits >> (24 - 8 * i)) & 0xff;
                push_decimal(&mut out, part);
                i += 1;
            }
        },
        IpAddr::V6(bits) => {
            proof {
                reveal_strlit("[");
                reveal_strlit("]");
            }
            push_mark(&mut out, "[", '[');
            let mut i: u32 = 0;
            while i < 8
                invariant
                    i <= 8,
                    out@ == seq!['['] + groups_text(bits, i as int),
                decreases 8 - i,
            {
                if i > 0 {
                    proof {
                        reveal_strlit(":");
                    }
                    push_mark(&mut out, ":", ':');
                }
                let shift = (112 - 16 * i) as u128;
                let wide = (bits >> shift) & 0xffff;
                assert(wide <= 0xffff) by (bit_vector)
                    requires
                        wide == (bits >> shift) & 0xffff,
                ;
                let part = wide as u32;
                push_hexadecimal(&mut out, part);
                i += 1;
            }
            push_mark(&mut out, "]", ']');
        },
    }
    proof {
        reveal_strlit(":");
    }
    push_mark(&mut out, ":", ':');
    push_decimal(&mut out, port as u32);
    out
}

} // verus!
