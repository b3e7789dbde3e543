//! A 32-bit address as four octets, and the ways to write it down.

use vstd::prelude::*;
use vstd::string::*;
use crate::decimal::{decimal_text, push_decimal};

verus! {

/// Reduces an integer to 32 bits, as unsigned machine arithmetic does.
pub open spec fn wrap32(v: int) -> u32 {
    (v % 0x1_0000_0000) as u32
}

/// Packs four octets into an address, the first into the most significant byte.
pub open spec fn pack_octets(a0: u32, a1: u32, a2: u32, a3: u32) -> u32 {
    a0 << 24 | a1 << 16 | a2 << 8 | a3
}

/// The octet of `address` at `index`, counted from the most significant byte.
pub open spec fn octet_at(address: u32, index: int) -> u32 {
    if index == 0 {
        address >> 24 & 0xff
    } else if index == 1 {
        address >> 16 & 0xff
    } else if index == 2 {
        address >> 8 & 0xff
    } else {
        address & 0xff
    }
}

/// Dotted-decimal notation: the four octets in decimal, most significant first.
pub open spec fn dotted_text(address: u32) -> Seq<char> {
    decimal_text(octet_at(address, 0) as nat) + seq!['.'] + decimal_text(
        octet_at(address, 1) as nat,
    ) + seq!['.'] + decimal_text(octet_at(address, 2) as nat) + seq!['.'] + decimal_text(
        octet_at(address, 3) as nat,
    )
}

/// The character of one bit.
pub open spec fn bit_char(bit: u32) -> char {
    if bit == 0 {
        '0'
    } else {
        '1'
    }
}

/// The low eight bits of `octet`, most significant first.
pub open spec fn binary_octet_text(octet: u32) -> Seq<char> {
    Seq::new(8, |i: int| bit_char((octet >> ((7 - i) as u32)) & 1))
}

/// Dotted-binary notation: the four octets as eight bits each.
pub open spec fn binary_text(address: u32) -> Seq<char> {
    binary_octet_text(octet_at(address, 0)) + seq!['.'] + binary_octet_text(octet_at(address, 1))
        + seq!['.'] + binary_octet_text(octet_at(address, 2)) + seq!['.'] + binary_octet_text(
        octet_at(address, 3),
    )
}

/// The lower-case hexadecimal digit of a value below 16.
pub open spec fn hex_char(nibble: u32) -> char {
    if nibble < 10 {
        (nibble + '0' as u32) as char
    } else {
        (nibble - 10 + 'a' as u32) as char
    }
}

/// Hexadecimal notation: eight lower-case digits, most significant first.
pub open spec fn hex_text(address: u32) -> Seq<char> {
    Seq::new(8, |i: int| hex_char((address >> ((28 - 4 * i) as u32)) & 0xf))
}

/// The name under which the address is looked up in reverse DNS: the octets
/// in decimal, least significant first, under `in-addr.arpa`.
pub open spec fn reverse_dns_text(address: u32) -> Seq<char> {
    decimal_text(octet_at(address, 3) as nat) + seq!['.'] + decimal_text(
        octet_at(address, 2) as nat,
    ) + seq!['.'] + decimal_text(octet_at(address, 1) as nat) + seq!['.'] + decimal_text(
        octet_at(address, 0) as nat,
    ) + ".in-addr.arpa"@
}

/// Every octet is below 256.
pub proof fn lemma_octet_bound(address: u32, index: int)
    ensures
        octet_at(address, index) <= 255,
{
    assert(address >> 24 & 0xff <= 255) by (bit_vector);
    assert(address >> 16 & 0xff <= 255) by (bit_vector);
    assert(address >> 8 & 0xff <= 255) by (bit_vector);
    assert(address & 0xff <= 255) by (bit_vector);
}

/// Packing four octets and taking the address apart again gives the octets.
pub proof fn lemma_pack_octets(a0: u32, a1: u32, a2: u32, a3: u32)
    requires
        a0 <= 255,
        a1 <= 255,
        a2 <= 255,
        a3 <= 255,
    ensures
        octet_at(pack_octets(a0, a1, a2, a3), 0) == a0,
        octet_at(pack_octets(a0, a1, a2, a3), 1) == a1,
        octet_at(pack_octets(a0, a1, a2, a3), 2) == a2,
        octet_at(pack_octets(a0, a1, a2, a3), 3) == a3,
        pack_octets(a0, a1, a2, a3) == a0 * 0x100_0000 + a1 * 0x1_0000 + a2 * 0x100 + a3,
{
    assert(a0 <= 255 && a1 <= 255 && a2 <= 255 && a3 <= 255 ==> {
        &&& (a0 << 24 | a1 << 16 | a2 << 8 | a3) >> 24 & 0xff == a0
        &&& (a0 << 24 | a1 << 16 | a2 << 8 | a3) >> 16 & 0xff == a1
        &&& (a0 << 24 | a1 << 16 | a2 << 8 | a3) >> 8 & 0xff == a2
        &&& (a0 << 24 | a1 << 16 | a2 << 8 | a3) & 0xff == a3
        &&& (a0 << 24 | a1 << 16 | a2 << 8 | a3) == a0 * 0x100_0000 + a1 * 0x1_0000 + a2 * 0x100
            + a3
    }) by (bit_vector);
}

/// Taking an address apart and packing its octets gives the address.
pub proof fn lemma_octets_pack(address: u32)
    ensures
        pack_octets(
            octet_at(address, 0),
            octet_at(address, 1),
            octet_at(address, 2),
            octet_at(address, 3),
        ) == address,
{
    assert((address >> 24 & 0xff) << 24 | (address >> 16 & 0xff) << 16 | (address >> 8 & 0xff) << 8
        | (address & 0xff) == address) by (bit_vector);
}

/// Appends a one-character separator.
fn push_dot(out: &mut String)
    ensures
        final(out)@ == old(out)@ + seq!['.'],
{
    proof {
        reveal_strlit(".");
    }
    out.append(".");
    assert(out@ =~= old(out)@ + seq!['.']);
}

/// Appends an address in dotted-decimal notation.
pub fn push_dotted(out: &mut String, address: u32)
    ensures
        final(out)@ == old(out)@ + dotted_text(address),
{
    proof {
        lemma_octet_bound(address, 0);
    }
    push_decimal(out, address >> 24 & 0xff);
    push_dot(out);
    push_decimal(out, address >> 16 & 0xff);
    push_dot(out);
    push_decimal(out, address >> 8 & 0xff);
    push_dot(out);
    push_decimal(out, address & 0xff);
    assert(out@ =~= old(out)@ + dotted_text(address));
}

/// Appends the low eight bits of `octet`, most significant first.
fn push_binary_octet(out: &mut String, octet: u32)
    ensures
        final(out)@ == old(out)@ + binary_octet_text(octet),
{
    proof {
        reveal_strlit("0");
        reveal_strlit("1");
    }
    let mut i: u32 = 0;
    while i < 8
        invariant
            i <= 8,
            out@ == old(out)@ + binary_octet_text(octet).subrange(0, i as int),
            "0"@ == seq!['0'],
            "1"@ == seq!['1'],
        decreases 8 - i,
    {
        let bit = (octet >> (7 - i)) & 1;
        if bit == 0 {
            out.append("0");
        } else {
            out.append("1");
        }
        assert(out@ =~= old(out)@ + binary_octet_text(octet).subrange(0, i + 1));
        i = i + 1;
    }
    assert(binary_octet_text(octet).subrange(0, 8) =~= binary_octet_text(octet));
}

/// Appends an address in dotted-binary notation.
pub fn push_binary(out: &mut String, address: u32)
    ensures
        final(out)@ == old(out)@ + binary_text(address),
{
    push_binary_octet(out, address >> 24 & 0xff);
    push_dot(out);
    push_binary_octet(out, address >> 16 & 0xff);
    push_dot(out);
    push_binary_octet(out, address >> 8 & 0xff);
    push_dot(out);
    push_binary_octet(out, address & 0xff);
    assert(out@ =~= old(out)@ + binary_text(address));
}

/// The one-character string of a hexadecimal digit.
fn hex_str(nibble: u32) -> (r: &'static str)
    requires
        nibble < 16,
    ensures
        r@ == seq![hex_char(nibble)],
{
    proof {
        reveal_strlit("0");
        reveal_strlit("1");
        reveal_strlit("2");
        reveal_strlit("3");
        reveal_strlit("4");
        reveal_strlit("5");
        reveal_strlit("6");
        reveal_strlit("7");
        reveal_strlit("8");
        reveal_strlit("9");
        reveal_strlit("a");
        reveal_strlit("b");
        reveal_strlit("c");
        reveal_strlit("d");
        reveal_strlit("e");
        reveal_strlit("f");
    }
    let r = match nibble {
        0 => "0",
        1 => "1",
        2 => "2",
        3 => "3",
        4 => "4",
        5 => "5",
        6 => "6",
        7 => "7",
        8 => "8",
        9 => "9",
        10 => "a",
        11 => "b",
        12 => "c",
        13 => "d",
        14 => "e",
        _ => "f",
    };
    assert(r@ =~= seq![hex_char(nibble)]);
    r
}

/// Appends an address as eight hexadecimal digits.
pub fn push_hex(out: &mut String, address: u32)
    ensures
        final(out)@ == old(out)@ + hex_text(address),
{
    let mut i: u32 = 0;
    while i < 8
        invariant
            i <= 8,
            out@ == old(out)@ + hex_text(address).subrange(0, i as int),
        decreases 8 - i,
    {
        let nibble = (address >> (28 - 4 * i)) & 0xf;
        assert(nibble < 16) by (bit_vector)
            requires
                nibble == (address >> ((28 - 4 * i) as u32)) & 0xf,
        ;
        out.append(hex_str(nibble));
        assert(out@ =~= old(out)@ + hex_text(address).subrange(0, i + 1));
        i = i + 1;
    }
    assert(hex_text(address).subrange(0, 8) =~= hex_text(address));
}

/// Appends the reverse-DNS name of an address.
pub fn push_reverse_dns(out: &mut String, address: u32)
    ensures
        final(out)@ == old(out)@ + reverse_dns_text(address),
{
    push_decimal(out, address & 0xff);
    push_dot(out);
    push_decimal(out, address >> 8 & 0xff);
    push_dot(out);
    push_decimal(out, address >> 16 & 0xff);
    push_dot(out);
    push_decimal(out, address >> 24 & 0xff);
    out.append(".in-addr.arpa");
    assert(out@ =~= old(out)@ + reverse_dns_text(address));
}

} // verus!
