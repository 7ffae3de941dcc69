//! Floating point numbers as bit patterns, when two patterns are equal as
//! numbers, and numbers as bytes.

use vstd::prelude::*;

verus! {

/// The pattern without its sign.
pub open spec fn magnitude_bits(bits: u32) -> u32 {
    bits % 0x8000_0000
}

/// Whether the pattern stands for no number.
pub open spec fn stands_for_none(bits: u32) -> bool {
    magnitude_bits(bits) > 0x7f80_0000
}

/// Whether two patterns are equal as numbers: the two zeros are, and what
/// stands for no number equals nothing.
pub open spec fn equal_numbers(a: u32, b: u32) -> bool {
    &&& !stands_for_none(a)
    &&& !stands_for_none(b)
    &&& a == b || magnitude_bits(a) == 0 && magnitude_bits(b) == 0
}

/// Whether two points are equal as numbers.
pub open spec fn equal_points(a: [u32; 2], b: [u32; 2]) -> bool {
    equal_numbers(a@[0], b@[0]) && equal_numbers(a@[1], b@[1])
}

/// Whether two patterns are equal as numbers of double precision.
pub open spec fn equal_doubles(a: u64, b: u64) -> bool {
    let x = a % 0x8000_0000_0000_0000;
    let y = b % 0x8000_0000_0000_0000;
    &&& x <= 0x7ff0_0000_0000_0000
    &&& y <= 0x7ff0_0000_0000_0000
    &&& a == b || x == 0 && y == 0
}

pub fn same_double(a: u64, b: u64) -> (r: bool)
    ensures
        r == equal_doubles(a, b),
{
    let x: u64 = a % 0x8000_0000_0000_0000;
    let y: u64 = b % 0x8000_0000_0000_0000;
    x <= 0x7ff0_0000_0000_0000 && y <= 0x7ff0_0000_0000_0000 && (a == b || x == 0 && y == 0)
}

pub fn same_number(a: u32, b: u32) -> (r: bool)
    ensures
        r == equal_numbers(a, b),
{
    let x: u32 = a % 0x8000_0000;
    let y: u32 = b % 0x8000_0000;
    x <= 0x7f80_0000 && y <= 0x7f80_0000 && (a == b || x == 0 && y == 0)
}

pub fn same_point(a: &[u32; 2], b: &[u32; 2]) -> (r: bool)
    ensures
        r == equal_points(*a, *b),
{
    same_number(a[0], b[0]) && same_number(a[1], b[1])
}

/// The `n` low bytes of `v`, the lowest first.
pub open spec fn le_bytes(v: nat, n: nat) -> Seq<u8>
    decreases n,
{
    if n == 0 {
        Seq::empty()
    } else {
        seq![(v % 256) as u8] + le_bytes(v / 256, (n - 1) as nat)
    }
}

/// Appends the `n` low bytes of `v`, the lowest first.
pub fn push_bytes(out: &mut Vec<u8>, v: u64, n: u8)
    ensures
        final(out)@ == old(out)@ + le_bytes(v as nat, n as nat),
    decreases n,
{
    if n > 0 {
        out.push((v % 256) as u8);
        push_bytes(out, v / 256, n - 1);
        proof {
            assert(old(out)@.push((v % 256) as u8) + le_bytes((v / 256) as nat, (n - 1) as nat)
                =~= old(out)@ + le_bytes(v as nat, n as nat));
        }
    } else {
        proof {
            assert(old(out)@ + le_bytes(v as nat, 0) =~= old(out)@);
        }
    }
}

} // verus!
