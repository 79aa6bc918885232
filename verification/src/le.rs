//! Little-endian integers in byte sequences.

use vstd::prelude::*;

verus! {

/// The number that `s` spells, least significant byte first.
pub open spec fn le_value(s: Seq<u8>) -> nat
    decreases s.len(),
{
    if s.len() == 0 {
        0
    } else {
        s[0] as nat + 256 * le_value(s.subrange(1, s.len() as int))
    }
}

/// `x` in `n` bytes, least significant byte first.
pub open spec fn le_bytes(x: nat, n: nat) -> Seq<u8>
    decreases n,
{
    if n == 0 {
        seq![]
    } else {
        seq![(x % 256) as u8] + le_bytes(x / 256, (n - 1) as nat)
    }
}

/// 256 to the power of `n`.
pub open spec fn radix(n: nat) -> nat
    decreases n,
{
    if n == 0 {
        1
    } else {
        256 * radix((n - 1) as nat)
    }
}

pub proof fn le_bytes_len(x: nat, n: nat)
    ensures
        le_bytes(x, n).len() == n,
    decreases n,
{
    if n > 0 {
        le_bytes_len(x / 256, (n - 1) as nat);
    }
}

/// The bytes of a number spell the number.
pub proof fn le_round_trip(x: nat, n: nat)
    requires
        x < radix(n),
    ensures
        le_bytes(x, n).len() == n,
        le_value(le_bytes(x, n)) == x,
    decreases n,
{
    if n > 0 {
        le_round_trip(x / 256, (n - 1) as nat);
        let s = le_bytes(x, n);
        assert(s.subrange(1, s.len() as int) == le_bytes(x / 256, (n - 1) as nat));
    }
}

/// The number that bytes spell has these bytes.
pub proof fn le_value_round_trip(s: Seq<u8>)
    ensures
        le_value(s) < radix(s.len()),
        le_bytes(le_value(s), s.len()) == s,
    decreases s.len(),
{
    if s.len() > 0 {
        let rest = s.subrange(1, s.len() as int);
        le_value_round_trip(rest);
        assert(seq![s[0]] + rest == s);
    }
}

pub proof fn radix_values()
    ensures
        radix(1) == 0x100,
        radix(2) == 0x1_0000,
        radix(4) == 0x1_0000_0000,
        radix(8) == 0x1_0000_0000_0000_0000,
{
    reveal_with_fuel(radix, 9);
}

/// Reads two bytes.
pub fn u16_of(b: &[u8]) -> (r: u16)
    requires
        b@.len() == 2,
    ensures
        r == le_value(b@),
{
    reveal_with_fuel(le_value, 3);
    b[0] as u16 + b[1] as u16 * 256
}

/// Reads four bytes.
pub fn u32_of(b: &[u8]) -> (r: u32)
    requires
        b@.len() == 4,
    ensures
        r == le_value(b@),
{
    reveal_with_fuel(le_value, 5);
    b[0] as u32 + b[1] as u32 * 0x100 + b[2] as u32 * 0x1_0000 + b[3] as u32 * 0x100_0000
}

/// Reads eight bytes.
pub fn u64_of(b: &[u8]) -> (r: u64)
    requires
        b@.len() == 8,
    ensures
        r == le_value(b@),
{
    reveal_with_fuel(le_value, 9);
    b[0] as u64 + b[1] as u64 * 0x100 + b[2] as u64 * 0x1_0000 + b[3] as u64 * 0x100_0000
        + b[4] as u64 * 0x1_0000_0000 + b[5] as u64 * 0x100_0000_0000 + b[6] as u64
        * 0x1_0000_0000_0000 + b[7] as u64 * 0x100_0000_0000_0000
}

/// Appends `n` bytes of `x`.
pub fn push_le(out: &mut Vec<u8>, x: u64, n: usize)
    ensures
        final(out)@ == old(out)@ + le_bytes(x as nat, n as nat),
{
    let mut rest: u64 = x;
    let ghost start = out@;
    for i in 0..n
        invariant
            start + le_bytes(x as nat, n as nat) == out@ + le_bytes(rest as nat, (n - i) as nat),
    {
        let ghost before = out@;
        out.push((rest % 256) as u8);
        assert(le_bytes(rest as nat, (n - i) as nat) == seq![(rest % 256) as u8] + le_bytes(
            rest as nat / 256,
            (n - i - 1) as nat,
        ));
        rest = rest / 256;
        assert(out@ + le_bytes(rest as nat, (n - i - 1) as nat) =~= start + le_bytes(
            x as nat,
            n as nat,
        ));
    }
    assert(le_bytes(rest as nat, 0) == Seq::<u8>::empty());
}

} // verus!
