//! The integer factors of the elements of a quantized block.
//!
//! With the half-precision scale `d` and min `m` of the block, an element is
//! `d * unit * scale * level`, plus `m` for Q4_1 and Q5_1, or less `m * min` for
//! Q4_K and Q5_K. The unit is an eighth for the IQ2 formats, a quarter for
//! IQ3_XXS, and one for all others.

use vstd::arithmetic::power2::*;
use vstd::prelude::*;

use crate::block::{shape_of, Block, BlockSpec};
use crate::ggml_type::GgmlType;
use crate::signs::{
    bit_set, bits_weigh_powers_of_two, codes_stand_for_even_signs, expand_signs, full_signs, has_bit,
};

verus! {

/// The integer factors of one element.
#[derive(Debug, Clone, Copy, PartialEq, Eq, Structural)]
pub struct Term {
    pub scale: i32,
    pub level: i32,
    pub min: i32,
}

/// A byte as a signed number.
pub open spec fn signed(b: int) -> int {
    if b < 128 {
        b
    } else {
        b - 256
    }
}

/// The non-linear levels of the IQ4 formats.
pub open spec fn kvalue(code: int) -> int {
    if code == 0 {
        -127
    } else if code == 1 {
        -104
    } else if code == 2 {
        -83
    } else if code == 3 {
        -65
    } else if code == 4 {
        -49
    } else if code == 5 {
        -35
    } else if code == 6 {
        -22
    } else if code == 7 {
        -10
    } else if code == 8 {
        1
    } else if code == 9 {
        13
    } else if code == 10 {
        25
    } else if code == 11 {
        38
    } else if code == 12 {
        53
    } else if code == 13 {
        69
    } else if code == 14 {
        89
    } else {
        113
    }
}

/// The non-linear levels of the IQ4 formats.
pub fn iq4_level(code: u8) -> (r: i32)
    ensures
        r == kvalue(code as int),
{
    match code {
        0 => -127,
        1 => -104,
        2 => -83,
        3 => -65,
        4 => -49,
        5 => -35,
        6 => -22,
        7 => -10,
        8 => 1,
        9 => 13,
        10 => 25,
        11 => 38,
        12 => 53,
        13 => 69,
        14 => 89,
        _ => 113,
    }
}

/// The type takes its levels from a codebook.
pub open spec fn from_codebook(ty: GgmlType) -> bool {
    match ty {
        GgmlType::Iq2Xxs
        | GgmlType::Iq2Xs
        | GgmlType::Iq2S
        | GgmlType::Iq3Xxs
        | GgmlType::Iq3S => true,
        _ => false,
    }
}

/// How many elements a codebook entry covers.
pub open spec fn span(ty: GgmlType) -> int {
    match ty {
        GgmlType::Iq3Xxs | GgmlType::Iq3S => 4,
        _ => 8,
    }
}

/// Byte `j` of a codebook entry, lowest first.
pub open spec fn entry_byte(entry: u64, j: int) -> int
    decreases j,
{
    if j <= 0 {
        entry as int % 256
    } else {
        entry_byte((entry / 256) as u64, j - 1)
    }
}

impl BlockSpec {
    /// The eight signs of the group of element `e`.
    pub open spec fn signs_at(self, ty: GgmlType, e: int) -> int {
        match ty {
            GgmlType::Iq2S | GgmlType::Iq3S => self.signs[e / 8] as int,
            _ => full_signs(self.signs[e / 8] as int),
        }
    }

    /// The scale factor of element `e`.
    pub open spec fn scale_at(self, ty: GgmlType, e: int) -> int {
        match ty {
            GgmlType::Q6K => signed(self.scales[e / 16] as int),
            GgmlType::Q4K | GgmlType::Q5K => self.scales[e / 32] as int,
            GgmlType::Iq2Xxs | GgmlType::Iq3Xxs | GgmlType::Iq3S => 2 * self.scales[e / 32] + 1,
            GgmlType::Iq2Xs | GgmlType::Iq2S => 2 * self.scales[e / 16] + 1,
            GgmlType::Iq4Xs => self.scales[e / 32] - 32,
            _ => 1,
        }
    }

    /// The level of element `e`.
    pub open spec fn level_at(self, ty: GgmlType, book: Seq<u64>, e: int) -> int {
        if from_codebook(ty) {
            let v = entry_byte(book[self.codes[e / span(ty)] as int], e % span(ty));
            if bit_set(self.signs_at(ty, e), e % 8) {
                -v
            } else {
                v
            }
        } else {
            match ty {
                GgmlType::Q8_0 => signed(self.codes[e] as int),
                GgmlType::Q4_0 => self.codes[e] - 8,
                GgmlType::Q5_0 => self.codes[e] - 16,
                GgmlType::Q6K => self.codes[e] - 32,
                GgmlType::Iq4Nl | GgmlType::Iq4Xs => kvalue(self.codes[e] as int),
                _ => self.codes[e] as int,
            }
        }
    }

    /// The min factor of element `e`.
    pub open spec fn min_at(self, ty: GgmlType, e: int) -> int {
        match ty {
            GgmlType::Q4K | GgmlType::Q5K => self.mins[e / 32] as int,
            _ => 0,
        }
    }
}

/// Whether the type takes its levels from a codebook.
pub fn needs_codebook(ty: GgmlType) -> (r: bool)
    ensures
        r == from_codebook(ty),
{
    match ty {
        GgmlType::Iq2Xxs
        | GgmlType::Iq2Xs
        | GgmlType::Iq2S
        | GgmlType::Iq3Xxs
        | GgmlType::Iq3S => true,
        _ => false,
    }
}

fn byte_of_entry(entry: u64, j: usize) -> (r: i32)
    ensures
        r == entry_byte(entry, j as int),
        0 <= r < 256,
{
    let mut rest: u64 = entry;
    let mut k: usize = j;
    while k > 0
        invariant
            entry_byte(entry, j as int) == entry_byte(rest, k as int),
        decreases k,
    {
        rest = rest / 256;
        k -= 1;
    }
    (rest % 256) as i32
}

fn as_signed(b: u16) -> (r: i32)
    requires
        b < 256,
    ensures
        r == signed(b as int),
{
    if b < 128 {
        b as i32
    } else {
        b as i32 - 256
    }
}

/// The scale factors of a block depend on the sub-block alone.
fn scale_of(x: &Block, ty: GgmlType, e: usize) -> (r: i32)
    requires
        x@.fits(ty),
        e < ty.block_elems(),
    ensures
        r == x@.scale_at(ty, e as int),
{
    match ty {
        GgmlType::Q6K => as_signed(x.scales[e / 16] as u16),
        GgmlType::Q4K | GgmlType::Q5K => x.scales[e / 32] as i32,
        GgmlType::Iq2Xxs | GgmlType::Iq3Xxs | GgmlType::Iq3S => 2 * (x.scales[e / 32] as i32) + 1,
        GgmlType::Iq2Xs | GgmlType::Iq2S => 2 * (x.scales[e / 16] as i32) + 1,
        GgmlType::Iq4Xs => x.scales[e / 32] as i32 - 32,
        _ => 1,
    }
}

fn codebook_level(x: &Block, ty: GgmlType, book: &[u64], e: usize) -> (r: i32)
    requires
        x@.fits(ty),
        e < ty.block_elems(),
        from_codebook(ty),
        book@.len() >= shape_of(ty).code_limit,
    ensures
        r == x@.level_at(ty, book@, e as int),
{
    let n: usize = match ty {
        GgmlType::Iq3Xxs | GgmlType::Iq3S => 4,
        _ => 8,
    };
    let code: u16 = x.codes[e / n];
    assert(code < shape_of(ty).code_limit);
    let v = byte_of_entry(book[code as usize], e % n);
    let s: u8 = x.signs[e / 8];
    assert(x@.signs[e as int / 8] < shape_of(ty).sign_limit);
    let signs: u8 = match ty {
        GgmlType::Iq2S | GgmlType::Iq3S => s,
        _ => expand_signs(s),
    };
    if has_bit(signs, e % 8) {
        -v
    } else {
        v
    }
}

fn level_of(x: &Block, ty: GgmlType, book: &[u64], e: usize) -> (r: i32)
    requires
        x@.fits(ty),
        e < ty.block_elems(),
        from_codebook(ty) ==> book@.len() >= shape_of(ty).code_limit,
    ensures
        r == x@.level_at(ty, book@, e as int),
{
    if needs_codebook(ty) {
        return codebook_level(x, ty, book, e);
    }
    let c: u16 = x.codes[e];
    assert(c < shape_of(ty).code_limit);
    match ty {
        GgmlType::Q8_0 => as_signed(c),
        GgmlType::Q4_0 => c as i32 - 8,
        GgmlType::Q5_0 => c as i32 - 16,
        GgmlType::Q6K => c as i32 - 32,
        GgmlType::Iq4Nl | GgmlType::Iq4Xs => iq4_level(c as u8),
        _ => c as i32,
    }
}

/// The integer factors of the elements of a block. `book` is the codebook of the
/// type, one entry per code, and is not read where the type has none.
pub fn terms(x: &Block, ty: GgmlType, book: &[u64]) -> (r: Vec<Term>)
    requires
        x@.fits(ty),
        from_codebook(ty) ==> book@.len() >= shape_of(ty).code_limit,
    ensures
        r@.len() == ty.block_elems(),
        forall|e: int|
            0 <= e < r@.len() ==> (#[trigger] r@[e]).scale == x@.scale_at(ty, e) && r@[e].level
                == x@.level_at(ty, book@, e) && r@[e].min == x@.min_at(ty, e),
{
    let n: usize = ty.block_layout().0 as usize;
    let mut r: Vec<Term> = Vec::new();
    for e in 0..n
        invariant
            x@.fits(ty),
            from_codebook(ty) ==> book@.len() >= shape_of(ty).code_limit,
            n == ty.block_elems(),
            r@.len() == e,
            forall|j: int|
                0 <= j < e ==> (#[trigger] r@[j]).scale == x@.scale_at(ty, j) && r@[j].level
                    == x@.level_at(ty, book@, j) && r@[j].min == x@.min_at(ty, j),
    {
        let min: i32 = match ty {
            GgmlType::Q4K | GgmlType::Q5K => x.mins[e / 32] as i32,
            _ => 0,
        };
        r.push(Term { scale: scale_of(x, ty, e), level: level_of(x, ty, book, e), min });
    }
    r
}

/// The levels of the formats without a codebook. A Q8_0 byte is a number in two's
/// complement. The codes of Q4_0, Q5_0 and Q6_K count from the least of the levels
/// from -8 to 7, -16 to 15 and -32 to 31. Those of Q4_1, Q5_1, Q4_K and Q5_K are
/// the levels.
pub proof fn levels_are_centred(x: BlockSpec, ty: GgmlType, book: Seq<u64>, e: int)
    requires
        x.fits(ty),
        0 <= e < ty.block_elems(),
    ensures
        ({
            let l = x.level_at(ty, book, e);
            &&& ty == GgmlType::Q8_0 ==> -128 <= l <= 127 && (l - x.codes[e]) % 256 == 0
            &&& ty == GgmlType::Q4_0 ==> -8 <= l <= 7 && l + 8 == x.codes[e]
            &&& ty == GgmlType::Q5_0 ==> -16 <= l <= 15 && l + 16 == x.codes[e]
            &&& ty == GgmlType::Q6K ==> -32 <= l <= 31 && l + 32 == x.codes[e]
            &&& ty == GgmlType::Q4_1 || ty == GgmlType::Q4K ==> 0 <= l <= 15 && l == x.codes[e]
            &&& ty == GgmlType::Q5_1 || ty == GgmlType::Q5K ==> 0 <= l <= 31 && l == x.codes[e]
        }),
{
    if ty == GgmlType::Q8_0 || ty == GgmlType::Q4_0 || ty == GgmlType::Q5_0 || ty == GgmlType::Q6K
        || ty == GgmlType::Q4_1 || ty == GgmlType::Q4K || ty == GgmlType::Q5_1 || ty
        == GgmlType::Q5K {
        assert(x.codes[e] < shape_of(ty).code_limit);
    }
}

/// The levels of IQ4_NL and IQ4_XS rise with the codes, from -127 to 113, in steps
/// that are narrowest around zero.
pub proof fn nonlinear_levels(x: BlockSpec, ty: GgmlType, book: Seq<u64>, e: int)
    requires
        ty == GgmlType::Iq4Nl || ty == GgmlType::Iq4Xs,
        x.fits(ty),
        0 <= e < ty.block_elems(),
    ensures
        x.codes[e] < 16,
        x.level_at(ty, book, e) == seq![
            -127int,
            -104,
            -83,
            -65,
            -49,
            -35,
            -22,
            -10,
            1,
            13,
            25,
            38,
            53,
            69,
            89,
            113,
        ][x.codes[e] as int],
{
    assert(x.codes[e] < shape_of(ty).code_limit);
}

/// The scale and min factors. Q6_K has a two's complement byte per sixteen elements;
/// Q4_K and Q5_K a scale and a min per 32; IQ4_XS a scale per 32, counted from -32.
/// The codebook formats have odd scales, per sixteen elements in IQ2_XS and IQ2_S
/// and per 32 in the others. All other formats have none of either.
pub proof fn factors_of_sub_blocks(x: BlockSpec, ty: GgmlType, e: int)
    requires
        x.fits(ty),
        0 <= e < ty.block_elems(),
    ensures
        ({
            let s = x.scale_at(ty, e);
            let m = x.min_at(ty, e);
            &&& ty == GgmlType::Q6K ==> -128 <= s <= 127 && (s - x.scales[e / 16]) % 256 == 0
            &&& ty == GgmlType::Q4K || ty == GgmlType::Q5K ==> s == x.scales[e / 32] && m
                == x.mins[e / 32]
            &&& ty == GgmlType::Iq4Xs ==> s + 32 == x.scales[e / 32] && -32 <= s <= 31
            &&& ty == GgmlType::Iq2Xs || ty == GgmlType::Iq2S ==> s - 1 == x.scales[e / 16]
                + x.scales[e / 16]
            &&& ty == GgmlType::Iq2Xxs || ty == GgmlType::Iq3Xxs || ty == GgmlType::Iq3S ==> s - 1
                == x.scales[e / 32] + x.scales[e / 32]
            &&& ty == GgmlType::Q8_0 || ty == GgmlType::Q4_0 || ty == GgmlType::Q4_1 || ty
                == GgmlType::Q5_0 || ty == GgmlType::Q5_1 || ty == GgmlType::Iq4Nl ==> s == 1
            &&& ty != GgmlType::Q4K && ty != GgmlType::Q5K ==> m == 0
        }),
{
    if ty == GgmlType::Q6K {
        assert(x.scales[e / 16] < 256);
    }
    if ty == GgmlType::Iq4Xs {
        assert(x.scales[e / 32] < 64);
    }
}

proof fn entry_bytes_shift(entry: u64, j: nat)
    requires
        j < 8,
    ensures
        entry_byte(entry, j as int) == entry as int / pow2(8 * j) as int % 256,
    decreases j,
{
    lemma2_to64();
    if j > 0 {
        let rest = (entry / 256) as u64;
        entry_bytes_shift(rest, (j - 1) as nat);
        let p = pow2((8 * (j - 1)) as nat) as int;
        lemma_pow2_adds(8, (8 * (j - 1)) as nat);
        lemma_pow2_pos((8 * (j - 1)) as nat);
        assert(pow2(8) == 256);
        vstd::arithmetic::div_mod::lemma_div_denominator(entry as int, 256, p);
        assert(256 * p == pow2(8 * j));
    } else {
        assert(pow2(0) == 1);
        assert(entry as int / 1 == entry);
    }
}

/// A level of a codebook format is a byte of the entry that the code of the
/// element's group names, the bytes counted from the lowest; groups are of four
/// elements in the IQ3 formats and of eight in the IQ2 formats. It is negative where
/// the element's bit among the eight signs of its group of eight is set.
pub proof fn codebook_levels(x: BlockSpec, ty: GgmlType, book: Seq<u64>, e: int)
    requires
        ty == GgmlType::Iq2Xxs || ty == GgmlType::Iq2Xs || ty == GgmlType::Iq2S || ty
            == GgmlType::Iq3Xxs || ty == GgmlType::Iq3S,
        x.fits(ty),
        0 <= e < 256,
    ensures
        from_codebook(ty),
        ty.block_elems() == 256,
        ({
            let n: int = if ty == GgmlType::Iq3Xxs || ty == GgmlType::Iq3S {
                4
            } else {
                8
            };
            let entry = book[x.codes[e / n] as int] as int;
            let magnitude = entry / pow2((8 * (e % n)) as nat) as int % 256;
            let code = x.signs[e / 8] as int;
            let signs = x.signs_at(ty, e);
            &&& x.level_at(ty, book, e) == (if signs / pow2((e % 8) as nat) as int % 2 == 1 {
                -magnitude
            } else {
                magnitude
            })
            &&& ty == GgmlType::Iq2S || ty == GgmlType::Iq3S ==> signs == code
            &&& ty != GgmlType::Iq2S && ty != GgmlType::Iq3S ==> {
                &&& 0 <= signs < 256
                &&& signs % 128 == code
                &&& (signs % 2 + signs / 2 % 2 + signs / 4 % 2 + signs / 8 % 2 + signs / 16 % 2
                    + signs / 32 % 2 + signs / 64 % 2 + signs / 128) % 2 == 0
            }
        }),
{
    assert(x.signs[e / 8] < shape_of(ty).sign_limit);
    if !(ty == GgmlType::Iq2S || ty == GgmlType::Iq3S) {
        codes_stand_for_even_signs(x.signs[e / 8] as int);
    }
    bits_weigh_powers_of_two(x.signs_at(ty, e), (e % 8) as nat);
    entry_bytes_shift(book[x.codes[e / span(ty)] as int], (e % span(ty)) as nat);
}

} // verus!
