//! Blocks of the codebook formats, from the levels and signs that were found
//! for their elements.

use vstd::prelude::*;

use crate::block::{block_of, shape_of, unpack_gives_back, Block, BlockSpec};
use crate::dequant::{from_codebook, span};
use crate::ggml_type::GgmlType;
use crate::planes::below;
use crate::quant_iq::{codes_stand_for_levels, level, GridData};
use crate::signs::{
    code_gives_back_signs, codes_stand_for_even_signs, evened, evened_is_even, full_signs, inverting_a_code, negatives,
    sign_bits, sign_byte, signs_with_parity,
};

verus! {

/// The format stores all eight signs of a group, not a code for seven of them.
pub open spec fn all_signs(ty: GgmlType) -> bool {
    match ty {
        GgmlType::Iq2S | GgmlType::Iq3S => true,
        _ => false,
    }
}

/// The eight signs that a format's sign code stands for.
pub open spec fn signs_of_code(ty: GgmlType, code: int) -> int {
    if all_signs(ty) {
        code
    } else {
        full_signs(code)
    }
}

fn stores_all(ty: GgmlType) -> (r: bool)
    ensures
        r == all_signs(ty),
{
    match ty {
        GgmlType::Iq2S | GgmlType::Iq3S => true,
        _ => false,
    }
}

/// The sign code of eight elements, and whether the sign of element `least` had
/// to be changed: a format with seven stored signs has an even number of
/// negatives.
pub fn sign_code(ty: GgmlType, neg: &[bool], least: usize) -> (r: (u8, bool))
    requires
        from_codebook(ty),
        neg@.len() == 8,
        least < 8,
    ensures
        r.0 < shape_of(ty).sign_limit,
        r.1 == (!all_signs(ty) && negatives(neg@, 8) % 2 != 0),
        signs_of_code(ty, r.0 as int) == sign_bits(
            if all_signs(ty) {
                neg@
            } else {
                evened(neg@, least as int)
            },
            8,
        ),
{
    if stores_all(ty) {
        (sign_byte(neg), false)
    } else {
        proof {
            evened_is_even(neg@, least as int);
            code_gives_back_signs(evened(neg@, least as int));
        }
        signs_with_parity(neg, least)
    }
}

/// The sign code of the opposite signs.
pub fn opposite_code(ty: GgmlType, code: u8) -> (r: u8)
    requires
        from_codebook(ty),
        code < shape_of(ty).sign_limit,
    ensures
        r < shape_of(ty).sign_limit,
        signs_of_code(ty, r as int) == 255 - signs_of_code(ty, code as int),
{
    if stores_all(ty) {
        255 - code
    } else {
        proof {
            inverting_a_code(code as int);
        }
        127 - code
    }
}

/// Some group was off the grid.
pub open spec fn any_off(on: Seq<bool>) -> bool {
    exists|i: int| 0 <= i < on.len() && !#[trigger] on[i]
}

/// Group `i` is put on the grid anew once the scale of its sub-block is found:
/// always for IQ2_XXS, if any group was off the grid for IQ3_S, and if it was
/// off the grid itself for the others.
pub open spec fn is_redone(ty: GgmlType, on: Seq<bool>, i: int) -> bool {
    match ty {
        GgmlType::Iq2Xxs => true,
        GgmlType::Iq3S => any_off(on),
        _ => !on[i],
    }
}

/// Which groups of a sub-block are put on the grid anew once its scale is found.
/// `on` tells which groups were on the grid before.
pub fn groups_to_redo(ty: GgmlType, on: &[bool]) -> (r: Vec<bool>)
    ensures
        r@.len() == on@.len(),
        forall|i: int| 0 <= i < on@.len() ==> #[trigger] r@[i] == is_redone(ty, on@, i),
{
    let mut any: bool = false;
    for i in 0..on.len()
        invariant
            any == (exists|j: int| 0 <= j < i && !#[trigger] on@[j]),
    {
        if !on[i] {
            any = true;
        }
    }
    let mut r: Vec<bool> = Vec::new();
    for i in 0..on.len()
        invariant
            any == any_off(on@),
            r@.len() == i,
            forall|j: int| 0 <= j < i ==> #[trigger] r@[j] == is_redone(ty, on@, j),
    {
        r.push(
            match ty {
                GgmlType::Iq2Xxs => true,
                GgmlType::Iq3S => any,
                _ => !on[i],
            },
        );
    }
    r
}

/// The format keeps its codes in a block all of whose scales are zero.
pub open spec fn keeps_codes(ty: GgmlType) -> bool {
    match ty {
        GgmlType::Iq2S | GgmlType::Iq3Xxs | GgmlType::Iq3S => true,
        _ => false,
    }
}

/// As many zeros.
pub open spec fn no_bytes(n: nat) -> Seq<u8> {
    Seq::new(n, |i: int| 0u8)
}

/// The codes of all groups.
pub open spec fn group_codes(g: &GridData, ls: Seq<u8>, live: Seq<bool>) -> Seq<u16> {
    Seq::new(live.len(), |i: int| g.code_at(ls, live, i) as u16)
}

/// The block with the half-precision scale `d` and the scale codes in `scales`,
/// or, without them, the block all of whose scales are zero. That one keeps the
/// signs only where all are stored.
pub open spec fn coded_block(
    ty: GgmlType,
    d: Option<(u16, Seq<u8>)>,
    signs: Seq<u8>,
    codes: Seq<u16>,
) -> BlockSpec {
    match d {
        Some((d, scales)) => BlockSpec { d, m: 0, scales, mins: seq![], signs, codes },
        None => BlockSpec {
            d: 0,
            m: 0,
            scales: no_bytes(shape_of(ty).scales as nat),
            mins: seq![],
            signs: if all_signs(ty) {
                signs
            } else {
                no_bytes(32)
            },
            codes: if keeps_codes(ty) {
                codes
            } else {
                Seq::new(codes.len(), |i: int| 0u16)
            },
        },
    }
}

/// The grid is one that the format's codes can name all points of.
pub open spec fn serves(g: &GridData, ty: GgmlType) -> bool {
    &&& g.sound()
    &&& g.dim == span(ty)
    &&& g.grid@.len() <= shape_of(ty).code_limit
}

/// What a pair of a scale and scale codes is.
pub open spec fn scale_view(d: Option<(u16, Vec<u8>)>) -> Option<(u16, Seq<u8>)> {
    match d {
        Some((d, scales)) => Some((d, scales@)),
        None => None,
    }
}

fn zero_bytes(n: usize) -> (r: Vec<u8>)
    ensures
        r@ == no_bytes(n as nat),
{
    let mut r: Vec<u8> = Vec::new();
    for i in 0..n
        invariant
            r@ == no_bytes(i as nat),
    {
        r.push(0);
        assert(r@ =~= no_bytes((i + 1) as nat));
    }
    r
}

fn zero_codes(n: usize) -> (r: Vec<u16>)
    ensures
        r@ == Seq::new(n as nat, |i: int| 0u16),
{
    let mut r: Vec<u16> = Vec::new();
    for i in 0..n
        invariant
            r@ == Seq::new(i as nat, |j: int| 0u16),
    {
        r.push(0);
        assert(r@ =~= Seq::new((i + 1) as nat, |j: int| 0u16));
    }
    r
}

/// The block of a codebook format: `levels` are the levels of all elements,
/// `live` the groups that have any, `signs` the sign codes, and `d` the scale
/// with the scale codes, if a scale is not zero. `None` if the levels of a live
/// group are off the grid.
pub fn block_of_levels(
    ty: GgmlType,
    g: &GridData,
    d: Option<(u16, Vec<u8>)>,
    signs: Vec<u8>,
    levels: &[u8],
    live: &[bool],
) -> (r: Option<Block>)
    requires
        from_codebook(ty),
        serves(g, ty),
        d matches Some((_, scales)) ==> scales@.len() == shape_of(ty).scales && below(
            scales@,
            16,
        ),
        signs@.len() == 32,
        below(signs@, shape_of(ty).sign_limit as int),
        live@.len() == shape_of(ty).codes,
        levels@.len() == live@.len() * g.dim,
        forall|i: int| 0 <= i < live@.len() && #[trigger] live@[i] ==> g.covers(levels@, i * g.dim),
    ensures
        match r {
            Some(b) => {
                &&& b@ == coded_block(
                    ty,
                    scale_view(d),
                    signs@,
                    group_codes(g, levels@, live@),
                )
                &&& b@.fits(ty)
                &&& forall|i: int|
                    0 <= i < live@.len() ==> #[trigger] g.code_at(levels@, live@, i) >= 0
            },
            None => exists|i: int|
                0 <= i < live@.len() && #[trigger] g.code_at(levels@, live@, i) < 0,
        },
{
    let codes = match g.codes_of_levels(levels, live) {
        Some(codes) => codes,
        None => {
            return None;
        },
    };
    proof {
        assert forall|i: int| 0 <= i < live@.len() implies #[trigger] g.code_at(levels@, live@, i)
            >= 0 && codes@[i] < g.grid@.len() by {
            assert(codes@[i] == g.code_at(levels@, live@, i));
            if live@[i] {
                assert(g.covers(levels@, i * g.dim));
                codes_stand_for_levels(*g, levels@, i * g.dim);
            }
        }
        assert(codes@ =~= group_codes(g, levels@, live@));
    }
    let b = match d {
        Some((d, scales)) => Block { d, m: 0, scales, mins: Vec::new(), signs, codes },
        None => {
            let n: usize = match ty {
                GgmlType::Iq2Xs | GgmlType::Iq2S => 16,
                _ => 8,
            };
            let keep_signs: bool = stores_all(ty);
            let keep_codes: bool = keep_signs || ty == GgmlType::Iq3Xxs;
            Block {
                d: 0,
                m: 0,
                scales: zero_bytes(n),
                mins: Vec::new(),
                signs: if keep_signs {
                    signs
                } else {
                    zero_bytes(32)
                },
                codes: if keep_codes {
                    codes
                } else {
                    zero_codes(live.len())
                },
            }
        },
    };
    assert(b@ =~= coded_block(ty, scale_view(d), signs@, group_codes(g, levels@, live@)));
    Some(b)
}

/// The levels of a live group are those of the grid point whose code stands in
/// the bytes of the block.
pub proof fn levels_are_read_back(
    ty: GgmlType,
    g: GridData,
    d: (u16, Seq<u8>),
    signs: Seq<u8>,
    ls: Seq<u8>,
    live: Seq<bool>,
    i: int,
    k: int,
)
    requires
        from_codebook(ty),
        serves(&g, ty),
        d.1.len() == shape_of(ty).scales && below(d.1, 16),
        signs.len() == 32,
        below(signs, shape_of(ty).sign_limit as int),
        live.len() == shape_of(ty).codes,
        ls.len() == live.len() * g.dim,
        forall|j: int| 0 <= j < live.len() && #[trigger] live[j] ==> g.covers(ls, j * g.dim),
        forall|j: int| 0 <= j < live.len() ==> #[trigger] g.code_at(ls, live, j) >= 0,
        0 <= i < live.len(),
        live[i],
        0 <= k < g.dim,
    ensures
        ({
            let bytes = coded_block(ty, Some(d), signs, group_codes(&g, ls, live)).bytes(ty);
            let code = block_of(ty, bytes).codes[i] as int;
            level(g.grid@[code]@, k) == ls[i * g.dim + k]
        }),
{
    let codes = group_codes(&g, ls, live);
    let x = coded_block(ty, Some(d), signs, codes);
    assert forall|j: int| 0 <= j < codes.len() implies (#[trigger] codes[j])
        < shape_of(ty).code_limit by {
        assert(g.code_at(ls, live, j) >= 0);
        if live[j] {
            assert(g.covers(ls, j * g.dim));
            codes_stand_for_levels(g, ls, j * g.dim);
        }
    }
    unpack_gives_back(x, ty);
    assert(g.code_at(ls, live, i) >= 0);
    assert(g.covers(ls, i * g.dim));
    codes_stand_for_levels(g, ls, i * g.dim);
    assert(ls[i * g.dim + k] == level(g.grid@[codes[i] as int]@, k));
}

/// What a sign code stands for: in IQ2_S and IQ3_S it is the byte of the eight
/// signs; in the others it is the lower seven bits of a byte with an even number of
/// set bits.
pub proof fn sign_codes_stand_for_signs(ty: GgmlType, code: int)
    requires
        from_codebook(ty),
        0 <= code < shape_of(ty).sign_limit,
    ensures
        ({
            let b = signs_of_code(ty, code);
            if ty == GgmlType::Iq2S || ty == GgmlType::Iq3S {
                b == code && shape_of(ty).sign_limit == 256
            } else {
                &&& shape_of(ty).sign_limit == 128
                &&& 0 <= b < 256
                &&& b % 128 == code
                &&& (b % 2 + b / 2 % 2 + b / 4 % 2 + b / 8 % 2 + b / 16 % 2 + b / 32 % 2 + b / 64
                    % 2 + b / 128) % 2 == 0
            }
        }),
{
    if !all_signs(ty) {
        codes_stand_for_even_signs(code);
    }
}

/// A group is put on the grid anew, in IQ2_XXS always, in IQ3_S where any group of
/// the sub-block was off it, in the others where it was off it itself.
pub proof fn off_grid_groups_are_redone(ty: GgmlType, on: Seq<bool>, i: int, j: int)
    requires
        0 <= i < on.len(),
        0 <= j < on.len(),
    ensures
        !on[i] ==> is_redone(ty, on, i),
        ty == GgmlType::Iq2Xxs ==> is_redone(ty, on, i),
        ty == GgmlType::Iq3S && !on[j] ==> is_redone(ty, on, i),
        ty == GgmlType::Iq3S && (forall|k: int| 0 <= k < on.len() ==> #[trigger] on[k])
            ==> !is_redone(ty, on, i),
        ty != GgmlType::Iq2Xxs && ty != GgmlType::Iq3S && on[i] ==> !is_redone(ty, on, i),
{
}

/// A block with a scale has the given scale, scale codes, signs and codes. One
/// without has a zero scale and zero scale codes; it keeps the codes except in
/// IQ2_XXS and IQ2_XS, and the signs in IQ2_S and IQ3_S alone.
pub proof fn blocks_without_scale_are_zero(
    ty: GgmlType,
    d: u16,
    scales: Seq<u8>,
    signs: Seq<u8>,
    codes: Seq<u16>,
    i: int,
)
    requires
        from_codebook(ty),
        signs.len() == 32,
    ensures
        ({
            let x = coded_block(ty, Some((d, scales)), signs, codes);
            x.d == d && x.scales == scales && x.signs == signs && x.codes == codes
        }),
        ({
            let z = coded_block(ty, None, signs, codes);
            let n: int = if ty == GgmlType::Iq2Xs || ty == GgmlType::Iq2S {
                16
            } else {
                8
            };
            &&& z.d == 0
            &&& z.scales.len() == n
            &&& z.signs.len() == 32
            &&& z.codes.len() == codes.len()
            &&& 0 <= i < n ==> z.scales[i] == 0
            &&& 0 <= i < 32 ==> z.signs[i] == (if ty == GgmlType::Iq2S || ty == GgmlType::Iq3S {
                signs[i]
            } else {
                0
            })
            &&& 0 <= i < codes.len() ==> z.codes[i] == (if ty == GgmlType::Iq2Xxs || ty
                == GgmlType::Iq2Xs {
                0
            } else {
                codes[i]
            })
        }),
{
}

/// A grid serves a format if its points have the format's coordinates and the format's
/// codes can name them all.
pub proof fn grids_serve_their_formats(g: &GridData)
    requires
        g.sound(),
    ensures
        serves(g, GgmlType::Iq2Xxs) <==> g.dim == 8 && g.grid@.len() <= 256,
        serves(g, GgmlType::Iq2Xs) <==> g.dim == 8 && g.grid@.len() <= 512,
        serves(g, GgmlType::Iq2S) <==> g.dim == 8 && g.grid@.len() <= 1024,
        serves(g, GgmlType::Iq3Xxs) <==> g.dim == 4 && g.grid@.len() <= 256,
        serves(g, GgmlType::Iq3S) <==> g.dim == 4 && g.grid@.len() <= 512,
{
}

} // verus!
