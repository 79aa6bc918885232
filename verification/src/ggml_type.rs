//! Tensor element types and their block layouts.

use crate::text::{decimal, decimal_is_spelled, push_decimal};
use vstd::prelude::*;
use vstd::string::*;

verus! {

/// The storage type of a tensor. `Other` carries a type code that has no
/// variant of its own.
#[derive(Debug, Clone, Copy, PartialEq, Eq, Structural, Hash)]
pub enum GgmlType {
    F32,
    F16,
    Bf16,
    Q4_0,
    Q4_1,
    Q5_0,
    Q5_1,
    Q8_0,
    Q4K,
    Q5K,
    Q6K,
    Iq2Xxs,
    Iq2Xs,
    Iq2S,
    Iq3Xxs,
    Iq3S,
    Iq4Nl,
    Iq4Xs,
    Other(u32),
}

/// The type that a file means by the code `v`.
pub open spec fn type_of_code(v: u32) -> GgmlType {
    if v == 0 {
        GgmlType::F32
    } else if v == 1 {
        GgmlType::F16
    } else if v == 2 {
        GgmlType::Q4_0
    } else if v == 3 {
        GgmlType::Q4_1
    } else if v == 6 {
        GgmlType::Q5_0
    } else if v == 7 {
        GgmlType::Q5_1
    } else if v == 8 {
        GgmlType::Q8_0
    } else if v == 12 {
        GgmlType::Q4K
    } else if v == 13 {
        GgmlType::Q5K
    } else if v == 14 {
        GgmlType::Q6K
    } else if v == 16 {
        GgmlType::Iq2Xxs
    } else if v == 17 {
        GgmlType::Iq2Xs
    } else if v == 18 {
        GgmlType::Iq3Xxs
    } else if v == 20 {
        GgmlType::Iq4Nl
    } else if v == 21 {
        GgmlType::Iq3S
    } else if v == 22 {
        GgmlType::Iq2S
    } else if v == 23 {
        GgmlType::Iq4Xs
    } else if v == 30 {
        GgmlType::Bf16
    } else {
        GgmlType::Other(v)
    }
}

impl GgmlType {
    /// The code that stands for the type in a file.
    pub open spec fn code(self) -> u32 {
        match self {
            GgmlType::F32 => 0,
            GgmlType::F16 => 1,
            GgmlType::Q4_0 => 2,
            GgmlType::Q4_1 => 3,
            GgmlType::Q5_0 => 6,
            GgmlType::Q5_1 => 7,
            GgmlType::Q8_0 => 8,
            GgmlType::Q4K => 12,
            GgmlType::Q5K => 13,
            GgmlType::Q6K => 14,
            GgmlType::Iq2Xxs => 16,
            GgmlType::Iq2Xs => 17,
            GgmlType::Iq3Xxs => 18,
            GgmlType::Iq4Nl => 20,
            GgmlType::Iq3S => 21,
            GgmlType::Iq2S => 22,
            GgmlType::Iq4Xs => 23,
            GgmlType::Bf16 => 30,
            GgmlType::Other(v) => v,
        }
    }

    /// The type is the one that its own code is read as: every variant but an
    /// `Other` that carries the code of another variant.
    pub open spec fn canonical(self) -> bool {
        type_of_code(self.code()) == self
    }

    /// Elements per block.
    pub open spec fn block_elems(self) -> nat {
        match self {
            GgmlType::F32 | GgmlType::F16 | GgmlType::Bf16 | GgmlType::Other(_) => 1,
            GgmlType::Q4_0 | GgmlType::Q4_1 | GgmlType::Q5_0 | GgmlType::Q5_1 | GgmlType::Q8_0
            | GgmlType::Iq4Nl => 32,
            _ => 256,
        }
    }

    /// Bytes per block.
    pub open spec fn block_bytes(self) -> nat {
        match self {
            GgmlType::F32 => 4,
            GgmlType::F16 | GgmlType::Bf16 => 2,
            GgmlType::Q4_0 => 18,
            GgmlType::Q4_1 => 20,
            GgmlType::Q5_0 => 22,
            GgmlType::Q5_1 => 24,
            GgmlType::Q8_0 => 34,
            GgmlType::Q4K => 144,
            GgmlType::Q5K => 176,
            GgmlType::Q6K => 210,
            GgmlType::Iq2Xxs => 66,
            GgmlType::Iq2Xs => 74,
            GgmlType::Iq2S => 82,
            GgmlType::Iq3Xxs => 98,
            GgmlType::Iq3S => 110,
            GgmlType::Iq4Nl => 18,
            GgmlType::Iq4Xs => 136,
            GgmlType::Other(_) => 0,
        }
    }

    /// A row of `n` elements is a whole number of blocks.
    pub open spec fn divides(self, n: nat) -> bool {
        n % self.block_elems() == 0
    }

    /// Bytes that a row of `n` elements takes.
    pub open spec fn row_size(self, n: nat) -> nat {
        n / self.block_elems() * self.block_bytes()
    }

    /// The name under which the type is shown.
    pub open spec fn label(self) -> Seq<char> {
        match self {
            GgmlType::F32 => "F32"@,
            GgmlType::F16 => "F16"@,
            GgmlType::Bf16 => "BF16"@,
            GgmlType::Q4_0 => "Q4_0"@,
            GgmlType::Q4_1 => "Q4_1"@,
            GgmlType::Q5_0 => "Q5_0"@,
            GgmlType::Q5_1 => "Q5_1"@,
            GgmlType::Q8_0 => "Q8_0"@,
            GgmlType::Q4K => "Q4_K"@,
            GgmlType::Q5K => "Q5_K"@,
            GgmlType::Q6K => "Q6_K"@,
            GgmlType::Iq2Xxs => "IQ2_XXS"@,
            GgmlType::Iq2Xs => "IQ2_XS"@,
            GgmlType::Iq2S => "IQ2_S"@,
            GgmlType::Iq3Xxs => "IQ3_XXS"@,
            GgmlType::Iq3S => "IQ3_S"@,
            GgmlType::Iq4Nl => "IQ4_NL"@,
            GgmlType::Iq4Xs => "IQ4_XS"@,
            GgmlType::Other(v) => "type"@ + decimal(v as nat),
        }
    }

    /// The type that the code `v` stands for.
    pub fn from_u32(v: u32) -> (r: Self)
        ensures
            r == type_of_code(v),
    {
        match v {
            0 => Self::F32,
            1 => Self::F16,
            2 => Self::Q4_0,
            3 => Self::Q4_1,
            6 => Self::Q5_0,
            7 => Self::Q5_1,
            8 => Self::Q8_0,
            12 => Self::Q4K,
            13 => Self::Q5K,
            14 => Self::Q6K,
            16 => Self::Iq2Xxs,
            17 => Self::Iq2Xs,
            18 => Self::Iq3Xxs,
            20 => Self::Iq4Nl,
            21 => Self::Iq3S,
            22 => Self::Iq2S,
            23 => Self::Iq4Xs,
            30 => Self::Bf16,
            other => Self::Other(other),
        }
    }

    /// The code of the type.
    pub fn to_u32(self) -> (r: u32)
        ensures
            r == self.code(),
    {
        match self {
            Self::F32 => 0,
            Self::F16 => 1,
            Self::Q4_0 => 2,
            Self::Q4_1 => 3,
            Self::Q5_0 => 6,
            Self::Q5_1 => 7,
            Self::Q8_0 => 8,
            Self::Q4K => 12,
            Self::Q5K => 13,
            Self::Q6K => 14,
            Self::Iq2Xxs => 16,
            Self::Iq2Xs => 17,
            Self::Iq3Xxs => 18,
            Self::Iq4Nl => 20,
            Self::Iq3S => 21,
            Self::Iq2S => 22,
            Self::Iq4Xs => 23,
            Self::Bf16 => 30,
            Self::Other(v) => v,
        }
    }

    /// (elements per block, bytes per block)
    pub fn block_layout(self) -> (r: (u64, u64))
        ensures
            r.0 == self.block_elems(),
            r.1 == self.block_bytes(),
    {
        match self {
            Self::F32 => (1, 4),
            Self::F16 | Self::Bf16 => (1, 2),
            Self::Q4_0 => (32, 18),
            Self::Q4_1 => (32, 20),
            Self::Q5_0 => (32, 22),
            Self::Q5_1 => (32, 24),
            Self::Q8_0 => (32, 34),
            Self::Q4K => (256, 144),
            Self::Q5K => (256, 176),
            Self::Q6K => (256, 210),
            Self::Iq2Xxs => (256, 66),
            Self::Iq2Xs => (256, 74),
            Self::Iq2S => (256, 82),
            Self::Iq3Xxs => (256, 98),
            Self::Iq3S => (256, 110),
            Self::Iq4Nl => (32, 18),
            Self::Iq4Xs => (256, 136),
            Self::Other(_) => (1, 0),
        }
    }

    /// Bytes that a row of `n_per_row` elements takes. The row must be a whole
    /// number of blocks.
    pub fn row_bytes(self, n_per_row: u64) -> (r: u64)
        requires
            self.divides(n_per_row as nat),
            self.row_size(n_per_row as nat) <= u64::MAX,
        ensures
            r == self.row_size(n_per_row as nat),
    {
        let (bs, tb) = self.block_layout();
        n_per_row / bs * tb
    }

    /// The row length in bytes, or `None` where the row is no whole number of
    /// blocks or the length does not fit.
    pub fn checked_row_bytes(self, n_per_row: u64) -> (r: Option<u64>)
        ensures
            r is Some <==> self.divides(n_per_row as nat) && self.row_size(n_per_row as nat)
                <= u64::MAX,
            r matches Some(b) ==> b == self.row_size(n_per_row as nat),
    {
        let (bs, tb) = self.block_layout();
        if n_per_row % bs != 0 {
            return None;
        }
        (n_per_row / bs).checked_mul(tb)
    }

    /// The name under which the type is shown.
    pub fn name(self) -> (r: String)
        ensures
            r@ == self.label(),
    {
        let text: &str = match self {
            Self::F32 => "F32",
            Self::F16 => "F16",
            Self::Bf16 => "BF16",
            Self::Q4_0 => "Q4_0",
            Self::Q4_1 => "Q4_1",
            Self::Q5_0 => "Q5_0",
            Self::Q5_1 => "Q5_1",
            Self::Q8_0 => "Q8_0",
            Self::Q4K => "Q4_K",
            Self::Q5K => "Q5_K",
            Self::Q6K => "Q6_K",
            Self::Iq2Xxs => "IQ2_XXS",
            Self::Iq2Xs => "IQ2_XS",
            Self::Iq2S => "IQ2_S",
            Self::Iq3Xxs => "IQ3_XXS",
            Self::Iq3S => "IQ3_S",
            Self::Iq4Nl => "IQ4_NL",
            Self::Iq4Xs => "IQ4_XS",
            Self::Other(v) => {
                let mut s = "type".to_owned();
                push_decimal(&mut s, v as u64);
                return s;
            },
        };
        text.to_owned()
    }
}

/// Reading a type's code gives the type back, unless it is an `Other` that
/// carries the code of another variant.
pub proof fn code_round_trip(ty: GgmlType)
    requires
        ty matches GgmlType::Other(v) ==> type_of_code(v) == ty,
    ensures
        type_of_code(ty.code()) == ty,
{
}

/// Writing the type that was read from a code gives the code back.
pub proof fn type_round_trip(v: u32)
    ensures
        type_of_code(v).code() == v,
        type_of_code(v).canonical(),
{
}

/// Names tell types apart.
pub proof fn labels_tell_types_apart(a: GgmlType, b: GgmlType)
    requires
        a.label() == b.label(),
    ensures
        a == b,
{
    reveal_strlit("F32");
    reveal_strlit("F16");
    reveal_strlit("BF16");
    reveal_strlit("Q4_0");
    reveal_strlit("Q4_1");
    reveal_strlit("Q5_0");
    reveal_strlit("Q5_1");
    reveal_strlit("Q8_0");
    reveal_strlit("Q4_K");
    reveal_strlit("Q5_K");
    reveal_strlit("Q6_K");
    reveal_strlit("IQ2_XXS");
    reveal_strlit("IQ2_XS");
    reveal_strlit("IQ2_S");
    reveal_strlit("IQ3_XXS");
    reveal_strlit("IQ3_S");
    reveal_strlit("IQ4_NL");
    reveal_strlit("IQ4_XS");
    reveal_strlit("type");
    let (s, z) = (a.label(), b.label());
    assert(s.len() == z.len() && s[0] == z[0] && s[1] == z[1] && s[2] == z[2]);
    assert(s.len() > 3 ==> s[3] == z[3]);
    assert(s.len() > 4 ==> s[4] == z[4]);
    assert(s[0] == 't' <==> a is Other);
    assert(z[0] == 't' <==> b is Other);
    match a {
        GgmlType::F32 => {},
        GgmlType::F16 => {},
        GgmlType::Bf16 => {},
        GgmlType::Q4_0 => {},
        GgmlType::Q4_1 => {},
        GgmlType::Q5_0 => {},
        GgmlType::Q5_1 => {},
        GgmlType::Q8_0 => {},
        GgmlType::Q4K => {},
        GgmlType::Q5K => {},
        GgmlType::Q6K => {},
        GgmlType::Iq2Xxs => {},
        GgmlType::Iq2Xs => {},
        GgmlType::Iq2S => {},
        GgmlType::Iq3Xxs => {},
        GgmlType::Iq3S => {},
        GgmlType::Iq4Nl => {},
        GgmlType::Iq4Xs => {},
        GgmlType::Other(v) => {
            let w = b->Other_0;
            decimal_is_spelled(v as nat);
            decimal_is_spelled(w as nat);
            assert(s.subrange(4, s.len() as int) =~= decimal(v as nat));
            assert(z.subrange(4, z.len() as int) =~= decimal(w as nat));
        },
    }
}

} // verus!
