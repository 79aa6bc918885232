//! Metadata values.

use vstd::prelude::*;
use vstd::string::*;
use vstd::utf8::*;

use crate::le::{le_bytes, push_le};

verus! {

/// A metadata value. Floating-point values are carried as their IEEE-754 bit
/// patterns.
#[derive(Debug, PartialEq)]
pub enum Value {
    U8(u8),
    I8(i8),
    U16(u16),
    I16(i16),
    U32(u32),
    I32(i32),
    F32(u32),
    Bool(bool),
    Str(String),
    U64(u64),
    I64(i64),
    F64(u64),
    /// (element type id, values)
    Arr(u32, Vec<Value>),
}

/// What a `Value` holds.
pub enum Val {
    U8(u8),
    I8(i8),
    U16(u16),
    I16(i16),
    U32(u32),
    I32(i32),
    F32(u32),
    Bool(bool),
    Str(Seq<char>),
    U64(u64),
    I64(i64),
    F64(u64),
    Arr(u32, Seq<Val>),
}

impl Value {
    /// What the value holds.
    pub open spec fn val(self) -> Val
        decreases self,
    {
        match self {
            Value::U8(x) => Val::U8(x),
            Value::I8(x) => Val::I8(x),
            Value::U16(x) => Val::U16(x),
            Value::I16(x) => Val::I16(x),
            Value::U32(x) => Val::U32(x),
            Value::I32(x) => Val::I32(x),
            Value::F32(x) => Val::F32(x),
            Value::Bool(x) => Val::Bool(x),
            Value::Str(s) => Val::Str(s@),
            Value::U64(x) => Val::U64(x),
            Value::I64(x) => Val::I64(x),
            Value::F64(x) => Val::F64(x),
            Value::Arr(t, vs) => Val::Arr(
                t,
                Seq::new(vs@.len(), |i: int| if 0 <= i < vs@.len() { vs@[i].val() } else { Val::U8(0) }),
            ),
        }
    }
}

impl View for Value {
    type V = Val;

    open spec fn view(&self) -> Val {
        self.val()
    }
}

/// What each of some values holds.
pub open spec fn views(vs: Seq<Value>) -> Seq<Val> {
    Seq::new(vs.len(), |i: int| vs[i]@)
}

/// What an array value holds.
pub proof fn array_view(t: u32, vs: Vec<Value>)
    ensures
        Value::Arr(t, vs)@ == Val::Arr(t, views(vs@)),
{
    let a = Value::Arr(t, vs)@;
    assert(a matches Val::Arr(t2, s) && t2 == t && s =~= views(vs@));
}

impl Value {
    /// A value with the same contents.
    pub fn duplicate(&self) -> (r: Value)
        ensures
            r@ == self@,
        decreases self,
    {
        match self {
            Value::U8(x) => Value::U8(*x),
            Value::I8(x) => Value::I8(*x),
            Value::U16(x) => Value::U16(*x),
            Value::I16(x) => Value::I16(*x),
            Value::U32(x) => Value::U32(*x),
            Value::I32(x) => Value::I32(*x),
            Value::F32(x) => Value::F32(*x),
            Value::Bool(x) => Value::Bool(*x),
            Value::Str(s) => Value::Str(s.clone()),
            Value::U64(x) => Value::U64(*x),
            Value::I64(x) => Value::I64(*x),
            Value::F64(x) => Value::F64(*x),
            Value::Arr(t, vs) => {
                let mut out: Vec<Value> = Vec::new();
                let n: usize = vs.len();
                for i in 0..n
                    invariant
                        n == vs@.len(),
                        *self == Value::Arr(*t, *vs),
                        out@.len() == i,
                        forall|k: int| 0 <= k < i ==> (#[trigger] out@[k])@ == vs@[k]@,
                {
                    let ghost before = out@;
                    assert(decreases_to!(*self => self->Arr_1));
                    assert(self->Arr_1 == *vs);
                    assert(decreases_to!(*vs => vs@));
                    assert(decreases_to!(vs@ => vs@[i as int]));
                    let v = vs[i].duplicate();
                    out.push(v);
                    assert(forall|k: int| 0 <= k < i ==> #[trigger] out@[k] == before[k]);
                }
                proof {
                    array_view(*t, *vs);
                    array_view(*t, out);
                    assert(views(out@) =~= views(vs@));
                }
                Value::Arr(*t, out)
            },
        }
    }
}

impl Clone for Value {
    fn clone(&self) -> (r: Value)
        ensures
            r@ == self@,
    {
        self.duplicate()
    }
}

impl Val {
    /// The code of the value's type.
    pub open spec fn type_code(self) -> u32 {
        match self {
            Val::U8(_) => 0,
            Val::I8(_) => 1,
            Val::U16(_) => 2,
            Val::I16(_) => 3,
            Val::U32(_) => 4,
            Val::I32(_) => 5,
            Val::F32(_) => 6,
            Val::Bool(_) => 7,
            Val::Str(_) => 8,
            Val::Arr(..) => 9,
            Val::U64(_) => 10,
            Val::I64(_) => 11,
            Val::F64(_) => 12,
        }
    }

    /// The value as a non-negative integer, where it is one.
    pub open spec fn unsigned(self) -> Option<u64> {
        match self {
            Val::U8(v) => Some(v as u64),
            Val::U16(v) => Some(v as u64),
            Val::U32(v) => Some(v as u64),
            Val::U64(v) => Some(v),
            Val::I8(v) => if v >= 0 { Some(v as u64) } else { None },
            Val::I16(v) => if v >= 0 { Some(v as u64) } else { None },
            Val::I32(v) => if v >= 0 { Some(v as u64) } else { None },
            Val::I64(v) => if v >= 0 { Some(v as u64) } else { None },
            _ => None,
        }
    }

    /// Every array in the value has elements of the type that it declares, and
    /// the lengths of strings and arrays fit in 64 bits.
    pub open spec fn well_typed(self) -> bool
        decreases self,
    {
        match self {
            Val::Str(s) => encode_utf8(s).len() <= u64::MAX,
            Val::Arr(t, vs) => vs.len() <= u64::MAX && all_typed(t, vs),
            _ => true,
        }
    }

    /// The bytes that stand for the value in a file.
    pub open spec fn bytes(self) -> Seq<u8>
        decreases self,
    {
        match self {
            Val::U8(x) => seq![x],
            Val::I8(x) => seq![x as u8],
            Val::U16(x) => le_bytes(x as nat, 2),
            Val::I16(x) => le_bytes((x as u16) as nat, 2),
            Val::U32(x) => le_bytes(x as nat, 4),
            Val::I32(x) => le_bytes((x as u32) as nat, 4),
            Val::F32(x) => le_bytes(x as nat, 4),
            Val::Bool(x) => seq![if x { 1u8 } else { 0u8 }],
            Val::Str(s) => string_bytes(s),
            Val::U64(x) => le_bytes(x as nat, 8),
            Val::I64(x) => le_bytes((x as u64) as nat, 8),
            Val::F64(x) => le_bytes(x as nat, 8),
            Val::Arr(t, vs) => le_bytes(t as nat, 4) + le_bytes(vs.len(), 8) + all_bytes(vs),
        }
    }
}

/// Every value has the type `t` and is itself well typed.
pub open spec fn all_typed(t: u32, vs: Seq<Val>) -> bool
    decreases vs,
{
    vs.len() == 0 || (vs[0].type_code() == t && vs[0].well_typed() && all_typed(
        t,
        vs.subrange(1, vs.len() as int),
    ))
}

/// The bytes of some values, one after the other.
pub open spec fn all_bytes(vs: Seq<Val>) -> Seq<u8>
    decreases vs,
{
    if vs.len() == 0 {
        seq![]
    } else {
        vs[0].bytes() + all_bytes(vs.subrange(1, vs.len() as int))
    }
}

/// The bytes of a string: its length in UTF-8, then its UTF-8 bytes.
pub open spec fn string_bytes(s: Seq<char>) -> Seq<u8> {
    le_bytes(encode_utf8(s).len(), 8) + encode_utf8(s)
}

impl Value {
    /// The value as a non-negative integer, where it is one.
    pub fn as_u64(&self) -> (r: Option<u64>)
        ensures
            r == self@.unsigned(),
    {
        match *self {
            Value::U8(v) => Some(v as u64),
            Value::U16(v) => Some(v as u64),
            Value::U32(v) => Some(v as u64),
            Value::U64(v) => Some(v),
            Value::I8(v) => if v >= 0 { Some(v as u64) } else { None },
            Value::I16(v) => if v >= 0 { Some(v as u64) } else { None },
            Value::I32(v) => if v >= 0 { Some(v as u64) } else { None },
            Value::I64(v) => if v >= 0 { Some(v as u64) } else { None },
            _ => None,
        }
    }

    /// The value as a string, where it is one.
    pub fn as_str(&self) -> (r: Option<&str>)
        ensures
            r is Some <==> self@ is Str,
            r matches Some(s) ==> self@ == Val::Str(s@),
    {
        match self {
            Value::Str(s) => Some(s.as_str()),
            _ => None,
        }
    }

    /// The code of the value's type.
    pub fn type_id(&self) -> (r: u32)
        ensures
            r == self@.type_code(),
    {
        match self {
            Value::U8(_) => 0,
            Value::I8(_) => 1,
            Value::U16(_) => 2,
            Value::I16(_) => 3,
            Value::U32(_) => 4,
            Value::I32(_) => 5,
            Value::F32(_) => 6,
            Value::Bool(_) => 7,
            Value::Str(_) => 8,
            Value::Arr(..) => 9,
            Value::U64(_) => 10,
            Value::I64(_) => 11,
            Value::F64(_) => 12,
        }
    }
}

/// Appends a string: its length in bytes, then the bytes.
pub fn write_string(out: &mut Vec<u8>, s: &str)
    ensures
        final(out)@ == old(out)@ + string_bytes(s@),
{
    let b = s.as_bytes();
    push_le(out, b.len() as u64, 8);
    out.extend_from_slice(b);
    assert(out@ =~= old(out)@ + string_bytes(s@));
}

/// Appends a value.
pub fn write_value(out: &mut Vec<u8>, v: &Value)
    ensures
        final(out)@ == old(out)@ + v@.bytes(),
    decreases v,
{
    match v {
        Value::U8(x) => out.push(*x),
        Value::I8(x) => out.push(*x as u8),
        Value::U16(x) => push_le(out, *x as u64, 2),
        Value::I16(x) => push_le(out, *x as u16 as u64, 2),
        Value::U32(x) => push_le(out, *x as u64, 4),
        Value::I32(x) => push_le(out, *x as u32 as u64, 4),
        Value::F32(x) => push_le(out, *x as u64, 4),
        Value::Bool(x) => out.push(if *x { 1 } else { 0 }),
        Value::Str(s) => write_string(out, s.as_str()),
        Value::U64(x) => push_le(out, *x, 8),
        Value::I64(x) => push_le(out, *x as u64, 8),
        Value::F64(x) => push_le(out, *x, 8),
        Value::Arr(t, vs) => {
            let ghost start = out@;
            push_le(out, *t as u64, 4);
            push_le(out, vs.len() as u64, 8);
            let ghost head = out@;
            let n: usize = vs.len();
            proof {
                array_view(*t, *vs);
            }
            assert(views(vs@).subrange(0, views(vs@).len() as int) =~= views(vs@));
            for i in 0..n
                invariant
                    n == vs@.len(),
                    *v == Value::Arr(*t, *vs),
                    head + all_bytes(views(vs@)) == out@ + all_bytes(
                        views(vs@).subrange(i as int, n as int),
                    ),
            {
                let ghost before = out@;
                let ghost rest = views(vs@).subrange(i as int, n as int);
                assert(decreases_to!(*v => v->Arr_1));
                assert(v->Arr_1 == *vs);
                assert(decreases_to!(*vs => vs@));
                assert(decreases_to!(vs@ => vs@[i as int]));
                write_value(out, &vs[i]);
                assert(rest[0] == vs@[i as int]@);
                assert(rest.subrange(1, rest.len() as int) =~= views(vs@).subrange(
                    i + 1,
                    n as int,
                ));
                assert(out@ + all_bytes(rest.subrange(1, rest.len() as int)) =~= before + all_bytes(
                    rest,
                ));
            }
            assert(all_bytes(views(vs@).subrange(n as int, n as int)) =~= Seq::<u8>::empty());
            assert(out@ =~= start + v@.bytes());
        },
    }
    assert(out@ =~= old(out)@ + v@.bytes());
}

} // verus!
