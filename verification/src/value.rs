//! Column types and the values that a lookup hands back.

use vstd::prelude::*;

verus! {

/// The type of a column.
#[derive(Clone, Copy, Debug, PartialEq, Eq, Structural)]
pub enum DataType {
    Int,
    Float,
    Str,
}

/// A value read from a column. A floating-point number is held as its
/// IEEE 754 binary64 bit pattern.
#[derive(Debug)]
pub enum ResultDT {
    Int(i32),
    Float(u64),
    Str(String),
    Null,
}

/// The mathematical value of a cell.
pub enum Value {
    Int(i32),
    Float(u64),
    Str(Seq<char>),
    Null,
}

impl View for ResultDT {
    type V = Value;

    open spec fn view(&self) -> Value {
        match self {
            ResultDT::Int(n) => Value::Int(*n),
            ResultDT::Float(bits) => Value::Float(*bits),
            ResultDT::Str(text) => Value::Str(text@),
            ResultDT::Null => Value::Null,
        }
    }
}

impl Value {
    /// The column type that holds this value; `Null` belongs to no column.
    pub open spec fn kind(self) -> Option<DataType> {
        match self {
            Value::Int(_) => Some(DataType::Int),
            Value::Float(_) => Some(DataType::Float),
            Value::Str(_) => Some(DataType::Str),
            Value::Null => None,
        }
    }
}

/// The values that a sequence of results holds.
pub open spec fn values(results: Seq<ResultDT>) -> Seq<Value> {
    Seq::new(results.len(), |i: int| results[i]@)
}

/// Whether the binary64 bit pattern `bits` is a NaN: all exponent bits set
/// and a fraction that is not zero.
pub open spec fn is_nan(bits: u64) -> bool {
    bits & 0x7ff0_0000_0000_0000 == 0x7ff0_0000_0000_0000 && bits & 0x000f_ffff_ffff_ffff != 0
}

/// Whether the binary64 bit pattern `bits` is zero of either sign.
pub open spec fn is_zero(bits: u64) -> bool {
    bits & 0x7fff_ffff_ffff_ffff == 0
}

/// Equality of two binary64 numbers given by their bit patterns: a NaN equals
/// nothing, the two zeros equal each other, and any other number equals only
/// itself.
pub open spec fn float_eq(a: u64, b: u64) -> bool {
    !is_nan(a) && !is_nan(b) && (a == b || (is_zero(a) && is_zero(b)))
}

/// Equality of two values: they are of the same variant and hold equal
/// contents, floating-point numbers being compared as numbers.
pub open spec fn value_eq(a: Value, b: Value) -> bool {
    match (a, b) {
        (Value::Int(x), Value::Int(y)) => x == y,
        (Value::Float(x), Value::Float(y)) => float_eq(x, y),
        (Value::Str(x), Value::Str(y)) => x == y,
        (Value::Null, Value::Null) => true,
        _ => false,
    }
}

/// Compares two binary64 bit patterns as numbers.
pub fn float_bits_eq(a: u64, b: u64) -> (r: bool)
    ensures
        r == float_eq(a, b),
{
    let a_nan = a & 0x7ff0_0000_0000_0000 == 0x7ff0_0000_0000_0000 && a & 0x000f_ffff_ffff_ffff != 0;
    let b_nan = b & 0x7ff0_0000_0000_0000 == 0x7ff0_0000_0000_0000 && b & 0x000f_ffff_ffff_ffff != 0;
    let both_zero = a & 0x7fff_ffff_ffff_ffff == 0 && b & 0x7fff_ffff_ffff_ffff == 0;
    !a_nan && !b_nan && (a == b || both_zero)
}

impl PartialEq for ResultDT {
    fn eq(&self, other: &Self) -> (r: bool) {
        match self {
            ResultDT::Int(x) => match other {
                ResultDT::Int(y) => *x == *y,
                _ => false,
            },
            ResultDT::Float(x) => match other {
                ResultDT::Float(y) => float_bits_eq(*x, *y),
                _ => false,
            },
            ResultDT::Str(x) => match other {
                ResultDT::Str(y) => *x == *y,
                _ => false,
            },
            ResultDT::Null => match other {
                ResultDT::Null => true,
                _ => false,
            },
        }
    }
}

impl vstd::std_specs::cmp::PartialEqSpecImpl for ResultDT {
    open spec fn obeys_eq_spec() -> bool {
        true
    }

    open spec fn eq_spec(&self, other: &Self) -> bool {
        value_eq(self@, other@)
    }
}

impl Eq for ResultDT {

}

} // verus!
