//! Value types, for describing the shape that loaded data must have.
use vstd::prelude::*;

verus! {

/// The type of a value, as a schema states it.
#[derive(Debug, PartialEq, Eq)]
pub enum ValueType {
    /// Not known (yet): matches any type.
    Unknown,
    /// Either nothing or a value of the inner type.
    Option(Box<ValueType>),
    Bool,
    /// A signed 64-bit integer.
    Signed,
    /// An unsigned 64-bit integer.
    Unsigned,
    /// A fixed-point number.
    Fixed,
    String,
    Date,
    DateTime,
    /// An array of the inner type.
    Array(Box<ValueType>),
    /// A map from strings to the inner type.
    StringMap(Box<ValueType>),
}

/// Relaxed type equality: an unknown type matches anything, and an optional
/// type matches its inner type.
pub open spec fn relaxed(a: ValueType, b: ValueType) -> bool
    decreases a,
{
    if a == b {
        true
    } else if a is Unknown || b is Unknown {
        true
    } else {
        match a {
            ValueType::Option(i1) => match b {
                ValueType::Option(i2) => relaxed(*i1, *i2),
                _ => relaxed(*i1, b),
            },
            ValueType::Array(i1) => match b {
                ValueType::Array(i2) => relaxed(*i1, *i2),
                _ => false,
            },
            ValueType::StringMap(i1) => match b {
                ValueType::StringMap(i2) => relaxed(*i1, *i2),
                _ => false,
            },
            _ => false,
        }
    }
}

/// Whether two types are the same, compared part by part.
pub fn same_type(a: &ValueType, b: &ValueType) -> (r: bool)
    ensures
        r == (*a == *b),
    decreases a,
{
    match (a, b) {
        (ValueType::Unknown, ValueType::Unknown) => true,
        (ValueType::Option(x), ValueType::Option(y)) => same_type(x, y),
        (ValueType::Bool, ValueType::Bool) => true,
        (ValueType::Signed, ValueType::Signed) => true,
        (ValueType::Unsigned, ValueType::Unsigned) => true,
        (ValueType::Fixed, ValueType::Fixed) => true,
        (ValueType::String, ValueType::String) => true,
        (ValueType::Date, ValueType::Date) => true,
        (ValueType::DateTime, ValueType::DateTime) => true,
        (ValueType::Array(x), ValueType::Array(y)) => same_type(x, y),
        (ValueType::StringMap(x), ValueType::StringMap(y)) => same_type(x, y),
        _ => false,
    }
}

impl ValueType {
    /// A comparison that tolerates what is not known about a type: the type
    /// of an empty array's items or of an absent optional value.
    pub fn relaxed_eq(&self, other: &Self) -> (r: bool)
        ensures
            r == relaxed(*self, *other),
        decreases self,
    {
        if same_type(self, other) {
            return true;
        }
        if let ValueType::Unknown = self {
            return true;
        }
        if let ValueType::Unknown = other {
            return true;
        }
        match self {
            ValueType::Option(inner1) => match other {
                ValueType::Option(inner2) => inner1.relaxed_eq(inner2),
                _ => inner1.relaxed_eq(other),
            },
            ValueType::Array(inner1) => match other {
                ValueType::Array(inner2) => inner1.relaxed_eq(inner2),
                _ => false,
            },
            ValueType::StringMap(inner1) => match other {
                ValueType::StringMap(inner2) => inner1.relaxed_eq(inner2),
                _ => false,
            },
            _ => false,
        }
    }
}

} // verus!
