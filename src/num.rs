//! Numbers of any conventional width and signedness, compared by value.
use vstd::prelude::*;

verus! {

/// A signed or unsigned numeric value.
#[derive(Clone, Copy, Debug)]
pub enum Num {
    U8(u8),
    U16(u16),
    U32(u32),
    U64(u64),
    U128(u128),
    USize(usize),
    I8(i8),
    I16(i16),
    I32(i32),
    I64(i64),
    I128(i128),
    ISize(isize),
}

impl Num {
    /// The mathematical value of this number.
    pub open spec fn value(self) -> int {
        match self {
            Num::U8(v) => v as int,
            Num::U16(v) => v as int,
            Num::U32(v) => v as int,
            Num::U64(v) => v as int,
            Num::U128(v) => v as int,
            Num::USize(v) => v as int,
            Num::I8(v) => v as int,
            Num::I16(v) => v as int,
            Num::I32(v) => v as int,
            Num::I64(v) => v as int,
            Num::I128(v) => v as int,
            Num::ISize(v) => v as int,
        }
    }

    pub open spec fn is_unsigned(self) -> bool {
        self is U8 || self is U16 || self is U32 || self is U64 || self is U128 || self is USize
    }

    /// Converts `self` into a `u128`: `Ok` for the unsigned variants, and the
    /// value as an `i128` in `Err` for the signed ones, whatever their sign.
    pub fn to_u128_strict(self) -> (r: Result<u128, i128>)
        ensures
            self.is_unsigned() ==> r == Ok::<u128, i128>(self.value() as u128),
            !self.is_unsigned() ==> r == Err::<u128, i128>(self.value() as i128),
    {
        match self {
            Num::U8(v) => Ok(v as u128),
            Num::U16(v) => Ok(v as u128),
            Num::U32(v) => Ok(v as u128),
            Num::U64(v) => Ok(v as u128),
            Num::U128(v) => Ok(v as u128),
            Num::USize(v) => Ok(v as u128),
            Num::I8(v) => Err(v as i128),
            Num::I16(v) => Err(v as i128),
            Num::I32(v) => Err(v as i128),
            Num::I64(v) => Err(v as i128),
            Num::I128(v) => Err(v as i128),
            Num::ISize(v) => Err(v as i128),
        }
    }

    /// Converts `self` into a `u128`: `Ok` for every non-negative value, and
    /// the value as an `i128` in `Err` for a negative one.
    pub fn to_u128_lossy(self) -> (r: Result<u128, i128>)
        ensures
            self.value() >= 0 ==> r == Ok::<u128, i128>(self.value() as u128),
            self.value() < 0 ==> r == Err::<u128, i128>(self.value() as i128),
    {
        match self {
            Num::U8(v) => Ok(v as u128),
            Num::U16(v) => Ok(v as u128),
            Num::U32(v) => Ok(v as u128),
            Num::U64(v) => Ok(v as u128),
            Num::U128(v) => Ok(v as u128),
            Num::USize(v) => Ok(v as u128),
            Num::I8(v) => if v >= 0 { Ok(v as u128) } else { Err(v as i128) },
            Num::I16(v) => if v >= 0 { Ok(v as u128) } else { Err(v as i128) },
            Num::I32(v) => if v >= 0 { Ok(v as u128) } else { Err(v as i128) },
            Num::I64(v) => if v >= 0 { Ok(v as u128) } else { Err(v as i128) },
            Num::I128(v) => if v >= 0 { Ok(v as u128) } else { Err(v as i128) },
            Num::ISize(v) => if v >= 0 { Ok(v as u128) } else { Err(v as i128) },
        }
    }

    /// Orders two numbers by their values, whatever their widths.
    pub fn compare(&self, other: &Num) -> (r: core::cmp::Ordering)
        ensures
            (r == core::cmp::Ordering::Less) == (self.value() < other.value()),
            (r == core::cmp::Ordering::Equal) == (self.value() == other.value()),
            (r == core::cmp::Ordering::Greater) == (self.value() > other.value()),
    {
        match (self.to_u128_lossy(), other.to_u128_lossy()) {
            (Ok(a), Ok(b)) => if a < b {
                core::cmp::Ordering::Less
            } else if a == b {
                core::cmp::Ordering::Equal
            } else {
                core::cmp::Ordering::Greater
            },
            (Ok(_), Err(_)) => core::cmp::Ordering::Greater,
            (Err(_), Ok(_)) => core::cmp::Ordering::Less,
            (Err(a), Err(b)) => if a < b {
                core::cmp::Ordering::Less
            } else if a == b {
                core::cmp::Ordering::Equal
            } else {
                core::cmp::Ordering::Greater
            },
        }
    }

    /// Whether the two numbers have the same value.
    pub fn num_eq(&self, other: &Num) -> (r: bool)
        ensures
            r == (self.value() == other.value()),
    {
        match self.compare(other) {
            core::cmp::Ordering::Equal => true,
            _ => false,
        }
    }
}

} // verus!
