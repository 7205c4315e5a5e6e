//! Quantities that are either fixed or rolled afresh for every individual.

use vstd::prelude::*;
use rand::rngs::StdRng;
use crate::random::gen_range;

verus! {

/// A fixed quantity, or a range to draw from: from the first number up to,
/// and not including, the second.
#[derive(Copy, Clone, Debug, PartialEq, Eq)]
pub enum Value<T> {
    Manual(T),
    Random(T, T),
}

/// Whether a range holds a number.
pub open spec fn range_valid(low: int, high: int) -> bool {
    low < high
}

impl Value<u8> {
    /// Whether the quantity can be resolved.
    pub open spec fn valid(&self) -> bool {
        match *self {
            Value::Manual(_) => true,
            Value::Random(s, e) => range_valid(s as int, e as int),
        }
    }

    /// Tests whether the quantity can be resolved.
    pub fn is_valid(&self) -> (b: bool)
        ensures
            b == self.valid(),
    {
        match self {
            Value::Manual(_) => true,
            Value::Random(s, e) => *s < *e,
        }
    }

    /// Whether `v` is something that the quantity can resolve to.
    pub open spec fn admits(&self, v: u8) -> bool {
        match *self {
            Value::Manual(m) => v == m,
            Value::Random(s, e) => s <= v < e,
        }
    }

    /// Resolves the quantity.
    pub fn get(&self, r: &mut StdRng) -> (v: u8)
        requires
            self.valid(),
        ensures
            self.admits(v),
    {
        match self {
            Value::Manual(v) => *v,
            Value::Random(s, e) => gen_range(r, *s as u64, *e as u64) as u8,
        }
    }
}

impl Value<u16> {
    /// Whether the quantity can be resolved.
    pub open spec fn valid(&self) -> bool {
        match *self {
            Value::Manual(_) => true,
            Value::Random(s, e) => range_valid(s as int, e as int),
        }
    }

    /// Tests whether the quantity can be resolved.
    pub fn is_valid(&self) -> (b: bool)
        ensures
            b == self.valid(),
    {
        match self {
            Value::Manual(_) => true,
            Value::Random(s, e) => *s < *e,
        }
    }

    /// Whether `v` is something that the quantity can resolve to.
    pub open spec fn admits(&self, v: u16) -> bool {
        match *self {
            Value::Manual(m) => v == m,
            Value::Random(s, e) => s <= v < e,
        }
    }

    /// Resolves the quantity.
    pub fn get(&self, r: &mut StdRng) -> (v: u16)
        requires
            self.valid(),
        ensures
            self.admits(v),
    {
        match self {
            Value::Manual(v) => *v,
            Value::Random(s, e) => gen_range(r, *s as u64, *e as u64) as u16,
        }
    }
}

impl Value<u32> {
    /// Whether the quantity can be resolved.
    pub open spec fn valid(&self) -> bool {
        match *self {
            Value::Manual(_) => true,
            Value::Random(s, e) => range_valid(s as int, e as int),
        }
    }

    /// Tests whether the quantity can be resolved.
    pub fn is_valid(&self) -> (b: bool)
        ensures
            b == self.valid(),
    {
        match self {
            Value::Manual(_) => true,
            Value::Random(s, e) => *s < *e,
        }
    }

    /// Whether `v` is something that the quantity can resolve to.
    pub open spec fn admits(&self, v: u32) -> bool {
        match *self {
            Value::Manual(m) => v == m,
            Value::Random(s, e) => s <= v < e,
        }
    }

    /// Resolves the quantity.
    pub fn get(&self, r: &mut StdRng) -> (v: u32)
        requires
            self.valid(),
        ensures
            self.admits(v),
    {
        match self {
            Value::Manual(v) => *v,
            Value::Random(s, e) => gen_range(r, *s as u64, *e as u64) as u32,
        }
    }
}

impl Value<u64> {
    /// Whether the quantity can be resolved.
    pub open spec fn valid(&self) -> bool {
        match *self {
            Value::Manual(_) => true,
            Value::Random(s, e) => range_valid(s as int, e as int),
        }
    }

    /// Tests whether the quantity can be resolved.
    pub fn is_valid(&self) -> (b: bool)
        ensures
            b == self.valid(),
    {
        match self {
            Value::Manual(_) => true,
            Value::Random(s, e) => *s < *e,
        }
    }

    /// Whether `v` is something that the quantity can resolve to.
    pub open spec fn admits(&self, v: u64) -> bool {
        match *self {
            Value::Manual(m) => v == m,
            Value::Random(s, e) => s <= v < e,
        }
    }

    /// Resolves the quantity.
    pub fn get(&self, r: &mut StdRng) -> (v: u64)
        requires
            self.valid(),
        ensures
            self.admits(v),
    {
        match self {
            Value::Manual(v) => *v,
            Value::Random(s, e) => gen_range(r, *s, *e),
        }
    }
}

impl Value<usize> {
    /// Whether the quantity can be resolved.
    pub open spec fn valid(&self) -> bool {
        match *self {
            Value::Manual(_) => true,
            Value::Random(s, e) => range_valid(s as int, e as int),
        }
    }

    /// Tests whether the quantity can be resolved.
    pub fn is_valid(&self) -> (b: bool)
        ensures
            b == self.valid(),
    {
        match self {
            Value::Manual(_) => true,
            Value::Random(s, e) => *s < *e,
        }
    }

    /// Whether `v` is something that the quantity can resolve to.
    pub open spec fn admits(&self, v: usize) -> bool {
        match *self {
            Value::Manual(m) => v == m,
            Value::Random(s, e) => s <= v < e,
        }
    }

    /// Resolves the quantity.
    pub fn get(&self, r: &mut StdRng) -> (v: usize)
        requires
            self.valid(),
        ensures
            self.admits(v),
    {
        match self {
            Value::Manual(v) => *v,
            Value::Random(s, e) => gen_range(r, *s as u64, *e as u64) as usize,
        }
    }
}

} // verus!
