//! A fixed-dimension vector of exact rationals with element-wise arithmetic,
//! bounds-checked access and a squared-magnitude reduction.

use vstd::prelude::*;
use num_bigint::BigInt;

use crate::math::big_fraction::BigFraction;
use crate::math::bigint::{big_clone, big_cmp, big_from_i64, big_value};
use crate::math::rat::{rat_add, rat_div, rat_mul, rat_sub, rat_zero, Rat};

verus! {

/// A failure of a vector operation.
#[derive(Debug, Clone, Copy, PartialEq, Eq, Structural)]
pub enum VectorError {
    /// An index at or beyond the vector's dimension.
    IndexOutOfRange { index: usize, dimension: usize },
    /// A binary operation on vectors whose dimensions differ.
    DimensionMismatch { left: usize, right: usize },
    /// An element-wise division whose divisor at this index is zero.
    DivisionByZero { index: usize },
}

/// The sum of the squares of the first k elements, accumulated through
/// canonical rational arithmetic.
pub open spec fn mag_sq_partial(s: Seq<Rat>, k: nat) -> Rat
    recommends
        k <= s.len(),
    decreases k,
{
    if k == 0 {
        rat_zero()
    } else {
        rat_add(mag_sq_partial(s, (k - 1) as nat), rat_mul(s[k - 1], s[k - 1]))
    }
}

/// A fixed-dimension, ordered sequence of rationals.  The start offset and
/// stride say how a logical index maps into the backing storage; every vector
/// built today owns its storage with offset 0 and stride 1, and the two
/// fields stay as inert metadata for later non-owning views.
#[derive(Debug, Clone, Eq)]
pub struct BigVector {
    numbers: Vec<BigFraction>,
    dimension: usize,
    start_pos: usize,
    step: usize,
}

impl View for BigVector {
    type V = Seq<Rat>;

    closed spec fn view(&self) -> Seq<Rat> {
        Seq::new(self.numbers@.len(), |i: int| self.numbers@[i]@)
    }
}

impl PartialEq for BigVector {
    fn eq(&self, other: &Self) -> (r: bool) {
        if self.dimension != other.dimension || self.start_pos != other.start_pos || self.step
            != other.step || self.numbers.len() != other.numbers.len() {
            return false;
        }
        let mut i: usize = 0;
        while i < self.numbers.len()
            invariant
                i <= self.numbers@.len(),
                self.numbers@.len() == other.numbers@.len(),
                forall|k: int| 0 <= k < i ==> self.numbers@[k]@ == other.numbers@[k]@,
            decreases self.numbers@.len() - i,
        {
            if !(self.numbers[i] == other.numbers[i]) {
                return false;
            }
            i += 1;
        }
        true
    }
}

impl vstd::std_specs::cmp::PartialEqSpecImpl for BigVector {
    open spec fn obeys_eq_spec() -> bool {
        true
    }

    closed spec fn eq_spec(&self, other: &Self) -> bool {
        &&& self.dimension == other.dimension
        &&& self.start_pos == other.start_pos
        &&& self.step == other.step
        &&& self.numbers@.len() == other.numbers@.len()
        &&& forall|k: int|
            0 <= k < self.numbers@.len() ==> self.numbers@[k]@ == other.numbers@[k]@
    }
}

impl BigVector {
    /// The backing storage matches the declared dimension under the
    /// configured offset and stride (today: offset 0, stride 1, one slot per
    /// logical index).
    pub closed spec fn well_formed(&self) -> bool {
        self.step == 1 && self.start_pos == 0 && self.dimension == self.numbers@.len()
    }

    /// Builds a vector holding copies of the given values; its dimension is
    /// their number.
    pub fn new(number: &[BigFraction]) -> (r: BigVector)
        ensures
            r.well_formed(),
            r@ == number@.map_values(|f: BigFraction| f@),
    {
        let mut numbers: Vec<BigFraction> = Vec::new();
        let mut i: usize = 0;
        while i < number.len()
            invariant
                i <= number@.len(),
                numbers@.len() == i,
                forall|k: int| 0 <= k < i ==> numbers@[k]@ == number@[k]@,
            decreases number@.len() - i,
        {
            numbers.push(number[i].clone());
            i += 1;
        }
        let r = BigVector { dimension: numbers.len(), numbers, start_pos: 0, step: 1 };
        proof {
            assert(r@ =~= number@.map_values(|f: BigFraction| f@));
        }
        r
    }

    /// Builds a vector of whole numbers, each promoted to a fraction over 1.
    pub fn new_int(number: &[BigInt]) -> (r: BigVector)
        ensures
            r.well_formed(),
            r@ == number@.map_values(|b: BigInt| Rat { n: big_value(b), d: 1 }),
    {
        let mut numbers: Vec<BigFraction> = Vec::new();
        let mut i: usize = 0;
        while i < number.len()
            invariant
                i <= number@.len(),
                numbers@.len() == i,
                forall|k: int|
                    0 <= k < i ==> numbers@[k]@ == (Rat { n: big_value(number@[k]), d: 1 }),
            decreases number@.len() - i,
        {
            let f = BigFraction::new_integer(big_clone(&number[i])).unwrap();
            numbers.push(f);
            i += 1;
        }
        let r = BigVector { dimension: numbers.len(), numbers, start_pos: 0, step: 1 };
        proof {
            assert(r@ =~= number@.map_values(|b: BigInt| Rat { n: big_value(b), d: 1 }));
        }
        r
    }

    /// The fixed dimension.
    pub fn dimension(&self) -> (r: usize)
        requires
            self.well_formed(),
        ensures
            r as int == self@.len(),
    {
        self.dimension
    }

    /// A copy of the element at the index; fails with `IndexOutOfRange` when
    /// the index reaches the dimension.
    pub fn get(&self, index: usize) -> (r: Result<BigFraction, VectorError>)
        requires
            self.well_formed(),
        ensures
            index < self@.len() ==> (r matches Ok(f) && f@ == self@[index as int]),
            index >= self@.len() ==> (r matches Err(e) && e matches VectorError::IndexOutOfRange {
                index: ii,
                dimension: dd,
            } && ii == index && dd as int == self@.len()),
    {
        if index >= self.dimension {
            return Err(VectorError::IndexOutOfRange { index, dimension: self.dimension });
        }
        Ok(self.numbers[index].clone())
    }

    /// Replaces the element at the index and returns the value written; fails
    /// with `IndexOutOfRange`, leaving the vector unchanged, when the index
    /// reaches the dimension.
    pub fn set(&mut self, index: usize, value: BigFraction) -> (r: Result<
        BigFraction,
        VectorError,
    >)
        requires
            old(self).well_formed(),
        ensures
            final(self).well_formed(),
            index < old(self)@.len() ==> final(self)@ == old(self)@.update(index as int, value@)
                && (r matches Ok(v) && v@ == value@),
            index >= old(self)@.len() ==> final(self)@ == old(self)@ && (r matches Err(e)
                && e matches VectorError::IndexOutOfRange { index: ii, dimension: dd } && ii
                == index && dd as int == old(self)@.len()),
    {
        if index >= self.dimension {
            return Err(VectorError::IndexOutOfRange { index, dimension: self.dimension });
        }
        let ret = value.clone();
        self.numbers.set(index, value);
        proof {
            assert(self@ =~= old(self)@.update(index as int, ret@));
        }
        Ok(ret)
    }

    /// The sum of the squares of all elements.
    pub fn magnitude_sq(&self) -> (r: BigFraction)
        requires
            self.well_formed(),
        ensures
            r@ == mag_sq_partial(self@, self@.len()),
    {
        let mut magnitude = BigFraction::get_zero();
        let mut i: usize = 0;
        while i < self.dimension
            invariant
                self.well_formed(),
                i <= self@.len(),
                magnitude@ == mag_sq_partial(self@, i as nat),
            decreases self@.len() - i,
        {
            let a = self.get(i).unwrap();
            let b = self.get(i).unwrap();
            magnitude = magnitude.add(a.mul(b));
            i += 1;
        }
        magnitude
    }

    /// Whether every element is zero.
    pub fn is_zero(&self) -> (r: bool)
        requires
            self.well_formed(),
        ensures
            r == forall|k: int| 0 <= k < self@.len() ==> self@[k].n == 0,
    {
        let zero = big_from_i64(0);
        let mut i: usize = 0;
        while i < self.dimension
            invariant
                self.well_formed(),
                i <= self@.len(),
                big_value(zero) == 0,
                forall|k: int| 0 <= k < i ==> self@[k].n == 0,
            decreases self@.len() - i,
        {
            let s = self.get(i).unwrap().signum();
            if big_cmp(&s, &zero) != 0 {
                return false;
            }
            i += 1;
        }
        true
    }

    /// Adds the other vector into this one element by element and hands the
    /// other back; on a dimension mismatch fails with `DimensionMismatch`,
    /// touching nothing.
    pub fn add(&mut self, other: BigVector) -> (r: Result<BigVector, VectorError>)
        requires
            old(self).well_formed(),
            other.well_formed(),
        ensures
            final(self).well_formed(),
            old(self)@.len() != other@.len() ==> final(self)@ == old(self)@ && (r matches Err(e)
                && e matches VectorError::DimensionMismatch { left, right } && left as int == old(
                self,
            )@.len() && right as int == other@.len()),
            old(self)@.len() == other@.len() ==> (r matches Ok(v) && v@ == other@) && final(self)@
                == Seq::new(old(self)@.len(), |k: int| rat_add(old(self)@[k], other@[k])),
    {
        if self.dimension != other.dimension {
            return Err(
                VectorError::DimensionMismatch { left: self.dimension, right: other.dimension },
            );
        }
        let mut i: usize = 0;
        while i < self.dimension
            invariant
                self.well_formed(),
                other.well_formed(),
                self@.len() == old(self)@.len() == other@.len(),
                i <= self@.len(),
                forall|k: int| 0 <= k < i ==> self@[k] == rat_add(old(self)@[k], other@[k]),
                forall|k: int| i <= k < self@.len() ==> self@[k] == old(self)@[k],
            decreases self@.len() - i,
        {
            let a = self.get(i).unwrap();
            let b = other.get(i).unwrap();
            let res = self.set(i, a.add(b));
            proof {
                assert(res is Ok);
            }
            i += 1;
        }
        proof {
            assert(self@ =~= Seq::new(
                old(self)@.len(),
                |k: int| rat_add(old(self)@[k], other@[k]),
            ));
        }
        Ok(other)
    }

    /// Subtracts the other vector from this one element by element and hands
    /// the other back; on a dimension mismatch fails with
    /// `DimensionMismatch`, touching nothing.
    pub fn sub(&mut self, other: BigVector) -> (r: Result<BigVector, VectorError>)
        requires
            old(self).well_formed(),
            other.well_formed(),
        ensures
            final(self).well_formed(),
            old(self)@.len() != other@.len() ==> final(self)@ == old(self)@ && (r matches Err(e)
                && e matches VectorError::DimensionMismatch { left, right } && left as int == old(
                self,
            )@.len() && right as int == other@.len()),
            old(self)@.len() == other@.len() ==> (r matches Ok(v) && v@ == other@) && final(self)@
                == Seq::new(old(self)@.len(), |k: int| rat_sub(old(self)@[k], other@[k])),
    {
        if self.dimension != other.dimension {
            return Err(
                VectorError::DimensionMismatch { left: self.dimension, right: other.dimension },
            );
        }
        let mut i: usize = 0;
        while i < self.dimension
            invariant
                self.well_formed(),
                other.well_formed(),
                self@.len() == old(self)@.len() == other@.len(),
                i <= self@.len(),
                forall|k: int| 0 <= k < i ==> self@[k] == rat_sub(old(self)@[k], other@[k]),
                forall|k: int| i <= k < self@.len() ==> self@[k] == old(self)@[k],
            decreases self@.len() - i,
        {
            let a = self.get(i).unwrap();
            let b = other.get(i).unwrap();
            let res = self.set(i, a.sub(b));
            proof {
                assert(res is Ok);
            }
            i += 1;
        }
        proof {
            assert(self@ =~= Seq::new(
                old(self)@.len(),
                |k: int| rat_sub(old(self)@[k], other@[k]),
            ));
        }
        Ok(other)
    }

    /// Multiplies this vector by the other element by element and hands the
    /// other back; on a dimension mismatch fails with `DimensionMismatch`,
    /// touching nothing.
    pub fn mul(&mut self, other: BigVector) -> (r: Result<BigVector, VectorError>)
        requires
            old(self).well_formed(),
            other.well_formed(),
        ensures
            final(self).well_formed(),
            old(self)@.len() != other@.len() ==> final(self)@ == old(self)@ && (r matches Err(e)
                && e matches VectorError::DimensionMismatch { left, right } && left as int == old(
                self,
            )@.len() && right as int == other@.len()),
            old(self)@.len() == other@.len() ==> (r matches Ok(v) && v@ == other@) && final(self)@
                == Seq::new(old(self)@.len(), |k: int| rat_mul(old(self)@[k], other@[k])),
    {
        if self.dimension != other.dimension {
            return Err(
                VectorError::DimensionMismatch { left: self.dimension, right: other.dimension },
            );
        }
        let mut i: usize = 0;
        while i < self.dimension
            invariant
                self.well_formed(),
                other.well_formed(),
                self@.len() == old(self)@.len() == other@.len(),
                i <= self@.len(),
                forall|k: int| 0 <= k < i ==> self@[k] == rat_mul(old(self)@[k], other@[k]),
                forall|k: int| i <= k < self@.len() ==> self@[k] == old(self)@[k],
            decreases self@.len() - i,
        {
            let a = self.get(i).unwrap();
            let b = other.get(i).unwrap();
            let res = self.set(i, a.mul(b));
            proof {
                assert(res is Ok);
            }
            i += 1;
        }
        proof {
            assert(self@ =~= Seq::new(
                old(self)@.len(),
                |k: int| rat_mul(old(self)@[k], other@[k]),
            ));
        }
        Ok(other)
    }

    /// Divides this vector by the other element by element and hands the
    /// other back.  On a dimension mismatch it fails with
    /// `DimensionMismatch`; when some element of the divisor is zero it fails
    /// with `DivisionByZero` naming the first such index.  On any failure the
    /// vector is left whole, never partially divided.
    pub fn div(&mut self, other: BigVector) -> (r: Result<BigVector, VectorError>)
        requires
            old(self).well_formed(),
            other.well_formed(),
        ensures
            final(self).well_formed(),
            old(self)@.len() != other@.len() ==> final(self)@ == old(self)@ && (r matches Err(e)
                && e matches VectorError::DimensionMismatch { left, right } && left as int == old(
                self,
            )@.len() && right as int == other@.len()),
            old(self)@.len() == other@.len() && (exists|k: int|
                0 <= k < other@.len() && other@[k].n == 0) ==> final(self)@ == old(self)@ && (
            r matches Err(e) && e matches VectorError::DivisionByZero { index } && other@[
                index as int
            ].n == 0 && (forall|k: int| 0 <= k < index ==> other@[k].n != 0)),
            old(self)@.len() == other@.len() && (forall|k: int|
                0 <= k < other@.len() ==> other@[k].n != 0) ==> (r matches Ok(v) && v@ == other@)
                && final(self)@ == Seq::new(
                old(self)@.len(),
                |k: int| rat_div(old(self)@[k], other@[k]),
            ),
    {
        if self.dimension != other.dimension {
            return Err(
                VectorError::DimensionMismatch { left: self.dimension, right: other.dimension },
            );
        }
        let zero = big_from_i64(0);
        let mut i: usize = 0;
        while i < self.dimension
            invariant
                self.well_formed(),
                other.well_formed(),
                self@ == old(self)@,
                self@.len() == other@.len(),
                i <= other@.len(),
                big_value(zero) == 0,
                forall|k: int| 0 <= k < i ==> other@[k].n != 0,
            decreases other@.len() - i,
        {
            let s = other.get(i).unwrap().signum();
            if big_cmp(&s, &zero) == 0 {
                return Err(VectorError::DivisionByZero { index: i });
            }
            i += 1;
        }
        let mut i: usize = 0;
        while i < self.dimension
            invariant
                self.well_formed(),
                other.well_formed(),
                self@.len() == old(self)@.len() == other@.len(),
                i <= self@.len(),
                forall|k: int| 0 <= k < other@.len() ==> other@[k].n != 0,
                forall|k: int| 0 <= k < i ==> self@[k] == rat_div(old(self)@[k], other@[k]),
                forall|k: int| i <= k < self@.len() ==> self@[k] == old(self)@[k],
            decreases self@.len() - i,
        {
            let a = self.get(i).unwrap();
            let b = other.get(i).unwrap();
            let value = a.div(b);
            let res = self.set(i, value.unwrap());
            proof {
                assert(res is Ok);
            }
            i += 1;
        }
        proof {
            assert(self@ =~= Seq::new(
                old(self)@.len(),
                |k: int| rat_div(old(self)@[k], other@[k]),
            ));
        }
        Ok(other)
    }

    /// Exchanges the elements at the two indices in place; fails with
    /// `IndexOutOfRange`, leaving the vector unchanged, when either index
    /// reaches the dimension.
    pub fn swap(&mut self, i: usize, j: usize) -> (r: Result<&Self, VectorError>)
        requires
            old(self).well_formed(),
        ensures
            final(self).well_formed(),
            i < old(self)@.len() && j < old(self)@.len() ==> r is Ok && final(self)@ == old(
                self,
            )@.update(i as int, old(self)@[j as int]).update(j as int, old(self)@[i as int]),
            i >= old(self)@.len() ==> final(self)@ == old(self)@ && (r matches Err(e)
                && e matches VectorError::IndexOutOfRange { index, dimension } && index == i
                && dimension as int == old(self)@.len()),
            i < old(self)@.len() && j >= old(self)@.len() ==> final(self)@ == old(self)@ && (
            r matches Err(e) && e matches VectorError::IndexOutOfRange { index, dimension }
                && index == j && dimension as int == old(self)@.len()),
    {
        let temp = match self.get(i) {
            Ok(t) => t,
            Err(e) => {
                return Err(e);
            },
        };
        let j_value = match self.get(j) {
            Ok(t) => t,
            Err(e) => {
                return Err(e);
            },
        };
        let set_i = self.set(i, j_value);
        proof {
            assert(set_i is Ok);
        }
        let set_j = self.set(j, temp);
        proof {
            assert(set_j is Ok);
        }
        Ok(self)
    }
}

} // verus!
