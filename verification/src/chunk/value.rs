//! Runtime values and the constant pool.
//!
//! A number is a 64-bit IEEE-754 double, held here by its bit pattern: the
//! comparisons, the negation and the truth test that the machine needs are
//! stated exactly on those bits, while the arithmetic itself is left to the
//! host's floating-point unit.

use std::rc::Rc;
use vstd::prelude::*;
use vstd::std_specs::cmp::PartialEqSpecImpl;
use crate::chunk::obj::Object;

verus! {

/// The sign bit of a double.
pub const SIGN_BIT: u64 = 0x8000_0000_0000_0000;

/// Every bit of a double but its sign.
pub const MAGNITUDE_BITS: u64 = 0x7fff_ffff_ffff_ffff;

/// The exponent bits of a double.
pub const EXPONENT_BITS: u64 = 0x7ff0_0000_0000_0000;

/// The fraction bits of a double.
pub const FRACTION_BITS: u64 = 0x000f_ffff_ffff_ffff;

/// The double is a NaN: all exponent bits set and a non-zero fraction.
pub open spec fn is_nan_bits(b: u64) -> bool {
    b & EXPONENT_BITS == EXPONENT_BITS && b & FRACTION_BITS != 0
}

/// The double is +0.0 or -0.0.
pub open spec fn is_zero_bits(b: u64) -> bool {
    b & MAGNITUDE_BITS == 0
}

/// IEEE equality: no NaN equals anything, and the two zeros are equal.
pub open spec fn double_eq(a: u64, b: u64) -> bool {
    !is_nan_bits(a) && !is_nan_bits(b) && (a == b || (is_zero_bits(a) && is_zero_bits(b)))
}

/// An integer that orders the doubles that are not NaN as their values are
/// ordered (the magnitude bits order the magnitudes; both zeros map to 0).
pub open spec fn order_key(b: u64) -> int {
    if b & SIGN_BIT != 0 {
        -((b & MAGNITUDE_BITS) as int)
    } else {
        (b & MAGNITUDE_BITS) as int
    }
}

/// IEEE `<`: false whenever either operand is NaN.
pub open spec fn double_lt(a: u64, b: u64) -> bool {
    !is_nan_bits(a) && !is_nan_bits(b) && order_key(a) < order_key(b)
}

/// IEEE negation flips the sign bit, NaNs included.
pub open spec fn double_neg(a: u64) -> u64 {
    a ^ SIGN_BIT
}

/// Whether the double with bits `b` is a NaN.
pub fn is_nan(b: u64) -> (r: bool)
    ensures
        r == is_nan_bits(b),
{
    b & EXPONENT_BITS == EXPONENT_BITS && b & FRACTION_BITS != 0
}

/// `==` on the doubles with bits `a` and `b`.
pub fn double_equal(a: u64, b: u64) -> (r: bool)
    ensures
        r == double_eq(a, b),
{
    !is_nan(a) && !is_nan(b) && (a == b || (a & MAGNITUDE_BITS == 0 && b & MAGNITUDE_BITS == 0))
}

fn key(b: u64) -> (k: i128)
    ensures
        k == order_key(b),
{
    let m: u64 = b & MAGNITUDE_BITS;
    if b & SIGN_BIT != 0 {
        -(m as i128)
    } else {
        m as i128
    }
}

/// `<` on the doubles with bits `a` and `b`.
pub fn double_less(a: u64, b: u64) -> (r: bool)
    ensures
        r == double_lt(a, b),
{
    !is_nan(a) && !is_nan(b) && key(a) < key(b)
}

/// The bits of the negated double.
pub fn double_negate(a: u64) -> (r: u64)
    ensures
        r == double_neg(a),
{
    a ^ SIGN_BIT
}

/// Negating twice gives back the same double, bit for bit.
pub proof fn negation_is_involutive(a: u64)
    ensures
        double_neg(double_neg(a)) == a,
{
    assert((a ^ 0x8000_0000_0000_0000u64) ^ 0x8000_0000_0000_0000u64 == a) by (bit_vector);
}

/// The two zeros are equal, and NaN equals nothing, not even itself.
pub proof fn zeros_equal_and_nan_unequal(a: u64, b: u64)
    ensures
        is_zero_bits(a) && is_zero_bits(b) ==> double_eq(a, b),
        is_nan_bits(a) ==> !double_eq(a, b) && !double_eq(b, a),
{
    assert(is_zero_bits(a) ==> !is_nan_bits(a)) by (bit_vector);
    assert(is_zero_bits(b) ==> !is_nan_bits(b)) by (bit_vector);
}

/// Negation flips the sign of a double and keeps its magnitude, and a NaN
/// stays a NaN.
pub proof fn negation_flips_the_sign(a: u64)
    ensures
        double_neg(a) & MAGNITUDE_BITS == a & MAGNITUDE_BITS,
        (double_neg(a) & SIGN_BIT == 0) <==> (a & SIGN_BIT != 0),
        is_nan_bits(double_neg(a)) == is_nan_bits(a),
{
    assert((a ^ 0x8000_0000_0000_0000u64) & 0x7fff_ffff_ffff_ffffu64 == a
        & 0x7fff_ffff_ffff_ffffu64) by (bit_vector);
    assert(((a ^ 0x8000_0000_0000_0000u64) & 0x8000_0000_0000_0000u64 == 0) <==> (a
        & 0x8000_0000_0000_0000u64 != 0)) by (bit_vector);
    assert((a ^ 0x8000_0000_0000_0000u64) & 0x7ff0_0000_0000_0000u64 == a
        & 0x7ff0_0000_0000_0000u64) by (bit_vector);
    assert((a ^ 0x8000_0000_0000_0000u64) & 0x000f_ffff_ffff_ffffu64 == a
        & 0x000f_ffff_ffff_ffffu64) by (bit_vector);
}

/// The doubles that are not NaN are totally ordered: of `a < b`, `a == b` and
/// `b < a` exactly one holds. A negative number is below a positive one, and
/// negating both operands reverses `<` and keeps `==`.
pub proof fn doubles_are_ordered(a: u64, b: u64)
    ensures
        !is_nan_bits(a) && !is_nan_bits(b) ==> (double_lt(a, b) || double_eq(a, b) || double_lt(
            b,
            a,
        )),
        !(double_lt(a, b) && double_eq(a, b)),
        !(double_lt(a, b) && double_lt(b, a)),
        !is_nan_bits(a) && !is_nan_bits(b) && a & SIGN_BIT != 0 && b & SIGN_BIT == 0 && !(
        is_zero_bits(a) && is_zero_bits(b)) ==> double_lt(a, b),
        double_lt(a, b) == double_lt(double_neg(b), double_neg(a)),
        double_eq(a, b) == double_eq(double_neg(a), double_neg(b)),
{
    negation_flips_the_sign(a);
    negation_flips_the_sign(b);
    assert((a == b) <==> (a & 0x8000_0000_0000_0000u64 == b & 0x8000_0000_0000_0000u64 && a
        & 0x7fff_ffff_ffff_ffffu64 == b & 0x7fff_ffff_ffff_ffffu64)) by (bit_vector);
    assert((a ^ 0x8000_0000_0000_0000u64 == b ^ 0x8000_0000_0000_0000u64) <==> (a == b))
        by (bit_vector);
    assert(a & 0x8000_0000_0000_0000u64 == 0 || a & 0x8000_0000_0000_0000u64
        == 0x8000_0000_0000_0000u64) by (bit_vector);
    assert(b & 0x8000_0000_0000_0000u64 == 0 || b & 0x8000_0000_0000_0000u64
        == 0x8000_0000_0000_0000u64) by (bit_vector);
    let ma = (a & MAGNITUDE_BITS) as int;
    let mb = (b & MAGNITUDE_BITS) as int;
    assert(ma >= 0 && mb >= 0);
    if order_key(a) == order_key(b) {
        if (a & SIGN_BIT != 0) == (b & SIGN_BIT != 0) {
            assert(ma == mb);
            assert(a & SIGN_BIT == b & SIGN_BIT);
            assert(a == b);
        } else {
            assert(ma == 0 && mb == 0);
        }
    }
}

/// A runtime value. `Double` holds the bit pattern of an IEEE-754 double.
#[derive(Debug, Clone)]
pub enum Value {
    Double(u64),
    Boolean(bool),
    Nil,
    Obj(Rc<Object>),
}

/// `==` on values: numbers by IEEE equality, booleans by value, `nil` equals
/// `nil`; values of different kinds, and objects, are never equal.
pub open spec fn values_equal(a: Value, b: Value) -> bool {
    match (a, b) {
        (Value::Nil, Value::Nil) => true,
        (Value::Boolean(x), Value::Boolean(y)) => x == y,
        (Value::Double(x), Value::Double(y)) => double_eq(x, y),
        _ => false,
    }
}

/// `<` on values: defined between numbers only, false otherwise.
pub open spec fn value_less(a: Value, b: Value) -> bool {
    match (a, b) {
        (Value::Double(x), Value::Double(y)) => double_lt(x, y),
        _ => false,
    }
}

/// Falsy are `nil`, `false` and the zeros; everything else is truthy.
pub open spec fn truthy(v: Value) -> bool {
    match v {
        Value::Double(b) => !is_zero_bits(b),
        Value::Boolean(b) => b,
        Value::Nil => false,
        Value::Obj(_) => true,
    }
}

/// A number is false exactly when it is one of the two zeros, +0.0 (no bit
/// set) or -0.0 (the sign bit alone); so negating a number never changes
/// whether it counts as true.
pub proof fn numbers_are_false_only_at_zero(b: u64)
    ensures
        truthy(Value::Double(b)) <==> (b != 0 && b != 0x8000_0000_0000_0000u64),
        truthy(Value::Double(double_neg(b))) == truthy(Value::Double(b)),
{
    assert((b & 0x7fff_ffff_ffff_ffffu64 == 0) <==> (b == 0 || b == 0x8000_0000_0000_0000u64))
        by (bit_vector);
    assert(((b ^ 0x8000_0000_0000_0000u64) & 0x7fff_ffff_ffff_ffffu64 == 0) <==> (b
        & 0x7fff_ffff_ffff_ffffu64 == 0)) by (bit_vector);
}

/// Equality of values is symmetric, and `<` between them is irreflexive and
/// asymmetric.
pub proof fn value_comparisons_are_consistent(a: Value, b: Value)
    ensures
        values_equal(a, b) == values_equal(b, a),
        !value_less(a, a),
        value_less(a, b) ==> !value_less(b, a),
{
}

impl PartialEq for Value {
    fn eq(&self, other: &Self) -> (r: bool) {
        match (self, other) {
            (Value::Nil, Value::Nil) => true,
            (Value::Boolean(v1), Value::Boolean(v2)) => *v1 == *v2,
            (Value::Double(v1), Value::Double(v2)) => double_equal(*v1, *v2),
            _ => false,
        }
    }
}

impl PartialEqSpecImpl for Value {
    open spec fn obeys_eq_spec() -> bool {
        true
    }

    open spec fn eq_spec(&self, other: &Value) -> bool {
        values_equal(*self, *other)
    }
}

impl Value {
    /// Whether the value counts as true in a condition: only `nil`, `false`
    /// and zero are false.
    pub fn is_truthy(&self) -> (r: bool)
        ensures
            r == truthy(*self),
    {
        match self {
            Value::Double(b) => *b & MAGNITUDE_BITS != 0,
            Value::Boolean(v) => *v,
            Value::Nil => false,
            Value::Obj(_) => true,
        }
    }

    /// `self < other`.
    pub fn less_than(&self, other: &Value) -> (r: bool)
        ensures
            r == value_less(*self, *other),
    {
        match (self, other) {
            (Value::Double(a), Value::Double(b)) => double_less(*a, *b),
            _ => false,
        }
    }

    /// `self > other`, which is `other < self`.
    pub fn greater_than(&self, other: &Value) -> (r: bool)
        ensures
            r == value_less(*other, *self),
    {
        other.less_than(self)
    }
}

/// The capacity of a vector, which is at least its length.
#[verifier::external_body]
pub(crate) fn vec_capacity<T>(v: &Vec<T>) -> (c: usize)
    ensures
        c >= v@.len(),
{
    v.capacity()
}

/// The constant pool of a chunk.
#[derive(Debug, Clone)]
pub struct ValueArray {
    values: Vec<Value>,
}

impl View for ValueArray {
    type V = Seq<Value>;

    closed spec fn view(&self) -> Seq<Value> {
        self.values@
    }
}

impl ValueArray {
    /// An empty pool.
    pub fn new() -> (a: ValueArray)
        ensures
            a@ == Seq::<Value>::empty(),
    {
        ValueArray { values: Vec::new() }
    }

    /// Appends `value`.
    pub fn write_value(&mut self, value: Value)
        ensures
            final(self)@ == old(self)@.push(value),
    {
        self.values.push(value);
    }

    /// The number of values.
    pub fn count(&self) -> (n: usize)
        ensures
            n == self@.len(),
    {
        self.values.len()
    }

    /// How many values the pool can hold before it grows again.
    pub fn capacity(&self) -> (c: usize)
        ensures
            c >= self@.len(),
    {
        vec_capacity(&self.values)
    }

    /// The values, in the order they were written.
    pub fn values(&self) -> (v: &[Value])
        ensures
            v@ == self@,
    {
        self.values.as_slice()
    }
}

} // verus!
