//! Runtime values and the objects that value handles refer to.

use vstd::prelude::*;
use crate::statements::Func;
use crate::table::Table;

verus! {

/// The sign bit of an encoded number.
pub const SIGN_BIT: u64 = 0x8000_0000_0000_0000;

/// The exponent and fraction bits of an encoded number.
pub const MAGNITUDE_BITS: u64 = 0x7fff_ffff_ffff_ffff;

/// The magnitude of positive infinity; every larger magnitude encodes a NaN.
pub const INFINITY_BITS: u64 = 0x7ff0_0000_0000_0000;

/// The functions that the host provides.
#[derive(Debug, Clone, Copy, PartialEq, Eq, Structural)]
pub enum NativeFunc {
    INPUT,
    PRINTLN,
    PRINT,
}

/// A runtime value.
///
/// A number is held as the bit pattern of an IEEE-754 double. Functions,
/// classes and instances are handles into the interpreter's object tables, so
/// two such values are the same object exactly when their handles are equal.
#[derive(Debug)]
pub enum Object {
    Num(u64),
    Str(String),
    Bool(bool),
    Func(usize),
    NativeFunc(NativeFunc),
    Class(usize),
    ClassInstance(usize),
    Nil,
}

/// What a value is, with the text of a string as a sequence of characters.
pub enum ObjectView {
    Num(u64),
    Str(Seq<char>),
    Bool(bool),
    Func(usize),
    NativeFunc(NativeFunc),
    Class(usize),
    ClassInstance(usize),
    Nil,
}

impl View for Object {
    type V = ObjectView;

    open spec fn view(&self) -> ObjectView {
        match self {
            Object::Num(n) => ObjectView::Num(*n),
            Object::Str(s) => ObjectView::Str(s@),
            Object::Bool(b) => ObjectView::Bool(*b),
            Object::Func(f) => ObjectView::Func(*f),
            Object::NativeFunc(n) => ObjectView::NativeFunc(*n),
            Object::Class(c) => ObjectView::Class(*c),
            Object::ClassInstance(i) => ObjectView::ClassInstance(*i),
            Object::Nil => ObjectView::Nil,
        }
    }
}

/// Whether `bits` encodes a NaN.
pub open spec fn is_nan_bits(bits: u64) -> bool {
    (bits & MAGNITUDE_BITS) > INFINITY_BITS
}

/// The place of a number that is no NaN in the order of the reals, with both
/// zeros at 0: encoded doubles are ordered by sign and magnitude.
pub open spec fn order_key(bits: u64) -> int {
    if bits & SIGN_BIT != 0 {
        -((bits & MAGNITUDE_BITS) as int)
    } else {
        (bits & MAGNITUDE_BITS) as int
    }
}

/// Equality of two encoded numbers: a NaN equals nothing, and the two zeros are equal.
pub open spec fn num_equal(a: u64, b: u64) -> bool {
    !is_nan_bits(a) && !is_nan_bits(b) && order_key(a) == order_key(b)
}

/// Whether the first encoded number is less than the second; false if either is a NaN.
pub open spec fn num_less(a: u64, b: u64) -> bool {
    !is_nan_bits(a) && !is_nan_bits(b) && order_key(a) < order_key(b)
}

/// The encoded number with its sign flipped.
pub open spec fn num_negated(bits: u64) -> u64 {
    bits ^ SIGN_BIT
}

/// Only `nil` and `false` are falsey.
pub open spec fn truthy(v: ObjectView) -> bool {
    match v {
        ObjectView::Nil => false,
        ObjectView::Bool(b) => b,
        _ => true,
    }
}

/// The language's `==`: values of different variants are never equal; numbers
/// compare as doubles, strings by their text, booleans by value, and
/// functions, classes and instances by handle.
pub open spec fn values_equal(a: ObjectView, b: ObjectView) -> bool {
    match (a, b) {
        (ObjectView::Num(l), ObjectView::Num(r)) => num_equal(l, r),
        (ObjectView::Str(l), ObjectView::Str(r)) => l == r,
        (ObjectView::Bool(l), ObjectView::Bool(r)) => l == r,
        (ObjectView::Func(l), ObjectView::Func(r)) => l == r,
        (ObjectView::NativeFunc(l), ObjectView::NativeFunc(r)) => l == r,
        (ObjectView::Class(l), ObjectView::Class(r)) => l == r,
        (ObjectView::ClassInstance(l), ObjectView::ClassInstance(r)) => l == r,
        (ObjectView::Nil, ObjectView::Nil) => true,
        _ => false,
    }
}

/// Whether two values are of the same variant.
pub open spec fn same_variant(a: ObjectView, b: ObjectView) -> bool {
    match (a, b) {
        (ObjectView::Num(_), ObjectView::Num(_)) => true,
        (ObjectView::Str(_), ObjectView::Str(_)) => true,
        (ObjectView::Bool(_), ObjectView::Bool(_)) => true,
        (ObjectView::Func(_), ObjectView::Func(_)) => true,
        (ObjectView::NativeFunc(_), ObjectView::NativeFunc(_)) => true,
        (ObjectView::Class(_), ObjectView::Class(_)) => true,
        (ObjectView::ClassInstance(_), ObjectView::ClassInstance(_)) => true,
        (ObjectView::Nil, ObjectView::Nil) => true,
        _ => false,
    }
}

/// Whether `bits` encodes a NaN.
pub fn is_nan(bits: u64) -> (r: bool)
    ensures
        r == is_nan_bits(bits),
{
    (bits & MAGNITUDE_BITS) > INFINITY_BITS
}

/// Compares two encoded numbers for equality as doubles.
pub fn number_eq(a: u64, b: u64) -> (r: bool)
    ensures
        r == num_equal(a, b),
{
    if is_nan(a) || is_nan(b) {
        return false;
    }
    let ma: u64 = a & MAGNITUDE_BITS;
    let mb: u64 = b & MAGNITUDE_BITS;
    let na: bool = (a & SIGN_BIT) != 0;
    let nb: bool = (b & SIGN_BIT) != 0;
    if na == nb {
        ma == mb
    } else {
        ma == 0 && mb == 0
    }
}

/// Whether the first encoded number is less than the second as doubles.
pub fn number_lt(a: u64, b: u64) -> (r: bool)
    ensures
        r == num_less(a, b),
{
    if is_nan(a) || is_nan(b) {
        return false;
    }
    let ma: u64 = a & MAGNITUDE_BITS;
    let mb: u64 = b & MAGNITUDE_BITS;
    let na: bool = (a & SIGN_BIT) != 0;
    let nb: bool = (b & SIGN_BIT) != 0;
    if na {
        if nb {
            ma > mb
        } else {
            ma != 0 || mb != 0
        }
    } else {
        if nb {
            false
        } else {
            ma < mb
        }
    }
}

/// Flips the sign of an encoded number.
pub fn number_neg(bits: u64) -> (r: u64)
    ensures
        r == num_negated(bits),
{
    bits ^ SIGN_BIT
}

impl Clone for Object {
    fn clone(&self) -> (r: Self)
        ensures
            r == *self,
    {
        match self {
            Object::Num(n) => Object::Num(*n),
            Object::Str(s) => Object::Str(s.clone()),
            Object::Bool(b) => Object::Bool(*b),
            Object::Func(f) => Object::Func(*f),
            Object::NativeFunc(n) => Object::NativeFunc(*n),
            Object::Class(c) => Object::Class(*c),
            Object::ClassInstance(i) => Object::ClassInstance(*i),
            Object::Nil => Object::Nil,
        }
    }
}

impl Object {
    /// Whether the value counts as true in a condition.
    pub fn is_truthy(&self) -> (r: bool)
        ensures
            r == truthy(self@),
            r == !(self@ == ObjectView::Nil || self@ == ObjectView::Bool(false)),
    {
        match self {
            Object::Bool(b) => *b,
            Object::Nil => false,
            _ => true,
        }
    }

    /// The language's `==` on two values.
    pub fn equals(&self, other: &Object) -> (r: bool)
        ensures
            r == values_equal(self@, other@),
    {
        match self {
            Object::Num(l) => match other {
                Object::Num(r) => number_eq(*l, *r),
                _ => false,
            },
            Object::Str(l) => match other {
                Object::Str(r) => *l == *r,
                _ => false,
            },
            Object::Bool(l) => match other {
                Object::Bool(r) => *l == *r,
                _ => false,
            },
            Object::Func(l) => match other {
                Object::Func(r) => *l == *r,
                _ => false,
            },
            Object::Nil => match other {
                Object::Nil => true,
                _ => false,
            },
            Object::NativeFunc(l) => match other {
                Object::NativeFunc(r) => *l == *r,
                _ => false,
            },
            Object::Class(l) => match other {
                Object::Class(r) => *l == *r,
                _ => false,
            },
            Object::ClassInstance(l) => match other {
                Object::ClassInstance(r) => *l == *r,
                _ => false,
            },
        }
    }
}

/// Comparing two values with `==` never fails, and values of different variants are unequal.
pub proof fn lemma_equality_cross_variant(a: ObjectView, b: ObjectView)
    requires
        !same_variant(a, b),
    ensures
        !values_equal(a, b),
{
}

/// `==` is reflexive on every value but a NaN.
pub proof fn lemma_equality_reflexive(a: ObjectView)
    requires
        !(a matches ObjectView::Num(n) && is_nan_bits(n)),
    ensures
        values_equal(a, a),
{
}

/// A NaN is unequal to every value, itself included.
pub proof fn lemma_nan_unequal(n: u64, b: ObjectView)
    requires
        is_nan_bits(n),
    ensures
        !values_equal(ObjectView::Num(n), b),
        !values_equal(b, ObjectView::Num(n)),
{
}

/// `==` is symmetric.
pub proof fn lemma_equality_symmetric(a: ObjectView, b: ObjectView)
    ensures
        values_equal(a, b) == values_equal(b, a),
{
}

/// A user function: its declaration and the environment it closes over.
#[derive(Debug, Clone, Copy)]
pub struct Function<'a> {
    /// The declaration that gives the function its name, parameters and body.
    pub decl: &'a Func,
    /// The handle of the environment in effect where the function was declared.
    pub closure: usize,
    /// Whether the function is a class's `init` method.
    pub is_init: bool,
}

/// A class: its name and its methods by name.
#[derive(Debug)]
pub struct LoxClass<'a> {
    pub name: String,
    pub methods: Table<Function<'a>>,
}

impl<'a> LoxClass<'a> {
    /// Whether the method table is well-formed.
    pub open spec fn wf(&self) -> bool {
        self.methods.wf()
    }

    /// A class of the given name and methods.
    pub fn new(name: String, methods: Table<Function<'a>>) -> (r: Self)
        requires
            methods.wf(),
        ensures
            r.wf(),
            r.name == name,
            r.methods == methods,
    {
        Self { name, methods }
    }

    /// The method of the given name, if the class has one.
    pub fn find_method(&self, name: &String) -> (r: Option<Function<'a>>)
        requires
            self.wf(),
        ensures
            r == (if self.methods@.contains_key(name@) {
                Some(self.methods@[name@])
            } else {
                None
            }),
    {
        match self.methods.get(name) {
            Some(f) => Some(*f),
            None => None,
        }
    }
}

/// An instance: the handle of its class and its fields by name.
#[derive(Debug)]
pub struct LoxInstance {
    pub klass: usize,
    pub fields: Table<Object>,
}

impl LoxInstance {
    /// Whether the field table is well-formed.
    pub open spec fn wf(&self) -> bool {
        self.fields.wf()
    }

    /// A fresh instance of the class with handle `klass`, with no fields.
    pub fn new(klass: usize) -> (r: Self)
        ensures
            r.wf(),
            r.klass == klass,
            r.fields@ == Map::<Seq<char>, Object>::empty(),
    {
        Self { klass, fields: Table::new() }
    }

    /// The value of the field `key`, if the instance has it.
    pub fn get(&self, key: &String) -> (r: Option<Object>)
        requires
            self.wf(),
        ensures
            r == (if self.fields@.contains_key(key@) {
                Some(self.fields@[key@])
            } else {
                None
            }),
    {
        match self.fields.get(key) {
            Some(v) => Some(v.clone()),
            None => None,
        }
    }

    /// Writes the field `key`, creating it if need be.
    pub fn set(&mut self, key: String, value: Object)
        requires
            old(self).wf(),
        ensures
            final(self).wf(),
            final(self).klass == old(self).klass,
            final(self).fields@ == old(self).fields@.insert(key@, value),
    {
        self.fields.insert(key, value);
    }
}

} // verus!
