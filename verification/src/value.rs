//! PHP values as the iterator library sees them, their mathematical model,
//! and PHP's identity (`===`) and ordering on them.
use vstd::prelude::*;

verus! {

/// The key of an entry of a PHP array, as a mathematical value.
pub enum Key {
    Int(i64),
    Str(Seq<u8>),
}

/// A PHP value as a mathematical value.
///
/// A double is held by its IEEE-754 bit pattern; an object (or any other value
/// that PHP compares by identity, such as a resource) by its handle.
pub enum Value {
    Null,
    Bool(bool),
    Long(i64),
    Double(u64),
    Str(Seq<u8>),
    Array(Seq<(Key, Value)>),
    Object(u64),
}

/// The key of an entry of a PHP array.
#[derive(Debug, PartialEq)]
pub enum ArrayKey {
    Int(i64),
    Str(Vec<u8>),
}

impl ArrayKey {
    pub open spec fn view(&self) -> Key {
        match self {
            ArrayKey::Int(i) => Key::Int(*i),
            ArrayKey::Str(s) => Key::Str(s@),
        }
    }

    pub fn clone_key(&self) -> (r: ArrayKey)
        ensures
            r@ == self@,
    {
        match self {
            ArrayKey::Int(i) => ArrayKey::Int(*i),
            ArrayKey::Str(s) => ArrayKey::Str(s.clone()),
        }
    }

    pub fn same_key(&self, other: &ArrayKey) -> (r: bool)
        ensures
            r == (self@ == other@),
    {
        match (self, other) {
            (ArrayKey::Int(a), ArrayKey::Int(b)) => *a == *b,
            (ArrayKey::Str(a), ArrayKey::Str(b)) => bytes_equal(a, b),
            _ => false,
        }
    }
}

/// A PHP value handled by the iterators: the plain values PHP passes around,
/// arrays with their keys in order, and objects by handle.
#[derive(Debug, PartialEq)]
pub enum ZVal {
    Null,
    Bool(bool),
    Long(i64),
    /// IEEE-754 bit pattern of a PHP float.
    Double(u64),
    /// The bytes of a PHP string.
    Str(Vec<u8>),
    /// A PHP array: its entries in iteration order.
    Array(Vec<(ArrayKey, ZVal)>),
    /// A PHP object (or resource), by handle.
    Object(u64),
}

impl ZVal {
    pub open spec fn view(&self) -> Value
        decreases self,
    {
        match self {
            ZVal::Null => Value::Null,
            ZVal::Bool(b) => Value::Bool(*b),
            ZVal::Long(i) => Value::Long(*i),
            ZVal::Double(d) => Value::Double(*d),
            ZVal::Str(s) => Value::Str(s@),
            ZVal::Array(v) => Value::Array(
                Seq::new(
                    v.len() as nat,
                    |i: int|
                        if 0 <= i < v.len() {
                            (v@[i].0@, v@[i].1.view())
                        } else {
                            (Key::Int(0), Value::Null)
                        },
                ),
            ),
            ZVal::Object(h) => Value::Object(*h),
        }
    }

    /// The PHP `null` value.
    pub fn null() -> (r: ZVal)
        ensures
            r@ == Value::Null,
    {
        ZVal::Null
    }

    /// A copy of this value (arrays are copied entry by entry).
    #[verifier::loop_isolation(false)]
    pub fn clone_val(&self) -> (r: ZVal)
        ensures
            r@ == self@,
        decreases self,
    {
        match self {
            ZVal::Null => ZVal::Null,
            ZVal::Bool(b) => ZVal::Bool(*b),
            ZVal::Long(i) => ZVal::Long(*i),
            ZVal::Double(d) => ZVal::Double(*d),
            ZVal::Str(s) => ZVal::Str(s.clone()),
            ZVal::Array(v) => {
                let mut out: Vec<(ArrayKey, ZVal)> = Vec::new();
                let mut i: usize = 0;
                while i < v.len()
                    invariant
                        i <= v.len(),
                        out.len() == i,
                        forall|j: int|
                            0 <= j < i ==> #[trigger] out@[j].0@ == v@[j].0@ && out@[j].1@ == v@[j].1@,
                    decreases v.len() - i,
                {
                    proof {
                        vstd::std_specs::vec::axiom_vec_index_decreases(*v, i as int);
                    }
                    let k = v[i].0.clone_key();
                    assert(decreases_to!(*self => v@[i as int].1));
                    let x = v[i].1.clone_val();
                    out.push((k, x));
                    i = i + 1;
                }
                let r = ZVal::Array(out);
                assert(r@->Array_0 =~= self@->Array_0);
                r
            },
            ZVal::Object(h) => ZVal::Object(*h),
        }
    }

    /// The value as an optional PHP value: `None` for `null`.
    pub fn into_option(self) -> (r: Option<ZVal>)
        ensures
            self@ == Value::Null ==> r is None,
            self@ != Value::Null ==> r == Some(self),
    {
        match self {
            ZVal::Null => None,
            v => Some(v),
        }
    }

    /// PHP's `===` on two values.
    #[verifier::loop_isolation(false)]
    pub fn is_identical(&self, other: &ZVal) -> (r: bool)
        ensures
            r == identical(self@, other@),
        decreases self,
    {
        match (self, other) {
            (ZVal::Null, ZVal::Null) => true,
            (ZVal::Bool(a), ZVal::Bool(b)) => *a == *b,
            (ZVal::Long(a), ZVal::Long(b)) => *a == *b,
            (ZVal::Double(a), ZVal::Double(b)) => double_eq(*a, *b),
            (ZVal::Str(a), ZVal::Str(b)) => bytes_equal(a, b),
            (ZVal::Object(a), ZVal::Object(b)) => *a == *b,
            (ZVal::Array(a), ZVal::Array(b)) => {
                if a.len() != b.len() {
                    assert(self@->Array_0.len() != other@->Array_0.len());
                    return false;
                }
                let mut i: usize = 0;
                while i < a.len()
                    invariant
                        i <= a.len(),
                        a.len() == b.len(),
                        self@ == Value::Array(self@->Array_0),
                        forall|j: int|
                            #![trigger self@->Array_0[j]]
                            0 <= j < i ==> self@->Array_0[j].0 == other@->Array_0[j].0 && identical(
                                self@->Array_0[j].1,
                                other@->Array_0[j].1,
                            ),
                    decreases a.len() - i,
                {
                    proof {
                        vstd::std_specs::vec::axiom_vec_index_decreases(*a, i as int);
                    }
                    assert(decreases_to!(*self => a@[i as int].1));
                    let same = a[i].0.same_key(&b[i].0) && a[i].1.is_identical(&b[i].1);
                    assert(self@->Array_0[i as int] == (a@[i as int].0@, a@[i as int].1@));
                    assert(other@->Array_0[i as int] == (b@[i as int].0@, b@[i as int].1@));
                    if !same {
                        return false;
                    }
                    i = i + 1;
                }
                true
            },
            _ => false,
        }
    }
}

/// Byte-wise equality of two byte strings.
pub fn bytes_equal(a: &Vec<u8>, b: &Vec<u8>) -> (r: bool)
    ensures
        r == (a@ == b@),
{
    if a.len() != b.len() {
        return false;
    }
    let mut i: usize = 0;
    while i < a.len()
        invariant
            i <= a.len(),
            a.len() == b.len(),
            forall|j: int| 0 <= j < i ==> a@[j] == b@[j],
        decreases a.len() - i,
    {
        if a[i] != b[i] {
            return false;
        }
        i = i + 1;
    }
    assert(a@ =~= b@);
    true
}

/// The magnitude bits (all but the sign bit) of a double.
pub open spec fn magnitude(bits: u64) -> int {
    (bits % 0x8000_0000_0000_0000) as int
}

/// Whether a double bit pattern is a NaN: all exponent bits set and a nonzero fraction.
pub open spec fn is_nan(bits: u64) -> bool {
    magnitude(bits) > 0x7FF0_0000_0000_0000
}

/// The position of a non-NaN double on the number line, as an integer that
/// orders doubles as IEEE-754 does (both zeros at 0).
pub open spec fn double_key(bits: u64) -> int {
    if bits >= 0x8000_0000_0000_0000 {
        -magnitude(bits)
    } else {
        magnitude(bits)
    }
}

/// IEEE-754 equality of two doubles given by their bits.
pub open spec fn double_eq_spec(a: u64, b: u64) -> bool {
    !is_nan(a) && !is_nan(b) && double_key(a) == double_key(b)
}

pub fn double_is_nan(bits: u64) -> (r: bool)
    ensures
        r == is_nan(bits),
{
    bits % 0x8000_0000_0000_0000 > 0x7FF0_0000_0000_0000
}

/// IEEE-754 equality of two doubles given by their bits.
pub fn double_eq(a: u64, b: u64) -> (r: bool)
    ensures
        r == double_eq_spec(a, b),
{
    if double_is_nan(a) || double_is_nan(b) {
        return false;
    }
    let ma = a % 0x8000_0000_0000_0000;
    let mb = b % 0x8000_0000_0000_0000;
    let na = a >= 0x8000_0000_0000_0000;
    let nb = b >= 0x8000_0000_0000_0000;
    if ma == 0 && mb == 0 {
        true
    } else {
        na == nb && ma == mb
    }
}

/// PHP's `===`.
pub open spec fn identical(a: Value, b: Value) -> bool
    decreases a,
{
    match a {
        Value::Null => b is Null,
        Value::Bool(x) => b is Bool && b->Bool_0 == x,
        Value::Long(x) => b is Long && b->Long_0 == x,
        Value::Double(x) => b is Double && double_eq_spec(x, b->Double_0),
        Value::Str(x) => b is Str && b->Str_0 == x,
        Value::Object(x) => b is Object && b->Object_0 == x,
        Value::Array(x) => b is Array && x.len() == b->Array_0.len() && forall|i: int|
            #![trigger x[i]]
            0 <= i < x.len() ==> x[i].0 == b->Array_0[i].0 && identical(x[i].1, b->Array_0[i].1),
    }
}

} // verus!
