//! PHP's ordering of values as the iterators use it (`min`, `max`, lexicographic
//! comparison of iterators).
use vstd::prelude::*;
use vstd::utf8::valid_utf8;
use crate::value::{ZVal, Value, identical, is_nan, double_key, double_is_nan};

verus! {

/// The outcome of comparing two values.
#[derive(Debug, PartialEq, Eq, Clone, Copy)]
pub enum Order {
    Less,
    Equal,
    Greater,
}

impl Order {
    /// The order as PHP sees it: -1, 0 or 1.
    pub open spec fn sign(self) -> i8 {
        match self {
            Order::Less => -1i8,
            Order::Equal => 0i8,
            Order::Greater => 1i8,
        }
    }

    pub fn to_sign(self) -> (r: i8)
        ensures
            r == self.sign(),
    {
        match self {
            Order::Less => -1,
            Order::Equal => 0,
            Order::Greater => 1,
        }
    }
}

/// Comparison of two integers.
pub open spec fn compare_int(a: int, b: int) -> Order {
    if a < b {
        Order::Less
    } else if a == b {
        Order::Equal
    } else {
        Order::Greater
    }
}

/// Lexicographic comparison of two byte strings (Rust's `String` ordering).
pub open spec fn compare_bytes(a: Seq<u8>, b: Seq<u8>) -> Order
    decreases a.len(),
{
    if a.len() == 0 {
        if b.len() == 0 {
            Order::Equal
        } else {
            Order::Less
        }
    } else if b.len() == 0 {
        Order::Greater
    } else if a[0] < b[0] {
        Order::Less
    } else if a[0] > b[0] {
        Order::Greater
    } else {
        compare_bytes(a.drop_first(), b.drop_first())
    }
}

/// Whether comparing the two values completes: two doubles are compared only
/// when neither is NaN, two strings only when both are UTF-8 (otherwise the
/// comparison aborts the PHP call).
pub open spec fn comparable(a: Value, b: Value) -> bool {
    &&& (a is Double && b is Double) ==> !is_nan(a->Double_0) && !is_nan(b->Double_0)
    &&& (a is Str && b is Str) ==> valid_utf8(a->Str_0) && valid_utf8(b->Str_0)
}

/// The partial order on values: values of the same scalar type compare by
/// value, any other pair is equal when identical and unordered otherwise.
pub open spec fn partial_compare(a: Value, b: Value) -> Option<Order> {
    match (a, b) {
        (Value::Null, Value::Null) => Some(Order::Equal),
        (Value::Bool(x), Value::Bool(y)) => Some(
            compare_int(
                if x {
                    1
                } else {
                    0
                },
                if y {
                    1
                } else {
                    0
                },
            ),
        ),
        (Value::Double(x), Value::Double(y)) => Some(compare_int(double_key(x), double_key(y))),
        (Value::Long(x), Value::Long(y)) => Some(compare_int(x as int, y as int)),
        (Value::Str(x), Value::Str(y)) => Some(compare_bytes(x, y)),
        _ => if identical(a, b) {
            Some(Order::Equal)
        } else {
            None
        },
    }
}

/// The total order used by `min` and `max`: the partial order, with unordered
/// pairs taken as equal.
pub open spec fn total_compare(a: Value, b: Value) -> Order {
    match partial_compare(a, b) {
        Some(o) => o,
        None => Order::Equal,
    }
}

/// Whether a byte string is UTF-8.
///
/// Calls `std::str::from_utf8`; its documentation promises `Ok` exactly for
/// valid UTF-8, which is what `valid_utf8` states.
#[verifier::external_body]
fn bytes_are_utf8(bytes: &Vec<u8>) -> (r: bool)
    ensures
        r == valid_utf8(bytes@),
{
    std::str::from_utf8(bytes.as_slice()).is_ok()
}

fn compare_integers(a: i64, b: i64) -> (r: Order)
    ensures
        r == compare_int(a as int, b as int),
{
    if a < b {
        Order::Less
    } else if a == b {
        Order::Equal
    } else {
        Order::Greater
    }
}

fn compare_doubles(a: u64, b: u64) -> (r: Order)
    ensures
        r == compare_int(double_key(a), double_key(b)),
{
    let na = a >= 0x8000_0000_0000_0000;
    let nb = b >= 0x8000_0000_0000_0000;
    let ma = a % 0x8000_0000_0000_0000;
    let mb = b % 0x8000_0000_0000_0000;
    if na && nb {
        if ma > mb {
            Order::Less
        } else if ma == mb {
            Order::Equal
        } else {
            Order::Greater
        }
    } else if !na && !nb {
        if ma < mb {
            Order::Less
        } else if ma == mb {
            Order::Equal
        } else {
            Order::Greater
        }
    } else if na {
        if ma == 0 && mb == 0 {
            Order::Equal
        } else {
            Order::Less
        }
    } else {
        if ma == 0 && mb == 0 {
            Order::Equal
        } else {
            Order::Greater
        }
    }
}

proof fn lemma_compare_bytes_suffix(a: Seq<u8>, b: Seq<u8>, i: int)
    requires
        0 <= i <= a.len(),
        i <= b.len(),
        a.subrange(0, i) == b.subrange(0, i),
    ensures
        compare_bytes(a, b) == compare_bytes(a.subrange(i, a.len() as int), b.subrange(i, b.len() as int)),
    decreases i,
{
    if i > 0 {
        assert(a[0] == a.subrange(0, i)[0]);
        assert(b[0] == b.subrange(0, i)[0]);
        assert(a.drop_first().subrange(0, i - 1) =~= a.subrange(0, i).drop_first());
        assert(b.drop_first().subrange(0, i - 1) =~= b.subrange(0, i).drop_first());
        lemma_compare_bytes_suffix(a.drop_first(), b.drop_first(), i - 1);
        assert(a.drop_first().subrange(i - 1, a.len() - 1) =~= a.subrange(i, a.len() as int));
        assert(b.drop_first().subrange(i - 1, b.len() - 1) =~= b.subrange(i, b.len() as int));
    } else {
        assert(a.subrange(0, a.len() as int) =~= a);
        assert(b.subrange(0, b.len() as int) =~= b);
    }
}

fn compare_byte_strings(a: &Vec<u8>, b: &Vec<u8>) -> (r: Order)
    ensures
        r == compare_bytes(a@, b@),
{
    let mut i: usize = 0;
    while i < a.len() && i < b.len()
        invariant
            i <= a.len(),
            i <= b.len(),
            a@.subrange(0, i as int) == b@.subrange(0, i as int),
        decreases a.len() - i,
    {
        if a[i] != b[i] {
            proof {
                lemma_compare_bytes_suffix(a@, b@, i as int);
            }
            if a[i] < b[i] {
                return Order::Less;
            } else {
                return Order::Greater;
            }
        }
        assert(a@.subrange(0, i + 1) =~= a@.subrange(0, i as int).push(a@[i as int]));
        assert(b@.subrange(0, i + 1) =~= b@.subrange(0, i as int).push(b@[i as int]));
        i = i + 1;
    }
    proof {
        lemma_compare_bytes_suffix(a@, b@, i as int);
    }
    if i < a.len() {
        Order::Greater
    } else if i < b.len() {
        Order::Less
    } else {
        Order::Equal
    }
}

/// Whether the two values can be compared (see `comparable`).
pub fn can_compare(a: &ZVal, b: &ZVal) -> (r: bool)
    ensures
        r == comparable(a@, b@),
{
    match (a, b) {
        (ZVal::Double(x), ZVal::Double(y)) => !double_is_nan(*x) && !double_is_nan(*y),
        (ZVal::Str(x), ZVal::Str(y)) => bytes_are_utf8(x) && bytes_are_utf8(y),
        _ => true,
    }
}

impl ZVal {
    /// The partial order on values (see `partial_compare`).
    pub fn partial_cmp(&self, other: &ZVal) -> (r: Option<Order>)
        requires
            comparable(self@, other@),
        ensures
            r == partial_compare(self@, other@),
    {
        match (self, other) {
            (ZVal::Null, ZVal::Null) => Some(Order::Equal),
            (ZVal::Bool(x), ZVal::Bool(y)) => {
                let a: i64 = if *x { 1 } else { 0 };
                let b: i64 = if *y { 1 } else { 0 };
                Some(compare_integers(a, b))
            },
            (ZVal::Double(x), ZVal::Double(y)) => Some(compare_doubles(*x, *y)),
            (ZVal::Long(x), ZVal::Long(y)) => Some(compare_integers(*x, *y)),
            (ZVal::Str(x), ZVal::Str(y)) => Some(compare_byte_strings(x, y)),
            _ => {
                if self.is_identical(other) {
                    Some(Order::Equal)
                } else {
                    None
                }
            },
        }
    }

    /// The total order used by `min` and `max` (see `total_compare`).
    pub fn cmp(&self, other: &ZVal) -> (r: Order)
        requires
            comparable(self@, other@),
        ensures
            r == total_compare(self@, other@),
    {
        match self.partial_cmp(other) {
            Some(o) => o,
            None => Order::Equal,
        }
    }

    /// PHP's `===`.
    pub fn eq(&self, other: &ZVal) -> (r: bool)
        ensures
            r == identical(self@, other@),
    {
        self.is_identical(other)
    }
}

} // verus!
