//! The mathematical model of an iterator pipeline: how the PHP callbacks are
//! modelled, and the operations on sequences that the adapters perform.
use vstd::prelude::*;
use crate::value::{ZVal, Value, Key};
use crate::order::{Order, comparable, total_compare, partial_compare, compare_int};
use crate::value::identical;

verus! {

/// A model of the PHP callbacks: the value each callback returns for each
/// argument list.
pub type Callbacks = spec_fn(u64, Seq<Value>) -> Value;

/// A PHP callable, registered by the extension under a handle.
#[derive(Debug, Clone, Copy, PartialEq, Eq)]
pub struct ZCallable {
    pub id: u64,
}

pub open spec fn views(s: Seq<ZVal>) -> Seq<Value> {
    s.map_values(|z: ZVal| z@)
}

/// The callback runner accepts every callback handle and argument list.
pub open spec fn callable<F: Fn(u64, Vec<ZVal>) -> ZVal>(f: F) -> bool {
    forall|id: u64, args: Vec<ZVal>| #[trigger] f.requires((id, args))
}

/// Every result that the callback runner can return is the one `g` gives.
pub open spec fn agrees<F: Fn(u64, Vec<ZVal>) -> ZVal>(f: F, g: Callbacks) -> bool {
    forall|id: u64, args: Vec<ZVal>, r: ZVal| #[trigger] f.ensures((id, args), r) ==> r@ == g(id, views(args@))
}

/// A predicate that an adapter applies to each element.
#[derive(Debug, Clone, Copy, PartialEq, Eq)]
pub enum Test {
    /// The callback returns `true`.
    Callback(u64),
    /// The element is not `null`.
    NotNull,
}

/// How a flattening adapter turns one element into a run of elements.
#[derive(Debug, Clone, Copy, PartialEq, Eq)]
pub enum Expand {
    /// The values of the array that the callback returns (none if it is no array).
    Callback(u64),
    /// The values of the element if it is an array, else the element itself.
    Nested,
}

pub open spec fn holds(g: Callbacks, t: Test, x: Value) -> bool {
    match t {
        Test::Callback(cb) => g(cb, seq![x]) == Value::Bool(true),
        Test::NotNull => x != Value::Null,
    }
}

pub open spec fn test_fn(g: Callbacks, t: Test) -> spec_fn(Value) -> bool {
    |x: Value| holds(g, t, x)
}

pub open spec fn map_seq(s: Seq<Value>, g: Callbacks, cb: u64) -> Seq<Value> {
    s.map_values(|x: Value| g(cb, seq![x]))
}

pub open spec fn filter_seq(s: Seq<Value>, g: Callbacks, t: Test) -> Seq<Value> {
    s.filter(test_fn(g, t))
}

/// The longest prefix of `s` whose elements all pass `f`.
pub open spec fn take_while_seq(s: Seq<Value>, f: spec_fn(Value) -> bool) -> Seq<Value>
    decreases s.len(),
{
    if s.len() == 0 || !f(s[0]) {
        Seq::empty()
    } else {
        seq![s[0]] + take_while_seq(s.drop_first(), f)
    }
}

/// `s` without its longest prefix whose elements all pass `f`.
pub open spec fn drop_while_seq(s: Seq<Value>, f: spec_fn(Value) -> bool) -> Seq<Value>
    decreases s.len(),
{
    if s.len() == 0 {
        s
    } else if f(s[0]) {
        drop_while_seq(s.drop_first(), f)
    } else {
        s
    }
}

/// `s` without its first `n` elements (empty if it has no more).
pub open spec fn drop_n(s: Seq<Value>, n: int) -> Seq<Value> {
    if n >= s.len() {
        Seq::empty()
    } else {
        s.subrange(n, s.len() as int)
    }
}

/// The first `n` elements of `s` (all of them if it has no more).
pub open spec fn take_n(s: Seq<Value>, n: int) -> Seq<Value> {
    if n >= s.len() {
        s
    } else {
        s.subrange(0, n)
    }
}

/// How many of the positions `start, start + step, start + 2 * step, ...` lie below `len`.
pub open spec fn count_from(len: int, start: int, step: int) -> int {
    if start >= len {
        0
    } else {
        (len - 1 - start) / step + 1
    }
}

/// The elements of `s` at positions `start, start + step, start + 2 * step, ...`.
pub open spec fn select(s: Seq<Value>, start: int, step: int) -> Seq<Value> {
    Seq::new(count_from(s.len() as int, start, step) as nat, |k: int| s[start + k * step])
}

/// What `step_by` yields of the remaining inner elements `s`: the first one and
/// every `step`-th after it while the first is still to come, else every
/// `step`-th one starting with the `step`-th.
pub open spec fn step_seq(s: Seq<Value>, step: int, first: bool) -> Seq<Value> {
    select(
        s,
        if first {
            0
        } else {
            step - 1
        },
        step,
    )
}

/// The two-element list `[x, y]`.
pub open spec fn pair(x: Value, y: Value) -> Value {
    Value::Array(seq![(Key::Int(0), x), (Key::Int(1), y)])
}

/// The list `[i, x]`; PHP cannot hold an index above `i64::MAX`, which
/// leaves `[x]`.
pub open spec fn index_pair(i: usize, x: Value) -> Value {
    if i <= i64::MAX {
        pair(Value::Long(i as i64), x)
    } else {
        Value::Array(seq![(Key::Int(0), x)])
    }
}

/// `n` reduced modulo the size of `usize`.
pub open spec fn wrap(n: int) -> usize {
    (n % (usize::MAX as int + 1)) as usize
}

pub open spec fn zip_seq(a: Seq<Value>, b: Seq<Value>) -> Seq<Value> {
    Seq::new(
        if a.len() <= b.len() {
            a.len()
        } else {
            b.len()
        },
        |i: int| pair(a[i], b[i]),
    )
}

pub open spec fn enum_seq(s: Seq<Value>, c: usize) -> Seq<Value> {
    Seq::new(s.len(), |i: int| index_pair(wrap(c + i), s[i]))
}

/// The values of an array, in order; nothing for any other value.
pub open spec fn values_of(v: Value) -> Seq<Value> {
    match v {
        Value::Array(es) => es.map_values(|e: (Key, Value)| e.1),
        _ => Seq::empty(),
    }
}

pub open spec fn expand(g: Callbacks, e: Expand, x: Value) -> Seq<Value> {
    match e {
        Expand::Callback(cb) => values_of(g(cb, seq![x])),
        Expand::Nested => if x is Array {
            values_of(x)
        } else {
            seq![x]
        },
    }
}

pub open spec fn flat_seq(s: Seq<Value>, g: Callbacks, e: Expand) -> Seq<Value> {
    s.map_values(|x: Value| expand(g, e, x)).flatten()
}

/// The remaining elements of an iterator before and after a step from the
/// front that returned `r`.
pub open spec fn step_front(s: Seq<Value>, s2: Seq<Value>, r: Option<ZVal>) -> bool {
    match r {
        None => s.len() == 0 && s2.len() == 0,
        Some(v) => s.len() > 0 && v@ == s[0] && s2 == s.drop_first(),
    }
}

/// The remaining elements of an iterator before and after a step from the
/// back that returned `r`.
pub open spec fn step_back(s: Seq<Value>, s2: Seq<Value>, r: Option<ZVal>) -> bool {
    match r {
        None => s.len() == 0 && s2.len() == 0,
        Some(v) => s.len() > 0 && v@ == s.last() && s2 == s.drop_last(),
    }
}

/// The remaining elements before and after taking the element at `n` from
/// the front.
pub open spec fn step_nth(s: Seq<Value>, s2: Seq<Value>, n: int, r: Option<ZVal>) -> bool {
    match r {
        None => s.len() <= n && s2.len() == 0,
        Some(v) => n < s.len() && v@ == s[n] && s2 == s.subrange(n + 1, s.len() as int),
    }
}

/// The remaining elements before and after taking the element at `n` from
/// the back.
pub open spec fn step_nth_back(s: Seq<Value>, s2: Seq<Value>, n: int, r: Option<ZVal>) -> bool {
    match r {
        None => s.len() <= n && s2.len() == 0,
        Some(v) => n < s.len() && v@ == s[s.len() - 1 - n] && s2 == s.subrange(0, s.len() - 1 - n),
    }
}

/// The position of the first element that passes `f` (the length if none does).
pub open spec fn first_index(s: Seq<Value>, f: spec_fn(Value) -> bool) -> int
    decreases s.len(),
{
    if s.len() == 0 {
        0
    } else if f(s[0]) {
        0
    } else {
        1 + first_index(s.drop_first(), f)
    }
}

/// The position of the last element that passes `f` (-1 if none does).
pub open spec fn last_index(s: Seq<Value>, f: spec_fn(Value) -> bool) -> int
    decreases s.len(),
{
    if s.len() == 0 {
        -1
    } else if f(s.last()) {
        s.len() - 1
    } else {
        last_index(s.drop_last(), f)
    }
}

/// The callback returns something other than `null`.
pub open spec fn maps_fn(g: Callbacks, cb: u64) -> spec_fn(Value) -> bool {
    |x: Value| g(cb, seq![x]) != Value::Null
}

/// `acc` folded with the callback over `s` from the front.
pub open spec fn fold_seq(s: Seq<Value>, acc: Value, g: Callbacks, cb: u64) -> Value
    decreases s.len(),
{
    if s.len() == 0 {
        acc
    } else {
        fold_seq(s.drop_first(), g(cb, seq![acc, s[0]]), g, cb)
    }
}

/// `acc` folded with the callback over `s` from the back.
pub open spec fn rfold_seq(s: Seq<Value>, acc: Value, g: Callbacks, cb: u64) -> Value
    decreases s.len(),
{
    if s.len() == 0 {
        acc
    } else {
        rfold_seq(s.drop_last(), g(cb, seq![acc, s.last()]), g, cb)
    }
}

/// The order a comparison callback reports: the sign of the integer it returns.
pub open spec fn order_of(v: Value) -> Order {
    match v {
        Value::Long(n) => compare_int(n as int, 0),
        _ => Order::Equal,
    }
}

/// Which of two candidates a running maximum keeps, given how the one held
/// (`acc`) compares with the next (`x`): the next unless the held one is greater.
pub open spec fn keep_max(o: Order, acc: Value, x: Value) -> Value {
    if o == Order::Greater {
        acc
    } else {
        x
    }
}

/// Which of two candidates a running minimum keeps: the held one unless it is greater.
pub open spec fn keep_min(o: Order, acc: Value, x: Value) -> Value {
    if o == Order::Greater {
        x
    } else {
        acc
    }
}

/// The running maximum (`is_max`) or minimum of `acc` and `rest` under PHP's
/// ordering; `None` if a comparison on the way does not complete.
pub open spec fn extreme_fold(rest: Seq<Value>, acc: Value, is_max: bool) -> Option<Value>
    decreases rest.len(),
{
    if rest.len() == 0 {
        Some(acc)
    } else if !comparable(acc, rest[0]) {
        None
    } else {
        let o = total_compare(acc, rest[0]);
        extreme_fold(
            rest.drop_first(),
            if is_max {
                keep_max(o, acc, rest[0])
            } else {
                keep_min(o, acc, rest[0])
            },
            is_max,
        )
    }
}

/// `max` or `min` of a sequence: `Some(None)` when empty, `None` when a
/// comparison does not complete.
pub open spec fn extreme(s: Seq<Value>, is_max: bool) -> Option<Option<Value>> {
    if s.len() == 0 {
        Some(None)
    } else {
        match extreme_fold(s.drop_first(), s[0], is_max) {
            Some(v) => Some(Some(v)),
            None => None,
        }
    }
}

/// The running maximum or minimum by key: `keys[i]` is the key of `rest[i]`,
/// `(acc_k, acc)` the key and element held.
pub open spec fn extreme_key_fold(
    keys: Seq<Value>,
    rest: Seq<Value>,
    acc_k: Value,
    acc: Value,
    is_max: bool,
) -> Option<Value>
    decreases rest.len(),
{
    if rest.len() == 0 {
        Some(acc)
    } else if !comparable(acc_k, keys[0]) {
        None
    } else {
        let o = total_compare(acc_k, keys[0]);
        let keep_held = if is_max { o == Order::Greater } else { o != Order::Greater };
        extreme_key_fold(
            keys.drop_first(),
            rest.drop_first(),
            if keep_held { acc_k } else { keys[0] },
            if keep_held { acc } else { rest[0] },
            is_max,
        )
    }
}

/// `max_by_key` or `min_by_key` of a sequence with the callback as key.
pub open spec fn extreme_by_key(s: Seq<Value>, g: Callbacks, cb: u64, is_max: bool) -> Option<Option<Value>> {
    let keys = map_seq(s, g, cb);
    if s.len() == 0 {
        Some(None)
    } else {
        match extreme_key_fold(keys.drop_first(), s.drop_first(), keys[0], s[0], is_max) {
            Some(v) => Some(Some(v)),
            None => None,
        }
    }
}

/// The running maximum or minimum under a comparison callback.
pub open spec fn extreme_by_fold(rest: Seq<Value>, acc: Value, g: Callbacks, cb: u64, is_max: bool) -> Value
    decreases rest.len(),
{
    if rest.len() == 0 {
        acc
    } else {
        let o = order_of(g(cb, seq![acc, rest[0]]));
        extreme_by_fold(
            rest.drop_first(),
            if is_max {
                keep_max(o, acc, rest[0])
            } else {
                keep_min(o, acc, rest[0])
            },
            g,
            cb,
            is_max,
        )
    }
}

/// `max_by` or `min_by` of a sequence with the callback as comparison.
pub open spec fn extreme_by(s: Seq<Value>, g: Callbacks, cb: u64, is_max: bool) -> Option<Value> {
    if s.len() == 0 {
        None
    } else {
        Some(extreme_by_fold(s.drop_first(), s[0], g, cb, is_max))
    }
}

/// How two iterators are compared element by element.
#[derive(Debug, Clone, Copy, PartialEq, Eq)]
pub enum LexMode {
    /// By PHP's total order (`cmp`).
    Total,
    /// By PHP's partial order (`partial_cmp`, `lt`, ...).
    Partial,
    /// By identity (`eq`, `ne`).
    Identity,
}

/// What comparing one pair of elements decides: go on (`Some(None)`), stop
/// with an outcome (`Some(Some(o))`, where `o` is `None` for unordered or
/// unequal), or abort (`None`).
pub open spec fn pair_outcome(x: Value, y: Value, mode: LexMode) -> Option<Option<Option<Order>>> {
    match mode {
        LexMode::Total => if !comparable(x, y) {
            None
        } else if total_compare(x, y) == Order::Equal {
            Some(None)
        } else {
            Some(Some(Some(total_compare(x, y))))
        },
        LexMode::Partial => if !comparable(x, y) {
            None
        } else if partial_compare(x, y) == Some(Order::Equal) {
            Some(None)
        } else {
            Some(Some(partial_compare(x, y)))
        },
        LexMode::Identity => if identical(x, y) {
            Some(None)
        } else {
            Some(Some(None))
        },
    }
}

/// The lexicographic comparison of `a` and `b`: `None` if a comparison
/// aborts, else the outcome (`None` for unordered or unequal).
pub open spec fn lex_result(a: Seq<Value>, b: Seq<Value>, mode: LexMode) -> Option<Option<Order>>
    decreases a.len(),
{
    if a.len() == 0 {
        Some(
            Some(
                if b.len() == 0 {
                    Order::Equal
                } else {
                    Order::Less
                },
            ),
        )
    } else if b.len() == 0 {
        Some(Some(Order::Greater))
    } else {
        match pair_outcome(a[0], b[0], mode) {
            None => None,
            Some(None) => lex_result(a.drop_first(), b.drop_first(), mode),
            Some(Some(o)) => Some(o),
        }
    }
}

/// The position at which the lexicographic comparison stops.
pub open spec fn lex_stop(a: Seq<Value>, b: Seq<Value>, mode: LexMode) -> int
    decreases a.len(),
{
    if a.len() == 0 || b.len() == 0 {
        0
    } else {
        match pair_outcome(a[0], b[0], mode) {
            Some(None) => 1 + lex_stop(a.drop_first(), b.drop_first(), mode),
            _ => 0,
        }
    }
}

/// The PHP list of the values of `s`, keyed `0, 1, ...`.
pub open spec fn list_of(s: Seq<Value>) -> Value {
    Value::Array(Seq::new(s.len(), |i: int| (Key::Int(i as i64), s[i])))
}

} // verus!
