//! Properties of the adapters and consumers taken together, stated over the
//! sequence model that their contracts use.
use vstd::prelude::*;
use crate::value::{Value, identical, is_nan};
use crate::kind::IterKind;
use crate::order::{Order, compare_bytes, compare_int, partial_compare, total_compare, comparable};
use crate::model::{Callbacks, Test, Expand, take_n, drop_n, take_while_seq, drop_while_seq, fold_seq, rfold_seq, step_front, step_back, step_nth, holds, step_seq, zip_seq, pair, first_index, maps_fn, map_seq, filter_seq, flat_seq, expand, test_fn, LexMode, lex_result, pair_outcome, extreme, extreme_fold, keep_max, keep_min, extreme_by_key, extreme_key_fold, extreme_by, extreme_by_fold, order_of};
use crate::consume::match_fn;
use crate::iter::{accepts, opt_sign};
use vstd::utf8::valid_utf8;

verus! {

/// `take(n)` and `skip(n)` split the elements: the first `n` of them (all,
/// if there are fewer) followed by the rest are the elements again, and
/// `skip` leaves nothing when there are no more than `n`.
pub proof fn law_take_skip_split(s: Seq<Value>, n: int)
    requires
        0 <= n,
    ensures
        take_n(s, n) + drop_n(s, n) == s,
        take_n(s, n).len() == (if n <= s.len() { n } else { s.len() as int }),
        n >= s.len() ==> drop_n(s, n).len() == 0,
{
    if n < s.len() {
        assert(s.subrange(0, n) + s.subrange(n, s.len() as int) =~= s);
    } else {
        assert(s + Seq::<Value>::empty() =~= s);
    }
}

/// `take_while(f)` and `skip_while(f)` split the elements: every element
/// taken passes `f`, the first one skipped to fails it, and together they
/// are the elements again.
pub proof fn law_take_while_skip_while_split(s: Seq<Value>, f: spec_fn(Value) -> bool)
    ensures
        take_while_seq(s, f) + drop_while_seq(s, f) == s,
        forall|i: int| 0 <= i < take_while_seq(s, f).len() ==> f(#[trigger] take_while_seq(s, f)[i]),
        drop_while_seq(s, f).len() > 0 ==> !f(drop_while_seq(s, f)[0]),
    decreases s.len(),
{
    if s.len() == 0 {
        assert(Seq::<Value>::empty() + s =~= s);
    } else if f(s[0]) {
        let t = s.drop_first();
        law_take_while_skip_while_split(t, f);
        assert(seq![s[0]] + take_while_seq(t, f) + drop_while_seq(t, f) =~= seq![s[0]] + (take_while_seq(t, f)
            + drop_while_seq(t, f)));
        assert(seq![s[0]] + t =~= s);
        assert forall|i: int| 0 <= i < take_while_seq(s, f).len() implies f(#[trigger] take_while_seq(s, f)[i]) by {
            if i > 0 {
                assert(take_while_seq(s, f)[i] == take_while_seq(t, f)[i - 1]);
            }
        }
    } else {
        assert(Seq::<Value>::empty() + s =~= s);
    }
}

/// Folding the elements of a chain is folding the second part from where
/// folding the first part left off.
pub proof fn law_fold_chain(a: Seq<Value>, b: Seq<Value>, acc: Value, g: Callbacks, cb: u64)
    ensures
        fold_seq(a + b, acc, g, cb) == fold_seq(b, fold_seq(a, acc, g, cb), g, cb),
    decreases a.len(),
{
    if a.len() == 0 {
        assert(a + b =~= b);
    } else {
        assert((a + b).drop_first() =~= a.drop_first() + b);
        law_fold_chain(a.drop_first(), b, g(cb, seq![acc, a[0]]), g, cb);
    }
}

/// `rfold` is `fold` over the elements taken from the back.
pub proof fn law_rfold_is_fold_of_reverse(s: Seq<Value>, acc: Value, g: Callbacks, cb: u64)
    ensures
        rfold_seq(s, acc, g, cb) == fold_seq(s.reverse(), acc, g, cb),
    decreases s.len(),
{
    if s.len() > 0 {
        assert(s.reverse().drop_first() =~= s.drop_last().reverse());
        law_rfold_is_fold_of_reverse(s.drop_last(), g(cb, seq![acc, s.last()]), g, cb);
    }
}

/// Reversing twice gives the elements back, and taking from the front of
/// the reversed elements is taking from the back of the elements.
pub proof fn law_rev_front_is_back(s: Seq<Value>, s2: Seq<Value>, r: Option<crate::value::ZVal>)
    ensures
        s.reverse().reverse() == s,
        step_front(s.reverse(), s2.reverse(), r) == step_back(s, s2, r),
{
    assert(s.reverse().reverse() =~= s);
    assert(s2.reverse().reverse() =~= s2);
    if s.len() > 0 {
        assert(s.reverse().drop_first() =~= s.drop_last().reverse());
        assert(s.drop_last().reverse().reverse() =~= s.drop_last());
    }
}

/// `nth(0)` is `next`: it returns the first element and consumes only it.
pub proof fn law_nth_zero_is_next(s: Seq<Value>, s2: Seq<Value>, r: Option<crate::value::ZVal>)
    ensures
        step_nth(s, s2, 0, r) == step_front(s, s2, r),
{
    if s.len() > 0 {
        assert(s.subrange(1, s.len() as int) =~= s.drop_first());
    }
}

/// Once `next` has returned `null`, it returns `null` again: an iterator
/// that has run out stays empty.
pub proof fn law_exhausted_stays_empty(
    s: Seq<Value>,
    s2: Seq<Value>,
    s3: Seq<Value>,
    r: Option<crate::value::ZVal>,
)
    requires
        step_front(s, s2, None),
        step_front(s2, s3, r),
    ensures
        r is None,
        s3.len() == 0,
{
}

/// `partition` loses and repeats nothing: the accepted and the rejected
/// elements are together as many as the elements.
pub proof fn law_partition_sizes(s: Seq<Value>, g: Callbacks, t: Test)
    ensures
        s.filter(match_fn(g, t, true)).len() + s.filter(match_fn(g, t, false)).len() == s.len(),
    decreases s.len(),
{
    reveal_with_fuel(Seq::filter, 2);
    if s.len() > 0 {
        law_partition_sizes(s.drop_last(), g, t);
    }
}

/// `step_by(step)` yields the first element whatever the step, then every
/// `step`-th one: the `k`th result is the element at `k * step`, and there
/// are `ceil(len / step)` results.
pub proof fn law_step_by(s: Seq<Value>, step: int)
    requires
        step >= 1,
    ensures
        step_seq(s, step, true).len() == (s.len() + step - 1) / step,
        s.len() > 0 ==> step_seq(s, step, true).len() > 0 && step_seq(s, step, true)[0] == s[0],
        forall|k: int| 0 <= k < step_seq(s, step, true).len() ==> #[trigger] step_seq(s, step, true)[k] == s[k * step],
{
    let len = s.len() as int;
    if len > 0 {
        assert((len - 1) / step + 1 == (len - 1 + step) / step) by (nonlinear_arith)
            requires
                step >= 1,
                len >= 1,
        {
            assert(((len - 1) + step) / step == (len - 1) / step + 1) by {
                vstd::arithmetic::div_mod::lemma_div_plus_one(len - 1, step);
            }
        }
    } else {
        assert((len + step - 1) / step == 0) by (nonlinear_arith)
            requires
                step >= 1,
                len == 0,
        ;
    }
}

/// `zip` stops with the shorter iterator: it yields as many pairs as the
/// shorter one has elements, the `i`th pairing the `i`th elements.
pub proof fn law_zip(a: Seq<Value>, b: Seq<Value>)
    ensures
        zip_seq(a, b).len() == (if a.len() <= b.len() { a.len() } else { b.len() }),
        forall|i: int| 0 <= i < zip_seq(a, b).len() ==> #[trigger] zip_seq(a, b)[i] == pair(a[i], b[i]),
{
}

/// The search behind `all`, `any`, `find` and `position` stops at the first
/// element that passes `f`; it runs to the end exactly when none does.
pub proof fn law_first_index(s: Seq<Value>, f: spec_fn(Value) -> bool)
    ensures
        0 <= first_index(s, f) <= s.len(),
        first_index(s, f) < s.len() ==> f(s[first_index(s, f)]),
        forall|j: int| 0 <= j < first_index(s, f) ==> !f(#[trigger] s[j]),
        (first_index(s, f) == s.len()) <==> (forall|j: int| 0 <= j < s.len() ==> !f(#[trigger] s[j])),
    decreases s.len(),
{
    if s.len() > 0 && !f(s[0]) {
        let t = s.drop_first();
        law_first_index(t, f);
        assert forall|j: int| 0 <= j < first_index(s, f) implies !f(#[trigger] s[j]) by {
            if j > 0 {
                assert(s[j] == t[j - 1]);
            }
        }
        if first_index(s, f) < s.len() {
            assert(s[first_index(s, f)] == t[first_index(t, f)]);
        } else {
            assert forall|j: int| 0 <= j < s.len() implies !f(#[trigger] s[j]) by {
                if j > 0 {
                    assert(s[j] == t[j - 1]);
                }
            }
        }
    }
}

/// `all` is true exactly when the callback accepts every element, and so on
/// no elements; `any` is true exactly when it accepts some element, and so
/// false on no elements.
pub proof fn law_all_any(s: Seq<Value>, g: Callbacks, t: Test)
    ensures
        (first_index(s, match_fn(g, t, false)) == s.len()) <==> (forall|j: int| 0 <= j < s.len() ==> holds(g, t, #[trigger] s[j])),
        (first_index(s, match_fn(g, t, true)) < s.len()) <==> (exists|j: int| 0 <= j < s.len() && holds(g, t, #[trigger] s[j])),
{
    law_first_index(s, match_fn(g, t, false));
    law_first_index(s, match_fn(g, t, true));
    assert((forall|j: int| 0 <= j < s.len() ==> holds(g, t, #[trigger] s[j])) <==> (forall|j: int| 0 <= j < s.len() ==> !match_fn(g, t, false)(#[trigger] s[j])));
    assert((exists|j: int| 0 <= j < s.len() && holds(g, t, #[trigger] s[j])) <==> !(forall|j: int| 0 <= j < s.len() ==> !match_fn(g, t, true)(#[trigger] s[j])));
}

/// `find_map(f)` gives what `filter_map(f)` yields first, and `null` exactly
/// when `filter_map(f)` yields nothing.
pub proof fn law_find_map_is_first_of_filter_map(s: Seq<Value>, g: Callbacks, cb: u64)
    ensures
        (first_index(s, maps_fn(g, cb)) == s.len()) == (filter_seq(map_seq(s, g, cb), g, Test::NotNull).len() == 0),
        first_index(s, maps_fn(g, cb)) < s.len() ==> filter_seq(map_seq(s, g, cb), g, Test::NotNull)[0] == g(
            cb,
            seq![s[first_index(s, maps_fn(g, cb))]],
        ),
    decreases s.len(),
{
    let f = test_fn(g, Test::NotNull);
    if s.len() > 0 {
        let t = s.drop_first();
        law_find_map_is_first_of_filter_map(t, g, cb);
        let m = map_seq(s, g, cb);
        assert(m =~= seq![g(cb, seq![s[0]])] + map_seq(t, g, cb));
        Seq::filter_distributes_over_add(seq![g(cb, seq![s[0]])], map_seq(t, g, cb), f);
        reveal_with_fuel(Seq::filter, 2);
        assert(seq![g(cb, seq![s[0]])].drop_last() =~= Seq::<Value>::empty());
        if g(cb, seq![s[0]]) != Value::Null {
            assert(seq![g(cb, seq![s[0]])].filter(f) =~= seq![g(cb, seq![s[0]])]);
        } else {
            assert(seq![g(cb, seq![s[0]])].filter(f) =~= Seq::<Value>::empty());
            assert(Seq::<Value>::empty() + map_seq(t, g, cb).filter(f) =~= map_seq(t, g, cb).filter(f));
            let mf = maps_fn(g, cb);
            assert(!mf(s[0]));
            assert(first_index(s, mf) == 1 + first_index(t, mf));
            law_first_index(t, mf);
            if first_index(t, mf) < t.len() {
                assert(s[1 + first_index(t, mf)] == t[first_index(t, mf)]);
                assert(s[first_index(s, maps_fn(g, cb))] == t[first_index(t, maps_fn(g, cb))]);
            }
        }
    } else {
        assert(map_seq(s, g, cb) =~= Seq::<Value>::empty());
    }
}

/// `flat_map(f)` yields what `map(f)` followed by `flatten()` yields, as
/// long as `f` returns arrays.
pub proof fn law_flat_map_is_map_then_flatten(s: Seq<Value>, g: Callbacks, cb: u64)
    requires
        forall|i: int| 0 <= i < s.len() ==> (#[trigger] g(cb, seq![s[i]])) is Array,
    ensures
        flat_seq(s, g, Expand::Callback(cb)) == flat_seq(map_seq(s, g, cb), g, Expand::Nested),
{
    let a = s.map_values(|x: Value| expand(g, Expand::Callback(cb), x));
    let b = map_seq(s, g, cb).map_values(|x: Value| expand(g, Expand::Nested, x));
    assert forall|i: int| 0 <= i < s.len() implies #[trigger] a[i] == b[i] by {
        assert(g(cb, seq![s[i]]) is Array);
    }
    assert(a =~= b);
}

/// The opposite order.
pub open spec fn flip(o: Order) -> Order {
    match o {
        Order::Less => Order::Greater,
        Order::Equal => Order::Equal,
        Order::Greater => Order::Less,
    }
}

/// The outcome of a comparison made the other way round.
pub open spec fn flip_outcome(r: Option<Option<Order>>) -> Option<Option<Order>> {
    match r {
        Some(Some(o)) => Some(Some(flip(o))),
        _ => r,
    }
}

/// PHP's `===` does not depend on the order of its operands.
pub proof fn lemma_identical_symmetric(a: Value, b: Value)
    ensures
        identical(a, b) == identical(b, a),
    decreases a,
{
    match a {
        Value::Array(x) => {
            if b is Array {
                let y = b->Array_0;
                assert forall|i: int| 0 <= i < x.len() && i < y.len() implies identical(x[i].1, y[i].1) == identical(
                    y[i].1,
                    x[i].1,
                ) by {
                    lemma_identical_symmetric(x[i].1, y[i].1);
                }
                if identical(a, b) {
                    assert forall|i: int| #![trigger y[i]] 0 <= i < y.len() implies y[i].0 == x[i].0 && identical(y[i].1, x[i].1) by {
                        assert(x[i].0 == y[i].0 && identical(x[i].1, y[i].1));
                    }
                }
                if identical(b, a) {
                    assert forall|i: int| #![trigger x[i]] 0 <= i < x.len() implies x[i].0 == y[i].0 && identical(x[i].1, y[i].1) by {
                        assert(y[i].0 == x[i].0 && identical(y[i].1, x[i].1));
                    }
                }
            }
        },
        _ => {},
    }
}

/// Byte strings compare the opposite way round in the opposite order.
pub proof fn lemma_compare_bytes_flip(a: Seq<u8>, b: Seq<u8>)
    ensures
        compare_bytes(b, a) == flip(compare_bytes(a, b)),
    decreases a.len(),
{
    if a.len() > 0 && b.len() > 0 && a[0] == b[0] {
        lemma_compare_bytes_flip(a.drop_first(), b.drop_first());
    }
}

/// Two values compare the opposite way round in the opposite order, in each
/// of the ways the iterators compare them.
pub proof fn lemma_pair_outcome_flip(x: Value, y: Value, mode: LexMode)
    ensures
        pair_outcome(y, x, mode) == match pair_outcome(x, y, mode) {
            Some(Some(Some(o))) => Some(Some(Some(flip(o)))),
            other => other,
        },
{
    lemma_identical_symmetric(x, y);
    match (x, y) {
        (Value::Str(a), Value::Str(b)) => {
            lemma_compare_bytes_flip(a, b);
        },
        _ => {},
    }
    assert(partial_compare(y, x) == match partial_compare(x, y) {
        Some(o) => Some(flip(o)),
        None => None,
    });
}

/// Comparing two iterators the other way round gives the opposite outcome:
/// `a < b` exactly when `b > a`, `a == b` exactly when `b == a`, and one
/// comparison fails exactly when the other does.
pub proof fn law_compare_flips(a: Seq<Value>, b: Seq<Value>, mode: LexMode)
    ensures
        lex_result(b, a, mode) == flip_outcome(lex_result(a, b, mode)),
    decreases a.len(),
{
    if a.len() > 0 && b.len() > 0 {
        lemma_pair_outcome_flip(a[0], b[0], mode);
        law_compare_flips(a.drop_first(), b.drop_first(), mode);
    }
}

/// The elements of an iterator are equal (`eq`) to the same elements, unless
/// one of them holds a NaN, which PHP does not find identical to itself.
pub proof fn law_eq_reflexive(a: Seq<Value>)
    requires
        forall|i: int| 0 <= i < a.len() ==> identical(#[trigger] a[i], a[i]),
    ensures
        lex_result(a, a, LexMode::Identity) == Some(Some(Order::Equal)),
    decreases a.len(),
{
    if a.len() > 0 {
        assert(identical(a[0], a[0]));
        let t = a.drop_first();
        assert forall|i: int| 0 <= i < t.len() implies identical(#[trigger] t[i], t[i]) by {
            assert(t[i] == a[i + 1]);
        }
        law_eq_reflexive(t);
    }
}

/// The running maximum or minimum of integers is the greatest or least of
/// them, and one of them.
proof fn lemma_extreme_fold_integers(rest: Seq<Value>, acc: Value, is_max: bool)
    requires
        acc is Long,
        forall|i: int| 0 <= i < rest.len() ==> (#[trigger] rest[i]) is Long,
    ensures
        extreme_fold(rest, acc, is_max) matches Some(v) && v is Long && (v == acc || rest.contains(v)) && (is_max
            ==> acc->Long_0 <= v->Long_0) && (!is_max ==> v->Long_0 <= acc->Long_0) && forall|i: int|
            0 <= i < rest.len() ==> (is_max ==> (#[trigger] rest[i])->Long_0 <= v->Long_0) && (!is_max ==> v->Long_0
                <= rest[i]->Long_0),
    decreases rest.len(),
{
    if rest.len() > 0 {
        let x = rest[0];
        let o = total_compare(acc, x);
        let next = if is_max {
            keep_max(o, acc, x)
        } else {
            keep_min(o, acc, x)
        };
        let t = rest.drop_first();
        assert forall|i: int| 0 <= i < t.len() implies (#[trigger] t[i]) is Long by {
            assert(t[i] == rest[i + 1]);
        }
        lemma_extreme_fold_integers(t, next, is_max);
        let v = extreme_fold(t, next, is_max)->0;
        assert(comparable(acc, x));
        if t.contains(v) {
            let k = choose|k: int| 0 <= k < t.len() && t[k] == v;
            assert(rest[k + 1] == v);
        }
        assert forall|i: int| 0 <= i < rest.len() implies (is_max ==> (#[trigger] rest[i])->Long_0 <= v->Long_0) && (
        !is_max ==> v->Long_0 <= rest[i]->Long_0) by {
            if i > 0 {
                assert(rest[i] == t[i - 1]);
            }
        }
    }
}

/// On integers, `max` returns the greatest element and `min` the least.
pub proof fn law_extreme_of_integers(s: Seq<Value>, is_max: bool)
    requires
        s.len() > 0,
        forall|i: int| 0 <= i < s.len() ==> (#[trigger] s[i]) is Long,
    ensures
        extreme(s, is_max) matches Some(Some(v)) && s.contains(v) && forall|i: int|
            0 <= i < s.len() ==> (is_max ==> (#[trigger] s[i])->Long_0 <= v->Long_0) && (!is_max ==> v->Long_0
                <= s[i]->Long_0),
{
    let t = s.drop_first();
    assert forall|i: int| 0 <= i < t.len() implies (#[trigger] t[i]) is Long by {
        assert(t[i] == s[i + 1]);
    }
    lemma_extreme_fold_integers(t, s[0], is_max);
    let v = extreme_fold(t, s[0], is_max)->0;
    if t.contains(v) {
        let k = choose|k: int| 0 <= k < t.len() && t[k] == v;
        assert(s[k + 1] == v);
    }
    assert forall|i: int| 0 <= i < s.len() implies (is_max ==> (#[trigger] s[i])->Long_0 <= v->Long_0) && (!is_max
        ==> v->Long_0 <= s[i]->Long_0) by {
        if i > 0 {
            assert(s[i] == t[i - 1]);
        }
    }
}

/// `ne` gives the negation of what `eq` gives on the same elements; `lt`,
/// `le`, `gt` and `ge` each test the outcome that `partial_cmp` gives: `lt`
/// that it is -1, `le` that it is -1 or 0, `gt` that it is 1 and `ge` that
/// it is 0 or 1, so that all four are false where `partial_cmp` gives `null`.
pub proof fn law_comparisons_agree(a: Seq<Value>, b: Seq<Value>)
    ensures
        (lex_result(a, b, LexMode::Identity) != Some(Some(Order::Equal))) == !(lex_result(a, b, LexMode::Identity)
            == Some(Some(Order::Equal))),
        lex_result(a, b, LexMode::Partial) matches Some(o) ==> {
            &&& accepts(o, true, false, false) == (opt_sign(o) == Some(-1i8))
            &&& accepts(o, true, true, false) == (opt_sign(o) == Some(-1i8) || opt_sign(o) == Some(0i8))
            &&& accepts(o, false, false, true) == (opt_sign(o) == Some(1i8))
            &&& accepts(o, false, true, true) == (opt_sign(o) == Some(0i8) || opt_sign(o) == Some(1i8))
        },
{
}

/// `cmp` with the arguments swapped gives the opposite sign.
pub proof fn law_cmp_sign_flips(a: Seq<Value>, b: Seq<Value>)
    ensures
        lex_result(a, b, LexMode::Total) matches Some(Some(o)) ==> lex_result(b, a, LexMode::Total) matches Some(
            Some(o2),
        ) && o2.sign() == -o.sign(),
{
    law_compare_flips(a, b, LexMode::Total);
}

/// Byte strings are ordered transitively.
pub proof fn lemma_compare_bytes_le_trans(a: Seq<u8>, b: Seq<u8>, c: Seq<u8>)
    requires
        compare_bytes(a, b) != Order::Greater,
        compare_bytes(b, c) != Order::Greater,
    ensures
        compare_bytes(a, c) != Order::Greater,
    decreases a.len(),
{
    if a.len() > 0 && b.len() > 0 && c.len() > 0 && a[0] == b[0] && b[0] == c[0] {
        lemma_compare_bytes_le_trans(a.drop_first(), b.drop_first(), c.drop_first());
    }
}

/// Every byte string is equal to itself.
pub proof fn lemma_compare_bytes_refl(a: Seq<u8>)
    ensures
        compare_bytes(a, a) == Order::Equal,
    decreases a.len(),
{
    if a.len() > 0 {
        lemma_compare_bytes_refl(a.drop_first());
    }
}

/// All of `s` are UTF-8 strings.
pub open spec fn all_utf8_strings(s: Seq<Value>) -> bool {
    forall|i: int| 0 <= i < s.len() ==> (#[trigger] s[i]) is Str && valid_utf8(s[i]->Str_0)
}

/// `v` is at least (`is_max`) or at most every string in `s` and than `acc`.
pub open spec fn string_bound(v: Value, acc: Value, s: Seq<Value>, is_max: bool) -> bool {
    &&& is_max ==> compare_bytes(acc->Str_0, v->Str_0) != Order::Greater
    &&& !is_max ==> compare_bytes(v->Str_0, acc->Str_0) != Order::Greater
    &&& forall|i: int| 0 <= i < s.len() ==> (is_max ==> compare_bytes((#[trigger] s[i])->Str_0, v->Str_0) != Order::Greater)
        && (!is_max ==> compare_bytes(v->Str_0, s[i]->Str_0) != Order::Greater)
}

proof fn lemma_extreme_fold_strings(rest: Seq<Value>, acc: Value, is_max: bool)
    requires
        acc is Str && valid_utf8(acc->Str_0),
        all_utf8_strings(rest),
    ensures
        extreme_fold(rest, acc, is_max) matches Some(v) && (v == acc || rest.contains(v)) && string_bound(
            v,
            acc,
            rest,
            is_max,
        ),
    decreases rest.len(),
{
    if rest.len() == 0 {
        lemma_compare_bytes_refl(acc->Str_0);
    } else {
        let x = rest[0];
        assert(rest.contains(x));
        assert(x is Str && valid_utf8(x->Str_0));
        let o = total_compare(acc, x);
        assert(o == compare_bytes(acc->Str_0, x->Str_0));
        let next = if is_max {
            keep_max(o, acc, x)
        } else {
            keep_min(o, acc, x)
        };
        let t = rest.drop_first();
        assert forall|i: int| 0 <= i < t.len() implies (#[trigger] t[i]) is Str && valid_utf8(t[i]->Str_0) by {
            assert(t[i] == rest[i + 1]);
        }
        lemma_extreme_fold_strings(t, next, is_max);
        let v = extreme_fold(t, next, is_max)->0;
        assert(comparable(acc, x));
        if t.contains(v) {
            let k = choose|k: int| 0 <= k < t.len() && t[k] == v;
            assert(rest[k + 1] == v);
        }
        lemma_compare_bytes_flip(acc->Str_0, x->Str_0);
        if is_max {
            if o == Order::Greater {
                lemma_compare_bytes_le_trans(x->Str_0, acc->Str_0, v->Str_0);
            } else {
                lemma_compare_bytes_le_trans(acc->Str_0, x->Str_0, v->Str_0);
            }
        } else {
            if o == Order::Greater {
                lemma_compare_bytes_le_trans(v->Str_0, x->Str_0, acc->Str_0);
            } else {
                lemma_compare_bytes_le_trans(v->Str_0, acc->Str_0, x->Str_0);
            }
        }
        assert forall|i: int| 0 <= i < rest.len() implies (is_max ==> compare_bytes((#[trigger] rest[i])->Str_0, v->Str_0)
            != Order::Greater) && (!is_max ==> compare_bytes(v->Str_0, rest[i]->Str_0) != Order::Greater) by {
            if i > 0 {
                assert(rest[i] == t[i - 1]);
            }
        }
    }
}

/// On UTF-8 strings, `max` returns the greatest string and `min` the least,
/// in byte order.
pub proof fn law_extreme_of_strings(s: Seq<Value>, is_max: bool)
    requires
        s.len() > 0,
        all_utf8_strings(s),
    ensures
        extreme(s, is_max) matches Some(Some(v)) && s.contains(v) && forall|i: int|
            0 <= i < s.len() ==> (is_max ==> compare_bytes((#[trigger] s[i])->Str_0, v->Str_0) != Order::Greater)
                && (!is_max ==> compare_bytes(v->Str_0, s[i]->Str_0) != Order::Greater),
{
    let t = s.drop_first();
    assert(s[0] is Str && valid_utf8(s[0]->Str_0));
    assert forall|i: int| 0 <= i < t.len() implies (#[trigger] t[i]) is Str && valid_utf8(t[i]->Str_0) by {
        assert(t[i] == s[i + 1]);
    }
    lemma_extreme_fold_strings(t, s[0], is_max);
    let v = extreme_fold(t, s[0], is_max)->0;
    if t.contains(v) {
        let k = choose|k: int| 0 <= k < t.len() && t[k] == v;
        assert(s[k + 1] == v);
    }
    assert forall|i: int| 0 <= i < s.len() implies (is_max ==> compare_bytes((#[trigger] s[i])->Str_0, v->Str_0)
        != Order::Greater) && (!is_max ==> compare_bytes(v->Str_0, s[i]->Str_0) != Order::Greater) by {
        if i > 0 {
            assert(s[i] == t[i - 1]);
        }
    }
}

/// `ZVal::partial_cmp` with its arguments swapped gives the opposite order,
/// and unordered stays unordered; a value compares equal to itself unless it
/// is an array holding a NaN, which PHP does not find identical to itself
/// (a NaN double on its own does not compare at all: `ZVal::partial_cmp`
/// takes only comparable pairs).
pub proof fn law_partial_compare_symmetric_reflexive(x: Value, y: Value)
    ensures
        partial_compare(y, x) == match partial_compare(x, y) {
            Some(o) => Some(flip(o)),
            None => None,
        },
        !(x is Array) || identical(x, x) ==> partial_compare(x, x) == Some(Order::Equal),
{
    lemma_identical_symmetric(x, y);
    match (x, y) {
        (Value::Str(a), Value::Str(b)) => {
            lemma_compare_bytes_flip(a, b);
        },
        _ => {},
    }
    if let Value::Str(a) = x {
        lemma_compare_bytes_refl(a);
    }
}

/// The key a callback gives an element, when it is an integer.
pub open spec fn int_key(g: Callbacks, cb: u64, x: Value) -> int {
    g(cb, seq![x])->Long_0 as int
}

/// The running maximum or minimum by integer keys keeps the key of the
/// element it holds, and ends on an element whose key bounds all the keys.
proof fn lemma_key_fold_integers(
    keys: Seq<Value>,
    rest: Seq<Value>,
    acc_k: Value,
    acc: Value,
    g: Callbacks,
    cb: u64,
    is_max: bool,
)
    requires
        keys.len() == rest.len(),
        forall|i: int| 0 <= i < rest.len() ==> keys[i] == g(cb, seq![#[trigger] rest[i]]) && keys[i] is Long,
        acc_k == g(cb, seq![acc]),
        acc_k is Long,
    ensures
        extreme_key_fold(keys, rest, acc_k, acc, is_max) matches Some(v) && (v == acc || rest.contains(v)) && g(
            cb,
            seq![v],
        ) is Long && (is_max ==> int_key(g, cb, acc) <= int_key(g, cb, v)) && (!is_max ==> int_key(g, cb, v)
            <= int_key(g, cb, acc)) && forall|i: int|
            0 <= i < rest.len() ==> (is_max ==> int_key(g, cb, #[trigger] rest[i]) <= int_key(g, cb, v)) && (!is_max
                ==> int_key(g, cb, v) <= int_key(g, cb, rest[i])),
    decreases rest.len(),
{
    if rest.len() > 0 {
        let x = rest[0];
        assert(keys[0] == g(cb, seq![x]) && keys[0] is Long);
        let o = total_compare(acc_k, keys[0]);
        let keep_held = if is_max { o == Order::Greater } else { o != Order::Greater };
        let nk = if keep_held { acc_k } else { keys[0] };
        let na = if keep_held { acc } else { x };
        let kt = keys.drop_first();
        let t = rest.drop_first();
        assert forall|i: int| 0 <= i < t.len() implies kt[i] == g(cb, seq![#[trigger] t[i]]) && kt[i] is Long by {
            assert(t[i] == rest[i + 1]);
            assert(kt[i] == keys[i + 1]);
        }
        lemma_key_fold_integers(kt, t, nk, na, g, cb, is_max);
        let v = extreme_key_fold(kt, t, nk, na, is_max)->0;
        assert(comparable(acc_k, keys[0]));
        assert(rest.contains(x));
        if t.contains(v) {
            let k = choose|k: int| 0 <= k < t.len() && t[k] == v;
            assert(rest[k + 1] == v);
        }
        assert forall|i: int| 0 <= i < rest.len() implies (is_max ==> int_key(g, cb, #[trigger] rest[i]) <= int_key(
            g,
            cb,
            v,
        )) && (!is_max ==> int_key(g, cb, v) <= int_key(g, cb, rest[i])) by {
            if i > 0 {
                assert(rest[i] == t[i - 1]);
            }
        }
    }
}

/// `max_by_key` returns an element whose key is at least the key of every
/// element, and `min_by_key` one whose key is at most every key, when the
/// keys are integers.
pub proof fn law_extreme_by_key_of_integer_keys(s: Seq<Value>, g: Callbacks, cb: u64, is_max: bool)
    requires
        s.len() > 0,
        forall|i: int| 0 <= i < s.len() ==> g(cb, seq![#[trigger] s[i]]) is Long,
    ensures
        extreme_by_key(s, g, cb, is_max) matches Some(Some(v)) && s.contains(v) && forall|i: int|
            0 <= i < s.len() ==> (is_max ==> int_key(g, cb, #[trigger] s[i]) <= int_key(g, cb, v)) && (!is_max
                ==> int_key(g, cb, v) <= int_key(g, cb, s[i])),
{
    let keys = map_seq(s, g, cb);
    let t = s.drop_first();
    let kt = keys.drop_first();
    assert(g(cb, seq![s[0]]) is Long);
    assert forall|i: int| 0 <= i < t.len() implies kt[i] == g(cb, seq![#[trigger] t[i]]) && kt[i] is Long by {
        assert(t[i] == s[i + 1]);
    }
    lemma_key_fold_integers(kt, t, keys[0], s[0], g, cb, is_max);
    let v = extreme_key_fold(kt, t, keys[0], s[0], is_max)->0;
    if t.contains(v) {
        let k = choose|k: int| 0 <= k < t.len() && t[k] == v;
        assert(s[k + 1] == v);
    }
    assert forall|i: int| 0 <= i < s.len() implies (is_max ==> int_key(g, cb, #[trigger] s[i]) <= int_key(g, cb, v))
        && (!is_max ==> int_key(g, cb, v) <= int_key(g, cb, s[i])) by {
        if i > 0 {
            assert(s[i] == t[i - 1]);
        }
    }
}

/// The sign bit of a double.
pub open spec fn sign_bit() -> u64 {
    0x8000_0000_0000_0000
}

/// PHP orders non-NaN doubles as IEEE-754 numbers: two non-negative ones
/// as their bit patterns, two negative ones the other way round, a negative
/// nonzero one below any non-negative one, and the two zeros as equal.
pub proof fn law_double_order(a: u64, b: u64)
    requires
        !is_nan(a),
        !is_nan(b),
    ensures
        a < sign_bit() && b < sign_bit() ==> partial_compare(Value::Double(a), Value::Double(b)) == Some(
            compare_int(a as int, b as int),
        ),
        a >= sign_bit() && b >= sign_bit() ==> partial_compare(Value::Double(a), Value::Double(b)) == Some(
            compare_int(b as int, a as int),
        ),
        a > sign_bit() && b < sign_bit() ==> partial_compare(Value::Double(a), Value::Double(b)) == Some(
            Order::Less,
        ),
        (a == 0 || a == sign_bit()) && (b == 0 || b == sign_bit()) ==> partial_compare(
            Value::Double(a),
            Value::Double(b),
        ) == Some(Order::Equal),
{
    assert(a >= 0x8000_0000_0000_0000 ==> a % 0x8000_0000_0000_0000 == a - 0x8000_0000_0000_0000) by (bit_vector);
    assert(a < 0x8000_0000_0000_0000 ==> a % 0x8000_0000_0000_0000 == a) by (bit_vector);
    assert(b >= 0x8000_0000_0000_0000 ==> b % 0x8000_0000_0000_0000 == b - 0x8000_0000_0000_0000) by (bit_vector);
    assert(b < 0x8000_0000_0000_0000 ==> b % 0x8000_0000_0000_0000 == b) by (bit_vector);
}

/// A proper prefix of a byte string comes before it.
pub proof fn law_compare_bytes_prefix(a: Seq<u8>, c: Seq<u8>)
    requires
        c.len() > 0,
    ensures
        compare_bytes(a, a + c) == Order::Less,
        compare_bytes(a + c, a) == Order::Greater,
    decreases a.len(),
{
    if a.len() > 0 {
        assert((a + c).drop_first() =~= a.drop_first() + c);
        assert((a + c)[0] == a[0]);
        law_compare_bytes_prefix(a.drop_first(), c);
    } else {
        assert(a + c =~= c);
    }
}

/// Byte strings are ordered by their first differing byte.
pub proof fn law_compare_bytes_first_difference(a: Seq<u8>, b: Seq<u8>, i: int)
    requires
        0 <= i < a.len(),
        i < b.len(),
        a.subrange(0, i) == b.subrange(0, i),
        a[i] < b[i],
    ensures
        compare_bytes(a, b) == Order::Less,
        compare_bytes(b, a) == Order::Greater,
    decreases i,
{
    if i > 0 {
        assert(a[0] == a.subrange(0, i)[0]);
        assert(b[0] == b.subrange(0, i)[0]);
        assert(a.drop_first().subrange(0, i - 1) =~= b.drop_first().subrange(0, i - 1)) by {
            assert forall|j: int| 0 <= j < i - 1 implies a.drop_first()[j] == b.drop_first()[j] by {
                assert(a[j + 1] == a.subrange(0, i)[j + 1]);
                assert(b[j + 1] == b.subrange(0, i)[j + 1]);
            }
        }
        law_compare_bytes_first_difference(a.drop_first(), b.drop_first(), i - 1);
    }
}

/// Comparing an iterator of one string with one of a longer string that it
/// begins: the shorter is less.
pub proof fn law_cmp_string_prefix(a: Seq<u8>, c: Seq<u8>)
    requires
        c.len() > 0,
        valid_utf8(a),
        valid_utf8(a + c),
    ensures
        lex_result(seq![Value::Str(a)], seq![Value::Str(a + c)], LexMode::Total) == Some(Some(Order::Less)),
        lex_result(seq![Value::Str(a)], seq![Value::Str(a + c)], LexMode::Partial) == Some(Some(Order::Less)),
{
    law_compare_bytes_prefix(a, c);
}

/// A comparison callback reports the sign of the integer it returns.
pub proof fn law_order_of_sign(n: i64)
    ensures
        n < 0 ==> order_of(Value::Long(n)) == Order::Less,
        n == 0 ==> order_of(Value::Long(n)) == Order::Equal,
        n > 0 ==> order_of(Value::Long(n)) == Order::Greater,
{
}

/// What the comparison callback returns for two integers.
pub open spec fn compares(g: Callbacks, cb: u64, x: i64, y: i64) -> Value {
    g(cb, seq![Value::Long(x), Value::Long(y)])
}

/// PHP's `<=>` on two integers.
pub open spec fn spaceship(x: i64, y: i64) -> i64 {
    if x < y {
        -1i64
    } else if x == y {
        0i64
    } else {
        1i64
    }
}

proof fn lemma_extreme_by_fold_integers(rest: Seq<Value>, acc: Value, g: Callbacks, cb: u64, is_max: bool)
    requires
        acc is Long,
        forall|i: int| 0 <= i < rest.len() ==> (#[trigger] rest[i]) is Long,
        forall|x: i64, y: i64| #[trigger] compares(g, cb, x, y) == Value::Long(spaceship(x, y)),
    ensures
        ({
            let v = extreme_by_fold(rest, acc, g, cb, is_max);
            &&& v is Long
            &&& v == acc || rest.contains(v)
            &&& is_max ==> acc->Long_0 <= v->Long_0
            &&& !is_max ==> v->Long_0 <= acc->Long_0
            &&& forall|i: int| 0 <= i < rest.len() ==> (is_max ==> (#[trigger] rest[i])->Long_0 <= v->Long_0) && (
            !is_max ==> v->Long_0 <= rest[i]->Long_0)
        }),
    decreases rest.len(),
{
    if rest.len() > 0 {
        let x = rest[0];
        assert(x is Long);
        assert(acc == Value::Long(acc->Long_0) && x == Value::Long(x->Long_0));
        assert(compares(g, cb, acc->Long_0, x->Long_0) == Value::Long(spaceship(acc->Long_0, x->Long_0)));
        let o = order_of(g(cb, seq![acc, x]));
        let next = if is_max {
            keep_max(o, acc, x)
        } else {
            keep_min(o, acc, x)
        };
        let t = rest.drop_first();
        assert forall|i: int| 0 <= i < t.len() implies (#[trigger] t[i]) is Long by {
            assert(t[i] == rest[i + 1]);
        }
        lemma_extreme_by_fold_integers(t, next, g, cb, is_max);
        let v = extreme_by_fold(t, next, g, cb, is_max);
        assert(rest.contains(x));
        if t.contains(v) {
            let k = choose|k: int| 0 <= k < t.len() && t[k] == v;
            assert(rest[k + 1] == v);
        }
        assert forall|i: int| 0 <= i < rest.len() implies (is_max ==> (#[trigger] rest[i])->Long_0 <= v->Long_0) && (
        !is_max ==> v->Long_0 <= rest[i]->Long_0) by {
            if i > 0 {
                assert(rest[i] == t[i - 1]);
            }
        }
    }
}

/// With PHP's `<=>` as the comparison callback on integers, `max_by`
/// returns the greatest element and `min_by` the least.
pub proof fn law_extreme_by_spaceship(s: Seq<Value>, g: Callbacks, cb: u64, is_max: bool)
    requires
        s.len() > 0,
        forall|i: int| 0 <= i < s.len() ==> (#[trigger] s[i]) is Long,
        forall|x: i64, y: i64| #[trigger] compares(g, cb, x, y) == Value::Long(spaceship(x, y)),
    ensures
        extreme_by(s, g, cb, is_max) matches Some(v) && s.contains(v) && forall|i: int|
            0 <= i < s.len() ==> (is_max ==> (#[trigger] s[i])->Long_0 <= v->Long_0) && (!is_max ==> v->Long_0
                <= s[i]->Long_0),
{
    let t = s.drop_first();
    assert(s[0] is Long);
    assert forall|i: int| 0 <= i < t.len() implies (#[trigger] t[i]) is Long by {
        assert(t[i] == s[i + 1]);
    }
    lemma_extreme_by_fold_integers(t, s[0], g, cb, is_max);
    let v = extreme_by_fold(t, s[0], g, cb, is_max);
    if t.contains(v) {
        let k = choose|k: int| 0 <= k < t.len() && t[k] == v;
        assert(s[k + 1] == v);
    }
    assert forall|i: int| 0 <= i < s.len() implies (is_max ==> (#[trigger] s[i])->Long_0 <= v->Long_0) && (!is_max
        ==> v->Long_0 <= s[i]->Long_0) by {
        if i > 0 {
            assert(s[i] == t[i - 1]);
        }
    }
}

/// What each adapter keeps of an iterator's capabilities: `chain` is
/// double-ended exactly when both parts are, and never of known length;
/// `zip` has a known length exactly when both parts do, and is double-ended
/// exactly when both are double-ended with a known length; `skip`, `take`,
/// `step_by` and `enumerate` stay double-ended only with a known length and
/// keep the known length; `filter` and the flattening adapters keep
/// double-endedness and lose the length.
pub proof fn law_kinds(k1: IterKind, k2: IterKind)
    ensures
        k1.chained(k2).double_ended() == (k1.double_ended() && k2.double_ended()),
        !k1.chained(k2).exact_size(),
        k1.zipped(k2).exact_size() == (k1.exact_size() && k2.exact_size()),
        k1.zipped(k2).double_ended() == (k1.double_ended() && k1.exact_size() && k2.double_ended()
            && k2.exact_size()),
        k1.counted().double_ended() == (k1.double_ended() && k1.exact_size()),
        k1.counted().exact_size() == k1.exact_size(),
        k1.uncounted().double_ended() == k1.double_ended(),
        !k1.uncounted().exact_size(),
{
}

/// Which kind of value a value is.
pub open spec fn value_kind(v: Value) -> int {
    match v {
        Value::Null => 0,
        Value::Bool(_) => 1,
        Value::Long(_) => 2,
        Value::Double(_) => 3,
        Value::Str(_) => 4,
        Value::Array(_) => 5,
        Value::Object(_) => 6,
    }
}

/// PHP's ordering of values as the iterators use it: integers by value,
/// `false` before `true`, `null` equal to `null`; values of different kinds
/// are unordered, and two arrays or two objects are equal when identical
/// and unordered otherwise.
pub proof fn law_value_order(x: Value, y: Value)
    ensures
        x is Long && y is Long ==> partial_compare(x, y) == Some(
            if x->Long_0 < y->Long_0 {
                Order::Less
            } else if x->Long_0 == y->Long_0 {
                Order::Equal
            } else {
                Order::Greater
            },
        ),
        partial_compare(Value::Bool(false), Value::Bool(true)) == Some(Order::Less),
        x is Bool && y is Bool && x == y ==> partial_compare(x, y) == Some(Order::Equal),
        x is Null && y is Null ==> partial_compare(x, y) == Some(Order::Equal),
        value_kind(x) != value_kind(y) ==> partial_compare(x, y) is None && total_compare(x, y) == Order::Equal,
        (x is Array && y is Array) || (x is Object && y is Object) ==> partial_compare(x, y) == if identical(x, y) {
            Some(Order::Equal)
        } else {
            None
        },
{
}

/// When every pair of elements compares equal, `max` returns the last
/// element and `min` the first.
pub proof fn law_extreme_ties(s: Seq<Value>, is_max: bool)
    requires
        s.len() > 0,
        forall|i: int, j: int|
            0 <= i < s.len() && 0 <= j < s.len() ==> comparable(#[trigger] s[i], #[trigger] s[j]) && total_compare(
                s[i],
                s[j],
            ) == Order::Equal,
    ensures
        extreme(s, is_max) == Some(Some(if is_max { s.last() } else { s[0] })),
{
    lemma_extreme_fold_ties(s, 0, is_max);
}

proof fn lemma_extreme_fold_ties(s: Seq<Value>, k: int, is_max: bool)
    requires
        0 <= k < s.len(),
        forall|i: int, j: int|
            0 <= i < s.len() && 0 <= j < s.len() ==> comparable(#[trigger] s[i], #[trigger] s[j]) && total_compare(
                s[i],
                s[j],
            ) == Order::Equal,
    ensures
        extreme_fold(s.subrange(k + 1, s.len() as int), if is_max { s[k] } else { s[0] }, is_max) == Some(
            if is_max { s.last() } else { s[0] },
        ),
    decreases s.len() - k,
{
    let rest = s.subrange(k + 1, s.len() as int);
    let acc = if is_max { s[k] } else { s[0] };
    if k + 1 < s.len() {
        assert(rest[0] == s[k + 1]);
        assert(comparable(acc, s[k + 1]) && total_compare(acc, s[k + 1]) == Order::Equal);
        assert(rest.drop_first() =~= s.subrange(k + 2, s.len() as int));
        lemma_extreme_fold_ties(s, k + 1, is_max);
    } else {
        assert(rest.len() == 0);
    }
}

/// Comparing integer sequences: a proper prefix is less, and otherwise the
/// first differing pair decides.
pub proof fn law_cmp_integer_sequences(a: Seq<Value>, b: Seq<Value>, i: int, mode: LexMode)
    requires
        mode != LexMode::Identity,
        forall|j: int| 0 <= j < a.len() ==> (#[trigger] a[j]) is Long,
        forall|j: int| 0 <= j < b.len() ==> (#[trigger] b[j]) is Long,
        0 <= i <= a.len(),
        i <= b.len(),
        a.subrange(0, i) == b.subrange(0, i),
    ensures
        i == a.len() && i < b.len() ==> lex_result(a, b, mode) == Some(Some(Order::Less)),
        i < a.len() && i < b.len() && a[i]->Long_0 < b[i]->Long_0 ==> lex_result(a, b, mode) == Some(
            Some(Order::Less),
        ),
    decreases i,
{
    if i > 0 {
        assert(a[0] == a.subrange(0, i)[0]);
        assert(b[0] == b.subrange(0, i)[0]);
        assert(a[0] is Long && b[0] is Long);
        assert(a.drop_first().subrange(0, i - 1) =~= b.drop_first().subrange(0, i - 1)) by {
            assert forall|j: int| 0 <= j < i - 1 implies a.drop_first()[j] == b.drop_first()[j] by {
                assert(a[j + 1] == a.subrange(0, i)[j + 1]);
                assert(b[j + 1] == b.subrange(0, i)[j + 1]);
            }
        }
        assert forall|j: int| 0 <= j < a.drop_first().len() implies (#[trigger] a.drop_first()[j]) is Long by {
            assert(a.drop_first()[j] == a[j + 1]);
        }
        assert forall|j: int| 0 <= j < b.drop_first().len() implies (#[trigger] b.drop_first()[j]) is Long by {
            assert(b.drop_first()[j] == b[j + 1]);
        }
        law_cmp_integer_sequences(a.drop_first(), b.drop_first(), i - 1, mode);
    } else if i < a.len() && i < b.len() {
        assert(a[0] is Long && b[0] is Long);
    }
}

/// When all keys are the same integer, `max_by_key` returns the last
/// element and `min_by_key` the first.
pub proof fn law_extreme_by_key_ties(s: Seq<Value>, g: Callbacks, cb: u64, n: i64, is_max: bool)
    requires
        s.len() > 0,
        forall|i: int| 0 <= i < s.len() ==> g(cb, seq![#[trigger] s[i]]) == Value::Long(n),
    ensures
        extreme_by_key(s, g, cb, is_max) == Some(Some(if is_max { s.last() } else { s[0] })),
{
    assert(g(cb, seq![s[0]]) == Value::Long(n));
    lemma_key_fold_ties(s, g, cb, n, 0, is_max);
    assert(map_seq(s, g, cb).drop_first() =~= map_seq(s.subrange(1, s.len() as int), g, cb));
    assert(s.drop_first() =~= s.subrange(1, s.len() as int));
}

proof fn lemma_key_fold_ties(s: Seq<Value>, g: Callbacks, cb: u64, n: i64, k: int, is_max: bool)
    requires
        0 <= k < s.len(),
        forall|i: int| 0 <= i < s.len() ==> g(cb, seq![#[trigger] s[i]]) == Value::Long(n),
    ensures
        extreme_key_fold(
            map_seq(s.subrange(k + 1, s.len() as int), g, cb),
            s.subrange(k + 1, s.len() as int),
            Value::Long(n),
            if is_max { s[k] } else { s[0] },
            is_max,
        ) == Some(if is_max { s.last() } else { s[0] }),
    decreases s.len() - k,
{
    let rest = s.subrange(k + 1, s.len() as int);
    if k + 1 < s.len() {
        assert(rest[0] == s[k + 1]);
        assert(g(cb, seq![s[k + 1]]) == Value::Long(n));
        assert(map_seq(rest, g, cb)[0] == Value::Long(n));
        assert(map_seq(rest, g, cb).drop_first() =~= map_seq(s.subrange(k + 2, s.len() as int), g, cb));
        assert(rest.drop_first() =~= s.subrange(k + 2, s.len() as int));
        lemma_key_fold_ties(s, g, cb, n, k + 1, is_max);
    }
}

/// What the comparison callback returns for two values.
pub open spec fn judged(g: Callbacks, cb: u64, x: Value, y: Value) -> Value {
    g(cb, seq![x, y])
}

/// When the comparison callback finds every pair equal, `max_by` returns
/// the last element and `min_by` the first.
pub proof fn law_extreme_by_ties(s: Seq<Value>, g: Callbacks, cb: u64, is_max: bool)
    requires
        s.len() > 0,
        forall|i: int, j: int|
            0 <= i < s.len() && 0 <= j < s.len() ==> judged(g, cb, #[trigger] s[i], #[trigger] s[j]) == Value::Long(0),
    ensures
        extreme_by(s, g, cb, is_max) == Some(if is_max { s.last() } else { s[0] }),
{
    lemma_extreme_by_ties(s, g, cb, 0, is_max);
    assert(s.drop_first() =~= s.subrange(1, s.len() as int));
}

proof fn lemma_extreme_by_ties(s: Seq<Value>, g: Callbacks, cb: u64, k: int, is_max: bool)
    requires
        0 <= k < s.len(),
        forall|i: int, j: int|
            0 <= i < s.len() && 0 <= j < s.len() ==> judged(g, cb, #[trigger] s[i], #[trigger] s[j]) == Value::Long(0),
    ensures
        extreme_by_fold(s.subrange(k + 1, s.len() as int), if is_max { s[k] } else { s[0] }, g, cb, is_max) == if is_max {
            s.last()
        } else {
            s[0]
        },
    decreases s.len() - k,
{
    let rest = s.subrange(k + 1, s.len() as int);
    let acc = if is_max { s[k] } else { s[0] };
    if k + 1 < s.len() {
        assert(rest[0] == s[k + 1]);
        assert(judged(g, cb, acc, s[k + 1]) == Value::Long(0));
        assert(rest.drop_first() =~= s.subrange(k + 2, s.len() as int));
        lemma_extreme_by_ties(s, g, cb, k + 1, is_max);
    }
}

} // verus!
