//! Facts about the sequence operations of the model.
use vstd::prelude::*;
use vstd::arithmetic::div_mod::{
    lemma_fundamental_div_mod, lemma_div_is_ordered, lemma_basic_div,
    lemma_fundamental_div_mod_converse, lemma_div_pos_is_pos,
};
use vstd::arithmetic::mul::{lemma_mul_is_commutative, lemma_mul_inequality, lemma_mul_is_distributive_add};
use crate::value::Value;
use crate::model::{take_while_seq, drop_while_seq, count_from};

verus! {

pub proof fn lemma_take_while_len(s: Seq<Value>, f: spec_fn(Value) -> bool)
    ensures
        take_while_seq(s, f).len() <= s.len(),
    decreases s.len(),
{
    if s.len() > 0 && f(s[0]) {
        lemma_take_while_len(s.drop_first(), f);
    }
}

pub proof fn lemma_drop_while_len(s: Seq<Value>, f: spec_fn(Value) -> bool)
    ensures
        drop_while_seq(s, f).len() <= s.len(),
    decreases s.len(),
{
    if s.len() > 0 && f(s[0]) {
        lemma_drop_while_len(s.drop_first(), f);
    }
}

/// `count_from` counts the positions `start + k * step` below `len`.
pub proof fn lemma_count_bounds(len: int, start: int, step: int)
    requires
        0 <= start,
        1 <= step,
        0 <= len,
    ensures
        0 <= count_from(len, start, step) <= len,
        count_from(len, start, step) == 0 <==> start >= len,
        count_from(len, start, step) > 0 ==> start + (count_from(len, start, step) - 1) * step < len,
        count_from(len, start, step) > 0 ==> start + count_from(len, start, step) * step >= len,
{
    if start < len {
        let x = len - 1 - start;
        let q = x / step;
        lemma_fundamental_div_mod(x, step);
        lemma_mul_is_commutative(step, q);
        lemma_div_pos_is_pos(x, step);
        assert(x % step < step) by {
            vstd::arithmetic::div_mod::lemma_mod_pos_bound(x, step);
        }
        assert(x % step >= 0) by {
            vstd::arithmetic::div_mod::lemma_mod_pos_bound(x, step);
        }
        assert(q * step <= x);
        assert((q + 1) * step == q * step + step) by {
            lemma_mul_is_distributive_add(step, q, 1);
            lemma_mul_is_commutative(step, q + 1);
        }
        assert(q <= q * step) by {
            lemma_mul_inequality(1, step, q);
        }
    }
}

pub proof fn lemma_count_mono(a: int, b: int, start: int, step: int)
    requires
        0 <= start,
        1 <= step,
        0 <= a <= b,
    ensures
        count_from(a, start, step) <= count_from(b, start, step),
{
    if start < a {
        lemma_div_is_ordered(a - 1 - start, b - 1 - start, step);
    }
}

/// The count after one step: the first position dropped and the start moved
/// up to the next one.
pub proof fn lemma_count_step(len: int, start: int, step: int)
    requires
        0 <= start,
        1 <= step,
        start < len,
    ensures
        count_from(len - start - 1, step - 1, step) == count_from(len, start, step) - 1,
{
    let x = len - 1 - start;
    if step - 1 < len - start - 1 {
        // (x - step) / step + 1 == x / step
        let q = x / step;
        let r = x % step;
        lemma_fundamental_div_mod(x, step);
        lemma_mul_is_commutative(step, q);
        vstd::arithmetic::div_mod::lemma_mod_pos_bound(x, step);
        assert(x - step == (q - 1) * step + r) by {
            lemma_mul_is_distributive_add(step, q - 1, 1);
            lemma_mul_is_commutative(step, q - 1);
        }
        lemma_fundamental_div_mod_converse(x - step, step, q - 1, r);
    } else {
        lemma_basic_div(x, step);
    }
}

/// Counting from `step - 1` is dividing by the step.
pub proof fn lemma_other_count(n: int, step: int)
    requires
        0 <= n,
        1 <= step,
    ensures
        count_from(n, step - 1, step) == n / step,
{
    if n < step {
        lemma_basic_div(n, step);
    } else {
        vstd::arithmetic::div_mod::lemma_div_plus_one(n - step, step);
    }
}

/// Where the last of the positions `start + k * step` below `len` lies, as
/// `step_by` finds it from the back.
pub proof fn lemma_last_position(len: int, start: int, step: int)
    requires
        1 <= step,
        start == 0 || start == step - 1,
        0 <= start < len,
    ensures
        ({
            let idx = if start == 0 {
                if len % step == 0 {
                    step - 1
                } else {
                    len % step - 1
                }
            } else {
                len % step
            };
            &&& 0 <= idx < len
            &&& len - 1 - idx == start + (count_from(len, start, step) - 1) * step
            &&& count_from(len - 1 - idx, start, step) == count_from(len, start, step) - 1
        }),
{
    let q = len / step;
    let r = len % step;
    lemma_fundamental_div_mod(len, step);
    lemma_mul_is_commutative(step, q);
    vstd::arithmetic::div_mod::lemma_mod_pos_bound(len, step);
    lemma_div_pos_is_pos(len, step);
    assert((q - 1) * step == q * step - step) by {
        vstd::arithmetic::mul::lemma_mul_is_distributive_sub(step, q, 1);
        lemma_mul_is_commutative(step, q - 1);
    }
    assert((q - 2) * step == q * step - 2 * step) by {
        vstd::arithmetic::mul::lemma_mul_is_distributive_sub(step, q, 2);
        lemma_mul_is_commutative(step, q - 2);
    }
    if start == 0 {
        if r == 0 {
            assert(q >= 1) by {
                if q <= 0 {
                    lemma_mul_inequality(q, 0, step);
                }
            }
            lemma_fundamental_div_mod_converse(len - 1, step, q - 1, step - 1);
            if q >= 2 {
                lemma_fundamental_div_mod_converse((q - 1) * step - 1, step, q - 2, step - 1);
            }
        } else {
            lemma_fundamental_div_mod_converse(len - 1, step, q, r - 1);
            if q >= 1 {
                lemma_fundamental_div_mod_converse(q * step - 1, step, q - 1, step - 1);
            } else {
                assert(q == 0);
            }
        }
    } else {
        lemma_other_count(len, step);
        assert(q >= 1) by {
            if q <= 0 {
                lemma_mul_inequality(q, 0, step);
            }
        }
        lemma_other_count(q * step - 1, step);
        lemma_fundamental_div_mod_converse(q * step - 1, step, q - 1, step - 1);
    }
}

} // verus!
