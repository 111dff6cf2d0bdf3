//! Operations that run a pipeline: they take its elements and compute a result.
use vstd::prelude::*;
use crate::value::{ZVal, Value};
use crate::order::{Order, can_compare, comparable, total_compare};
use crate::calls::{CallLog, calls_on, fold_calls, rfold_calls, reduce_calls, extreme_by_calls, compare_calls, test_calls, lemma_test_calls_push, logged_test};
use crate::pipe::{Pipe, front_step, back_step, run_logged_back, lemma_run_logged_back_start, wrapping_add, run_logged, lemma_run_logged_start, lemma_run_logged_step, lemma_run_logged_concat};
use crate::model::{Callbacks, Test, LexMode, views, callable, agrees, holds, fold_seq, rfold_seq, first_index, last_index, wrap, extreme, extreme_fold, extreme_by_key, extreme_key_fold, extreme_by, extreme_by_fold, order_of, lex_result, lex_stop, pair_outcome, drop_n, take_n, map_seq, maps_fn};

verus! {

/// `new` is what a run left of `old`: still well formed, no deeper, and
/// supporting what `old` supported.
pub open spec fn evolved(old: Pipe, new: Pipe) -> bool {
    &&& new.wf()
    &&& new.depth() <= old.depth()
    &&& old.back_ok() ==> new.back_ok()
    &&& old.exact() ==> new.exact()
}

/// The element passes the test exactly when `want` says.
pub open spec fn match_fn(g: Callbacks, t: Test, want: bool) -> spec_fn(Value) -> bool {
    |x: Value| holds(g, t, x) == want
}

/// Runs a callback on one element, recording the call.
fn logged_map<F: Fn(u64, Vec<ZVal>) -> ZVal>(cb: u64, x: ZVal, call: &F, log: &mut CallLog) -> (r: ZVal)
    requires
        callable(*call),
    ensures
        final(log).entries() == old(log).entries().push((cb, seq![x@])),
        forall|g: Callbacks| #[trigger] agrees(*call, g) ==> r@ == g(cb, seq![x@]),
{
    let ghost xv = x@;
    let args = vec![x];
    proof {
        assert(views(args@) =~= seq![xv]);
    }
    log.call(call, cb, args)
}

/// The elements taken so far, after a step from the front that returned `r`.
pub open spec fn next_taken(taken: Seq<Value>, r: Option<ZVal>) -> Seq<Value> {
    match r {
        Some(v) => taken.push(v@),
        None => taken,
    }
}

/// One more step from the front in a run that took `taken` of the elements
/// of `old0`.
pub proof fn lemma_taken_step<F: Fn(u64, Vec<ZVal>) -> ZVal>(
    call: F,
    old0: Pipe,
    before: Pipe,
    after: Pipe,
    taken: Seq<Value>,
    r: Option<ZVal>,
)
    requires
        run_logged(old0, before, taken),
        front_step(call, before, after, r),
        forall|g: Callbacks| #[trigger] agrees(call, g) ==> taken + before.elems(g) == old0.elems(g),
    ensures
        run_logged(old0, after, next_taken(taken, r)),
        forall|g: Callbacks| #[trigger] agrees(call, g) ==> next_taken(taken, r) + after.elems(g) == old0.elems(g),
        r is None ==> forall|g: Callbacks| #[trigger] agrees(call, g) ==> taken == old0.elems(g),
{
    lemma_run_logged_step(old0, before, after, taken, r);
    assert forall|g: Callbacks| #[trigger] agrees(call, g) implies next_taken(taken, r) + after.elems(g)
        == old0.elems(g) by {
        if let Some(v) = r {
            assert(taken.push(v@) + after.elems(g) =~= taken + before.elems(g));
        } else {
            assert(taken + after.elems(g) =~= taken + before.elems(g));
        }
    }
    if r is None {
        assert forall|g: Callbacks| #[trigger] agrees(call, g) implies taken == old0.elems(g) by {
            assert(taken + before.elems(g) =~= taken);
        }
    }
}

/// One more step from the back in a run that took `taken` of the elements
/// of `old0` from the back.
pub proof fn lemma_taken_back_step<F: Fn(u64, Vec<ZVal>) -> ZVal>(
    call: F,
    old0: Pipe,
    before: Pipe,
    after: Pipe,
    taken: Seq<Value>,
    r: Option<ZVal>,
)
    requires
        run_logged_back(old0, before, taken),
        back_step(call, before, after, r),
        forall|g: Callbacks| #[trigger] agrees(call, g) ==> before.elems(g) + taken.reverse() == old0.elems(g),
    ensures
        run_logged_back(old0, after, next_taken(taken, r)),
        forall|g: Callbacks| #[trigger] agrees(call, g) ==> after.elems(g) + next_taken(taken, r).reverse()
            == old0.elems(g),
{
    if let Pipe::Inspected(_, cb, l) = old0 {
        if let Some(v) = r {
            assert(calls_on(cb, taken.push(v@)) =~= calls_on(cb, taken).push((cb, seq![v@])));
            assert(after->Inspected_2.entries() =~= l.entries() + calls_on(cb, taken.push(v@)));
        }
    }
    assert forall|g: Callbacks| #[trigger] agrees(call, g) implies after.elems(g) + next_taken(taken, r).reverse()
        == old0.elems(g) by {
        if let Some(v) = r {
            assert(after.elems(g) + taken.push(v@).reverse() =~= before.elems(g) + taken.reverse());
        } else {
            assert(after.elems(g) + taken.reverse() =~= before.elems(g) + taken.reverse());
        }
    }
}

/// Counts the elements, taking all of them.
pub fn count_pipe<F: Fn(u64, Vec<ZVal>) -> ZVal>(p: &mut Pipe, call: &F) -> (r: usize)
    requires
        old(p).wf(),
        callable(*call),
    ensures
        evolved(*old(p), *final(p)),
        exists|taken: Seq<Value>| #[trigger] run_logged(*old(p), *final(p), taken) && forall|g: Callbacks|
            #[trigger] agrees(*call, g) ==> taken == old(p).elems(g),
        forall|g: Callbacks| #[trigger] agrees(*call, g) ==>
            r == wrap(old(p).elems(g).len() as int) && final(p).elems(g).len() == 0,
{
    let mut n: usize = 0;
    let ghost k: int = 0;
    let ghost mut taken: Seq<Value> = Seq::empty();
    proof {
        lemma_run_logged_start(*p);
        assert forall|g: Callbacks| #[trigger] agrees(*call, g) implies taken + p.elems(g) == old(p).elems(g) by {
            assert(Seq::<Value>::empty() + p.elems(g) =~= p.elems(g));
        }
    }
    loop
        invariant
            evolved(*old(p), *p),
            run_logged(*old(p), *p, taken),
            forall|g: Callbacks| #[trigger] agrees(*call, g) ==> taken + p.elems(g) == old(p).elems(g),
            callable(*call),
            n == wrap(k),
            0 <= k,
            forall|g: Callbacks| #[trigger] agrees(*call, g) ==>
                k <= old(p).elems(g).len() && p.elems(g) == drop_n(old(p).elems(g), k),
        decreases p.fuel(),
    {
        let ghost before = *p;
        let ghost before_t = *p;
        let nx = p.next(call);
        proof {
            lemma_taken_step(*call, *old(p), before_t, *p, taken, nx);
            taken = next_taken(taken, nx);
        }
        match nx {
            None => {
                return n;
            },
            Some(_) => {
                proof {
                    let m = usize::MAX as int + 1;
                    vstd::arithmetic::div_mod::lemma_add_mod_noop(k, 1, m);
                    vstd::arithmetic::div_mod::lemma_mod_twice(k, m);
                    vstd::arithmetic::div_mod::lemma_small_mod(1, m as nat);
                    vstd::arithmetic::div_mod::lemma_add_mod_noop(n as int, 1, m);
                    vstd::arithmetic::div_mod::lemma_small_mod(n as nat, m as nat);
                    assert forall|g: Callbacks| #[trigger] agrees(*call, g) implies k + 1
                        <= old(p).elems(g).len() && p.elems(g) == drop_n(old(p).elems(g), k + 1) by {
                        assert(p.elems(g) =~= drop_n(old(p).elems(g), k + 1));
                    }
                }
                n = wrapping_add(n, 1);
                proof {
                    k = k + 1;
                }
            },
        }
    }
}

/// Takes all the elements, returning the last.
pub fn last_pipe<F: Fn(u64, Vec<ZVal>) -> ZVal>(p: &mut Pipe, call: &F) -> (r: Option<ZVal>)
    requires
        old(p).wf(),
        callable(*call),
    ensures
        evolved(*old(p), *final(p)),
        exists|taken: Seq<Value>| #[trigger] run_logged(*old(p), *final(p), taken) && forall|g: Callbacks|
            #[trigger] agrees(*call, g) ==> taken == old(p).elems(g),
        forall|g: Callbacks| #[trigger] agrees(*call, g) ==> final(p).elems(g).len() == 0 && match r {
            None => old(p).elems(g).len() == 0,
            Some(v) => old(p).elems(g).len() > 0 && v@ == old(p).elems(g).last(),
        },
{
    let mut last: Option<ZVal> = None;
    let ghost k: int = 0;
    let ghost mut taken: Seq<Value> = Seq::empty();
    proof {
        lemma_run_logged_start(*p);
        assert forall|g: Callbacks| #[trigger] agrees(*call, g) implies taken + p.elems(g) == old(p).elems(g) by {
            assert(Seq::<Value>::empty() + p.elems(g) =~= p.elems(g));
        }
    }
    loop
        invariant
            evolved(*old(p), *p),
            run_logged(*old(p), *p, taken),
            forall|g: Callbacks| #[trigger] agrees(*call, g) ==> taken + p.elems(g) == old(p).elems(g),
            callable(*call),
            0 <= k,
            forall|g: Callbacks| #[trigger] agrees(*call, g) ==>
                k <= old(p).elems(g).len() && p.elems(g) == drop_n(old(p).elems(g), k) && match last {
                    None => k == 0,
                    Some(v) => k > 0 && v@ == old(p).elems(g)[k - 1],
                },
        decreases p.fuel(),
    {
        let ghost before_t = *p;
        let nx = p.next(call);
        proof {
            lemma_taken_step(*call, *old(p), before_t, *p, taken, nx);
            taken = next_taken(taken, nx);
        }
        match nx {
            None => {
                return last;
            },
            Some(x) => {
                proof {
                    assert forall|g: Callbacks| #[trigger] agrees(*call, g) implies k + 1
                        <= old(p).elems(g).len() && p.elems(g) == drop_n(old(p).elems(g), k + 1)
                        && x@ == old(p).elems(g)[k] by {
                        assert(p.elems(g) =~= drop_n(old(p).elems(g), k + 1));
                    }
                    k = k + 1;
                }
                last = Some(x);
            },
        }
    }
}

/// Takes all the elements, in order.
pub fn collect_pipe<F: Fn(u64, Vec<ZVal>) -> ZVal>(p: &mut Pipe, call: &F) -> (r: Vec<ZVal>)
    requires
        old(p).wf(),
        callable(*call),
    ensures
        evolved(*old(p), *final(p)),
        run_logged(*old(p), *final(p), views(r@)),
        forall|g: Callbacks| #[trigger] agrees(*call, g) ==>
            views(r@) == old(p).elems(g) && final(p).elems(g).len() == 0,
{
    let mut out: Vec<ZVal> = Vec::new();
    proof {
        lemma_run_logged_start(*p);
        assert(views(out@) =~= Seq::<Value>::empty());
    }
    loop
        invariant
            evolved(*old(p), *p),
            callable(*call),
            run_logged(*old(p), *p, views(out@)),
            forall|g: Callbacks| #[trigger] agrees(*call, g) ==> views(out@) + p.elems(g) == old(p).elems(g),
        decreases p.fuel(),
    {
        let ghost before = *p;
        match p.next(call) {
            None => {
                proof {
                    lemma_run_logged_step(*old(p), before, *p, views(out@), None);
                    assert forall|g: Callbacks| #[trigger] agrees(*call, g) implies views(out@) == old(p).elems(g) by {
                        assert(views(out@) + p.elems(g) =~= views(out@));
                    }
                }
                return out;
            },
            Some(x) => {
                let ghost out0 = out@;
                let ghost xv = x@;
                out.push(x);
                proof {
                    lemma_run_logged_step(*old(p), before, *p, views(out0), Some(x));
                    assert(views(out@) =~= views(out0).push(xv));
                    assert forall|g: Callbacks| #[trigger] agrees(*call, g) implies views(out@) + p.elems(g)
                        == old(p).elems(g) by {
                        assert(views(out0) + before.elems(g) == old(p).elems(g));
                        assert(views(out@) + p.elems(g) =~= views(out0) + before.elems(g));
                    }
                }
            },
        }
    }
}

/// Runs the callback on each element, taking all of them; `log` records the
/// calls, one per element in order.
pub fn for_each_pipe<F: Fn(u64, Vec<ZVal>) -> ZVal>(p: &mut Pipe, cb: u64, call: &F, log: &mut CallLog)
    requires
        old(p).wf(),
        callable(*call),
    ensures
        evolved(*old(p), *final(p)),
        exists|taken: Seq<Value>| #[trigger] run_logged(*old(p), *final(p), taken) && forall|g: Callbacks|
            #[trigger] agrees(*call, g) ==> taken == old(p).elems(g),
        forall|g: Callbacks| #[trigger] agrees(*call, g) ==> final(p).elems(g).len() == 0 && final(log).entries()
            == old(log).entries() + calls_on(cb, old(p).elems(g)),
{
    let ghost mut taken: Seq<Value> = Seq::empty();
    proof {
        lemma_run_logged_start(*p);
        assert forall|g: Callbacks| #[trigger] agrees(*call, g) implies taken + p.elems(g) == old(p).elems(g) by {
            assert(Seq::<Value>::empty() + p.elems(g) =~= p.elems(g));
        }
    }
    loop
        invariant
            evolved(*old(p), *p),
            run_logged(*old(p), *p, taken),
            forall|g: Callbacks| #[trigger] agrees(*call, g) ==> taken + p.elems(g) == old(p).elems(g),
            callable(*call),
            forall|g: Callbacks| #[trigger] agrees(*call, g) ==> old(log).entries() + calls_on(cb, old(p).elems(g))
                == log.entries() + calls_on(cb, p.elems(g)),
        decreases p.fuel(),
    {
        let ghost before = *p;
        let ghost log0 = log.entries();
        let ghost before_t = *p;
        let nx = p.next(call);
        proof {
            lemma_taken_step(*call, *old(p), before_t, *p, taken, nx);
            taken = next_taken(taken, nx);
        }
        match nx {
            None => {
                proof {
                    assert forall|g: Callbacks| #[trigger] agrees(*call, g) implies final(p).elems(g).len() == 0
                        && log.entries() == old(log).entries() + calls_on(cb, old(p).elems(g)) by {
                        assert(calls_on(cb, before.elems(g)) =~= Seq::<(u64, Seq<Value>)>::empty());
                        assert(log.entries() + Seq::<(u64, Seq<Value>)>::empty() =~= log.entries());
                    }
                }
                return ;
            },
            Some(x) => {
                let ghost xv = x@;
                let args = vec![x];
                proof {
                    assert(views(args@) =~= seq![xv]);
                }
                let _ = log.call(call, cb, args);
                proof {
                    assert forall|g: Callbacks| #[trigger] agrees(*call, g) implies old(log).entries() + calls_on(
                        cb,
                        old(p).elems(g),
                    ) == log.entries() + calls_on(cb, p.elems(g)) by {
                        assert(before.elems(g) == seq![xv] + p.elems(g));
                        assert(calls_on(cb, before.elems(g)) =~= seq![(cb, seq![xv])] + calls_on(cb, p.elems(g)));
                        assert(log0 + calls_on(cb, before.elems(g)) =~= log.entries() + calls_on(cb, p.elems(g)));
                    }
                }
            },
        }
    }
}

/// Splits the elements by the test, in order, taking all of them.
pub fn partition_pipe<F: Fn(u64, Vec<ZVal>) -> ZVal>(p: &mut Pipe, t: Test, call: &F, log: &mut CallLog) -> (r: (
    Vec<ZVal>,
    Vec<ZVal>,
))
    requires
        old(p).wf(),
        callable(*call),
    ensures
        evolved(*old(p), *final(p)),
        exists|taken: Seq<Value>| #[trigger] run_logged(*old(p), *final(p), taken) && forall|g: Callbacks|
            #[trigger] agrees(*call, g) ==> taken == old(p).elems(g),
        forall|g: Callbacks| #[trigger] agrees(*call, g) ==> final(p).elems(g).len() == 0 && views(r.0@)
            == old(p).elems(g).filter(match_fn(g, t, true)) && views(r.1@) == old(p).elems(g).filter(
            match_fn(g, t, false),
        ) && final(log).entries() == old(log).entries() + test_calls(t, old(p).elems(g)),
{
    let mut yes: Vec<ZVal> = Vec::new();
    let mut no: Vec<ZVal> = Vec::new();
    let ghost k: int = 0;
    let ghost mut taken: Seq<Value> = Seq::empty();
    proof {
        lemma_run_logged_start(*p);
        assert forall|g: Callbacks| #[trigger] agrees(*call, g) implies taken + p.elems(g) == old(p).elems(g) by {
            assert(Seq::<Value>::empty() + p.elems(g) =~= p.elems(g));
        }
    }
    loop
        invariant
            evolved(*old(p), *p),
            run_logged(*old(p), *p, taken),
            forall|g: Callbacks| #[trigger] agrees(*call, g) ==> taken + p.elems(g) == old(p).elems(g),
            callable(*call),
            0 <= k,
            forall|g: Callbacks| #[trigger] agrees(*call, g) ==> {
                &&& k <= old(p).elems(g).len()
                &&& p.elems(g) == drop_n(old(p).elems(g), k)
                &&& views(yes@) == old(p).elems(g).subrange(0, k).filter(match_fn(g, t, true))
                &&& views(no@) == old(p).elems(g).subrange(0, k).filter(match_fn(g, t, false))
                &&& log.entries() == old(log).entries() + test_calls(t, old(p).elems(g).subrange(0, k))
            },
        decreases p.fuel(),
    {
        let ghost log0 = log.entries();
        let ghost before_t = *p;
        let nx = p.next(call);
        proof {
            lemma_taken_step(*call, *old(p), before_t, *p, taken, nx);
            taken = next_taken(taken, nx);
        }
        match nx {
            None => {
                proof {
                    assert forall|g: Callbacks| #[trigger] agrees(*call, g) implies old(p).elems(g).subrange(0, k)
                        == old(p).elems(g) by {
                        assert(old(p).elems(g).subrange(0, k) =~= old(p).elems(g));
                    }
                }
                return (yes, no);
            },
            Some(x) => {
                let pass = logged_test(t, &x, call, log);
                let ghost y0 = yes@;
                let ghost n0 = no@;
                let ghost xv = x@;
                if pass {
                    yes.push(x);
                } else {
                    no.push(x);
                }
                proof {
                    assert forall|g: Callbacks| #[trigger] agrees(*call, g) implies {
                        &&& k + 1 <= old(p).elems(g).len()
                        &&& p.elems(g) == drop_n(old(p).elems(g), k + 1)
                        &&& views(yes@) == old(p).elems(g).subrange(0, k + 1).filter(match_fn(g, t, true))
                        &&& views(no@) == old(p).elems(g).subrange(0, k + 1).filter(match_fn(g, t, false))
                        &&& log.entries() == old(log).entries() + test_calls(t, old(p).elems(g).subrange(0, k + 1))
                    } by {
                        let s0 = old(p).elems(g);
                        assert(s0[k] == xv);
                        assert(s0.subrange(0, k + 1) =~= s0.subrange(0, k).push(xv));
                        s0.subrange(0, k).lemma_filter_push(xv, match_fn(g, t, true));
                        lemma_test_calls_push(t, s0.subrange(0, k), xv);
                        assert(log0 + test_calls(t, s0.subrange(0, k)) + test_calls(t, seq![xv]) =~= log0 + (test_calls(t, s0.subrange(0, k)) + test_calls(t, seq![xv])));
                        s0.subrange(0, k).lemma_filter_push(xv, match_fn(g, t, false));
                        assert(p.elems(g) =~= drop_n(s0, k + 1));
                        assert(views(yes@) =~= if pass { views(y0).push(xv) } else { views(y0) });
                        assert(views(no@) =~= if pass { views(n0) } else { views(n0).push(xv) });
                    }
                    k = k + 1;
                }
            },
        }
    }
}

/// Folds the callback over the elements from the front, taking all of them.
pub fn fold_pipe<F: Fn(u64, Vec<ZVal>) -> ZVal>(p: &mut Pipe, init: ZVal, cb: u64, call: &F, log: &mut CallLog) -> (r: ZVal)
    requires
        old(p).wf(),
        callable(*call),
    ensures
        evolved(*old(p), *final(p)),
        exists|taken: Seq<Value>| #[trigger] run_logged(*old(p), *final(p), taken) && forall|g: Callbacks|
            #[trigger] agrees(*call, g) ==> taken == old(p).elems(g),
        forall|g: Callbacks| #[trigger] agrees(*call, g) ==> final(p).elems(g).len() == 0 && r@
            == fold_seq(old(p).elems(g), init@, g, cb) && final(log).entries() == old(log).entries() + fold_calls(
            old(p).elems(g),
            init@,
            g,
            cb,
        ),
{
    let mut acc = init;
    let ghost mut taken: Seq<Value> = Seq::empty();
    proof {
        lemma_run_logged_start(*p);
        assert forall|g: Callbacks| #[trigger] agrees(*call, g) implies taken + p.elems(g) == old(p).elems(g) by {
            assert(Seq::<Value>::empty() + p.elems(g) =~= p.elems(g));
        }
    }
    loop
        invariant
            evolved(*old(p), *p),
            run_logged(*old(p), *p, taken),
            forall|g: Callbacks| #[trigger] agrees(*call, g) ==> taken + p.elems(g) == old(p).elems(g),
            callable(*call),
            forall|g: Callbacks| #[trigger] agrees(*call, g) ==> fold_seq(p.elems(g), acc@, g, cb)
                == fold_seq(old(p).elems(g), init@, g, cb) && log.entries() + fold_calls(p.elems(g), acc@, g, cb)
                == old(log).entries() + fold_calls(old(p).elems(g), init@, g, cb),
        decreases p.fuel(),
    {
        let ghost before = *p;
        let ghost log0 = log.entries();
        let ghost before_t = *p;
        let nx = p.next(call);
        proof {
            lemma_taken_step(*call, *old(p), before_t, *p, taken, nx);
            taken = next_taken(taken, nx);
        }
        match nx {
            None => {
                proof {
                    assert forall|g: Callbacks| #[trigger] agrees(*call, g) implies log.entries() == old(log).entries() + fold_calls(old(p).elems(g), init@, g, cb) by {
                        assert(log.entries() + fold_calls(before.elems(g), acc@, g, cb) =~= log.entries());
                    }
                }
                return acc;
            },
            Some(x) => {
                let ghost a0 = acc@;
                let ghost xv = x@;
                let args = vec![acc, x];
                acc = log.call(call, cb, args);
                proof {
                    assert(views(args@) =~= seq![a0, xv]);
                    assert forall|g: Callbacks| #[trigger] agrees(*call, g) implies log.entries() + fold_calls(p.elems(g), acc@, g, cb)
                        == old(log).entries() + fold_calls(old(p).elems(g), init@, g, cb) by {
                        assert(before.elems(g).drop_first() =~= p.elems(g));
                        assert(log0 + fold_calls(before.elems(g), a0, g, cb) =~= log.entries() + fold_calls(p.elems(g), acc@, g, cb));
                    }
                }
            },
        }
    }
}

/// Folds the callback over the elements from the back, taking all of them.
pub fn rfold_pipe<F: Fn(u64, Vec<ZVal>) -> ZVal>(p: &mut Pipe, init: ZVal, cb: u64, call: &F, log: &mut CallLog) -> (r: ZVal)
    requires
        old(p).wf(),
        old(p).back_ok(),
        callable(*call),
    ensures
        evolved(*old(p), *final(p)),
        exists|taken: Seq<Value>| #[trigger] run_logged_back(*old(p), *final(p), taken) && forall|g: Callbacks|
            #[trigger] agrees(*call, g) ==> final(p).elems(g) + taken.reverse() == old(p).elems(g),
        forall|g: Callbacks| #[trigger] agrees(*call, g) ==> final(p).elems(g).len() == 0 && r@
            == rfold_seq(old(p).elems(g), init@, g, cb) && final(log).entries() == old(log).entries() + rfold_calls(
            old(p).elems(g),
            init@,
            g,
            cb,
        ),
{
    let ghost mut taken: Seq<Value> = Seq::empty();
    proof {
        lemma_run_logged_back_start(*p);
        assert forall|g: Callbacks| #[trigger] agrees(*call, g) implies p.elems(g) + taken.reverse() == old(p).elems(g) by {
            assert(p.elems(g) + Seq::<Value>::empty().reverse() =~= p.elems(g));
        }
    }
    let mut acc = init;
    loop
        invariant
            evolved(*old(p), *p),
            run_logged_back(*old(p), *p, taken),
            forall|g: Callbacks| #[trigger] agrees(*call, g) ==> p.elems(g) + taken.reverse() == old(p).elems(g),
            p.back_ok(),
            callable(*call),
            forall|g: Callbacks| #[trigger] agrees(*call, g) ==> rfold_seq(p.elems(g), acc@, g, cb)
                == rfold_seq(old(p).elems(g), init@, g, cb) && log.entries() + rfold_calls(p.elems(g), acc@, g, cb)
                == old(log).entries() + rfold_calls(old(p).elems(g), init@, g, cb),
        decreases p.fuel(),
    {
        let ghost before = *p;
        let ghost log0 = log.entries();
        let ghost before_b1 = *p;
        let nb1 = p.next_back(call);
        proof {
            lemma_taken_back_step(*call, *old(p), before_b1, *p, taken, nb1);
            taken = next_taken(taken, nb1);
        }
        match nb1 {
            None => {
                proof {
                    assert forall|g: Callbacks| #[trigger] agrees(*call, g) implies log.entries() == old(log).entries() + rfold_calls(old(p).elems(g), init@, g, cb) by {
                        assert(log.entries() + rfold_calls(before.elems(g), acc@, g, cb) =~= log.entries());
                    }
                }
                return acc;
            },
            Some(x) => {
                let ghost a0 = acc@;
                let ghost xv = x@;
                let args = vec![acc, x];
                acc = log.call(call, cb, args);
                proof {
                    assert(views(args@) =~= seq![a0, xv]);
                    assert forall|g: Callbacks| #[trigger] agrees(*call, g) implies log.entries() + rfold_calls(p.elems(g), acc@, g, cb)
                        == old(log).entries() + rfold_calls(old(p).elems(g), init@, g, cb) by {
                        assert(before.elems(g).drop_last() =~= p.elems(g));
                        assert(log0 + rfold_calls(before.elems(g), a0, g, cb) =~= log.entries() + rfold_calls(p.elems(g), acc@, g, cb));
                    }
                }
            },
        }
    }
}

/// Folds the callback over the elements, starting from the first; `None`
/// when there is none.
pub fn reduce_pipe<F: Fn(u64, Vec<ZVal>) -> ZVal>(p: &mut Pipe, cb: u64, call: &F, log: &mut CallLog) -> (r: Option<ZVal>)
    requires
        old(p).wf(),
        callable(*call),
    ensures
        evolved(*old(p), *final(p)),
        exists|taken: Seq<Value>| #[trigger] run_logged(*old(p), *final(p), taken) && forall|g: Callbacks|
            #[trigger] agrees(*call, g) ==> taken + final(p).elems(g) == old(p).elems(g),
        forall|g: Callbacks| #[trigger] agrees(*call, g) ==> final(p).elems(g).len() == 0 && match r {
            None => old(p).elems(g).len() == 0,
            Some(v) => old(p).elems(g).len() > 0 && v@ == fold_seq(
                old(p).elems(g).drop_first(),
                old(p).elems(g)[0],
                g,
                cb,
            ),
        } && final(log).entries() == old(log).entries() + reduce_calls(old(p).elems(g), g, cb),
{
    let ghost p0 = *p;
    proof {
        lemma_run_logged_start(*p);
        assert forall|g: Callbacks| #[trigger] agrees(*call, g) implies Seq::<Value>::empty() + p.elems(g) == old(p).elems(g) by {
            assert(Seq::<Value>::empty() + p.elems(g) =~= p.elems(g));
        }
    }
    let nx = p.next(call);
    proof {
        lemma_taken_step(*call, p0, p0, *p, Seq::empty(), nx);
    }
    match nx {
        None => {
            proof {
                assert forall|g: Callbacks| #[trigger] agrees(*call, g) implies log.entries() == old(log).entries() + reduce_calls(old(p).elems(g), g, cb) by {
                    assert(log.entries() + reduce_calls(old(p).elems(g), g, cb) =~= log.entries());
                }
            }
            None
        },
        Some(first) => {
            let ghost mid = *p;
            let ghost fv = first@;
            let r = fold_pipe(p, first, cb, call, log);
            proof {
                let t2 = choose|t2: Seq<Value>| #[trigger] run_logged(mid, *p, t2) && forall|g: Callbacks|
                    #[trigger] agrees(*call, g) ==> t2 == mid.elems(g);
                lemma_run_logged_concat(p0, mid, *p, seq![fv], t2);
                assert(Seq::<Value>::empty().push(fv) =~= seq![fv]);
                assert forall|g: Callbacks| #[trigger] agrees(*call, g) implies (seq![fv] + t2) + p.elems(g) == old(p).elems(g) by {
                    assert(seq![fv] + mid.elems(g) == p0.elems(g));
                    assert((seq![fv] + t2) + p.elems(g) =~= seq![fv] + mid.elems(g));
                }
                assert(run_logged(*old(p), *p, seq![fv] + t2));
            }
            Some(r)
        },
    }
}

/// Takes elements up to the first whose test outcome is `want`, returning
/// its position and the element.
pub fn search_pipe<F: Fn(u64, Vec<ZVal>) -> ZVal>(p: &mut Pipe, t: Test, want: bool, call: &F, log: &mut CallLog) -> (r: Option<
    (usize, ZVal),
>)
    requires
        old(p).wf(),
        callable(*call),
    ensures
        evolved(*old(p), *final(p)),
        exists|taken: Seq<Value>| #[trigger] run_logged(*old(p), *final(p), taken) && forall|g: Callbacks|
            #[trigger] agrees(*call, g) ==> taken + final(p).elems(g) == old(p).elems(g),
        forall|g: Callbacks| #[trigger] agrees(*call, g) ==> {
            let s = old(p).elems(g);
            let i = first_index(s, match_fn(g, t, want));
            &&& final(log).entries() == old(log).entries() + test_calls(t, take_n(s, i + 1))
            &&& match r {
                None => i == s.len() && final(p).elems(g).len() == 0,
                Some((n, v)) => i < s.len() && n == wrap(i) && v@ == s[i] && final(p).elems(g) == drop_n(
                    s,
                    i + 1,
                ),
            }
        },
{
    let ghost mut taken: Seq<Value> = Seq::empty();
    proof {
        lemma_run_logged_start(*p);
        assert forall|g: Callbacks| #[trigger] agrees(*call, g) implies taken + p.elems(g) == old(p).elems(g) by {
            assert(Seq::<Value>::empty() + p.elems(g) =~= p.elems(g));
        }
    }
    let mut n: usize = 0;
    let ghost k: int = 0;
    loop
        invariant
            evolved(*old(p), *p),
            run_logged(*old(p), *p, taken),
            forall|g: Callbacks| #[trigger] agrees(*call, g) ==> taken + p.elems(g) == old(p).elems(g),
            callable(*call),
            0 <= k,
            n == wrap(k),
            forall|g: Callbacks| #[trigger] agrees(*call, g) ==> {
                let s = old(p).elems(g);
                &&& k <= s.len()
                &&& p.elems(g) == drop_n(s, k)
                &&& first_index(s, match_fn(g, t, want)) == k + first_index(p.elems(g), match_fn(g, t, want))
                &&& log.entries() == old(log).entries() + test_calls(t, s.subrange(0, k))
            },
        decreases p.fuel(),
    {
        let ghost before = *p;
        let ghost log0 = log.entries();
        let ghost before_t1 = *p;
        let nx1 = p.next(call);
        proof {
            lemma_taken_step(*call, *old(p), before_t1, *p, taken, nx1);
            taken = next_taken(taken, nx1);
        }
        match nx1 {
            None => {
                proof {
                    assert forall|g: Callbacks| #[trigger] agrees(*call, g) implies take_n(
                        old(p).elems(g),
                        first_index(old(p).elems(g), match_fn(g, t, want)) + 1,
                    ) == old(p).elems(g).subrange(0, k) by {
                        assert(old(p).elems(g).subrange(0, k) =~= old(p).elems(g));
                    }
                }
                return None;
            },
            Some(x) => {
                let pass = logged_test(t, &x, call, log);
                proof {
                    assert forall|g: Callbacks| #[trigger] agrees(*call, g) implies log.entries() == old(log).entries()
                        + test_calls(t, old(p).elems(g).subrange(0, k + 1)) by {
                        let s = old(p).elems(g);
                        assert(p.elems(g) =~= drop_n(s, k + 1));
                        assert(s.subrange(0, k + 1) =~= s.subrange(0, k).push(x@));
                        lemma_test_calls_push(t, s.subrange(0, k), x@);
                        assert(log0 + test_calls(t, s.subrange(0, k)) + test_calls(t, seq![x@]) =~= log0 + (test_calls(t, s.subrange(0, k)) + test_calls(t, seq![x@])));
                    }
                }
                proof {
                    assert forall|g: Callbacks| #[trigger] agrees(*call, g) implies {
                        let s = old(p).elems(g);
                        &&& k + 1 <= s.len()
                        &&& p.elems(g) == drop_n(s, k + 1)
                        &&& x@ == s[k]
                        &&& first_index(before.elems(g), match_fn(g, t, want)) == if pass == want {
                            0
                        } else {
                            1 + first_index(p.elems(g), match_fn(g, t, want))
                        }
                    } by {
                        assert(p.elems(g) =~= drop_n(old(p).elems(g), k + 1));
                    }
                }
                proof {
                    assert forall|g: Callbacks| #[trigger] agrees(*call, g) implies take_n(old(p).elems(g), k + 1)
                        == old(p).elems(g).subrange(0, k + 1) by {
                        if k + 1 >= old(p).elems(g).len() {
                            assert(old(p).elems(g).subrange(0, k + 1) =~= old(p).elems(g));
                        }
                    }
                }
                if pass == want {
                    return Some((n, x));
                }
                proof {
                    let m = usize::MAX as int + 1;
                    vstd::arithmetic::div_mod::lemma_add_mod_noop_right(1, k, m);
                }
                n = wrapping_add(n, 1);
                proof {
                    k = k + 1;
                }
            },
        }
    }
}

/// Takes elements up to the first on which the callback returns something
/// other than `null`, and returns that result.
pub fn find_map_pipe<F: Fn(u64, Vec<ZVal>) -> ZVal>(p: &mut Pipe, cb: u64, call: &F, log: &mut CallLog) -> (r: Option<ZVal>)
    requires
        old(p).wf(),
        callable(*call),
    ensures
        evolved(*old(p), *final(p)),
        exists|taken: Seq<Value>| #[trigger] run_logged(*old(p), *final(p), taken) && forall|g: Callbacks|
            #[trigger] agrees(*call, g) ==> taken + final(p).elems(g) == old(p).elems(g),
        forall|g: Callbacks| #[trigger] agrees(*call, g) ==> {
            let s = old(p).elems(g);
            let i = first_index(s, maps_fn(g, cb));
            &&& final(log).entries() == old(log).entries() + calls_on(cb, take_n(s, i + 1))
            &&& match r {
                None => i == s.len() && final(p).elems(g).len() == 0,
                Some(v) => i < s.len() && v@ == g(cb, seq![s[i]]) && final(p).elems(g) == drop_n(s, i + 1),
            }
        },
{
    let ghost mut taken: Seq<Value> = Seq::empty();
    proof {
        lemma_run_logged_start(*p);
        assert forall|g: Callbacks| #[trigger] agrees(*call, g) implies taken + p.elems(g) == old(p).elems(g) by {
            assert(Seq::<Value>::empty() + p.elems(g) =~= p.elems(g));
        }
    }
    let ghost k: int = 0;
    loop
        invariant
            evolved(*old(p), *p),
            run_logged(*old(p), *p, taken),
            forall|g: Callbacks| #[trigger] agrees(*call, g) ==> taken + p.elems(g) == old(p).elems(g),
            callable(*call),
            0 <= k,
            forall|g: Callbacks| #[trigger] agrees(*call, g) ==> {
                let s = old(p).elems(g);
                &&& k <= s.len()
                &&& p.elems(g) == drop_n(s, k)
                &&& first_index(s, maps_fn(g, cb)) == k + first_index(p.elems(g), maps_fn(g, cb))
                &&& log.entries() == old(log).entries() + calls_on(cb, s.subrange(0, k))
            },
        decreases p.fuel(),
    {
        let ghost before = *p;
        let ghost log0 = log.entries();
        let ghost before_t1 = *p;
        let nx1 = p.next(call);
        proof {
            lemma_taken_step(*call, *old(p), before_t1, *p, taken, nx1);
            taken = next_taken(taken, nx1);
        }
        match nx1 {
            None => {
                proof {
                    assert forall|g: Callbacks| #[trigger] agrees(*call, g) implies take_n(
                        old(p).elems(g),
                        first_index(old(p).elems(g), maps_fn(g, cb)) + 1,
                    ) == old(p).elems(g).subrange(0, k) by {
                        assert(old(p).elems(g).subrange(0, k) =~= old(p).elems(g));
                    }
                }
                return None;
            },
            Some(x) => {
                let ghost xv = x@;
                let v = logged_map(cb, x, call, log);
                proof {
                    assert forall|g: Callbacks| #[trigger] agrees(*call, g) implies log.entries() == old(log).entries()
                        + calls_on(cb, old(p).elems(g).subrange(0, k + 1)) && take_n(old(p).elems(g), k + 1)
                        == old(p).elems(g).subrange(0, k + 1) by {
                        let s = old(p).elems(g);
                        assert(p.elems(g) =~= drop_n(s, k + 1));
                        assert(s.subrange(0, k + 1) =~= s.subrange(0, k).push(xv));
                        assert(calls_on(cb, s.subrange(0, k + 1)) =~= calls_on(cb, s.subrange(0, k)).push((cb, seq![xv])));
                        if k + 1 >= s.len() {
                            assert(s.subrange(0, k + 1) =~= s);
                        }
                    }
                }
                let found = match &v {
                    ZVal::Null => false,
                    _ => true,
                };
                proof {
                    assert forall|g: Callbacks| #[trigger] agrees(*call, g) implies {
                        let s = old(p).elems(g);
                        &&& k + 1 <= s.len()
                        &&& p.elems(g) == drop_n(s, k + 1)
                        &&& xv == s[k]
                        &&& first_index(before.elems(g), maps_fn(g, cb)) == if found {
                            0
                        } else {
                            1 + first_index(p.elems(g), maps_fn(g, cb))
                        }
                    } by {
                        assert(p.elems(g) =~= drop_n(old(p).elems(g), k + 1));
                    }
                }
                if found {
                    return Some(v);
                }
                proof {
                    k = k + 1;
                }
            },
        }
    }
}

/// Takes elements from the back up to the first whose test outcome is
/// `want`; returns how many were taken before it, and the element.
pub fn rsearch_pipe<F: Fn(u64, Vec<ZVal>) -> ZVal>(p: &mut Pipe, t: Test, want: bool, call: &F, log: &mut CallLog) -> (r: Option<
    (usize, ZVal),
>)
    requires
        old(p).wf(),
        old(p).back_ok(),
        callable(*call),
    ensures
        evolved(*old(p), *final(p)),
        exists|taken: Seq<Value>| #[trigger] run_logged_back(*old(p), *final(p), taken) && forall|g: Callbacks|
            #[trigger] agrees(*call, g) ==> final(p).elems(g) + taken.reverse() == old(p).elems(g),
        old(p).exact() ==> match r {
            Some((n, _)) => n < old(p).hint().0,
            None => true,
        },
        forall|g: Callbacks| #[trigger] agrees(*call, g) ==> {
            let s = old(p).elems(g);
            let j = last_index(s, match_fn(g, t, want));
            &&& final(log).entries() == old(log).entries() + test_calls(
                t,
                s.subrange(if j < 0 { 0 } else { j }, s.len() as int).reverse(),
            )
            &&& match r {
                None => j == -1 && final(p).elems(g).len() == 0,
                Some((n, v)) => 0 <= j && (old(p).exact() ==> n == s.len() - 1 - j) && v@ == s[j]
                    && final(p).elems(g) == s.subrange(0, j),
            }
        },
{
    let ghost mut taken: Seq<Value> = Seq::empty();
    proof {
        lemma_run_logged_back_start(*p);
        assert forall|g: Callbacks| #[trigger] agrees(*call, g) implies p.elems(g) + taken.reverse() == old(p).elems(g) by {
            assert(p.elems(g) + Seq::<Value>::empty().reverse() =~= p.elems(g));
        }
    }
    let mut n: usize = 0;
    loop
        invariant
            evolved(*old(p), *p),
            run_logged_back(*old(p), *p, taken),
            forall|g: Callbacks| #[trigger] agrees(*call, g) ==> p.elems(g) + taken.reverse() == old(p).elems(g),
            p.back_ok(),
            callable(*call),
            old(p).exact() ==> n <= old(p).hint().0 && p.hint().0 == old(p).hint().0 - n,
            forall|g: Callbacks| #[trigger] agrees(*call, g) ==> {
                let s = old(p).elems(g);
                &&& p.elems(g).len() <= s.len()
                &&& p.elems(g) == s.subrange(0, p.elems(g).len() as int)
                &&& old(p).exact() ==> n == s.len() - p.elems(g).len()
                &&& last_index(s, match_fn(g, t, want)) == last_index(p.elems(g), match_fn(g, t, want))
                &&& log.entries() == old(log).entries() + test_calls(
                    t,
                    s.subrange(p.elems(g).len() as int, s.len() as int).reverse(),
                )
            },
        decreases p.fuel(),
    {
        let ghost before = *p;
        let ghost log0 = log.entries();
        let ghost before_b1 = *p;
        let nb1 = p.next_back(call);
        proof {
            lemma_taken_back_step(*call, *old(p), before_b1, *p, taken, nb1);
            taken = next_taken(taken, nb1);
        }
        match nb1 {
            None => {
                return None;
            },
            Some(x) => {
                let pass = logged_test(t, &x, call, log);
                proof {
                    assert forall|g: Callbacks| #[trigger] agrees(*call, g) implies log.entries() == old(log).entries()
                        + test_calls(t, old(p).elems(g).subrange(p.elems(g).len() as int, old(p).elems(g).len() as int).reverse()) by {
                        let s = old(p).elems(g);
                        let k = p.elems(g).len() as int;
                        assert(before.elems(g) == s.subrange(0, k + 1));
                        assert(x@ == s[k]);
                        assert(s.subrange(k, s.len() as int).reverse() =~= s.subrange(k + 1, s.len() as int).reverse().push(x@));
                        lemma_test_calls_push(t, s.subrange(k + 1, s.len() as int).reverse(), x@);
                        assert(log0 + test_calls(t, s.subrange(k + 1, s.len() as int).reverse()) + test_calls(t, seq![x@]) =~= log0 + (test_calls(t, s.subrange(k + 1, s.len() as int).reverse()) + test_calls(t, seq![x@])));
                    }
                }
                proof {
                    assert forall|g: Callbacks| #[trigger] agrees(*call, g) implies {
                        let s = old(p).elems(g);
                        &&& p.elems(g).len() + 1 == before.elems(g).len()
                        &&& p.elems(g) == s.subrange(0, p.elems(g).len() as int)
                        &&& x@ == s[p.elems(g).len() as int]
                        &&& last_index(before.elems(g), match_fn(g, t, want)) == if pass == want {
                            before.elems(g).len() - 1
                        } else {
                            last_index(p.elems(g), match_fn(g, t, want))
                        }
                    } by {
                        assert(p.elems(g) =~= old(p).elems(g).subrange(0, p.elems(g).len() as int));
                    }
                }
                if pass == want {
                    return Some((n, x));
                }
                n = n.saturating_add(1);
            },
        }
    }
}

/// Compares two values, or says that the comparison does not complete.
fn compare_values(x: &ZVal, y: &ZVal) -> (r: Option<Order>)
    ensures
        r matches Some(o) ==> comparable(x@, y@) && o == total_compare(x@, y@),
        r is None ==> !comparable(x@, y@),
{
    if can_compare(x, y) {
        Some(x.cmp(y))
    } else {
        None
    }
}

/// The maximum (`is_max`) or minimum of the elements under PHP's ordering,
/// taking all of them; `None` when a comparison does not complete.
pub fn extreme_pipe<F: Fn(u64, Vec<ZVal>) -> ZVal>(p: &mut Pipe, is_max: bool, call: &F) -> (r: Option<
    Option<ZVal>,
>)
    requires
        old(p).wf(),
        callable(*call),
    ensures
        evolved(*old(p), *final(p)),
        exists|taken: Seq<Value>| #[trigger] run_logged(*old(p), *final(p), taken) && forall|g: Callbacks|
            #[trigger] agrees(*call, g) ==> taken + final(p).elems(g) == old(p).elems(g),
        forall|g: Callbacks| #[trigger] agrees(*call, g) ==> {
            let s = old(p).elems(g);
            &&& r is Some ==> final(p).elems(g).len() == 0
            &&& match r {
                None => extreme(s, is_max) is None,
                Some(None) => extreme(s, is_max) == Some(Option::<Value>::None),
                Some(Some(v)) => extreme(s, is_max) == Some(Some(v@)),
            }
        },
{
    let ghost mut taken: Seq<Value> = Seq::empty();
    proof {
        lemma_run_logged_start(*p);
        assert forall|g: Callbacks| #[trigger] agrees(*call, g) implies taken + p.elems(g) == old(p).elems(g) by {
            assert(Seq::<Value>::empty() + p.elems(g) =~= p.elems(g));
        }
    }
    let ghost before_t1 = *p;
    let nx1 = p.next(call);
    proof {
        lemma_taken_step(*call, *old(p), before_t1, *p, taken, nx1);
        taken = next_taken(taken, nx1);
    }
    let first = match nx1 {
        None => {
            return Some(None);
        },
        Some(x) => x,
    };
    let ghost p1 = *p;
    let mut acc = first;
    loop
        invariant
            evolved(*old(p), *p),
            run_logged(*old(p), *p, taken),
            forall|g: Callbacks| #[trigger] agrees(*call, g) ==> taken + p.elems(g) == old(p).elems(g),
            callable(*call),
            forall|g: Callbacks| #[trigger] agrees(*call, g) ==> old(p).elems(g).len() > 0 && extreme_fold(
                old(p).elems(g).drop_first(),
                old(p).elems(g)[0],
                is_max,
            ) == extreme_fold(p.elems(g), acc@, is_max),
        decreases p.fuel(),
    {
        let ghost before = *p;
        let ghost before_t2 = *p;
        let nx2 = p.next(call);
        proof {
            lemma_taken_step(*call, *old(p), before_t2, *p, taken, nx2);
            taken = next_taken(taken, nx2);
        }
        match nx2 {
            None => {
                return Some(Some(acc));
            },
            Some(x) => {
                match compare_values(&acc, &x) {
                    None => {
                        return None;
                    },
                    Some(o) => {
                        let ghost a0 = acc@;
                        let keep = match o {
                            Order::Greater => is_max,
                            _ => !is_max,
                        };
                        if !keep {
                            acc = x;
                        }
                        proof {
                            assert forall|g: Callbacks| #[trigger] agrees(*call, g) implies extreme_fold(
                                before.elems(g),
                                a0,
                                is_max,
                            ) == extreme_fold(p.elems(g), acc@, is_max) by {
                                assert(before.elems(g).drop_first() =~= p.elems(g));
                            }
                        }
                    },
                }
            },
        }
    }
}

/// The element with the greatest (`is_max`) or least key, the key of each
/// being what the callback returns for it; takes all the elements; `None`
/// when a comparison of keys does not complete.
pub fn extreme_key_pipe<F: Fn(u64, Vec<ZVal>) -> ZVal>(p: &mut Pipe, cb: u64, is_max: bool, call: &F, log: &mut CallLog) -> (r:
    Option<Option<ZVal>>)
    requires
        old(p).wf(),
        callable(*call),
    ensures
        evolved(*old(p), *final(p)),
        exists|taken: Seq<Value>| #[trigger] run_logged(*old(p), *final(p), taken) && forall|g: Callbacks|
            #[trigger] agrees(*call, g) ==> taken + final(p).elems(g) == old(p).elems(g),
        forall|g: Callbacks| #[trigger] agrees(*call, g) ==> {
            let s = old(p).elems(g);
            &&& r is Some ==> final(p).elems(g).len() == 0 && final(log).entries() == old(log).entries() + calls_on(cb, s)
            &&& match r {
                None => extreme_by_key(s, g, cb, is_max) is None,
                Some(None) => extreme_by_key(s, g, cb, is_max) == Some(Option::<Value>::None),
                Some(Some(v)) => extreme_by_key(s, g, cb, is_max) == Some(Some(v@)),
            }
        },
{
    let ghost mut taken: Seq<Value> = Seq::empty();
    proof {
        lemma_run_logged_start(*p);
        assert forall|g: Callbacks| #[trigger] agrees(*call, g) implies taken + p.elems(g) == old(p).elems(g) by {
            assert(Seq::<Value>::empty() + p.elems(g) =~= p.elems(g));
        }
    }
    let ghost p0 = *p;
    let ghost before_t1 = *p;
    let nx1 = p.next(call);
    proof {
        lemma_taken_step(*call, *old(p), before_t1, *p, taken, nx1);
        taken = next_taken(taken, nx1);
    }
    let first = match nx1 {
        None => {
            proof {
                assert forall|g: Callbacks| #[trigger] agrees(*call, g) implies log.entries() == old(log).entries() + calls_on(cb, old(p).elems(g)) by {
                    assert(old(log).entries() + calls_on(cb, old(p).elems(g)) =~= old(log).entries());
                }
            }
            return Some(None);
        },
        Some(x) => x,
    };
    let ghost fv = first@;
    let mut acc_k = logged_map(cb, first.clone_val(), call, log);
    let mut acc = first;
    proof {
        assert forall|g: Callbacks| #[trigger] agrees(*call, g) implies log.entries() + calls_on(cb, p.elems(g))
            == old(log).entries() + calls_on(cb, old(p).elems(g)) by {
            assert(p0.elems(g) == seq![fv] + p.elems(g));
            assert(calls_on(cb, p0.elems(g)) =~= seq![(cb, seq![fv])] + calls_on(cb, p.elems(g)));
            assert(old(log).entries() + calls_on(cb, p0.elems(g)) =~= log.entries() + calls_on(cb, p.elems(g)));
        }
    }
    proof {
        assert forall|g: Callbacks| #[trigger] agrees(*call, g) implies old(p).elems(g).len() > 0
            && extreme_by_key(old(p).elems(g), g, cb, is_max) == match extreme_key_fold(
            map_seq(p.elems(g), g, cb),
            p.elems(g),
            acc_k@,
            acc@,
            is_max,
        ) {
            Some(v) => Some(Some(v)),
            None => Option::<Option<Value>>::None,
        } by {
            assert(map_seq(old(p).elems(g), g, cb).drop_first() =~= map_seq(p.elems(g), g, cb));
        }
    }
    loop
        invariant
            evolved(*old(p), *p),
            run_logged(*old(p), *p, taken),
            forall|g: Callbacks| #[trigger] agrees(*call, g) ==> taken + p.elems(g) == old(p).elems(g),
            callable(*call),
            forall|g: Callbacks| #[trigger] agrees(*call, g) ==> old(p).elems(g).len() > 0 && extreme_by_key(
                old(p).elems(g),
                g,
                cb,
                is_max,
            ) == match extreme_key_fold(map_seq(p.elems(g), g, cb), p.elems(g), acc_k@, acc@, is_max) {
                Some(v) => Some(Some(v)),
                None => Option::<Option<Value>>::None,
            } && log.entries() + calls_on(cb, p.elems(g)) == old(log).entries() + calls_on(cb, old(p).elems(g)),
        decreases p.fuel(),
    {
        let ghost before = *p;
        let ghost log0 = log.entries();
        let ghost before_t2 = *p;
        let nx2 = p.next(call);
        proof {
            lemma_taken_step(*call, *old(p), before_t2, *p, taken, nx2);
            taken = next_taken(taken, nx2);
        }
        match nx2 {
            None => {
                proof {
                    assert forall|g: Callbacks| #[trigger] agrees(*call, g) implies log.entries() == old(log).entries() + calls_on(cb, old(p).elems(g)) by {
                        assert(log.entries() + calls_on(cb, before.elems(g)) =~= log.entries());
                    }
                }
                return Some(Some(acc));
            },
            Some(x) => {
                let ghost xv = x@;
                let kx = logged_map(cb, x.clone_val(), call, log);
                proof {
                    assert forall|g: Callbacks| #[trigger] agrees(*call, g) implies log.entries() + calls_on(cb, p.elems(g))
                        == old(log).entries() + calls_on(cb, old(p).elems(g)) by {
                        assert(before.elems(g) == seq![xv] + p.elems(g));
                        assert(calls_on(cb, before.elems(g)) =~= seq![(cb, seq![xv])] + calls_on(cb, p.elems(g)));
                        assert(log0 + calls_on(cb, before.elems(g)) =~= log.entries() + calls_on(cb, p.elems(g)));
                    }
                }
                match compare_values(&acc_k, &kx) {
                    None => {
                        proof {
                            assert forall|g: Callbacks| #[trigger] agrees(*call, g) implies extreme_by_key(
                                old(p).elems(g),
                                g,
                                cb,
                                is_max,
                            ) is None by {
                                assert(map_seq(before.elems(g), g, cb)[0] == kx@);
                            }
                        }
                        return None;
                    },
                    Some(o) => {
                        let ghost a0 = acc@;
                        let ghost k0 = acc_k@;
                        let keep = match o {
                            Order::Greater => is_max,
                            _ => !is_max,
                        };
                        if !keep {
                            acc = x;
                            acc_k = kx;
                        }
                        proof {
                            assert forall|g: Callbacks| #[trigger] agrees(*call, g) implies extreme_key_fold(
                                map_seq(before.elems(g), g, cb),
                                before.elems(g),
                                k0,
                                a0,
                                is_max,
                            ) == extreme_key_fold(map_seq(p.elems(g), g, cb), p.elems(g), acc_k@, acc@, is_max) by {
                                assert(before.elems(g).drop_first() =~= p.elems(g));
                                assert(map_seq(before.elems(g), g, cb).drop_first() =~= map_seq(p.elems(g), g, cb));
                            }
                        }
                    },
                }
            },
        }
    }
}

/// The order a comparison callback reports for `[x, y]`.
fn run_order<F: Fn(u64, Vec<ZVal>) -> ZVal>(cb: u64, x: &ZVal, y: &ZVal, call: &F, log: &mut CallLog) -> (r: Order)
    requires
        callable(*call),
    ensures
        final(log).entries() == old(log).entries().push((cb, seq![x@, y@])),
        forall|g: Callbacks| #[trigger] agrees(*call, g) ==> r == order_of(g(cb, seq![x@, y@])),
{
    let args = vec![x.clone_val(), y.clone_val()];
    proof {
        assert(views(args@) =~= seq![x@, y@]);
    }
    let v = log.call(call, cb, args);
    match v {
        ZVal::Long(n) => if n < 0 {
            Order::Less
        } else if n == 0 {
            Order::Equal
        } else {
            Order::Greater
        },
        _ => Order::Equal,
    }
}

/// The greatest (`is_max`) or least element under the comparison callback,
/// taking all the elements.
pub fn extreme_by_pipe<F: Fn(u64, Vec<ZVal>) -> ZVal>(p: &mut Pipe, cb: u64, is_max: bool, call: &F, log: &mut CallLog) -> (r:
    Option<ZVal>)
    requires
        old(p).wf(),
        callable(*call),
    ensures
        evolved(*old(p), *final(p)),
        exists|taken: Seq<Value>| #[trigger] run_logged(*old(p), *final(p), taken) && forall|g: Callbacks|
            #[trigger] agrees(*call, g) ==> taken + final(p).elems(g) == old(p).elems(g),
        forall|g: Callbacks| #[trigger] agrees(*call, g) ==> final(p).elems(g).len() == 0 && match r {
            None => extreme_by(old(p).elems(g), g, cb, is_max) is None,
            Some(v) => extreme_by(old(p).elems(g), g, cb, is_max) == Some(v@),
        } && final(log).entries() == old(log).entries() + compare_calls(old(p).elems(g), g, cb, is_max),
{
    let ghost mut taken: Seq<Value> = Seq::empty();
    proof {
        lemma_run_logged_start(*p);
        assert forall|g: Callbacks| #[trigger] agrees(*call, g) implies taken + p.elems(g) == old(p).elems(g) by {
            assert(Seq::<Value>::empty() + p.elems(g) =~= p.elems(g));
        }
    }
    let ghost before_t1 = *p;
    let nx1 = p.next(call);
    proof {
        lemma_taken_step(*call, *old(p), before_t1, *p, taken, nx1);
        taken = next_taken(taken, nx1);
    }
    let first = match nx1 {
        None => {
            proof {
                assert forall|g: Callbacks| #[trigger] agrees(*call, g) implies log.entries() == old(log).entries() + Seq::<(u64, Seq<Value>)>::empty() by {
                    assert(log.entries() + Seq::<(u64, Seq<Value>)>::empty() =~= log.entries());
                }
            }
            return None;
        },
        Some(x) => x,
    };
    let mut acc = first;
    proof {
        assert forall|g: Callbacks| #[trigger] agrees(*call, g) implies log.entries() + extreme_by_calls(
            p.elems(g),
            acc@,
            g,
            cb,
            is_max,
        ) == old(log).entries() + extreme_by_calls(old(p).elems(g).drop_first(), old(p).elems(g)[0], g, cb, is_max) by {
            assert(old(p).elems(g).drop_first() =~= p.elems(g));
        }
    }
    loop
        invariant
            evolved(*old(p), *p),
            run_logged(*old(p), *p, taken),
            forall|g: Callbacks| #[trigger] agrees(*call, g) ==> taken + p.elems(g) == old(p).elems(g),
            callable(*call),
            forall|g: Callbacks| #[trigger] agrees(*call, g) ==> old(p).elems(g).len() > 0 && extreme_by_fold(
                old(p).elems(g).drop_first(),
                old(p).elems(g)[0],
                g,
                cb,
                is_max,
            ) == extreme_by_fold(p.elems(g), acc@, g, cb, is_max) && log.entries() + extreme_by_calls(
                p.elems(g),
                acc@,
                g,
                cb,
                is_max,
            ) == old(log).entries() + extreme_by_calls(old(p).elems(g).drop_first(), old(p).elems(g)[0], g, cb, is_max),
        decreases p.fuel(),
    {
        let ghost before = *p;
        let ghost log0 = log.entries();
        let ghost before_t2 = *p;
        let nx2 = p.next(call);
        proof {
            lemma_taken_step(*call, *old(p), before_t2, *p, taken, nx2);
            taken = next_taken(taken, nx2);
        }
        match nx2 {
            None => {
                proof {
                    assert forall|g: Callbacks| #[trigger] agrees(*call, g) implies log.entries() == old(log).entries() + extreme_by_calls(old(p).elems(g).drop_first(), old(p).elems(g)[0], g, cb, is_max) by {
                        assert(log.entries() + extreme_by_calls(before.elems(g), acc@, g, cb, is_max) =~= log.entries());
                    }
                }
                return Some(acc);
            },
            Some(x) => {
                let o = run_order(cb, &acc, &x, call, log);
                let ghost a0 = acc@;
                let keep = match o {
                    Order::Greater => is_max,
                    _ => !is_max,
                };
                if !keep {
                    acc = x;
                }
                proof {
                    assert forall|g: Callbacks| #[trigger] agrees(*call, g) implies extreme_by_fold(
                        before.elems(g),
                        a0,
                        g,
                        cb,
                        is_max,
                    ) == extreme_by_fold(p.elems(g), acc@, g, cb, is_max) by {
                        assert(before.elems(g).drop_first() =~= p.elems(g));
                    }
                    assert forall|g: Callbacks| #[trigger] agrees(*call, g) implies log.entries() + extreme_by_calls(
                        p.elems(g),
                        acc@,
                        g,
                        cb,
                        is_max,
                    ) == old(log).entries() + extreme_by_calls(old(p).elems(g).drop_first(), old(p).elems(g)[0], g, cb, is_max) by {
                        assert(before.elems(g).drop_first() =~= p.elems(g));
                        assert(log0 + extreme_by_calls(before.elems(g), a0, g, cb, is_max) =~= log.entries() + extreme_by_calls(p.elems(g), acc@, g, cb, is_max));
                    }
                }
            },
        }
    }
}

/// What comparing one pair decides (see `pair_outcome`).
fn compare_pair(x: &ZVal, y: &ZVal, mode: LexMode) -> (r: Option<Option<Option<Order>>>)
    ensures
        r == pair_outcome(x@, y@, mode),
{
    match mode {
        LexMode::Total => {
            if !can_compare(x, y) {
                return None;
            }
            let o = x.cmp(y);
            match o {
                Order::Equal => Some(None),
                _ => Some(Some(Some(o))),
            }
        },
        LexMode::Partial => {
            if !can_compare(x, y) {
                return None;
            }
            let o = x.partial_cmp(y);
            match o {
                Some(Order::Equal) => Some(None),
                _ => Some(Some(o)),
            }
        },
        LexMode::Identity => {
            if x.is_identical(y) {
                Some(None)
            } else {
                Some(Some(None))
            }
        },
    }
}

/// Compares the elements of two pipelines lexicographically, taking
/// elements of both up to where the comparison stops; `None` when a
/// comparison does not complete.
pub fn lex_pipes<F: Fn(u64, Vec<ZVal>) -> ZVal>(a: &mut Pipe, b: &mut Pipe, mode: LexMode, call: &F) -> (r:
    Option<Option<Order>>)
    requires
        old(a).wf(),
        old(b).wf(),
        callable(*call),
    ensures
        evolved(*old(a), *final(a)),
        evolved(*old(b), *final(b)),
        exists|ta: Seq<Value>, tb: Seq<Value>| #[trigger] run_logged(*old(a), *final(a), ta) && #[trigger] run_logged(*old(b), *final(b), tb)
            && forall|g: Callbacks| #[trigger] agrees(*call, g) ==> ta + final(a).elems(g) == old(a).elems(g) && tb
            + final(b).elems(g) == old(b).elems(g),
        forall|g: Callbacks| #[trigger] agrees(*call, g) ==> {
            let sa = old(a).elems(g);
            let sb = old(b).elems(g);
            let k = lex_stop(sa, sb, mode);
            &&& r == lex_result(sa, sb, mode)
            &&& r is Some ==> final(a).elems(g) == drop_n(sa, k + 1) && final(b).elems(g) == drop_n(sb, k + 1)
        },
{
    let ghost k: int = 0;
    let ghost mut ta: Seq<Value> = Seq::empty();
    let ghost mut tb: Seq<Value> = Seq::empty();
    proof {
        lemma_run_logged_start(*a);
        lemma_run_logged_start(*b);
        assert forall|g: Callbacks| #[trigger] agrees(*call, g) implies ta + a.elems(g) == old(a).elems(g) && tb
            + b.elems(g) == old(b).elems(g) by {
            assert(Seq::<Value>::empty() + a.elems(g) =~= a.elems(g));
            assert(Seq::<Value>::empty() + b.elems(g) =~= b.elems(g));
        }
    }
    loop
        invariant
            evolved(*old(a), *a),
            evolved(*old(b), *b),
            callable(*call),
            0 <= k,
            run_logged(*old(a), *a, ta),
            run_logged(*old(b), *b, tb),
            forall|g: Callbacks| #[trigger] agrees(*call, g) ==> ta + a.elems(g) == old(a).elems(g) && tb + b.elems(g)
                == old(b).elems(g),
            forall|g: Callbacks| #[trigger] agrees(*call, g) ==> {
                let sa = old(a).elems(g);
                let sb = old(b).elems(g);
                &&& k <= sa.len()
                &&& k <= sb.len()
                &&& a.elems(g) == drop_n(sa, k)
                &&& b.elems(g) == drop_n(sb, k)
                &&& lex_result(sa, sb, mode) == lex_result(a.elems(g), b.elems(g), mode)
                &&& lex_stop(sa, sb, mode) == k + lex_stop(a.elems(g), b.elems(g), mode)
            },
        decreases a.fuel(),
    {
        let ghost a0 = *a;
        let ghost b0 = *b;
        let nxa = a.next(call);
        proof {
            lemma_taken_step(*call, *old(a), a0, *a, ta, nxa);
            ta = next_taken(ta, nxa);
        }
        match nxa {
            None => {
                let y = b.next(call);
                proof {
                    lemma_taken_step(*call, *old(b), b0, *b, tb, y);
                    tb = next_taken(tb, y);
                }
                proof {
                    assert forall|g: Callbacks| #[trigger] agrees(*call, g) implies b.elems(g) == drop_n(
                        old(b).elems(g),
                        k + 1,
                    ) && a.elems(g) == drop_n(old(a).elems(g), k + 1) by {
                        assert(b.elems(g) =~= drop_n(old(b).elems(g), k + 1));
                        assert(a.elems(g) =~= drop_n(old(a).elems(g), k + 1));
                    }
                }
                return match y {
                    None => Some(Some(Order::Equal)),
                    Some(_) => Some(Some(Order::Less)),
                };
            },
            Some(x) => {
                let nxb = b.next(call);
                proof {
                    lemma_taken_step(*call, *old(b), b0, *b, tb, nxb);
                    tb = next_taken(tb, nxb);
                }
                match nxb {
                None => {
                    proof {
                        assert forall|g: Callbacks| #[trigger] agrees(*call, g) implies b.elems(g) == drop_n(
                            old(b).elems(g),
                            k + 1,
                        ) && a.elems(g) == drop_n(old(a).elems(g), k + 1) by {
                            assert(b.elems(g) =~= drop_n(old(b).elems(g), k + 1));
                            assert(a.elems(g) =~= drop_n(old(a).elems(g), k + 1));
                        }
                    }
                    return Some(Some(Order::Greater));
                },
                Some(y) => {
                    let out = compare_pair(&x, &y, mode);
                    proof {
                        assert forall|g: Callbacks| #[trigger] agrees(*call, g) implies b.elems(g) == drop_n(
                            old(b).elems(g),
                            k + 1,
                        ) && a.elems(g) == drop_n(old(a).elems(g), k + 1) && x@ == a0.elems(g)[0] && y@
                            == b0.elems(g)[0] by {
                            assert(b.elems(g) =~= drop_n(old(b).elems(g), k + 1));
                            assert(a.elems(g) =~= drop_n(old(a).elems(g), k + 1));
                        }
                    }
                    match out {
                        None => {
                            return None;
                        },
                        Some(Some(o)) => {
                            return Some(o);
                        },
                        Some(None) => {
                            proof {
                                k = k + 1;
                            }
                        },
                    }
                },
                }
            },
        }
    }
}

} // verus!
