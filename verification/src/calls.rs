//! A record of the callback calls that an operation makes.
use vstd::prelude::*;
use crate::value::{ZVal, Value};
use crate::model::{views, callable, agrees, holds, Callbacks, Test, order_of, keep_max, keep_min};

verus! {

/// The calls of one callback `cb`, once on each of the elements `s`, in
/// order, each with the element as its only argument.
pub open spec fn calls_on(cb: u64, s: Seq<Value>) -> Seq<(u64, Seq<Value>)> {
    s.map_values(|x: Value| (cb, seq![x]))
}

/// The calls that testing each element of `s` with `t` makes, in order.
pub open spec fn test_calls(t: Test, s: Seq<Value>) -> Seq<(u64, Seq<Value>)> {
    match t {
        Test::Callback(cb) => calls_on(cb, s),
        Test::NotNull => Seq::empty(),
    }
}

pub proof fn lemma_test_calls_push(t: Test, s: Seq<Value>, x: Value)
    ensures
        test_calls(t, s.push(x)) == test_calls(t, s) + test_calls(t, seq![x]),
{
    assert(test_calls(t, s.push(x)) =~= test_calls(t, s) + test_calls(t, seq![x]));
}

/// Runs a test on an element, recording the call it makes.
pub fn logged_test<F: Fn(u64, Vec<ZVal>) -> ZVal>(t: Test, x: &ZVal, call: &F, log: &mut CallLog) -> (r: bool)
    requires
        callable(*call),
    ensures
        final(log).entries() == old(log).entries() + test_calls(t, seq![x@]),
        forall|g: Callbacks| #[trigger] agrees(*call, g) ==> r == holds(g, t, x@),
{
    match t {
        Test::Callback(cb) => {
            let args = vec![x.clone_val()];
            proof {
                assert(views(args@) =~= seq![x@]);
            }
            let v = log.call(call, cb, args);
            proof {
                assert(calls_on(cb, seq![x@]) =~= seq![(cb, seq![x@])]);
            }
            match v {
                ZVal::Bool(b) => b,
                _ => false,
            }
        },
        Test::NotNull => {
            proof {
                assert(old(log).entries() + Seq::<(u64, Seq<Value>)>::empty() =~= old(log).entries());
            }
            match x {
                ZVal::Null => false,
                _ => true,
            }
        },
    }
}

/// The calls that folding `s` into `acc` from the front makes: the callback
/// on the accumulator so far and the next element, once per element, in order.
pub open spec fn fold_calls(s: Seq<Value>, acc: Value, g: Callbacks, cb: u64) -> Seq<(u64, Seq<Value>)>
    decreases s.len(),
{
    if s.len() == 0 {
        Seq::empty()
    } else {
        seq![(cb, seq![acc, s[0]])] + fold_calls(s.drop_first(), g(cb, seq![acc, s[0]]), g, cb)
    }
}

/// The calls that folding `s` into `acc` from the back makes.
pub open spec fn rfold_calls(s: Seq<Value>, acc: Value, g: Callbacks, cb: u64) -> Seq<(u64, Seq<Value>)>
    decreases s.len(),
{
    if s.len() == 0 {
        Seq::empty()
    } else {
        seq![(cb, seq![acc, s.last()])] + rfold_calls(s.drop_last(), g(cb, seq![acc, s.last()]), g, cb)
    }
}

/// The calls that `max_by` (`is_max`) or `min_by` makes on `rest` with `acc`
/// held: the comparison of the element held with the next element, once per
/// element, in order.
pub open spec fn extreme_by_calls(rest: Seq<Value>, acc: Value, g: Callbacks, cb: u64, is_max: bool) -> Seq<
    (u64, Seq<Value>),
>
    decreases rest.len(),
{
    if rest.len() == 0 {
        Seq::empty()
    } else {
        let o = order_of(g(cb, seq![acc, rest[0]]));
        seq![(cb, seq![acc, rest[0]])] + extreme_by_calls(
            rest.drop_first(),
            if is_max {
                keep_max(o, acc, rest[0])
            } else {
                keep_min(o, acc, rest[0])
            },
            g,
            cb,
            is_max,
        )
    }
}

/// The calls that `max_by` or `min_by` makes on the elements `s`: none for
/// fewer than two elements.
pub open spec fn compare_calls(s: Seq<Value>, g: Callbacks, cb: u64, is_max: bool) -> Seq<(u64, Seq<Value>)> {
    if s.len() == 0 {
        Seq::empty()
    } else {
        extreme_by_calls(s.drop_first(), s[0], g, cb, is_max)
    }
}

/// The calls that reducing `s` makes: folding the rest into the first
/// element, so none for fewer than two elements.
pub open spec fn reduce_calls(s: Seq<Value>, g: Callbacks, cb: u64) -> Seq<(u64, Seq<Value>)> {
    if s.len() == 0 {
        Seq::empty()
    } else {
        fold_calls(s.drop_first(), s[0], g, cb)
    }
}

/// The calls made through it, in order. Entries are added only by
/// `CallLog::call`, which makes the call it records, so the entries are
/// calls that were made.
pub struct CallLog {
    calls: Ghost<Seq<(u64, Seq<Value>)>>,
}

impl CallLog {
    /// The calls recorded so far: the callback handle and the arguments of each.
    pub closed spec fn entries(&self) -> Seq<(u64, Seq<Value>)> {
        self.calls@
    }

    /// A log with no calls in it.
    pub fn new() -> (r: CallLog)
        ensures
            r.entries() == Seq::<(u64, Seq<Value>)>::empty(),
    {
        CallLog { calls: Ghost(Seq::empty()) }
    }

    /// Calls the callback `id` with `args` through the runner, and records the call.
    pub fn call<F: Fn(u64, Vec<ZVal>) -> ZVal>(&mut self, f: &F, id: u64, args: Vec<ZVal>) -> (r: ZVal)
        requires
            callable(*f),
        ensures
            final(self).entries() == old(self).entries().push((id, views(args@))),
            f.ensures((id, args), r),
    {
        let ghost a = views(args@);
        let r = f(id, args);
        self.calls = Ghost(self.calls@.push((id, a)));
        r
    }
}

} // verus!
