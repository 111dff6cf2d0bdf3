//! The iterator class that PHP code sees: an optional pipeline with its kind,
//! adapters that extend the pipeline, and consumers that run it.
use vstd::prelude::*;
use crate::value::{ZVal, Value, ArrayKey, Key};
use crate::order::Order;
use crate::kind::IterKind;
use crate::error::IterError;
use crate::pipe::{Pipe, run_logged, run_logged_back};
use crate::calls::{CallLog, calls_on, fold_calls, rfold_calls, reduce_calls, compare_calls};
use crate::consume::{match_fn, count_pipe, last_pipe, collect_pipe, for_each_pipe, partition_pipe, fold_pipe, rfold_pipe, reduce_pipe, search_pipe, find_map_pipe, rsearch_pipe, extreme_pipe, extreme_key_pipe, extreme_by_pipe, lex_pipes};
use crate::model::{Callbacks, Test, Expand, ZCallable, LexMode, views, callable, agrees, values_of, map_seq, filter_seq, test_fn, drop_while_seq, take_while_seq, drop_n, take_n, step_seq, enum_seq, zip_seq, flat_seq, step_front, step_back, step_nth, step_nth_back, wrap, list_of, fold_seq, rfold_seq, first_index, last_index, maps_fn, extreme, extreme_by_key, extreme_by, lex_result, lex_stop};

verus! {

/// A pipeline together with the kind of iterator it is.
pub struct IterBox {
    pub kind: IterKind,
    pub pipe: Pipe,
}

impl IterBox {
    /// The pipeline supports what its kind promises.
    pub open spec fn wf(&self) -> bool {
        &&& self.pipe.wf()
        &&& self.kind.double_ended() ==> self.pipe.back_ok()
        &&& self.kind.exact_size() ==> self.pipe.exact()
    }
}

/// An iterator over the values of a PHP array, with adapters and consumers
/// modelled on Rust's `Iterator`.
pub struct ArrayIterator {
    iter: Option<IterBox>,
}

/// `[lower, upper]` as PHP receives a size hint: a bound above `i64::MAX`
/// cannot be pushed as a lower bound, an unknown upper bound is `null`.
pub open spec fn hint_value(h: (usize, Option<usize>)) -> Value {
    let upper = match h.1 {
        Some(u) => Value::Long(u as i64),
        None => Value::Null,
    };
    if h.0 <= i64::MAX {
        list_of(seq![Value::Long(h.0 as i64), upper])
    } else {
        list_of(seq![upper])
    }
}

/// The model of an optional value.
pub open spec fn opt_view(o: Option<ZVal>) -> Option<Value> {
    match o {
        Some(v) => Some(v@),
        None => None,
    }
}

/// The sign of an optional order.
pub open spec fn opt_sign(o: Option<Order>) -> Option<i8> {
    match o {
        Some(x) => Some(x.sign()),
        None => None,
    }
}

/// Comparing `a` with `b` took them to `a2` and `b2`: both lose the
/// elements up to and including the position where the comparison stopped.
pub open spec fn lex_consumed(a: Seq<Value>, b: Seq<Value>, a2: Seq<Value>, b2: Seq<Value>, mode: LexMode) -> bool {
    let k = lex_stop(a, b, mode);
    a2 == drop_n(a, k + 1) && b2 == drop_n(b, k + 1)
}

/// The outcome `res` of comparing `a` with `b`, which took them to `a2` and `b2`.
pub open spec fn lex_compared(
    a: Seq<Value>,
    b: Seq<Value>,
    a2: Seq<Value>,
    b2: Seq<Value>,
    mode: LexMode,
    res: Option<Option<Order>>,
) -> bool {
    &&& res == lex_result(a, b, mode)
    &&& res is Some ==> lex_consumed(a, b, a2, b2, mode)
}

/// Comparing by the total order always ends in an order.
pub proof fn lemma_lex_total_ordered(a: Seq<Value>, b: Seq<Value>)
    ensures
        lex_result(a, b, LexMode::Total) != Some(Option::<Order>::None),
    decreases a.len(),
{
    if a.len() > 0 && b.len() > 0 {
        lemma_lex_total_ordered(a.drop_first(), b.drop_first());
    }
}

/// Comparing by identity always completes.
pub proof fn lemma_lex_identity_completes(a: Seq<Value>, b: Seq<Value>)
    ensures
        lex_result(a, b, LexMode::Identity) is Some,
    decreases a.len(),
{
    if a.len() > 0 && b.len() > 0 {
        lemma_lex_identity_completes(a.drop_first(), b.drop_first());
    }
}

/// `e` is the error of an operation `op` that needs an iterator of kind `kind`.
pub open spec fn unsupported(e: IterError, op: Seq<char>, kind: Seq<char>) -> bool {
    e matches IterError::Unsupported(a, b) && a@ == op && b@ == kind
}

fn unsupported_error(op: &str, kind: &str) -> (e: IterError)
    ensures
        unsupported(e, op@, kind@),
{
    IterError::Unsupported(op.to_string(), kind.to_string())
}

/// The PHP list of the values.
pub fn list_val(values: Vec<ZVal>) -> (r: ZVal)
    ensures
        r@ == list_of(views(values@)),
{
    let mut entries: Vec<(ArrayKey, ZVal)> = Vec::new();
    let mut i: usize = 0;
    while i < values.len()
        invariant
            i <= values.len(),
            entries@.len() == i,
            forall|j: int| 0 <= j < i ==> #[trigger] entries@[j].0@ == Key::Int(j as i64) && entries@[j].1@ == values@[j]@,
        decreases values.len() - i,
    {
        entries.push((ArrayKey::Int(i as i64), values[i].clone_val()));
        i = i + 1;
    }
    let r = ZVal::Array(entries);
    assert(r@->Array_0 =~= list_of(views(values@))->Array_0);
    r
}

/// The callback of an `inspect` stage and the calls of it made so far.
pub open spec fn pipe_inspection(p: Pipe) -> Option<(u64, Seq<(u64, Seq<Value>)>)> {
    match p {
        Pipe::Inspected(_, cb, l) => Some((cb, l.entries())),
        _ => None,
    }
}

/// The callback of a `skip_while` stage, whether it has let an element
/// through, and the calls of it made so far.
pub open spec fn pipe_skipping(p: Pipe) -> Option<(u64, bool, Seq<(u64, Seq<Value>)>)> {
    match p {
        Pipe::SkippingWhile(_, Test::Callback(cb), done, l) => Some((cb, done, l.entries())),
        _ => None,
    }
}

/// What a run records of the pipeline's last stage, as `inspection` and
/// `skipping` report it.
proof fn lemma_run_reported(a: Pipe, b: Pipe, taken: Seq<Value>)
    requires
        run_logged(a, b, taken),
    ensures
        ArrayIterator::inspected_run(pipe_inspection(a), pipe_inspection(b), taken),
        ArrayIterator::skipping_run(pipe_skipping(a), pipe_skipping(b), taken),
{
    if b is SkippingWhile && taken.len() > 0 && b->SkippingWhile_1 is Callback {
        let t = b->SkippingWhile_1;
        let calls = b->SkippingWhile_3.entries();
        assert(crate::calls::test_calls(t, seq![taken[0]]) =~= seq![(t->Callback_0, seq![taken[0]])]);
        if calls.len() > 0 {
            assert(calls.subrange(calls.len() - 1, calls.len() as int)[0] == calls.last());
        }
    }
}

/// What a run from the back records of an `inspect` stage, as `inspection`
/// reports it.
proof fn lemma_back_run_reported(a: Pipe, b: Pipe, taken: Seq<Value>)
    requires
        run_logged_back(a, b, taken),
    ensures
        ArrayIterator::inspected_run(pipe_inspection(a), pipe_inspection(b), taken),
{
}

impl ArrayIterator {
    #[verifier::type_invariant]
    spec fn inv(&self) -> bool {
        match self.iter {
            Some(b) => b.wf(),
            None => true,
        }
    }

    /// The iterator still holds its pipeline (it was neither handed on nor lost).
    pub closed spec fn present(&self) -> bool {
        self.iter is Some
    }

    /// The kind of the pipeline held.
    pub closed spec fn kind(&self) -> IterKind {
        self.iter->0.kind
    }

    /// The elements still to come, when the callbacks behave as `g`.
    pub closed spec fn elems(&self, g: Callbacks) -> Seq<Value> {
        match self.iter {
            Some(b) => b.pipe.elems(g),
            None => Seq::empty(),
        }
    }

    /// When the last adapter applied is `inspect`: its callback and the calls
    /// of it made so far, in order.
    pub closed spec fn inspection(&self) -> Option<(u64, Seq<(u64, Seq<Value>)>)> {
        match self.iter {
            Some(b) => pipe_inspection(b.pipe),
            None => None,
        }
    }

    /// When the last adapter applied is `skip_while` with a callback: the
    /// callback, whether the first element it rejects was found, and the
    /// calls of it made so far, in order.
    pub closed spec fn skipping(&self) -> Option<(u64, bool, Seq<(u64, Seq<Value>)>)> {
        match self.iter {
            Some(b) => pipe_skipping(b.pipe),
            None => None,
        }
    }

    /// How a step from the front that returned `r` may change `skipping`:
    /// once the rejected element was found the callback is not run again;
    /// before, a step that returns an element has found it, and the last
    /// call was on that element.
    pub open spec fn skipping_after(
        s: Option<(u64, bool, Seq<(u64, Seq<Value>)>)>,
        s2: Option<(u64, bool, Seq<(u64, Seq<Value>)>)>,
        r: Option<ZVal>,
    ) -> bool {
        match s {
            None => s2 is None,
            Some((cb, true, calls)) => s2 == Some((cb, true, calls)),
            Some((cb, false, calls)) => s2 matches Some((cb2, done2, calls2)) && cb2 == cb && calls.is_prefix_of(
                calls2,
            ) && (r matches Some(v) ==> done2 && calls2.len() > 0 && calls2.last() == (cb, seq![v@])),
        }
    }

    /// Taking the elements `taken` from the back, in that order, took `a` to
    /// `b`, as far as the call record of `inspect` shows.
    pub open spec fn back_run_reported(a: ArrayIterator, b: ArrayIterator, taken: Seq<Value>) -> bool {
        Self::inspected_run(a.inspection(), b.inspection(), taken)
    }

    /// Comparing `a` with `b` took them to `a2` and `b2` by taking elements
    /// from the front of each, as `run_reported` records.
    pub open spec fn compared_runs<F: Fn(u64, Vec<ZVal>) -> ZVal>(
        call: F,
        a: ArrayIterator,
        a2: ArrayIterator,
        b: ArrayIterator,
        b2: ArrayIterator,
    ) -> bool {
        exists|ta: Seq<Value>, tb: Seq<Value>| #[trigger] Self::run_reported(a, a2, ta) && #[trigger] Self::run_reported(
            b,
            b2,
            tb,
        ) && forall|g: Callbacks| #[trigger] agrees(call, g) ==> ta + a2.elems(g) == a.elems(g) && tb + b2.elems(g)
            == b.elems(g)
    }

    /// Taking the elements `taken` from the front took `a` to `b`, as far as
    /// the call records of `inspect` and `skip_while` show.
    pub open spec fn run_reported(a: ArrayIterator, b: ArrayIterator, taken: Seq<Value>) -> bool {
        &&& Self::inspected_run(a.inspection(), b.inspection(), taken)
        &&& Self::skipping_run(a.skipping(), b.skipping(), taken)
    }

    /// How taking the elements `out` from the front changes `inspection`:
    /// one call of the inspecting callback on each, in order.
    pub open spec fn inspected_run(
        i: Option<(u64, Seq<(u64, Seq<Value>)>)>,
        i2: Option<(u64, Seq<(u64, Seq<Value>)>)>,
        out: Seq<Value>,
    ) -> bool {
        match i {
            Some((cb, calls)) => i2 == Some((cb, calls + calls_on(cb, out))),
            None => i2 is None,
        }
    }

    /// How taking the elements `out` from the front may change `skipping`:
    /// once the rejected element was found the callback is not run again;
    /// before, taking nothing leaves it unfound, and taking elements finds it
    /// as the first of them, the last element the callback ran on.
    pub open spec fn skipping_run(
        s: Option<(u64, bool, Seq<(u64, Seq<Value>)>)>,
        s2: Option<(u64, bool, Seq<(u64, Seq<Value>)>)>,
        out: Seq<Value>,
    ) -> bool {
        match s {
            None => s2 is None,
            Some((cb, true, calls)) => s2 == Some((cb, true, calls)),
            Some((cb, false, calls)) => s2 matches Some((cb2, done2, calls2)) && cb2 == cb && calls.is_prefix_of(
                calls2,
            ) && (out.len() == 0 ==> !done2) && (out.len() > 0 ==> done2 && calls2.len() > 0 && calls2.last() == (
            cb,
            seq![out[0]],
            )),
        }
    }

    /// The calls that a step which returned `r` adds to `inspection`: one of
    /// the inspecting callback on the element returned.
    pub open spec fn inspected_after(i: Option<(u64, Seq<(u64, Seq<Value>)>)>, r: Option<ZVal>) -> Option<(u64, Seq<(u64, Seq<Value>)>)> {
        match (i, r) {
            (Some((cb, calls)), Some(v)) => Some((cb, calls.push((cb, seq![v@])))),
            _ => i,
        }
    }

    /// The bounds on the number of elements left, as a size hint reports them.
    pub closed spec fn hint(&self) -> (usize, Option<usize>) {
        self.iter->0.pipe.hint()
    }

    /// An iterator over the values of an array.
    pub fn new(vec: &ZVal) -> (r: ArrayIterator)
        requires
            vec is Array,
        ensures
            r.present(),
            r.kind() == IterKind::DoubleEndedExactSize,
            forall|g: Callbacks| #[trigger] r.elems(g) == values_of(vec@),
    {
        let it = vec.clone_val().into_iter();
        ArrayIterator {
            iter: Some(IterBox { kind: IterKind::DoubleEndedExactSize, pipe: Pipe::Source(it) }),
        }
    }

    /// Takes the pipeline out for an adapter: `None` if there is none.
    fn take_box(&mut self) -> (r: Option<IterBox>)
        ensures
            !final(self).present(),
            r == old(self).iter,
            r matches Some(b) ==> b.wf(),
    {
        proof {
            use_type_invariant(&*self);
        }
        let mut out: Option<IterBox> = None;
        std::mem::swap(&mut out, &mut self.iter);
        out
    }

    fn put_box(&mut self, b: IterBox)
        requires
            b.wf(),
        ensures
            final(self).iter == Some(b),
    {
        self.iter = Some(b);
    }

    /// Advances the iterator and returns the next value; `None` when there is none.
    pub fn next<F: Fn(u64, Vec<ZVal>) -> ZVal>(&mut self, call: &F) -> (r: Result<Option<ZVal>, IterError>)
        requires
            callable(*call),
        ensures
            !old(self).present() ==> r == Err::<Option<ZVal>, IterError>(IterError::Consumed) && *final(self)
                == *old(self),
            old(self).present() ==> r is Ok && final(self).present() && final(self).kind() == old(self).kind()
                && final(self).inspection() == Self::inspected_after(old(self).inspection(), r->Ok_0)
                && Self::skipping_after(old(self).skipping(), final(self).skipping(), r->Ok_0),
            forall|g: Callbacks| #[trigger] agrees(*call, g) ==> (r matches Ok(o) ==> step_front(
                old(self).elems(g),
                final(self).elems(g),
                o,
            )),
    {
        match self.take_box() {
            None => Err(IterError::Consumed),
            Some(mut b) => {
                let r = b.pipe.next(call);
                proof {
                    if b.pipe is SkippingWhile && r is Some && b.pipe->SkippingWhile_1 is Callback {
                        let t = b.pipe->SkippingWhile_1;
                        let calls = b.pipe->SkippingWhile_3.entries();
                        let v = r->0;
                        assert(crate::calls::test_calls(t, seq![v@]) =~= seq![(t->Callback_0, seq![v@])]);
                        if calls.len() > 0 {
                            assert(calls.subrange(calls.len() - 1, calls.len() as int)[0] == calls.last());
                        }
                    }
                }
                self.put_box(b);
                Ok(r)
            },
        }
    }

    /// Returns the bounds on the remaining length of the iterator, as
    /// `[lower, upper]` with `null` for an unknown upper bound.
    pub fn size_hint(&self) -> (r: Result<ZVal, IterError>)
        ensures
            !self.present() ==> r == Err::<ZVal, IterError>(IterError::Consumed),
            self.present() ==> (r is Ok && r->Ok_0@ == hint_value(self.hint())),
            self.present() ==> forall|g: Callbacks| #[trigger] self.elems(g).len() >= self.hint().0 && (self.hint().1 matches Some(u) ==> self.elems(g).len() <= u),
            self.present() && self.kind().exact_size() ==> self.hint().1 == Some(self.hint().0),
    {
        proof {
            use_type_invariant(self);
            if self.iter is Some {
                let b = self.iter->0;
                assert forall|g: Callbacks| #[trigger] self.elems(g).len() >= self.hint().0 && (self.hint().1 matches Some(u) ==> self.elems(g).len() <= u) by {
                    crate::pipe::lemma_hint(b.pipe, g);
                }
                crate::pipe::lemma_hint(b.pipe, |id: u64, args: Seq<Value>| Value::Null);
            }
        }
        match &self.iter {
            None => Err(IterError::Consumed),
            Some(b) => {
                let (lo, hi) = b.pipe.size_hint();
                let upper = match hi {
                    Some(u) => ZVal::Long(u as i64),
                    None => ZVal::Null,
                };
                let mut items: Vec<ZVal> = Vec::new();
                if (lo as u64) <= 0x7FFF_FFFF_FFFF_FFFFu64 {
                    items.push(ZVal::Long(lo as i64));
                }
                let ghost before = items@;
                items.push(upper);
                let r = list_val(items);
                assert(views(items@) =~= if lo <= i64::MAX {
                    seq![Value::Long(lo as i64), upper@]
                } else {
                    seq![upper@]
                });
                Ok(r)
            },
        }
    }

    /// Consumes the iterator, counting the elements.
    pub fn count<F: Fn(u64, Vec<ZVal>) -> ZVal>(&mut self, call: &F) -> (r: Result<i64, IterError>)
        requires
            callable(*call),
        ensures
            old(self).present() ==> exists|taken: Seq<Value>| #[trigger] Self::run_reported(*old(self), *final(self), taken)
                && forall|g: Callbacks| #[trigger] agrees(*call, g) ==> taken == old(self).elems(g),
            !old(self).present() ==> r == Err::<i64, IterError>(IterError::Consumed) && *final(self) == *old(self),
            old(self).present() ==> r is Ok && final(self).present() && final(self).kind() == old(self).kind(),
            forall|g: Callbacks| #[trigger] agrees(*call, g) ==> (r matches Ok(c) ==> c == wrap(
                old(self).elems(g).len() as int,
            ) as i64 && final(self).elems(g).len() == 0),
    {
        match self.take_box() {
            None => Err(IterError::Consumed),
            Some(mut b) => {
                let c = count_pipe(&mut b.pipe, call);
                let ghost taken = choose|taken: Seq<Value>| #[trigger] run_logged(old(self).iter->0.pipe, b.pipe, taken)
                    && forall|g: Callbacks| #[trigger] agrees(*call, g) ==> taken == old(self).iter->0.pipe.elems(g);
                proof {
                    lemma_run_reported(old(self).iter->0.pipe, b.pipe, taken);
                }
                self.put_box(b);
                proof {
                    assert(Self::run_reported(*old(self), *self, taken));
                }
                Ok(c as i64)
            },
        }
    }

    /// Consumes the iterator, returning the last element.
    pub fn last<F: Fn(u64, Vec<ZVal>) -> ZVal>(&mut self, call: &F) -> (r: Result<Option<ZVal>, IterError>)
        requires
            callable(*call),
        ensures
            old(self).present() ==> exists|taken: Seq<Value>| #[trigger] Self::run_reported(*old(self), *final(self), taken)
                && forall|g: Callbacks| #[trigger] agrees(*call, g) ==> taken == old(self).elems(g),
            !old(self).present() ==> r == Err::<Option<ZVal>, IterError>(IterError::Consumed) && *final(self)
                == *old(self),
            old(self).present() ==> r is Ok && final(self).present() && final(self).kind() == old(self).kind(),
            forall|g: Callbacks| #[trigger] agrees(*call, g) ==> (r matches Ok(o) ==> final(self).elems(g).len() == 0
                && match o {
                None => old(self).elems(g).len() == 0,
                Some(v) => old(self).elems(g).len() > 0 && v@ == old(self).elems(g).last(),
            }),
    {
        match self.take_box() {
            None => Err(IterError::Consumed),
            Some(mut b) => {
                let r = last_pipe(&mut b.pipe, call);
                let ghost taken = choose|taken: Seq<Value>| #[trigger] run_logged(old(self).iter->0.pipe, b.pipe, taken)
                    && forall|g: Callbacks| #[trigger] agrees(*call, g) ==> taken == old(self).iter->0.pipe.elems(g);
                proof {
                    lemma_run_reported(old(self).iter->0.pipe, b.pipe, taken);
                }
                self.put_box(b);
                proof {
                    assert(Self::run_reported(*old(self), *self, taken));
                }
                Ok(r)
            },
        }
    }

    /// Returns the `n`th element, consuming it and those before it.
    pub fn nth<F: Fn(u64, Vec<ZVal>) -> ZVal>(&mut self, n: i64, call: &F) -> (r: Result<Option<ZVal>, IterError>)
        requires
            callable(*call),
        ensures
            old(self).present() ==> exists|taken: Seq<Value>| #[trigger] Self::run_reported(*old(self), *final(self), taken)
                && forall|g: Callbacks| #[trigger] agrees(*call, g) ==> taken + final(self).elems(g) == old(self).elems(g),
            !old(self).present() ==> r == Err::<Option<ZVal>, IterError>(IterError::Consumed) && *final(self)
                == *old(self),
            old(self).present() ==> r is Ok && final(self).present() && final(self).kind() == old(self).kind(),
            forall|g: Callbacks| #[trigger] agrees(*call, g) ==> (r matches Ok(o) ==> step_nth(
                old(self).elems(g),
                final(self).elems(g),
                (n as usize) as int,
                o,
            )),
    {
        match self.take_box() {
            None => Err(IterError::Consumed),
            Some(mut b) => {
                let r = b.pipe.nth(n as usize, call);
                let ghost taken = choose|taken: Seq<Value>| #[trigger] run_logged(old(self).iter->0.pipe, b.pipe, taken)
                    && forall|g: Callbacks| #[trigger] agrees(*call, g) ==> taken + b.pipe.elems(g) == old(self).iter->0.pipe.elems(g);
                proof {
                    lemma_run_reported(old(self).iter->0.pipe, b.pipe, taken);
                }
                self.put_box(b);
                proof {
                    assert(Self::run_reported(*old(self), *self, taken));
                }
                Ok(r)
            },
        }
    }

    /// Removes and returns the last element; only for double-ended iterators.
    pub fn next_back<F: Fn(u64, Vec<ZVal>) -> ZVal>(&mut self, call: &F) -> (r: Result<Option<ZVal>, IterError>)
        requires
            callable(*call),
        ensures
            !old(self).present() ==> r == Err::<Option<ZVal>, IterError>(IterError::Consumed) && *final(self)
                == *old(self),
            old(self).present() && !old(self).kind().double_ended() ==> *final(self) == *old(self) && (r is Err && unsupported(r->Err_0, "next_back"@, "DoubleEnded"@)),
            old(self).present() && old(self).kind().double_ended() ==> r is Ok && final(self).present()
                && final(self).kind() == old(self).kind() && final(self).inspection() == Self::inspected_after(
                old(self).inspection(),
                r->Ok_0,
            ),
            forall|g: Callbacks| #[trigger] agrees(*call, g) ==> (r matches Ok(o) ==> step_back(
                old(self).elems(g),
                final(self).elems(g),
                o,
            )),
    {
        match self.take_box() {
            None => Err(IterError::Consumed),
            Some(mut b) => {
                if !b.kind.is_double_ended() {
                    self.put_box(b);
                    return Err(unsupported_error("next_back", "DoubleEnded"));
                }
                let r = b.pipe.next_back(call);
                self.put_box(b);
                Ok(r)
            },
        }
    }

    /// Returns the `n`th element from the back, consuming it and those after
    /// it; only for double-ended iterators.
    pub fn nth_back<F: Fn(u64, Vec<ZVal>) -> ZVal>(&mut self, n: i64, call: &F) -> (r: Result<
        Option<ZVal>,
        IterError,
    >)
        requires
            callable(*call),
        ensures
            r is Ok ==> exists|taken: Seq<Value>| #[trigger] Self::back_run_reported(*old(self), *final(self), taken)
                && forall|g: Callbacks| #[trigger] agrees(*call, g) ==> final(self).elems(g) + taken.reverse() == old(self).elems(g),
            !old(self).present() ==> r == Err::<Option<ZVal>, IterError>(IterError::Consumed) && *final(self)
                == *old(self),
            old(self).present() && !old(self).kind().double_ended() ==> *final(self) == *old(self) && (r is Err && unsupported(r->Err_0, "nth_back"@, "DoubleEnded"@)),
            old(self).present() && old(self).kind().double_ended() ==> r is Ok && final(self).present()
                && final(self).kind() == old(self).kind(),
            forall|g: Callbacks| #[trigger] agrees(*call, g) ==> (r matches Ok(o) ==> step_nth_back(
                old(self).elems(g),
                final(self).elems(g),
                (n as usize) as int,
                o,
            )),
    {
        match self.take_box() {
            None => Err(IterError::Consumed),
            Some(mut b) => {
                if !b.kind.is_double_ended() {
                    self.put_box(b);
                    return Err(unsupported_error("nth_back", "DoubleEnded"));
                }
                let r = b.pipe.nth_back(n as usize, call);
                let ghost taken = choose|taken: Seq<Value>| #[trigger] run_logged_back(old(self).iter->0.pipe, b.pipe, taken)
                    && forall|g: Callbacks| #[trigger] agrees(*call, g) ==> b.pipe.elems(g) + taken.reverse() == old(self).iter->0.pipe.elems(g);
                proof {
                    lemma_back_run_reported(old(self).iter->0.pipe, b.pipe, taken);
                }
                self.put_box(b);
                proof {
                    assert(Self::back_run_reported(*old(self), *self, taken));
                }
                Ok(r)
            },
        }
    }

    /// Returns the exact number of elements left; only for exact-size iterators.
    pub fn len(&self) -> (r: Result<i64, IterError>)
        ensures
            !self.present() ==> r == Err::<i64, IterError>(IterError::Consumed),
            self.present() && !self.kind().exact_size() ==> (r is Err && unsupported(r->Err_0, "len"@, "ExactSize"@)),
            self.present() && self.kind().exact_size() ==> r == Ok::<i64, IterError>(self.hint().0 as i64)
                && forall|g: Callbacks| self.hint().0 == #[trigger] self.elems(g).len(),
    {
        proof {
            use_type_invariant(self);
        }
        match &self.iter {
            None => Err(IterError::Consumed),
            Some(b) => {
                if !b.kind.is_exact_size() {
                    return Err(unsupported_error("len", "ExactSize"));
                }
                let n = b.pipe.len();
                Ok(n as i64)
            },
        }
    }

    /// Consumes the iterator, returning its elements as a list.
    pub fn collect<F: Fn(u64, Vec<ZVal>) -> ZVal>(&mut self, call: &F) -> (r: Result<Vec<ZVal>, IterError>)
        requires
            callable(*call),
        ensures
            !old(self).present() ==> r == Err::<Vec<ZVal>, IterError>(IterError::Consumed) && *final(self)
                == *old(self),
            old(self).present() ==> r is Ok && final(self).present() && final(self).kind() == old(self).kind()
                && Self::inspected_run(old(self).inspection(), final(self).inspection(), views(r->Ok_0@))
                && Self::skipping_run(old(self).skipping(), final(self).skipping(), views(r->Ok_0@)),
            forall|g: Callbacks| #[trigger] agrees(*call, g) ==> (r matches Ok(v) ==> views(v@) == old(self).elems(g) && final(self).elems(g).len() == 0),
    {
        match self.take_box() {
            None => Err(IterError::Consumed),
            Some(mut b) => {
                let r = collect_pipe(&mut b.pipe, call);
                proof {
                    lemma_run_reported(old(self).iter->0.pipe, b.pipe, views(r@));
                }
                self.put_box(b);
                Ok(r)
            },
        }
    }

    /// Consumes the iterator, appending its elements to `collection`.
    pub fn collect_into<F: Fn(u64, Vec<ZVal>) -> ZVal>(&mut self, collection: &mut Vec<ZVal>, call: &F) -> (r:
        Result<(), IterError>)
        requires
            callable(*call),
        ensures
            old(self).present() ==> exists|taken: Seq<Value>| #[trigger] Self::run_reported(*old(self), *final(self), taken)
                && forall|g: Callbacks| #[trigger] agrees(*call, g) ==> taken + final(self).elems(g) == old(self).elems(g),
            !old(self).present() ==> r == Err::<(), IterError>(IterError::Consumed) && *final(self) == *old(self)
                && final(collection)@ == old(collection)@,
            old(self).present() ==> r is Ok && final(self).present() && final(self).kind() == old(self).kind(),
            forall|g: Callbacks| #[trigger] agrees(*call, g) ==> (r is Ok ==> views(final(collection)@) == views(
                old(collection)@,
            ) + old(self).elems(g) && final(self).elems(g).len() == 0),
    {
        match self.take_box() {
            None => Err(IterError::Consumed),
            Some(mut b) => {
                let mut items = collect_pipe(&mut b.pipe, call);
                let ghost taken = views(items@);
                proof {
                    lemma_run_reported(old(self).iter->0.pipe, b.pipe, taken);
                }
                self.put_box(b);
                proof {
                    assert(Self::run_reported(*old(self), *self, taken));
                    assert forall|g: Callbacks| #[trigger] agrees(*call, g) implies taken + self.elems(g) == old(self).elems(g) by {
                        assert(taken + self.elems(g) =~= taken);
                    }
                }
                let ghost c0 = collection@;
                let ghost i0 = items@;
                collection.append(&mut items);
                assert(views(collection@) =~= views(c0) + views(i0));
                Ok(())
            },
        }
    }

    /// Calls the callback on each element, in order, consuming the iterator;
    /// `log` records the calls.
    pub fn for_each<F: Fn(u64, Vec<ZVal>) -> ZVal>(
        &mut self,
        callback: ZCallable,
        call: &F,
        log: &mut CallLog,
    ) -> (r: Result<(), IterError>)
        requires
            callable(*call),
        ensures
            old(self).present() ==> exists|taken: Seq<Value>| #[trigger] Self::run_reported(*old(self), *final(self), taken)
                && forall|g: Callbacks| #[trigger] agrees(*call, g) ==> taken == old(self).elems(g),
            !old(self).present() ==> r == Err::<(), IterError>(IterError::Consumed) && *final(self) == *old(self)
                && final(log).entries() == old(log).entries(),
            old(self).present() ==> r is Ok && final(self).present() && final(self).kind() == old(self).kind(),
            forall|g: Callbacks| #[trigger] agrees(*call, g) ==> (r is Ok ==> final(self).elems(g).len() == 0
                && final(log).entries() == old(log).entries() + calls_on(callback.id, old(self).elems(g))),
    {
        match self.take_box() {
            None => Err(IterError::Consumed),
            Some(mut b) => {
                for_each_pipe(&mut b.pipe, callback.id, call, log);
                let ghost taken = choose|taken: Seq<Value>| #[trigger] run_logged(old(self).iter->0.pipe, b.pipe, taken)
                    && forall|g: Callbacks| #[trigger] agrees(*call, g) ==> taken == old(self).iter->0.pipe.elems(g);
                proof {
                    lemma_run_reported(old(self).iter->0.pipe, b.pipe, taken);
                }
                self.put_box(b);
                proof {
                    assert(Self::run_reported(*old(self), *self, taken));
                }
                Ok(())
            },
        }
    }

    /// Consumes the iterator, splitting its elements into those the
    /// callback accepts and the others: `[accepted, rejected]`.
    pub fn partition<F: Fn(u64, Vec<ZVal>) -> ZVal>(&mut self, callback: ZCallable, call: &F, log: &mut CallLog) -> (r: Result<
        ZVal,
        IterError,
    >)
        requires
            callable(*call),
        ensures
            old(self).present() ==> exists|taken: Seq<Value>| #[trigger] Self::run_reported(*old(self), *final(self), taken)
                && forall|g: Callbacks| #[trigger] agrees(*call, g) ==> taken == old(self).elems(g),
            !old(self).present() ==> r == Err::<ZVal, IterError>(IterError::Consumed) && *final(self) == *old(self) && final(log).entries() == old(log).entries(),
            old(self).present() ==> r is Ok && final(self).present() && final(self).kind() == old(self).kind(),
            forall|g: Callbacks| #[trigger] agrees(*call, g) ==> (r matches Ok(v) ==> final(self).elems(g).len() == 0
                && v@ == list_of(
                seq![
                    list_of(old(self).elems(g).filter(match_fn(g, Test::Callback(callback.id), true))),
                    list_of(old(self).elems(g).filter(match_fn(g, Test::Callback(callback.id), false))),
                ],
            ) && final(log).entries() == old(log).entries() + calls_on(callback.id, old(self).elems(g))),
    {
        match self.take_box() {
            None => Err(IterError::Consumed),
            Some(mut b) => {
                let (yes, no) = partition_pipe(&mut b.pipe, Test::Callback(callback.id), call, log);
                let ghost taken = choose|taken: Seq<Value>| #[trigger] run_logged(old(self).iter->0.pipe, b.pipe, taken)
                    && forall|g: Callbacks| #[trigger] agrees(*call, g) ==> taken == old(self).iter->0.pipe.elems(g);
                proof {
                    lemma_run_reported(old(self).iter->0.pipe, b.pipe, taken);
                }
                self.put_box(b);
                proof {
                    assert(Self::run_reported(*old(self), *self, taken));
                }
                let y = list_val(yes);
                let n = list_val(no);
                let ghost yv = y@;
                let ghost nv = n@;
                let both = vec![y, n];
                assert(views(both@) =~= seq![yv, nv]);
                Ok(list_val(both))
            },
        }
    }

    /// Folds every element into an accumulator with the callback,
    /// `callback(accumulator, element)`, starting from `initial`.
    pub fn fold<F: Fn(u64, Vec<ZVal>) -> ZVal>(&mut self, initial: &ZVal, callback: ZCallable, call: &F, log: &mut CallLog) -> (r:
        Result<ZVal, IterError>)
        requires
            callable(*call),
        ensures
            old(self).present() ==> exists|taken: Seq<Value>| #[trigger] Self::run_reported(*old(self), *final(self), taken)
                && forall|g: Callbacks| #[trigger] agrees(*call, g) ==> taken == old(self).elems(g),
            !old(self).present() ==> r == Err::<ZVal, IterError>(IterError::Consumed) && *final(self) == *old(self) && final(log).entries() == old(log).entries(),
            old(self).present() ==> r is Ok && final(self).present() && final(self).kind() == old(self).kind(),
            forall|g: Callbacks| #[trigger] agrees(*call, g) ==> (r matches Ok(v) ==> final(self).elems(g).len() == 0
                && v@ == fold_seq(old(self).elems(g), initial@, g, callback.id) && final(log).entries()
                == old(log).entries() + fold_calls(old(self).elems(g), initial@, g, callback.id)),
    {
        match self.take_box() {
            None => Err(IterError::Consumed),
            Some(mut b) => {
                let r = fold_pipe(&mut b.pipe, initial.clone_val(), callback.id, call, log);
                let ghost taken = choose|taken: Seq<Value>| #[trigger] run_logged(old(self).iter->0.pipe, b.pipe, taken)
                    && forall|g: Callbacks| #[trigger] agrees(*call, g) ==> taken == old(self).iter->0.pipe.elems(g);
                proof {
                    lemma_run_reported(old(self).iter->0.pipe, b.pipe, taken);
                }
                self.put_box(b);
                proof {
                    assert(Self::run_reported(*old(self), *self, taken));
                }
                Ok(r)
            },
        }
    }

    /// Folds from the back; only for double-ended iterators.
    pub fn rfold<F: Fn(u64, Vec<ZVal>) -> ZVal>(&mut self, initial: &ZVal, callback: ZCallable, call: &F, log: &mut CallLog) -> (r:
        Result<ZVal, IterError>)
        requires
            callable(*call),
        ensures
            r is Ok ==> exists|taken: Seq<Value>| #[trigger] Self::back_run_reported(*old(self), *final(self), taken)
                && forall|g: Callbacks| #[trigger] agrees(*call, g) ==> final(self).elems(g) + taken.reverse() == old(self).elems(g),
            !old(self).present() ==> r == Err::<ZVal, IterError>(IterError::Consumed) && *final(self) == *old(self) && final(log).entries() == old(log).entries(),
            old(self).present() && !old(self).kind().double_ended() ==> *final(self) == *old(self) && (r is Err && unsupported(r->Err_0, "rfold"@, "DoubleEnded"@)) && final(log).entries() == old(log).entries(),
            old(self).present() && old(self).kind().double_ended() ==> r is Ok && final(self).present()
                && final(self).kind() == old(self).kind(),
            forall|g: Callbacks| #[trigger] agrees(*call, g) ==> (r matches Ok(v) ==> final(self).elems(g).len() == 0
                && v@ == rfold_seq(old(self).elems(g), initial@, g, callback.id) && final(log).entries()
                == old(log).entries() + rfold_calls(old(self).elems(g), initial@, g, callback.id)),
    {
        match self.take_box() {
            None => Err(IterError::Consumed),
            Some(mut b) => {
                if !b.kind.is_double_ended() {
                    self.put_box(b);
                    return Err(unsupported_error("rfold", "DoubleEnded"));
                }
                let r = rfold_pipe(&mut b.pipe, initial.clone_val(), callback.id, call, log);
                let ghost taken = choose|taken: Seq<Value>| #[trigger] run_logged_back(old(self).iter->0.pipe, b.pipe, taken)
                    && forall|g: Callbacks| #[trigger] agrees(*call, g) ==> b.pipe.elems(g) + taken.reverse() == old(self).iter->0.pipe.elems(g);
                proof {
                    lemma_back_run_reported(old(self).iter->0.pipe, b.pipe, taken);
                }
                self.put_box(b);
                proof {
                    assert(Self::back_run_reported(*old(self), *self, taken));
                }
                Ok(r)
            },
        }
    }

    /// Reduces the elements to one with the callback; `None` when empty.
    pub fn reduce<F: Fn(u64, Vec<ZVal>) -> ZVal>(&mut self, callback: ZCallable, call: &F, log: &mut CallLog) -> (r: Result<
        Option<ZVal>,
        IterError,
    >)
        requires
            callable(*call),
        ensures
            old(self).present() ==> exists|taken: Seq<Value>| #[trigger] Self::run_reported(*old(self), *final(self), taken)
                && forall|g: Callbacks| #[trigger] agrees(*call, g) ==> taken + final(self).elems(g) == old(self).elems(g),
            !old(self).present() ==> r == Err::<Option<ZVal>, IterError>(IterError::Consumed) && *final(self)
                == *old(self) && final(log).entries() == old(log).entries(),
            old(self).present() ==> r is Ok && final(self).present() && final(self).kind() == old(self).kind(),
            forall|g: Callbacks| #[trigger] agrees(*call, g) ==> (r matches Ok(o) ==> final(self).elems(g).len() == 0
                && match o {
                None => old(self).elems(g).len() == 0,
                Some(v) => old(self).elems(g).len() > 0 && v@ == fold_seq(
                    old(self).elems(g).drop_first(),
                    old(self).elems(g)[0],
                    g,
                    callback.id,
                ),
            } && final(log).entries() == old(log).entries() + reduce_calls(old(self).elems(g), g, callback.id)),
    {
        match self.take_box() {
            None => Err(IterError::Consumed),
            Some(mut b) => {
                let r = reduce_pipe(&mut b.pipe, callback.id, call, log);
                let ghost taken = choose|taken: Seq<Value>| #[trigger] run_logged(old(self).iter->0.pipe, b.pipe, taken)
                    && forall|g: Callbacks| #[trigger] agrees(*call, g) ==> taken + b.pipe.elems(g) == old(self).iter->0.pipe.elems(g);
                proof {
                    lemma_run_reported(old(self).iter->0.pipe, b.pipe, taken);
                }
                self.put_box(b);
                proof {
                    assert(Self::run_reported(*old(self), *self, taken));
                }
                Ok(r)
            },
        }
    }

    /// Whether the callback returns `true` for every element; stops at the first that fails.
    pub fn all<F: Fn(u64, Vec<ZVal>) -> ZVal>(&mut self, callback: ZCallable, call: &F, log: &mut CallLog) -> (r: Result<
        bool,
        IterError,
    >)
        requires
            callable(*call),
        ensures
            old(self).present() ==> exists|taken: Seq<Value>| #[trigger] Self::run_reported(*old(self), *final(self), taken)
                && forall|g: Callbacks| #[trigger] agrees(*call, g) ==> taken + final(self).elems(g) == old(self).elems(g),
            !old(self).present() ==> r == Err::<bool, IterError>(IterError::Consumed) && *final(self) == *old(self) && final(log).entries() == old(log).entries(),
            old(self).present() ==> r is Ok && final(self).present() && final(self).kind() == old(self).kind(),
            forall|g: Callbacks| #[trigger] agrees(*call, g) ==> (r matches Ok(b) ==> {
                let s = old(self).elems(g);
                let i = first_index(s, match_fn(g, Test::Callback(callback.id), false));
                &&& final(log).entries() == old(log).entries() + calls_on(callback.id, take_n(s, i + 1))
                &&& b == (i == s.len())
                &&& final(self).elems(g) == drop_n(s, i + 1)
            }),
    {
        match self.take_box() {
            None => Err(IterError::Consumed),
            Some(mut b) => {
                let r = search_pipe(&mut b.pipe, Test::Callback(callback.id), false, call, log);
                let ghost taken = choose|taken: Seq<Value>| #[trigger] run_logged(old(self).iter->0.pipe, b.pipe, taken)
                    && forall|g: Callbacks| #[trigger] agrees(*call, g) ==> taken + b.pipe.elems(g) == old(self).iter->0.pipe.elems(g);
                proof {
                    lemma_run_reported(old(self).iter->0.pipe, b.pipe, taken);
                }
                self.put_box(b);
                proof {
                    assert(Self::run_reported(*old(self), *self, taken));
                }
                Ok(r.is_none())
            },
        }
    }

    /// Whether the callback returns `true` for some element; stops at the first that passes.
    pub fn any<F: Fn(u64, Vec<ZVal>) -> ZVal>(&mut self, callback: ZCallable, call: &F, log: &mut CallLog) -> (r: Result<
        bool,
        IterError,
    >)
        requires
            callable(*call),
        ensures
            old(self).present() ==> exists|taken: Seq<Value>| #[trigger] Self::run_reported(*old(self), *final(self), taken)
                && forall|g: Callbacks| #[trigger] agrees(*call, g) ==> taken + final(self).elems(g) == old(self).elems(g),
            !old(self).present() ==> r == Err::<bool, IterError>(IterError::Consumed) && *final(self) == *old(self) && final(log).entries() == old(log).entries(),
            old(self).present() ==> r is Ok && final(self).present() && final(self).kind() == old(self).kind(),
            forall|g: Callbacks| #[trigger] agrees(*call, g) ==> (r matches Ok(b) ==> {
                let s = old(self).elems(g);
                let i = first_index(s, match_fn(g, Test::Callback(callback.id), true));
                &&& final(log).entries() == old(log).entries() + calls_on(callback.id, take_n(s, i + 1))
                &&& b == (i < s.len())
                &&& final(self).elems(g) == drop_n(s, i + 1)
            }),
    {
        match self.take_box() {
            None => Err(IterError::Consumed),
            Some(mut b) => {
                let r = search_pipe(&mut b.pipe, Test::Callback(callback.id), true, call, log);
                let ghost taken = choose|taken: Seq<Value>| #[trigger] run_logged(old(self).iter->0.pipe, b.pipe, taken)
                    && forall|g: Callbacks| #[trigger] agrees(*call, g) ==> taken + b.pipe.elems(g) == old(self).iter->0.pipe.elems(g);
                proof {
                    lemma_run_reported(old(self).iter->0.pipe, b.pipe, taken);
                }
                self.put_box(b);
                proof {
                    assert(Self::run_reported(*old(self), *self, taken));
                }
                Ok(r.is_some())
            },
        }
    }

    /// The first element for which the callback returns `true`.
    pub fn find<F: Fn(u64, Vec<ZVal>) -> ZVal>(&mut self, callback: ZCallable, call: &F, log: &mut CallLog) -> (r: Result<
        Option<ZVal>,
        IterError,
    >)
        requires
            callable(*call),
        ensures
            old(self).present() ==> exists|taken: Seq<Value>| #[trigger] Self::run_reported(*old(self), *final(self), taken)
                && forall|g: Callbacks| #[trigger] agrees(*call, g) ==> taken + final(self).elems(g) == old(self).elems(g),
            !old(self).present() ==> r == Err::<Option<ZVal>, IterError>(IterError::Consumed) && *final(self)
                == *old(self) && final(log).entries() == old(log).entries(),
            old(self).present() ==> r is Ok && final(self).present() && final(self).kind() == old(self).kind(),
            forall|g: Callbacks| #[trigger] agrees(*call, g) ==> (r matches Ok(o) ==> {
                let s = old(self).elems(g);
                let i = first_index(s, match_fn(g, Test::Callback(callback.id), true));
                &&& final(log).entries() == old(log).entries() + calls_on(callback.id, take_n(s, i + 1))
                &&& final(self).elems(g) == drop_n(s, i + 1)
                &&& match o {
                    None => i == s.len(),
                    Some(v) => i < s.len() && v@ == s[i],
                }
            }),
    {
        match self.take_box() {
            None => Err(IterError::Consumed),
            Some(mut b) => {
                let r = search_pipe(&mut b.pipe, Test::Callback(callback.id), true, call, log);
                let ghost taken = choose|taken: Seq<Value>| #[trigger] run_logged(old(self).iter->0.pipe, b.pipe, taken)
                    && forall|g: Callbacks| #[trigger] agrees(*call, g) ==> taken + b.pipe.elems(g) == old(self).iter->0.pipe.elems(g);
                proof {
                    lemma_run_reported(old(self).iter->0.pipe, b.pipe, taken);
                }
                self.put_box(b);
                proof {
                    assert(Self::run_reported(*old(self), *self, taken));
                }
                match r {
                    None => Ok(None),
                    Some((_, v)) => Ok(Some(v)),
                }
            },
        }
    }

    /// The first result of the callback that is not `null`.
    pub fn find_map<F: Fn(u64, Vec<ZVal>) -> ZVal>(&mut self, callback: ZCallable, call: &F, log: &mut CallLog) -> (r: Result<
        Option<ZVal>,
        IterError,
    >)
        requires
            callable(*call),
        ensures
            old(self).present() ==> exists|taken: Seq<Value>| #[trigger] Self::run_reported(*old(self), *final(self), taken)
                && forall|g: Callbacks| #[trigger] agrees(*call, g) ==> taken + final(self).elems(g) == old(self).elems(g),
            !old(self).present() ==> r == Err::<Option<ZVal>, IterError>(IterError::Consumed) && *final(self)
                == *old(self) && final(log).entries() == old(log).entries(),
            old(self).present() ==> r is Ok && final(self).present() && final(self).kind() == old(self).kind(),
            forall|g: Callbacks| #[trigger] agrees(*call, g) ==> (r matches Ok(o) ==> {
                let s = old(self).elems(g);
                let i = first_index(s, maps_fn(g, callback.id));
                &&& final(log).entries() == old(log).entries() + calls_on(callback.id, take_n(s, i + 1))
                &&& final(self).elems(g) == drop_n(s, i + 1)
                &&& match o {
                    None => i == s.len(),
                    Some(v) => i < s.len() && v@ == g(callback.id, seq![s[i]]),
                }
            }),
    {
        match self.take_box() {
            None => Err(IterError::Consumed),
            Some(mut b) => {
                let r = find_map_pipe(&mut b.pipe, callback.id, call, log);
                let ghost taken = choose|taken: Seq<Value>| #[trigger] run_logged(old(self).iter->0.pipe, b.pipe, taken)
                    && forall|g: Callbacks| #[trigger] agrees(*call, g) ==> taken + b.pipe.elems(g) == old(self).iter->0.pipe.elems(g);
                proof {
                    lemma_run_reported(old(self).iter->0.pipe, b.pipe, taken);
                }
                self.put_box(b);
                proof {
                    assert(Self::run_reported(*old(self), *self, taken));
                }
                Ok(r)
            },
        }
    }

    /// The index of the first element for which the callback returns `true`.
    pub fn position<F: Fn(u64, Vec<ZVal>) -> ZVal>(&mut self, callback: ZCallable, call: &F, log: &mut CallLog) -> (r: Result<
        Option<i64>,
        IterError,
    >)
        requires
            callable(*call),
        ensures
            old(self).present() ==> exists|taken: Seq<Value>| #[trigger] Self::run_reported(*old(self), *final(self), taken)
                && forall|g: Callbacks| #[trigger] agrees(*call, g) ==> taken + final(self).elems(g) == old(self).elems(g),
            !old(self).present() ==> r == Err::<Option<i64>, IterError>(IterError::Consumed) && *final(self)
                == *old(self) && final(log).entries() == old(log).entries(),
            old(self).present() ==> r is Ok && final(self).present() && final(self).kind() == old(self).kind(),
            forall|g: Callbacks| #[trigger] agrees(*call, g) ==> (r matches Ok(o) ==> {
                let s = old(self).elems(g);
                let i = first_index(s, match_fn(g, Test::Callback(callback.id), true));
                &&& final(log).entries() == old(log).entries() + calls_on(callback.id, take_n(s, i + 1))
                &&& final(self).elems(g) == drop_n(s, i + 1)
                &&& match o {
                    None => i == s.len(),
                    Some(n) => i < s.len() && n == wrap(i) as i64,
                }
            }),
    {
        match self.take_box() {
            None => Err(IterError::Consumed),
            Some(mut b) => {
                let r = search_pipe(&mut b.pipe, Test::Callback(callback.id), true, call, log);
                let ghost taken = choose|taken: Seq<Value>| #[trigger] run_logged(old(self).iter->0.pipe, b.pipe, taken)
                    && forall|g: Callbacks| #[trigger] agrees(*call, g) ==> taken + b.pipe.elems(g) == old(self).iter->0.pipe.elems(g);
                proof {
                    lemma_run_reported(old(self).iter->0.pipe, b.pipe, taken);
                }
                self.put_box(b);
                proof {
                    assert(Self::run_reported(*old(self), *self, taken));
                }
                match r {
                    None => Ok(None),
                    Some((n, _)) => Ok(Some(n as i64)),
                }
            },
        }
    }

    /// The index of the last element for which the callback returns `true`,
    /// searching from the back; only for double-ended exact-size iterators.
    pub fn rposition<F: Fn(u64, Vec<ZVal>) -> ZVal>(&mut self, callback: ZCallable, call: &F, log: &mut CallLog) -> (r: Result<
        Option<i64>,
        IterError,
    >)
        requires
            callable(*call),
        ensures
            r is Ok ==> exists|taken: Seq<Value>| #[trigger] Self::back_run_reported(*old(self), *final(self), taken)
                && forall|g: Callbacks| #[trigger] agrees(*call, g) ==> final(self).elems(g) + taken.reverse() == old(self).elems(g),
            !old(self).present() ==> r == Err::<Option<i64>, IterError>(IterError::Consumed) && *final(self)
                == *old(self) && final(log).entries() == old(log).entries(),
            old(self).present() && old(self).kind() != IterKind::DoubleEndedExactSize ==> *final(self) == *old(self)
                && (r is Err && unsupported(r->Err_0, "rposition"@, "DoubleEndedExactSize"@)) && final(log).entries() == old(log).entries(),
            old(self).present() && old(self).kind() == IterKind::DoubleEndedExactSize ==> r is Ok && final(self).present() && final(self).kind() == old(self).kind(),
            forall|g: Callbacks| #[trigger] agrees(*call, g) ==> (r matches Ok(o) ==> {
                let s = old(self).elems(g);
                let j = last_index(s, match_fn(g, Test::Callback(callback.id), true));
                &&& final(log).entries() == old(log).entries() + calls_on(
                    callback.id,
                    s.subrange(if j < 0 { 0 } else { j }, s.len() as int).reverse(),
                )
                &&& match o {
                    None => j == -1 && final(self).elems(g).len() == 0,
                    Some(n) => 0 <= j && n == j as i64 && final(self).elems(g) == s.subrange(0, j),
                }
            }),
    {
        match self.take_box() {
            None => Err(IterError::Consumed),
            Some(mut b) => {
                match b.kind {
                    IterKind::DoubleEndedExactSize => {},
                    _ => {
                        self.put_box(b);
                        return Err(unsupported_error("rposition", "DoubleEndedExactSize"));
                    },
                }
                let len = b.pipe.len();
                let r = rsearch_pipe(&mut b.pipe, Test::Callback(callback.id), true, call, log);
                let ghost taken = choose|taken: Seq<Value>| #[trigger] run_logged_back(old(self).iter->0.pipe, b.pipe, taken)
                    && forall|g: Callbacks| #[trigger] agrees(*call, g) ==> b.pipe.elems(g) + taken.reverse() == old(self).iter->0.pipe.elems(g);
                proof {
                    lemma_back_run_reported(old(self).iter->0.pipe, b.pipe, taken);
                }
                self.put_box(b);
                proof {
                    assert(Self::back_run_reported(*old(self), *self, taken));
                }
                match r {
                    None => Ok(None),
                    Some((n, _)) => Ok(Some((len - 1 - n) as i64)),
                }
            },
        }
    }

    /// The last element for which the callback returns `true`, searching
    /// from the back; only for double-ended iterators.
    pub fn rfind<F: Fn(u64, Vec<ZVal>) -> ZVal>(&mut self, callback: ZCallable, call: &F, log: &mut CallLog) -> (r: Result<
        Option<ZVal>,
        IterError,
    >)
        requires
            callable(*call),
        ensures
            r is Ok ==> exists|taken: Seq<Value>| #[trigger] Self::back_run_reported(*old(self), *final(self), taken)
                && forall|g: Callbacks| #[trigger] agrees(*call, g) ==> final(self).elems(g) + taken.reverse() == old(self).elems(g),
            !old(self).present() ==> r == Err::<Option<ZVal>, IterError>(IterError::Consumed) && *final(self)
                == *old(self) && final(log).entries() == old(log).entries(),
            old(self).present() && !old(self).kind().double_ended() ==> *final(self) == *old(self) && (r is Err && unsupported(r->Err_0, "rfind"@, "DoubleEnded"@)) && final(log).entries() == old(log).entries(),
            old(self).present() && old(self).kind().double_ended() ==> r is Ok && final(self).present()
                && final(self).kind() == old(self).kind(),
            forall|g: Callbacks| #[trigger] agrees(*call, g) ==> (r matches Ok(o) ==> {
                let s = old(self).elems(g);
                let j = last_index(s, match_fn(g, Test::Callback(callback.id), true));
                &&& final(log).entries() == old(log).entries() + calls_on(
                    callback.id,
                    s.subrange(if j < 0 { 0 } else { j }, s.len() as int).reverse(),
                )
                &&& match o {
                    None => j == -1 && final(self).elems(g).len() == 0,
                    Some(v) => 0 <= j && v@ == s[j] && final(self).elems(g) == s.subrange(0, j),
                }
            }),
    {
        match self.take_box() {
            None => Err(IterError::Consumed),
            Some(mut b) => {
                if !b.kind.is_double_ended() {
                    self.put_box(b);
                    return Err(unsupported_error("rfind", "DoubleEnded"));
                }
                let r = rsearch_pipe(&mut b.pipe, Test::Callback(callback.id), true, call, log);
                let ghost taken = choose|taken: Seq<Value>| #[trigger] run_logged_back(old(self).iter->0.pipe, b.pipe, taken)
                    && forall|g: Callbacks| #[trigger] agrees(*call, g) ==> b.pipe.elems(g) + taken.reverse() == old(self).iter->0.pipe.elems(g);
                proof {
                    lemma_back_run_reported(old(self).iter->0.pipe, b.pipe, taken);
                }
                self.put_box(b);
                proof {
                    assert(Self::back_run_reported(*old(self), *self, taken));
                }
                match r {
                    None => Ok(None),
                    Some((_, v)) => Ok(Some(v)),
                }
            },
        }
    }

    /// Takes the pipeline out for an adapter, or fails with `Moved`.
    fn adapt(&mut self) -> (r: Result<IterBox, IterError>)
        ensures
            !final(self).present(),
            old(self).iter is None ==> r == Err::<IterBox, IterError>(IterError::Moved),
            old(self).iter matches Some(b) ==> r == Ok::<IterBox, IterError>(b) && b.wf(),
    {
        match self.take_box() {
            None => Err(IterError::Moved),
            Some(b) => Ok(b),
        }
    }

    /// An iterator starting at the same point but stepping by `step`: the
    /// first element, then every `step`-th one.
    pub fn step_by(&mut self, step: i64) -> (r: Result<(), IterError>)
        requires
            step == 0 || step as usize != 0,
        ensures
            step == 0 ==> *final(self) == *old(self) && (r matches Err(IterError::ArgumentError(m))
                && m@ == "Step must be greater than 0, 0 given"@),
            step != 0 && !old(self).present() ==> r == Err::<(), IterError>(IterError::Moved) && !final(self).present(),
            step != 0 && old(self).present() ==> r is Ok && final(self).present() && final(self).kind() == old(self).kind().counted() && forall|g: Callbacks| #[trigger] final(self).elems(g) == step_seq(
                old(self).elems(g),
                (step as usize) as int,
                true,
            ),
    {
        if step == 0 {
            return Err(IterError::ArgumentError("Step must be greater than 0, 0 given".to_string()));
        }
        let b = self.adapt()?;
        let s = step as usize;
        let kind = b.kind.counted_kind();
        self.put_box(IterBox { kind, pipe: Pipe::Stepping(Box::new(b.pipe), s - 1, true) });
        Ok(())
    }

    /// Fails like `chain` or `zip` do when the other iterator cannot be had:
    /// this iterator is handed on all the same, and the error is `e` (or
    /// `Moved` if there was no iterator to hand on).
    pub fn reject_other(&mut self, e: IterError) -> (r: Result<(), IterError>)
        ensures
            !final(self).present(),
            !old(self).present() ==> r == Err::<(), IterError>(IterError::Moved),
            old(self).present() ==> r == Err::<(), IterError>(e),
    {
        let _ = self.adapt()?;
        Err(e)
    }

    /// The elements of this iterator, then those of `other`; `other` is handed on.
    pub fn chain(&mut self, other: &mut ArrayIterator) -> (r: Result<(), IterError>)
        ensures
            !old(self).present() ==> r == Err::<(), IterError>(IterError::Moved) && !final(self).present()
                && *final(other) == *old(other),
            old(self).present() && !old(other).present() ==> !final(self).present() && !final(other).present()
                && (r matches Err(IterError::Other(m)) && m@ == "Iterator is not valid"@),
            old(self).present() && old(other).present() ==> r is Ok && final(self).present() && !final(other).present() && final(self).kind() == old(self).kind().chained(old(other).kind()) && forall|
                g: Callbacks,
            | #[trigger] final(self).elems(g) == old(self).elems(g) + old(other).elems(g),
    {
        let b = self.adapt()?;
        let ob = match other.take_box() {
            None => {
                return Err(IterError::Other("Iterator is not valid".to_string()));
            },
            Some(ob) => ob,
        };
        let kind = b.kind.chained_kind(ob.kind);
        self.put_box(
            IterBox { kind, pipe: Pipe::Chained(Some(Box::new(b.pipe)), Some(Box::new(ob.pipe))) },
        );
        Ok(())
    }

    /// Pairs `[x, y]` of the elements of this iterator and of `other`, as long
    /// as both have one; `other` is handed on.
    pub fn zip(&mut self, other: &mut ArrayIterator) -> (r: Result<(), IterError>)
        ensures
            !old(self).present() ==> r == Err::<(), IterError>(IterError::Moved) && !final(self).present()
                && *final(other) == *old(other),
            old(self).present() && !old(other).present() ==> !final(self).present() && !final(other).present()
                && (r matches Err(IterError::Other(m)) && m@ == "Iterator is not valid"@),
            old(self).present() && old(other).present() ==> r is Ok && final(self).present() && !final(other).present() && final(self).kind() == old(self).kind().zipped(old(other).kind()) && forall|
                g: Callbacks,
            | #[trigger] final(self).elems(g) == zip_seq(old(self).elems(g), old(other).elems(g)),
    {
        let b = self.adapt()?;
        let ob = match other.take_box() {
            None => {
                return Err(IterError::Other("Iterator is not valid".to_string()));
            },
            Some(ob) => ob,
        };
        let kind = b.kind.zipped_kind(ob.kind);
        self.put_box(IterBox { kind, pipe: Pipe::Zipped(Box::new(b.pipe), Box::new(ob.pipe)) });
        Ok(())
    }

    /// Each element replaced by what the callback returns for it.
    pub fn map(&mut self, callback: ZCallable) -> (r: Result<(), IterError>)
        ensures
            !old(self).present() ==> r == Err::<(), IterError>(IterError::Moved) && !final(self).present(),
            old(self).present() ==> r is Ok && final(self).present() && final(self).kind() == old(self).kind()
                && forall|g: Callbacks| #[trigger] final(self).elems(g) == map_seq(old(self).elems(g), g, callback.id),
    {
        let b = self.adapt()?;
        self.put_box(IterBox { kind: b.kind, pipe: Pipe::Mapped(Box::new(b.pipe), callback.id) });
        Ok(())
    }

    /// The elements for which the callback returns `true`.
    pub fn filter(&mut self, callback: ZCallable) -> (r: Result<(), IterError>)
        ensures
            !old(self).present() ==> r == Err::<(), IterError>(IterError::Moved) && !final(self).present(),
            old(self).present() ==> r is Ok && final(self).present() && final(self).kind() == old(self).kind().uncounted()
                && forall|g: Callbacks| #[trigger] final(self).elems(g) == filter_seq(
                old(self).elems(g),
                g,
                Test::Callback(callback.id),
            ),
    {
        let b = self.adapt()?;
        let kind = b.kind.uncounted_kind();
        self.put_box(IterBox { kind, pipe: Pipe::Filtered(Box::new(b.pipe), Test::Callback(callback.id)) });
        Ok(())
    }

    /// The results of the callback that are not `null`.
    pub fn filter_map(&mut self, callback: ZCallable) -> (r: Result<(), IterError>)
        ensures
            !old(self).present() ==> r == Err::<(), IterError>(IterError::Moved) && !final(self).present(),
            old(self).present() ==> r is Ok && final(self).present() && final(self).kind() == old(self).kind().uncounted()
                && forall|g: Callbacks| #[trigger] final(self).elems(g) == filter_seq(
                map_seq(old(self).elems(g), g, callback.id),
                g,
                Test::NotNull,
            ),
    {
        let b = self.adapt()?;
        let kind = b.kind.uncounted_kind();
        let mapped = Pipe::Mapped(Box::new(b.pipe), callback.id);
        assert(mapped.wf() && mapped.back_ok() == b.pipe.back_ok());
        assert(forall|g: Callbacks| #[trigger] mapped.elems(g) == map_seq(b.pipe.elems(g), g, callback.id));
        let ghost mp = mapped;
        let nb = IterBox { kind, pipe: Pipe::Filtered(Box::new(mapped), Test::NotNull) };
        assert(forall|g: Callbacks| #[trigger] nb.pipe.elems(g) == filter_seq(mp.elems(g), g, Test::NotNull));
        self.put_box(nb);
        Ok(())
    }

    /// Pairs `[index, element]`, counting from 0.
    pub fn enumerate(&mut self) -> (r: Result<(), IterError>)
        ensures
            !old(self).present() ==> r == Err::<(), IterError>(IterError::Moved) && !final(self).present(),
            old(self).present() ==> r is Ok && final(self).present() && final(self).kind() == old(self).kind().counted()
                && forall|g: Callbacks| #[trigger] final(self).elems(g) == enum_seq(old(self).elems(g), 0),
    {
        let b = self.adapt()?;
        let kind = b.kind.counted_kind();
        self.put_box(IterBox { kind, pipe: Pipe::Enumerated(Box::new(b.pipe), 0) });
        Ok(())
    }

    /// The elements from the first one for which the callback does not return
    /// `true`. The callback runs on the elements that `next` takes until it
    /// first does not return `true`, and never after: `skipping` records it.
    pub fn skip_while(&mut self, callback: ZCallable) -> (r: Result<(), IterError>)
        ensures
            !old(self).present() ==> r == Err::<(), IterError>(IterError::Moved) && !final(self).present(),
            old(self).present() ==> r is Ok && final(self).present() && final(self).kind() == IterKind::Iterator
                && final(self).skipping() == Some((callback.id, false, Seq::<(u64, Seq<Value>)>::empty()))
                && forall|g: Callbacks| #[trigger] final(self).elems(g) == drop_while_seq(
                old(self).elems(g),
                test_fn(g, Test::Callback(callback.id)),
            ),
    {
        let b = self.adapt()?;
        self.put_box(
            IterBox {
                kind: IterKind::Iterator,
                pipe: Pipe::SkippingWhile(Box::new(b.pipe), Test::Callback(callback.id), false, CallLog::new()),
            },
        );
        Ok(())
    }

    /// The elements before the first one for which the callback does not return `true`.
    pub fn take_while(&mut self, callback: ZCallable) -> (r: Result<(), IterError>)
        ensures
            !old(self).present() ==> r == Err::<(), IterError>(IterError::Moved) && !final(self).present(),
            old(self).present() ==> r is Ok && final(self).present() && final(self).kind() == IterKind::Iterator
                && forall|g: Callbacks| #[trigger] final(self).elems(g) == take_while_seq(
                old(self).elems(g),
                test_fn(g, Test::Callback(callback.id)),
            ),
    {
        let b = self.adapt()?;
        self.put_box(
            IterBox {
                kind: IterKind::Iterator,
                pipe: Pipe::TakingWhile(Box::new(b.pipe), Test::Callback(callback.id), false),
            },
        );
        Ok(())
    }

    /// The results of the callback up to the first `null` one.
    pub fn map_while(&mut self, callback: ZCallable) -> (r: Result<(), IterError>)
        ensures
            !old(self).present() ==> r == Err::<(), IterError>(IterError::Moved) && !final(self).present(),
            old(self).present() ==> r is Ok && final(self).present() && final(self).kind() == IterKind::Iterator
                && forall|g: Callbacks| #[trigger] final(self).elems(g) == take_while_seq(
                map_seq(old(self).elems(g), g, callback.id),
                test_fn(g, Test::NotNull),
            ),
    {
        let b = self.adapt()?;
        let mapped = Pipe::Mapped(Box::new(b.pipe), callback.id);
        assert(mapped.wf());
        assert(forall|g: Callbacks| #[trigger] mapped.elems(g) == map_seq(b.pipe.elems(g), g, callback.id));
        let ghost mp = mapped;
        let nb = IterBox { kind: IterKind::Iterator, pipe: Pipe::TakingWhile(Box::new(mapped), Test::NotNull, false) };
        assert(forall|g: Callbacks| #[trigger] nb.pipe.elems(g) == take_while_seq(mp.elems(g), test_fn(g, Test::NotNull)));
        self.put_box(nb);
        Ok(())
    }

    /// All but the first `n` elements.
    pub fn skip(&mut self, n: i64) -> (r: Result<(), IterError>)
        ensures
            !old(self).present() ==> r == Err::<(), IterError>(IterError::Moved) && !final(self).present(),
            old(self).present() ==> r is Ok && final(self).present() && final(self).kind() == old(self).kind().counted()
                && forall|g: Callbacks| #[trigger] final(self).elems(g) == drop_n(
                old(self).elems(g),
                (n as usize) as int,
            ),
    {
        let b = self.adapt()?;
        let kind = b.kind.counted_kind();
        self.put_box(IterBox { kind, pipe: Pipe::Skipping(Box::new(b.pipe), n as usize) });
        Ok(())
    }

    /// The first `n` elements.
    pub fn take(&mut self, n: i64) -> (r: Result<(), IterError>)
        ensures
            !old(self).present() ==> r == Err::<(), IterError>(IterError::Moved) && !final(self).present(),
            old(self).present() ==> r is Ok && final(self).present() && final(self).kind() == old(self).kind().counted()
                && forall|g: Callbacks| #[trigger] final(self).elems(g) == take_n(
                old(self).elems(g),
                (n as usize) as int,
            ),
    {
        let b = self.adapt()?;
        let kind = b.kind.counted_kind();
        self.put_box(IterBox { kind, pipe: Pipe::Taking(Box::new(b.pipe), n as usize) });
        Ok(())
    }

    /// The values of the arrays that the callback returns, one after the
    /// other (a result that is no array adds nothing).
    pub fn flat_map(&mut self, callback: ZCallable) -> (r: Result<(), IterError>)
        ensures
            !old(self).present() ==> r == Err::<(), IterError>(IterError::Moved) && !final(self).present(),
            old(self).present() ==> r is Ok && final(self).present() && final(self).kind() == old(self).kind().uncounted()
                && forall|g: Callbacks| #[trigger] final(self).elems(g) == flat_seq(
                old(self).elems(g),
                g,
                Expand::Callback(callback.id),
            ),
    {
        let b = self.adapt()?;
        let kind = b.kind.uncounted_kind();
        self.put_box(
            IterBox { kind, pipe: Pipe::Flattening(Some(Box::new(b.pipe)), Expand::Callback(callback.id), None, None) },
        );
        Ok(())
    }

    /// The values of each element that is an array, and each other element itself.
    pub fn flatten(&mut self) -> (r: Result<(), IterError>)
        ensures
            !old(self).present() ==> r == Err::<(), IterError>(IterError::Moved) && !final(self).present(),
            old(self).present() ==> r is Ok && final(self).present() && final(self).kind() == old(self).kind().uncounted()
                && forall|g: Callbacks| #[trigger] final(self).elems(g) == flat_seq(old(self).elems(g), g, Expand::Nested),
    {
        let b = self.adapt()?;
        let kind = b.kind.uncounted_kind();
        self.put_box(IterBox { kind, pipe: Pipe::Flattening(Some(Box::new(b.pipe)), Expand::Nested, None, None) });
        Ok(())
    }

    /// The elements until the first end.
    pub fn fuse(&mut self) -> (r: Result<(), IterError>)
        ensures
            !old(self).present() ==> r == Err::<(), IterError>(IterError::Moved) && !final(self).present(),
            old(self).present() ==> r is Ok && final(self).present() && final(self).kind() == old(self).kind()
                && forall|g: Callbacks| #[trigger] final(self).elems(g) == old(self).elems(g),
    {
        let b = self.adapt()?;
        self.put_box(IterBox { kind: b.kind, pipe: Pipe::Fused(Some(Box::new(b.pipe))) });
        Ok(())
    }

    /// The elements, each passed to the callback on the way: from now on,
    /// each element that `next` or `next_back` takes is first handed to the
    /// callback, and `inspection` records those calls.
    pub fn inspect(&mut self, callback: ZCallable) -> (r: Result<(), IterError>)
        ensures
            !old(self).present() ==> r == Err::<(), IterError>(IterError::Moved) && !final(self).present(),
            old(self).present() ==> r is Ok && final(self).present() && final(self).kind() == old(self).kind()
                && final(self).inspection() == Some((callback.id, Seq::<(u64, Seq<Value>)>::empty()))
                && forall|g: Callbacks| #[trigger] final(self).elems(g) == old(self).elems(g),
    {
        let b = self.adapt()?;
        let log = CallLog::new();
        self.put_box(IterBox { kind: b.kind, pipe: Pipe::Inspected(Box::new(b.pipe), callback.id, log) });
        Ok(())
    }

    /// The elements from the back; only for double-ended iterators (any
    /// other is handed on and lost).
    pub fn rev(&mut self) -> (r: Result<(), IterError>)
        ensures
            !old(self).present() ==> r == Err::<(), IterError>(IterError::Moved) && !final(self).present(),
            old(self).present() && !old(self).kind().double_ended() ==> !final(self).present() && (r is Err
                && unsupported(r->Err_0, "rev"@, "DoubleEnded"@)),
            old(self).present() && old(self).kind().double_ended() ==> r is Ok && final(self).present() && final(self).kind() == old(self).kind() && forall|g: Callbacks| #[trigger] final(self).elems(g) == old(self).elems(
                g,
            ).reverse(),
    {
        let b = self.adapt()?;
        if !b.kind.is_double_ended() {
            return Err(unsupported_error("rev", "DoubleEnded"));
        }
        self.put_box(IterBox { kind: b.kind, pipe: Pipe::Reversed(Box::new(b.pipe)) });
        Ok(())
    }

    /// The greatest element under PHP's ordering; of equally great ones the last.
    pub fn max<F: Fn(u64, Vec<ZVal>) -> ZVal>(&mut self, call: &F) -> (r: Result<Option<ZVal>, IterError>)
        requires
            callable(*call),
        ensures
            old(self).present() ==> exists|taken: Seq<Value>| #[trigger] Self::run_reported(*old(self), *final(self), taken)
                && forall|g: Callbacks| #[trigger] agrees(*call, g) ==> taken + final(self).elems(g) == old(self).elems(g),
            !old(self).present() ==> r == Err::<Option<ZVal>, IterError>(IterError::Consumed) && *final(self)
                == *old(self),
            old(self).present() ==> final(self).present() && final(self).kind() == old(self).kind() && (r is Ok
                || r == Err::<Option<ZVal>, IterError>(IterError::Unorderable)),
            forall|g: Callbacks| #[trigger] agrees(*call, g) ==> old(self).present() ==> (match r {
                Ok(o) => extreme(old(self).elems(g), true) == Some(opt_view(o)) && final(self).elems(g).len() == 0,
                Err(_) => extreme(old(self).elems(g), true) is None,
            }),
    {
        match self.take_box() {
            None => Err(IterError::Consumed),
            Some(mut b) => {
                let r = extreme_pipe(&mut b.pipe, true, call);
                let ghost taken = choose|taken: Seq<Value>| #[trigger] run_logged(old(self).iter->0.pipe, b.pipe, taken)
                    && forall|g: Callbacks| #[trigger] agrees(*call, g) ==> taken + b.pipe.elems(g) == old(self).iter->0.pipe.elems(g);
                proof {
                    lemma_run_reported(old(self).iter->0.pipe, b.pipe, taken);
                }
                self.put_box(b);
                proof {
                    assert(Self::run_reported(*old(self), *self, taken));
                }
                match r {
                    None => Err(IterError::Unorderable),
                    Some(o) => Ok(o),
                }
            },
        }
    }

    /// The least element under PHP's ordering; of equally small ones the first.
    pub fn min<F: Fn(u64, Vec<ZVal>) -> ZVal>(&mut self, call: &F) -> (r: Result<Option<ZVal>, IterError>)
        requires
            callable(*call),
        ensures
            old(self).present() ==> exists|taken: Seq<Value>| #[trigger] Self::run_reported(*old(self), *final(self), taken)
                && forall|g: Callbacks| #[trigger] agrees(*call, g) ==> taken + final(self).elems(g) == old(self).elems(g),
            !old(self).present() ==> r == Err::<Option<ZVal>, IterError>(IterError::Consumed) && *final(self)
                == *old(self),
            old(self).present() ==> final(self).present() && final(self).kind() == old(self).kind() && (r is Ok
                || r == Err::<Option<ZVal>, IterError>(IterError::Unorderable)),
            forall|g: Callbacks| #[trigger] agrees(*call, g) ==> old(self).present() ==> (match r {
                Ok(o) => extreme(old(self).elems(g), false) == Some(opt_view(o)) && final(self).elems(g).len() == 0,
                Err(_) => extreme(old(self).elems(g), false) is None,
            }),
    {
        match self.take_box() {
            None => Err(IterError::Consumed),
            Some(mut b) => {
                let r = extreme_pipe(&mut b.pipe, false, call);
                let ghost taken = choose|taken: Seq<Value>| #[trigger] run_logged(old(self).iter->0.pipe, b.pipe, taken)
                    && forall|g: Callbacks| #[trigger] agrees(*call, g) ==> taken + b.pipe.elems(g) == old(self).iter->0.pipe.elems(g);
                proof {
                    lemma_run_reported(old(self).iter->0.pipe, b.pipe, taken);
                }
                self.put_box(b);
                proof {
                    assert(Self::run_reported(*old(self), *self, taken));
                }
                match r {
                    None => Err(IterError::Unorderable),
                    Some(o) => Ok(o),
                }
            },
        }
    }

    /// The element whose key (what the callback returns for it) is greatest;
    /// of equal ones the last.
    pub fn max_by_key<F: Fn(u64, Vec<ZVal>) -> ZVal>(&mut self, callback: ZCallable, call: &F, log: &mut CallLog) -> (r: Result<
        Option<ZVal>,
        IterError,
    >)
        requires
            callable(*call),
        ensures
            old(self).present() ==> exists|taken: Seq<Value>| #[trigger] Self::run_reported(*old(self), *final(self), taken)
                && forall|g: Callbacks| #[trigger] agrees(*call, g) ==> taken + final(self).elems(g) == old(self).elems(g),
            !old(self).present() ==> r == Err::<Option<ZVal>, IterError>(IterError::Consumed) && *final(self)
                == *old(self) && final(log).entries() == old(log).entries(),
            old(self).present() ==> final(self).present() && final(self).kind() == old(self).kind() && (r is Ok
                || r == Err::<Option<ZVal>, IterError>(IterError::Unorderable)),
            forall|g: Callbacks| #[trigger] agrees(*call, g) ==> old(self).present() ==> (match r {
                Ok(o) => extreme_by_key(old(self).elems(g), g, callback.id, true) == Some(opt_view(o)) && final(self).elems(g).len() == 0
                    && final(log).entries() == old(log).entries() + calls_on(callback.id, old(self).elems(g)),
                Err(_) => extreme_by_key(old(self).elems(g), g, callback.id, true) is None,
            }),
    {
        match self.take_box() {
            None => Err(IterError::Consumed),
            Some(mut b) => {
                let r = extreme_key_pipe(&mut b.pipe, callback.id, true, call, log);
                let ghost taken = choose|taken: Seq<Value>| #[trigger] run_logged(old(self).iter->0.pipe, b.pipe, taken)
                    && forall|g: Callbacks| #[trigger] agrees(*call, g) ==> taken + b.pipe.elems(g) == old(self).iter->0.pipe.elems(g);
                proof {
                    lemma_run_reported(old(self).iter->0.pipe, b.pipe, taken);
                }
                self.put_box(b);
                proof {
                    assert(Self::run_reported(*old(self), *self, taken));
                }
                match r {
                    None => Err(IterError::Unorderable),
                    Some(o) => Ok(o),
                }
            },
        }
    }

    /// The element whose key (what the callback returns for it) is least;
    /// of equal ones the first.
    pub fn min_by_key<F: Fn(u64, Vec<ZVal>) -> ZVal>(&mut self, callback: ZCallable, call: &F, log: &mut CallLog) -> (r: Result<
        Option<ZVal>,
        IterError,
    >)
        requires
            callable(*call),
        ensures
            old(self).present() ==> exists|taken: Seq<Value>| #[trigger] Self::run_reported(*old(self), *final(self), taken)
                && forall|g: Callbacks| #[trigger] agrees(*call, g) ==> taken + final(self).elems(g) == old(self).elems(g),
            !old(self).present() ==> r == Err::<Option<ZVal>, IterError>(IterError::Consumed) && *final(self)
                == *old(self) && final(log).entries() == old(log).entries(),
            old(self).present() ==> final(self).present() && final(self).kind() == old(self).kind() && (r is Ok
                || r == Err::<Option<ZVal>, IterError>(IterError::Unorderable)),
            forall|g: Callbacks| #[trigger] agrees(*call, g) ==> old(self).present() ==> (match r {
                Ok(o) => extreme_by_key(old(self).elems(g), g, callback.id, false) == Some(opt_view(o)) && final(self).elems(g).len() == 0
                    && final(log).entries() == old(log).entries() + calls_on(callback.id, old(self).elems(g)),
                Err(_) => extreme_by_key(old(self).elems(g), g, callback.id, false) is None,
            }),
    {
        match self.take_box() {
            None => Err(IterError::Consumed),
            Some(mut b) => {
                let r = extreme_key_pipe(&mut b.pipe, callback.id, false, call, log);
                let ghost taken = choose|taken: Seq<Value>| #[trigger] run_logged(old(self).iter->0.pipe, b.pipe, taken)
                    && forall|g: Callbacks| #[trigger] agrees(*call, g) ==> taken + b.pipe.elems(g) == old(self).iter->0.pipe.elems(g);
                proof {
                    lemma_run_reported(old(self).iter->0.pipe, b.pipe, taken);
                }
                self.put_box(b);
                proof {
                    assert(Self::run_reported(*old(self), *self, taken));
                }
                match r {
                    None => Err(IterError::Unorderable),
                    Some(o) => Ok(o),
                }
            },
        }
    }

    /// The greatest element under the comparison callback (which returns a
    /// negative, zero or positive integer); of equally great ones the last.
    pub fn max_by<F: Fn(u64, Vec<ZVal>) -> ZVal>(&mut self, callback: ZCallable, call: &F, log: &mut CallLog) -> (r: Result<
        Option<ZVal>,
        IterError,
    >)
        requires
            callable(*call),
        ensures
            old(self).present() ==> exists|taken: Seq<Value>| #[trigger] Self::run_reported(*old(self), *final(self), taken)
                && forall|g: Callbacks| #[trigger] agrees(*call, g) ==> taken + final(self).elems(g) == old(self).elems(g),
            !old(self).present() ==> r == Err::<Option<ZVal>, IterError>(IterError::Consumed) && *final(self)
                == *old(self) && final(log).entries() == old(log).entries(),
            old(self).present() ==> r is Ok && final(self).present() && final(self).kind() == old(self).kind(),
            forall|g: Callbacks| #[trigger] agrees(*call, g) ==> (r matches Ok(o) ==> extreme_by(
                old(self).elems(g),
                g,
                callback.id,
                true,
            ) == opt_view(o) && final(self).elems(g).len() == 0 && final(log).entries() == old(log).entries()
                + compare_calls(old(self).elems(g), g, callback.id, true)),
    {
        match self.take_box() {
            None => Err(IterError::Consumed),
            Some(mut b) => {
                let r = extreme_by_pipe(&mut b.pipe, callback.id, true, call, log);
                let ghost taken = choose|taken: Seq<Value>| #[trigger] run_logged(old(self).iter->0.pipe, b.pipe, taken)
                    && forall|g: Callbacks| #[trigger] agrees(*call, g) ==> taken + b.pipe.elems(g) == old(self).iter->0.pipe.elems(g);
                proof {
                    lemma_run_reported(old(self).iter->0.pipe, b.pipe, taken);
                }
                self.put_box(b);
                proof {
                    assert(Self::run_reported(*old(self), *self, taken));
                }
                Ok(r)
            },
        }
    }

    /// The least element under the comparison callback; of equally small ones the first.
    pub fn min_by<F: Fn(u64, Vec<ZVal>) -> ZVal>(&mut self, callback: ZCallable, call: &F, log: &mut CallLog) -> (r: Result<
        Option<ZVal>,
        IterError,
    >)
        requires
            callable(*call),
        ensures
            old(self).present() ==> exists|taken: Seq<Value>| #[trigger] Self::run_reported(*old(self), *final(self), taken)
                && forall|g: Callbacks| #[trigger] agrees(*call, g) ==> taken + final(self).elems(g) == old(self).elems(g),
            !old(self).present() ==> r == Err::<Option<ZVal>, IterError>(IterError::Consumed) && *final(self)
                == *old(self) && final(log).entries() == old(log).entries(),
            old(self).present() ==> r is Ok && final(self).present() && final(self).kind() == old(self).kind(),
            forall|g: Callbacks| #[trigger] agrees(*call, g) ==> (r matches Ok(o) ==> extreme_by(
                old(self).elems(g),
                g,
                callback.id,
                false,
            ) == opt_view(o) && final(self).elems(g).len() == 0 && final(log).entries() == old(log).entries()
                + compare_calls(old(self).elems(g), g, callback.id, false)),
    {
        match self.take_box() {
            None => Err(IterError::Consumed),
            Some(mut b) => {
                let r = extreme_by_pipe(&mut b.pipe, callback.id, false, call, log);
                let ghost taken = choose|taken: Seq<Value>| #[trigger] run_logged(old(self).iter->0.pipe, b.pipe, taken)
                    && forall|g: Callbacks| #[trigger] agrees(*call, g) ==> taken + b.pipe.elems(g) == old(self).iter->0.pipe.elems(g);
                proof {
                    lemma_run_reported(old(self).iter->0.pipe, b.pipe, taken);
                }
                self.put_box(b);
                proof {
                    assert(Self::run_reported(*old(self), *self, taken));
                }
                Ok(r)
            },
        }
    }

    /// Runs the lexicographic comparison of the two iterators.
    fn compare_with<F: Fn(u64, Vec<ZVal>) -> ZVal>(&mut self, other: &mut ArrayIterator, mode: LexMode, call: &F) -> (r:
        Result<Option<Option<Order>>, IterError>)
        requires
            callable(*call),
        ensures
            old(self).present() && old(other).present() ==> Self::compared_runs(*call, *old(self), *final(self), *old(other), *final(other)),
            !(old(self).present() && old(other).present()) ==> r == Err::<Option<Option<Order>>, IterError>(
                IterError::Consumed,
            ) && *final(self) == *old(self) && *final(other) == *old(other),
            old(self).present() && old(other).present() ==> r is Ok && final(self).present() && final(other).present() && final(self).kind() == old(self).kind() && final(other).kind() == old(other).kind(),
            forall|g: Callbacks| #[trigger] agrees(*call, g) ==> (r matches Ok(res) ==> lex_compared(
                old(self).elems(g),
                old(other).elems(g),
                final(self).elems(g),
                final(other).elems(g),
                mode,
                res,
            )),
    {
        let mut b = match self.take_box() {
            None => {
                return Err(IterError::Consumed);
            },
            Some(b) => b,
        };
        let mut ob = match other.take_box() {
            None => {
                self.put_box(b);
                return Err(IterError::Consumed);
            },
            Some(ob) => ob,
        };
        let res = lex_pipes(&mut b.pipe, &mut ob.pipe, mode, call);
        let ghost (ta, tb) = choose|ta: Seq<Value>, tb: Seq<Value>| #[trigger] run_logged(old(self).iter->0.pipe, b.pipe, ta)
            && #[trigger] run_logged(old(other).iter->0.pipe, ob.pipe, tb) && forall|g: Callbacks| #[trigger] agrees(*call, g)
            ==> ta + b.pipe.elems(g) == old(self).iter->0.pipe.elems(g) && tb + ob.pipe.elems(g) == old(other).iter->0.pipe.elems(g);
        proof {
            lemma_run_reported(old(self).iter->0.pipe, b.pipe, ta);
            lemma_run_reported(old(other).iter->0.pipe, ob.pipe, tb);
        }
        self.put_box(b);
        other.put_box(ob);
        proof {
            assert(Self::run_reported(*old(self), *self, ta));
            assert(Self::run_reported(*old(other), *other, tb));
        }
        Ok(res)
    }

    /// Compares the elements with those of `other` lexicographically by
    /// PHP's total order: -1, 0 or 1.
    pub fn cmp<F: Fn(u64, Vec<ZVal>) -> ZVal>(&mut self, other: &mut ArrayIterator, call: &F) -> (r: Result<
        i8,
        IterError,
    >)
        requires
            callable(*call),
        ensures
            old(self).present() && old(other).present() ==> Self::compared_runs(*call, *old(self), *final(self), *old(other), *final(other)),
            !(old(self).present() && old(other).present()) ==> r == Err::<i8, IterError>(IterError::Consumed)
                && *final(self) == *old(self) && *final(other) == *old(other),
            old(self).present() && old(other).present() ==> final(self).present() && final(other).present()
                && final(self).kind() == old(self).kind() && final(other).kind() == old(other).kind() && (r is Ok
                || r == Err::<i8, IterError>(IterError::Unorderable)),
            forall|g: Callbacks| #[trigger] agrees(*call, g) ==> old(self).present() && old(other).present() ==> {
                let res = lex_result(old(self).elems(g), old(other).elems(g), LexMode::Total);
                match r {
                    Ok(c) => res matches Some(Some(o)) && o.sign() == c && lex_consumed(
                        old(self).elems(g),
                        old(other).elems(g),
                        final(self).elems(g),
                        final(other).elems(g),
                        LexMode::Total,
                    ),
                    Err(_) => res is None,
                }
            },
    {
        match self.compare_with(other, LexMode::Total, call)? {
            None => Err(IterError::Unorderable),
            Some(Some(o)) => Ok(o.to_sign()),
            Some(None) => {
                proof {
                    assert forall|g: Callbacks| #[trigger] agrees(*call, g) implies false by {
                        lemma_lex_total_ordered(old(self).elems(g), old(other).elems(g));
                    }
                }
                Ok(0)
            },
        }
    }

    /// Compares the elements with those of `other` lexicographically by
    /// PHP's partial order: -1, 0, 1, or `None` at the first unordered pair.
    pub fn partial_cmp<F: Fn(u64, Vec<ZVal>) -> ZVal>(&mut self, other: &mut ArrayIterator, call: &F) -> (r:
        Result<Option<i8>, IterError>)
        requires
            callable(*call),
        ensures
            old(self).present() && old(other).present() ==> Self::compared_runs(*call, *old(self), *final(self), *old(other), *final(other)),
            !(old(self).present() && old(other).present()) ==> r == Err::<Option<i8>, IterError>(
                IterError::Consumed,
            ) && *final(self) == *old(self) && *final(other) == *old(other),
            old(self).present() && old(other).present() ==> final(self).present() && final(other).present()
                && final(self).kind() == old(self).kind() && final(other).kind() == old(other).kind() && (r is Ok
                || r == Err::<Option<i8>, IterError>(IterError::Unorderable)),
            forall|g: Callbacks| #[trigger] agrees(*call, g) ==> old(self).present() && old(other).present() ==> {
                let res = lex_result(old(self).elems(g), old(other).elems(g), LexMode::Partial);
                match r {
                    Ok(c) => res is Some && opt_sign(res->0) == c && lex_consumed(
                        old(self).elems(g),
                        old(other).elems(g),
                        final(self).elems(g),
                        final(other).elems(g),
                        LexMode::Partial,
                    ),
                    Err(_) => res is None,
                }
            },
    {
        match self.compare_with(other, LexMode::Partial, call)? {
            None => Err(IterError::Unorderable),
            Some(Some(o)) => Ok(Some(o.to_sign())),
            Some(None) => Ok(None),
        }
    }

    /// Whether the elements equal those of `other` (PHP's `===`), one by one
    /// and in number.
    pub fn eq<F: Fn(u64, Vec<ZVal>) -> ZVal>(&mut self, other: &mut ArrayIterator, call: &F) -> (r: Result<
        bool,
        IterError,
    >)
        requires
            callable(*call),
        ensures
            old(self).present() && old(other).present() ==> Self::compared_runs(*call, *old(self), *final(self), *old(other), *final(other)),
            !(old(self).present() && old(other).present()) ==> r == Err::<bool, IterError>(IterError::Consumed)
                && *final(self) == *old(self) && *final(other) == *old(other),
            old(self).present() && old(other).present() ==> r is Ok && final(self).present()
                && final(other).present() && final(self).kind() == old(self).kind() && final(other).kind()
                == old(other).kind(),
            forall|g: Callbacks| #[trigger] agrees(*call, g) ==> (r matches Ok(b) ==> b == (lex_result(
                old(self).elems(g),
                old(other).elems(g),
                LexMode::Identity,
            ) == Some(Some(Order::Equal))) && lex_consumed(
                old(self).elems(g),
                old(other).elems(g),
                final(self).elems(g),
                final(other).elems(g),
                LexMode::Identity,
            )),
    {
        let res = self.compare_with(other, LexMode::Identity, call)?;
        match res {
            None => {
                proof {
                    assert forall|g: Callbacks| #[trigger] agrees(*call, g) implies false by {
                        lemma_lex_identity_completes(old(self).elems(g), old(other).elems(g));
                    }
                }
                Ok(false)
            },
            Some(o) => Ok(matches!(o, Some(Order::Equal))),
        }
    }

    /// Whether the elements differ from those of `other`: the negation of `eq`.
    pub fn ne<F: Fn(u64, Vec<ZVal>) -> ZVal>(&mut self, other: &mut ArrayIterator, call: &F) -> (r: Result<
        bool,
        IterError,
    >)
        requires
            callable(*call),
        ensures
            old(self).present() && old(other).present() ==> Self::compared_runs(*call, *old(self), *final(self), *old(other), *final(other)),
            !(old(self).present() && old(other).present()) ==> r == Err::<bool, IterError>(IterError::Consumed)
                && *final(self) == *old(self) && *final(other) == *old(other),
            old(self).present() && old(other).present() ==> r is Ok && final(self).present()
                && final(other).present() && final(self).kind() == old(self).kind() && final(other).kind()
                == old(other).kind(),
            forall|g: Callbacks| #[trigger] agrees(*call, g) ==> (r matches Ok(b) ==> b == (lex_result(
                old(self).elems(g),
                old(other).elems(g),
                LexMode::Identity,
            ) != Some(Some(Order::Equal))) && lex_consumed(
                old(self).elems(g),
                old(other).elems(g),
                final(self).elems(g),
                final(other).elems(g),
                LexMode::Identity,
            )),
    {
        let e = self.eq(other, call)?;
        Ok(!e)
    }

    /// Runs the comparison by PHP's partial order and tells whether its
    /// outcome is one of those accepted.
    fn partial_test<F: Fn(u64, Vec<ZVal>) -> ZVal>(
        &mut self,
        other: &mut ArrayIterator,
        less: bool,
        equal: bool,
        greater: bool,
        call: &F,
    ) -> (r: Result<bool, IterError>)
        requires
            callable(*call),
        ensures
            old(self).present() && old(other).present() ==> Self::compared_runs(*call, *old(self), *final(self), *old(other), *final(other)),
            !(old(self).present() && old(other).present()) ==> r == Err::<bool, IterError>(IterError::Consumed)
                && *final(self) == *old(self) && *final(other) == *old(other),
            old(self).present() && old(other).present() ==> final(self).present() && final(other).present()
                && final(self).kind() == old(self).kind() && final(other).kind() == old(other).kind() && (r is Ok
                || r == Err::<bool, IterError>(IterError::Unorderable)),
            forall|g: Callbacks| #[trigger] agrees(*call, g) ==> old(self).present() && old(other).present()
                ==> partial_tested(
                old(self).elems(g),
                old(other).elems(g),
                final(self).elems(g),
                final(other).elems(g),
                less,
                equal,
                greater,
                r,
            ),
    {
        match self.compare_with(other, LexMode::Partial, call)? {
            None => Err(IterError::Unorderable),
            Some(o) => Ok(
                match o {
                    Some(Order::Less) => less,
                    Some(Order::Equal) => equal,
                    Some(Order::Greater) => greater,
                    None => false,
                },
            ),
        }
    }

    /// Whether the elements are lexicographically less than those of `other`.
    pub fn lt<F: Fn(u64, Vec<ZVal>) -> ZVal>(&mut self, other: &mut ArrayIterator, call: &F) -> (r: Result<
        bool,
        IterError,
    >)
        requires
            callable(*call),
        ensures
            old(self).present() && old(other).present() ==> Self::compared_runs(*call, *old(self), *final(self), *old(other), *final(other)),
            !(old(self).present() && old(other).present()) ==> r == Err::<bool, IterError>(IterError::Consumed)
                && *final(self) == *old(self) && *final(other) == *old(other),
            old(self).present() && old(other).present() ==> final(self).present() && final(other).present()
                && final(self).kind() == old(self).kind() && final(other).kind() == old(other).kind() && (r is Ok
                || r == Err::<bool, IterError>(IterError::Unorderable)),
            forall|g: Callbacks| #[trigger] agrees(*call, g) ==> old(self).present() && old(other).present()
                ==> partial_tested(
                old(self).elems(g),
                old(other).elems(g),
                final(self).elems(g),
                final(other).elems(g),
                true,
                false,
                false,
                r,
            ),
    {
        self.partial_test(other, true, false, false, call)
    }

    /// Whether the elements are lexicographically less than or equal to those of `other`.
    pub fn le<F: Fn(u64, Vec<ZVal>) -> ZVal>(&mut self, other: &mut ArrayIterator, call: &F) -> (r: Result<
        bool,
        IterError,
    >)
        requires
            callable(*call),
        ensures
            old(self).present() && old(other).present() ==> Self::compared_runs(*call, *old(self), *final(self), *old(other), *final(other)),
            !(old(self).present() && old(other).present()) ==> r == Err::<bool, IterError>(IterError::Consumed)
                && *final(self) == *old(self) && *final(other) == *old(other),
            old(self).present() && old(other).present() ==> final(self).present() && final(other).present()
                && final(self).kind() == old(self).kind() && final(other).kind() == old(other).kind() && (r is Ok
                || r == Err::<bool, IterError>(IterError::Unorderable)),
            forall|g: Callbacks| #[trigger] agrees(*call, g) ==> old(self).present() && old(other).present()
                ==> partial_tested(
                old(self).elems(g),
                old(other).elems(g),
                final(self).elems(g),
                final(other).elems(g),
                true,
                true,
                false,
                r,
            ),
    {
        self.partial_test(other, true, true, false, call)
    }

    /// Whether the elements are lexicographically greater than those of `other`.
    pub fn gt<F: Fn(u64, Vec<ZVal>) -> ZVal>(&mut self, other: &mut ArrayIterator, call: &F) -> (r: Result<
        bool,
        IterError,
    >)
        requires
            callable(*call),
        ensures
            old(self).present() && old(other).present() ==> Self::compared_runs(*call, *old(self), *final(self), *old(other), *final(other)),
            !(old(self).present() && old(other).present()) ==> r == Err::<bool, IterError>(IterError::Consumed)
                && *final(self) == *old(self) && *final(other) == *old(other),
            old(self).present() && old(other).present() ==> final(self).present() && final(other).present()
                && final(self).kind() == old(self).kind() && final(other).kind() == old(other).kind() && (r is Ok
                || r == Err::<bool, IterError>(IterError::Unorderable)),
            forall|g: Callbacks| #[trigger] agrees(*call, g) ==> old(self).present() && old(other).present()
                ==> partial_tested(
                old(self).elems(g),
                old(other).elems(g),
                final(self).elems(g),
                final(other).elems(g),
                false,
                false,
                true,
                r,
            ),
    {
        self.partial_test(other, false, false, true, call)
    }

    /// Whether the elements are lexicographically greater than or equal to those of `other`.
    pub fn ge<F: Fn(u64, Vec<ZVal>) -> ZVal>(&mut self, other: &mut ArrayIterator, call: &F) -> (r: Result<
        bool,
        IterError,
    >)
        requires
            callable(*call),
        ensures
            old(self).present() && old(other).present() ==> Self::compared_runs(*call, *old(self), *final(self), *old(other), *final(other)),
            !(old(self).present() && old(other).present()) ==> r == Err::<bool, IterError>(IterError::Consumed)
                && *final(self) == *old(self) && *final(other) == *old(other),
            old(self).present() && old(other).present() ==> final(self).present() && final(other).present()
                && final(self).kind() == old(self).kind() && final(other).kind() == old(other).kind() && (r is Ok
                || r == Err::<bool, IterError>(IterError::Unorderable)),
            forall|g: Callbacks| #[trigger] agrees(*call, g) ==> old(self).present() && old(other).present()
                ==> partial_tested(
                old(self).elems(g),
                old(other).elems(g),
                final(self).elems(g),
                final(other).elems(g),
                false,
                true,
                true,
                r,
            ),
    {
        self.partial_test(other, false, true, true, call)
    }
}

/// Whether the outcome `o` of a comparison is one of those accepted; an
/// unordered pair accepts none.
pub open spec fn accepts(o: Option<Order>, less: bool, equal: bool, greater: bool) -> bool {
    match o {
        Some(Order::Less) => less,
        Some(Order::Equal) => equal,
        Some(Order::Greater) => greater,
        None => false,
    }
}

/// `r` is what testing the comparison of `a` with `b` by the partial order
/// against the accepted outcomes gives, and it took them to `a2` and `b2`.
pub open spec fn partial_tested(
    a: Seq<Value>,
    b: Seq<Value>,
    a2: Seq<Value>,
    b2: Seq<Value>,
    less: bool,
    equal: bool,
    greater: bool,
    r: Result<bool, IterError>,
) -> bool {
    let res = lex_result(a, b, LexMode::Partial);
    match r {
        Ok(t) => res is Some && t == accepts(res->0, less, equal, greater) && lex_consumed(
            a,
            b,
            a2,
            b2,
            LexMode::Partial,
        ),
        Err(_) => res is None,
    }
}

/// How many values `map_array` produces.
pub const MAP_ARRAY_LEN: i64 = 10000;

/// The results of the callback on each of the integers `0, 1, ...` below
/// `MAP_ARRAY_LEN`; the array argument is not read.
pub fn map_array<F: Fn(u64, Vec<ZVal>) -> ZVal>(array: &ZVal, callback: ZCallable, call: &F, log: &mut CallLog) -> (r: Vec<ZVal>)
    requires
        callable(*call),
    ensures
        r@.len() == MAP_ARRAY_LEN,
        final(log).entries() == old(log).entries() + Seq::new(
            MAP_ARRAY_LEN as nat,
            |i: int| (callback.id, seq![Value::Long(i as i64)]),
        ),
        forall|g: Callbacks| #[trigger] agrees(*call, g) ==> forall|i: int|
            0 <= i < MAP_ARRAY_LEN ==> #[trigger] r@[i]@ == g(callback.id, seq![Value::Long(i as i64)]),
{
    let mut out: Vec<ZVal> = Vec::new();
    let mut x: i64 = 0;
    while x < MAP_ARRAY_LEN
        invariant
            0 <= x <= MAP_ARRAY_LEN,
            out@.len() == x,
            callable(*call),
            log.entries() == old(log).entries() + Seq::new(
                x as nat,
                |i: int| (callback.id, seq![Value::Long(i as i64)]),
            ),
            forall|g: Callbacks| #[trigger] agrees(*call, g) ==> forall|i: int|
                0 <= i < x ==> #[trigger] out@[i]@ == g(callback.id, seq![Value::Long(i as i64)]),
        decreases MAP_ARRAY_LEN - x,
    {
        let args = vec![ZVal::Long(x)];
        proof {
            assert(views(args@) =~= seq![Value::Long(x)]);
        }
        let ghost l0 = log.entries();
        let v = log.call(call, callback.id, args);
        proof {
            assert(log.entries() =~= old(log).entries() + Seq::new(
                (x + 1) as nat,
                |i: int| (callback.id, seq![Value::Long(i as i64)]),
            ));
        }
        out.push(v);
        x = x + 1;
    }
    out
}

} // verus!
