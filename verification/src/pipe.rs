//! A lazy pipeline of iterator adapters over the values of a PHP array, with
//! the PHP callbacks run through a runner that the caller supplies.
use vstd::prelude::*;
use crate::value::{ZVal, Value, ArrayKey};
use crate::source::SimpleZValIter;
use crate::consume::{lemma_taken_step, lemma_taken_back_step, next_taken};
use crate::calls::{CallLog, calls_on, test_calls, lemma_test_calls_push, logged_test};
use crate::seq_facts::{lemma_last_position, lemma_take_while_len, lemma_drop_while_len, lemma_count_bounds, lemma_count_mono, lemma_count_step, lemma_other_count};
use crate::model::{values_of, expand, pair, index_pair, wrap, count_from, Callbacks, Test, Expand, views, callable, agrees, holds, test_fn, map_seq, filter_seq, take_while_seq, drop_while_seq, drop_n, take_n, step_seq, enum_seq, zip_seq, flat_seq, step_front, step_back, step_nth, step_nth_back};

verus! {

/// One stage of an iterator pipeline, owning the stages it pulls from.
pub enum Pipe {
    /// The values of an array.
    Source(SimpleZValIter),
    /// `map`: each element replaced by what the callback returns for it.
    Mapped(Box<Pipe>, u64),
    /// `filter`: the elements that pass the test.
    Filtered(Box<Pipe>, Test),
    /// `inspect`: the elements, each passed to the callback on the way; the
    /// log records those calls.
    Inspected(Box<Pipe>, u64, CallLog),
    /// `skip_while`: the elements from the first one that fails the test on;
    /// the flag records that it was found.
    SkippingWhile(Box<Pipe>, Test, bool, CallLog),
    /// `take_while`: the elements before the first one that fails the test;
    /// the flag records that it was found.
    TakingWhile(Box<Pipe>, Test, bool),
    /// `skip`: all but the first `n` elements.
    Skipping(Box<Pipe>, usize),
    /// `take`: the first `n` elements.
    Taking(Box<Pipe>, usize),
    /// `step_by`: with the step less one, and whether the first element is still to come.
    Stepping(Box<Pipe>, usize, bool),
    /// `enumerate`: `[index, element]` pairs, with the next index.
    Enumerated(Box<Pipe>, usize),
    /// `chain`: the elements of the first, then those of the second.
    Chained(Option<Box<Pipe>>, Option<Box<Pipe>>),
    /// `zip`: `[x, y]` pairs of elements of the two.
    Zipped(Box<Pipe>, Box<Pipe>),
    /// `flat_map` and `flatten`: the runs that each element expands to, one
    /// after the other, with the runs begun at the front and at the back.
    Flattening(Option<Box<Pipe>>, Expand, Option<SimpleZValIter>, Option<SimpleZValIter>),
    /// `fuse`: the elements until the first end.
    Fused(Option<Box<Pipe>>),
    /// `rev`: the elements from the back.
    Reversed(Box<Pipe>),
}

/// A bound above the length of any buffer.
pub open spec fn buffer_bound() -> int {
    0x1_0000_0000_0000_0000
}

pub open spec fn opt_depth(o: Option<Box<Pipe>>) -> nat {
    match o {
        Some(p) => p.depth(),
        None => 0,
    }
}

pub open spec fn opt_elems(o: Option<Box<Pipe>>, g: Callbacks) -> Seq<Value> {
    match o {
        Some(p) => p.elems(g),
        None => Seq::empty(),
    }
}

pub open spec fn buf_rest(b: Option<SimpleZValIter>) -> Seq<Value> {
    match b {
        Some(it) => it.rest(),
        None => Seq::empty(),
    }
}

pub open spec fn buf_wf(b: Option<SimpleZValIter>) -> bool {
    match b {
        Some(it) => it.wf(),
        None => true,
    }
}

impl Pipe {
    pub open spec fn depth(&self) -> nat
        decreases self,
    {
        match self {
            Pipe::Source(_) => 0,
            Pipe::Mapped(p, _) => p.depth() + 1,
            Pipe::Filtered(p, _) => p.depth() + 1,
            Pipe::Inspected(p, _, _) => p.depth() + 1,
            Pipe::SkippingWhile(p, _, _, _) => p.depth() + 1,
            Pipe::TakingWhile(p, _, _) => p.depth() + 1,
            Pipe::Skipping(p, _) => p.depth() + 1,
            Pipe::Taking(p, _) => p.depth() + 1,
            Pipe::Stepping(p, _, _) => p.depth() + 1,
            Pipe::Enumerated(p, _) => p.depth() + 1,
            Pipe::Chained(a, b) => 1 + vstd::math::max(
                match a {
                    Some(p) => p.depth() as int,
                    None => 0,
                },
                match b {
                    Some(p) => p.depth() as int,
                    None => 0,
                },
            ) as nat,
            Pipe::Zipped(a, b) => 1 + vstd::math::max(a.depth() as int, b.depth() as int) as nat,
            Pipe::Flattening(p, _, _, _) => 1 + match p {
                Some(p) => p.depth(),
                None => 0,
            },
            Pipe::Fused(p) => 1 + match p {
                Some(p) => p.depth(),
                None => 0,
            },
            Pipe::Reversed(p) => p.depth() + 1,
        }
    }

    /// Whether elements can be taken from the back.
    pub open spec fn back_ok(&self) -> bool
        decreases self,
    {
        match self {
            Pipe::Source(_) => true,
            Pipe::Mapped(p, _) => p.back_ok(),
            Pipe::Filtered(p, _) => p.back_ok(),
            Pipe::Inspected(p, _, _) => p.back_ok(),
            Pipe::SkippingWhile(..) => false,
            Pipe::TakingWhile(..) => false,
            Pipe::Skipping(p, _) => p.back_ok() && p.exact(),
            Pipe::Taking(p, _) => p.back_ok() && p.exact(),
            Pipe::Stepping(p, _, _) => p.back_ok() && p.exact(),
            Pipe::Enumerated(p, _) => p.back_ok() && p.exact(),
            Pipe::Chained(a, b) => (match a {
                Some(p) => p.back_ok(),
                None => true,
            }) && (match b {
                Some(p) => p.back_ok(),
                None => true,
            }),
            Pipe::Zipped(a, b) => a.back_ok() && a.exact() && b.back_ok() && b.exact(),
            Pipe::Flattening(p, _, _, _) => match p {
                Some(p) => p.back_ok(),
                None => true,
            },
            Pipe::Fused(p) => match p {
                Some(p) => p.back_ok(),
                None => true,
            },
            Pipe::Reversed(p) => true,
        }
    }

    /// Whether the number of elements left is known without running callbacks.
    pub open spec fn exact(&self) -> bool
        decreases self,
    {
        match self {
            Pipe::Source(_) => true,
            Pipe::Mapped(p, _) => p.exact(),
            Pipe::Filtered(..) => false,
            Pipe::Inspected(p, _, _) => p.exact(),
            Pipe::SkippingWhile(..) => false,
            Pipe::TakingWhile(..) => false,
            Pipe::Skipping(p, _) => p.exact(),
            Pipe::Taking(p, _) => p.exact(),
            Pipe::Stepping(p, _, _) => p.exact(),
            Pipe::Enumerated(p, _) => p.exact(),
            Pipe::Chained(..) => false,
            Pipe::Zipped(a, b) => a.exact() && b.exact(),
            Pipe::Flattening(..) => false,
            Pipe::Fused(p) => match p {
                Some(p) => p.exact(),
                None => true,
            },
            Pipe::Reversed(p) => p.exact(),
        }
    }

    pub open spec fn wf(&self) -> bool
        decreases self,
    {
        match self {
            Pipe::Source(s) => s.wf(),
            Pipe::Mapped(p, _) => p.wf(),
            Pipe::Filtered(p, _) => p.wf(),
            Pipe::Inspected(p, _, _) => p.wf(),
            Pipe::SkippingWhile(p, _, _, _) => p.wf(),
            Pipe::TakingWhile(p, _, _) => p.wf(),
            Pipe::Skipping(p, _) => p.wf(),
            Pipe::Taking(p, _) => p.wf(),
            Pipe::Stepping(p, sm1, _) => p.wf() && *sm1 < usize::MAX,
            Pipe::Enumerated(p, _) => p.wf(),
            Pipe::Chained(a, b) => (match a {
                Some(p) => p.wf(),
                None => true,
            }) && (match b {
                Some(p) => p.wf(),
                None => true,
            }),
            Pipe::Zipped(a, b) => a.wf() && b.wf(),
            Pipe::Flattening(p, _, f, b) => (match p {
                Some(p) => p.wf(),
                None => true,
            }) && buf_wf(*f) && buf_wf(*b),
            Pipe::Fused(p) => match p {
                Some(p) => p.wf(),
                None => true,
            },
            Pipe::Reversed(p) => p.wf() && p.back_ok(),
        }
    }

    /// A measure that every step that returns an element decreases.
    pub open spec fn fuel(&self) -> nat
        decreases self,
    {
        match self {
            Pipe::Source(s) => s.rest().len(),
            Pipe::Mapped(p, _) => p.fuel(),
            Pipe::Filtered(p, _) => p.fuel(),
            Pipe::Inspected(p, _, _) => p.fuel(),
            Pipe::SkippingWhile(p, _, _, _) => p.fuel(),
            Pipe::TakingWhile(p, _, done) => if *done {
                0
            } else {
                p.fuel()
            },
            Pipe::Skipping(p, _) => p.fuel(),
            Pipe::Taking(p, _) => p.fuel(),
            Pipe::Stepping(p, _, _) => p.fuel(),
            Pipe::Enumerated(p, _) => p.fuel(),
            Pipe::Chained(a, b) => (match a {
                Some(p) => p.fuel(),
                None => 0,
            }) + (match b {
                Some(p) => p.fuel(),
                None => 0,
            }),
            Pipe::Zipped(a, b) => a.fuel() + b.fuel(),
            Pipe::Flattening(p, _, f, b) => (((match p {
                Some(p) => p.fuel(),
                None => 0,
            }) * buffer_bound() + buf_rest(*f).len()) * buffer_bound() + buf_rest(*b).len()) as nat,
            Pipe::Fused(p) => match p {
                Some(p) => p.fuel(),
                None => 0,
            },
            Pipe::Reversed(p) => p.fuel(),
        }
    }

    /// The lower and upper bound on the number of elements left, as std's
    /// adapters compute them.
    pub open spec fn hint(&self) -> (usize, Option<usize>)
        decreases self,
    {
        match self {
            Pipe::Source(s) => (s.rest().len() as usize, Some(s.rest().len() as usize)),
            Pipe::Mapped(p, _) => p.hint(),
            Pipe::Filtered(p, _) => (0, p.hint().1),
            Pipe::Inspected(p, _, _) => p.hint(),
            Pipe::SkippingWhile(p, _, _, _) => (0, p.hint().1),
            Pipe::TakingWhile(p, _, done) => if *done {
                (0, Some(0))
            } else {
                (0, p.hint().1)
            },
            Pipe::Skipping(p, n) => (
                sat_sub(p.hint().0, *n),
                match p.hint().1 {
                    Some(x) => Some(sat_sub(x, *n)),
                    None => None,
                },
            ),
            Pipe::Taking(p, n) => if *n == 0 {
                (0, Some(0))
            } else {
                (
                    min_usize(p.hint().0, *n),
                    match p.hint().1 {
                        Some(x) => if x < *n {
                            Some(x)
                        } else {
                            Some(*n)
                        },
                        None => Some(*n),
                    },
                )
            },
            Pipe::Stepping(p, sm1, first) => if *first {
                (
                    first_size(p.hint().0, (*sm1 + 1) as usize),
                    match p.hint().1 {
                        Some(x) => Some(first_size(x, (*sm1 + 1) as usize)),
                        None => None,
                    },
                )
            } else {
                (
                    other_size(p.hint().0, (*sm1 + 1) as usize),
                    match p.hint().1 {
                        Some(x) => Some(other_size(x, (*sm1 + 1) as usize)),
                        None => None,
                    },
                )
            },
            Pipe::Enumerated(p, _) => p.hint(),
            Pipe::Chained(a, b) => match (a, b) {
                (None, None) => (0, Some(0)),
                (Some(a), None) => a.hint(),
                (None, Some(b)) => b.hint(),
                (Some(a), Some(b)) => (
                    sat_add(a.hint().0, b.hint().0),
                    match (a.hint().1, b.hint().1) {
                        (Some(x), Some(y)) => checked_add(x, y),
                        _ => None,
                    },
                ),
            },
            Pipe::Zipped(a, b) => (
                min_usize(a.hint().0, b.hint().0),
                match (a.hint().1, b.hint().1) {
                    (Some(x), Some(y)) => Some(min_usize(x, y)),
                    (Some(x), None) => Some(x),
                    (None, Some(y)) => Some(y),
                    (None, None) => None,
                },
            ),
            Pipe::Flattening(p, _, f, b) => (
                sat_add(buf_len(*f), buf_len(*b)),
                if (match p {
                    Some(p) => p.hint(),
                    None => (0usize, Some(0usize)),
                }) == (0usize, Some(0usize)) {
                    checked_add(buf_len(*f), buf_len(*b))
                } else {
                    None
                },
            ),
            Pipe::Fused(p) => match p {
                Some(p) => p.hint(),
                None => (0, Some(0)),
            },
            Pipe::Reversed(p) => p.hint(),
        }
    }

    /// The elements still to come, when the callbacks behave as `g`.
    pub open spec fn elems(&self, g: Callbacks) -> Seq<Value>
        decreases self,
    {
        match self {
            Pipe::Source(s) => s.rest(),
            Pipe::Mapped(p, cb) => map_seq(p.elems(g), g, *cb),
            Pipe::Filtered(p, t) => filter_seq(p.elems(g), g, *t),
            Pipe::Inspected(p, _, _) => p.elems(g),
            Pipe::SkippingWhile(p, t, done, _) => if *done {
                p.elems(g)
            } else {
                drop_while_seq(p.elems(g), test_fn(g, *t))
            },
            Pipe::TakingWhile(p, t, done) => if *done {
                Seq::empty()
            } else {
                take_while_seq(p.elems(g), test_fn(g, *t))
            },
            Pipe::Skipping(p, n) => drop_n(p.elems(g), *n as int),
            Pipe::Taking(p, n) => take_n(p.elems(g), *n as int),
            Pipe::Stepping(p, sm1, first) => step_seq(p.elems(g), *sm1 + 1, *first),
            Pipe::Enumerated(p, c) => enum_seq(p.elems(g), *c),
            Pipe::Chained(a, b) => (match a {
                Some(p) => p.elems(g),
                None => Seq::empty(),
            }) + (match b {
                Some(p) => p.elems(g),
                None => Seq::empty(),
            }),
            Pipe::Zipped(a, b) => zip_seq(a.elems(g), b.elems(g)),
            Pipe::Flattening(p, e, f, b) => buf_rest(*f) + flat_seq(
                match p {
                    Some(p) => p.elems(g),
                    None => Seq::empty(),
                },
                g,
                *e,
            ) + buf_rest(*b),
            Pipe::Fused(p) => match p {
                Some(p) => p.elems(g),
                None => Seq::empty(),
            },
            Pipe::Reversed(p) => p.elems(g).reverse(),
        }
    }
}

/// When `old` is an `inspect` stage, a step that returned an element ran its
/// callback on that element: the stage's log gained that call and nothing
/// else. Any other stage stays what it is.
pub open spec fn inspect_logged(old: Pipe, new: Pipe, r: Option<ZVal>) -> bool {
    &&& !(old is Inspected) ==> !(new is Inspected)
    &&& old matches Pipe::Inspected(_, cb, l) ==> (new matches Pipe::Inspected(_, cb2, l2) && cb2 == cb
        && l2.entries() == match r {
        Some(v) => l.entries().push((cb, seq![v@])),
        None => l.entries(),
    })
}

/// When `old` is a `skip_while` stage: once the first element that fails the
/// test was found, the test is not run again; until then, a step that
/// returns an element finds it, and the last test run is on that element.
pub open spec fn skip_logged(old: Pipe, new: Pipe, r: Option<ZVal>) -> bool {
    &&& !(old is SkippingWhile) ==> !(new is SkippingWhile)
    &&& old matches Pipe::SkippingWhile(_, t, done, l) ==> (new matches Pipe::SkippingWhile(_, t2, done2, l2) && t2 == t
        && l.entries().is_prefix_of(l2.entries()) && (done ==> done2 && l2.entries() == l.entries()) && (!done
        ==> skip_found(t, l2.entries(), done2, r)))
}

/// A step that returned an element found it: the skipping is over, and the
/// last test run was on that element. A step that returned none did not.
pub open spec fn skip_found(t: Test, calls: Seq<(u64, Seq<Value>)>, done: bool, r: Option<ZVal>) -> bool {
    &&& r is None ==> !done
    &&& r matches Some(v) ==> ends_with_test(t, calls, done, v@)
}

/// The skipping is over and the last test run was on `v`.
pub open spec fn ends_with_test(t: Test, calls: Seq<(u64, Seq<Value>)>, done: bool, v: Value) -> bool {
    done && calls.len() >= test_calls(t, seq![v]).len() && calls.subrange(
        calls.len() - test_calls(t, seq![v]).len(),
        calls.len() as int,
    ) == test_calls(t, seq![v])
}

/// What running `old` to `new` while taking the elements `out` from the
/// front did to the call records of its last stage: an `inspect` stage
/// recorded one call per element taken; a `skip_while` stage ran its test
/// only until the first element it let through, which is the first one
/// taken, and never after.
pub open spec fn run_logged(old: Pipe, new: Pipe, out: Seq<Value>) -> bool {
    &&& !(old is Inspected) ==> !(new is Inspected)
    &&& old matches Pipe::Inspected(_, cb, l) ==> (new matches Pipe::Inspected(_, cb2, l2) && cb2 == cb
        && l2.entries() == l.entries() + calls_on(cb, out))
    &&& !(old is SkippingWhile) ==> !(new is SkippingWhile)
    &&& old matches Pipe::SkippingWhile(_, t, done, l) ==> (new matches Pipe::SkippingWhile(_, t2, done2, l2) && t2 == t
        && l.entries().is_prefix_of(l2.entries()) && (done ==> done2 && l2.entries() == l.entries()) && (!done
        ==> skip_run(t, l2.entries(), done2, out)))
}

/// A run from a `skip_while` stage still skipping: it is still skipping
/// when it took nothing, and else the last test run was on the first
/// element taken.
pub open spec fn skip_run(t: Test, calls: Seq<(u64, Seq<Value>)>, done: bool, out: Seq<Value>) -> bool {
    &&& out.len() == 0 ==> !done
    &&& out.len() > 0 ==> ends_with_test(t, calls, done, out[0])
}

/// Taking nothing changes no record.
pub proof fn lemma_run_logged_start(p: Pipe)
    ensures
        run_logged(p, p, Seq::empty()),
{
    if let Pipe::Inspected(_, cb, l) = p {
        assert(l.entries() + calls_on(cb, Seq::empty()) =~= l.entries());
    }
    if let Pipe::SkippingWhile(_, t, done, l) = p {
        assert(l.entries().is_prefix_of(l.entries())) by {
            assert(l.entries().subrange(0, l.entries().len() as int) =~= l.entries());
        }
    }
}

/// What running `old` to `new` while taking the elements `out` from the
/// back, in that order, did to the record of its last stage: an `inspect`
/// stage recorded one call per element taken.
pub open spec fn run_logged_back(old: Pipe, new: Pipe, out: Seq<Value>) -> bool {
    &&& !(old is Inspected) ==> !(new is Inspected)
    &&& old matches Pipe::Inspected(_, cb, l) ==> (new matches Pipe::Inspected(_, cb2, l2) && cb2 == cb
        && l2.entries() == l.entries() + calls_on(cb, out))
}

/// Taking nothing from the back changes no record.
pub proof fn lemma_run_logged_back_start(p: Pipe)
    ensures
        run_logged_back(p, p, Seq::empty()),
{
    if let Pipe::Inspected(_, cb, l) = p {
        assert(l.entries() + calls_on(cb, Seq::empty()) =~= l.entries());
    }
}

/// Two runs one after the other are a run.
pub proof fn lemma_run_logged_concat(a: Pipe, b: Pipe, c: Pipe, t1: Seq<Value>, t2: Seq<Value>)
    requires
        run_logged(a, b, t1),
        run_logged(b, c, t2),
    ensures
        run_logged(a, c, t1 + t2),
{
    if let Pipe::Inspected(_, cb, l) = a {
        assert(calls_on(cb, t1 + t2) =~= calls_on(cb, t1) + calls_on(cb, t2));
        assert(c->Inspected_2.entries() =~= l.entries() + calls_on(cb, t1 + t2));
    }
    if let Pipe::SkippingWhile(_, t, done, l) = a {
        let lb = b->SkippingWhile_3.entries();
        let lc = c->SkippingWhile_3.entries();
        assert(l.entries().is_prefix_of(lc)) by {
            assert(lc.subrange(0, l.entries().len() as int) =~= lb.subrange(0, l.entries().len() as int));
        }
        if t1.len() > 0 {
            assert((t1 + t2)[0] == t1[0]);
        } else {
            assert(t1 + t2 =~= t2);
        }
    }
}

/// A run followed by one more step from the front is a run.
pub proof fn lemma_run_logged_step(old: Pipe, mid: Pipe, new: Pipe, out: Seq<Value>, r: Option<ZVal>)
    requires
        run_logged(old, mid, out),
        inspect_logged(mid, new, r),
        skip_logged(mid, new, r),
    ensures
        run_logged(
            old,
            new,
            match r {
                Some(v) => out.push(v@),
                None => out,
            },
        ),
{
    let out2 = match r {
        Some(v) => out.push(v@),
        None => out,
    };
    if let Pipe::Inspected(_, cb, l) = old {
        if let Some(v) = r {
            assert(calls_on(cb, out.push(v@)) =~= calls_on(cb, out).push((cb, seq![v@])));
        }
        assert(mid->Inspected_2.entries() + (calls_on(cb, out2).subrange(out.len() as int, out2.len() as int)) =~= new->Inspected_2.entries()) by {
            if let Some(v) = r {
                assert(calls_on(cb, out2).subrange(out.len() as int, out2.len() as int) =~= seq![(cb, seq![v@])]);
            } else {
                assert(calls_on(cb, out2).subrange(out.len() as int, out2.len() as int) =~= Seq::<(u64, Seq<Value>)>::empty());
            }
        }
        assert(new->Inspected_2.entries() =~= l.entries() + calls_on(cb, out2));
    }
    if let Pipe::SkippingWhile(_, t, done, l) = old {
        let lm = mid->SkippingWhile_3.entries();
        let ln = new->SkippingWhile_3.entries();
        assert(l.entries().is_prefix_of(ln)) by {
            assert(ln.subrange(0, l.entries().len() as int) =~= lm.subrange(0, lm.len() as int).subrange(0, l.entries().len() as int));
        }
        if !done && out.len() > 0 {
            assert(out2[0] == out[0]);
        }
    }
}

/// When `old` is a `skip_while` stage still looking for its first failing
/// element, the tests run in a step are on the inner elements it took, in order.
pub open spec fn skip_calls(old: Pipe, new: Pipe, g: Callbacks) -> bool {
    old matches Pipe::SkippingWhile(q, t, false, l) ==> (new matches Pipe::SkippingWhile(q2, _, _, l2)
        && q2.elems(g).len() <= q.elems(g).len() && l2.entries() == l.entries() + test_calls(
        t,
        q.elems(g).subrange(0, q.elems(g).len() - q2.elems(g).len()),
    ))
}

/// A step from the front took `old` to `new` and returned `r`.
pub open spec fn front_step<F: Fn(u64, Vec<ZVal>) -> ZVal>(
    call: F,
    old: Pipe,
    new: Pipe,
    r: Option<ZVal>,
) -> bool {
    &&& new.wf()
    &&& new.depth() <= old.depth()
    &&& old.back_ok() ==> new.back_ok()
    &&& old.exact() ==> new.exact()
    &&& r is Some ==> new.fuel() < old.fuel()
    &&& r is None ==> new.fuel() <= old.fuel()
    &&& old.exact() ==> exact_step(old.hint().0 as int, new.hint().0 as int, r is Some)
    &&& inspect_logged(old, new, r)
    &&& skip_logged(old, new, r)
    &&& forall|g: Callbacks| #[trigger] agrees(call, g) ==> step_front(old.elems(g), new.elems(g), r) && skip_calls(
        old,
        new,
        g,
    )
}

/// A step from the back took `old` to `new` and returned `r`.
pub open spec fn back_step<F: Fn(u64, Vec<ZVal>) -> ZVal>(
    call: F,
    old: Pipe,
    new: Pipe,
    r: Option<ZVal>,
) -> bool {
    &&& new.wf()
    &&& new.depth() <= old.depth()
    &&& old.back_ok() ==> new.back_ok()
    &&& old.exact() ==> new.exact()
    &&& r is Some ==> new.fuel() < old.fuel()
    &&& r is None ==> new.fuel() <= old.fuel()
    &&& old.exact() ==> exact_step(old.hint().0 as int, new.hint().0 as int, r is Some)
    &&& inspect_logged(old, new, r)
    &&& forall|g: Callbacks| #[trigger] agrees(call, g) ==> step_back(old.elems(g), new.elems(g), r)
}

/// Taking the element at `n` from the front took `old` to `new` and returned `r`.
pub open spec fn nth_step<F: Fn(u64, Vec<ZVal>) -> ZVal>(
    call: F,
    old: Pipe,
    new: Pipe,
    n: int,
    r: Option<ZVal>,
) -> bool {
    &&& new.wf()
    &&& new.depth() <= old.depth()
    &&& old.back_ok() ==> new.back_ok()
    &&& old.exact() ==> new.exact()
    &&& r is Some ==> new.fuel() < old.fuel()
    &&& r is None ==> new.fuel() <= old.fuel()
    &&& old.exact() ==> exact_nth(old.hint().0 as int, new.hint().0 as int, n, r is Some)
    &&& forall|g: Callbacks| #[trigger] agrees(call, g) ==> step_nth(old.elems(g), new.elems(g), n, r)
}

/// Taking the element at `n` from the back took `old` to `new` and returned `r`.
pub open spec fn nth_back_step<F: Fn(u64, Vec<ZVal>) -> ZVal>(
    call: F,
    old: Pipe,
    new: Pipe,
    n: int,
    r: Option<ZVal>,
) -> bool {
    &&& new.wf()
    &&& new.depth() <= old.depth()
    &&& old.back_ok() ==> new.back_ok()
    &&& old.exact() ==> new.exact()
    &&& r is Some ==> new.fuel() < old.fuel()
    &&& r is None ==> new.fuel() <= old.fuel()
    &&& old.exact() ==> exact_nth(old.hint().0 as int, new.hint().0 as int, n, r is Some)
    &&& forall|g: Callbacks| #[trigger] agrees(call, g) ==> step_nth_back(old.elems(g), new.elems(g), n, r)
}

/// How the known length changes in a step that returned an element or not.
pub open spec fn exact_step(len: int, len2: int, some: bool) -> bool {
    if some {
        len > 0 && len2 == len - 1
    } else {
        len == 0 && len2 == 0
    }
}

/// How the known length changes when the element at `n` is taken.
pub open spec fn exact_nth(len: int, len2: int, n: int, some: bool) -> bool {
    if some {
        n < len && len2 == len - n - 1
    } else {
        len <= n && len2 == 0
    }
}

pub open spec fn sat_sub(a: usize, b: usize) -> usize {
    if a >= b {
        (a - b) as usize
    } else {
        0
    }
}

pub open spec fn sat_add(a: usize, b: usize) -> usize {
    if a + b <= usize::MAX {
        (a + b) as usize
    } else {
        usize::MAX
    }
}

pub open spec fn checked_add(a: usize, b: usize) -> Option<usize> {
    if a + b <= usize::MAX {
        Some((a + b) as usize)
    } else {
        None
    }
}

pub open spec fn min_usize(a: usize, b: usize) -> usize {
    if a <= b {
        a
    } else {
        b
    }
}

/// `step_by`'s count of elements when the first is still to come.
pub open spec fn first_size(n: usize, step: usize) -> usize {
    if n == 0 {
        0
    } else {
        (1 + (n - 1) / (step as int)) as usize
    }
}

/// `step_by`'s count of elements once the first was taken.
pub open spec fn other_size(n: usize, step: usize) -> usize {
    (n / step) as usize
}

pub open spec fn buf_len(b: Option<SimpleZValIter>) -> usize {
    match b {
        Some(it) => it.rest().len() as usize,
        None => 0,
    }
}

proof fn lemma_reverse_front(s: Seq<Value>)
    requires
        s.len() > 0,
    ensures
        s.reverse()[0] == s.last(),
        s.reverse().drop_first() == s.drop_last().reverse(),
        s.reverse().len() == s.len(),
{
    assert(s.reverse().drop_first() =~= s.drop_last().reverse());
}

proof fn lemma_reverse_back(s: Seq<Value>)
    requires
        s.len() > 0,
    ensures
        s.reverse().last() == s[0],
        s.reverse().drop_last() == s.drop_first().reverse(),
        s.reverse().len() == s.len(),
{
    assert(s.reverse().drop_last() =~= s.drop_first().reverse());
}

/// Runs a test on an element.
pub fn run_test<F: Fn(u64, Vec<ZVal>) -> ZVal>(t: Test, x: &ZVal, call: &F) -> (r: bool)
    requires
        callable(*call),
    ensures
        forall|g: Callbacks| #[trigger] agrees(*call, g) ==> r == holds(g, t, x@),
{
    match t {
        Test::Callback(cb) => {
            let args = vec![x.clone_val()];
            let v = call(cb, args);
            assert(views(args@) =~= seq![x@]);
            match v {
                ZVal::Bool(b) => b,
                _ => false,
            }
        },
        Test::NotNull => match x {
            ZVal::Null => false,
            _ => true,
        },
    }
}

/// The list `[x, y]`.
pub fn pair_val(x: ZVal, y: ZVal) -> (r: ZVal)
    ensures
        r@ == pair(x@, y@),
{
    let r = ZVal::Array(vec![(ArrayKey::Int(0), x), (ArrayKey::Int(1), y)]);
    assert(r@->Array_0 =~= pair(x@, y@)->Array_0);
    r
}

/// The list `[i, x]` that `enumerate` yields.
fn index_pair_val(i: usize, x: ZVal) -> (r: ZVal)
    ensures
        r@ == index_pair(i, x@),
{
    if (i as u64) <= 0x7FFF_FFFF_FFFF_FFFFu64 {
        pair_val(ZVal::Long(i as i64), x)
    } else {
        let r = ZVal::Array(vec![(ArrayKey::Int(0), x)]);
        assert(r@->Array_0 =~= index_pair(i, x@)->Array_0);
        r
    }
}

/// `c + n` wrapping around at the size of `usize`.
pub fn wrapping_add(c: usize, n: usize) -> (r: usize)
    ensures
        r == wrap(c + n),
{
    if n > usize::MAX - c {
        assert((c + n) % (usize::MAX as int + 1) == c + n - (usize::MAX as int + 1)) by {
            vstd::arithmetic::div_mod::lemma_fundamental_div_mod_converse(
                c + n, usize::MAX as int + 1, 1, c + n - (usize::MAX as int + 1));
        }
        n - (usize::MAX - c) - 1
    } else {
        assert((c + n) % (usize::MAX as int + 1) == c + n) by {
            vstd::arithmetic::div_mod::lemma_small_mod((c + n) as nat, (usize::MAX as int + 1) as nat);
        }
        c + n
    }
}

/// The values of an array value, in order.
fn array_values(v: &ZVal) -> (r: Vec<ZVal>)
    ensures
        views(r@) == values_of(v@),
{
    match v {
        ZVal::Array(es) => {
            let mut out: Vec<ZVal> = Vec::new();
            let mut i: usize = 0;
            while i < es.len()
                invariant
                    i <= es.len(),
                    out.len() == i,
                    v@ == Value::Array(v@->Array_0),
                    v@->Array_0.len() == es.len(),
                    forall|j: int| 0 <= j < i ==> #[trigger] out@[j]@ == es@[j].1@,
                decreases es.len() - i,
            {
                out.push(es[i].1.clone_val());
                i = i + 1;
            }
            assert(views(out@) =~= values_of(v@));
            out
        },
        _ => {
            let out: Vec<ZVal> = Vec::new();
            assert(views(out@) =~= values_of(v@));
            out
        },
    }
}

/// The run of elements that one element expands to.
fn run_expand<F: Fn(u64, Vec<ZVal>) -> ZVal>(e: Expand, x: ZVal, call: &F) -> (r: Vec<ZVal>)
    requires
        callable(*call),
    ensures
        forall|g: Callbacks| #[trigger] agrees(*call, g) ==> views(r@) == expand(g, e, x@),
{
    match e {
        Expand::Callback(cb) => {
            let v = run_map(cb, x, call);
            array_values(&v)
        },
        Expand::Nested => {
            if let ZVal::Array(_) = &x {
                array_values(&x)
            } else {
                let ghost xv = x@;
                let r = vec![x];
                assert(views(r@) =~= seq![xv]);
                r
            }
        },
    }
}

proof fn lemma_flat_front(s: Seq<Value>, g: Callbacks, e: Expand)
    requires
        s.len() > 0,
    ensures
        flat_seq(s, g, e) == expand(g, e, s[0]) + flat_seq(s.drop_first(), g, e),
{
    let m = s.map_values(|x: Value| expand(g, e, x));
    assert(m.drop_first() =~= s.drop_first().map_values(|x: Value| expand(g, e, x)));
}

proof fn lemma_flat_back(s: Seq<Value>, g: Callbacks, e: Expand)
    requires
        s.len() > 0,
    ensures
        flat_seq(s, g, e) == flat_seq(s.drop_last(), g, e) + expand(g, e, s.last()),
{
    let m = s.map_values(|x: Value| expand(g, e, x));
    let m1 = s.drop_last().map_values(|x: Value| expand(g, e, x));
    assert(m =~= m1 + seq![expand(g, e, s.last())]);
    vstd::seq_lib::lemma_flatten_concat(m1, seq![expand(g, e, s.last())]);
    let t = seq![expand(g, e, s.last())];
    assert(t.drop_first() =~= Seq::<Seq<Value>>::empty());
    assert(t.drop_first().flatten() == Seq::<Value>::empty());
    assert(t.flatten() == t.first() + t.drop_first().flatten());
    assert(t.flatten() =~= expand(g, e, s.last()));
}

proof fn lemma_flat_empty(g: Callbacks, e: Expand)
    ensures
        flat_seq(Seq::empty(), g, e) == Seq::<Value>::empty(),
{
    assert(Seq::<Value>::empty().map_values(|x: Value| expand(g, e, x)) =~= Seq::<Seq<Value>>::empty());
}

/// Runs a callback on one element.
pub fn run_map<F: Fn(u64, Vec<ZVal>) -> ZVal>(cb: u64, x: ZVal, call: &F) -> (r: ZVal)
    requires
        callable(*call),
    ensures
        forall|g: Callbacks| #[trigger] agrees(*call, g) ==> r@ == g(cb, seq![x@]),
{
    let ghost xv = x@;
    let args = vec![x];
    let v = call(cb, args);
    assert(views(args@) =~= seq![xv]);
    v
}

impl Pipe {
    /// Takes the next element from the front.
    pub fn next<F: Fn(u64, Vec<ZVal>) -> ZVal>(&mut self, call: &F) -> (r: Option<ZVal>)
        requires
            old(self).wf(),
            callable(*call),
        ensures
            front_step(*call, *old(self), *final(self), r),
        decreases old(self).depth(), 0nat,
    {
        match self {
            Pipe::Source(s) => Self::source_next(s, call),
            Pipe::Mapped(p, cb) => Self::mapped_next(p, *cb, call),
            Pipe::Filtered(p, t) => Self::filtered_next(p, *t, call),
            Pipe::Inspected(p, cb, log) => Self::inspected_next(p, *cb, log, call),
            Pipe::Reversed(p) => {
                let r = p.next_back(call);
                proof {
                    assert forall|g: Callbacks| #[trigger] agrees(*call, g) implies step_front(
                        old(self).elems(g),
                        final(self).elems(g),
                        r,
                    ) by {
                        let s = old(self)->Reversed_0.elems(g);
                        if s.len() > 0 {
                            lemma_reverse_front(s);
                        }
                    }
                }
                r
            },
            Pipe::SkippingWhile(p, t, done, log) => Self::skipping_while_next(p, *t, done, log, call),
            Pipe::TakingWhile(p, t, done) => Self::taking_while_next(p, *t, done, call),
            Pipe::Fused(p) => Self::fused_next(p, call),
            Pipe::Chained(a, b) => Self::chained_next(a, b, call),
            Pipe::Skipping(p, n) => Self::skipping_next(p, n, call),
            Pipe::Taking(p, n) => Self::taking_next(p, n, call),
            Pipe::Enumerated(p, c) => Self::enumerated_next(p, c, call),
            Pipe::Zipped(a, b) => Self::zipped_next(a, b, call),
            Pipe::Stepping(p, sm1, first) => Self::stepping_next(p, *sm1, first, call),
            Pipe::Flattening(p, e, f, b) => Self::flattening_next(p, *e, f, b, call),
        }
    }

    /// Takes the next element from the back.
    pub fn next_back<F: Fn(u64, Vec<ZVal>) -> ZVal>(&mut self, call: &F) -> (r: Option<ZVal>)
        requires
            old(self).wf(),
            old(self).back_ok(),
            callable(*call),
        ensures
            back_step(*call, *old(self), *final(self), r),
        decreases old(self).depth(), 0nat,
    {
        match self {
            Pipe::Source(s) => Self::source_back(s, call),
            Pipe::Mapped(p, cb) => Self::mapped_back(p, *cb, call),
            Pipe::Filtered(p, t) => Self::filtered_back(p, *t, call),
            Pipe::Inspected(p, cb, log) => Self::inspected_back(p, *cb, log, call),
            Pipe::Reversed(p) => {
                let r = p.next(call);
                proof {
                    assert forall|g: Callbacks| #[trigger] agrees(*call, g) implies step_back(
                        old(self).elems(g),
                        final(self).elems(g),
                        r,
                    ) by {
                        let s = old(self)->Reversed_0.elems(g);
                        if s.len() > 0 {
                            lemma_reverse_back(s);
                        }
                    }
                }
                r
            },
            Pipe::SkippingWhile(..) => None,
            Pipe::TakingWhile(..) => None,
            Pipe::Fused(p) => Self::fused_back(p, call),
            Pipe::Chained(a, b) => Self::chained_back(a, b, call),
            Pipe::Skipping(p, n) => Self::skipping_back(p, *n, call),
            Pipe::Taking(p, n) => Self::taking_back(p, n, call),
            Pipe::Enumerated(p, c) => Self::enumerated_back(p, *c, call),
            Pipe::Zipped(a, b) => Self::zipped_back(a, b, call),
            Pipe::Stepping(p, sm1, first) => Self::stepping_back(p, *sm1, *first, call),
            Pipe::Flattening(p, e, f, b) => Self::flattening_back(p, *e, f, b, call),
        }
    }

    /// The bounds on the number of elements left (see `hint`).
    pub fn size_hint(&self) -> (r: (usize, Option<usize>))
        requires
            self.wf(),
        ensures
            r == self.hint(),
        decreases self,
    {
        match self {
            Pipe::Source(s) => s.size_hint(),
            Pipe::Mapped(p, _) => p.size_hint(),
            Pipe::Filtered(p, _) => (0, p.size_hint().1),
            Pipe::Inspected(p, _, _) => p.size_hint(),
            Pipe::SkippingWhile(p, _, _, _) => (0, p.size_hint().1),
            Pipe::TakingWhile(p, _, done) => if *done {
                (0, Some(0))
            } else {
                (0, p.size_hint().1)
            },
            Pipe::Skipping(p, n) => {
                let (lo, hi) = p.size_hint();
                let hi2 = match hi {
                    Some(x) => Some(x.saturating_sub(*n)),
                    None => None,
                };
                (lo.saturating_sub(*n), hi2)
            },
            Pipe::Taking(p, n) => {
                if *n == 0 {
                    return (0, Some(0));
                }
                let (lo, hi) = p.size_hint();
                let lo2 = if lo <= *n { lo } else { *n };
                let hi2 = match hi {
                    Some(x) => if x < *n { Some(x) } else { Some(*n) },
                    None => Some(*n),
                };
                (lo2, hi2)
            },
            Pipe::Stepping(p, sm1, first) => {
                let step = *sm1 + 1;
                let (lo, hi) = p.size_hint();
                if *first {
                    let f = |n: usize| -> (r: usize)
                        ensures r == first_size(n, step)
                    {
                        if n == 0 { 0 } else {
                            proof { vstd::arithmetic::div_mod::lemma_div_is_ordered_by_denominator((n - 1) as int, 1, step as int); }
                            1 + (n - 1) / step
                        }
                    };
                    let hi2 = match hi {
                        Some(x) => Some(f(x)),
                        None => None,
                    };
                    (f(lo), hi2)
                } else {
                    let hi2 = match hi {
                        Some(x) => Some(x / step),
                        None => None,
                    };
                    (lo / step, hi2)
                }
            },
            Pipe::Enumerated(p, _) => p.size_hint(),
            Pipe::Chained(a, b) => match (a, b) {
                (None, None) => (0, Some(0)),
                (Some(a), None) => a.size_hint(),
                (None, Some(b)) => b.size_hint(),
                (Some(a), Some(b)) => {
                    let (alo, ahi) = a.size_hint();
                    let (blo, bhi) = b.size_hint();
                    let hi = match (ahi, bhi) {
                        (Some(x), Some(y)) => x.checked_add(y),
                        _ => None,
                    };
                    (alo.saturating_add(blo), hi)
                },
            },
            Pipe::Zipped(a, b) => {
                let (alo, ahi) = a.size_hint();
                let (blo, bhi) = b.size_hint();
                let lo = if alo <= blo { alo } else { blo };
                let hi = match (ahi, bhi) {
                    (Some(x), Some(y)) => Some(if x <= y { x } else { y }),
                    (Some(x), None) => Some(x),
                    (None, Some(y)) => Some(y),
                    (None, None) => None,
                };
                (lo, hi)
            },
            Pipe::Flattening(p, _, f, b) => {
                let fl = match f {
                    Some(it) => it.len(),
                    None => 0,
                };
                let bl = match b {
                    Some(it) => it.len(),
                    None => 0,
                };
                let (ilo, ihi) = match p {
                    Some(p) => p.size_hint(),
                    None => (0, Some(0)),
                };
                let hi = if ilo == 0 && ihi == Some(0usize) {
                    fl.checked_add(bl)
                } else {
                    None
                };
                (fl.saturating_add(bl), hi)
            },
            Pipe::Fused(p) => match p {
                Some(p) => p.size_hint(),
                None => (0, Some(0)),
            },
            Pipe::Reversed(p) => p.size_hint(),
        }
    }

    /// The number of elements left, where it is known without running callbacks.
    pub fn len(&self) -> (r: usize)
        requires
            self.wf(),
            self.exact(),
        ensures
            r == self.hint().0,
            forall|g: Callbacks| r == #[trigger] self.elems(g).len(),
    {
        proof {
            assert forall|g: Callbacks| self.hint().0 == #[trigger] self.elems(g).len() by {
                lemma_hint(*self, g);
            }
        }
        self.size_hint().0
    }

    fn skipping_next<F: Fn(u64, Vec<ZVal>) -> ZVal>(p: &mut Box<Pipe>, n: &mut usize, call: &F) -> (r: Option<ZVal>)
        requires
            old(p).wf(),
            callable(*call),
        ensures
            front_step(*call, Pipe::Skipping(*old(p), *old(n)), Pipe::Skipping(*final(p), *final(n)), r),
        decreases old(p).depth(), 2nat,
    {
        if *n > 0 {
            let k = *n;
            *n = 0;
            let r = p.nth(k, call);
            proof {
                assert forall|g: Callbacks| #[trigger] agrees(*call, g) implies step_front(
                    drop_n(old(p).elems(g), k as int),
                    drop_n(p.elems(g), 0),
                    r,
                ) by {
                    if r is Some {
                        assert(drop_n(p.elems(g), 0) =~= drop_n(old(p).elems(g), k as int).drop_first());
                    }
                }
            }
            r
        } else {
            let r = p.next(call);
            proof {
                assert forall|g: Callbacks| #[trigger] agrees(*call, g) implies step_front(
                    drop_n(old(p).elems(g), 0),
                    drop_n(p.elems(g), 0),
                    r,
                ) by {
                    assert(drop_n(old(p).elems(g), 0) =~= old(p).elems(g));
                    assert(drop_n(p.elems(g), 0) =~= p.elems(g));
                }
            }
            r
        }
    }

    fn skipping_back<F: Fn(u64, Vec<ZVal>) -> ZVal>(p: &mut Box<Pipe>, n: usize, call: &F) -> (r: Option<ZVal>)
        requires
            old(p).wf(),
            old(p).back_ok(),
            old(p).exact(),
            callable(*call),
        ensures
            back_step(*call, Pipe::Skipping(*old(p), n), Pipe::Skipping(*final(p), n), r),
        decreases old(p).depth(), 2nat,
    {
        let len = p.len();
        proof {
            assert forall|g: Callbacks| #[trigger] agrees(*call, g) implies old(p).elems(g).len() == len by {}
        }
        if len > n {
            let r = p.next_back(call);
            proof {
                assert forall|g: Callbacks| #[trigger] agrees(*call, g) implies step_back(
                    drop_n(old(p).elems(g), n as int),
                    drop_n(p.elems(g), n as int),
                    r,
                ) by {
                    if r is Some {
                        assert(drop_n(p.elems(g), n as int) =~= drop_n(old(p).elems(g), n as int).drop_last());
                    }
                }
            }
            r
        } else {
            None
        }
    }

    fn taking_next<F: Fn(u64, Vec<ZVal>) -> ZVal>(p: &mut Box<Pipe>, n: &mut usize, call: &F) -> (r: Option<ZVal>)
        requires
            old(p).wf(),
            callable(*call),
        ensures
            front_step(*call, Pipe::Taking(*old(p), *old(n)), Pipe::Taking(*final(p), *final(n)), r),
        decreases old(p).depth(), 2nat,
    {
        if *n != 0 {
            *n = *n - 1;
            let r = p.next(call);
            proof {
                assert forall|g: Callbacks| #[trigger] agrees(*call, g) implies step_front(
                    take_n(old(p).elems(g), *old(n) as int),
                    take_n(p.elems(g), *n as int),
                    r,
                ) by {
                    if r is Some {
                        assert(take_n(p.elems(g), *n as int) =~= take_n(old(p).elems(g), *old(n) as int).drop_first());
                    }
                }
            }
            r
        } else {
            None
        }
    }

    fn taking_back<F: Fn(u64, Vec<ZVal>) -> ZVal>(p: &mut Box<Pipe>, n: &mut usize, call: &F) -> (r: Option<ZVal>)
        requires
            old(p).wf(),
            old(p).back_ok(),
            old(p).exact(),
            callable(*call),
        ensures
            back_step(*call, Pipe::Taking(*old(p), *old(n)), Pipe::Taking(*final(p), *final(n)), r),
        decreases old(p).depth(), 2nat,
    {
        if *n == 0 {
            return None;
        }
        let k = *n;
        *n = k - 1;
        let len = p.len();
        let r = p.nth_back(len.saturating_sub(k), call);
        proof {
            assert forall|g: Callbacks| #[trigger] agrees(*call, g) implies step_back(
                take_n(old(p).elems(g), k as int),
                take_n(p.elems(g), *n as int),
                r,
            ) by {
                if r is Some {
                    assert(take_n(p.elems(g), *n as int) =~= take_n(old(p).elems(g), k as int).drop_last());
                }
            }
        }
        r
    }

    fn enumerated_next<F: Fn(u64, Vec<ZVal>) -> ZVal>(p: &mut Box<Pipe>, c: &mut usize, call: &F) -> (r: Option<ZVal>)
        requires
            old(p).wf(),
            callable(*call),
        ensures
            front_step(*call, Pipe::Enumerated(*old(p), *old(c)), Pipe::Enumerated(*final(p), *final(c)), r),
        decreases old(p).depth(), 2nat,
    {
        match p.next(call) {
            None => None,
            Some(x) => {
                let i = *c;
                *c = wrapping_add(i, 1);
                let v = index_pair_val(i, x);
                proof {
                    let m = usize::MAX as int + 1;
                    assert(wrap(i + 0) == i) by {
                        vstd::arithmetic::div_mod::lemma_small_mod(i as nat, m as nat);
                    }
                    assert forall|g: Callbacks| #[trigger] agrees(*call, g) implies step_front(
                        enum_seq(old(p).elems(g), i),
                        enum_seq(p.elems(g), *c),
                        Some(v),
                    ) by {
                        assert forall|k: int| 0 <= k < p.elems(g).len() implies #[trigger] enum_seq(p.elems(g), *c)[k]
                            == enum_seq(old(p).elems(g), i)[k + 1] by {
                            vstd::arithmetic::div_mod::lemma_add_mod_noop_right(k, i + 1, m);
                            assert(wrap(*c + k) == wrap(i + (k + 1)));
                        }
                        assert(enum_seq(p.elems(g), *c) =~= enum_seq(old(p).elems(g), i).drop_first());
                    }
                }
                Some(v)
            },
        }
    }

    fn enumerated_back<F: Fn(u64, Vec<ZVal>) -> ZVal>(p: &mut Box<Pipe>, c: usize, call: &F) -> (r: Option<ZVal>)
        requires
            old(p).wf(),
            old(p).back_ok(),
            old(p).exact(),
            callable(*call),
        ensures
            back_step(*call, Pipe::Enumerated(*old(p), c), Pipe::Enumerated(*final(p), c), r),
        decreases old(p).depth(), 2nat,
    {
        match p.next_back(call) {
            None => None,
            Some(x) => {
                let len = p.len();
                let v = index_pair_val(wrapping_add(c, len), x);
                proof {
                    assert forall|g: Callbacks| #[trigger] agrees(*call, g) implies step_back(
                        enum_seq(old(p).elems(g), c),
                        enum_seq(p.elems(g), c),
                        Some(v),
                    ) by {
                        assert(enum_seq(p.elems(g), c) =~= enum_seq(old(p).elems(g), c).drop_last());
                    }
                }
                Some(v)
            },
        }
    }

    fn zipped_next<F: Fn(u64, Vec<ZVal>) -> ZVal>(a: &mut Box<Pipe>, b: &mut Box<Pipe>, call: &F) -> (r: Option<ZVal>)
        requires
            old(a).wf(),
            old(b).wf(),
            callable(*call),
        ensures
            front_step(*call, Pipe::Zipped(*old(a), *old(b)), Pipe::Zipped(*final(a), *final(b)), r),
        decreases vstd::math::max(old(a).depth() as int, old(b).depth() as int), 2nat,
    {
        match a.next(call) {
            None => None,
            Some(x) => match b.next(call) {
                None => None,
                Some(y) => {
                    let v = pair_val(x, y);
                    proof {
                        assert forall|g: Callbacks| #[trigger] agrees(*call, g) implies step_front(
                            zip_seq(old(a).elems(g), old(b).elems(g)),
                            zip_seq(a.elems(g), b.elems(g)),
                            Some(v),
                        ) by {
                            assert(zip_seq(a.elems(g), b.elems(g)) =~= zip_seq(old(a).elems(g), old(b).elems(g)).drop_first());
                        }
                    }
                    Some(v)
                },
            },
        }
    }

    fn zipped_back<F: Fn(u64, Vec<ZVal>) -> ZVal>(a: &mut Box<Pipe>, b: &mut Box<Pipe>, call: &F) -> (r: Option<ZVal>)
        requires
            old(a).wf(),
            old(b).wf(),
            old(a).back_ok() && old(a).exact(),
            old(b).back_ok() && old(b).exact(),
            callable(*call),
        ensures
            back_step(*call, Pipe::Zipped(*old(a), *old(b)), Pipe::Zipped(*final(a), *final(b)), r),
        decreases vstd::math::max(old(a).depth() as int, old(b).depth() as int), 2nat,
    {
        let la = a.len();
        let lb = b.len();
        if la > lb {
            let _ = a.nth_back(la - lb - 1, call);
        } else if lb > la {
            let _ = b.nth_back(lb - la - 1, call);
        }
        let ghost ma = **a;
        let ghost mb = **b;
        let ra = a.next_back(call);
        let rb = b.next_back(call);
        match (ra, rb) {
            (Some(x), Some(y)) => {
                let v = pair_val(x, y);
                proof {
                    assert forall|g: Callbacks| #[trigger] agrees(*call, g) implies step_back(
                        zip_seq(old(a).elems(g), old(b).elems(g)),
                        zip_seq(a.elems(g), b.elems(g)),
                        Some(v),
                    ) by {
                        lemma_hint(**old(a), g);
                        lemma_hint(**old(b), g);
                        assert(zip_seq(old(a).elems(g), old(b).elems(g)) =~= zip_seq(ma.elems(g), mb.elems(g)));
                        assert(zip_seq(a.elems(g), b.elems(g)) =~= zip_seq(ma.elems(g), mb.elems(g)).drop_last());
                    }
                }
                Some(v)
            },
            _ => {
                proof {
                    assert forall|g: Callbacks| #[trigger] agrees(*call, g) implies step_back(
                        zip_seq(old(a).elems(g), old(b).elems(g)),
                        zip_seq(a.elems(g), b.elems(g)),
                        None,
                    ) by {
                        lemma_hint(**old(a), g);
                        lemma_hint(**old(b), g);
                    }
                }
                None
            },
        }
    }

    fn stepping_next<F: Fn(u64, Vec<ZVal>) -> ZVal>(
        p: &mut Box<Pipe>,
        sm1: usize,
        first: &mut bool,
        call: &F,
    ) -> (r: Option<ZVal>)
        requires
            old(p).wf(),
            sm1 < usize::MAX,
            callable(*call),
        ensures
            front_step(
                *call,
                Pipe::Stepping(*old(p), sm1, *old(first)),
                Pipe::Stepping(*final(p), sm1, *final(first)),
                r,
            ),
        decreases old(p).depth(), 2nat,
    {
        let ghost step = sm1 + 1;
        let ghost start: int = if *first { 0 } else { step - 1 };
        let r = if *first {
            *first = false;
            p.next(call)
        } else {
            p.nth(sm1, call)
        };
        proof {
            if old(p).exact() {
                let lo = old(p).hint().0 as int;
                lemma_count_bounds(lo, start, step);
                lemma_other_count(p.hint().0 as int, step);
                if !*old(first) {
                    lemma_other_count(lo, step);
                }
                if r is Some {
                    lemma_count_step(lo, start, step);
                }
            }
            assert forall|g: Callbacks| #[trigger] agrees(*call, g) implies step_front(
                step_seq(old(p).elems(g), step, *old(first)),
                step_seq(p.elems(g), step, false),
                r,
            ) by {
                let s0 = old(p).elems(g);
                let len = s0.len() as int;
                lemma_count_bounds(len, start, step);
                assert(0 * step == 0);
                if r is Some {
                    assert(step_seq(s0, step, *old(first))[0] == s0[start]);
                    lemma_count_step(len, start, step);
                    let old_sel = step_seq(s0, step, *old(first));
                    let new_sel = step_seq(p.elems(g), step, false);
                    assert forall|k: int| 0 <= k < new_sel.len() implies #[trigger] new_sel[k] == old_sel[k + 1] by {
                        assert((k + 1) * step == k * step + step) by {
                            vstd::arithmetic::mul::lemma_mul_is_distributive_add(step, k, 1);
                            vstd::arithmetic::mul::lemma_mul_is_commutative(step, k + 1);
                            vstd::arithmetic::mul::lemma_mul_is_commutative(step, k);
                        }
                        lemma_count_bounds(len - start - 1, step - 1, step);
                        let i = step - 1 + k * step;
                        vstd::arithmetic::mul::lemma_mul_inequality(k, new_sel.len() - 1, step);
                        assert(p.elems(g).len() == len - start - 1);
                        assert(0 <= k * step) by {
                            vstd::arithmetic::mul::lemma_mul_nonnegative(k, step);
                        }
                        assert(new_sel[k] == p.elems(g)[i]);
                        if *old(first) {
                            assert(p.elems(g) == s0.drop_first());
                            assert(p.elems(g)[i] == s0[i + 1]);
                        } else {
                            assert(p.elems(g) == s0.subrange(step, len));
                            assert(p.elems(g)[i] == s0[i + step]);
                        }
                    }
                    assert(new_sel =~= old_sel.drop_first());
                }
            }
        }
        r
    }

    fn stepping_back<F: Fn(u64, Vec<ZVal>) -> ZVal>(
        p: &mut Box<Pipe>,
        sm1: usize,
        first: bool,
        call: &F,
    ) -> (r: Option<ZVal>)
        requires
            old(p).wf(),
            old(p).back_ok(),
            old(p).exact(),
            sm1 < usize::MAX,
            callable(*call),
        ensures
            back_step(*call, Pipe::Stepping(*old(p), sm1, first), Pipe::Stepping(*final(p), sm1, first), r),
        decreases old(p).depth(), 2nat,
    {
        let len = p.len();
        let step = sm1 + 1;
        let rem = len % step;
        let idx = if first {
            if rem == 0 {
                sm1
            } else {
                rem - 1
            }
        } else {
            rem
        };
        let ghost start: int = if first { 0 } else { step - 1 };
        let r = p.nth_back(idx, call);
        proof {
            lemma_count_bounds(len as int, start, step as int);
            if !first {
                lemma_other_count(len as int, step as int);
                lemma_other_count(p.hint().0 as int, step as int);
            }
            if start < len {
                lemma_last_position(len as int, start, step as int);
            } else if !first {
                vstd::arithmetic::div_mod::lemma_small_mod(len as nat, step as nat);
            }
            assert forall|g: Callbacks| #[trigger] agrees(*call, g) implies step_back(
                step_seq(old(p).elems(g), step as int, first),
                step_seq(p.elems(g), step as int, first),
                r,
            ) by {
                let s0 = old(p).elems(g);
                if r is Some {
                    let old_sel = step_seq(s0, step as int, first);
                    let new_sel = step_seq(p.elems(g), step as int, first);
                    let c = count_from(len as int, start, step as int);
                    assert forall|k: int| 0 <= k < new_sel.len() implies #[trigger] new_sel[k] == old_sel[k] by {
                        assert(k * step <= (c - 2) * step) by {
                            vstd::arithmetic::mul::lemma_mul_inequality(k, c - 2, step as int);
                        }
                        assert((c - 2) * step == (c - 1) * step - step) by {
                            vstd::arithmetic::mul::lemma_mul_is_distributive_sub(step as int, c - 1, 1);
                            vstd::arithmetic::mul::lemma_mul_is_commutative(step as int, c - 1);
                            vstd::arithmetic::mul::lemma_mul_is_commutative(step as int, c - 2);
                        }
                    }
                    assert(new_sel =~= old_sel.drop_last());
                }
            }
        }
        r
    }

    #[verifier::spinoff_prover]
    #[verifier::rlimit(40)]
    fn flattening_next<F: Fn(u64, Vec<ZVal>) -> ZVal>(
        p: &mut Option<Box<Pipe>>,
        e: Expand,
        f: &mut Option<SimpleZValIter>,
        b: &mut Option<SimpleZValIter>,
        call: &F,
    ) -> (r: Option<ZVal>)
        requires
            Pipe::Flattening(*old(p), e, *old(f), *old(b)).wf(),
            callable(*call),
        ensures
            front_step(
                *call,
                Pipe::Flattening(*old(p), e, *old(f), *old(b)),
                Pipe::Flattening(*final(p), e, *final(f), *final(b)),
                r,
            ),
        decreases opt_depth(*old(p)), 2nat,
    {
        loop
            invariant
                Pipe::Flattening(*p, e, *f, *b).wf(),
                callable(*call),
                *b == *old(b),
                opt_depth(*p) <= opt_depth(*old(p)),
                Pipe::Flattening(*old(p), e, *old(f), *old(b)).back_ok() ==> Pipe::Flattening(*p, e, *f, *b).back_ok(),
                Pipe::Flattening(*p, e, *f, *b).fuel() <= Pipe::Flattening(*old(p), e, *old(f), *old(b)).fuel(),
                forall|g: Callbacks| #[trigger] agrees(*call, g) ==>
                    Pipe::Flattening(*old(p), e, *old(f), *old(b)).elems(g) == Pipe::Flattening(*p, e, *f, *b).elems(g),
            decreases Pipe::Flattening(*p, e, *f, *b).fuel(),
        {
            let ghost st0 = Pipe::Flattening(*p, e, *f, *b);
            let fr = match f {
                Some(it) => it.next(),
                None => None,
            };
            if fr.is_some() {
                proof {
                    assert forall|g: Callbacks| #[trigger] agrees(*call, g) implies step_front(
                        st0.elems(g),
                        Pipe::Flattening(*p, e, *f, *b).elems(g),
                        fr,
                    ) by {
                        assert(st0.elems(g).drop_first() =~= Pipe::Flattening(*p, e, *f, *b).elems(g));
                    }
                }
                return fr;
            }
            *f = None;
            let ghost st1 = Pipe::Flattening(*p, e, *f, *b);
            let item = match p {
                Some(q) => q.next(call),
                None => None,
            };
            match item {
                None => {
                    *p = None;
                    let br = match b {
                        Some(it) => it.next(),
                        None => None,
                    };
                    if br.is_none() {
                        *b = None;
                    }
                    proof {
                        assert forall|g: Callbacks| #[trigger] agrees(*call, g) implies step_front(
                            Pipe::Flattening(*old(p), e, *old(f), *old(b)).elems(g),
                            Pipe::Flattening(*p, e, *f, *b).elems(g),
                            br,
                        ) by {
                            lemma_flat_empty(g, e);
                            assert(st1.elems(g) =~= buf_rest(*old(b)));
                            assert(Pipe::Flattening(*p, e, *f, *b).elems(g) =~= buf_rest(*b));
                        }
                    }
                    return br;
                },
                Some(x) => {
                    let vals = run_expand(e, x, call);
                    let ghost xv = x@;
                    *f = Some(SimpleZValIter::new(vals));
                    proof {
                        assert(buf_rest(*f).len() < buffer_bound());
                        assert forall|g: Callbacks| #[trigger] agrees(*call, g) implies st1.elems(g)
                            == Pipe::Flattening(*p, e, *f, *b).elems(g) by {
                            lemma_flat_front(opt_elems(st1->Flattening_0, g), g, e);
                            assert(st1.elems(g) =~= Pipe::Flattening(*p, e, *f, *b).elems(g));
                        }
                    }
                },
            }
        }
    }

    #[verifier::spinoff_prover]
    #[verifier::rlimit(40)]
    fn flattening_back<F: Fn(u64, Vec<ZVal>) -> ZVal>(
        p: &mut Option<Box<Pipe>>,
        e: Expand,
        f: &mut Option<SimpleZValIter>,
        b: &mut Option<SimpleZValIter>,
        call: &F,
    ) -> (r: Option<ZVal>)
        requires
            Pipe::Flattening(*old(p), e, *old(f), *old(b)).wf(),
            Pipe::Flattening(*old(p), e, *old(f), *old(b)).back_ok(),
            callable(*call),
        ensures
            back_step(
                *call,
                Pipe::Flattening(*old(p), e, *old(f), *old(b)),
                Pipe::Flattening(*final(p), e, *final(f), *final(b)),
                r,
            ),
        decreases opt_depth(*old(p)), 2nat,
    {
        loop
            invariant
                Pipe::Flattening(*p, e, *f, *b).wf(),
                Pipe::Flattening(*p, e, *f, *b).back_ok(),
                callable(*call),
                *f == *old(f),
                opt_depth(*p) <= opt_depth(*old(p)),
                Pipe::Flattening(*p, e, *f, *b).fuel() <= Pipe::Flattening(*old(p), e, *old(f), *old(b)).fuel(),
                forall|g: Callbacks| #[trigger] agrees(*call, g) ==>
                    Pipe::Flattening(*old(p), e, *old(f), *old(b)).elems(g) == Pipe::Flattening(*p, e, *f, *b).elems(g),
            decreases Pipe::Flattening(*p, e, *f, *b).fuel(),
        {
            let ghost st0 = Pipe::Flattening(*p, e, *f, *b);
            let br = match b {
                Some(it) => it.next_back(),
                None => None,
            };
            if br.is_some() {
                proof {
                    assert forall|g: Callbacks| #[trigger] agrees(*call, g) implies step_back(
                        st0.elems(g),
                        Pipe::Flattening(*p, e, *f, *b).elems(g),
                        br,
                    ) by {
                        assert(st0.elems(g).drop_last() =~= Pipe::Flattening(*p, e, *f, *b).elems(g));
                    }
                }
                return br;
            }
            *b = None;
            let ghost st1 = Pipe::Flattening(*p, e, *f, *b);
            let item = match p {
                Some(q) => q.next_back(call),
                None => None,
            };
            match item {
                None => {
                    *p = None;
                    let fr = match f {
                        Some(it) => it.next_back(),
                        None => None,
                    };
                    if fr.is_none() {
                        *f = None;
                    }
                    proof {
                        assert forall|g: Callbacks| #[trigger] agrees(*call, g) implies step_back(
                            Pipe::Flattening(*old(p), e, *old(f), *old(b)).elems(g),
                            Pipe::Flattening(*p, e, *f, *b).elems(g),
                            fr,
                        ) by {
                            lemma_flat_empty(g, e);
                            assert(st1.elems(g) =~= buf_rest(*old(f)));
                            assert(Pipe::Flattening(*p, e, *f, *b).elems(g) =~= buf_rest(*f));
                        }
                    }
                    return fr;
                },
                Some(x) => {
                    let vals = run_expand(e, x, call);
                    *b = Some(SimpleZValIter::new(vals));
                    proof {
                        assert(buf_rest(*b).len() < buffer_bound());
                        assert(buf_rest(*f).len() < buffer_bound());
                        assert forall|g: Callbacks| #[trigger] agrees(*call, g) implies st1.elems(g)
                            == Pipe::Flattening(*p, e, *f, *b).elems(g) by {
                            lemma_flat_back(opt_elems(st1->Flattening_0, g), g, e);
                            assert(st1.elems(g) =~= Pipe::Flattening(*p, e, *f, *b).elems(g));
                        }
                    }
                },
            }
        }
    }

    fn source_next<F: Fn(u64, Vec<ZVal>) -> ZVal>(s: &mut SimpleZValIter, call: &F) -> (r: Option<ZVal>)
        requires
            old(s).wf(),
        ensures
            front_step(*call, Pipe::Source(*old(s)), Pipe::Source(*final(s)), r),
    {
        let r = s.next();
        assert(forall|g: Callbacks| #[trigger] agrees(*call, g) ==> step_front(
            Pipe::Source(*old(s)).elems(g), Pipe::Source(*s).elems(g), r));
        r
    }

    fn source_back<F: Fn(u64, Vec<ZVal>) -> ZVal>(s: &mut SimpleZValIter, call: &F) -> (r: Option<ZVal>)
        requires
            old(s).wf(),
        ensures
            back_step(*call, Pipe::Source(*old(s)), Pipe::Source(*final(s)), r),
    {
        let r = s.next_back();
        assert(forall|g: Callbacks| #[trigger] agrees(*call, g) ==> step_back(
            Pipe::Source(*old(s)).elems(g), Pipe::Source(*s).elems(g), r));
        r
    }

    fn mapped_next<F: Fn(u64, Vec<ZVal>) -> ZVal>(p: &mut Box<Pipe>, cb: u64, call: &F) -> (r: Option<ZVal>)
        requires
            old(p).wf(),
            callable(*call),
        ensures
            front_step(*call, Pipe::Mapped(*old(p), cb), Pipe::Mapped(*final(p), cb), r),
        decreases old(p).depth(), 2nat,
    {
        match p.next(call) {
            None => None,
            Some(x) => {
                let y = run_map(cb, x, call);
                proof {
                    assert forall|g: Callbacks| #[trigger] agrees(*call, g) implies step_front(
                        map_seq(old(p).elems(g), g, cb),
                        map_seq(final(p).elems(g), g, cb),
                        Some(y),
                    ) by {
                        assert(map_seq(final(p).elems(g), g, cb) =~= map_seq(old(p).elems(g), g, cb).drop_first());
                    }
                }
                Some(y)
            },
        }
    }

    fn mapped_back<F: Fn(u64, Vec<ZVal>) -> ZVal>(p: &mut Box<Pipe>, cb: u64, call: &F) -> (r: Option<ZVal>)
        requires
            old(p).wf(),
            old(p).back_ok(),
            callable(*call),
        ensures
            back_step(*call, Pipe::Mapped(*old(p), cb), Pipe::Mapped(*final(p), cb), r),
        decreases old(p).depth(), 2nat,
    {
        match p.next_back(call) {
            None => None,
            Some(x) => {
                let y = run_map(cb, x, call);
                proof {
                    assert forall|g: Callbacks| #[trigger] agrees(*call, g) implies step_back(
                        map_seq(old(p).elems(g), g, cb),
                        map_seq(final(p).elems(g), g, cb),
                        Some(y),
                    ) by {
                        assert(map_seq(final(p).elems(g), g, cb) =~= map_seq(old(p).elems(g), g, cb).drop_last());
                    }
                }
                Some(y)
            },
        }
    }

    fn inspected_next<F: Fn(u64, Vec<ZVal>) -> ZVal>(p: &mut Box<Pipe>, cb: u64, log: &mut CallLog, call: &F) -> (r:
        Option<ZVal>)
        requires
            old(p).wf(),
            callable(*call),
        ensures
            front_step(
                *call,
                Pipe::Inspected(*old(p), cb, *old(log)),
                Pipe::Inspected(*final(p), cb, *final(log)),
                r,
            ),
        decreases old(p).depth(), 2nat,
    {
        let r = p.next(call);
        if let Some(x) = &r {
            let args = vec![x.clone_val()];
            proof {
                assert(views(args@) =~= seq![x@]);
            }
            let _ = log.call(call, cb, args);
        }
        r
    }

    fn inspected_back<F: Fn(u64, Vec<ZVal>) -> ZVal>(p: &mut Box<Pipe>, cb: u64, log: &mut CallLog, call: &F) -> (r:
        Option<ZVal>)
        requires
            old(p).wf(),
            old(p).back_ok(),
            callable(*call),
        ensures
            back_step(
                *call,
                Pipe::Inspected(*old(p), cb, *old(log)),
                Pipe::Inspected(*final(p), cb, *final(log)),
                r,
            ),
        decreases old(p).depth(), 2nat,
    {
        let r = p.next_back(call);
        if let Some(x) = &r {
            let args = vec![x.clone_val()];
            proof {
                assert(views(args@) =~= seq![x@]);
            }
            let _ = log.call(call, cb, args);
        }
        r
    }

    fn filtered_next<F: Fn(u64, Vec<ZVal>) -> ZVal>(p: &mut Box<Pipe>, t: Test, call: &F) -> (r: Option<ZVal>)
        requires
            old(p).wf(),
            callable(*call),
        ensures
            front_step(*call, Pipe::Filtered(*old(p), t), Pipe::Filtered(*final(p), t), r),
        decreases old(p).depth(), 2nat,
    {
        loop
            invariant
                p.wf(),
                callable(*call),
                p.fuel() <= old(p).fuel(),
                p.depth() <= old(p).depth(),
                old(p).back_ok() ==> p.back_ok(),
                forall|g: Callbacks| #[trigger] agrees(*call, g) ==>
                    filter_seq(old(p).elems(g), g, t) == filter_seq(p.elems(g), g, t),
            decreases p.fuel(),
        {
            let ghost before = **p;
            match p.next(call) {
                None => {
                    return None;
                },
                Some(x) => {
                    let keep = run_test(t, &x, call);
                    proof {
                        assert forall|g: Callbacks| #[trigger] agrees(*call, g) implies
                            filter_seq(before.elems(g), g, t) ==
                            (if keep { seq![x@] } else { Seq::empty() }) + filter_seq(p.elems(g), g, t) by {
                            assert(before.elems(g) =~= seq![x@] + p.elems(g));
                            p.elems(g).lemma_filter_prepend(x@, test_fn(g, t));
                        }
                    }
                    if keep {
                        proof {
                            assert forall|g: Callbacks| #[trigger] agrees(*call, g) implies step_front(
                                filter_seq(old(p).elems(g), g, t),
                                filter_seq(p.elems(g), g, t),
                                Some(x),
                            ) by {
                                assert((seq![x@] + filter_seq(p.elems(g), g, t)).drop_first()
                                    =~= filter_seq(p.elems(g), g, t));
                            }
                        }
                        return Some(x);
                    }
                },
            }
        }
    }

    fn filtered_back<F: Fn(u64, Vec<ZVal>) -> ZVal>(p: &mut Box<Pipe>, t: Test, call: &F) -> (r: Option<ZVal>)
        requires
            old(p).wf(),
            old(p).back_ok(),
            callable(*call),
        ensures
            back_step(*call, Pipe::Filtered(*old(p), t), Pipe::Filtered(*final(p), t), r),
        decreases old(p).depth(), 2nat,
    {
        loop
            invariant
                p.wf(),
                p.back_ok(),
                callable(*call),
                p.fuel() <= old(p).fuel(),
                p.depth() <= old(p).depth(),
                forall|g: Callbacks| #[trigger] agrees(*call, g) ==>
                    filter_seq(old(p).elems(g), g, t) == filter_seq(p.elems(g), g, t),
            decreases p.fuel(),
        {
            let ghost before = **p;
            match p.next_back(call) {
                None => {
                    return None;
                },
                Some(x) => {
                    let keep = run_test(t, &x, call);
                    proof {
                        assert forall|g: Callbacks| #[trigger] agrees(*call, g) implies
                            filter_seq(before.elems(g), g, t) ==
                            filter_seq(p.elems(g), g, t) + (if keep { seq![x@] } else { Seq::empty() }) by {
                            assert(before.elems(g) =~= p.elems(g).push(x@));
                            p.elems(g).lemma_filter_push(x@, test_fn(g, t));
                            reveal(Seq::filter);
                            assert(p.elems(g).push(x@).drop_last() =~= p.elems(g));
                        }
                    }
                    if keep {
                        proof {
                            assert forall|g: Callbacks| #[trigger] agrees(*call, g) implies step_back(
                                filter_seq(old(p).elems(g), g, t),
                                filter_seq(p.elems(g), g, t),
                                Some(x),
                            ) by {
                                assert((filter_seq(p.elems(g), g, t) + seq![x@]).drop_last()
                                    =~= filter_seq(p.elems(g), g, t));
                            }
                        }
                        return Some(x);
                    }
                },
            }
        }
    }

    fn skipping_while_next<F: Fn(u64, Vec<ZVal>) -> ZVal>(
        p: &mut Box<Pipe>,
        t: Test,
        done: &mut bool,
        log: &mut CallLog,
        call: &F,
    ) -> (r: Option<ZVal>)
        requires
            old(p).wf(),
            callable(*call),
        ensures
            front_step(
                *call,
                Pipe::SkippingWhile(*old(p), t, *old(done), *old(log)),
                Pipe::SkippingWhile(*final(p), t, *final(done), *final(log)),
                r,
            ),
        decreases old(p).depth(), 2nat,
    {
        let ghost k: int = 0;
        loop
            invariant
                p.wf(),
                callable(*call),
                *done == *old(done),
                *done ==> log.entries() == old(log).entries(),
                old(log).entries().is_prefix_of(log.entries()),
                p.fuel() <= old(p).fuel(),
                p.depth() <= old(p).depth(),
                0 <= k,
                forall|g: Callbacks| #[trigger] agrees(*call, g) ==>
                    Pipe::SkippingWhile(*old(p), t, *done, *old(log)).elems(g) == Pipe::SkippingWhile(*p, t, *done, *log).elems(g)
                    && k <= old(p).elems(g).len() && p.elems(g) == old(p).elems(g).subrange(k, old(p).elems(g).len() as int)
                    && (!*done ==> log.entries() == old(log).entries() + test_calls(t, old(p).elems(g).subrange(0, k))),
            decreases p.fuel(),
        {
            let ghost before = *p;
            let ghost log0 = log.entries();
            match p.next(call) {
                None => {
                    proof {
                        assert forall|g: Callbacks| #[trigger] agrees(*call, g) implies old(p).elems(g).subrange(
                            0,
                            old(p).elems(g).len() - p.elems(g).len(),
                        ) == old(p).elems(g).subrange(0, k) by {}
                    }
                    return None;
                },
                Some(x) => {
                    proof {
                        assert forall|g: Callbacks| #[trigger] agrees(*call, g) implies p.elems(g) == old(p).elems(
                            g,
                        ).subrange(k + 1, old(p).elems(g).len() as int) && old(p).elems(g)[k] == x@ by {
                            assert(before.elems(g) == seq![x@] + p.elems(g));
                            assert(p.elems(g) =~= old(p).elems(g).subrange(k + 1, old(p).elems(g).len() as int));
                        }
                    }
                    if *done {
                        return Some(x);
                    }
                    let pass = logged_test(t, &x, call, log);
                    proof {
                        assert(old(log).entries().is_prefix_of(log.entries())) by {
                            assert(log.entries().subrange(0, log0.len() as int) =~= log0);
                            assert(log.entries().subrange(0, old(log).entries().len() as int) =~= log0.subrange(0, old(log).entries().len() as int));
                        }
                        assert forall|g: Callbacks| #[trigger] agrees(*call, g) implies
                            drop_while_seq(before.elems(g), test_fn(g, t)) == if pass {
                                drop_while_seq(p.elems(g), test_fn(g, t))
                            } else {
                                before.elems(g)
                            } && log.entries() == old(log).entries() + test_calls(t, old(p).elems(g).subrange(0, k + 1)) by {
                            assert(before.elems(g).drop_first() =~= p.elems(g));
                            let s0 = old(p).elems(g);
                            assert(s0.subrange(0, k + 1) =~= s0.subrange(0, k).push(x@));
                            lemma_test_calls_push(t, s0.subrange(0, k), x@);
                            assert(log0 + test_calls(t, s0.subrange(0, k)) + test_calls(t, seq![x@]) =~= log0 + (test_calls(t, s0.subrange(0, k)) + test_calls(t, seq![x@])));
                        }
                        assert(log.entries().subrange(log.entries().len() - test_calls(t, seq![x@]).len(), log.entries().len() as int) =~= test_calls(t, seq![x@]));
                        k = k + 1;
                    }
                    if !pass {
                        *done = true;
                        return Some(x);
                    }
                },
            }
        }
    }

    fn taking_while_next<F: Fn(u64, Vec<ZVal>) -> ZVal>(
        p: &mut Box<Pipe>,
        t: Test,
        done: &mut bool,
        call: &F,
    ) -> (r: Option<ZVal>)
        requires
            old(p).wf(),
            callable(*call),
        ensures
            front_step(
                *call,
                Pipe::TakingWhile(*old(p), t, *old(done)),
                Pipe::TakingWhile(*final(p), t, *final(done)),
                r,
            ),
        decreases old(p).depth(), 2nat,
    {
        if *done {
            return None;
        }
        match p.next(call) {
            None => None,
            Some(x) => {
                let pass = run_test(t, &x, call);
                proof {
                    assert forall|g: Callbacks| #[trigger] agrees(*call, g) implies
                        take_while_seq(old(p).elems(g), test_fn(g, t)) == if pass {
                            seq![x@] + take_while_seq(p.elems(g), test_fn(g, t))
                        } else {
                            Seq::<Value>::empty()
                        } by {
                        assert(old(p).elems(g).drop_first() =~= p.elems(g));
                    }
                }
                if pass {
                    proof {
                        assert forall|g: Callbacks| #[trigger] agrees(*call, g) implies
                            (seq![x@] + take_while_seq(p.elems(g), test_fn(g, t))).drop_first()
                                == take_while_seq(p.elems(g), test_fn(g, t)) by {
                            assert((seq![x@] + take_while_seq(p.elems(g), test_fn(g, t))).drop_first()
                                =~= take_while_seq(p.elems(g), test_fn(g, t)));
                        }
                    }
                    Some(x)
                } else {
                    *done = true;
                    None
                }
            },
        }
    }

    fn fused_next<F: Fn(u64, Vec<ZVal>) -> ZVal>(p: &mut Option<Box<Pipe>>, call: &F) -> (r: Option<ZVal>)
        requires
            Pipe::Fused(*old(p)).wf(),
            callable(*call),
        ensures
            front_step(*call, Pipe::Fused(*old(p)), Pipe::Fused(*final(p)), r),
        decreases opt_depth(*old(p)), 2nat,
    {
        let r = match p {
            Some(q) => q.next(call),
            None => None,
        };
        if r.is_none() {
            *p = None;
        }
        r
    }

    fn fused_back<F: Fn(u64, Vec<ZVal>) -> ZVal>(p: &mut Option<Box<Pipe>>, call: &F) -> (r: Option<ZVal>)
        requires
            Pipe::Fused(*old(p)).wf(),
            Pipe::Fused(*old(p)).back_ok(),
            callable(*call),
        ensures
            back_step(*call, Pipe::Fused(*old(p)), Pipe::Fused(*final(p)), r),
        decreases opt_depth(*old(p)), 2nat,
    {
        let r = match p {
            Some(q) => q.next_back(call),
            None => None,
        };
        if r.is_none() {
            *p = None;
        }
        r
    }

    fn chained_next<F: Fn(u64, Vec<ZVal>) -> ZVal>(
        a: &mut Option<Box<Pipe>>,
        b: &mut Option<Box<Pipe>>,
        call: &F,
    ) -> (r: Option<ZVal>)
        requires
            Pipe::Chained(*old(a), *old(b)).wf(),
            callable(*call),
        ensures
            front_step(*call, Pipe::Chained(*old(a), *old(b)), Pipe::Chained(*final(a), *final(b)), r),
        decreases vstd::math::max(opt_depth(*old(a)) as int, opt_depth(*old(b)) as int), 2nat,
    {
        let ra = match a {
            Some(q) => q.next(call),
            None => None,
        };
        if ra.is_some() {
            proof {
                assert forall|g: Callbacks| #[trigger] agrees(*call, g) implies step_front(
                    Pipe::Chained(*old(a), *old(b)).elems(g),
                    Pipe::Chained(*a, *b).elems(g),
                    ra,
                ) by {
                    assert((opt_elems(*old(a), g) + opt_elems(*b, g)).drop_first()
                        =~= opt_elems(*a, g) + opt_elems(*b, g));
                }
            }
            return ra;
        }
        *a = None;
        let ghost mid_b = *b;
        let rb = match b {
            Some(q) => q.next(call),
            None => None,
        };
        proof {
            assert forall|g: Callbacks| #[trigger] agrees(*call, g) implies step_front(
                Pipe::Chained(*old(a), *old(b)).elems(g),
                Pipe::Chained(*a, *b).elems(g),
                rb,
            ) by {
                assert(opt_elems(*old(a), g).len() == 0);
                assert(Pipe::Chained(*old(a), *old(b)).elems(g) =~= opt_elems(*old(b), g));
                assert(Pipe::Chained(*a, *b).elems(g) =~= opt_elems(*b, g));
            }
        }
        rb
    }

    fn chained_back<F: Fn(u64, Vec<ZVal>) -> ZVal>(
        a: &mut Option<Box<Pipe>>,
        b: &mut Option<Box<Pipe>>,
        call: &F,
    ) -> (r: Option<ZVal>)
        requires
            Pipe::Chained(*old(a), *old(b)).wf(),
            Pipe::Chained(*old(a), *old(b)).back_ok(),
            callable(*call),
        ensures
            back_step(*call, Pipe::Chained(*old(a), *old(b)), Pipe::Chained(*final(a), *final(b)), r),
        decreases vstd::math::max(opt_depth(*old(a)) as int, opt_depth(*old(b)) as int), 2nat,
    {
        let rb = match b {
            Some(q) => q.next_back(call),
            None => None,
        };
        if rb.is_some() {
            proof {
                assert forall|g: Callbacks| #[trigger] agrees(*call, g) implies step_back(
                    Pipe::Chained(*old(a), *old(b)).elems(g),
                    Pipe::Chained(*a, *b).elems(g),
                    rb,
                ) by {
                    assert((opt_elems(*a, g) + opt_elems(*old(b), g)).drop_last()
                        =~= opt_elems(*a, g) + opt_elems(*b, g));
                }
            }
            return rb;
        }
        *b = None;
        let ra = match a {
            Some(q) => q.next_back(call),
            None => None,
        };
        proof {
            assert forall|g: Callbacks| #[trigger] agrees(*call, g) implies step_back(
                Pipe::Chained(*old(a), *old(b)).elems(g),
                Pipe::Chained(*a, *b).elems(g),
                ra,
            ) by {
                assert(opt_elems(*old(b), g).len() == 0);
                assert(Pipe::Chained(*old(a), *old(b)).elems(g) =~= opt_elems(*old(a), g));
                assert(Pipe::Chained(*a, *b).elems(g) =~= opt_elems(*a, g));
            }
        }
        ra
    }

    /// Takes the element `n` places from the front, dropping those before it.
    pub fn nth<F: Fn(u64, Vec<ZVal>) -> ZVal>(&mut self, n: usize, call: &F) -> (r: Option<ZVal>)
        requires
            old(self).wf(),
            callable(*call),
        ensures
            nth_step(*call, *old(self), *final(self), n as int, r),
            exists|taken: Seq<Value>| #[trigger] run_logged(*old(self), *final(self), taken) && forall|g: Callbacks|
                #[trigger] agrees(*call, g) ==> taken + final(self).elems(g) == old(self).elems(g),
        decreases old(self).depth(), 1nat,
    {
        let ghost mut taken: Seq<Value> = Seq::empty();
        proof {
            lemma_run_logged_start(*self);
            assert forall|g: Callbacks| #[trigger] agrees(*call, g) implies taken + self.elems(g) == old(self).elems(g) by {
                assert(Seq::<Value>::empty() + self.elems(g) =~= self.elems(g));
            }
        }
        let mut i: usize = 0;
        while i < n
            invariant
                i <= n,
                self.wf(),
                callable(*call),
                self.depth() <= old(self).depth(),
                old(self).back_ok() ==> self.back_ok(),
                old(self).exact() ==> self.exact(),
                old(self).exact() ==> i <= old(self).hint().0 && self.hint().0 == old(self).hint().0 - i,
                self.fuel() + i <= old(self).fuel(),
                run_logged(*old(self), *self, taken),
                forall|g: Callbacks| #[trigger] agrees(*call, g) ==> taken + self.elems(g) == old(self).elems(g),
                forall|g: Callbacks| #[trigger] agrees(*call, g) ==>
                    i <= old(self).elems(g).len() && self.elems(g) == old(self).elems(g).subrange(
                        i as int,
                        old(self).elems(g).len() as int,
                    ),
            decreases n - i,
        {
            let ghost before = *self;
            let nx = self.next(call);
            proof {
                lemma_taken_step(*call, *old(self), before, *self, taken, nx);
                taken = next_taken(taken, nx);
            }
            match nx {
                None => {
                    proof {
                        assert forall|g: Callbacks| #[trigger] agrees(*call, g) implies step_nth(
                            old(self).elems(g),
                            self.elems(g),
                            n as int,
                            None,
                        ) by {}
                    }
                    return None;
                },
                Some(_) => {
                    proof {
                        assert forall|g: Callbacks| #[trigger] agrees(*call, g) implies i + 1
                            <= old(self).elems(g).len() && self.elems(g) == old(self).elems(
                            g,
                        ).subrange(i + 1, old(self).elems(g).len() as int) by {
                            assert(self.elems(g) =~= old(self).elems(g).subrange(
                                i + 1,
                                old(self).elems(g).len() as int,
                            ));
                        }
                    }
                },
            }
            i = i + 1;
        }
        let ghost mid = *self;
        let r = self.next(call);
        proof {
            lemma_taken_step(*call, *old(self), mid, *self, taken, r);
            taken = next_taken(taken, r);
            assert forall|g: Callbacks| #[trigger] agrees(*call, g) implies step_nth(
                old(self).elems(g),
                self.elems(g),
                n as int,
                r,
            ) by {
                if r is Some {
                    assert(self.elems(g) =~= old(self).elems(g).subrange(
                        n + 1,
                        old(self).elems(g).len() as int,
                    ));
                }
            }
        }
        r
    }

    /// Takes the element `n` places from the back, dropping those after it.
    pub fn nth_back<F: Fn(u64, Vec<ZVal>) -> ZVal>(&mut self, n: usize, call: &F) -> (r: Option<ZVal>)
        requires
            old(self).wf(),
            old(self).back_ok(),
            callable(*call),
        ensures
            nth_back_step(*call, *old(self), *final(self), n as int, r),
            exists|taken: Seq<Value>| #[trigger] run_logged_back(*old(self), *final(self), taken) && forall|g: Callbacks|
                #[trigger] agrees(*call, g) ==> final(self).elems(g) + taken.reverse() == old(self).elems(g),
        decreases old(self).depth(), 1nat,
    {
        let ghost mut taken: Seq<Value> = Seq::empty();
        proof {
            lemma_run_logged_back_start(*self);
            assert forall|g: Callbacks| #[trigger] agrees(*call, g) implies self.elems(g) + taken.reverse() == old(self).elems(g) by {
                assert(self.elems(g) + Seq::<Value>::empty().reverse() =~= self.elems(g));
            }
        }
        let mut i: usize = 0;
        while i < n
            invariant
                i <= n,
                self.wf(),
                self.back_ok(),
                callable(*call),
                self.depth() <= old(self).depth(),
                old(self).exact() ==> self.exact(),
                old(self).exact() ==> i <= old(self).hint().0 && self.hint().0 == old(self).hint().0 - i,
                self.fuel() + i <= old(self).fuel(),
                run_logged_back(*old(self), *self, taken),
                forall|g: Callbacks| #[trigger] agrees(*call, g) ==> self.elems(g) + taken.reverse() == old(self).elems(g),
                forall|g: Callbacks| #[trigger] agrees(*call, g) ==>
                    i <= old(self).elems(g).len() && self.elems(g) == old(self).elems(g).subrange(
                        0,
                        old(self).elems(g).len() - i,
                    ),
            decreases n - i,
        {
            let ghost before_b = *self;
            let nb = self.next_back(call);
            proof {
                lemma_taken_back_step(*call, *old(self), before_b, *self, taken, nb);
                taken = next_taken(taken, nb);
            }
            match nb {
                None => {
                    return None;
                },
                Some(_) => {
                    proof {
                        assert forall|g: Callbacks| #[trigger] agrees(*call, g) implies i + 1
                            <= old(self).elems(g).len() && self.elems(g) == old(self).elems(
                            g,
                        ).subrange(0, old(self).elems(g).len() - (i + 1)) by {
                            assert(self.elems(g) =~= old(self).elems(g).subrange(
                                0,
                                old(self).elems(g).len() - (i + 1),
                            ));
                        }
                    }
                },
            }
            i = i + 1;
        }
        let ghost mid_b = *self;
        let r = self.next_back(call);
        proof {
            lemma_taken_back_step(*call, *old(self), mid_b, *self, taken, r);
            taken = next_taken(taken, r);
            assert forall|g: Callbacks| #[trigger] agrees(*call, g) implies step_nth_back(
                old(self).elems(g),
                self.elems(g),
                n as int,
                r,
            ) by {
                if r is Some {
                    assert(self.elems(g) =~= old(self).elems(g).subrange(
                        0,
                        old(self).elems(g).len() - 1 - n,
                    ));
                }
            }
        }
        r
    }
}

/// The bounds that `hint` gives hold of the remaining elements, whatever the
/// callbacks return, and are exact where the pipeline is.
pub proof fn lemma_hint(p: Pipe, g: Callbacks)
    requires
        p.wf(),
    ensures
        p.hint().0 <= p.elems(g).len(),
        p.hint().1 matches Some(u) ==> p.elems(g).len() <= u,
        p.exact() ==> p.hint().1 == Some(p.hint().0) && p.hint().0 == p.elems(g).len(),
    decreases p,
{
    match p {
        Pipe::Source(s) => {},
        Pipe::Mapped(q, _) => {
            lemma_hint(*q, g);
        },
        Pipe::Filtered(q, t) => {
            lemma_hint(*q, g);
            q.elems(g).lemma_filter_len(test_fn(g, t));
        },
        Pipe::Inspected(q, _, _) => {
            lemma_hint(*q, g);
        },
        Pipe::SkippingWhile(q, t, _, _) => {
            lemma_hint(*q, g);
            lemma_drop_while_len(q.elems(g), test_fn(g, t));
        },
        Pipe::TakingWhile(q, t, _) => {
            lemma_hint(*q, g);
            lemma_take_while_len(q.elems(g), test_fn(g, t));
        },
        Pipe::Skipping(q, _) => {
            lemma_hint(*q, g);
        },
        Pipe::Taking(q, _) => {
            lemma_hint(*q, g);
        },
        Pipe::Stepping(q, sm1, first) => {
            lemma_hint(*q, g);
            let step = sm1 + 1;
            let len = q.elems(g).len() as int;
            let lo = q.hint().0 as int;
            let start = if first { 0 } else { step - 1 };
            lemma_count_mono(lo, len, start, step);
            lemma_count_bounds(lo, start, step);
            lemma_count_bounds(len, start, step);
            if !first {
                lemma_other_count(lo, step);
                lemma_other_count(len, step);
            }
            if let Some(u) = q.hint().1 {
                lemma_count_mono(len, u as int, start, step);
                lemma_count_bounds(u as int, start, step);
                if !first {
                    lemma_other_count(u as int, step);
                }
            }
        },
        Pipe::Enumerated(q, _) => {
            lemma_hint(*q, g);
        },
        Pipe::Chained(a, b) => {
            if let Some(a) = a {
                lemma_hint(*a, g);
            }
            if let Some(b) = b {
                lemma_hint(*b, g);
            }
        },
        Pipe::Zipped(a, b) => {
            lemma_hint(*a, g);
            lemma_hint(*b, g);
        },
        Pipe::Flattening(q, e, f, b) => {
            if let Some(q) = q {
                lemma_hint(*q, g);
                if q.hint() == (0usize, Some(0usize)) {
                    assert(q.elems(g).map_values(|x: Value| crate::model::expand(g, e, x)) =~= Seq::<Seq<Value>>::empty());
                }
            } else {
                assert(Seq::<Value>::empty().map_values(|x: Value| crate::model::expand(g, e, x)) =~= Seq::<Seq<Value>>::empty());
            }
        },
        Pipe::Fused(q) => {
            if let Some(q) = q {
                lemma_hint(*q, g);
            }
        },
        Pipe::Reversed(q) => {
            lemma_hint(*q, g);
        },
    }
}

} // verus!
