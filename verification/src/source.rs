//! The iterator over the values of a PHP array.
use vstd::prelude::*;
use crate::value::{ZVal, Value};
use crate::model::{views, step_front, step_back};

verus! {

/// An iterator over the values of an array, from both ends.
pub struct SimpleZValIter {
    pub inner: Vec<ZVal>,
    pub size: usize,
    pub pos_front: usize,
    pub pos_back: usize,
}

impl SimpleZValIter {
    pub open spec fn wf(&self) -> bool {
        self.pos_front <= self.pos_back <= self.inner.len()
    }

    /// The values not yet returned.
    pub open spec fn rest(&self) -> Seq<Value> {
        views(self.inner@.subrange(self.pos_front as int, self.pos_back as int))
    }

    /// An iterator over all of `values`.
    pub fn new(values: Vec<ZVal>) -> (r: SimpleZValIter)
        ensures
            r.wf(),
            r.rest() == views(values@),
    {
        let size = values.len();
        let r = SimpleZValIter { inner: values, size, pos_front: 0, pos_back: size };
        assert(r.inner@.subrange(0, size as int) =~= r.inner@);
        r
    }

    pub fn next(&mut self) -> (r: Option<ZVal>)
        requires
            old(self).wf(),
        ensures
            final(self).wf(),
            final(self).inner == old(self).inner,
            step_front(old(self).rest(), final(self).rest(), r),
            final(self).pos_back == old(self).pos_back,
            r is Some ==> final(self).pos_front == old(self).pos_front + 1,
            r is None ==> final(self).pos_front == old(self).pos_front,
    {
        if self.pos_front == self.pos_back {
            return None;
        }
        let v = self.inner[self.pos_front].clone_val();
        self.pos_front = self.pos_front + 1;
        assert(self.rest() =~= old(self).rest().drop_first());
        Some(v)
    }

    pub fn next_back(&mut self) -> (r: Option<ZVal>)
        requires
            old(self).wf(),
        ensures
            final(self).wf(),
            final(self).inner == old(self).inner,
            step_back(old(self).rest(), final(self).rest(), r),
            final(self).pos_front == old(self).pos_front,
            r is Some ==> final(self).pos_back + 1 == old(self).pos_back,
            r is None ==> final(self).pos_back == old(self).pos_back,
    {
        if self.pos_back == self.pos_front {
            return None;
        }
        self.pos_back = self.pos_back - 1;
        let v = self.inner[self.pos_back].clone_val();
        assert(self.rest() =~= old(self).rest().drop_last());
        Some(v)
    }

    /// The number of values not yet returned.
    pub fn len(&self) -> (r: usize)
        requires
            self.wf(),
        ensures
            r == self.rest().len(),
    {
        self.pos_back - self.pos_front
    }

    /// Lower and upper bound on the values left: both exact.
    pub fn size_hint(&self) -> (r: (usize, Option<usize>))
        requires
            self.wf(),
        ensures
            r.0 == self.rest().len(),
            r.1 == Some(self.rest().len() as usize),
    {
        let left = self.pos_back - self.pos_front;
        (left, Some(left))
    }

    /// A copy of the iterator at the same positions.
    pub fn clone(&self) -> (r: SimpleZValIter)
        requires
            self.wf(),
        ensures
            r.wf(),
            r.rest() == self.rest(),
            r.size == self.size,
            r.pos_front == self.pos_front,
            r.pos_back == self.pos_back,
    {
        let mut items: Vec<ZVal> = Vec::new();
        let mut i: usize = 0;
        while i < self.inner.len()
            invariant
                i <= self.inner.len(),
                items.len() == i,
                forall|j: int| 0 <= j < i ==> #[trigger] items@[j]@ == self.inner@[j]@,
            decreases self.inner.len() - i,
        {
            items.push(self.inner[i].clone_val());
            i = i + 1;
        }
        let r = SimpleZValIter {
            inner: items,
            size: self.size,
            pos_front: self.pos_front,
            pos_back: self.pos_back,
        };
        assert(r.rest() =~= self.rest());
        r
    }
}

impl ZVal {
    /// The values of an array, as an iterator.
    pub fn into_iter(self) -> (r: SimpleZValIter)
        requires
            self is Array,
        ensures
            r.wf(),
            r.rest() == crate::model::values_of(self@),
    {
        match self {
            ZVal::Array(entries) => {
                let mut values: Vec<ZVal> = Vec::new();
                let mut i: usize = 0;
                while i < entries.len()
                    invariant
                        i <= entries.len(),
                        values.len() == i,
                        forall|j: int| 0 <= j < i ==> #[trigger] values@[j]@ == entries@[j].1@,
                    decreases entries.len() - i,
                {
                    values.push(entries[i].1.clone_val());
                    i = i + 1;
                }
                let r = SimpleZValIter::new(values);
                assert(views(values@) =~= crate::model::values_of(self@));
                r
            },
            _ => SimpleZValIter::new(Vec::new()),
        }
    }
}

} // verus!
