use vstd::prelude::*;

use crate::range::RangePair;

verus! {

/// A last-in-first-out stack of pending work.
pub trait StackLike<T> {
    spec fn items(&self) -> Seq<T>;

    fn push(&mut self, item: T)
        ensures
            final(self).items() == old(self).items().push(item),
    ;

    fn pop(&mut self) -> (r: Option<T>)
        ensures
            old(self).items().len() == 0 ==> r.is_none() && final(self).items() == old(self).items(),
            old(self).items().len() > 0 ==> r == Some(old(self).items().last())
                && final(self).items() == old(self).items().drop_last(),
    ;

    fn len(&self) -> (r: usize)
        ensures
            r == self.items().len(),
    ;
}

/// The stack of items that the workers of one task take their work from.
/// The tasks run on one thread; the caller shares the stack between them
/// (behind `Rc<RefCell<..>>`).
pub struct SharedVec<T> {
    inner: Vec<T>,
}

impl<T> SharedVec<T> {
    /// A stack holding `list`, its last item on top.
    pub fn new(list: Vec<T>) -> (r: SharedVec<T>)
        ensures
            r.items() == list@,
    {
        SharedVec { inner: list }
    }
}

impl<T> StackLike<T> for SharedVec<T> {
    closed spec fn items(&self) -> Seq<T> {
        self.inner@
    }

    fn push(&mut self, item: T) {
        self.inner.push(item)
    }

    fn pop(&mut self) -> (r: Option<T>) {
        self.inner.pop()
    }

    fn len(&self) -> (r: usize) {
        self.inner.len()
    }
}

/// The stack of pending chunks of an HTTP task.
pub struct SharedRangList {
    inner: Vec<RangePair>,
}

impl SharedRangList {
    /// A stack holding `rangelist`, its last chunk on top.
    pub fn new(rangelist: Vec<RangePair>) -> (r: SharedRangList)
        ensures
            r.items() == rangelist@,
    {
        SharedRangList { inner: rangelist }
    }
}

impl StackLike<RangePair> for SharedRangList {
    closed spec fn items(&self) -> Seq<RangePair> {
        self.inner@
    }

    fn push(&mut self, pair: RangePair) {
        self.inner.push(pair)
    }

    fn pop(&mut self) -> (r: Option<RangePair>) {
        self.inner.pop()
    }

    fn len(&self) -> (r: usize) {
        self.inner.len()
    }
}

} // verus!
