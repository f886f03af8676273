//! First-in first-out queues: one on a growable vector, one on a fixed-size
//! array that refuses values once it is full.

use vstd::prelude::*;

verus! {

/// A first-in first-out queue on a growable vector; the front is slot 0.
pub struct Queue<T>(Vec<T>);

impl<T> View for Queue<T> {
    type V = Seq<T>;

    /// The values from front to back.
    closed spec fn view(&self) -> Seq<T> {
        self.0@
    }
}

impl<T> Queue<T> {
    /// An empty queue.
    pub fn new() -> (q: Self)
        ensures
            q@ == Seq::<T>::empty(),
    {
        Queue(Vec::new())
    }

    /// Puts `val` at the back.
    pub fn enqueue(&mut self, val: T)
        ensures
            final(self)@ == old(self)@.push(val),
    {
        self.0.push(val);
    }

    /// The value at the front, if any.
    pub fn peek(&self) -> (r: Option<&T>)
        ensures
            match r {
                Some(v) => self@.len() > 0 && *v == self@[0],
                None => self@.len() == 0,
            },
    {
        if !self.is_empty() {
            Some(&self.0[0])
        } else {
            None
        }
    }

    /// Takes the value at the front, if any.
    pub fn dequeue(&mut self) -> (r: Option<T>)
        ensures
            match r {
                Some(v) => old(self)@.len() > 0 && v == old(self)@[0] && final(self)@ == old(
                    self,
                )@.drop_first(),
                None => old(self)@.len() == 0 && final(self)@ == old(self)@,
            },
    {
        if !self.is_empty() {
            Some(self.0.remove(0))
        } else {
            None
        }
    }

    /// The number of values in the queue.
    pub fn size(&self) -> (r: usize)
        ensures
            r == self@.len(),
    {
        self.0.len()
    }

    /// Whether the queue holds no value.
    pub fn is_empty(&self) -> (r: bool)
        ensures
            r == (self@.len() == 0),
    {
        self.0.is_empty()
    }
}

/// A first-in first-out queue that holds at most `N` values in an array;
/// the front is slot 0.
pub struct StaticQueue<T, const N: usize> {
    list: [T; N],
    size: usize,
}

impl<T, const N: usize> View for StaticQueue<T, N> {
    type V = Seq<T>;

    /// The values from front to back.
    closed spec fn view(&self) -> Seq<T> {
        self.list@.subrange(0, self.size as int)
    }
}

impl<T: Default + Copy, const N: usize> StaticQueue<T, N> {
    /// The count of stored values never exceeds the capacity.
    pub closed spec fn wf(&self) -> bool {
        self.size <= N
    }

    /// An empty queue.
    pub fn new() -> (q: Self)
        ensures
            q.wf(),
            q@ == Seq::<T>::empty(),
    {
        StaticQueue { list: [T::default(); N], size: 0 }
    }

    /// Whether the queue holds no value.
    pub fn is_empty(&self) -> (r: bool)
        requires
            self.wf(),
        ensures
            r == (self@.len() == 0),
    {
        self.size == 0
    }

    /// Puts `val` at the back; a full queue stays as it is.
    pub fn enqueue(&mut self, val: T)
        requires
            old(self).wf(),
        ensures
            final(self).wf(),
            old(self)@.len() < N ==> final(self)@ == old(self)@.push(val),
            old(self)@.len() >= N ==> final(self)@ == old(self)@,
    {
        if self.size < N {
            self.list[self.size] = val;
            self.size += 1;
        }
        assert(self@ =~= old(self)@.push(val) || self@ =~= old(self)@);
    }

    /// Takes the value at the front, if any, and moves the rest forward.
    pub fn dequeue(&mut self) -> (r: Option<T>)
        requires
            old(self).wf(),
        ensures
            final(self).wf(),
            match r {
                Some(v) => old(self)@.len() > 0 && v == old(self)@[0] && final(self)@ == old(
                    self,
                )@.drop_first(),
                None => old(self)@.len() == 0 && final(self)@ == old(self)@,
            },
    {
        if !self.is_empty() {
            let mut new_list = [T::default(); N];
            let mut index: usize = 0;
            while index < N - 1
                invariant
                    0 < N,
                    index <= N - 1,
                    self.list == old(self).list,
                    forall|i: int| 0 <= i < index ==> new_list@[i] == self.list@[i + 1],
                decreases N - 1 - index,
            {
                new_list[index] = self.list[index + 1];
                index += 1;
            }
            let to_return = self.list[0];
            self.list = new_list;
            self.size -= 1;
            assert(self@ =~= old(self)@.drop_first());
            Some(to_return)
        } else {
            None
        }
    }

    /// The value at the front, if any.
    pub fn peek(&self) -> (r: Option<&T>)
        requires
            self.wf(),
        ensures
            match r {
                Some(v) => self@.len() > 0 && *v == self@[0],
                None => self@.len() == 0,
            },
    {
        if !self.is_empty() {
            Some(&self.list[0])
        } else {
            None
        }
    }

    /// The number of values in the queue.
    pub fn size(&self) -> (r: usize)
        requires
            self.wf(),
        ensures
            r == self@.len(),
    {
        self.size
    }
}

} // verus!
