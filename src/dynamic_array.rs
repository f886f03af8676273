//! A growable array over a fixed-length backing vector whose capacity
//! doubles when it fills up.

use vstd::prelude::*;
use vstd::std_specs::cmp::PartialEqSpec;

verus! {

/// Returned when a slot past the end is asked for.
#[derive(Clone, Copy, Debug, PartialEq, Eq, Structural)]
pub struct IndexOutOfBounds;

/// A growable array. The first `len` slots of the backing vector hold the
/// values; the rest hold filler values and wait to be used.
pub struct Array<T> {
    /// The backing vector; its length is the capacity.
    pub arr: Vec<T>,
    /// The number of slots in the backing vector.
    pub capacity: usize,
    /// The number of stored values.
    pub len: usize,
}

impl<T> View for Array<T> {
    type V = Seq<T>;

    /// The stored values, in order.
    open spec fn view(&self) -> Seq<T> {
        self.arr@.take(self.len as int)
    }
}

/// A vector of `n` copies of one `T::default()` value.
fn defaults<T: Default + Copy>(n: usize) -> (v: Vec<T>)
    ensures
        v@.len() == n,
        forall|i: int, j: int| 0 <= i < n && 0 <= j < n ==> v@[i] == v@[j],
{
    let filler = T::default();
    let mut v: Vec<T> = Vec::with_capacity(n);
    let mut i: usize = 0;
    while i < n
        invariant
            i <= n,
            v@.len() == i,
            forall|j: int| 0 <= j < i ==> v@[j] == filler,
        decreases n - i,
    {
        v.push(filler);
        i += 1;
    }
    v
}

/// The capacity after adding to an array with `len` values and `capacity`
/// slots: doubled when the array is about to fill up.
pub open spec fn grown_capacity(len: nat, capacity: nat) -> nat {
    if len + 1 >= capacity {
        if capacity == 0 {
            1
        } else {
            2 * capacity
        }
    } else {
        capacity
    }
}

impl<T: Default + Copy + PartialEq> Array<T> {
    /// The backing vector is as long as the capacity, which bounds the count
    /// of values and fits in an `isize`.
    pub open spec fn wf(&self) -> bool {
        &&& self.arr@.len() == self.capacity
        &&& self.len <= self.capacity
        &&& self.capacity <= isize::MAX
    }

    /// An empty array with room for `capacity` values, each slot holding
    /// the same `T::default()` value.
    pub fn new(capacity: usize) -> (a: Self)
        requires
            capacity <= isize::MAX,
        ensures
            a.wf(),
            a@ == Seq::<T>::empty(),
            a.capacity == capacity,
            a.len == 0,
            forall|i: int, j: int|
                0 <= i < capacity && 0 <= j < capacity ==> a.arr@[i] == a.arr@[j],
    {
        let arr = defaults(capacity);
        let a = Array { arr, capacity, len: 0 };
        assert(a@ =~= Seq::<T>::empty());
        a
    }

    /// An empty array with room for 16 values.
    pub fn default() -> (a: Self)
        ensures
            a.wf(),
            a@ == Seq::<T>::empty(),
            a.capacity == 16,
            a.len == 0,
            forall|i: int, j: int| 0 <= i < 16 && 0 <= j < 16 ==> a.arr@[i] == a.arr@[j],
    {
        Array::new(16)
    }

    /// The number of stored values.
    pub fn len(&self) -> (r: usize)
        requires
            self.wf(),
        ensures
            r == self@.len(),
    {
        self.len
    }

    /// Whether no value is stored.
    pub fn is_empty(&self) -> (r: bool)
        requires
            self.wf(),
        ensures
            r == (self@.len() == 0),
    {
        self.len == 0
    }

    /// The slot at `index` of the backing vector, if `index` is below the
    /// capacity; slots past the count hold filler values.
    pub fn get(&self, index: usize) -> (r: Option<&T>)
        requires
            self.wf(),
        ensures
            match r {
                Some(v) => index < self.capacity && *v == self.arr@[index as int],
                None => index >= self.capacity,
            },
    {
        if index < self.capacity {
            Some(&self.arr[index])
        } else {
            None
        }
    }

    /// Overwrites slot `index` of the backing vector; the count stays. An
    /// index at or past the capacity is refused and nothing changes.
    pub fn set(&mut self, element: T, index: usize) -> (r: Result<(), IndexOutOfBounds>)
        requires
            old(self).wf(),
        ensures
            final(self).wf(),
            r is Ok <==> index < old(self).capacity,
            r is Ok ==> final(self).arr@ == old(self).arr@.update(index as int, element)
                && final(self).len == old(self).len && final(self).capacity == old(self).capacity,
            r is Err ==> *final(self) == *old(self),
    {
        if index >= self.capacity {
            Err(IndexOutOfBounds)
        } else {
            self.arr.set(index, element);
            Ok(())
        }
    }

    /// Removes every value; the capacity stays.
    pub fn clear(&mut self)
        requires
            old(self).wf(),
        ensures
            final(self).wf(),
            final(self)@ == Seq::<T>::empty(),
            final(self).capacity == old(self).capacity,
    {
        let mut index: usize = 0;
        while index < self.capacity
            invariant
                index <= self.capacity,
                self.arr@.len() == self.capacity,
                self.capacity == old(self).capacity,
                self.capacity <= isize::MAX,
            decreases self.capacity - index,
        {
            self.arr.set(index, T::default());
            index += 1;
        }
        self.len = 0;
        assert(self@ =~= Seq::<T>::empty());
    }

    /// Appends `new_item`, doubling the capacity first when the array is
    /// about to fill up.
    pub fn add(&mut self, new_item: T)
        requires
            old(self).wf(),
            old(self)@.len() < isize::MAX / 2,
        ensures
            final(self).wf(),
            final(self)@ == old(self)@.push(new_item),
            final(self).capacity == grown_capacity(old(self).len as nat, old(self).capacity as nat),
            old(self).len + 1 < old(self).capacity ==> final(self).arr@ == old(self).arr@.update(
                old(self).len as int,
                new_item,
            ),
    {
        if self.len + 1 >= self.capacity {
            let new_capacity = if self.capacity == 0 {
                1
            } else {
                self.capacity * 2
            };
            let mut new_arr = defaults(new_capacity);
            let mut index: usize = 0;
            while index < self.len
                invariant
                    index <= self.len,
                    self.len <= self.capacity,
                    self.capacity <= new_capacity,
                    self.arr@.len() == self.capacity,
                    new_arr@.len() == new_capacity,
                    self.arr == old(self).arr,
                    self.len == old(self).len,
                    forall|i: int| 0 <= i < index ==> new_arr@[i] == self.arr@[i],
                decreases self.len - index,
            {
                new_arr.set(index, self.arr[index]);
                index += 1;
            }
            self.arr = new_arr;
            self.capacity = new_capacity;
            assert(self@ =~= old(self)@);
        }
        self.arr.set(self.len, new_item);
        self.len += 1;
        assert(self@ =~= old(self)@.push(new_item));
    }

    /// Removes the value at `rm_index` and closes the gap; an index at or
    /// past the count is refused and nothing changes.
    pub fn remove_at(&mut self, rm_index: usize) -> (r: Result<(), IndexOutOfBounds>)
        requires
            old(self).wf(),
        ensures
            final(self).wf(),
            r is Ok <==> rm_index < old(self)@.len(),
            r is Ok ==> final(self)@ == old(self)@.remove(rm_index as int)
                && final(self).capacity == old(self).capacity,
            r is Err ==> *final(self) == *old(self),
    {
        if rm_index >= self.len {
            return Err(IndexOutOfBounds);
        }
        let mut new_arr = defaults(self.capacity);
        let mut j: usize = 0;
        let mut i: usize = 0;
        while i < self.len
            invariant
                i <= self.len,
                self.len <= self.capacity,
                rm_index < self.len,
                self.arr@.len() == self.capacity,
                new_arr@.len() == self.capacity,
                self.arr == old(self).arr,
                self.len == old(self).len,
                j == (if i <= rm_index { i } else { (i - 1) as usize }),
                forall|k: int| 0 <= k < j ==> new_arr@[k] == old(self)@.remove(rm_index as int)[k],
            decreases self.len - i,
        {
            if i != rm_index {
                new_arr.set(j, self.arr[i]);
                j += 1;
            }
            i += 1;
        }
        self.arr = new_arr;
        self.len = self.len - 1;
        assert(self@ =~= old(self)@.remove(rm_index as int));
        Ok(())
    }

    /// Removes the last value; an empty array is refused.
    pub fn remove(&mut self) -> (r: Result<(), IndexOutOfBounds>)
        requires
            old(self).wf(),
        ensures
            final(self).wf(),
            r is Ok <==> old(self)@.len() > 0,
            r is Ok ==> final(self)@ == old(self)@.drop_last()
                && final(self).capacity == old(self).capacity,
            r is Err ==> *final(self) == *old(self),
    {
        if self.len == 0 {
            return Err(IndexOutOfBounds);
        }
        self.len -= 1;
        self.arr.set(self.len, T::default());
        assert(self@ =~= old(self)@.drop_last());
        Ok(())
    }

    /// The first position whose value equals `item`, or -1 when none does.
    pub fn index(&self, item: T) -> (r: isize)
        requires
            self.wf(),
        ensures
            -1 <= r < self@.len(),
            T::obeys_eq_spec() ==> {
                &&& r >= 0 ==> item.eq_spec(&self@[r as int])
                &&& forall|i: int| 0 <= i < self@.len() && (r < 0 || i < r) ==> !item.eq_spec(
                    &self@[i],
                )
            },
    {
        let mut index: usize = 0;
        while index < self.len
            invariant
                index <= self.len,
                self.len <= self.capacity,
                self.capacity <= isize::MAX,
                self.arr@.len() == self.capacity,
                T::obeys_eq_spec() ==> forall|i: int| 0 <= i < index ==> !item.eq_spec(&self@[i]),
            decreases self.len - index,
        {
            if item == self.arr[index] {
                return index as isize;
            }
            index += 1;
        }
        -1
    }
}

} // verus!
