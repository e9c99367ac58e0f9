//! The fixed-capacity vector: `N` inline slots of which a prefix is live.
use crate::common::SetLenOnDrop;
use crate::error::{OutOfMemoryError, WriteZeroError};
use crate::iter::IntoIter;
use vstd::prelude::*;
use vstd::std_specs::cmp::PartialEqSpec;

verus! {

/// A vector of at most `N` elements stored inline.
///
/// Slot `i` holds a value exactly when `i < len`; the live prefix, in index
/// order, is the view of the container.
pub struct ArrayVec<T, const N: usize> {
    buf: [Option<T>; N],
    len: usize,
}

/// Builds the array of `N` vacant slots with `core::array::from_fn`; the
/// contract claims that every slot of the result is `None`.
#[verifier::external_body]
fn vacant_slots<T, const N: usize>() -> (slots: [Option<T>; N])
    ensures
        forall|i: int| 0 <= i < N ==> slots@[i] is None,
{
    core::array::from_fn(|_i| None)
}

/// The elements of `s` whose flag in `keep` is set, in their order.
pub open spec fn retained<T>(s: Seq<T>, keep: Seq<bool>) -> Seq<T>
    decreases s.len(),
{
    if s.len() == 0 || keep.len() != s.len() {
        Seq::empty()
    } else if keep.last() {
        retained(s.drop_last(), keep.drop_last()).push(s.last())
    } else {
        retained(s.drop_last(), keep.drop_last())
    }
}

/// Whether `keep` records one pass over `s` that drops an element exactly
/// when `same(element, last kept element, true)` was observed: the first
/// element is kept, and every later one is compared with the element kept
/// last before it.
pub open spec fn dedup_pass<T>(
    s: Seq<T>,
    keep: Seq<bool>,
    same: spec_fn(T, T, bool) -> bool,
) -> bool {
    &&& keep.len() == s.len()
    &&& s.len() > 0 ==> keep[0]
    &&& forall|i: int|
        1 <= i < s.len() ==> same(
            s[i],
            retained(s.take(i), keep.take(i)).last(),
            !#[trigger] keep[i],
        )
}

/// What is known of the answers of `==` on `T`: where `T` keeps to its
/// specification of equality, the answer is that specification's.
pub open spec fn eq_answers<T: PartialEq>() -> spec_fn(T, T, bool) -> bool {
    |a: T, b: T, r: bool| T::obeys_eq_spec() ==> r == a.eq_spec(&b)
}

/// What one pass of `dedup_by` keeps, given the first element and, for each
/// later position, the value that the element had after its comparison
/// (`cur_after`), the value that the element kept last had after that
/// comparison (`prev_after`) and whether the element was dropped (`dup`).
/// Position 0 of the three sequences is not read.
pub open spec fn dedup_kept<T>(
    first: T,
    cur_after: Seq<T>,
    prev_after: Seq<T>,
    dup: Seq<bool>,
) -> Seq<T>
    decreases dup.len(),
{
    if dup.len() <= 1 {
        seq![first]
    } else {
        let front = dedup_kept(
            first,
            cur_after.drop_last(),
            prev_after.drop_last(),
            dup.drop_last(),
        );
        let settled = front.drop_last().push(prev_after.last());
        if dup.last() {
            settled
        } else {
            settled.push(cur_after.last())
        }
    }
}

/// Whether the four sequences are as long as `s` and `prev_before` holds,
/// for each position behind the first, the element that was kept last
/// when that position was compared.
pub open spec fn dedup_trace<T>(
    s: Seq<T>,
    cur_after: Seq<T>,
    prev_before: Seq<T>,
    prev_after: Seq<T>,
    dup: Seq<bool>,
) -> bool {
    &&& cur_after.len() == s.len()
    &&& prev_before.len() == s.len()
    &&& prev_after.len() == s.len()
    &&& dup.len() == s.len()
    &&& forall|i: int|
        1 <= i < s.len() ==> #[trigger] prev_before[i] == dedup_kept(
            s[0],
            cur_after.take(i),
            prev_after.take(i),
            dup.take(i),
        ).last()
}

/// One more comparison: how what is kept and the trace go on when the
/// sequences of a pass over the first `i` elements of `s` get one entry
/// more each.
pub proof fn lemma_dedup_step<T>(
    s: Seq<T>,
    i: int,
    cur_after: Seq<T>,
    prev_before: Seq<T>,
    prev_after: Seq<T>,
    dup: Seq<bool>,
    current: T,
    last_kept: T,
    is_dup: bool,
)
    requires
        1 <= i < s.len(),
        dedup_trace(s.take(i), cur_after, prev_before, prev_after, dup),
    ensures
        ({
            let kept = dedup_kept(s[0], cur_after, prev_after, dup);
            let settled = kept.drop_last().push(last_kept);
            &&& kept.len() >= 1
            &&& dedup_kept(
                s[0],
                cur_after.push(current),
                prev_after.push(last_kept),
                dup.push(is_dup),
            ) == (if is_dup {
                settled
            } else {
                settled.push(current)
            })
            &&& dedup_trace(
                s.take(i + 1),
                cur_after.push(current),
                prev_before.push(kept.last()),
                prev_after.push(last_kept),
                dup.push(is_dup),
            )
        }),
{
    let kept = dedup_kept(s[0], cur_after, prev_after, dup);
    let next_cur = cur_after.push(current);
    let next_before = prev_before.push(kept.last());
    let next_prev = prev_after.push(last_kept);
    let next_dup = dup.push(is_dup);
    lemma_dedup_kept_nonempty(s[0], cur_after, prev_after, dup);
    assert(next_cur.drop_last() =~= cur_after);
    assert(next_prev.drop_last() =~= prev_after);
    assert(next_dup.drop_last() =~= dup);
    assert(s.take(i)[0] == s[0]);
    assert(s.take(i + 1)[0] == s[0]);
    assert forall|j: int| 1 <= j < i + 1 implies #[trigger] next_before[j] == dedup_kept(
        s[0],
        next_cur.take(j),
        next_prev.take(j),
        next_dup.take(j),
    ).last() by {
        if j < i {
            assert(next_cur.take(j) =~= cur_after.take(j));
            assert(next_prev.take(j) =~= prev_after.take(j));
            assert(next_dup.take(j) =~= dup.take(j));
            assert(next_before[j] == prev_before[j]);
        } else {
            assert(next_cur.take(j) =~= cur_after);
            assert(next_prev.take(j) =~= prev_after);
            assert(next_dup.take(j) =~= dup);
        }
    }
}

/// What a pass keeps is never empty.
pub proof fn lemma_dedup_kept_nonempty<T>(
    first: T,
    cur_after: Seq<T>,
    prev_after: Seq<T>,
    dup: Seq<bool>,
)
    ensures
        dedup_kept(first, cur_after, prev_after, dup).len() >= 1,
    decreases dup.len(),
{
    if dup.len() > 1 {
        lemma_dedup_kept_nonempty(
            first,
            cur_after.drop_last(),
            prev_after.drop_last(),
            dup.drop_last(),
        );
    }
}

/// Removing one element keeps the others in their order: the element at
/// `a` of what is left stood before the element at `b` in `s` too.
pub proof fn lemma_remove_keeps_order<T>(s: Seq<T>, index: int, a: int, b: int)
    requires
        0 <= index < s.len(),
        0 <= a < b < s.len() - 1,
    ensures
        ({
            let from_a = if a < index {
                a
            } else {
                a + 1
            };
            let from_b = if b < index {
                b
            } else {
                b + 1
            };
            &&& from_a < from_b
            &&& s.remove(index)[a] == s[from_a]
            &&& s.remove(index)[b] == s[from_b]
        }),
{
}

/// Wraps every element of `value` into `Some` with `<[T; M]>::map`; the
/// contract claims that slot `i` of the result holds element `i`.
#[verifier::external_body]
fn occupied_slots<T, const M: usize>(value: [T; M]) -> (slots: [Option<T>; M])
    ensures
        forall|i: int| 0 <= i < M ==> slots@[i] == Some(value@[i]),
{
    value.map(Some)
}

/// Turns `v` into a boxed slice with `Vec::into_boxed_slice`; the contract
/// claims that the box holds the elements of `v` in their order.
#[verifier::external_body]
fn boxed_slice<T>(v: Vec<T>) -> (b: Box<[T]>)
    ensures
        b@ == v@,
{
    v.into_boxed_slice()
}

impl<T, const N: usize> View for ArrayVec<T, N> {
    type V = Seq<T>;

    closed spec fn view(&self) -> Seq<T> {
        Seq::new(self.len as nat, |i: int| self.buf@[i]->0)
    }
}

impl<T, const N: usize> ArrayVec<T, N> {
    /// The storage invariant: the length is within the capacity, the slots
    /// below it are occupied and the slots from it on are vacant.
    pub closed spec fn inv(&self) -> bool {
        &&& self.len <= N
        &&& forall|i: int| 0 <= i < self.len ==> self.buf@[i] is Some
        &&& forall|i: int| self.len <= i < N ==> self.buf@[i] is None
    }

    /// A well-formed container never holds more than `N` elements.
    pub proof fn lemma_len_within_capacity(&self)
        requires
            self.inv(),
        ensures
            self@.len() <= N,
    {
    }

    /// The container made of `buf` and `len`, of which the caller knows
    /// that exactly the first `len` slots are occupied.
    pub fn from_raw_parts(buf: [Option<T>; N], len: usize) -> (vec: ArrayVec<T, N>)
        requires
            len <= N,
            forall|i: int| 0 <= i < len ==> buf@[i] is Some,
            forall|i: int| len <= i < N ==> buf@[i] is None,
        ensures
            vec.inv(),
            vec@ == Seq::new(len as nat, |i: int| buf@[i]->0),
    {
        ArrayVec { buf, len }
    }

    /// A container holding the elements of `value`, in order, moved out of
    /// the array.
    pub fn from_array<const M: usize>(value: [T; M]) -> (vec: ArrayVec<T, N>)
        requires
            M <= N,
        ensures
            vec.inv(),
            vec@ == value@,
    {
        let mut source: [Option<T>; M] = occupied_slots(value);
        let mut vec: ArrayVec<T, N> = ArrayVec { buf: vacant_slots(), len: 0 };
        let mut i: usize = 0;
        while i < M
            invariant
                i <= M <= N,
                vec.len == 0,
                forall|j: int| 0 <= j < i ==> vec.buf@[j] == Some(value@[j]),
                forall|j: int| i <= j < N ==> vec.buf@[j] is None,
                forall|j: int| i <= j < M ==> source@[j] == Some(value@[j]),
            decreases M - i,
        {
            let moved = source[i].take();
            vec.buf[i] = moved;
            i = i + 1;
        }
        vec.len = M;
        assert(vec@ =~= value@);
        vec
    }

    /// An empty container.
    pub fn new() -> (vec: ArrayVec<T, N>)
        ensures
            vec.inv(),
            vec@ == Seq::<T>::empty(),
    {
        let vec = ArrayVec { buf: vacant_slots(), len: 0 };
        assert(vec@ =~= Seq::<T>::empty());
        vec
    }

    /// The fixed capacity `N`.
    pub fn capacity(&self) -> (n: usize)
        ensures
            n == N,
    {
        N
    }

    /// The number of live elements.
    pub fn len(&self) -> (n: usize)
        requires
            self.inv(),
        ensures
            n == self@.len(),
            n <= N,
    {
        self.len
    }

    /// Whether no element is live.
    pub fn is_empty(&self) -> (b: bool)
        requires
            self.inv(),
        ensures
            b == (self@.len() == 0),
    {
        self.len == 0
    }

    /// A reference to the element at `index`, or `None` past the live range.
    pub fn get(&self, index: usize) -> (elem: Option<&T>)
        requires
            self.inv(),
        ensures
            index < self@.len() ==> elem == Some(&self@[index as int]),
            index >= self@.len() ==> elem is None,
    {
        if index < self.len {
            self.buf[index].as_ref()
        } else {
            None
        }
    }

    /// A mutable reference to the element at `index`, or `None` past the
    /// live range. What is written through it is the element afterwards.
    pub fn get_mut(&mut self, index: usize) -> (elem: Option<&mut T>)
        requires
            old(self).inv(),
        ensures
            final(self).inv(),
            index >= old(self)@.len() ==> elem is None && final(self)@ == old(self)@,
            index < old(self)@.len() ==> elem is Some && *elem->0 == old(self)@[index as int]
                && final(self)@ == old(self)@.update(index as int, *final(elem->0)),
    {
        if index < self.len {
            let elem = self.buf[index].as_mut();
            elem
        } else {
            None
        }
    }

    /// Appends `value`, or reports that the container is full and leaves it
    /// as it was.
    pub fn push(&mut self, value: T) -> (res: Result<(), OutOfMemoryError>)
        requires
            old(self).inv(),
        ensures
            final(self).inv(),
            old(self)@.len() < N ==> res is Ok && final(self)@ == old(self)@.push(value),
            old(self)@.len() >= N ==> res is Err && final(self)@ == old(self)@,
    {
        let len: usize = self.len;
        if N <= len {
            return Err(OutOfMemoryError(()));
        }
        self.buf[len] = Some(value);
        self.len = len + 1;
        assert(self@ =~= old(self)@.push(value));
        Ok(())
    }

    /// Removes and returns the last element, or `None` when empty.
    pub fn pop(&mut self) -> (res: Option<T>)
        requires
            old(self).inv(),
        ensures
            final(self).inv(),
            old(self)@.len() == 0 ==> res is None && final(self)@ == old(self)@,
            old(self)@.len() > 0 ==> res == Some(old(self)@.last())
                && final(self)@ == old(self)@.drop_last(),
    {
        if self.len == 0 {
            return None;
        }
        self.len = self.len - 1;
        let value = self.buf[self.len].take();
        assert(self@ =~= old(self)@.drop_last());
        value
    }

    /// Inserts `value` at `index`, moving the elements from `index` on one
    /// slot up. A full container is reported and left as it was.
    pub fn insert(&mut self, index: usize, value: T) -> (res: Result<(), OutOfMemoryError>)
        requires
            old(self).inv(),
            index <= old(self)@.len(),
        ensures
            final(self).inv(),
            old(self)@.len() < N ==> res is Ok && final(self)@ == old(self)@.insert(
                index as int,
                value,
            ),
            old(self)@.len() >= N ==> res is Err && final(self)@ == old(self)@,
    {
        let len: usize = self.len;
        if N <= len {
            return Err(OutOfMemoryError(()));
        }
        let mut i: usize = len;
        while index < i
            invariant
                index <= i <= len < N,
                self.len == len,
                self.buf@[i as int] is None,
                forall|j: int| 0 <= j < i ==> self.buf@[j] == old(self).buf@[j],
                forall|j: int| i < j <= len ==> self.buf@[j] == old(self).buf@[j - 1],
                forall|j: int| len < j < N ==> self.buf@[j] is None,
            decreases i,
        {
            let moved = self.buf[i - 1].take();
            self.buf[i] = moved;
            i = i - 1;
        }
        self.buf[index] = Some(value);
        self.len = len + 1;
        assert(self@ =~= old(self)@.insert(index as int, value));
        Ok(())
    }

    /// Removes the element at `index` and returns it; the elements after it
    /// move one slot down and keep their order.
    pub fn remove(&mut self, index: usize) -> (value: T)
        requires
            old(self).inv(),
            index < old(self)@.len(),
        ensures
            final(self).inv(),
            value == old(self)@[index as int],
            final(self)@ == old(self)@.remove(index as int),
    {
        let len: usize = self.len;
        let taken = self.buf[index].take();
        let mut i: usize = index;
        while i + 1 < len
            invariant
                index <= i < len <= N,
                self.len == len,
                self.buf@[i as int] is None,
                forall|j: int| 0 <= j < index ==> self.buf@[j] == old(self).buf@[j],
                forall|j: int| index <= j < i ==> self.buf@[j] == old(self).buf@[j + 1],
                forall|j: int| i < j < N ==> self.buf@[j] == old(self).buf@[j],
            decreases len - i,
        {
            let moved = self.buf[i + 1].take();
            self.buf[i] = moved;
            i = i + 1;
        }
        self.len = len - 1;
        assert(self@ =~= old(self)@.remove(index as int));
        taken.unwrap()
    }

    /// Removes the element at `index` and returns it; the last element takes
    /// its place, so the order of the rest is not kept.
    pub fn swap_remove(&mut self, index: usize) -> (value: T)
        requires
            old(self).inv(),
            index < old(self)@.len(),
        ensures
            final(self).inv(),
            value == old(self)@[index as int],
            final(self)@ == old(self)@.update(index as int, old(self)@.last()).drop_last(),
    {
        let len: usize = self.len;
        let taken = self.buf[index].take();
        if index + 1 < len {
            let last = self.buf[len - 1].take();
            self.buf[index] = last;
        }
        self.len = len - 1;
        assert(self@ =~= old(self)@.update(index as int, old(self)@.last()).drop_last());
        taken.unwrap()
    }

    /// Drops the elements from `new_len` on; does nothing when `new_len` is
    /// not below the length.
    pub fn truncate(&mut self, new_len: usize)
        requires
            old(self).inv(),
        ensures
            final(self).inv(),
            new_len < old(self)@.len() ==> final(self)@ == old(self)@.take(new_len as int),
            new_len >= old(self)@.len() ==> final(self)@ == old(self)@,
    {
        let len: usize = self.len;
        if len < new_len {
            return;
        }
        self.len = new_len;
        let mut i: usize = new_len;
        while i < len
            invariant
                new_len <= i <= len <= N,
                self.len == new_len,
                forall|j: int| 0 <= j < new_len ==> self.buf@[j] == old(self).buf@[j],
                forall|j: int| new_len <= j < i ==> self.buf@[j] is None,
                forall|j: int| i <= j < N ==> self.buf@[j] == old(self).buf@[j],
            decreases len - i,
        {
            self.buf[i] = None;
            i = i + 1;
        }
        assert(self@ =~= old(self)@.take(new_len as int));
    }

    /// Drops every element.
    pub fn clear(&mut self)
        requires
            old(self).inv(),
        ensures
            final(self).inv(),
            final(self)@ == Seq::<T>::empty(),
    {
        self.truncate(0);
        assert(self@ =~= Seq::<T>::empty());
    }

    /// Moves every element of `other` to the end of `self`, leaving `other`
    /// empty. When the two together exceed the capacity, neither changes.
    pub fn append<const M: usize>(&mut self, other: &mut ArrayVec<T, M>) -> (res: Result<
        (),
        OutOfMemoryError,
    >)
        requires
            old(self).inv(),
            old(other).inv(),
        ensures
            final(self).inv(),
            final(other).inv(),
            old(self)@.len() + old(other)@.len() <= N ==> res is Ok && final(self)@ == old(self)@
                + old(other)@ && final(other)@ == Seq::<T>::empty(),
            old(self)@.len() + old(other)@.len() > N ==> res is Err && final(self)@ == old(self)@
                && final(other)@ == old(other)@,
    {
        let len: usize = self.len;
        let other_len: usize = other.len;
        if N - len < other_len {
            return Err(OutOfMemoryError(()));
        }
        let mut i: usize = 0;
        while i < other_len
            invariant
                i <= other_len <= M,
                len + other_len <= N,
                self.len == len,
                other.len == other_len,
                forall|j: int| 0 <= j < len ==> self.buf@[j] == old(self).buf@[j],
                forall|j: int| len <= j < len + i ==> self.buf@[j] == old(other).buf@[j - len],
                forall|j: int| len + i <= j < N ==> self.buf@[j] is None,
                forall|j: int| 0 <= j < i ==> other.buf@[j] is None,
                forall|j: int| i <= j < M ==> other.buf@[j] == old(other).buf@[j],
            decreases other_len - i,
        {
            let moved = other.buf[i].take();
            self.buf[len + i] = moved;
            i = i + 1;
        }
        self.len = len + other_len;
        other.len = 0;
        assert(self@ =~= old(self)@ + old(other)@);
        assert(other@ =~= Seq::<T>::empty());
        Ok(())
    }

    /// Moves the elements from `at` on into a new container of capacity `M`
    /// and keeps those before `at`.
    pub fn split_off<const M: usize>(&mut self, at: usize) -> (tail: ArrayVec<T, M>)
        requires
            old(self).inv(),
            at <= old(self)@.len(),
            old(self)@.len() - at <= M,
        ensures
            final(self).inv(),
            tail.inv(),
            final(self)@ == old(self)@.take(at as int),
            tail@ == old(self)@.skip(at as int),
    {
        let len: usize = self.len;
        let mut other: ArrayVec<T, M> = ArrayVec { buf: vacant_slots(), len: 0 };
        let other_len: usize = len - at;
        let mut i: usize = 0;
        while i < other_len
            invariant
                i <= other_len <= M,
                at + other_len == len <= N,
                self.len == len,
                other.len == 0,
                forall|j: int| 0 <= j < at + i ==> j >= at ==> self.buf@[j] is None,
                forall|j: int| 0 <= j < at ==> self.buf@[j] == old(self).buf@[j],
                forall|j: int| at + i <= j < N ==> self.buf@[j] == old(self).buf@[j],
                forall|j: int| 0 <= j < i ==> other.buf@[j] == old(self).buf@[at + j],
                forall|j: int| i <= j < M ==> other.buf@[j] is None,
            decreases other_len - i,
        {
            let moved = self.buf[at + i].take();
            other.buf[i] = moved;
            i = i + 1;
        }
        self.len = at;
        other.len = other_len;
        assert(self@ =~= old(self)@.take(at as int));
        assert(other@ =~= old(self)@.skip(at as int));
        other
    }

    /// Gives up the container for its slots and its length.
    pub(crate) fn into_parts(self) -> (parts: ([Option<T>; N], usize))
        requires
            self.inv(),
        ensures
            parts.1 == self@.len(),
            parts.1 <= N,
            forall|i: int| 0 <= i < parts.1 ==> parts.0@[i] == Some(self@[i]),
            forall|i: int| parts.1 <= i < N ==> parts.0@[i] is None,
    {
        (self.buf, self.len)
    }

    /// Moves the live elements, in order, into a heap vector.
    pub fn into_vec(self) -> (out: Vec<T>)
        requires
            self.inv(),
        ensures
            out@ == self@,
    {
        let mut this = self;
        let len: usize = this.len;
        let mut out: Vec<T> = Vec::new();
        let mut i: usize = 0;
        while i < len
            invariant
                self.inv(),
                i <= len <= N,
                self.len == len,
                this.len == len,
                out@.len() == i,
                forall|j: int| 0 <= j < i ==> out@[j] == self.buf@[j]->0,
                forall|j: int| i <= j < N ==> this.buf@[j] == self.buf@[j],
            decreases len - i,
        {
            let moved = this.buf[i].take();
            out.push(moved.unwrap());
            i = i + 1;
        }
        assert(out@ =~= self@);
        out
    }

    /// Moves the live elements, in order, into a boxed slice of exactly
    /// their number.
    pub fn into_boxed_slice(self) -> (out: Box<[T]>)
        requires
            self.inv(),
        ensures
            out@ == self@,
    {
        boxed_slice(self.into_vec())
    }

    /// Grows to `new_len` with values made by `f`, one call per new slot, or
    /// truncates to `new_len`. A `new_len` above the capacity is reported
    /// and nothing changes.
    pub fn resize_with<F>(&mut self, new_len: usize, f: F) -> (res: Result<(), OutOfMemoryError>)
        where F: FnMut() -> T
        requires
            old(self).inv(),
            f.requires(()),
        ensures
            final(self).inv(),
            new_len > N ==> res is Err && final(self)@ == old(self)@,
            new_len <= N ==> res is Ok && final(self)@.len() == new_len,
            new_len <= old(self)@.len() ==> final(self)@ == old(self)@.take(new_len as int),
            old(self)@.len() < new_len <= N
                ==> final(self)@.take(old(self)@.len() as int) == old(self)@ && forall|i: int|
                old(self)@.len() <= i < new_len ==> f.ensures((), #[trigger] final(self)@[i]),
    {
        let len: usize = self.len;
        if N < new_len {
            return Err(OutOfMemoryError(()));
        }
        if len < new_len {
            let mut f = f;
            let ghost f0 = f;
            let mut local_len = SetLenOnDrop::new(&mut self.len);
            while local_len.current_len() < new_len
                invariant
                    len <= local_len.local_len <= new_len <= N,
                    *final(local_len.len) == after_borrow(self.len),
                    f == f0,
                    f.requires(()),
                    forall|j: int| 0 <= j < len ==> self.buf@[j] == old(self).buf@[j],
                    forall|j: int|
                        len <= j < local_len.local_len ==> self.buf@[j] is Some && f.ensures(
                            (),
                            self.buf@[j]->0,
                        ),
                    forall|j: int| local_len.local_len <= j < N ==> self.buf@[j] is None,
                decreases new_len - local_len.local_len,
            {
                let element = f();
                self.buf[local_len.current_len()] = Some(element);
                local_len.increment_len(1);
            }
            local_len.release();
            assert(self@.take(len as int) =~= old(self)@);
        } else {
            self.truncate(new_len);
            assert(old(self)@.take(len as int) =~= old(self)@);
        }
        Ok(())
    }
}

impl<T, const N: usize> ArrayVec<T, N> {
    /// Keeps the elements for which `f` answers `true`, in their order, and
    /// drops the others. `f` is asked once per element, front to back.
    pub fn retain<F>(&mut self, f: F)
        where F: FnMut(&T) -> bool
        requires
            old(self).inv(),
            forall|i: int| 0 <= i < old(self)@.len() ==> f.requires((&#[trigger] old(self)@[i],)),
        ensures
            final(self).inv(),
            exists|keep: Seq<bool>|
                keep.len() == old(self)@.len() && (forall|i: int|
                    0 <= i < keep.len() ==> f.ensures((&old(self)@[i],), #[trigger] keep[i]))
                    && final(self)@ == retained(old(self)@, keep),
    {
        let len: usize = self.len;
        let mut f = f;
        let ghost f0 = f;
        let ghost mut keep: Seq<bool> = Seq::empty();
        let mut w: usize = 0;
        let mut i: usize = 0;
        while i < len
            invariant
                w <= i <= len <= N,
                self.len == len,
                old(self).inv(),
                old(self).len == len,
                f == f0,
                forall|j: int| 0 <= j < len ==> f.requires((&#[trigger] old(self)@[j],)),
                keep.len() == i,
                forall|j: int| 0 <= j < i ==> f.ensures((&old(self)@[j],), #[trigger] keep[j]),
                forall|j: int| 0 <= j < w ==> self.buf@[j] is Some,
                Seq::new(w as nat, |j: int| self.buf@[j]->0) == retained(
                    old(self)@.take(i as int),
                    keep,
                ),
                forall|j: int| w <= j < i ==> self.buf@[j] is None,
                forall|j: int| i <= j < N ==> self.buf@[j] == old(self).buf@[j],
            decreases len - i,
        {
            let ghost before = Seq::new(w as nat, |j: int| self.buf@[j]->0);
            let element = self.buf[i].take().unwrap();
            assert(element == old(self)@[i as int]);
            let kept = f(&element);
            proof {
                let next = keep.push(kept);
                assert(next.drop_last() =~= keep);
                assert(old(self)@.take(i + 1).drop_last() =~= old(self)@.take(i as int));
                assert(old(self)@.take(i + 1).last() == element);
                keep = next;
            }
            if kept {
                self.buf[w] = Some(element);
                w = w + 1;
                assert(Seq::new(w as nat, |j: int| self.buf@[j]->0) =~= before.push(element));
            } else {
                assert(Seq::new(w as nat, |j: int| self.buf@[j]->0) =~= before);
            }
            i = i + 1;
        }
        self.len = w;
        assert(old(self)@.take(len as int) =~= old(self)@);
        assert(self@ =~= retained(old(self)@, keep));
    }

    /// As [`ArrayVec::retain`], with a predicate that may change the element
    /// it is asked about; a kept element stays as the predicate left it.
    /// In the contract, `after` holds each element as the predicate left it
    /// and `keep` the answers.
    pub fn retain_mut<F>(&mut self, f: F)
        where F: FnMut(&mut T) -> bool
        requires
            old(self).inv(),
            forall|x: &mut T| old(self)@.contains(*x) ==> #[trigger] f.requires((x,)),
        ensures
            final(self).inv(),
            exists|after: Seq<T>, keep: Seq<bool>|
                after.len() == old(self)@.len() && keep.len() == old(self)@.len() && (forall|
                    i: int,
                |
                    #![trigger keep[i]]
                    0 <= i < keep.len() ==> (keep[i] ==> exists|x: &mut T|
                        #![trigger f.ensures((x,), true)]
                        *x == old(self)@[i] && *final(x) == after[i] && f.ensures((x,), true))
                        && (!keep[i] ==> exists|x: &mut T|
                        #![trigger f.ensures((x,), false)]
                        *x == old(self)@[i] && *final(x) == after[i] && f.ensures((x,), false)))
                    && final(self)@ == retained(after, keep),
    {
        let len: usize = self.len;
        let mut f = f;
        let ghost f0 = f;
        let ghost mut after: Seq<T> = Seq::empty();
        let ghost mut keep: Seq<bool> = Seq::empty();
        let mut w: usize = 0;
        let mut i: usize = 0;
        while i < len
            invariant
                w <= i <= len <= N,
                self.len == len,
                old(self).inv(),
                old(self).len == len,
                f == f0,
                forall|x: &mut T| old(self)@.contains(*x) ==> #[trigger] f.requires((x,)),
                after.len() == i,
                keep.len() == i,
                forall|j: int|
                    #![trigger keep[j]]
                    0 <= j < i ==> (keep[j] ==> exists|x: &mut T|
                        #![trigger f0.ensures((x,), true)]
                        *x == old(self)@[j] && *final(x) == after[j] && f0.ensures((x,), true))
                        && (!keep[j] ==> exists|x: &mut T|
                        #![trigger f0.ensures((x,), false)]
                        *x == old(self)@[j] && *final(x) == after[j] && f0.ensures((x,), false)),
                forall|j: int| 0 <= j < w ==> self.buf@[j] is Some,
                Seq::new(w as nat, |j: int| self.buf@[j]->0) == retained(after, keep),
                forall|j: int| w <= j < i ==> self.buf@[j] is None,
                forall|j: int| i <= j < N ==> self.buf@[j] == old(self).buf@[j],
            decreases len - i,
        {
            let ghost before = Seq::new(w as nat, |j: int| self.buf@[j]->0);
            let mut element = self.buf[i].take().unwrap();
            let ghost asked = element;
            assert(asked == old(self)@[i as int]);
            assert(old(self)@.contains(asked));
            let kept = f(&mut element);
            assert(exists|x: &mut T|
                #![trigger f0.ensures((x,), kept)]
                *x == asked && *final(x) == element && f0.ensures((x,), kept));
            proof {
                let next_after = after.push(element);
                let next_keep = keep.push(kept);
                assert(next_keep.drop_last() =~= keep);
                assert(next_after.drop_last() =~= after);
                assert forall|j: int| #![trigger next_keep[j]] 0 <= j < i + 1 implies (next_keep[j]
                    ==> exists|x: &mut T|
                    #![trigger f0.ensures((x,), true)]
                    *x == old(self)@[j] && *final(x) == next_after[j] && f0.ensures((x,), true))
                    && (!next_keep[j] ==> exists|x: &mut T|
                    #![trigger f0.ensures((x,), false)]
                    *x == old(self)@[j] && *final(x) == next_after[j] && f0.ensures(
                        (x,),
                        false,
                    )) by {
                    if j < i {
                        assert(next_after[j] == after[j]);
                        assert(keep[j] == next_keep[j]);
                    } else {
                        assert(next_after[j] == element);
                        assert(next_keep[j] == kept);
                    }
                }
                after = next_after;
                keep = next_keep;
            }
            if kept {
                self.buf[w] = Some(element);
                w = w + 1;
                assert(Seq::new(w as nat, |j: int| self.buf@[j]->0) =~= before.push(element));
            } else {
                assert(Seq::new(w as nat, |j: int| self.buf@[j]->0) =~= before);
            }
            i = i + 1;
        }
        self.len = w;
        assert(self@ =~= retained(after, keep));
    }

    /// One pass that drops every element which `same_bucket` puts into one
    /// bucket with the element kept last before it; `same` is what is known
    /// of the answers of `same_bucket`.
    fn dedup_pass_by<F>(&mut self, same_bucket: F, Ghost(same): Ghost<spec_fn(T, T, bool) -> bool>)
        where F: FnMut(&T, &T) -> bool
        requires
            old(self).inv(),
            forall|a: T, b: T| #[trigger] same_bucket.requires((&a, &b)),
            forall|a: T, b: T, r: bool| #[trigger]
                same_bucket.ensures((&a, &b), r) ==> same(a, b, r),
        ensures
            final(self).inv(),
            exists|keep: Seq<bool>|
                dedup_pass(old(self)@, keep, same) && final(self)@ == retained(old(self)@, keep),
    {
        let len: usize = self.len;
        let mut f = same_bucket;
        let ghost f0 = f;
        let ghost mut keep: Seq<bool> = Seq::empty();
        let mut w: usize = 0;
        let mut i: usize = 0;
        while i < len
            invariant
                w <= i <= len <= N,
                i > 0 ==> w > 0,
                self.len == len,
                old(self).inv(),
                old(self).len == len,
                f == f0,
                forall|a: T, b: T| #[trigger] f.requires((&a, &b)),
                forall|a: T, b: T, r: bool| #[trigger] f.ensures((&a, &b), r) ==> same(a, b, r),
                dedup_pass(old(self)@.take(i as int), keep, same),
                forall|j: int| 0 <= j < w ==> self.buf@[j] is Some,
                Seq::new(w as nat, |j: int| self.buf@[j]->0) == retained(
                    old(self)@.take(i as int),
                    keep,
                ),
                forall|j: int| w <= j < i ==> self.buf@[j] is None,
                forall|j: int| i <= j < N ==> self.buf@[j] == old(self).buf@[j],
            decreases len - i,
        {
            let ghost before = Seq::new(w as nat, |j: int| self.buf@[j]->0);
            let ghost seen = old(self)@.take(i as int);
            let ghost more = old(self)@.take(i + 1);
            let element = self.buf[i].take().unwrap();
            assert(element == old(self)@[i as int]);
            let dup = if w == 0 {
                false
            } else {
                match &self.buf[w - 1] {
                    Some(last_kept) => {
                        assert(*last_kept == before.last());
                        f(&element, last_kept)
                    },
                    None => false,
                }
            };
            proof {
                let next = keep.push(!dup);
                assert(next.drop_last() =~= keep);
                assert(more.drop_last() =~= seen);
                assert(more.last() == element);
                assert forall|j: int| 1 <= j < more.len() implies same(
                    more[j],
                    retained(more.take(j), next.take(j)).last(),
                    !#[trigger] next[j],
                ) by {
                    assert(more.take(j) =~= seen.take(j));
                    if j < i {
                        assert(next.take(j) =~= keep.take(j));
                        assert(next[j] == keep[j]);
                    } else {
                        assert(next.take(j) =~= keep);
                        assert(seen.take(j) =~= seen);
                    }
                }
                keep = next;
            }
            if !dup {
                self.buf[w] = Some(element);
                w = w + 1;
                assert(Seq::new(w as nat, |j: int| self.buf@[j]->0) =~= before.push(element));
            } else {
                assert(Seq::new(w as nat, |j: int| self.buf@[j]->0) =~= before);
            }
            i = i + 1;
        }
        self.len = w;
        assert(old(self)@.take(len as int) =~= old(self)@);
        assert(self@ =~= retained(old(self)@, keep));
    }

    /// Drops each element that `same_bucket` puts into one bucket with the
    /// element kept last before it, so that of every run the first stays.
    /// `same_bucket` gets the element in question first and the kept one
    /// second, and may change both. In the contract, `prev_before` holds the
    /// kept element as each comparison found it, `cur_after` and
    /// `prev_after` the two as the comparison left them, and `dup` the
    /// answers; see [`dedup_kept`] for what remains.
    pub fn dedup_by<F>(&mut self, same_bucket: F)
        where F: FnMut(&mut T, &mut T) -> bool
        requires
            old(self).inv(),
            forall|a: &mut T, b: &mut T| #[trigger] same_bucket.requires((a, b)),
        ensures
            final(self).inv(),
            old(self)@.len() == 0 ==> final(self)@ == old(self)@,
            old(self)@.len() > 0 ==> exists|
                cur_after: Seq<T>,
                prev_before: Seq<T>,
                prev_after: Seq<T>,
                dup: Seq<bool>,
            |
                #![trigger dedup_trace(old(self)@, cur_after, prev_before, prev_after, dup)]
                dedup_trace(old(self)@, cur_after, prev_before, prev_after, dup) && (forall|i: int|
                    #![trigger dup[i]]
                    1 <= i < old(self)@.len() ==> (dup[i] ==> exists|cur: &mut T, prev: &mut T|
                        #![trigger same_bucket.ensures((cur, prev), true)]
                        *cur == old(self)@[i] && *prev == prev_before[i] && *final(cur)
                            == cur_after[i] && *final(prev) == prev_after[i]
                            && same_bucket.ensures((cur, prev), true)) && (!dup[i] ==> exists|
                        cur: &mut T,
                        prev: &mut T,
                    |
                        #![trigger same_bucket.ensures((cur, prev), false)]
                        *cur == old(self)@[i] && *prev == prev_before[i] && *final(cur)
                            == cur_after[i] && *final(prev) == prev_after[i]
                            && same_bucket.ensures((cur, prev), false))) && final(self)@
                    == dedup_kept(old(self)@[0], cur_after, prev_after, dup),
    {
        let len: usize = self.len;
        if len == 0 {
            return;
        }
        let mut f = same_bucket;
        let ghost f0 = f;
        let ghost first = old(self)@[0];
        let ghost mut cur_after: Seq<T> = seq![first];
        let ghost mut prev_before: Seq<T> = seq![first];
        let ghost mut prev_after: Seq<T> = seq![first];
        let ghost mut dup: Seq<bool> = seq![false];
        let ghost mut kept: Seq<T> = seq![first];
        let mut w: usize = 1;
        let mut i: usize = 1;
        assert(old(self)@.take(1)[0] == first);
        while i < len
            invariant
                1 <= w <= i <= len <= N,
                self.len == len,
                old(self).inv(),
                old(self).len == len,
                first == old(self)@[0],
                f == f0,
                forall|a: &mut T, b: &mut T| #[trigger] f.requires((a, b)),
                cur_after.len() == i,
                prev_before.len() == i,
                prev_after.len() == i,
                dup.len() == i,
                forall|j: int|
                    #![trigger dup[j]]
                    1 <= j < i ==> (dup[j] ==> exists|cur: &mut T, prev: &mut T|
                        #![trigger f0.ensures((cur, prev), true)]
                        *cur == old(self)@[j] && *prev == prev_before[j] && *final(cur)
                            == cur_after[j] && *final(prev) == prev_after[j] && f0.ensures(
                            (cur, prev),
                            true,
                        )) && (!dup[j] ==> exists|cur: &mut T, prev: &mut T|
                        #![trigger f0.ensures((cur, prev), false)]
                        *cur == old(self)@[j] && *prev == prev_before[j] && *final(cur)
                            == cur_after[j] && *final(prev) == prev_after[j] && f0.ensures(
                            (cur, prev),
                            false,
                        )),
                dedup_trace(old(self)@.take(i as int), cur_after, prev_before, prev_after, dup),
                kept == dedup_kept(first, cur_after, prev_after, dup),
                kept.len() == w,
                forall|j: int| 0 <= j < w ==> self.buf@[j] == Some(kept[j]),
                forall|j: int| w <= j < i ==> self.buf@[j] is None,
                forall|j: int| i <= j < N ==> self.buf@[j] == old(self).buf@[j],
            decreases len - i,
        {
            let mut current = self.buf[i].take().unwrap();
            let mut last_kept = self.buf[w - 1].take().unwrap();
            let ghost asked = current;
            let ghost kept_before = last_kept;
            assert(asked == old(self)@[i as int]);
            assert(kept_before == kept.last());
            let is_dup = f(&mut current, &mut last_kept);
            assert(exists|cur: &mut T, prev: &mut T|
                #![trigger f0.ensures((cur, prev), is_dup)]
                *cur == asked && *prev == kept_before && *final(cur) == current && *final(prev)
                    == last_kept && f0.ensures((cur, prev), is_dup));
            proof {
                let next_cur = cur_after.push(current);
                let next_before = prev_before.push(kept_before);
                let next_prev = prev_after.push(last_kept);
                let next_dup = dup.push(is_dup);
                assert forall|j: int| #![trigger next_dup[j]] 1 <= j < i + 1 implies (next_dup[j]
                    ==> exists|cur: &mut T, prev: &mut T|
                    #![trigger f0.ensures((cur, prev), true)]
                    *cur == old(self)@[j] && *prev == next_before[j] && *final(cur) == next_cur[j]
                        && *final(prev) == next_prev[j] && f0.ensures((cur, prev), true)) && (
                !next_dup[j] ==> exists|cur: &mut T, prev: &mut T|
                    #![trigger f0.ensures((cur, prev), false)]
                    *cur == old(self)@[j] && *prev == next_before[j] && *final(cur) == next_cur[j]
                        && *final(prev) == next_prev[j] && f0.ensures((cur, prev), false)) by {
                    if j < i {
                        assert(next_cur[j] == cur_after[j]);
                        assert(next_before[j] == prev_before[j]);
                        assert(next_prev[j] == prev_after[j]);
                        assert(next_dup[j] == dup[j]);
                    } else {
                        assert(next_cur[j] == current);
                        assert(next_before[j] == kept_before);
                        assert(next_prev[j] == last_kept);
                        assert(next_dup[j] == is_dup);
                    }
                }
                lemma_dedup_step(
                    old(self)@,
                    i as int,
                    cur_after,
                    prev_before,
                    prev_after,
                    dup,
                    current,
                    last_kept,
                    is_dup,
                );
                kept = if is_dup {
                    kept.drop_last().push(last_kept)
                } else {
                    kept.drop_last().push(last_kept).push(current)
                };
                cur_after = next_cur;
                prev_before = next_before;
                prev_after = next_prev;
                dup = next_dup;
            }
            self.buf[w - 1] = Some(last_kept);
            if !is_dup {
                self.buf[w] = Some(current);
                w = w + 1;
            }
            i = i + 1;
        }
        self.len = w;
        assert(self@ =~= kept);
        assert(old(self)@.take(len as int) =~= old(self)@);
    }

    /// Drops each element whose key equals the key of the element kept last
    /// before it. `key` is asked about the element in question first and
    /// about the kept one second, and may change both. The sequences of the
    /// contract are those of [`ArrayVec::dedup_by`].
    pub fn dedup_by_key<F, K>(&mut self, key: F)
        where F: FnMut(&mut T) -> K, K: PartialEq
        requires
            old(self).inv(),
            forall|a: &mut T| #[trigger] key.requires((a,)),
        ensures
            final(self).inv(),
            old(self)@.len() == 0 ==> final(self)@ == old(self)@,
            old(self)@.len() > 0 ==> exists|
                cur_after: Seq<T>,
                prev_before: Seq<T>,
                prev_after: Seq<T>,
                dup: Seq<bool>,
            |
                #![trigger dedup_trace(old(self)@, cur_after, prev_before, prev_after, dup)]
                dedup_trace(old(self)@, cur_after, prev_before, prev_after, dup) && (forall|i: int|
                    #![trigger dup[i]]
                    1 <= i < old(self)@.len() ==> (dup[i] ==> exists|
                        cur: &mut T,
                        prev: &mut T,
                        kc: K,
                        kp: K,
                    |
                        #![trigger key.ensures((cur,), kc), key.ensures((prev,), kp)]
                        *cur == old(self)@[i] && *prev == prev_before[i] && *final(cur)
                            == cur_after[i] && *final(prev) == prev_after[i] && key.ensures(
                            (cur,),
                            kc,
                        ) && key.ensures((prev,), kp) && (K::obeys_eq_spec() ==> kc.eq_spec(&kp)))
                        && (!dup[i] ==> exists|cur: &mut T, prev: &mut T, kc: K, kp: K|
                        #![trigger key.ensures((cur,), kc), key.ensures((prev,), kp)]
                        *cur == old(self)@[i] && *prev == prev_before[i] && *final(cur)
                            == cur_after[i] && *final(prev) == prev_after[i] && key.ensures(
                            (cur,),
                            kc,
                        ) && key.ensures((prev,), kp) && (K::obeys_eq_spec() ==> !kc.eq_spec(
                            &kp,
                        )))) && final(self)@ == dedup_kept(
                    old(self)@[0],
                    cur_after,
                    prev_after,
                    dup,
                ),
    {
        let len: usize = self.len;
        if len == 0 {
            return;
        }
        let mut f = key;
        let ghost f0 = f;
        let ghost first = old(self)@[0];
        let ghost mut cur_after: Seq<T> = seq![first];
        let ghost mut prev_before: Seq<T> = seq![first];
        let ghost mut prev_after: Seq<T> = seq![first];
        let ghost mut dup: Seq<bool> = seq![false];
        let ghost mut kept: Seq<T> = seq![first];
        let mut w: usize = 1;
        let mut i: usize = 1;
        assert(old(self)@.take(1)[0] == first);
        while i < len
            invariant
                1 <= w <= i <= len <= N,
                self.len == len,
                old(self).inv(),
                old(self).len == len,
                first == old(self)@[0],
                f == f0,
                forall|a: &mut T| #[trigger] f.requires((a,)),
                cur_after.len() == i,
                prev_before.len() == i,
                prev_after.len() == i,
                dup.len() == i,
                forall|j: int|
                    #![trigger dup[j]]
                    1 <= j < i ==> (dup[j] ==> exists|cur: &mut T, prev: &mut T, kc: K, kp: K|
                        #![trigger f0.ensures((cur,), kc), f0.ensures((prev,), kp)]
                        *cur == old(self)@[j] && *prev == prev_before[j] && *final(cur)
                            == cur_after[j] && *final(prev) == prev_after[j] && f0.ensures(
                            (cur,),
                            kc,
                        ) && f0.ensures((prev,), kp) && (K::obeys_eq_spec() ==> kc.eq_spec(&kp)))
                        && (!dup[j] ==> exists|cur: &mut T, prev: &mut T, kc: K, kp: K|
                        #![trigger f0.ensures((cur,), kc), f0.ensures((prev,), kp)]
                        *cur == old(self)@[j] && *prev == prev_before[j] && *final(cur)
                            == cur_after[j] && *final(prev) == prev_after[j] && f0.ensures(
                            (cur,),
                            kc,
                        ) && f0.ensures((prev,), kp) && (K::obeys_eq_spec() ==> !kc.eq_spec(
                            &kp,
                        ))),
                dedup_trace(old(self)@.take(i as int), cur_after, prev_before, prev_after, dup),
                kept == dedup_kept(first, cur_after, prev_after, dup),
                kept.len() == w,
                forall|j: int| 0 <= j < w ==> self.buf@[j] == Some(kept[j]),
                forall|j: int| w <= j < i ==> self.buf@[j] is None,
                forall|j: int| i <= j < N ==> self.buf@[j] == old(self).buf@[j],
            decreases len - i,
        {
            let mut current = self.buf[i].take().unwrap();
            let mut last_kept = self.buf[w - 1].take().unwrap();
            let ghost asked = current;
            let ghost kept_before = last_kept;
            assert(asked == old(self)@[i as int]);
            assert(kept_before == kept.last());
            let key_current = f(&mut current);
            let key_kept = f(&mut last_kept);
            let is_dup = key_current == key_kept;
            assert(exists|cur: &mut T, prev: &mut T, kc: K, kp: K|
                #![trigger f0.ensures((cur,), kc), f0.ensures((prev,), kp)]
                *cur == asked && *prev == kept_before && *final(cur) == current && *final(prev)
                    == last_kept && f0.ensures((cur,), kc) && f0.ensures((prev,), kp) && (
                K::obeys_eq_spec() ==> is_dup == kc.eq_spec(&kp)));
            proof {
                let next_cur = cur_after.push(current);
                let next_before = prev_before.push(kept_before);
                let next_prev = prev_after.push(last_kept);
                let next_dup = dup.push(is_dup);
                assert forall|j: int| #![trigger next_dup[j]] 1 <= j < i + 1 implies (next_dup[j]
                    ==> exists|cur: &mut T, prev: &mut T, kc: K, kp: K|
                    #![trigger f0.ensures((cur,), kc), f0.ensures((prev,), kp)]
                    *cur == old(self)@[j] && *prev == next_before[j] && *final(cur) == next_cur[j]
                        && *final(prev) == next_prev[j] && f0.ensures((cur,), kc) && f0.ensures(
                        (prev,),
                        kp,
                    ) && (K::obeys_eq_spec() ==> kc.eq_spec(&kp))) && (!next_dup[j] ==> exists|
                    cur: &mut T,
                    prev: &mut T,
                    kc: K,
                    kp: K,
                |
                    #![trigger f0.ensures((cur,), kc), f0.ensures((prev,), kp)]
                    *cur == old(self)@[j] && *prev == next_before[j] && *final(cur) == next_cur[j]
                        && *final(prev) == next_prev[j] && f0.ensures((cur,), kc) && f0.ensures(
                        (prev,),
                        kp,
                    ) && (K::obeys_eq_spec() ==> !kc.eq_spec(&kp))) by {
                    if j < i {
                        assert(next_cur[j] == cur_after[j]);
                        assert(next_before[j] == prev_before[j]);
                        assert(next_prev[j] == prev_after[j]);
                        assert(next_dup[j] == dup[j]);
                    } else {
                        assert(next_cur[j] == current);
                        assert(next_before[j] == kept_before);
                        assert(next_prev[j] == last_kept);
                        assert(next_dup[j] == is_dup);
                    }
                }
                lemma_dedup_step(
                    old(self)@,
                    i as int,
                    cur_after,
                    prev_before,
                    prev_after,
                    dup,
                    current,
                    last_kept,
                    is_dup,
                );
                kept = if is_dup {
                    kept.drop_last().push(last_kept)
                } else {
                    kept.drop_last().push(last_kept).push(current)
                };
                cur_after = next_cur;
                prev_before = next_before;
                prev_after = next_prev;
                dup = next_dup;
            }
            self.buf[w - 1] = Some(last_kept);
            if !is_dup {
                self.buf[w] = Some(current);
                w = w + 1;
            }
            i = i + 1;
        }
        self.len = w;
        assert(self@ =~= kept);
        assert(old(self)@.take(len as int) =~= old(self)@);
    }

    /// Removes the last element and returns it if `predicate` says so; the
    /// predicate may change the element, which stays last when it is kept.
    pub fn pop_if<F>(&mut self, predicate: F) -> (res: Option<T>)
        where F: FnOnce(&mut T) -> bool
        requires
            old(self).inv(),
            forall|x: &mut T| #[trigger] predicate.requires((x,)),
        ensures
            final(self).inv(),
            old(self)@.len() == 0 ==> res is None && final(self)@ == old(self)@,
            old(self)@.len() > 0 ==> exists|x: &mut T, taken: bool|
                *x == old(self)@.last() && #[trigger] predicate.ensures((x,), taken) && (if taken {
                    res == Some(*final(x)) && final(self)@ == old(self)@.drop_last()
                } else {
                    res is None && final(self)@ == old(self)@.drop_last().push(*final(x))
                }),
    {
        if self.len == 0 {
            return None;
        }
        let last: usize = self.len - 1;
        let mut value = self.buf[last].take().unwrap();
        let taken = predicate(&mut value);
        if taken {
            self.len = last;
            assert(self@ =~= old(self)@.drop_last());
            Some(value)
        } else {
            self.buf[last] = Some(value);
            assert(self@ =~= old(self)@.drop_last().push(value));
            None
        }
    }

    /// The iterator that hands out the elements from either end.
    pub fn into_iter(self) -> (iter: IntoIter<T, N>)
        requires
            self.inv(),
        ensures
            iter.inv(),
            iter@ == self@,
    {
        IntoIter::new(self)
    }
}

impl<T: Clone, const N: usize> ArrayVec<T, N> {
    /// Appends `n` slots: clones of `value` and, last, `value` itself.
    fn extend_with(&mut self, n: usize, value: T)
        requires
            old(self).inv(),
            old(self)@.len() + n <= N,
        ensures
            final(self).inv(),
            final(self)@.len() == old(self)@.len() + n,
            final(self)@.take(old(self)@.len() as int) == old(self)@,
            forall|i: int|
                old(self)@.len() <= i < final(self)@.len() - 1 ==> cloned(
                    value,
                    #[trigger] final(self)@[i],
                ),
            n > 0 ==> final(self)@.last() == value,
    {
        let len: usize = self.len;
        if n == 0 {
            assert(self@.take(len as int) =~= self@);
            return;
        }
        let end: usize = len + n - 1;
        let mut local_len = SetLenOnDrop::new(&mut self.len);
        while local_len.current_len() < end
            invariant
                len <= local_len.local_len <= end < N,
                *final(local_len.len) == after_borrow(self.len),
                forall|j: int| 0 <= j < len ==> self.buf@[j] == old(self).buf@[j],
                forall|j: int|
                    len <= j < local_len.local_len ==> self.buf@[j] is Some && cloned(
                        value,
                        self.buf@[j]->0,
                    ),
                forall|j: int| local_len.local_len <= j < N ==> self.buf@[j] is None,
            decreases end - local_len.local_len,
        {
            self.buf[local_len.current_len()] = Some(value.clone());
            local_len.increment_len(1);
        }
        self.buf[local_len.current_len()] = Some(value);
        local_len.increment_len(1);
        local_len.release();
        assert(self@.take(len as int) =~= old(self)@);
    }

    /// Appends a clone of every element of `other`, or, when they do not all
    /// fit, reports it and appends none.
    pub fn extend_from_slice(&mut self, other: &[T]) -> (res: Result<(), OutOfMemoryError>)
        requires
            old(self).inv(),
        ensures
            final(self).inv(),
            old(self)@.len() + other@.len() > N ==> res is Err && final(self)@ == old(self)@,
            old(self)@.len() + other@.len() <= N ==> res is Ok
                && final(self)@.len() == old(self)@.len() + other@.len()
                && final(self)@.take(old(self)@.len() as int) == old(self)@
                && forall|i: int|
                0 <= i < other@.len() ==> cloned(
                    #[trigger] other@[i],
                    final(self)@[old(self)@.len() + i],
                ),
    {
        let len: usize = self.len;
        let other_len: usize = other.len();
        if N - len < other_len {
            return Err(OutOfMemoryError(()));
        }
        let mut local_len = SetLenOnDrop::new(&mut self.len);
        let mut i: usize = 0;
        while i < other_len
            invariant
                i <= other_len == other@.len(),
                len + other_len <= N,
                local_len.local_len == len + i,
                *final(local_len.len) == after_borrow(self.len),
                forall|j: int| 0 <= j < len ==> self.buf@[j] == old(self).buf@[j],
                forall|j: int|
                    len <= j < len + i ==> self.buf@[j] is Some && cloned(
                        other@[j - len],
                        self.buf@[j]->0,
                    ),
                forall|j: int| len + i <= j < N ==> self.buf@[j] is None,
            decreases other_len - i,
        {
            self.buf[local_len.current_len()] = Some(other[i].clone());
            local_len.increment_len(1);
            i = i + 1;
        }
        local_len.release();
        assert(self@.take(len as int) =~= old(self)@);
        Ok(())
    }

    /// Grows to `new_len` with clones of `value` (the last new slot takes
    /// `value` itself), or truncates to `new_len`. A `new_len` above the
    /// capacity is reported and nothing changes.
    pub fn resize(&mut self, new_len: usize, value: T) -> (res: Result<(), OutOfMemoryError>)
        requires
            old(self).inv(),
        ensures
            final(self).inv(),
            new_len > N ==> res is Err && final(self)@ == old(self)@,
            new_len <= N ==> res is Ok && final(self)@.len() == new_len,
            new_len <= old(self)@.len() ==> final(self)@ == old(self)@.take(new_len as int),
            old(self)@.len() < new_len <= N
                ==> final(self)@.take(old(self)@.len() as int) == old(self)@
                && final(self)@.last() == value && forall|i: int|
                old(self)@.len() <= i < new_len - 1 ==> cloned(value, #[trigger] final(self)@[i]),
    {
        let len: usize = self.len;
        if N < new_len {
            return Err(OutOfMemoryError(()));
        }
        if len < new_len {
            self.extend_with(new_len - len, value);
        } else {
            self.truncate(new_len);
            assert(old(self)@.take(len as int) =~= old(self)@);
        }
        Ok(())
    }

    /// A container holding a clone of every element of `slice`, in order,
    /// or the report that `slice` is longer than the capacity.
    pub fn try_from_slice(slice: &[T]) -> (res: Result<ArrayVec<T, N>, OutOfMemoryError>)
        ensures
            slice@.len() > N ==> res is Err,
            slice@.len() <= N ==> res is Ok && res->Ok_0.inv() && res->Ok_0@.len() == slice@.len()
                && forall|i: int|
                0 <= i < slice@.len() ==> cloned(#[trigger] slice@[i], res->Ok_0@[i]),
    {
        let mut vec: ArrayVec<T, N> = ArrayVec::new();
        match vec.extend_from_slice(slice) {
            Ok(()) => Ok(vec),
            Err(e) => Err(e),
        }
    }

    /// A container of `n` elements: clones of `elem` and, last, `elem`
    /// itself; or the report that `n` is above the capacity.
    pub fn from_elem(elem: T, n: usize) -> (res: Result<ArrayVec<T, N>, OutOfMemoryError>)
        ensures
            n > N ==> res is Err,
            n <= N ==> res is Ok && res->Ok_0.inv() && res->Ok_0@.len() == n && (n > 0
                ==> res->Ok_0@.last() == elem) && forall|i: int|
                0 <= i < n - 1 ==> cloned(elem, #[trigger] res->Ok_0@[i]),
    {
        let mut vec: ArrayVec<T, N> = ArrayVec::new();
        match vec.resize(n, elem) {
            Ok(()) => Ok(vec),
            Err(e) => Err(e),
        }
    }

    /// A new container with a clone of every element, in order.
    pub fn clone(&self) -> (copy: ArrayVec<T, N>)
        requires
            self.inv(),
        ensures
            copy.inv(),
            copy@.len() == self@.len(),
            forall|i: int| 0 <= i < self@.len() ==> cloned(self@[i], #[trigger] copy@[i]),
    {
        let mut copy: ArrayVec<T, N> = ArrayVec { buf: vacant_slots(), len: 0 };
        copy.clone_from(self);
        copy
    }

    /// Replaces the contents by a clone of every element of `source`.
    pub fn clone_from(&mut self, source: &ArrayVec<T, N>)
        requires
            old(self).inv(),
            source.inv(),
        ensures
            final(self).inv(),
            final(self)@.len() == source@.len(),
            forall|i: int| 0 <= i < source@.len()
                ==> cloned(source@[i], #[trigger] final(self)@[i]),
    {
        self.truncate(0);
        assert(self@.len() == 0);
        let len: usize = source.len;
        let mut i: usize = 0;
        while i < len
            invariant
                source.inv(),
                i <= len == source.len,
                len <= N,
                self.len == 0,
                forall|j: int|
                    0 <= j < i ==> self.buf@[j] is Some && cloned(
                        source.buf@[j]->0,
                        self.buf@[j]->0,
                    ),
                forall|j: int| i <= j < N ==> self.buf@[j] is None,
            decreases len - i,
        {
            match &source.buf[i] {
                Some(element) => {
                    self.buf[i] = Some(element.clone());
                },
                None => {},
            }
            i = i + 1;
        }
        self.len = len;
    }
}

impl<T: PartialEq, const N: usize> ArrayVec<T, N> {
    /// Drops each element that `==` calls equal to the element kept last
    /// before it: of every run of equal neighbours the first stays.
    pub fn dedup(&mut self)
        requires
            old(self).inv(),
        ensures
            final(self).inv(),
            exists|keep: Seq<bool>|
                dedup_pass(old(self)@, keep, eq_answers::<T>()) && final(self)@ == retained(
                    old(self)@,
                    keep,
                ),
    {
        let same_bucket = |a: &T, b: &T| -> (r: bool)
            ensures
                T::obeys_eq_spec() ==> r == a.eq_spec(b),
            { *a == *b };
        self.dedup_pass_by(same_bucket, Ghost(eq_answers::<T>()));
    }

    /// Whether the two containers hold equal elements in the same order,
    /// whatever their capacities.
    pub fn eq<const M: usize>(&self, other: &ArrayVec<T, M>) -> (same: bool)
        requires
            self.inv(),
            other.inv(),
        ensures
            T::obeys_eq_spec() ==> same == (self@.len() == other@.len() && forall|i: int|
                0 <= i < self@.len() ==> (#[trigger] self@[i]).eq_spec(&other@[i])),
    {
        if self.len != other.len {
            return false;
        }
        let len: usize = self.len;
        let mut i: usize = 0;
        while i < len
            invariant
                self.inv(),
                other.inv(),
                i <= len == self.len,
                other.len == len,
                T::obeys_eq_spec() ==> forall|j: int|
                    0 <= j < i ==> (#[trigger] self@[j]).eq_spec(&other@[j]),
            decreases len - i,
        {
            let equal = match (&self.buf[i], &other.buf[i]) {
                (Some(a), Some(b)) => *a == *b,
                _ => false,
            };
            if !equal {
                assert(T::obeys_eq_spec() ==> !self@[i as int].eq_spec(&other@[i as int]));
                return false;
            }
            i = i + 1;
        }
        true
    }
}

impl<const N: usize> ArrayVec<u8, N> {
    /// Appends as many of the bytes of `buf` as fit, from its start, and
    /// says how many that were.
    pub fn write(&mut self, buf: &[u8]) -> (written: usize)
        requires
            old(self).inv(),
        ensures
            final(self).inv(),
            written == if buf@.len() <= N - old(self)@.len() {
                buf@.len() as int
            } else {
                N - old(self)@.len()
            },
            final(self)@ == old(self)@ + buf@.take(written as int),
    {
        let len: usize = self.len;
        let room: usize = N - len;
        let count: usize = if buf.len() <= room {
            buf.len()
        } else {
            room
        };
        let mut i: usize = 0;
        while i < count
            invariant
                i <= count <= buf@.len(),
                len + count <= N,
                self.len == len,
                forall|j: int| 0 <= j < len ==> self.buf@[j] == old(self).buf@[j],
                forall|j: int| len <= j < len + i ==> self.buf@[j] == Some(buf@[j - len]),
                forall|j: int| len + i <= j < N ==> self.buf@[j] is None,
            decreases count - i,
        {
            self.buf[len + i] = Some(buf[i]);
            i = i + 1;
        }
        self.len = len + count;
        assert(self@ =~= old(self)@ + buf@.take(count as int));
        count
    }

    /// Appends as many of the bytes of `buf` as fit and reports an
    /// incomplete write when that were not all.
    pub fn write_all(&mut self, buf: &[u8]) -> (res: Result<(), WriteZeroError>)
        requires
            old(self).inv(),
        ensures
            final(self).inv(),
            buf@.len() <= N - old(self)@.len() ==> res is Ok && final(self)@ == old(self)@ + buf@,
            buf@.len() > N - old(self)@.len() ==> res == Err::<(), WriteZeroError>(
                WriteZeroError { written: (N - old(self)@.len()) as usize },
            ) && final(self)@ == old(self)@ + buf@.take(N - old(self)@.len()),
    {
        let written: usize = self.write(buf);
        if written == buf.len() {
            assert(buf@.take(written as int) =~= buf@);
            Ok(())
        } else {
            Err(WriteZeroError { written })
        }
    }
}

impl<T, const N: usize> Default for ArrayVec<T, N> {
    /// The empty container.
    fn default() -> (vec: ArrayVec<T, N>)
        ensures
            vec.inv(),
            vec@ == Seq::<T>::empty(),
    {
        ArrayVec::new()
    }
}

} // verus!
