//! The fixed-capacity vector for `Copy` elements.
use crate::error::{OutOfMemoryError, WriteZeroError};
use crate::vec::{dedup_kept, dedup_pass, dedup_trace, eq_answers, retained, ArrayVec};
use vstd::prelude::*;
use vstd::std_specs::cmp::PartialEqSpec;

verus! {

/// A vector of at most `N` `Copy` elements stored inline. It behaves as
/// [`ArrayVec`] does; where that one clones, this one copies, so that its
/// contracts speak of equal elements.
pub struct CopyArrayVec<T: Copy, const N: usize> {
    inner: ArrayVec<T, N>,
}

impl<T: Copy, const N: usize> View for CopyArrayVec<T, N> {
    type V = Seq<T>;

    closed spec fn view(&self) -> Seq<T> {
        self.inner@
    }
}

impl<T: Copy, const N: usize> CopyArrayVec<T, N> {
    /// The storage invariant of the container.
    pub closed spec fn inv(&self) -> bool {
        self.inner.inv()
    }

    /// A well-formed container never holds more than `N` elements.
    pub proof fn lemma_len_within_capacity(&self)
        requires
            self.inv(),
        ensures
            self@.len() <= N,
    {
        self.inner.lemma_len_within_capacity();
    }

    /// An empty container.
    pub fn new() -> (vec: CopyArrayVec<T, N>)
        ensures
            vec.inv(),
            vec@ == Seq::<T>::empty(),
    {
        CopyArrayVec { inner: ArrayVec::new() }
    }

    /// The fixed capacity `N`.
    pub fn capacity(&self) -> (n: usize)
        ensures
            n == N,
    {
        N
    }

    /// The number of live elements.
    pub fn len(&self) -> (n: usize)
        requires
            self.inv(),
        ensures
            n == self@.len(),
            n <= N,
    {
        self.inner.len()
    }

    /// Whether no element is live.
    pub fn is_empty(&self) -> (b: bool)
        requires
            self.inv(),
        ensures
            b == (self@.len() == 0),
    {
        self.inner.is_empty()
    }

    /// The element at `index`, or `None` past the live range.
    pub fn get(&self, index: usize) -> (elem: Option<T>)
        requires
            self.inv(),
        ensures
            index < self@.len() ==> elem == Some(self@[index as int]),
            index >= self@.len() ==> elem is None,
    {
        match self.inner.get(index) {
            Some(x) => Some(*x),
            None => None,
        }
    }

    /// The live elements, in order, as a heap vector.
    pub fn to_vec(&self) -> (out: Vec<T>)
        requires
            self.inv(),
        ensures
            out@ == self@,
    {
        let len: usize = self.inner.len();
        let mut out: Vec<T> = Vec::new();
        let mut i: usize = 0;
        while i < len
            invariant
                self.inv(),
                i <= len == self@.len(),
                out@ == self@.take(i as int),
            decreases len - i,
        {
            match self.inner.get(i) {
                Some(x) => {
                    out.push(*x);
                },
                None => {},
            }
            assert(self@.take(i + 1) =~= self@.take(i as int).push(self@[i as int]));
            i = i + 1;
        }
        assert(self@.take(len as int) =~= self@);
        out
    }

    /// Appends `value`, or reports that the container is full and leaves it
    /// as it was.
    pub fn push(&mut self, value: T) -> (res: Result<(), OutOfMemoryError>)
        requires
            old(self).inv(),
        ensures
            final(self).inv(),
            old(self)@.len() < N ==> res is Ok && final(self)@ == old(self)@.push(value),
            old(self)@.len() >= N ==> res is Err && final(self)@ == old(self)@,
    {
        self.inner.push(value)
    }

    /// Inserts `value` at `index`, moving the elements from `index` on one
    /// slot up. A full container is reported and left as it was.
    pub fn insert(&mut self, index: usize, value: T) -> (res: Result<(), OutOfMemoryError>)
        requires
            old(self).inv(),
            index <= old(self)@.len(),
        ensures
            final(self).inv(),
            old(self)@.len() < N ==> res is Ok && final(self)@ == old(self)@.insert(
                index as int,
                value,
            ),
            old(self)@.len() >= N ==> res is Err && final(self)@ == old(self)@,
    {
        self.inner.insert(index, value)
    }

    /// Removes and returns the last element, or `None` when empty.
    pub fn pop(&mut self) -> (res: Option<T>)
        requires
            old(self).inv(),
        ensures
            final(self).inv(),
            old(self)@.len() == 0 ==> res is None && final(self)@ == old(self)@,
            old(self)@.len() > 0 ==> res == Some(old(self)@.last())
                && final(self)@ == old(self)@.drop_last(),
    {
        self.inner.pop()
    }

    /// Removes the element at `index` and returns it; the elements after it
    /// move one slot down and keep their order.
    pub fn remove(&mut self, index: usize) -> (value: T)
        requires
            old(self).inv(),
            index < old(self)@.len(),
        ensures
            final(self).inv(),
            value == old(self)@[index as int],
            final(self)@ == old(self)@.remove(index as int),
    {
        self.inner.remove(index)
    }

    /// Removes the element at `index` and returns it; the last element takes
    /// its place, so the order of the rest is not kept.
    pub fn swap_remove(&mut self, index: usize) -> (value: T)
        requires
            old(self).inv(),
            index < old(self)@.len(),
        ensures
            final(self).inv(),
            value == old(self)@[index as int],
            final(self)@ == old(self)@.update(index as int, old(self)@.last()).drop_last(),
    {
        self.inner.swap_remove(index)
    }

    /// Forgets the elements from `new_len` on; does nothing when `new_len`
    /// is not below the length.
    pub fn truncate(&mut self, new_len: usize)
        requires
            old(self).inv(),
        ensures
            final(self).inv(),
            new_len < old(self)@.len() ==> final(self)@ == old(self)@.take(new_len as int),
            new_len >= old(self)@.len() ==> final(self)@ == old(self)@,
    {
        self.inner.truncate(new_len)
    }

    /// Forgets every element.
    pub fn clear(&mut self)
        requires
            old(self).inv(),
        ensures
            final(self).inv(),
            final(self)@ == Seq::<T>::empty(),
    {
        self.inner.clear()
    }

    /// Moves every element of `other` to the end of `self`, leaving `other`
    /// empty. When the two together exceed the capacity, neither changes.
    pub fn append<const M: usize>(&mut self, other: &mut CopyArrayVec<T, M>) -> (res: Result<
        (),
        OutOfMemoryError,
    >)
        requires
            old(self).inv(),
            old(other).inv(),
        ensures
            final(self).inv(),
            final(other).inv(),
            old(self)@.len() + old(other)@.len() <= N ==> res is Ok && final(self)@ == old(self)@
                + old(other)@ && final(other)@ == Seq::<T>::empty(),
            old(self)@.len() + old(other)@.len() > N ==> res is Err && final(self)@ == old(self)@
                && final(other)@ == old(other)@,
    {
        self.inner.append(&mut other.inner)
    }

    /// Moves the elements from `at` on into a new container of capacity `M`
    /// and keeps those before `at`.
    pub fn split_off<const M: usize>(&mut self, at: usize) -> (tail: CopyArrayVec<T, M>)
        requires
            old(self).inv(),
            at <= old(self)@.len(),
            old(self)@.len() - at <= M,
        ensures
            final(self).inv(),
            tail.inv(),
            final(self)@ == old(self)@.take(at as int),
            tail@ == old(self)@.skip(at as int),
    {
        CopyArrayVec { inner: self.inner.split_off(at) }
    }

    /// Appends `n` copies of `value`.
    fn extend_with(&mut self, n: usize, value: T)
        requires
            old(self).inv(),
            old(self)@.len() + n <= N,
        ensures
            final(self).inv(),
            final(self)@ == old(self)@ + Seq::new(n as nat, |i: int| value),
    {
        let mut i: usize = 0;
        while i < n
            invariant
                self.inv(),
                i <= n,
                old(self)@.len() + n <= N,
                self@ == old(self)@ + Seq::new(i as nat, |j: int| value),
            decreases n - i,
        {
            let _ = self.inner.push(value);
            assert(self@ =~= old(self)@ + Seq::new((i + 1) as nat, |j: int| value));
            i = i + 1;
        }
    }

    /// Appends a copy of every element of `other`, or, when they do not all
    /// fit, reports it and appends none.
    pub fn extend_from_slice(&mut self, other: &[T]) -> (res: Result<(), OutOfMemoryError>)
        requires
            old(self).inv(),
        ensures
            final(self).inv(),
            old(self)@.len() + other@.len() <= N ==> res is Ok && final(self)@ == old(self)@
                + other@,
            old(self)@.len() + other@.len() > N ==> res is Err && final(self)@ == old(self)@,
    {
        let len: usize = self.inner.len();
        let other_len: usize = other.len();
        if N - len < other_len {
            return Err(OutOfMemoryError(()));
        }
        let mut i: usize = 0;
        while i < other_len
            invariant
                self.inv(),
                i <= other_len == other@.len(),
                len == old(self)@.len(),
                len + other_len <= N,
                self@ == old(self)@ + other@.take(i as int),
            decreases other_len - i,
        {
            let _ = self.inner.push(other[i]);
            assert(self@ =~= old(self)@ + other@.take(i + 1));
            i = i + 1;
        }
        assert(other@.take(other_len as int) =~= other@);
        Ok(())
    }

    /// Grows to `new_len` with copies of `value`, or truncates to `new_len`.
    /// A `new_len` above the capacity is reported and nothing changes.
    pub fn resize(&mut self, new_len: usize, value: T) -> (res: Result<(), OutOfMemoryError>)
        requires
            old(self).inv(),
        ensures
            final(self).inv(),
            new_len > N ==> res is Err && final(self)@ == old(self)@,
            new_len <= old(self)@.len() ==> res is Ok && final(self)@ == old(self)@.take(
                new_len as int,
            ),
            old(self)@.len() < new_len <= N ==> res is Ok && final(self)@ == old(self)@ + Seq::new(
                (new_len - old(self)@.len()) as nat,
                |i: int| value,
            ),
    {
        let len: usize = self.inner.len();
        if N < new_len {
            return Err(OutOfMemoryError(()));
        }
        if len < new_len {
            self.extend_with(new_len - len, value);
        } else {
            self.inner.truncate(new_len);
            assert(old(self)@.take(len as int) =~= old(self)@);
        }
        Ok(())
    }

    /// A container holding a copy of every element of `slice`, in order, or
    /// the report that `slice` is longer than the capacity.
    pub fn try_from_slice(slice: &[T]) -> (res: Result<CopyArrayVec<T, N>, OutOfMemoryError>)
        ensures
            slice@.len() > N ==> res is Err,
            slice@.len() <= N ==> res is Ok && res->Ok_0.inv() && res->Ok_0@ == slice@,
    {
        let mut vec: CopyArrayVec<T, N> = CopyArrayVec::new();
        match vec.extend_from_slice(slice) {
            Ok(()) => {
                assert(vec@ =~= slice@);
                Ok(vec)
            },
            Err(e) => Err(e),
        }
    }

    /// A container of `n` copies of `elem`, or the report that `n` is above
    /// the capacity.
    pub fn from_elem(elem: T, n: usize) -> (res: Result<CopyArrayVec<T, N>, OutOfMemoryError>)
        ensures
            n > N ==> res is Err,
            n <= N ==> res is Ok && res->Ok_0.inv() && res->Ok_0@ == Seq::new(
                n as nat,
                |i: int| elem,
            ),
    {
        let mut vec: CopyArrayVec<T, N> = CopyArrayVec::new();
        match vec.resize(n, elem) {
            Ok(()) => {
                assert(vec@ =~= Seq::new(n as nat, |i: int| elem));
                Ok(vec)
            },
            Err(e) => Err(e),
        }
    }

    /// A container holding the elements of `value`, in order.
    pub fn from_array<const M: usize>(value: [T; M]) -> (vec: CopyArrayVec<T, N>)
        requires
            M <= N,
        ensures
            vec.inv(),
            vec@ == value@,
    {
        let mut vec: CopyArrayVec<T, N> = CopyArrayVec::new();
        let _ = vec.extend_from_slice(value.as_slice());
        assert(vec@ =~= value@);
        vec
    }

    /// A new container with a copy of every element, in order.
    pub fn clone(&self) -> (copy: CopyArrayVec<T, N>)
        requires
            self.inv(),
        ensures
            copy.inv(),
            copy@ == self@,
    {
        let len: usize = self.inner.len();
        let mut copy: CopyArrayVec<T, N> = CopyArrayVec::new();
        let mut i: usize = 0;
        while i < len
            invariant
                self.inv(),
                copy.inv(),
                i <= len == self@.len(),
                len <= N,
                copy@ == self@.take(i as int),
            decreases len - i,
        {
            match self.inner.get(i) {
                Some(x) => {
                    let _ = copy.inner.push(*x);
                },
                None => {},
            }
            assert(self@.take(i + 1) =~= self@.take(i as int).push(self@[i as int]));
            i = i + 1;
        }
        assert(self@.take(len as int) =~= self@);
        copy
    }

    /// Grows to `new_len` with values made by `f`, one call per new slot, or
    /// truncates to `new_len`. A `new_len` above the capacity is reported
    /// and nothing changes.
    pub fn resize_with<F>(&mut self, new_len: usize, f: F) -> (res: Result<(), OutOfMemoryError>)
        where F: FnMut() -> T
        requires
            old(self).inv(),
            f.requires(()),
        ensures
            final(self).inv(),
            new_len > N ==> res is Err && final(self)@ == old(self)@,
            new_len <= N ==> res is Ok && final(self)@.len() == new_len,
            new_len <= old(self)@.len() ==> final(self)@ == old(self)@.take(new_len as int),
            old(self)@.len() < new_len <= N
                ==> final(self)@.take(old(self)@.len() as int) == old(self)@ && forall|i: int|
                old(self)@.len() <= i < new_len ==> f.ensures((), #[trigger] final(self)@[i]),
    {
        self.inner.resize_with(new_len, f)
    }

    /// As [`CopyArrayVec::retain`], with a predicate that may change the element
    /// it is asked about; a kept element stays as the predicate left it.
    /// In the contract, `after` holds each element as the predicate left it
    /// and `keep` the answers.
    pub fn retain_mut<F>(&mut self, f: F)
        where F: FnMut(&mut T) -> bool
        requires
            old(self).inv(),
            forall|x: &mut T| old(self)@.contains(*x) ==> #[trigger] f.requires((x,)),
        ensures
            final(self).inv(),
            exists|after: Seq<T>, keep: Seq<bool>|
                after.len() == old(self)@.len() && keep.len() == old(self)@.len() && (forall|
                    i: int,
                |
                    #![trigger keep[i]]
                    0 <= i < keep.len() ==> (keep[i] ==> exists|x: &mut T|
                        #![trigger f.ensures((x,), true)]
                        *x == old(self)@[i] && *final(x) == after[i] && f.ensures((x,), true))
                        && (!keep[i] ==> exists|x: &mut T|
                        #![trigger f.ensures((x,), false)]
                        *x == old(self)@[i] && *final(x) == after[i] && f.ensures((x,), false)))
                    && final(self)@ == retained(after, keep),
    {
        self.inner.retain_mut(f)
    }

    /// Drops each element whose key equals the key of the element kept last
    /// before it. `key` is asked about the element in question first and
    /// about the kept one second, and may change both. The sequences of the
    /// contract are those of [`CopyArrayVec::dedup_by`].
    pub fn dedup_by_key<F, K>(&mut self, key: F)
        where F: FnMut(&mut T) -> K, K: PartialEq
        requires
            old(self).inv(),
            forall|a: &mut T| #[trigger] key.requires((a,)),
        ensures
            final(self).inv(),
            old(self)@.len() == 0 ==> final(self)@ == old(self)@,
            old(self)@.len() > 0 ==> exists|
                cur_after: Seq<T>,
                prev_before: Seq<T>,
                prev_after: Seq<T>,
                dup: Seq<bool>,
            |
                #![trigger dedup_trace(old(self)@, cur_after, prev_before, prev_after, dup)]
                dedup_trace(old(self)@, cur_after, prev_before, prev_after, dup) && (forall|i: int|
                    #![trigger dup[i]]
                    1 <= i < old(self)@.len() ==> (dup[i] ==> exists|
                        cur: &mut T,
                        prev: &mut T,
                        kc: K,
                        kp: K,
                    |
                        #![trigger key.ensures((cur,), kc), key.ensures((prev,), kp)]
                        *cur == old(self)@[i] && *prev == prev_before[i] && *final(cur)
                            == cur_after[i] && *final(prev) == prev_after[i] && key.ensures(
                            (cur,),
                            kc,
                        ) && key.ensures((prev,), kp) && (K::obeys_eq_spec() ==> kc.eq_spec(&kp)))
                        && (!dup[i] ==> exists|cur: &mut T, prev: &mut T, kc: K, kp: K|
                        #![trigger key.ensures((cur,), kc), key.ensures((prev,), kp)]
                        *cur == old(self)@[i] && *prev == prev_before[i] && *final(cur)
                            == cur_after[i] && *final(prev) == prev_after[i] && key.ensures(
                            (cur,),
                            kc,
                        ) && key.ensures((prev,), kp) && (K::obeys_eq_spec() ==> !kc.eq_spec(
                            &kp,
                        )))) && final(self)@ == dedup_kept(
                    old(self)@[0],
                    cur_after,
                    prev_after,
                    dup,
                ),
    {
        self.inner.dedup_by_key(key)
    }

    /// Removes the last element and returns it if `predicate` says so; the
    /// predicate may change the element, which stays last when it is kept.
    pub fn pop_if<F>(&mut self, predicate: F) -> (res: Option<T>)
        where F: FnOnce(&mut T) -> bool
        requires
            old(self).inv(),
            forall|x: &mut T| #[trigger] predicate.requires((x,)),
        ensures
            final(self).inv(),
            old(self)@.len() == 0 ==> res is None && final(self)@ == old(self)@,
            old(self)@.len() > 0 ==> exists|x: &mut T, taken: bool|
                *x == old(self)@.last() && #[trigger] predicate.ensures((x,), taken) && (if taken {
                    res == Some(*final(x)) && final(self)@ == old(self)@.drop_last()
                } else {
                    res is None && final(self)@ == old(self)@.drop_last().push(*final(x))
                }),
    {
        self.inner.pop_if(predicate)
    }

    /// Keeps the elements for which `f` answers `true`, in their order.
    /// `f` is asked once per element, front to back.
    pub fn retain<F>(&mut self, f: F)
        where F: FnMut(&T) -> bool
        requires
            old(self).inv(),
            forall|i: int| 0 <= i < old(self)@.len() ==> f.requires((&#[trigger] old(self)@[i],)),
        ensures
            final(self).inv(),
            exists|keep: Seq<bool>|
                keep.len() == old(self)@.len() && (forall|i: int|
                    0 <= i < keep.len() ==> f.ensures((&old(self)@[i],), #[trigger] keep[i]))
                    && final(self)@ == retained(old(self)@, keep),
    {
        assert forall|i: int| 0 <= i < self.inner@.len() implies f.requires(
            (&#[trigger] self.inner@[i],),
        ) by {
            assert(f.requires((&self@[i],)));
        }
        self.inner.retain(f)
    }

    /// Drops each element that `same_bucket` puts into one bucket with the
    /// element kept last before it. `same_bucket` gets the element in
    /// question first and the kept one second, and may change both; see
    /// [`ArrayVec::dedup_by`] for the sequences of the contract.
    pub fn dedup_by<F>(&mut self, same_bucket: F)
        where F: FnMut(&mut T, &mut T) -> bool
        requires
            old(self).inv(),
            forall|a: &mut T, b: &mut T| #[trigger] same_bucket.requires((a, b)),
        ensures
            final(self).inv(),
            old(self)@.len() == 0 ==> final(self)@ == old(self)@,
            old(self)@.len() > 0 ==> exists|
                cur_after: Seq<T>,
                prev_before: Seq<T>,
                prev_after: Seq<T>,
                dup: Seq<bool>,
            |
                #![trigger dedup_trace(old(self)@, cur_after, prev_before, prev_after, dup)]
                dedup_trace(old(self)@, cur_after, prev_before, prev_after, dup) && (forall|i: int|
                    #![trigger dup[i]]
                    1 <= i < old(self)@.len() ==> (dup[i] ==> exists|cur: &mut T, prev: &mut T|
                        #![trigger same_bucket.ensures((cur, prev), true)]
                        *cur == old(self)@[i] && *prev == prev_before[i] && *final(cur)
                            == cur_after[i] && *final(prev) == prev_after[i]
                            && same_bucket.ensures((cur, prev), true)) && (!dup[i] ==> exists|
                        cur: &mut T,
                        prev: &mut T,
                    |
                        #![trigger same_bucket.ensures((cur, prev), false)]
                        *cur == old(self)@[i] && *prev == prev_before[i] && *final(cur)
                            == cur_after[i] && *final(prev) == prev_after[i]
                            && same_bucket.ensures((cur, prev), false))) && final(self)@
                    == dedup_kept(old(self)@[0], cur_after, prev_after, dup),
    {
        self.inner.dedup_by(same_bucket)
    }
}

impl<T: Copy + PartialEq, const N: usize> CopyArrayVec<T, N> {
    /// Whether the two containers hold equal elements in the same order,
    /// whatever their capacities.
    pub fn eq<const M: usize>(&self, other: &CopyArrayVec<T, M>) -> (same: bool)
        requires
            self.inv(),
            other.inv(),
        ensures
            T::obeys_eq_spec() ==> same == (self@.len() == other@.len() && forall|i: int|
                0 <= i < self@.len() ==> (#[trigger] self@[i]).eq_spec(&other@[i])),
    {
        self.inner.eq(&other.inner)
    }

    /// Drops each element that `==` calls equal to the element kept last
    /// before it: of every run of equal neighbours the first stays.
    pub fn dedup(&mut self)
        requires
            old(self).inv(),
        ensures
            final(self).inv(),
            exists|keep: Seq<bool>|
                dedup_pass(old(self)@, keep, eq_answers::<T>()) && final(self)@ == retained(
                    old(self)@,
                    keep,
                ),
    {
        self.inner.dedup();
        proof {
            let keep = choose|keep: Seq<bool>|
                dedup_pass(old(self).inner@, keep, eq_answers::<T>()) && self.inner@ == retained(
                    old(self).inner@,
                    keep,
                );
            assert(dedup_pass(old(self)@, keep, eq_answers::<T>()));
            assert(self@ == retained(old(self)@, keep));
        }
    }
}

impl<const N: usize> CopyArrayVec<u8, N> {
    /// Appends as many of the bytes of `buf` as fit, from its start, and
    /// says how many that were.
    pub fn write(&mut self, buf: &[u8]) -> (written: usize)
        requires
            old(self).inv(),
        ensures
            final(self).inv(),
            written == if buf@.len() <= N - old(self)@.len() {
                buf@.len() as int
            } else {
                N - old(self)@.len()
            },
            final(self)@ == old(self)@ + buf@.take(written as int),
    {
        self.inner.write(buf)
    }

    /// Appends as many of the bytes of `buf` as fit and reports an
    /// incomplete write when that were not all.
    pub fn write_all(&mut self, buf: &[u8]) -> (res: Result<(), WriteZeroError>)
        requires
            old(self).inv(),
        ensures
            final(self).inv(),
            buf@.len() <= N - old(self)@.len() ==> res is Ok && final(self)@ == old(self)@ + buf@,
            buf@.len() > N - old(self)@.len() ==> res == Err::<(), WriteZeroError>(
                WriteZeroError { written: (N - old(self)@.len()) as usize },
            ) && final(self)@ == old(self)@ + buf@.take(N - old(self)@.len()),
    {
        self.inner.write_all(buf)
    }
}

impl<T: Copy, const N: usize> Default for CopyArrayVec<T, N> {
    /// The empty container.
    fn default() -> (vec: CopyArrayVec<T, N>)
        ensures
            vec.inv(),
            vec@ == Seq::<T>::empty(),
    {
        CopyArrayVec::new()
    }
}

} // verus!
