//! The owning iterator that drains a fixed-capacity vector from both ends.
use crate::vec::ArrayVec;
use vstd::prelude::*;

verus! {

/// The half-open range of indices `start..end` that are still to come.
pub struct IndexRange {
    start: usize,
    end: usize,
}

impl IndexRange {
    /// The first index of the range.
    pub closed spec fn spec_start(&self) -> usize {
        self.start
    }

    /// The index behind the last one of the range.
    pub closed spec fn spec_end(&self) -> usize {
        self.end
    }

    /// The range is well formed when its start is not behind its end.
    pub open spec fn inv(&self) -> bool {
        self.spec_start() <= self.spec_end()
    }

    /// The range `start..end`.
    pub fn new_unchecked(start: usize, end: usize) -> (range: IndexRange)
        requires
            start <= end,
        ensures
            range.inv(),
            range.spec_start() == start,
            range.spec_end() == end,
    {
        IndexRange { start, end }
    }

    /// The range `0..end`.
    pub fn zero_to(end: usize) -> (range: IndexRange)
        ensures
            range.inv(),
            range.spec_start() == 0,
            range.spec_end() == end,
    {
        IndexRange { start: 0, end }
    }

    /// The first index of the range.
    pub fn start(&self) -> (n: usize)
        ensures
            n == self.spec_start(),
    {
        self.start
    }

    /// The index behind the last one of the range.
    pub fn end(&self) -> (n: usize)
        ensures
            n == self.spec_end(),
    {
        self.end
    }

    /// The number of indices in the range.
    pub fn len(&self) -> (n: usize)
        requires
            self.inv(),
        ensures
            n == self.spec_end() - self.spec_start(),
    {
        self.end - self.start
    }

    /// Takes the first index off the range, or gives `None` when it is
    /// empty.
    pub fn next(&mut self) -> (index: Option<usize>)
        requires
            old(self).inv(),
        ensures
            final(self).inv(),
            final(self).spec_end() == old(self).spec_end(),
            old(self).spec_start() == old(self).spec_end() ==> index is None
                && final(self).spec_start() == old(self).spec_start(),
            old(self).spec_start() < old(self).spec_end() ==> index == Some(old(self).spec_start())
                && final(self).spec_start() == old(self).spec_start() + 1,
    {
        if self.start == self.end {
            None
        } else {
            let value: usize = self.start;
            self.start = value + 1;
            Some(value)
        }
    }

    /// Takes the last index off the range, or gives `None` when it is
    /// empty.
    pub fn next_back(&mut self) -> (index: Option<usize>)
        requires
            old(self).inv(),
        ensures
            final(self).inv(),
            final(self).spec_start() == old(self).spec_start(),
            old(self).spec_start() == old(self).spec_end() ==> index is None
                && final(self).spec_end() == old(self).spec_end(),
            old(self).spec_start() < old(self).spec_end() ==> index == Some(
                (old(self).spec_end() - 1) as usize,
            ) && final(self).spec_end() == old(self).spec_end() - 1,
    {
        if self.start == self.end {
            None
        } else {
            let value: usize = self.end - 1;
            self.end = value;
            Some(value)
        }
    }

    /// Cuts the first `n` indices off the range and returns them; when the
    /// range has fewer, all of them.
    pub fn take_prefix(&mut self, n: usize) -> (prefix: IndexRange)
        requires
            old(self).inv(),
        ensures
            final(self).inv(),
            prefix.inv(),
            prefix.spec_start() == old(self).spec_start(),
            prefix.spec_end() == final(self).spec_start(),
            final(self).spec_end() == old(self).spec_end(),
            final(self).spec_start() == if n <= old(self).spec_end() - old(self).spec_start() {
                old(self).spec_start() + n
            } else {
                old(self).spec_end() as int
            },
    {
        let mid: usize = if n <= self.end - self.start {
            self.start + n
        } else {
            self.end
        };
        let prefix: IndexRange = IndexRange { start: self.start, end: mid };
        self.start = mid;
        prefix
    }

    /// Cuts the last `n` indices off the range and returns them; when the
    /// range has fewer, all of them.
    pub fn take_suffix(&mut self, n: usize) -> (suffix: IndexRange)
        requires
            old(self).inv(),
        ensures
            final(self).inv(),
            suffix.inv(),
            suffix.spec_end() == old(self).spec_end(),
            suffix.spec_start() == final(self).spec_end(),
            final(self).spec_start() == old(self).spec_start(),
            final(self).spec_end() == if n <= old(self).spec_end() - old(self).spec_start() {
                old(self).spec_end() - n
            } else {
                old(self).spec_start() as int
            },
    {
        let mid: usize = if n <= self.end - self.start {
            self.end - n
        } else {
            self.start
        };
        let suffix: IndexRange = IndexRange { start: mid, end: self.end };
        self.end = mid;
        suffix
    }

    /// The number of indices left, as the lower and the upper bound.
    pub fn size_hint(&self) -> (hint: (usize, Option<usize>))
        requires
            self.inv(),
        ensures
            hint.0 == self.spec_end() - self.spec_start(),
            hint.1 == Some(hint.0),
    {
        let len: usize = self.len();
        (len, Some(len))
    }
}

/// The elements of a fixed-capacity vector, handed out one by one from
/// either end. The view is what is still to come, front first.
pub struct IntoIter<T, const N: usize> {
    data: [Option<T>; N],
    alive: IndexRange,
}

impl<T, const N: usize> View for IntoIter<T, N> {
    type V = Seq<T>;

    closed spec fn view(&self) -> Seq<T> {
        Seq::new(
            (self.alive.spec_end() - self.alive.spec_start()) as nat,
            |i: int| self.data@[self.alive.spec_start() + i]->0,
        )
    }
}

impl<T, const N: usize> IntoIter<T, N> {
    /// The invariant: the slots of the range that is still alive are
    /// occupied, all others are vacant.
    pub closed spec fn inv(&self) -> bool {
        &&& self.alive.spec_start() <= self.alive.spec_end() <= N
        &&& forall|i: int|
            self.alive.spec_start() <= i < self.alive.spec_end() ==> self.data@[i] is Some
        &&& forall|i: int|
            0 <= i < N && !(self.alive.spec_start() <= i < self.alive.spec_end())
                ==> self.data@[i] is None
    }

    /// The iterator over the slots `start..end` of `buffer`, of which the
    /// caller knows that exactly these are occupied.
    pub fn new_unchecked(buffer: [Option<T>; N], start: usize, end: usize) -> (iter: IntoIter<T, N>)
        requires
            start <= end <= N,
            forall|i: int| start <= i < end ==> buffer@[i] is Some,
            forall|i: int| 0 <= i < N && !(start <= i < end) ==> buffer@[i] is None,
        ensures
            iter.inv(),
            iter@ == Seq::new((end - start) as nat, |i: int| buffer@[start + i]->0),
    {
        IntoIter { data: buffer, alive: IndexRange::new_unchecked(start, end) }
    }

    /// The iterator over the elements of `vec`.
    pub fn new(vec: ArrayVec<T, N>) -> (iter: IntoIter<T, N>)
        requires
            vec.inv(),
        ensures
            iter.inv(),
            iter@ == vec@,
    {
        let (data, len) = vec.into_parts();
        let iter = IntoIter { data, alive: IndexRange::zero_to(len) };
        assert(iter@ =~= vec@);
        iter
    }

    /// The number of elements still to come.
    pub fn len(&self) -> (n: usize)
        requires
            self.inv(),
        ensures
            n == self@.len(),
    {
        self.alive.len()
    }

    /// The number of elements still to come, as the lower and the upper
    /// bound.
    pub fn size_hint(&self) -> (hint: (usize, Option<usize>))
        requires
            self.inv(),
        ensures
            hint.0 == self@.len(),
            hint.1 == Some(hint.0),
    {
        self.alive.size_hint()
    }

    /// Takes the next element from the front.
    pub fn next(&mut self) -> (elem: Option<T>)
        requires
            old(self).inv(),
        ensures
            final(self).inv(),
            old(self)@.len() == 0 ==> elem is None && final(self)@ == old(self)@,
            old(self)@.len() > 0 ==> elem == Some(old(self)@.first())
                && final(self)@ == old(self)@.drop_first(),
    {
        match self.alive.next() {
            Some(index) => {
                let elem = self.data[index].take();
                assert(self@ =~= old(self)@.drop_first());
                elem
            },
            None => None,
        }
    }

    /// Takes the next element from the back.
    pub fn next_back(&mut self) -> (elem: Option<T>)
        requires
            old(self).inv(),
        ensures
            final(self).inv(),
            old(self)@.len() == 0 ==> elem is None && final(self)@ == old(self)@,
            old(self)@.len() > 0 ==> elem == Some(old(self)@.last())
                && final(self)@ == old(self)@.drop_last(),
    {
        match self.alive.next_back() {
            Some(index) => {
                let elem = self.data[index].take();
                assert(self@ =~= old(self)@.drop_last());
                elem
            },
            None => None,
        }
    }

    /// Uses up the iterator and gives the number of elements it had left.
    pub fn count(self) -> (n: usize)
        requires
            self.inv(),
        ensures
            n == self@.len(),
    {
        self.len()
    }

    /// Uses up the iterator and gives the last element it had left.
    pub fn last(self) -> (elem: Option<T>)
        requires
            self.inv(),
        ensures
            self@.len() == 0 ==> elem is None,
            self@.len() > 0 ==> elem == Some(self@.last()),
    {
        let mut this = self;
        this.next_back()
    }

    /// Folds the elements still to come into `init`, front to back: `accs`
    /// in the contract is the chain of values that `f` made on the way.
    pub fn fold<B, F>(self, init: B, f: F) -> (out: B)
        where F: FnMut(B, T) -> B
        requires
            self.inv(),
            forall|b: B, t: T| #[trigger] f.requires((b, t)),
        ensures
            exists|accs: Seq<B>|
                accs.len() == self@.len() + 1 && accs[0] == init && accs.last() == out && forall|
                    i: int,
                |
                    0 <= i < self@.len() ==> f.ensures((accs[i], self@[i]), #[trigger] accs[i + 1]),
    {
        let mut this = self;
        let mut f = f;
        let ghost f0 = f;
        let ghost mut accs: Seq<B> = seq![init];
        let mut acc: B = init;
        let n: usize = this.len();
        let mut i: usize = 0;
        while i < n
            invariant
                this.inv(),
                self.inv(),
                i <= n == self@.len(),
                this@ == self@.skip(i as int),
                f == f0,
                forall|b: B, t: T| #[trigger] f.requires((b, t)),
                accs.len() == i + 1,
                accs[0] == init,
                accs.last() == acc,
                forall|j: int| 0 <= j < i
                    ==> f0.ensures((accs[j], self@[j]), #[trigger] accs[j + 1]),
            decreases n - i,
        {
            let elem = this.next().unwrap();
            assert(elem == self@[i as int]);
            assert(self@.skip(i as int).drop_first() =~= self@.skip(i + 1));
            acc = f(acc, elem);
            proof {
                let next = accs.push(acc);
                assert forall|j: int| 0 <= j < i + 1 implies f0.ensures(
                    (next[j], self@[j]),
                    #[trigger] next[j + 1],
                ) by {
                    if j < i {
                        assert(next[j] == accs[j]);
                        assert(next[j + 1] == accs[j + 1]);
                    }
                }
                accs = next;
            }
            i = i + 1;
        }
        acc
    }

    /// Folds the elements still to come into `init`, back to front: `accs`
    /// in the contract is the chain of values that `f` made on the way.
    pub fn rfold<B, F>(self, init: B, f: F) -> (out: B)
        where F: FnMut(B, T) -> B
        requires
            self.inv(),
            forall|b: B, t: T| #[trigger] f.requires((b, t)),
        ensures
            exists|accs: Seq<B>|
                accs.len() == self@.len() + 1 && accs[0] == init && accs.last() == out && forall|
                    i: int,
                |
                    0 <= i < self@.len() ==> f.ensures(
                        (accs[i], self@[self@.len() - 1 - i]),
                        #[trigger] accs[i + 1],
                    ),
    {
        let mut this = self;
        let mut f = f;
        let ghost f0 = f;
        let ghost mut accs: Seq<B> = seq![init];
        let mut acc: B = init;
        let n: usize = this.len();
        let mut i: usize = 0;
        while i < n
            invariant
                this.inv(),
                self.inv(),
                i <= n == self@.len(),
                this@ == self@.take(n - i),
                f == f0,
                forall|b: B, t: T| #[trigger] f.requires((b, t)),
                accs.len() == i + 1,
                accs[0] == init,
                accs.last() == acc,
                forall|j: int|
                    0 <= j < i ==> f0.ensures((accs[j], self@[n - 1 - j]), #[trigger] accs[j + 1]),
            decreases n - i,
        {
            let elem = this.next_back().unwrap();
            assert(elem == self@[n - 1 - i]);
            assert(self@.take(n - i).drop_last() =~= self@.take(n - (i + 1)));
            acc = f(acc, elem);
            proof {
                let next = accs.push(acc);
                assert forall|j: int| 0 <= j < i + 1 implies f0.ensures(
                    (next[j], self@[n - 1 - j]),
                    #[trigger] next[j + 1],
                ) by {
                    if j < i {
                        assert(next[j] == accs[j]);
                        assert(next[j + 1] == accs[j + 1]);
                    }
                }
                accs = next;
            }
            i = i + 1;
        }
        acc
    }
}

impl<T: Clone, const N: usize> IntoIter<T, N> {
    /// An iterator over clones of the elements still to come.
    pub fn clone(&self) -> (copy: IntoIter<T, N>)
        requires
            self.inv(),
        ensures
            copy.inv(),
            copy@.len() == self@.len(),
            forall|i: int| 0 <= i < self@.len() ==> cloned(self@[i], #[trigger] copy@[i]),
    {
        let mut filled: ArrayVec<T, N> = ArrayVec::new();
        let start: usize = self.alive.start();
        let end: usize = self.alive.end();
        let mut i: usize = start;
        while i < end
            invariant
                self.inv(),
                filled.inv(),
                start == self.alive.spec_start(),
                end == self.alive.spec_end(),
                start <= i <= end <= N,
                filled@.len() == i - start,
                forall|j: int| 0 <= j < i - start ==> cloned(self@[j], #[trigger] filled@[j]),
            decreases end - i,
        {
            let ghost before = filled@;
            match &self.data[i] {
                Some(element) => {
                    assert(*element == self@[i - start]);
                    let _ = filled.push(element.clone());
                },
                None => {},
            }
            assert forall|j: int| 0 <= j < i + 1 - start implies cloned(
                self@[j],
                #[trigger] filled@[j],
            ) by {
                if j < i - start {
                    assert(filled@[j] == before[j]);
                }
            }
            i = i + 1;
        }
        IntoIter::new(filled)
    }
}

} // verus!
