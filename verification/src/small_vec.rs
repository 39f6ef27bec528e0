//! A vector that holds at most `N` items and ignores pushes beyond that.
use vstd::prelude::*;

verus! {

/// The first `n` items of `s` (all of them when `s` is shorter).
pub open spec fn first_n<A>(s: Seq<A>, n: nat) -> Seq<A> {
    if s.len() <= n {
        s
    } else {
        s.take(n as int)
    }
}

/// What a push of `x` does to the items `v` of a vector with room for `n`.
pub open spec fn bounded_push<T>(v: Seq<T>, x: T, n: nat) -> Seq<T> {
    if v.len() < n {
        v.push(x)
    } else {
        v
    }
}

/// The items after pushing each of `xs`, in order, onto a vector holding `v`
/// with room for `n`.
pub open spec fn bounded_push_all<T>(v: Seq<T>, xs: Seq<T>, n: nat) -> Seq<T>
    decreases xs.len(),
{
    if xs.len() == 0 {
        v
    } else {
        bounded_push(bounded_push_all(v, xs.drop_last(), n), xs.last(), n)
    }
}

/// Pushing a series of items keeps the first of them, in order, up to the room
/// left; the others are dropped.
pub proof fn lemma_push_series<T>(v: Seq<T>, xs: Seq<T>, n: nat)
    requires
        v.len() <= n,
    ensures
        bounded_push_all(v, xs, n) == first_n(v + xs, n),
        bounded_push_all(v, xs, n).len() <= n,
    decreases xs.len(),
{
    if xs.len() == 0 {
        assert(v + xs =~= v);
    } else {
        let init = xs.drop_last();
        lemma_push_series(v, init, n);
        assert(v + xs =~= (v + init).push(xs.last()));
        if (v + init).len() >= n {
            assert((v + xs).take(n as int) =~= (v + init).take(n as int));
        }
    }
}

/// A vector with room for at most `N` items; a push onto a full vector is ignored.
pub struct SmallVec<T, const N: usize> {
    data: Vec<T>,
}

impl<T, const N: usize> View for SmallVec<T, N> {
    type V = Seq<T>;

    /// The items, in the order they were pushed.
    closed spec fn view(&self) -> Seq<T> {
        self.data@
    }
}

impl<T, const N: usize> SmallVec<T, N> {
    /// Well-formedness: the vector never holds more than `N` items.
    pub open spec fn wf(&self) -> bool {
        self@.len() <= N
    }

    /// An empty vector.
    pub fn new() -> (v: Self)
        ensures
            v.wf(),
            v@ == Seq::<T>::empty(),
    {
        SmallVec { data: Vec::new() }
    }

    /// Appends `val` when fewer than `N` items are held; otherwise drops it.
    pub fn push(&mut self, val: T)
        requires
            old(self).wf(),
        ensures
            final(self).wf(),
            final(self)@ == bounded_push(old(self)@, val, N as nat),
    {
        if self.data.len() < N {
            self.data.push(val);
        }
    }

    /// The number of items held.
    pub fn len(&self) -> (n: usize)
        ensures
            n == self@.len(),
    {
        self.data.len()
    }

    /// Whether no item is held.
    pub fn is_empty(&self) -> (b: bool)
        ensures
            b == (self@.len() == 0),
    {
        self.data.len() == 0
    }

    /// The items as a slice, in the order they were pushed.
    pub fn as_slice(&self) -> (s: &[T])
        ensures
            s@ == self@,
    {
        self.data.as_slice()
    }

    /// Turns the vector into a cursor that hands the items out, first pushed first.
    pub fn into_iter(self) -> (it: SmallVecIntoIter<T, N>)
        ensures
            it@ == self@,
    {
        let mut data = self.data;
        let ghost items = data@;
        let mut reversed: Vec<T> = Vec::new();
        while data.len() > 0
            invariant
                items == data@ + reversed@.reverse(),
            decreases data@.len(),
        {
            let ghost before = data@;
            let ghost rev_before = reversed@;
            let item = data.pop().unwrap();
            reversed.push(item);
            assert(reversed@.reverse() =~= seq![item] + rev_before.reverse());
            assert(before =~= data@.push(item));
            assert(items =~= data@ + reversed@.reverse());
        }
        assert(items =~= reversed@.reverse());
        SmallVecIntoIter { reversed }
    }
}

/// Hands out the items of a [`SmallVec`] in order, by value.
pub struct SmallVecIntoIter<T, const N: usize> {
    reversed: Vec<T>,
}

impl<T, const N: usize> View for SmallVecIntoIter<T, N> {
    type V = Seq<T>;

    /// The items not handed out yet, next one first.
    closed spec fn view(&self) -> Seq<T> {
        self.reversed@.reverse()
    }
}

impl<T, const N: usize> SmallVecIntoIter<T, N> {
    /// The next item, or `None` once every item was handed out.
    pub fn next(&mut self) -> (item: Option<T>)
        ensures
            old(self)@.len() == 0 ==> item is None && final(self)@ == old(self)@,
            old(self)@.len() > 0 ==> item == Some(old(self)@[0]) && final(self)@ == old(
                self,
            )@.drop_first(),
    {
        let ghost before = self.reversed@;
        let item = self.reversed.pop();
        proof {
            if before.len() > 0 {
                assert(before.reverse()[0] == before.last());
                assert(self.reversed@.reverse() =~= before.reverse().drop_first());
            }
        }
        item
    }
}

} // verus!
