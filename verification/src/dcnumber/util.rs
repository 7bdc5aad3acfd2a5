//! Iterators whose items come with a carry flag, as digit-by-digit arithmetic needs.
use vstd::prelude::*;
use std::collections::VecDeque;

verus! {

/// An iterator whose items come with a carry flag.
pub trait CarryingIterator: Sized {
    type Item;

    /// The carry.
    spec fn carry_flag(&self) -> bool;

    /// The iterator can give its next item: the functions it applies accept every input.
    spec fn ready(&self) -> bool;

    /// No item is left.
    spec fn exhausted(&self) -> bool;

    /// The carry.
    fn has_carry(&self) -> (b: bool)
        ensures
            b == self.carry_flag(),
    ;

    /// Sets the carry.
    fn set_carry(&mut self, carry: bool)
        ensures
            final(self).carry_flag() == carry,
            final(self).ready() == old(self).ready(),
            final(self).exhausted() == old(self).exhausted(),
    ;

    /// The next item, with the carry as it stands after taking it. An iterator with no item
    /// left gives none, and keeps its carry.
    fn carrying_next(&mut self) -> (r: (bool, Option<Self::Item>))
        requires
            old(self).ready(),
        ensures
            r.0 == final(self).carry_flag(),
            final(self).ready(),
            r.1 is None <==> old(self).exhausted(),
            old(self).exhausted() ==> final(self).exhausted() && final(self).carry_flag()
                == old(self).carry_flag(),
    ;

    /// The iterator with the carry set.
    fn with_carry(self, carry: bool) -> (r: Self)
        ensures
            r.carry_flag() == carry,
            r.ready() == self.ready(),
            r.exhausted() == self.exhausted(),
    {
        let mut s = self;
        s.set_carry(carry);
        s
    }

    /// The iterator whose items `f` computes from the carry and the items of this one; the
    /// carry that `f` gives becomes the carry.
    fn carrying_map<B, F>(self, f: F) -> (r: CarryingMap<Self, F>)
        where
            F: Fn(bool, Self::Item) -> (bool, B),
        ensures
            r.inner() == self,
            r.function() == f,
    {
        CarryingMap { iter: self, f }
    }

    /// The items of this iterator, then those of `other`, which starts with the carry that
    /// this one ends with.
    fn carrying_chain<CI>(self, other: CI) -> (r: CarryingChain<Self, CI>)
        ensures
            r.head() == self,
            r.last() == other,
            !r.in_last(),
    {
        CarryingChain { head: self, last: other, in_last: false }
    }

    /// The items of this iterator, then `last_item` if the carry is set at the end.
    fn to_iter(self, last_item: Self::Item) -> (r: IteratorAdapter<Self, Self::Item>)
        ensures
            r.inner() == self,
            r.last_item() == last_item,
    {
        IteratorAdapter { iter: self, last_item }
    }
}

/// A carrying iterator that can also give its items from the back.
pub trait DoubleEndedCarryingIterator: CarryingIterator {
    /// The last item, with the carry as it stands after taking it. An iterator with no item
    /// left gives none, and keeps its carry.
    fn carrying_next_back(&mut self) -> (r: (bool, Option<Self::Item>))
        requires
            old(self).ready(),
        ensures
            r.0 == final(self).carry_flag(),
            final(self).ready(),
            r.1 is None <==> old(self).exhausted(),
            old(self).exhausted() ==> final(self).exhausted() && final(self).carry_flag()
                == old(self).carry_flag(),
    ;

    /// The carry at the back; it is the one carry.
    fn has_back_carry(&self) -> (b: bool)
        ensures
            b == self.carry_flag(),
    {
        self.has_carry()
    }

    /// Sets the carry at the back; it is the one carry.
    fn set_back_carry(&mut self, carry: bool)
        ensures
            final(self).carry_flag() == carry,
            final(self).ready() == old(self).ready(),
            final(self).exhausted() == old(self).exhausted(),
    {
        self.set_carry(carry)
    }

    /// The iterator with the carry at the back set.
    fn with_back_carry(self, carry: bool) -> (r: Self)
        ensures
            r.carry_flag() == carry,
            r.ready() == self.ready(),
            r.exhausted() == self.exhausted(),
    {
        self.with_carry(carry)
    }
}

/// The items of a sequence, with a carry that stays as it is set.
pub struct CarryingIter<T> {
    iter: VecDeque<T>,
    carry: bool,
}

impl<T> CarryingIter<T> {
    /// The items not taken yet.
    pub closed spec fn remaining(&self) -> Seq<T> {
        self.iter@
    }
}

/// A carrying iterator over `items`, with the carry clear.
pub fn carrying<T>(items: Vec<T>) -> (r: CarryingIter<T>)
    ensures
        r.remaining() == items@,
        !r.carry_flag(),
{
    let mut items = items;
    let ghost all = items@;
    let mut iter: VecDeque<T> = VecDeque::new();
    while items.len() > 0
        invariant
            items@ + iter@ == all,
        decreases items@.len(),
    {
        let ghost before = items@;
        let x = items.pop().unwrap();
        iter.push_front(x);
        proof {
            assert(items@ + iter@ =~= before + iter@.drop_first());
        }
    }
    proof {
        assert(items@ + iter@ =~= iter@);
    }
    CarryingIter { iter, carry: false }
}

impl<T> CarryingIterator for CarryingIter<T> {
    type Item = T;

    closed spec fn carry_flag(&self) -> bool {
        self.carry
    }

    closed spec fn ready(&self) -> bool {
        true
    }

    closed spec fn exhausted(&self) -> bool {
        self.iter@.len() == 0
    }

    fn has_carry(&self) -> (b: bool) {
        self.carry
    }

    fn set_carry(&mut self, carry: bool) {
        self.carry = carry
    }

    fn carrying_next(&mut self) -> (r: (bool, Option<T>))
        ensures
            r.0 == old(self).carry_flag(),
            old(self).remaining().len() == 0 ==> r.1 is None && final(self).remaining() == old(self).remaining(),
            old(self).remaining().len() > 0 ==> r.1 == Some(old(self).remaining()[0]) && final(self).remaining()
                == old(self).remaining().drop_first(),
    {
        let carry = self.carry;
        let item = self.iter.pop_front();
        proof {
            assert(old(self).remaining().len() > 0 ==> self.remaining() =~= old(self).remaining().drop_first());
        }
        (carry, item)
    }
}

impl<T> DoubleEndedCarryingIterator for CarryingIter<T> {
    fn carrying_next_back(&mut self) -> (r: (bool, Option<T>))
        ensures
            r.0 == old(self).carry_flag(),
            old(self).remaining().len() == 0 ==> r.1 is None && final(self).remaining() == old(self).remaining(),
            old(self).remaining().len() > 0 ==> r.1 == Some(old(self).remaining().last()) && final(self).remaining()
                == old(self).remaining().drop_last(),
    {
        let carry = self.carry;
        let item = self.iter.pop_back();
        proof {
            assert(old(self).remaining().len() > 0 ==> self.remaining() =~= old(self).remaining().drop_last());
        }
        (carry, item)
    }
}

/// The items that a function computes from the carry and the items of another iterator.
pub struct CarryingMap<I, F> {
    iter: I,
    f: F,
}

impl<I, F> CarryingMap<I, F> {
    /// The iterator whose items are mapped.
    pub closed spec fn inner(&self) -> I {
        self.iter
    }

    /// The function that maps them.
    pub closed spec fn function(&self) -> F {
        self.f
    }
}

impl<B, CI: CarryingIterator, F> CarryingIterator for CarryingMap<CI, F> where
    F: Fn(bool, CI::Item) -> (bool, B),
 {
    type Item = B;

    closed spec fn carry_flag(&self) -> bool {
        self.iter.carry_flag()
    }

    closed spec fn ready(&self) -> bool {
        self.iter.ready() && forall|c: bool, v: CI::Item| #[trigger] self.f.requires((c, v))
    }

    closed spec fn exhausted(&self) -> bool {
        self.iter.exhausted()
    }

    fn has_carry(&self) -> (b: bool) {
        self.iter.has_carry()
    }

    fn set_carry(&mut self, carry: bool) {
        self.iter.set_carry(carry);
        assert(self.f == old(self).f);
    }

    fn carrying_next(&mut self) -> (r: (bool, Option<B>))
        ensures
            final(self).function() == old(self).function(),
            r.1 is Some ==> exists|c: bool, v: CI::Item| #[trigger] old(self).function().ensures((c, v), (r.0, r.1->Some_0)),
    {
        let next = self.iter.carrying_next();
        assert(self.f == old(self).f);
        match next {
            (carry, None) => (carry, None),
            (carry, Some(v)) => {
                let ghost item = v;
                let (new_carry, new_v) = (self.f)(carry, v);
                self.iter.set_carry(new_carry);
                assert(self.f == old(self).f);
                assert(old(self).function().ensures((carry, item), (new_carry, new_v)));
                let r = (new_carry, Some(new_v));
                assert(r.1->Some_0 == new_v);
                assert(exists|c: bool, v: CI::Item| #[trigger] old(self).function().ensures((c, v), (r.0, r.1->Some_0)));
                r
            },
        }
    }
}

/// The items of one carrying iterator, then those of another.
pub struct CarryingChain<A, B> {
    head: A,
    last: B,
    in_last: bool,
}

impl<A, B> CarryingChain<A, B> {
    /// The iterator that comes first.
    pub closed spec fn head(&self) -> A {
        self.head
    }

    /// The iterator that comes after it.
    pub closed spec fn last(&self) -> B {
        self.last
    }

    /// The first iterator is spent.
    pub closed spec fn in_last(&self) -> bool {
        self.in_last
    }
}

impl<A, B> CarryingIterator for CarryingChain<A, B> where
    A: CarryingIterator,
    B: CarryingIterator<Item = A::Item>,
 {
    type Item = A::Item;

    closed spec fn carry_flag(&self) -> bool {
        if self.in_last {
            self.last.carry_flag()
        } else {
            self.head.carry_flag()
        }
    }

    closed spec fn ready(&self) -> bool {
        self.head.ready() && self.last.ready()
    }

    closed spec fn exhausted(&self) -> bool {
        (self.in_last || self.head.exhausted()) && self.last.exhausted()
    }

    fn has_carry(&self) -> (b: bool) {
        if self.in_last {
            self.last.has_carry()
        } else {
            self.head.has_carry()
        }
    }

    fn set_carry(&mut self, carry: bool) {
        if self.in_last {
            self.last.set_carry(carry)
        } else {
            self.head.set_carry(carry)
        }
    }

    fn carrying_next(&mut self) -> (r: (bool, Option<A::Item>)) {
        if self.in_last {
            self.last.carrying_next()
        } else {
            match self.head.carrying_next() {
                (carry, None) => {
                    self.last.set_carry(carry);
                    self.in_last = true;
                    self.last.carrying_next()
                },
                (carry, Some(v)) => (carry, Some(v)),
            }
        }
    }
}

/// The items of a carrying iterator, then one more item if the carry is set at the end.
pub struct IteratorAdapter<CI, U> {
    iter: CI,
    last_item: U,
}

impl<CI, U> IteratorAdapter<CI, U> {
    /// The carrying iterator.
    pub closed spec fn inner(&self) -> CI {
        self.iter
    }

    /// The item that a carry at the end gives.
    pub closed spec fn last_item(&self) -> U {
        self.last_item
    }
}

impl<CI: CarryingIterator<Item = U>, U: Clone> IteratorAdapter<CI, U> {
    /// The next item: that of the carrying iterator; when it has none and the carry is set,
    /// the last item, once, with the carry cleared.
    pub fn next(&mut self) -> (r: Option<U>)
        requires
            old(self).inner().ready(),
        ensures
            final(self).last_item() == old(self).last_item(),
            final(self).inner().ready(),
            !old(self).inner().exhausted() ==> r is Some,
            old(self).inner().exhausted() ==> (r is Some <==> old(self).inner().carry_flag()),
            old(self).inner().exhausted() ==> final(self).inner().exhausted()
                && !final(self).inner().carry_flag(),
            old(self).inner().exhausted() && r is Some ==> cloned(old(self).last_item(), r->Some_0),
    {
        match self.iter.carrying_next() {
            (carry, None) => {
                if carry {
                    self.iter.set_carry(false);
                    Some(self.last_item.clone())
                } else {
                    None
                }
            },
            (_carry, Some(v)) => Some(v),
        }
    }
}

impl<CI: DoubleEndedCarryingIterator<Item = U>, U: Clone> IteratorAdapter<CI, U> {
    /// The last item: that of the carrying iterator from the back; when it has none and the
    /// carry is set, the last item, once, with the carry cleared.
    pub fn next_back(&mut self) -> (r: Option<U>)
        requires
            old(self).inner().ready(),
        ensures
            final(self).last_item() == old(self).last_item(),
            final(self).inner().ready(),
            !old(self).inner().exhausted() ==> r is Some,
            old(self).inner().exhausted() ==> (r is Some <==> old(self).inner().carry_flag()),
            old(self).inner().exhausted() ==> final(self).inner().exhausted()
                && !final(self).inner().carry_flag(),
            old(self).inner().exhausted() && r is Some ==> cloned(old(self).last_item(), r->Some_0),
    {
        match self.iter.carrying_next_back() {
            (true, None) => {
                self.iter.set_back_carry(false);
                Some(self.last_item.clone())
            },
            (false, None) => None,
            (_carry, Some(v)) => Some(v),
        }
    }
}

} // verus!
