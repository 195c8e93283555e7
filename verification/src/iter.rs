//! Lazy iterators over a single layer: forward (rightward) and backward
//! (leftward) walks over nodes or items, without descending into children.
//! Each call to a constructor yields a fresh iterator.

use vstd::prelude::*;
use crate::bush::Bush;
use crate::bush::BushNode;
use crate::bush::layer_items;

verus! {

/// The first `n` nodes of a layer in right-to-left order: what a leftward
/// walk seeded at position `n - 1` yields.
pub open spec fn rev_prefix<T>(s: Seq<BushNode<T>>, n: int) -> Seq<BushNode<T>> {
    Seq::new(n as nat, |k: int| s[n - 1 - k])
}

/// A lazy rightward iterator over the nodes of one layer.
pub struct BushNodeIterRight<'a, T> {
    bush: &'a Bush<T>,
    pos: usize,
}

impl<'a, T> BushNodeIterRight<'a, T> {
    /// The walk has not run past the end of the layer.
    pub closed spec fn wf(&self) -> bool {
        self.pos <= self.bush@.len()
    }

    /// The nodes this iterator has still to yield, in order.
    pub closed spec fn remaining(&self) -> Seq<BushNode<T>> {
        self.bush@.skip(self.pos as int)
    }

    /// Yield the node under the cursor and move one step to the right, or
    /// nothing at the layer's right boundary.
    pub fn next(&mut self) -> (r: Option<&'a BushNode<T>>)
        requires
            old(self).wf(),
        ensures
            final(self).wf(),
            match r {
                Some(n) => old(self).remaining().len() > 0 && *n == old(self).remaining().first()
                    && final(self).remaining() == old(self).remaining().drop_first(),
                None => old(self).remaining().len() == 0 && final(self).remaining() == old(
                    self,
                ).remaining(),
            },
    {
        if self.pos < self.bush.top_layer_length() {
            let n = self.bush.nth_node(self.pos).unwrap();
            self.pos = self.pos + 1;
            proof {
                assert(old(self).remaining().first() == self.bush@[old(self).pos as int]);
                assert(self.remaining() =~= old(self).remaining().drop_first());
            }
            Some(n)
        } else {
            None
        }
    }
}

/// A lazy leftward iterator over the nodes of one layer.
pub struct BushNodeIterLeft<'a, T> {
    bush: &'a Bush<T>,
    bound: usize,
}

impl<'a, T> BushNodeIterLeft<'a, T> {
    /// The walk has not run past the layer.
    pub closed spec fn wf(&self) -> bool {
        self.bound <= self.bush@.len()
    }

    /// The nodes this iterator has still to yield, in order: the layer's
    /// first `bound` nodes, walked right to left.
    pub closed spec fn remaining(&self) -> Seq<BushNode<T>> {
        rev_prefix(self.bush@, self.bound as int)
    }

    /// Yield the node under the cursor and move one step to the left, or
    /// nothing once the layer's left boundary has been passed.
    pub fn next(&mut self) -> (r: Option<&'a BushNode<T>>)
        requires
            old(self).wf(),
        ensures
            final(self).wf(),
            match r {
                Some(n) => old(self).remaining().len() > 0 && *n == old(self).remaining().first()
                    && final(self).remaining() == old(self).remaining().drop_first(),
                None => old(self).remaining().len() == 0 && final(self).remaining() == old(
                    self,
                ).remaining(),
            },
    {
        if self.bound > 0 {
            let n = self.bush.nth_node(self.bound - 1).unwrap();
            self.bound = self.bound - 1;
            proof {
                assert(old(self).remaining().first() == self.bush@[old(self).bound - 1]);
                assert(self.remaining() =~= old(self).remaining().drop_first());
            }
            Some(n)
        } else {
            None
        }
    }
}

/// A lazy rightward iterator over the items of one layer.
pub struct BushNodeItemIterRight<'a, T> {
    it: BushNodeIterRight<'a, T>,
}

impl<'a, T> BushNodeItemIterRight<'a, T> {
    /// The walk has not run past the end of the layer.
    pub closed spec fn wf(&self) -> bool {
        self.it.wf()
    }

    /// The items this iterator has still to yield, in order.
    pub closed spec fn remaining(&self) -> Seq<T> {
        layer_items(self.it.remaining())
    }

    /// Yield the item under the cursor and move one step to the right, or
    /// nothing at the layer's right boundary.
    pub fn next(&mut self) -> (r: Option<&'a T>)
        requires
            old(self).wf(),
        ensures
            final(self).wf(),
            match r {
                Some(x) => old(self).remaining().len() > 0 && *x == old(self).remaining().first()
                    && final(self).remaining() == old(self).remaining().drop_first(),
                None => old(self).remaining().len() == 0 && final(self).remaining() == old(
                    self,
                ).remaining(),
            },
    {
        let ghost before = self.it.remaining();
        match self.it.next() {
            Some(n) => {
                proof {
                    assert(layer_items(before.drop_first()) =~= layer_items(before).drop_first());
                }
                Some(&n.item)
            },
            None => None,
        }
    }
}

/// A lazy leftward iterator over the items of one layer.
pub struct BushNodeItemIterLeft<'a, T> {
    it: BushNodeIterLeft<'a, T>,
}

impl<'a, T> BushNodeItemIterLeft<'a, T> {
    /// The walk has not run past the layer.
    pub closed spec fn wf(&self) -> bool {
        self.it.wf()
    }

    /// The items this iterator has still to yield, in order.
    pub closed spec fn remaining(&self) -> Seq<T> {
        layer_items(self.it.remaining())
    }

    /// Yield the item under the cursor and move one step to the left, or
    /// nothing once the layer's left boundary has been passed.
    pub fn next(&mut self) -> (r: Option<&'a T>)
        requires
            old(self).wf(),
        ensures
            final(self).wf(),
            match r {
                Some(x) => old(self).remaining().len() > 0 && *x == old(self).remaining().first()
                    && final(self).remaining() == old(self).remaining().drop_first(),
                None => old(self).remaining().len() == 0 && final(self).remaining() == old(
                    self,
                ).remaining(),
            },
    {
        let ghost before = self.it.remaining();
        match self.it.next() {
            Some(n) => {
                proof {
                    assert(layer_items(before.drop_first()) =~= layer_items(before).drop_first());
                }
                Some(&n.item)
            },
            None => None,
        }
    }
}

impl<T> Bush<T> {
    /// A rightward iterator over all nodes of the top layer, starting at the
    /// first.
    pub fn iter_nodes(&self) -> (r: BushNodeIterRight<'_, T>)
        ensures
            r.wf(),
            r.remaining() == self@,
    {
        let r = BushNodeIterRight { bush: self, pos: 0 };
        proof {
            assert(r.remaining() =~= self@);
        }
        r
    }

    /// A rightward iterator over all items of the top layer, starting at the
    /// first.
    pub fn iter_items(&self) -> (r: BushNodeItemIterRight<'_, T>)
        ensures
            r.wf(),
            r.remaining() == layer_items(self@),
    {
        let r = BushNodeItemIterRight { it: self.iter_nodes() };
        r
    }

    /// A rightward iterator over the top layer's nodes, starting at the node
    /// at position `i` (inclusive).
    pub fn iter_nodes_right(&self, i: usize) -> (r: BushNodeIterRight<'_, T>)
        requires
            i < self@.len(),
        ensures
            r.wf(),
            r.remaining() == self@.skip(i as int),
    {
        BushNodeIterRight { bush: self, pos: i }
    }

    /// A leftward iterator over the top layer's nodes, starting at the node
    /// at position `i` (inclusive) and walking towards the first.
    pub fn iter_nodes_left(&self, i: usize) -> (r: BushNodeIterLeft<'_, T>)
        requires
            i < self@.len(),
        ensures
            r.wf(),
            r.remaining() == rev_prefix(self@, i + 1),
    {
        // binding the length as a usize bounds the position arithmetic below
        let _len: usize = self.top_layer_length();
        BushNodeIterLeft { bush: self, bound: i + 1 }
    }

    /// A rightward iterator over the top layer's items, starting at the item
    /// at position `i` (inclusive).
    pub fn iter_items_right(&self, i: usize) -> (r: BushNodeItemIterRight<'_, T>)
        requires
            i < self@.len(),
        ensures
            r.wf(),
            r.remaining() == layer_items(self@.skip(i as int)),
    {
        BushNodeItemIterRight { it: self.iter_nodes_right(i) }
    }

    /// A leftward iterator over the top layer's items, starting at the item
    /// at position `i` (inclusive) and walking towards the first.
    pub fn iter_items_left(&self, i: usize) -> (r: BushNodeItemIterLeft<'_, T>)
        requires
            i < self@.len(),
        ensures
            r.wf(),
            r.remaining() == layer_items(rev_prefix(self@, i + 1)),
    {
        BushNodeItemIterLeft { it: self.iter_nodes_left(i) }
    }
}

} // verus!
