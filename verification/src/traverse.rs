//! Forest-wide traversal. Both traversals work over an implicit forest (the
//! top layer plus, recursively, every node's children layer) with a
//! double-ended work queue of layer positions, and differ only in where a
//! popped node's children are queued: at the back for breadth-first, at the
//! front for depth-first.

use vstd::prelude::*;
use crate::bush::Bush;
use crate::bush::BushNode;
use crate::bush::forest_count;
use crate::bush::layer_items;
use crate::bush::subtree_count;
use crate::bush::pre_nodes;

verus! {

/// A work-queue entry: a layer together with the position of the next node
/// of that layer still to visit.
pub open spec fn entry_wf<T>(e: (Bush<T>, int)) -> bool {
    0 <= e.1 < e.0@.len()
}

/// The number of nodes that an entry still stands for: the entry's node,
/// its whole subtree, and every right sibling with its subtree.
pub open spec fn entry_count<T>(e: (Bush<T>, int)) -> nat {
    if entry_wf(e) {
        forest_count(e.0@.subrange(e.1, e.0@.len() as int))
    } else {
        0
    }
}

/// The nodes that an entry still stands for, in depth-first pre-order.
pub open spec fn entry_pre<T>(e: (Bush<T>, int)) -> Seq<BushNode<T>> {
    if entry_wf(e) {
        pre_nodes(e.0@.subrange(e.1, e.0@.len() as int))
    } else {
        Seq::empty()
    }
}

/// The total number of nodes a whole work queue still stands for.
pub open spec fn queue_count<T>(q: Seq<(Bush<T>, int)>) -> nat
    decreases q.len(),
{
    if q.len() == 0 {
        0
    } else {
        entry_count(q.first()) + queue_count(q.drop_first())
    }
}

/// The pre-order nodes of a whole work queue, entry by entry.
pub open spec fn queue_pre<T>(q: Seq<(Bush<T>, int)>) -> Seq<BushNode<T>>
    decreases q.len(),
{
    if q.len() == 0 {
        Seq::empty()
    } else {
        entry_pre(q.first()) + queue_pre(q.drop_first())
    }
}

/// Queue counting distributes over joining two queues.
pub proof fn lemma_queue_count_concat<T>(a: Seq<(Bush<T>, int)>, b: Seq<(Bush<T>, int)>)
    ensures
        queue_count(a + b) == queue_count(a) + queue_count(b),
    decreases a.len(),
{
    if a.len() == 0 {
        assert(a + b =~= b);
    } else {
        assert((a + b).first() == a.first());
        assert((a + b).drop_first() =~= a.drop_first() + b);
        lemma_queue_count_concat(a.drop_first(), b);
    }
}

/// Queue pre-order distributes over joining two queues.
pub proof fn lemma_queue_pre_concat<T>(a: Seq<(Bush<T>, int)>, b: Seq<(Bush<T>, int)>)
    ensures
        queue_pre(a + b) == queue_pre(a) + queue_pre(b),
    decreases a.len(),
{
    if a.len() == 0 {
        assert(a + b =~= b);
        assert(queue_pre(a + b) =~= queue_pre(a) + queue_pre(b));
    } else {
        assert((a + b).first() == a.first());
        assert((a + b).drop_first() =~= a.drop_first() + b);
        lemma_queue_pre_concat(a.drop_first(), b);
        assert(queue_pre(a + b) =~= queue_pre(a) + queue_pre(b));
    }
}

/// A single well-formed entry accounts for its node's subtree plus the rest
/// of its layer: the facts one pop of the queue relies on.
proof fn lemma_entry_step<T>(e: (Bush<T>, int))
    requires
        entry_wf(e),
    ensures
        entry_count(e) == subtree_count(e.0@[e.1]) + entry_count((e.0, e.1 + 1)),
        entry_pre(e) == seq![e.0@[e.1]] + (match e.0@[e.1].children {
            Some(c) => pre_nodes(c@),
            None => Seq::empty(),
        }) + entry_pre((e.0, e.1 + 1)),
{
    let s = e.0@;
    let i = e.1;
    let suf = s.subrange(i, s.len() as int);
    assert(suf.first() == s[i]);
    assert(suf.drop_first() =~= s.subrange(i + 1, s.len() as int));
    if i + 1 < s.len() {
        assert(entry_count((e.0, i + 1)) == forest_count(s.subrange(i + 1, s.len() as int)));
        assert(entry_pre((e.0, i + 1)) == pre_nodes(s.subrange(i + 1, s.len() as int)));
    } else {
        assert(s.subrange(i + 1, s.len() as int).len() == 0);
        assert(forest_count(s.subrange(i + 1, s.len() as int)) == 0);
        assert(pre_nodes(s.subrange(i + 1, s.len() as int)) =~= Seq::<BushNode<T>>::empty());
    }
}

/// The queue after one breadth-first pop of the well-formed entry `e`: the
/// rest of `e`'s layer goes to the front, `e`'s children layer to the back.
pub open spec fn bfs_next_queue<T>(e: (Bush<T>, int), rest: Seq<(Bush<T>, int)>) -> Seq<
    (Bush<T>, int),
> {
    let q1 = if e.1 + 1 < e.0@.len() {
        seq![(e.0, e.1 + 1)] + rest
    } else {
        rest
    };
    match e.0@[e.1].children {
        Some(c) => if c@.len() > 0 {
            q1.push((c, 0int))
        } else {
            q1
        },
        None => q1,
    }
}

/// The queue after one depth-first pop of the well-formed entry `e`: the
/// children layer ends up at the very front, ahead of the rest of `e`'s
/// layer.
pub open spec fn dfs_next_queue<T>(e: (Bush<T>, int), rest: Seq<(Bush<T>, int)>) -> Seq<
    (Bush<T>, int),
> {
    let q1 = if e.1 + 1 < e.0@.len() {
        seq![(e.0, e.1 + 1)] + rest
    } else {
        rest
    };
    match e.0@[e.1].children {
        Some(c) => if c@.len() > 0 {
            seq![(c, 0int)] + q1
        } else {
            q1
        },
        None => q1,
    }
}

/// One pop spends exactly one node of the queue's total.
proof fn lemma_bfs_next_queue_count<T>(e: (Bush<T>, int), rest: Seq<(Bush<T>, int)>)
    requires
        entry_wf(e),
    ensures
        queue_count(bfs_next_queue(e, rest)) + 1 == entry_count(e) + queue_count(rest),
{
    lemma_entry_step(e);
    let n = e.0@[e.1];
    let q1 = if e.1 + 1 < e.0@.len() {
        seq![(e.0, e.1 + 1)] + rest
    } else {
        rest
    };
    if e.1 + 1 < e.0@.len() {
        lemma_queue_count_concat(seq![(e.0, e.1 + 1)], rest);
        assert(queue_count(seq![(e.0, e.1 + 1)]) == entry_count((e.0, e.1 + 1)) + queue_count(
            seq![(e.0, e.1 + 1)].drop_first(),
        ));
        assert(seq![(e.0, e.1 + 1)].drop_first().len() == 0);
    } else {
        assert(entry_count((e.0, e.1 + 1)) == 0);
    }
    assert(queue_count(q1) == entry_count((e.0, e.1 + 1)) + queue_count(rest));
    match n.children {
        Some(c) => {
            assert(subtree_count(n) == 1 + forest_count(c@));
            if c@.len() > 0 {
                assert(bfs_next_queue(e, rest) == q1.push((c, 0int)));
                assert(q1.push((c, 0int)) =~= q1 + seq![(c, 0int)]);
                lemma_queue_count_concat(q1, seq![(c, 0int)]);
                assert(queue_count(seq![(c, 0int)]) == entry_count((c, 0int)) + queue_count(
                    seq![(c, 0int)].drop_first(),
                ));
                assert(seq![(c, 0int)].drop_first().len() == 0);
                assert(c@.subrange(0, c@.len() as int) =~= c@);
                assert(entry_count((c, 0int)) == forest_count(c@));
            } else {
                assert(forest_count(c@) == 0);
            }
        },
        None => {
            assert(subtree_count(n) == 1);
        },
    }
}

/// The depth-first pop spends exactly one node as well.
proof fn lemma_dfs_next_queue_count<T>(e: (Bush<T>, int), rest: Seq<(Bush<T>, int)>)
    requires
        entry_wf(e),
    ensures
        queue_count(dfs_next_queue(e, rest)) + 1 == entry_count(e) + queue_count(rest),
{
    lemma_entry_step(e);
    let n = e.0@[e.1];
    let q1 = if e.1 + 1 < e.0@.len() {
        seq![(e.0, e.1 + 1)] + rest
    } else {
        rest
    };
    if e.1 + 1 < e.0@.len() {
        lemma_queue_count_concat(seq![(e.0, e.1 + 1)], rest);
        assert(queue_count(seq![(e.0, e.1 + 1)]) == entry_count((e.0, e.1 + 1)) + queue_count(
            seq![(e.0, e.1 + 1)].drop_first(),
        ));
        assert(seq![(e.0, e.1 + 1)].drop_first().len() == 0);
    } else {
        assert(entry_count((e.0, e.1 + 1)) == 0);
    }
    assert(queue_count(q1) == entry_count((e.0, e.1 + 1)) + queue_count(rest));
    match n.children {
        Some(c) => {
            assert(subtree_count(n) == 1 + forest_count(c@));
            if c@.len() > 0 {
                assert(dfs_next_queue(e, rest) == seq![(c, 0int)] + q1);
                lemma_queue_count_concat(seq![(c, 0int)], q1);
                assert(queue_count(seq![(c, 0int)]) == entry_count((c, 0int)) + queue_count(
                    seq![(c, 0int)].drop_first(),
                ));
                assert(seq![(c, 0int)].drop_first().len() == 0);
                assert(c@.subrange(0, c@.len() as int) =~= c@);
                assert(entry_count((c, 0int)) == forest_count(c@));
            } else {
                assert(forest_count(c@) == 0);
            }
        },
        None => {
            assert(subtree_count(n) == 1);
        },
    }
}

/// The sequence of nodes a breadth-first traversal yields from a work
/// queue: pop the front entry, yield its node, queue the rest of its layer
/// at the front and its children layer at the back.
pub open spec fn bfs_steps<T>(q: Seq<(Bush<T>, int)>) -> Seq<BushNode<T>>
    decreases queue_count(q), q.len(),
    via bfs_steps_decreases::<T>
{
    if q.len() == 0 {
        Seq::empty()
    } else {
        let e = q.first();
        let rest = q.drop_first();
        if !entry_wf(e) {
            bfs_steps(rest)
        } else {
            seq![e.0@[e.1]] + bfs_steps(bfs_next_queue(e, rest))
        }
    }
}

#[via_fn]
proof fn bfs_steps_decreases<T>(q: Seq<(Bush<T>, int)>) {
    if q.len() > 0 {
        let e = q.first();
        let rest = q.drop_first();
        assert(queue_count(q) == entry_count(e) + queue_count(rest));
        if entry_wf(e) {
            lemma_bfs_next_queue_count(e, rest);
            lemma_entry_step(e);
            assert(entry_count(e) >= 1);
        }
    }
}

/// The sequence of nodes a depth-first traversal yields from a work queue:
/// pop the front entry, yield its node, queue its children layer ahead of
/// the rest of its layer.
pub open spec fn dfs_steps<T>(q: Seq<(Bush<T>, int)>) -> Seq<BushNode<T>>
    decreases queue_count(q), q.len(),
    via dfs_steps_decreases::<T>
{
    if q.len() == 0 {
        Seq::empty()
    } else {
        let e = q.first();
        let rest = q.drop_first();
        if !entry_wf(e) {
            dfs_steps(rest)
        } else {
            seq![e.0@[e.1]] + dfs_steps(dfs_next_queue(e, rest))
        }
    }
}

#[via_fn]
proof fn dfs_steps_decreases<T>(q: Seq<(Bush<T>, int)>) {
    if q.len() > 0 {
        let e = q.first();
        let rest = q.drop_first();
        assert(queue_count(q) == entry_count(e) + queue_count(rest));
        if entry_wf(e) {
            lemma_dfs_next_queue_count(e, rest);
            lemma_entry_step(e);
            assert(entry_count(e) >= 1);
        }
    }
}

/// The depth-first queue discipline yields exactly the pre-order of what
/// the queue stands for: a node, then its full subtree, then its right
/// sibling.
pub proof fn lemma_dfs_steps_pre<T>(q: Seq<(Bush<T>, int)>)
    ensures
        dfs_steps(q) == queue_pre(q),
    decreases queue_count(q), q.len(),
{
    if q.len() == 0 {
    } else {
        let e = q.first();
        let rest = q.drop_first();
        assert(queue_count(q) == entry_count(e) + queue_count(rest));
        if !entry_wf(e) {
            lemma_dfs_steps_pre(rest);
            assert(entry_pre(e) =~= Seq::<BushNode<T>>::empty());
            assert(queue_pre(q) =~= queue_pre(rest));
        } else {
            let n = e.0@[e.1];
            lemma_dfs_next_queue_count(e, rest);
            lemma_dfs_steps_pre(dfs_next_queue(e, rest));
            lemma_entry_step(e);
            let q1 = if e.1 + 1 < e.0@.len() {
                seq![(e.0, e.1 + 1)] + rest
            } else {
                rest
            };
            if e.1 + 1 < e.0@.len() {
                lemma_queue_pre_concat(seq![(e.0, e.1 + 1)], rest);
                assert(queue_pre(seq![(e.0, e.1 + 1)]) == entry_pre((e.0, e.1 + 1)) + queue_pre(
                    seq![(e.0, e.1 + 1)].drop_first(),
                ));
                assert(seq![(e.0, e.1 + 1)].drop_first().len() == 0);
                assert(queue_pre(q1) =~= entry_pre((e.0, e.1 + 1)) + queue_pre(rest));
            } else {
                assert(entry_pre((e.0, e.1 + 1)) =~= Seq::<BushNode<T>>::empty());
                assert(queue_pre(q1) =~= entry_pre((e.0, e.1 + 1)) + queue_pre(rest));
            }
            match n.children {
                Some(c) => {
                    if c@.len() > 0 {
                        assert(dfs_next_queue(e, rest) == seq![(c, 0int)] + q1);
                        lemma_queue_pre_concat(seq![(c, 0int)], q1);
                        assert(queue_pre(seq![(c, 0int)]) == entry_pre((c, 0int)) + queue_pre(
                            seq![(c, 0int)].drop_first(),
                        ));
                        assert(seq![(c, 0int)].drop_first().len() == 0);
                        assert(c@.subrange(0, c@.len() as int) =~= c@);
                        assert(entry_pre((c, 0int)) == pre_nodes(c@));
                        assert(dfs_steps(q) =~= queue_pre(q));
                    } else {
                        assert(pre_nodes(c@) =~= Seq::<BushNode<T>>::empty());
                        assert(dfs_steps(q) =~= queue_pre(q));
                    }
                },
                None => {
                    assert(dfs_steps(q) =~= queue_pre(q));
                },
            }
        }
    }
}

/// A breadth-first traversal yields every node the queue stands for exactly
/// once: its length is the queue's node count.
pub proof fn lemma_bfs_steps_len<T>(q: Seq<(Bush<T>, int)>)
    ensures
        bfs_steps(q).len() == queue_count(q),
    decreases queue_count(q), q.len(),
{
    if q.len() == 0 {
    } else {
        let e = q.first();
        let rest = q.drop_first();
        assert(queue_count(q) == entry_count(e) + queue_count(rest));
        if !entry_wf(e) {
            lemma_bfs_steps_len(rest);
        } else {
            lemma_bfs_next_queue_count(e, rest);
            lemma_bfs_steps_len(bfs_next_queue(e, rest));
        }
    }
}

/// A breadth-first traversal of a whole bush is finite and complete: it
/// yields exactly as many nodes as the forest holds.
pub proof fn lemma_bfs_count<T>(b: Bush<T>)
    ensures
        b@.len() > 0 ==> bfs_steps(seq![(b, 0int)]).len() == forest_count(b@),
{
    if b@.len() > 0 {
        lemma_bfs_steps_len(seq![(b, 0int)]);
        assert(queue_count(seq![(b, 0int)]) == entry_count((b, 0int)) + queue_count(
            seq![(b, 0int)].drop_first(),
        ));
        assert(seq![(b, 0int)].drop_first().len() == 0);
        assert(b@.subrange(0, b@.len() as int) =~= b@);
    }
}

/// What a depth-first traversal of a whole bush yields: the pre-order of
/// its forest.
pub proof fn lemma_dfs_of_bush<T>(b: Bush<T>)
    ensures
        b@.len() > 0 ==> dfs_steps(seq![(b, 0int)]) == pre_nodes(b@),
{
    if b@.len() > 0 {
        lemma_dfs_steps_pre(seq![(b, 0int)]);
        assert(queue_pre(seq![(b, 0int)]) == entry_pre((b, 0int)) + queue_pre(
            seq![(b, 0int)].drop_first(),
        ));
        assert(seq![(b, 0int)].drop_first().len() == 0);
        assert(b@.subrange(0, b@.len() as int) =~= b@);
        assert(dfs_steps(seq![(b, 0int)]) =~= pre_nodes(b@));
    }
}

/// A lazy breadth-first iterator over a forest. It is not restartable: the
/// queue state is consumed as it yields nodes.
pub struct BFSIter<'a, T> {
    queue: Vec<(&'a Bush<T>, usize)>,
}

impl<'a, T> BFSIter<'a, T> {
    /// The ghost work queue this iterator holds.
    pub closed spec fn q(&self) -> Seq<(Bush<T>, int)> {
        self.queue@.map_values(|e: (&'a Bush<T>, usize)| (*e.0, e.1 as int))
    }

    /// Every queued position lies inside its layer.
    pub open spec fn wf(&self) -> bool {
        forall|k: int| 0 <= k < self.q().len() ==> entry_wf(#[trigger] self.q()[k])
    }

    /// The nodes this iterator has still to yield, in order.
    pub open spec fn remaining(&self) -> Seq<BushNode<T>> {
        bfs_steps(self.q())
    }

    /// Yield the next node of the traversal, or nothing once the forest is
    /// exhausted.
    pub fn next(&mut self) -> (r: Option<&'a BushNode<T>>)
        requires
            old(self).wf(),
        ensures
            final(self).wf(),
            match r {
                Some(n) => old(self).remaining().len() > 0 && *n == old(self).remaining().first()
                    && final(self).remaining() == old(self).remaining().drop_first(),
                None => old(self).remaining().len() == 0 && final(self).remaining() == old(
                    self,
                ).remaining(),
            },
    {
        let ghost q0 = self.q();
        if self.queue.len() == 0 {
            proof {
                assert(q0 =~= Seq::<(Bush<T>, int)>::empty());
            }
            return None;
        }
        let (b, i) = self.queue.remove(0);
        proof {
            assert(q0[0] == (*b, i as int));
            assert(entry_wf(q0[0]));
            assert(self.q() =~= q0.drop_first());
        }
        let node = b.nth_node(i).unwrap();
        let len = b.top_layer_length();
        if i < len - 1 {
            self.queue.insert(0, (b, i + 1));
        }
        match &node.children {
            Some(c) => {
                if !c.is_empty() {
                    self.queue.push((c, 0));
                }
            },
            None => {},
        }
        proof {
            assert(self.q() =~= bfs_next_queue(q0.first(), q0.drop_first()));
            assert forall|k: int| 0 <= k < self.q().len() implies entry_wf(
                #[trigger] self.q()[k],
            ) by {
                let nq = bfs_next_queue(q0.first(), q0.drop_first());
                assert(self.q()[k] == nq[k]);
            }
            assert(bfs_steps(q0) == seq![q0.first().0@[q0.first().1]] + bfs_steps(
                bfs_next_queue(q0.first(), q0.drop_first()),
            ));
            assert(bfs_steps(q0).drop_first() =~= bfs_steps(
                bfs_next_queue(q0.first(), q0.drop_first()),
            ));
        }
        Some(node)
    }
}

/// A lazy depth-first iterator over a forest. It is not restartable: the
/// queue state is consumed as it yields nodes.
pub struct DFSIter<'a, T> {
    queue: Vec<(&'a Bush<T>, usize)>,
}

impl<'a, T> DFSIter<'a, T> {
    /// The ghost work queue this iterator holds.
    pub closed spec fn q(&self) -> Seq<(Bush<T>, int)> {
        self.queue@.map_values(|e: (&'a Bush<T>, usize)| (*e.0, e.1 as int))
    }

    /// Every queued position lies inside its layer.
    pub open spec fn wf(&self) -> bool {
        forall|k: int| 0 <= k < self.q().len() ==> entry_wf(#[trigger] self.q()[k])
    }

    /// The nodes this iterator has still to yield, in order.
    pub open spec fn remaining(&self) -> Seq<BushNode<T>> {
        dfs_steps(self.q())
    }

    /// Yield the next node of the traversal, or nothing once the forest is
    /// exhausted.
    pub fn next(&mut self) -> (r: Option<&'a BushNode<T>>)
        requires
            old(self).wf(),
        ensures
            final(self).wf(),
            match r {
                Some(n) => old(self).remaining().len() > 0 && *n == old(self).remaining().first()
                    && final(self).remaining() == old(self).remaining().drop_first(),
                None => old(self).remaining().len() == 0 && final(self).remaining() == old(
                    self,
                ).remaining(),
            },
    {
        let ghost q0 = self.q();
        if self.queue.len() == 0 {
            proof {
                assert(q0 =~= Seq::<(Bush<T>, int)>::empty());
            }
            return None;
        }
        let (b, i) = self.queue.remove(0);
        proof {
            assert(q0[0] == (*b, i as int));
            assert(entry_wf(q0[0]));
            assert(self.q() =~= q0.drop_first());
        }
        let node = b.nth_node(i).unwrap();
        let len = b.top_layer_length();
        if i < len - 1 {
            self.queue.insert(0, (b, i + 1));
        }
        match &node.children {
            Some(c) => {
                if !c.is_empty() {
                    self.queue.insert(0, (c, 0));
                }
            },
            None => {},
        }
        proof {
            assert(self.q() =~= dfs_next_queue(q0.first(), q0.drop_first()));
            assert forall|k: int| 0 <= k < self.q().len() implies entry_wf(
                #[trigger] self.q()[k],
            ) by {
                let nq = dfs_next_queue(q0.first(), q0.drop_first());
                assert(self.q()[k] == nq[k]);
            }
            assert(dfs_steps(q0) == seq![q0.first().0@[q0.first().1]] + dfs_steps(
                dfs_next_queue(q0.first(), q0.drop_first()),
            ));
            assert(dfs_steps(q0).drop_first() =~= dfs_steps(
                dfs_next_queue(q0.first(), q0.drop_first()),
            ));
        }
        Some(node)
    }
}

/// A lazy breadth-first iterator over a forest's items.
pub struct BFSItemIter<'a, T> {
    it: BFSIter<'a, T>,
}

impl<'a, T> BFSItemIter<'a, T> {
    /// Every queued position lies inside its layer.
    pub closed spec fn wf(&self) -> bool {
        self.it.wf()
    }

    /// The items this iterator has still to yield, in order.
    pub closed spec fn remaining(&self) -> Seq<T> {
        layer_items(self.it.remaining())
    }

    /// Yield the next item of the traversal, or nothing once the forest is
    /// exhausted.
    pub fn next(&mut self) -> (r: Option<&'a T>)
        requires
            old(self).wf(),
        ensures
            final(self).wf(),
            match r {
                Some(x) => old(self).remaining().len() > 0 && *x == old(self).remaining().first()
                    && final(self).remaining() == old(self).remaining().drop_first(),
                None => old(self).remaining().len() == 0 && final(self).remaining() == old(
                    self,
                ).remaining(),
            },
    {
        let ghost before = self.it.remaining();
        match self.it.next() {
            Some(n) => {
                proof {
                    assert(layer_items(before.drop_first()) =~= layer_items(before).drop_first());
                }
                Some(&n.item)
            },
            None => None,
        }
    }
}

/// A lazy depth-first iterator over a forest's items.
pub struct DFSItemIter<'a, T> {
    it: DFSIter<'a, T>,
}

impl<'a, T> DFSItemIter<'a, T> {
    /// Every queued position lies inside its layer.
    pub closed spec fn wf(&self) -> bool {
        self.it.wf()
    }

    /// The items this iterator has still to yield, in order.
    pub closed spec fn remaining(&self) -> Seq<T> {
        layer_items(self.it.remaining())
    }

    /// Yield the next item of the traversal, or nothing once the forest is
    /// exhausted.
    pub fn next(&mut self) -> (r: Option<&'a T>)
        requires
            old(self).wf(),
        ensures
            final(self).wf(),
            match r {
                Some(x) => old(self).remaining().len() > 0 && *x == old(self).remaining().first()
                    && final(self).remaining() == old(self).remaining().drop_first(),
                None => old(self).remaining().len() == 0 && final(self).remaining() == old(
                    self,
                ).remaining(),
            },
    {
        let ghost before = self.it.remaining();
        match self.it.next() {
            Some(n) => {
                proof {
                    assert(layer_items(before.drop_first()) =~= layer_items(before).drop_first());
                }
                Some(&n.item)
            },
            None => None,
        }
    }
}

impl<T> Bush<T> {
    /// A breadth-first traversal of the whole forest, seeded at the top
    /// layer's first node.
    pub fn bfs_nodes(&self) -> (r: BFSIter<'_, T>)
        ensures
            r.wf(),
            self@.len() > 0 ==> r.remaining() == bfs_steps(seq![(*self, 0int)]),
            self@.len() == 0 ==> r.remaining() == Seq::<BushNode<T>>::empty(),
    {
        let mut queue: Vec<(&Bush<T>, usize)> = Vec::new();
        if !self.is_empty() {
            queue.push((self, 0));
        }
        let r = BFSIter { queue };
        proof {
            if self@.len() > 0 {
                assert(r.q() =~= seq![(*self, 0int)]);
            } else {
                assert(r.q() =~= Seq::<(Bush<T>, int)>::empty());
            }
        }
        r
    }

    /// A depth-first traversal of the whole forest, seeded at the top
    /// layer's first node; it yields the forest in pre-order.
    pub fn dfs_nodes(&self) -> (r: DFSIter<'_, T>)
        ensures
            r.wf(),
            r.remaining() == pre_nodes(self@),
    {
        let mut queue: Vec<(&Bush<T>, usize)> = Vec::new();
        if !self.is_empty() {
            queue.push((self, 0));
        }
        let r = DFSIter { queue };
        proof {
            if self@.len() > 0 {
                assert(r.q() =~= seq![(*self, 0int)]);
                lemma_dfs_of_bush(*self);
            } else {
                assert(r.q() =~= Seq::<(Bush<T>, int)>::empty());
                assert(pre_nodes(self@) =~= Seq::<BushNode<T>>::empty());
            }
        }
        r
    }

    /// The items of a breadth-first traversal of the whole forest.
    pub fn bfs_items(&self) -> (r: BFSItemIter<'_, T>)
        ensures
            r.wf(),
            self@.len() > 0 ==> r.remaining() == layer_items(bfs_steps(seq![(*self, 0int)])),
            self@.len() == 0 ==> r.remaining() == Seq::<T>::empty(),
    {
        let r = BFSItemIter { it: self.bfs_nodes() };
        proof {
            if self@.len() == 0 {
                assert(r.remaining() =~= Seq::<T>::empty());
            }
        }
        r
    }

    /// The items of a depth-first traversal of the whole forest, in
    /// pre-order.
    pub fn dfs_items(&self) -> (r: DFSItemIter<'_, T>)
        ensures
            r.wf(),
            r.remaining() == layer_items(pre_nodes(self@)),
    {
        DFSItemIter { it: self.dfs_nodes() }
    }
}

impl<T> BushNode<T> {
    /// A breadth-first traversal of this node's subtree treated as an
    /// independent forest: it is seeded at the node's children only, and
    /// yields neither the node itself nor its siblings.
    pub fn bfs_nodes(&self) -> (r: BFSIter<'_, T>)
        ensures
            r.wf(),
            match self.children {
                Some(c) => (c@.len() > 0 ==> r.remaining() == bfs_steps(seq![(c, 0int)])) && (
                c@.len() == 0 ==> r.remaining() == Seq::<BushNode<T>>::empty()),
                None => r.remaining() == Seq::<BushNode<T>>::empty(),
            },
    {
        match &self.children {
            Some(c) => c.bfs_nodes(),
            None => {
                let r = BFSIter { queue: Vec::new() };
                proof {
                    assert(r.q() =~= Seq::<(Bush<T>, int)>::empty());
                }
                r
            },
        }
    }

    /// A depth-first traversal of this node's subtree treated as an
    /// independent forest: it is seeded at the node's children only, and
    /// yields neither the node itself nor its siblings.
    pub fn dfs_nodes(&self) -> (r: DFSIter<'_, T>)
        ensures
            r.wf(),
            match self.children {
                Some(c) => r.remaining() == pre_nodes(c@),
                None => r.remaining() == Seq::<BushNode<T>>::empty(),
            },
    {
        match &self.children {
            Some(c) => c.dfs_nodes(),
            None => {
                let r = DFSIter { queue: Vec::new() };
                proof {
                    assert(r.q() =~= Seq::<(Bush<T>, int)>::empty());
                }
                r
            },
        }
    }

    /// The items of a breadth-first traversal of this node's subtree.
    pub fn bfs_items(&self) -> (r: BFSItemIter<'_, T>)
        ensures
            r.wf(),
            match self.children {
                Some(c) => (c@.len() > 0 ==> r.remaining() == layer_items(
                    bfs_steps(seq![(c, 0int)]),
                )) && (c@.len() == 0 ==> r.remaining() == Seq::<T>::empty()),
                None => r.remaining() == Seq::<T>::empty(),
            },
    {
        let r = BFSItemIter { it: self.bfs_nodes() };
        proof {
            match &self.children {
                Some(c) => {
                    if c@.len() == 0 {
                        assert(r.remaining() =~= Seq::<T>::empty());
                    }
                },
                None => {
                    assert(r.remaining() =~= Seq::<T>::empty());
                },
            }
        }
        r
    }

    /// The items of a depth-first traversal of this node's subtree, in
    /// pre-order.
    pub fn dfs_items(&self) -> (r: DFSItemIter<'_, T>)
        ensures
            r.wf(),
            match self.children {
                Some(c) => r.remaining() == layer_items(pre_nodes(c@)),
                None => r.remaining() == Seq::<T>::empty(),
            },
    {
        let r = DFSItemIter { it: self.dfs_nodes() };
        proof {
            match &self.children {
                Some(_c) => {},
                None => {
                    assert(r.remaining() =~= Seq::<T>::empty());
                },
            }
        }
        r
    }
}

} // verus!
