//! The library's general laws, stated over the same spec model that the
//! executable functions' contracts use, and proved once and for all.

use vstd::prelude::*;
use crate::bush::Bush;
use crate::bush::BushNode;
use crate::bush::forest_count;
use crate::bush::subtree_count;
use crate::bush::pre_nodes;
use crate::bush::layer_items;
use crate::bush::flat_of;
use crate::bush::lemma_forest_count_concat;
use crate::bush::lemma_forest_count_singleton;
use crate::traverse::bfs_steps;
use crate::traverse::bfs_next_queue;
use crate::traverse::entry_wf;

verus! {

/// The layer that a sequence of boundary appends builds from an empty bush:
/// each append adds exactly one childless node at the right end.
pub open spec fn appended_all<T>(items: Seq<T>) -> Seq<BushNode<T>>
    decreases items.len(),
{
    if items.len() == 0 {
        Seq::empty()
    } else {
        appended_all(items.drop_last()).push((BushNode { item: items.last(), children: None }))
    }
}

/// The layer that a sequence of boundary prepends builds from an empty
/// bush: each prepend adds exactly one childless node at the left end.
pub open spec fn prepended_all<T>(items: Seq<T>) -> Seq<BushNode<T>>
    decreases items.len(),
{
    if items.len() == 0 {
        Seq::empty()
    } else {
        seq![(BushNode { item: items.last(), children: None })] + prepended_all(items.drop_last())
    }
}

/// For any sequence of appends the top layer holds one node per call, in
/// insertion order: the node at position `i` carries the i-th appended item
/// and no children.
pub proof fn lemma_append_order<T>(items: Seq<T>)
    ensures
        appended_all(items).len() == items.len(),
        forall|i: int|
            0 <= i < items.len() ==> (#[trigger] appended_all(items)[i]) == (BushNode {
                item: items[i],
                children: None,
            }),
    decreases items.len(),
{
    if items.len() > 0 {
        lemma_append_order(items.drop_last());
        assert forall|i: int| 0 <= i < items.len() implies (#[trigger] appended_all(items)[i])
            == (BushNode { item: items[i], children: None }) by {
            if i < items.len() - 1 {
                assert(appended_all(items)[i] == appended_all(items.drop_last())[i]);
                assert(items.drop_last()[i] == items[i]);
            }
        }
    }
}

/// For any sequence of prepends the top layer holds the calls' items in
/// reverse order: with `n` prepends, the node at position `i` carries the
/// (n - 1 - i)-th prepended item and no children.
pub proof fn lemma_prepend_order<T>(items: Seq<T>)
    ensures
        prepended_all(items).len() == items.len(),
        forall|i: int|
            0 <= i < items.len() ==> (#[trigger] prepended_all(items)[i]) == (BushNode {
                item: items[items.len() - 1 - i],
                children: None,
            }),
    decreases items.len(),
{
    if items.len() > 0 {
        lemma_prepend_order(items.drop_last());
        assert forall|i: int| 0 <= i < items.len() implies (#[trigger] prepended_all(items)[i])
            == (BushNode { item: items[items.len() - 1 - i], children: None }) by {
            if i > 0 {
                assert(prepended_all(items)[i] == prepended_all(items.drop_last())[i - 1]);
                assert(items.drop_last()[items.len() - 1 - i] == items[items.len() - 1 - i]);
            }
        }
    }
}

/// Extracting one node removes exactly that node and its whole subtree: the
/// top layer shrinks by one and the total count by the subtree's size,
/// while the remaining chain keeps its order.
pub proof fn lemma_extract_node_count<T>(s: Seq<BushNode<T>>, i: int)
    requires
        0 <= i < s.len(),
    ensures
        s.remove(i).len() == s.len() - 1,
        forest_count(s.remove(i)) + subtree_count(s[i]) == forest_count(s),
{
    assert(s =~= s.take(i) + (seq![s[i]] + s.skip(i + 1)));
    lemma_forest_count_concat(s.take(i), seq![s[i]] + s.skip(i + 1));
    lemma_forest_count_concat(seq![s[i]], s.skip(i + 1));
    lemma_forest_count_singleton(s[i]);
    assert(s.remove(i) =~= s.take(i) + s.skip(i + 1));
    lemma_forest_count_concat(s.take(i), s.skip(i + 1));
}

/// Splice round trip: extracting the run `[a..=b]` and re-inserting it at
/// its original place (to the left of the node that now stands at position
/// `a`, which is the same splice as to the right of the node at `a - 1`)
/// reproduces the original chain exactly.
pub proof fn lemma_splice_round_trip<T>(s: Seq<BushNode<T>>, a: int, b: int)
    requires
        0 <= a <= b < s.len(),
    ensures
        ({
            let run = s.subrange(a, b + 1);
            let rem = s.subrange(0, a) + s.subrange(b + 1, s.len() as int);
            rem.subrange(0, a) + run + rem.subrange(a, rem.len() as int) == s
        }),
{
    let run = s.subrange(a, b + 1);
    let rem = s.subrange(0, a) + s.subrange(b + 1, s.len() as int);
    assert(rem.subrange(0, a) =~= s.subrange(0, a));
    assert(rem.subrange(a, rem.len() as int) =~= s.subrange(b + 1, s.len() as int));
    assert(rem.subrange(0, a) + run + rem.subrange(a, rem.len() as int) =~= s);
}

/// Flattening keeps exactly the forest's items: the flattened layer's items
/// are the items of the forest's depth-first pre-order.
pub proof fn lemma_flatten_order<T>(s: Seq<BushNode<T>>)
    ensures
        layer_items(flat_of(s)) == layer_items(pre_nodes(s)),
{
    assert(layer_items(flat_of(s)) =~= layer_items(pre_nodes(s)));
}

/// In a forest with no node having children, a breadth-first traversal
/// started at position `i` yields the rest of the layer unchanged.
proof fn lemma_bfs_childless_from<T>(bush: Bush<T>, i: int)
    requires
        0 <= i < bush@.len(),
        forall|k: int| 0 <= k < bush@.len() ==> (#[trigger] bush@[k]).children is None,
    ensures
        bfs_steps(seq![(bush, i)]) == bush@.subrange(i, bush@.len() as int),
    decreases bush@.len() - i,
{
    let q = seq![(bush, i)];
    assert(q.first() == (bush, i));
    assert(entry_wf((bush, i)));
    assert(q.drop_first().len() == 0);
    assert(bush@[i].children is None);
    let nq = bfs_next_queue((bush, i), q.drop_first());
    assert(bfs_steps(q) == seq![bush@[i]] + bfs_steps(nq));
    if i + 1 < bush@.len() {
        assert(nq =~= seq![(bush, i + 1)]);
        lemma_bfs_childless_from(bush, i + 1);
        assert(bfs_steps(nq) == bush@.subrange(i + 1, bush@.len() as int));
    } else {
        assert(nq =~= q.drop_first());
        assert(bfs_steps(nq).len() == 0);
    }
    assert(bfs_steps(q) =~= bush@.subrange(i, bush@.len() as int));
}

/// In a chain of childless nodes the pre-order is the chain itself.
proof fn lemma_pre_nodes_childless<T>(s: Seq<BushNode<T>>)
    requires
        forall|k: int| 0 <= k < s.len() ==> (#[trigger] s[k]).children is None,
    ensures
        pre_nodes(s) == s,
    decreases s,
{
    if s.len() > 0 {
        assert(s[0].children is None);
        assert(forall|k: int|
            0 <= k < s.drop_first().len() ==> (#[trigger] s.drop_first()[k]).children is None);
        lemma_pre_nodes_childless(s.drop_first());
        assert(pre_nodes(s) == seq![s.first()] + Seq::<BushNode<T>>::empty() + pre_nodes(
            s.drop_first(),
        ));
        assert(pre_nodes(s) =~= s);
    }
}

/// On a forest in which no node has children, breadth-first and depth-first
/// traversal both yield plain top-layer iteration: the layer's own nodes,
/// in order.
pub proof fn lemma_traversals_childless<T>(bush: Bush<T>)
    requires
        forall|k: int| 0 <= k < bush@.len() ==> (#[trigger] bush@[k]).children is None,
    ensures
        bush@.len() > 0 ==> bfs_steps(seq![(bush, 0int)]) == bush@,
        pre_nodes(bush@) == bush@,
{
    if bush@.len() > 0 {
        lemma_bfs_childless_from(bush, 0);
        assert(bush@.subrange(0, bush@.len() as int) =~= bush@);
    }
    lemma_pre_nodes_childless(bush@);
}

} // verus!
