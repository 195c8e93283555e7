//! The core types: a layer of sibling nodes (`Bush`) and one element of a
//! layer (`BushNode`), together with the spec-level model of node counting.

use vstd::prelude::*;

verus! {

broadcast use vstd::std_specs::vec::group_vec_axioms;

/// One element of a layer: an item plus an optional nested layer of children.
pub struct BushNode<T> {
    pub item: T,
    pub children: Option<Bush<T>>,
}

/// An ordered layer of nodes; the root type and also the type of every
/// node's children. A bush is modelled by the sequence of its nodes in
/// left-to-right order.
pub struct Bush<T> {
    nodes: Vec<BushNode<T>>,
}

impl<T> View for Bush<T> {
    type V = Seq<BushNode<T>>;

    closed spec fn view(&self) -> Seq<BushNode<T>> {
        self.nodes@
    }
}

/// A bush is structurally larger than its view: recursive definitions in
/// other modules may descend from a bush to the sequence of its nodes.
pub broadcast proof fn lemma_bush_view_decreases<T>(b: Bush<T>)
    ensures
        #[trigger] (decreases_to!(b => b@)),
{
    assert(decreases_to!(b => b.nodes));
    assert(decreases_to!(b.nodes => b.nodes@));
    assert(b@ == b.nodes@);
}

/// The number of nodes in the subtree rooted at `n`: the node itself plus
/// every node of its children forest, recursively.
pub open spec fn subtree_count<T>(n: BushNode<T>) -> nat
    decreases n,
{
    1 + match n.children {
        Some(c) => forest_count(c@),
        None => 0nat,
    }
}

/// The number of nodes, children included, in a whole layer.
pub open spec fn forest_count<T>(s: Seq<BushNode<T>>) -> nat
    decreases s,
{
    if s.len() == 0 {
        0
    } else {
        subtree_count(s.first()) + forest_count(s.drop_first())
    }
}

/// The nodes of the forest held by a layer, in depth-first pre-order: each
/// node followed by its entire subtree, then its right sibling.
pub open spec fn pre_nodes<T>(s: Seq<BushNode<T>>) -> Seq<BushNode<T>>
    decreases s,
{
    if s.len() == 0 {
        Seq::empty()
    } else {
        seq![s.first()] + (match s.first().children {
            Some(c) => pre_nodes(c@),
            None => Seq::empty(),
        }) + pre_nodes(s.drop_first())
    }
}

/// The items of a layer's own nodes, children not included, in
/// left-to-right order.
pub open spec fn layer_items<T>(s: Seq<BushNode<T>>) -> Seq<T> {
    s.map_values(|n: BushNode<T>| n.item)
}

/// The same chain of nodes with every nested layer removed.
pub open spec fn strip_children<T>(s: Seq<BushNode<T>>) -> Seq<BushNode<T>> {
    s.map_values(|n: BushNode<T>| BushNode { item: n.item, children: None })
}

/// The layer that flattening a forest produces: its pre-order nodes, each
/// stripped of its nested layer.
pub open spec fn flat_of<T>(s: Seq<BushNode<T>>) -> Seq<BushNode<T>> {
    strip_children(pre_nodes(s))
}

/// Node counting distributes over joining two chains.
pub proof fn lemma_forest_count_concat<T>(a: Seq<BushNode<T>>, b: Seq<BushNode<T>>)
    ensures
        forest_count(a + b) == forest_count(a) + forest_count(b),
    decreases a.len(),
{
    if a.len() == 0 {
        assert(a + b =~= b);
    } else {
        assert((a + b).first() == a.first());
        assert((a + b).drop_first() =~= a.drop_first() + b);
        lemma_forest_count_concat(a.drop_first(), b);
    }
}

/// A single node's chain counts exactly its subtree.
pub proof fn lemma_forest_count_singleton<T>(n: BushNode<T>)
    ensures
        forest_count(seq![n]) == subtree_count(n),
{
    assert(seq![n].first() == n);
    assert(seq![n].drop_first().len() == 0);
    assert(forest_count(seq![n].drop_first()) == 0);
}

/// Pre-order lists every node of the forest exactly once, so its length is
/// the forest's node count.
pub proof fn lemma_pre_nodes_len<T>(s: Seq<BushNode<T>>)
    ensures
        pre_nodes(s).len() == forest_count(s),
    decreases s,
{
    if s.len() == 0 {
    } else {
        lemma_pre_nodes_len(s.drop_first());
        assert(forest_count(s) == subtree_count(s.first()) + forest_count(s.drop_first()));
        match s.first().children {
            Some(c) => {
                lemma_pre_nodes_len(c@);
                assert(subtree_count(s.first()) == 1 + forest_count(c@));
                assert(pre_nodes(s) == seq![s.first()] + pre_nodes(c@) + pre_nodes(s.drop_first()));
            },
            None => {
                assert(subtree_count(s.first()) == 1);
                assert(pre_nodes(s) == seq![s.first()] + Seq::<BushNode<T>>::empty() + pre_nodes(
                    s.drop_first(),
                ));
            },
        }
    }
}

/// Stripping nested layers distributes over joining two chains.
pub proof fn lemma_strip_concat<T>(a: Seq<BushNode<T>>, b: Seq<BushNode<T>>)
    ensures
        strip_children(a + b) == strip_children(a) + strip_children(b),
{
    assert(strip_children(a + b) =~= strip_children(a) + strip_children(b));
}

/// In a chain of childless nodes every subtree is a single node, so the
/// count is the chain's length.
pub proof fn lemma_childless_forest_count<T>(s: Seq<BushNode<T>>)
    requires
        forall|i: int| 0 <= i < s.len() ==> (#[trigger] s[i]).children is None,
    ensures
        forest_count(s) == s.len(),
    decreases s,
{
    if s.len() == 0 {
    } else {
        assert(s[0].children is None);
        assert(subtree_count(s.first()) == 1);
        assert(forall|i: int|
            0 <= i < s.drop_first().len() ==> (#[trigger] s.drop_first()[i]).children is None);
        lemma_childless_forest_count(s.drop_first());
    }
}

/// An unchecked reference naming a node of a layer by its position, for use
/// in a later extract or splice call. It carries no validity tracking: that
/// the named position still holds the intended node is the caller's
/// responsibility.
#[derive(Clone, Copy)]
pub struct NodeHandle {
    idx: usize,
}

impl View for NodeHandle {
    type V = int;

    closed spec fn view(&self) -> int {
        self.idx as int
    }
}

impl NodeHandle {
    /// The position in the layer that this handle names.
    pub fn index(&self) -> (r: usize)
        ensures
            r == self@,
    {
        self.idx
    }
}

impl<T> BushNode<T> {
    /// Create a new childless node holding `item`, not yet part of any
    /// layer.
    pub fn new(item: T) -> (r: BushNode<T>)
        ensures
            r == (BushNode { item, children: None }),
    {
        BushNode { item, children: None }
    }
}

impl<T> Bush<T> {
    /// Create a new empty bush.
    pub fn new() -> (r: Bush<T>)
        ensures
            r@ == Seq::<BushNode<T>>::empty(),
    {
        Bush { nodes: Vec::new() }
    }

    /// Whether the top layer holds no nodes.
    pub fn is_empty(&self) -> (r: bool)
        ensures
            r <==> self@.len() == 0,
    {
        self.nodes.len() == 0
    }

    /// The number of nodes in the bush's top layer.
    pub fn top_layer_length(&self) -> (r: usize)
        ensures
            r == self@.len(),
    {
        self.nodes.len()
    }

    /// Append a new childless node holding `item` at the right end of the
    /// top layer.
    pub fn append(&mut self, item: T)
        ensures
            final(self)@ == old(self)@.push((BushNode { item, children: None })),
    {
        self.nodes.push(BushNode { item, children: None });
    }

    /// Prepend a new childless node holding `item` at the left end of the
    /// top layer.
    pub fn prepend(&mut self, item: T)
        ensures
            final(self)@ == seq![(BushNode { item, children: None })] + old(self)@,
    {
        self.nodes.insert(0, BushNode { item, children: None });
        proof {
            assert(self@ =~= seq![(BushNode { item, children: None })] + old(self)@);
        }
    }

    /// Borrow the first node of the top layer, if any.
    pub fn first_node(&self) -> (r: Option<&BushNode<T>>)
        ensures
            match r {
                Some(n) => self@.len() > 0 && *n == self@[0],
                None => self@.len() == 0,
            },
    {
        if self.nodes.len() == 0 {
            None
        } else {
            Some(&self.nodes[0])
        }
    }

    /// Borrow the last node of the top layer, if any.
    pub fn last_node(&self) -> (r: Option<&BushNode<T>>)
        ensures
            match r {
                Some(n) => self@.len() > 0 && *n == self@.last(),
                None => self@.len() == 0,
            },
    {
        if self.nodes.len() == 0 {
            None
        } else {
            Some(&self.nodes[self.nodes.len() - 1])
        }
    }

    /// Borrow the first item of the top layer, if any.
    pub fn first_item(&self) -> (r: Option<&T>)
        ensures
            match r {
                Some(x) => self@.len() > 0 && *x == self@[0].item,
                None => self@.len() == 0,
            },
    {
        match self.first_node() {
            Some(n) => Some(&n.item),
            None => None,
        }
    }

    /// Borrow the last item of the top layer, if any.
    pub fn last_item(&self) -> (r: Option<&T>)
        ensures
            match r {
                Some(x) => self@.len() > 0 && *x == self@.last().item,
                None => self@.len() == 0,
            },
    {
        match self.last_node() {
            Some(n) => Some(&n.item),
            None => None,
        }
    }

    /// Borrow the node at position `i` of the top layer, if there is one.
    pub fn nth_node(&self, i: usize) -> (r: Option<&BushNode<T>>)
        ensures
            match r {
                Some(n) => i < self@.len() && *n == self@[i as int],
                None => i >= self@.len(),
            },
    {
        if i < self.nodes.len() {
            Some(&self.nodes[i])
        } else {
            None
        }
    }

    /// Borrow the item at position `i` of the top layer, if there is one.
    pub fn nth_item(&self, i: usize) -> (r: Option<&T>)
        ensures
            match r {
                Some(x) => i < self@.len() && *x == self@[i as int].item,
                None => i >= self@.len(),
            },
    {
        match self.nth_node(i) {
            Some(n) => Some(&n.item),
            None => None,
        }
    }

    /// A handle naming the first node of the top layer, if any.
    pub fn first_node_handle(&self) -> (r: Option<NodeHandle>)
        ensures
            match r {
                Some(h) => self@.len() > 0 && h@ == 0,
                None => self@.len() == 0,
            },
    {
        if self.nodes.len() == 0 {
            None
        } else {
            Some(NodeHandle { idx: 0 })
        }
    }

    /// A handle naming the last node of the top layer, if any.
    pub fn last_node_handle(&self) -> (r: Option<NodeHandle>)
        ensures
            match r {
                Some(h) => self@.len() > 0 && h@ == self@.len() - 1,
                None => self@.len() == 0,
            },
    {
        if self.nodes.len() == 0 {
            None
        } else {
            Some(NodeHandle { idx: self.nodes.len() - 1 })
        }
    }

    /// A handle naming the node at position `i` of the top layer, if there
    /// is one.
    pub fn nth_node_handle(&self, i: usize) -> (r: Option<NodeHandle>)
        ensures
            match r {
                Some(h) => i < self@.len() && h@ == i,
                None => i >= self@.len(),
            },
    {
        if i < self.nodes.len() {
            Some(NodeHandle { idx: i })
        } else {
            None
        }
    }

    /// Borrow the left sibling of the node at position `i`, or nothing if
    /// that node is the current first of its layer.
    pub fn left_node(&self, i: usize) -> (r: Option<&BushNode<T>>)
        requires
            i < self@.len(),
        ensures
            match r {
                Some(n) => i > 0 && *n == self@[i - 1],
                None => i == 0,
            },
    {
        if i == 0 {
            None
        } else {
            Some(&self.nodes[i - 1])
        }
    }

    /// Borrow the right sibling of the node at position `i`, or nothing if
    /// that node is the current last of its layer.
    pub fn right_node(&self, i: usize) -> (r: Option<&BushNode<T>>)
        requires
            i < self@.len(),
        ensures
            match r {
                Some(n) => i + 1 < self@.len() && *n == self@[i + 1],
                None => i + 1 == self@.len(),
            },
    {
        let len = self.nodes.len();
        if i < len - 1 {
            Some(&self.nodes[i + 1])
        } else {
            None
        }
    }

    /// Borrow the item of the left sibling of the node at position `i`.
    pub fn left_item(&self, i: usize) -> (r: Option<&T>)
        requires
            i < self@.len(),
        ensures
            match r {
                Some(x) => i > 0 && *x == self@[i - 1].item,
                None => i == 0,
            },
    {
        match self.left_node(i) {
            Some(n) => Some(&n.item),
            None => None,
        }
    }

    /// Borrow the item of the right sibling of the node at position `i`.
    pub fn right_item(&self, i: usize) -> (r: Option<&T>)
        requires
            i < self@.len(),
        ensures
            match r {
                Some(x) => i + 1 < self@.len() && *x == self@[i + 1].item,
                None => i + 1 == self@.len(),
            },
    {
        match self.right_node(i) {
            Some(n) => Some(&n.item),
            None => None,
        }
    }

    /// Borrow the item of the node at position `i` mutably; the node's
    /// children and the rest of the layer stay as they are.
    pub fn nth_item_mut(&mut self, i: usize) -> (r: &mut T)
        requires
            i < old(self)@.len(),
        ensures
            *r == old(self)@[i as int].item,
            final(self)@ == old(self)@.update(
                i as int,
                (BushNode { item: *final(r), children: old(self)@[i as int].children }),
            ),
    {
        &mut self.nodes[i].item
    }

    /// Borrow the first item of the top layer mutably.
    pub fn first_item_mut(&mut self) -> (r: &mut T)
        requires
            old(self)@.len() > 0,
        ensures
            *r == old(self)@[0].item,
            final(self)@ == old(self)@.update(
                0,
                (BushNode { item: *final(r), children: old(self)@[0].children }),
            ),
    {
        &mut self.nodes[0].item
    }

    /// Borrow the last item of the top layer mutably.
    pub fn last_item_mut(&mut self) -> (r: &mut T)
        requires
            old(self)@.len() > 0,
        ensures
            *r == old(self)@.last().item,
            final(self)@ == old(self)@.update(
                old(self)@.len() - 1,
                (BushNode { item: *final(r), children: old(self)@.last().children }),
            ),
    {
        let i = self.nodes.len() - 1;
        &mut self.nodes[i].item
    }

    /// Replace the item of the node at position `i`.
    pub fn set_nth_item(&mut self, i: usize, item: T)
        requires
            i < old(self)@.len(),
        ensures
            final(self)@ == old(self)@.update(
                i as int,
                (BushNode { item, children: old(self)@[i as int].children }),
            ),
    {
        let mut node = self.nodes.remove(i);
        node.item = item;
        self.nodes.insert(i, node);
        proof {
            assert(self@ =~= old(self)@.update(
                i as int,
                (BushNode { item, children: old(self)@[i as int].children }),
            ));
        }
    }

    /// Attach `children` as the nested layer of the node at position `i`,
    /// replacing whatever layer it held before.
    pub fn set_nth_children(&mut self, i: usize, children: Bush<T>)
        requires
            i < old(self)@.len(),
        ensures
            final(self)@ == old(self)@.update(
                i as int,
                (BushNode { item: old(self)@[i as int].item, children: Some(children) }),
            ),
    {
        let mut node = self.nodes.remove(i);
        node.children = Some(children);
        self.nodes.insert(i, node);
        proof {
            assert(self@ =~= old(self)@.update(
                i as int,
                (BushNode { item: old(self)@[i as int].item, children: Some(children) }),
            ));
        }
    }

    /// Remove the node named by `handle` from the top layer and return
    /// exclusive ownership of it; its entire children subtree travels with
    /// it, untouched. The former neighbours become adjacent.
    pub fn extract_node(&mut self, handle: NodeHandle) -> (r: BushNode<T>)
        requires
            0 <= handle@ < old(self)@.len(),
        ensures
            r == old(self)@[handle@],
            final(self)@ == old(self)@.remove(handle@),
    {
        self.nodes.remove(handle.idx)
    }

    /// Remove the contiguous run of nodes named by `start` through `end`
    /// (inclusive, in that order) from the top layer and return a new bush
    /// that owns exactly that run.
    pub fn extract_slice(&mut self, start: NodeHandle, end: NodeHandle) -> (r: Bush<T>)
        requires
            0 <= start@ <= end@ < old(self)@.len(),
        ensures
            r@ == old(self)@.subrange(start@, end@ + 1),
            final(self)@ == old(self)@.subrange(0, start@) + old(self)@.subrange(
                end@ + 1,
                old(self)@.len() as int,
            ),
    {
        let ghost orig = old(self)@;
        // binding the length as a usize bounds the position arithmetic below
        let _len: usize = self.nodes.len();
        let mut tail = self.nodes.split_off(end.idx + 1);
        let run = self.nodes.split_off(start.idx);
        self.nodes.append(&mut tail);
        proof {
            assert(run@ =~= orig.subrange(start@, end@ + 1));
            assert(self.nodes@ =~= orig.subrange(0, start@) + orig.subrange(
                end@ + 1,
                orig.len() as int,
            ));
        }
        Bush { nodes: run }
    }

    /// Splice an externally owned, already ordered run immediately to the
    /// left of the node named by `handle`; ownership of the whole run
    /// transfers to this layer.
    pub fn insert_slice_left(&mut self, handle: NodeHandle, slice: Bush<T>)
        requires
            0 <= handle@ < old(self)@.len(),
        ensures
            final(self)@ == old(self)@.subrange(0, handle@) + slice@ + old(self)@.subrange(
                handle@,
                old(self)@.len() as int,
            ),
    {
        self.insert_run(handle.idx, slice);
    }

    /// Splice an externally owned, already ordered run immediately to the
    /// right of the node named by `handle`; ownership of the whole run
    /// transfers to this layer.
    pub fn insert_slice_right(&mut self, handle: NodeHandle, slice: Bush<T>)
        requires
            0 <= handle@ < old(self)@.len(),
        ensures
            final(self)@ == old(self)@.subrange(0, handle@ + 1) + slice@ + old(self)@.subrange(
                handle@ + 1,
                old(self)@.len() as int,
            ),
    {
        // binding the length as a usize bounds the position arithmetic below
        let _len: usize = self.nodes.len();
        self.insert_run(handle.idx + 1, slice);
    }

    /// Insert a single externally owned node immediately to the left of the
    /// node named by `handle`.
    pub fn insert_left_node(&mut self, handle: NodeHandle, node: BushNode<T>)
        requires
            0 <= handle@ < old(self)@.len(),
        ensures
            final(self)@ == old(self)@.insert(handle@, node),
    {
        self.nodes.insert(handle.idx, node);
    }

    /// Insert a single externally owned node immediately to the right of the
    /// node named by `handle`.
    pub fn insert_right_node(&mut self, handle: NodeHandle, node: BushNode<T>)
        requires
            0 <= handle@ < old(self)@.len(),
        ensures
            final(self)@ == old(self)@.insert(handle@ + 1, node),
    {
        // binding the length as a usize bounds the position arithmetic below
        let _len: usize = self.nodes.len();
        self.nodes.insert(handle.idx + 1, node);
    }

    /// Splice the nodes of `slice`, in order, into the top layer so that the
    /// first of them lands at position `at`.
    fn insert_run(&mut self, at: usize, slice: Bush<T>)
        requires
            at <= old(self)@.len(),
        ensures
            final(self)@ == old(self)@.subrange(0, at as int) + slice@ + old(self)@.subrange(
                at as int,
                old(self)@.len() as int,
            ),
    {
        let ghost orig = old(self)@;
        let mut s = slice.nodes;
        let mut tail = self.nodes.split_off(at);
        self.nodes.append(&mut s);
        self.nodes.append(&mut tail);
        proof {
            assert(self.nodes@ =~= orig.subrange(0, at as int) + slice@ + orig.subrange(
                at as int,
                orig.len() as int,
            ));
        }
    }

    /// The total number of nodes in the bush: every node of the top layer
    /// plus, recursively, every node of each nested children layer.
    pub fn total_node_count(&self) -> (r: usize)
        requires
            forest_count(self@) <= usize::MAX,
        ensures
            r == forest_count(self@),
        decreases *self,
    {
        let mut total: usize = 0;
        let mut i: usize = 0;
        while i < self.nodes.len()
            invariant
                forest_count(self@) <= usize::MAX,
                i <= self@.len(),
                total == forest_count(self@.take(i as int)),
            decreases self@.len() - i,
        {
            proof {
                assert(self@.take(i + 1) =~= self@.take(i as int) + seq![self@[i as int]]);
                lemma_forest_count_concat(self@.take(i as int), seq![self@[i as int]]);
                lemma_forest_count_singleton(self@[i as int]);
                assert(self@ =~= self@.take(i + 1) + self@.skip(i + 1));
                lemma_forest_count_concat(self@.take(i + 1), self@.skip(i + 1));
            }
            let node = &self.nodes[i];
            let sub: usize = match &node.children {
                Some(c) => {
                    proof {
                        assert(subtree_count(self@[i as int]) == 1 + forest_count(c@));
                    }
                    c.total_node_count()
                },
                None => {
                    proof {
                        assert(subtree_count(self@[i as int]) == 1);
                    }
                    0
                },
            };
            total = total + 1 + sub;
            i = i + 1;
        }
        proof {
            assert(self@.take(self@.len() as int) =~= self@);
        }
        total
    }

    /// Flatten the bush into its top layer: for every node, in left-to-right
    /// order, recursively flatten its children and splice them in as that
    /// node's immediate right siblings. Afterwards no node has children, the
    /// total node count is unchanged, and the top layer's order is the
    /// depth-first pre-order of the original forest.
    pub fn flatten(&mut self)
        ensures
            final(self)@ == flat_of(old(self)@),
            final(self)@.len() == forest_count(old(self)@),
            forest_count(final(self)@) == forest_count(old(self)@),
            forall|i: int|
                0 <= i < final(self)@.len() ==> (#[trigger] final(self)@[i]).children is None,
    {
        let mut nodes: Vec<BushNode<T>> = Vec::new();
        core::mem::swap(&mut nodes, &mut self.nodes);
        let flat = flatten_nodes(nodes);
        self.nodes = flat;
        proof {
            lemma_pre_nodes_len(old(self)@);
            assert(forall|i: int|
                0 <= i < self@.len() ==> (#[trigger] self@[i]).children is None);
            lemma_childless_forest_count(self@);
        }
    }

    /// Consume the bush and yield ownership of its whole chain of nodes, or
    /// nothing if it is empty.
    pub fn extract(self) -> (r: Option<Bush<T>>)
        ensures
            match r {
                Some(b) => self@.len() > 0 && b@ == self@,
                None => self@.len() == 0,
            },
    {
        if self.nodes.len() == 0 {
            None
        } else {
            Some(self)
        }
    }
}

/// Rebuild a chain of nodes as the single flat layer that lists the whole
/// forest in depth-first pre-order, every node stripped of its children.
#[verifier::loop_isolation(false)]
fn flatten_nodes<T>(nodes: Vec<BushNode<T>>) -> (r: Vec<BushNode<T>>)
    ensures
        r@ == flat_of(nodes@),
    decreases forest_count(nodes@),
{
    let ghost orig = nodes@;
    let mut rest = nodes;
    let mut out: Vec<BushNode<T>> = Vec::new();
    proof {
        assert(out@ + flat_of(rest@) =~= flat_of(orig));
    }
    while rest.len() > 0
        invariant
            out@ + flat_of(rest@) == flat_of(orig),
            rest@.len() <= orig.len(),
            rest@ == orig.subrange(orig.len() - rest@.len(), orig.len() as int),
        decreases rest@.len(),
    {
        let ghost prev = rest@;
        let ghost k = orig.len() - prev.len();
        let node = rest.remove(0);
        proof {
            assert(rest@ =~= prev.drop_first());
            assert(node == prev.first());
            assert(prev == orig.subrange(k, orig.len() as int));
            assert(prev.first() == orig.subrange(k, orig.len() as int)[0]);
            assert(prev.first() == orig[k]);
            assert forall|i: int| 0 <= i < rest@.len() implies rest@[i] == orig[k + 1 + i] by {
                assert(rest@[i] == prev[i + 1]);
                assert(prev[i + 1] == orig.subrange(k, orig.len() as int)[i + 1]);
            }
            assert(rest@ =~= orig.subrange(orig.len() - rest@.len(), orig.len() as int));
            assert(pre_nodes(prev) == seq![prev.first()] + (match prev.first().children {
                Some(c) => pre_nodes(c@),
                None => Seq::<BushNode<T>>::empty(),
            }) + pre_nodes(rest@));
        }
        let BushNode { item, children } = node;
        out.push(BushNode { item, children: None });
        proof {
            assert(strip_children(seq![prev.first()]) =~= seq![
                (BushNode { item, children: None }),
            ]);
        }
        match children {
            Some(c) => {
                proof {
                    assert(orig[k].children == Some(c));
                    assert(orig =~= orig.take(k) + prev);
                    lemma_forest_count_concat(orig.take(k), prev);
                    assert(forest_count(prev) == subtree_count(prev.first()) + forest_count(
                        prev.drop_first(),
                    ));
                    assert(subtree_count(prev.first()) == 1 + forest_count(c@));
                    assert(c.nodes@ == c@);
                    assert(forest_count(c.nodes@) < forest_count(orig));
                }
                let mut flat = flatten_nodes(c.nodes);
                out.append(&mut flat);
                proof {
                    lemma_strip_concat(seq![prev.first()] + pre_nodes(c@), pre_nodes(rest@));
                    lemma_strip_concat(seq![prev.first()], pre_nodes(c@));
                    assert(c.nodes@ == c@);
                    assert(out@ + flat_of(rest@) =~= flat_of(orig));
                }
            },
            None => {
                proof {
                    lemma_strip_concat(
                        seq![prev.first()] + Seq::<BushNode<T>>::empty(),
                        pre_nodes(rest@),
                    );
                    lemma_strip_concat(seq![prev.first()], Seq::<BushNode<T>>::empty());
                    assert(strip_children(Seq::<BushNode<T>>::empty())
                        =~= Seq::<BushNode<T>>::empty());
                    assert(out@ + flat_of(rest@) =~= flat_of(orig));
                }
            },
        }
    }
    proof {
        assert(flat_of(rest@) =~= Seq::<BushNode<T>>::empty());
        assert(out@ =~= flat_of(orig));
    }
    out
}

impl<T> Default for Bush<T> {
    /// An empty bush.
    fn default() -> (r: Bush<T>)
        ensures
            r@ == Seq::<BushNode<T>>::empty(),
    {
        Bush { nodes: Vec::new() }
    }
}

} // verus!
