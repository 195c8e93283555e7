//! Encoding a bush as a generic tree of records: one record per top-layer
//! node in left-to-right order, each holding the node's item and, where the
//! node owns a nested layer, the same encoding of that layer. The shape is
//! not tied to any wire format; a host can map it onto whatever structured
//! output it needs. Decoding (the inverse mapping) is deliberately not
//! offered.

use vstd::prelude::*;
use crate::bush::Bush;
use crate::bush::BushNode;
use crate::bush::forest_count;
use crate::bush::subtree_count;
use crate::bush::lemma_forest_count_concat;

verus! {

broadcast use crate::bush::lemma_bush_view_decreases;

/// One record of the encoding: the node's item, and the records of its
/// children layer where it had one.
#[derive(Debug, PartialEq, Eq)]
pub struct BushRecord<T> {
    pub item: T,
    pub children: Option<Vec<BushRecord<T>>>,
}

/// The record `rec` encodes the node `n`: it carries the node's item, and
/// its children field encodes the node's children layer, or is absent where
/// the node has none.
pub open spec fn node_encodes<T>(n: BushNode<T>, rec: BushRecord<T>) -> bool
    decreases n,
{
    &&& rec.item == n.item
    &&& match n.children {
        Some(c) => match rec.children {
            Some(rc) => encodes(c@, rc@),
            None => false,
        },
        None => rec.children is None,
    }
}

/// The records `r` encode the chain of nodes `s`: same length, and record
/// by record each node is encoded, recursively.
pub open spec fn encodes<T>(s: Seq<BushNode<T>>, r: Seq<BushRecord<T>>) -> bool
    decreases s,
{
    if s.len() == 0 {
        r.len() == 0
    } else {
        &&& r.len() == s.len()
        &&& node_encodes(s.first(), r.first())
        &&& encodes(s.drop_first(), r.drop_first())
    }
}

/// Extending a correct encoding by one matching node keeps it correct.
proof fn lemma_encodes_push<T>(
    s: Seq<BushNode<T>>,
    r: Seq<BushRecord<T>>,
    n: BushNode<T>,
    rec: BushRecord<T>,
)
    requires
        encodes(s, r),
        node_encodes(n, rec),
    ensures
        encodes(s.push(n), r.push(rec)),
    decreases s,
{
    if s.len() == 0 {
        assert(r.len() == 0);
        assert(s.push(n).first() == n);
        assert(r.push(rec).first() == rec);
        assert(s.push(n).drop_first().len() == 0);
        assert(r.push(rec).drop_first().len() == 0);
        assert(encodes(s.push(n).drop_first(), r.push(rec).drop_first()));
        assert(node_encodes(s.push(n).first(), r.push(rec).first()));
    } else {
        assert(node_encodes(s.first(), r.first()) && encodes(s.drop_first(), r.drop_first())
            && r.len() == s.len());
        assert(s.push(n).first() == s.first());
        assert(r.push(rec).first() == r.first());
        assert(s.push(n).drop_first() =~= s.drop_first().push(n));
        assert(r.push(rec).drop_first() =~= r.drop_first().push(rec));
        lemma_encodes_push(s.drop_first(), r.drop_first(), n, rec);
        assert(encodes(s.push(n).drop_first(), r.push(rec).drop_first()));
        assert(node_encodes(s.push(n).first(), r.push(rec).first()));
    }
}

/// Matching encodings pin the record sequence's items: position by
/// position, a record carries its node's item.
pub proof fn lemma_encodes_items<T>(s: Seq<BushNode<T>>, r: Seq<BushRecord<T>>)
    requires
        encodes(s, r),
    ensures
        r.len() == s.len(),
        forall|i: int| 0 <= i < s.len() ==> (#[trigger] r[i]).item == s[i].item,
    decreases s,
{
    if s.len() == 0 {
    } else {
        lemma_encodes_items(s.drop_first(), r.drop_first());
        assert forall|i: int| 0 <= i < s.len() implies (#[trigger] r[i]).item == s[i].item by {
            if i == 0 {
                assert(node_encodes(s.first(), r.first()));
            } else {
                assert(r.drop_first()[i - 1] == r[i]);
                assert(s.drop_first()[i - 1] == s[i]);
            }
        }
    }
}

impl<T> Bush<T> {
    /// Encode the bush as an ordered sequence of records, one per top-layer
    /// node in left-to-right order, recursively.
    #[verifier::loop_isolation(false)]
    pub fn encode(self) -> (r: Vec<BushRecord<T>>)
        ensures
            encodes(self@, r@),
        decreases forest_count(self@),
    {
        let ghost orig = self@;
        let mut b = self;
        let mut out: Vec<BushRecord<T>> = Vec::new();
        while !b.is_empty()
            invariant
                b@.len() <= orig.len(),
                b@ == orig.skip(orig.len() - b@.len()),
                encodes(orig.take(orig.len() - b@.len()), out@),
            decreases b@.len(),
        {
            let ghost k = orig.len() - b@.len();
            let ghost prev = b@;
            let h = b.first_node_handle().unwrap();
            let node = b.extract_node(h);
            proof {
                assert(node == prev.first());
                assert(prev.first() == orig[k]);
                assert(b@ =~= prev.drop_first());
                assert(b@ =~= orig.skip(orig.len() - b@.len()));
            }
            let BushNode { item, children } = node;
            let rec_children: Option<Vec<BushRecord<T>>> = match children {
                Some(c) => {
                    proof {
                        assert(orig[k].children == Some(c));
                        assert(orig =~= orig.take(k) + prev);
                        lemma_forest_count_concat(orig.take(k), prev);
                        assert(forest_count(prev) == subtree_count(prev.first()) + forest_count(
                            prev.drop_first(),
                        ));
                        assert(subtree_count(prev.first()) == 1 + forest_count(c@));
                        assert(forest_count(c@) < forest_count(orig));
                    }
                    Some(c.encode())
                },
                None => None,
            };
            let rec = BushRecord { item, children: rec_children };
            proof {
                lemma_encodes_push(orig.take(k), out@, prev.first(), rec);
                assert(orig.take(k + 1) =~= orig.take(k).push(prev.first()));
            }
            out.push(rec);
        }
        proof {
            assert(orig.take(orig.len() as int) =~= orig);
        }
        out
    }
}

} // verus!
