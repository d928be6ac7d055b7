//! What a search of the graph has seen and has still to look at.

use vstd::prelude::*;

use std::collections::HashSet;

use crate::access_method::graph::neighbor_with_distance::{Distance, DistanceWithTieBreak};
use crate::access_method::stats::NodeStats;
use crate::util::item_pointer::{
    key_of, lemma_key_order, IndexPointer, ItemPointer, INVALID_BLOCK_NUMBER, INVALID_OFFSET,
};

verus! {

/// A node that a search came across: how far it is from the query, and what the storage keeps
/// of it for the search.
pub struct ListSearchNeighbor<P> {
    pub index_pointer: IndexPointer,
    pub distance: DistanceWithTieBreak,
    pub private_data: P,
}

impl<P> ListSearchNeighbor<P> {
    pub fn new(
        index_pointer: IndexPointer,
        distance: DistanceWithTieBreak,
        private_data: P,
    ) -> (r: Self)
        ensures
            r == (ListSearchNeighbor { index_pointer, distance, private_data }),
    {
        ListSearchNeighbor { index_pointer, distance, private_data }
    }

    pub fn get_private_data(&self) -> (r: &P)
        ensures
            *r == self.private_data,
    {
        &self.private_data
    }
}

/// The distance of a node from the query. Where the query is a node itself, `tie_break` is that
/// node.
pub open spec fn query_distance(
    tie_break: Option<ItemPointer>,
    distance: Distance,
    to: ItemPointer,
) -> DistanceWithTieBreak {
    DistanceWithTieBreak {
        distance,
        from: match tie_break {
            Some(from) => from,
            None => ItemPointer { block_number: INVALID_BLOCK_NUMBER, offset: INVALID_OFFSET },
        },
        to,
    }
}

/// The keys of the nodes that a search came across, after it came across `nodes` too.
pub open spec fn marked(inserted: Set<u64>, nodes: Seq<ItemPointer>) -> Set<u64>
    decreases nodes.len(),
{
    if nodes.len() == 0 {
        inserted
    } else {
        marked(inserted, nodes.drop_last()).insert(key_of(nodes.last()))
    }
}

/// The nodes that a search comes across for the first time in `nodes`, in their order there.
pub open spec fn unseen(inserted: Set<u64>, nodes: Seq<ItemPointer>) -> Seq<ItemPointer>
    decreases nodes.len(),
{
    if nodes.len() == 0 {
        Seq::empty()
    } else if marked(inserted, nodes.drop_last()).contains(key_of(nodes.last())) {
        unseen(inserted, nodes.drop_last())
    } else {
        unseen(inserted, nodes.drop_last()).push(nodes.last())
    }
}

/// A node is marked where it was before or is among the nodes.
pub proof fn lemma_marked(inserted: Set<u64>, nodes: Seq<ItemPointer>, node: ItemPointer)
    ensures
        marked(inserted, nodes).contains(key_of(node)) <==> inserted.contains(key_of(node))
            || nodes.contains(node),
    decreases nodes.len(),
{
    if nodes.len() > 0 {
        let rest = nodes.drop_last();
        lemma_marked(inserted, rest, node);
        lemma_key_order(node, nodes.last());
        assert(nodes.contains(node) <==> rest.contains(node) || node == nodes.last()) by {
            if rest.contains(node) {
                assert(nodes[rest.index_of(node)] == node);
            }
            if nodes.contains(node) {
                let i = nodes.index_of(node);
                if i < rest.len() {
                    assert(rest[i] == node);
                }
            }
            assert(nodes[nodes.len() - 1] == nodes.last());
        }
    }
}

/// A search looks at each node once: the unseen nodes are those among `nodes` that were not
/// marked, and none of them comes twice.
pub proof fn lemma_unseen(inserted: Set<u64>, nodes: Seq<ItemPointer>)
    ensures
        unseen(inserted, nodes).no_duplicates(),
        unseen(inserted, nodes).len() <= nodes.len(),
        forall|node: ItemPointer|
            #[trigger] unseen(inserted, nodes).contains(node) <==> nodes.contains(node)
                && !inserted.contains(key_of(node)),
    decreases nodes.len(),
{
    if nodes.len() > 0 {
        let rest = nodes.drop_last();
        let last = nodes.last();
        let seen = unseen(inserted, rest);
        lemma_unseen(inserted, rest);
        lemma_marked(inserted, rest, last);
        assert(nodes =~= rest.push(last));
        if !marked(inserted, rest).contains(key_of(last)) {
            assert(!seen.contains(last));
            assert forall|i: int, j: int| 0 <= i < j < seen.push(last).len() implies seen.push(
                last,
            )[i] != seen.push(last)[j] by {
                assert(seen.contains(seen[i]));
            }
        }
        assert forall|node: ItemPointer|
            #[trigger] unseen(inserted, nodes).contains(node) <==> nodes.contains(node)
                && !inserted.contains(key_of(node)) by {
            vstd::seq_lib::lemma_seq_contains_after_push(rest, last, node);
            vstd::seq_lib::lemma_seq_contains_after_push(seen, last, node);
        }
    }
}

/// The unseen nodes stand in the order in which the search comes across them: of two, the one
/// that comes first in `nodes` stands first.
pub proof fn lemma_unseen_order(inserted: Set<u64>, nodes: Seq<ItemPointer>, i: int, j: int)
    requires
        0 <= i < j < unseen(inserted, nodes).len(),
    ensures
        exists|k: int|
            {
                &&& 0 <= k < nodes.len()
                &&& #[trigger] nodes[k] == unseen(inserted, nodes)[i]
                &&& forall|m: int| 0 <= m <= k ==> #[trigger] nodes[m] != unseen(inserted, nodes)[j]
            },
    decreases nodes.len(),
{
    let rest = nodes.drop_last();
    let last = nodes.last();
    let seen = unseen(inserted, rest);
    let all = unseen(inserted, nodes);
    lemma_unseen(inserted, rest);
    lemma_marked(inserted, rest, last);
    if j < seen.len() {
        lemma_unseen_order(inserted, rest, i, j);
        let k = choose|k: int|
            {
                &&& 0 <= k < rest.len()
                &&& #[trigger] rest[k] == seen[i]
                &&& forall|m: int| 0 <= m <= k ==> #[trigger] rest[m] != seen[j]
            };
        assert(nodes[k] == rest[k]);
        assert forall|m: int| 0 <= m <= k implies #[trigger] nodes[m] != all[j] by {
            assert(rest[m] == nodes[m]);
        }
    } else {
        assert(all == seen.push(last));
        assert(seen.contains(seen[i]));
        let k = rest.index_of(seen[i]);
        assert(nodes[k] == rest[k]);
        assert forall|m: int| 0 <= m <= k implies #[trigger] nodes[m] != last by {
            assert(rest[m] == nodes[m]);
            if rest[m] == last {
                assert(rest.contains(last));
            }
        }
    }
}

/// Once a search came across nodes, none of them is unseen any more: looking at them again adds
/// nothing.
pub proof fn lemma_seen_once(inserted: Set<u64>, nodes: Seq<ItemPointer>)
    ensures
        unseen(marked(inserted, nodes), nodes) == Seq::<ItemPointer>::empty(),
        forall|node: ItemPointer|
            nodes.contains(node) ==> marked(inserted, nodes).contains(#[trigger] key_of(node)),
{
    let all = marked(inserted, nodes);
    assert forall|node: ItemPointer| nodes.contains(node) implies all.contains(
        #[trigger] key_of(node),
    ) by {
        lemma_marked(inserted, nodes, node);
    }
    lemma_unseen(all, nodes);
    let left = unseen(all, nodes);
    if left.len() > 0 {
        assert(left.contains(left[0]));
    }
    assert(left =~= Seq::<ItemPointer>::empty());
}

/// The state of a search.
pub struct ListSearchResult<Q, P> {
    /// The keys of the nodes that the search came across.
    pub inserted: HashSet<u64>,
    /// The nodes whose neighbors were looked at, or are being looked at.
    pub visited: Vec<ListSearchNeighbor<P>>,
    /// The nodes whose neighbors were not looked at yet, in the order in which they were found.
    pub candidates: Vec<ListSearchNeighbor<P>>,
    /// How far nodes are from what is searched for.
    pub sdm: Q,
    pub tie_break_item_pointer: Option<ItemPointer>,
    pub stats: NodeStats,
    /// What was counted where neighbors were looked up for the search.
    pub prune_stats: NodeStats,
}

impl<Q, P> ListSearchResult<Q, P> {
    /// The keys of the nodes that the search came across.
    pub open spec fn inserted(&self) -> Set<u64> {
        self.inserted@
    }

    /// A search that has not begun.
    pub fn new(sdm: Q, tie_break_item_pointer: Option<ItemPointer>) -> (r: Self)
        ensures
            r.inserted() == Set::<u64>::empty(),
            r.visited@.len() == 0,
            r.candidates@.len() == 0,
            r.sdm == sdm,
            r.tie_break_item_pointer == tie_break_item_pointer,
            r.stats == NodeStats::zero(),
            r.prune_stats == NodeStats::zero(),
    {
        broadcast use vstd::std_specs::hash::group_hash_axioms;

        ListSearchResult {
            inserted: HashSet::new(),
            visited: Vec::new(),
            candidates: Vec::new(),
            sdm,
            tie_break_item_pointer,
            stats: NodeStats::default(),
            prune_stats: NodeStats::default(),
        }
    }

    /// Marks a node as one that the search came across. The answer is whether it was not yet.
    pub fn prepare_insert(&mut self, index_pointer: ItemPointer) -> (r: bool)
        ensures
            r == !old(self).inserted().contains(key_of(index_pointer)),
            final(self).inserted() == old(self).inserted().insert(key_of(index_pointer)),
            final(self).visited == old(self).visited,
            final(self).candidates == old(self).candidates,
            final(self).sdm == old(self).sdm,
            final(self).tie_break_item_pointer == old(self).tie_break_item_pointer,
            final(self).stats == old(self).stats,
            final(self).prune_stats == old(self).prune_stats,
    {
        broadcast use vstd::std_specs::hash::group_hash_axioms;

        self.inserted.insert(index_pointer.to_key())
    }

    pub fn get_lsn_by_idx(&self, idx: usize) -> (r: &ListSearchNeighbor<P>)
        requires
            idx < self.visited@.len(),
        ensures
            *r == self.visited@[idx as int],
    {
        &self.visited[idx]
    }

    pub fn create_distance_with_tie_break(&self, distance: Distance, to: ItemPointer) -> (r:
        DistanceWithTieBreak)
        ensures
            r == query_distance(self.tie_break_item_pointer, distance, to),
    {
        match self.tie_break_item_pointer {
            Some(from) => DistanceWithTieBreak::new(distance, from, to),
            None => DistanceWithTieBreak::new(distance, ItemPointer::new_invalid(), to),
        }
    }

    /// Adds a node whose neighbors are to be looked at.
    pub fn insert_neighbor(&mut self, lsn: ListSearchNeighbor<P>)
        ensures
            final(self).candidates@ == old(self).candidates@.push(lsn),
            final(self).inserted() == old(self).inserted(),
            final(self).visited == old(self).visited,
            final(self).sdm == old(self).sdm,
            final(self).tie_break_item_pointer == old(self).tie_break_item_pointer,
            final(self).stats == old(self).stats,
            final(self).prune_stats == old(self).prune_stats,
    {
        self.candidates.push(lsn);
    }
}

} // verus!
