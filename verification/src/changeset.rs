//! The combined change set: the sole unit of persistence, aggregating the
//! chain, graph and indexer deltas, with the merge laws proved.

use vstd::prelude::*;

use crate::chain::ChainChangeSet;
use crate::graph::GraphChangeSet;
use crate::keychain::IndexerChangeSet;
use crate::types::{Anchor, Hash32, OutPoint, Tx, TxOut};

verus! {

/// The observable content of a combined delta: which facts it records.
/// Recording order and repetition are not observable, because application
/// of every fact is idempotent and monotone.
#[verifier::ext_equal]
pub ghost struct ChangeSetContent {
    /// Chain facts: blocks committed or removed at a height.
    pub chain: Set<(u32, Option<Hash32>)>,
    /// Whole transactions.
    pub txs: Set<Tx>,
    /// Floating outputs.
    pub txouts: Set<(OutPoint, TxOut)>,
    /// Confirmation anchors.
    pub anchors: Set<(Hash32, Anchor)>,
    /// Last-seen times.
    pub last_seen: Set<(Hash32, u64)>,
    /// Newly revealed indices.
    pub last_revealed: Set<(u8, u32)>,
}

/// A mergeable, persistable delta over the wallet's three components.
#[derive(Clone, Debug)]
pub struct BdkChangeSet {
    /// The local-chain delta.
    pub chain: ChainChangeSet,
    /// The transaction-graph delta.
    pub tx_graph: GraphChangeSet,
    /// The keychain-indexer delta.
    pub indexer: IndexerChangeSet,
}

impl BdkChangeSet {
    /// The observable content of this delta.
    pub open spec fn spec_content(self) -> ChangeSetContent {
        ChangeSetContent {
            chain: self.chain.blocks@.to_set(),
            txs: self.tx_graph.txs@.to_set(),
            txouts: self.tx_graph.txouts@.to_set(),
            anchors: self.tx_graph.anchors@.to_set(),
            last_seen: self.tx_graph.last_seen@.to_set(),
            last_revealed: self.indexer.last_revealed@.to_set(),
        }
    }

    /// Whether every sub-delta is empty.
    pub open spec fn spec_is_empty(self) -> bool {
        &&& self.chain.blocks@.len() == 0
        &&& self.tx_graph.txs@.len() == 0
        &&& self.tx_graph.txouts@.len() == 0
        &&& self.tx_graph.anchors@.len() == 0
        &&& self.tx_graph.last_seen@.len() == 0
        &&& self.indexer.last_revealed@.len() == 0
    }

    /// An empty delta.
    pub fn new() -> (r: BdkChangeSet)
        ensures
            r.spec_is_empty(),
    {
        BdkChangeSet {
            chain: ChainChangeSet::new(),
            tx_graph: GraphChangeSet::new(),
            indexer: IndexerChangeSet::new(),
        }
    }

    /// True iff all three sub-deltas are empty.
    pub fn is_empty(&self) -> (r: bool)
        ensures
            r == self.spec_is_empty(),
    {
        self.chain.is_empty() && self.tx_graph.is_empty() && self.indexer.is_empty()
    }

    /// Absorb another delta: the content becomes the union of the two.
    pub fn merge(&mut self, other: BdkChangeSet)
        ensures
            final(self).spec_content() == spec_merged(*old(self), other),
            final(self).chain.blocks@ == old(self).chain.blocks@ + other.chain.blocks@,
            final(self).tx_graph.txs@ == old(self).tx_graph.txs@ + other.tx_graph.txs@,
            final(self).tx_graph.txouts@ == old(self).tx_graph.txouts@ + other.tx_graph.txouts@,
            final(self).tx_graph.anchors@ == old(self).tx_graph.anchors@ + other.tx_graph.anchors@,
            final(self).tx_graph.last_seen@ == old(self).tx_graph.last_seen@
                + other.tx_graph.last_seen@,
            final(self).indexer.last_revealed@ == old(self).indexer.last_revealed@
                + other.indexer.last_revealed@,
    {
        let BdkChangeSet { chain, tx_graph, indexer } = other;
        self.chain.merge(chain);
        self.tx_graph.merge(tx_graph);
        self.indexer.merge(indexer);
        proof {
            vstd::seq_lib::seq_to_set_distributes_over_add(
                old(self).chain.blocks@,
                chain.blocks@,
            );
            vstd::seq_lib::seq_to_set_distributes_over_add(
                old(self).tx_graph.txs@,
                tx_graph.txs@,
            );
            vstd::seq_lib::seq_to_set_distributes_over_add(
                old(self).tx_graph.txouts@,
                tx_graph.txouts@,
            );
            vstd::seq_lib::seq_to_set_distributes_over_add(
                old(self).tx_graph.anchors@,
                tx_graph.anchors@,
            );
            vstd::seq_lib::seq_to_set_distributes_over_add(
                old(self).tx_graph.last_seen@,
                tx_graph.last_seen@,
            );
            vstd::seq_lib::seq_to_set_distributes_over_add(
                old(self).indexer.last_revealed@,
                indexer.last_revealed@,
            );
            assert(final(self).spec_content() =~~= spec_merged(*old(self), other));
        }
    }

    /// Atomically clear and return the current delta; afterwards nothing is
    /// left to persist, so an immediate second persist writes nothing.
    pub fn take(&mut self) -> (r: BdkChangeSet)
        ensures
            final(self).spec_is_empty(),
            r == *old(self),
    {
        let mut out = BdkChangeSet::new();
        core::mem::swap(&mut out, self);
        out
    }
}

/// A single fact's observable content.
pub proof fn lemma_to_set_singleton<A>(x: A)
    ensures
        seq![x].to_set() =~= set![x],
{
    assert(seq![x][0] == x);
    assert(seq![x].contains(x));
    assert forall|y: A| seq![x].to_set().contains(y) implies set![x].contains(y) by {
        assert(seq![x].contains(y));
        let i = choose|i: int| 0 <= i < seq![x].len() && seq![x][i] == y;
        assert(i == 0);
    }
}

/// An empty fact list's observable content.
pub proof fn lemma_to_set_empty<A>()
    ensures
        Seq::<A>::empty().to_set() =~= Set::<A>::empty(),
{
    assert forall|y: A| Seq::<A>::empty().to_set().contains(y) implies false by {
        assert(Seq::<A>::empty().contains(y));
        let i = choose|i: int| 0 <= i < Seq::<A>::empty().len() && Seq::<A>::empty()[i] == y;
    }
}

/// The content of merging two deltas: the pairwise union of their facts.
pub open spec fn spec_merged(a: BdkChangeSet, b: BdkChangeSet) -> ChangeSetContent {
    ChangeSetContent {
        chain: a.spec_content().chain + b.spec_content().chain,
        txs: a.spec_content().txs + b.spec_content().txs,
        txouts: a.spec_content().txouts + b.spec_content().txouts,
        anchors: a.spec_content().anchors + b.spec_content().anchors,
        last_seen: a.spec_content().last_seen + b.spec_content().last_seen,
        last_revealed: a.spec_content().last_revealed + b.spec_content().last_revealed,
    }
}

/// Merging an empty delta changes nothing observable.
pub proof fn lemma_merge_empty(a: BdkChangeSet, e: BdkChangeSet)
    requires
        e.spec_is_empty(),
    ensures
        spec_merged(a, e) == a.spec_content(),
{
    assert(e.chain.blocks@ =~= Seq::<(u32, Option<Hash32>)>::empty());
    assert(e.tx_graph.txs@ =~= Seq::<Tx>::empty());
    assert(e.tx_graph.txouts@ =~= Seq::<(OutPoint, TxOut)>::empty());
    assert(e.tx_graph.anchors@ =~= Seq::<(Hash32, Anchor)>::empty());
    assert(e.tx_graph.last_seen@ =~= Seq::<(Hash32, u64)>::empty());
    assert(e.indexer.last_revealed@ =~= Seq::<(u8, u32)>::empty());
    assert(spec_merged(a, e) =~~= a.spec_content());
}

/// Merging is commutative in observable effect.
pub proof fn lemma_merge_commutes(a: BdkChangeSet, b: BdkChangeSet)
    ensures
        spec_merged(a, b) == spec_merged(b, a),
{
    assert(spec_merged(a, b) =~~= spec_merged(b, a));
}

/// Merging is associative in observable effect.
pub proof fn lemma_merge_assoc(a: BdkChangeSet, b: BdkChangeSet, c: BdkChangeSet)
    ensures
        ({
            let ab = spec_merged(a, b);
            let bc = spec_merged(b, c);
            ChangeSetContent {
                chain: ab.chain + c.spec_content().chain,
                txs: ab.txs + c.spec_content().txs,
                txouts: ab.txouts + c.spec_content().txouts,
                anchors: ab.anchors + c.spec_content().anchors,
                last_seen: ab.last_seen + c.spec_content().last_seen,
                last_revealed: ab.last_revealed + c.spec_content().last_revealed,
            } == ChangeSetContent {
                chain: a.spec_content().chain + bc.chain,
                txs: a.spec_content().txs + bc.txs,
                txouts: a.spec_content().txouts + bc.txouts,
                anchors: a.spec_content().anchors + bc.anchors,
                last_seen: a.spec_content().last_seen + bc.last_seen,
                last_revealed: a.spec_content().last_revealed + bc.last_revealed,
            }
        }),
{
    assert((ChangeSetContent {
        chain: spec_merged(a, b).chain + c.spec_content().chain,
        txs: spec_merged(a, b).txs + c.spec_content().txs,
        txouts: spec_merged(a, b).txouts + c.spec_content().txouts,
        anchors: spec_merged(a, b).anchors + c.spec_content().anchors,
        last_seen: spec_merged(a, b).last_seen + c.spec_content().last_seen,
        last_revealed: spec_merged(a, b).last_revealed + c.spec_content().last_revealed,
    }) =~~= (ChangeSetContent {
        chain: a.spec_content().chain + spec_merged(b, c).chain,
        txs: a.spec_content().txs + spec_merged(b, c).txs,
        txouts: a.spec_content().txouts + spec_merged(b, c).txouts,
        anchors: a.spec_content().anchors + spec_merged(b, c).anchors,
        last_seen: a.spec_content().last_seen + spec_merged(b, c).last_seen,
        last_revealed: a.spec_content().last_revealed + spec_merged(b, c).last_revealed,
    }));
}

/// Merging a delta into itself changes nothing observable: repeated
/// application of the same delta is idempotent.
pub proof fn lemma_merge_idempotent(a: BdkChangeSet)
    ensures
        spec_merged(a, a) == a.spec_content(),
{
    assert(spec_merged(a, a) =~~= a.spec_content());
}

} // verus!
