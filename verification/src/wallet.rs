//! The wallet: one local chain, one keychain index, one transaction graph
//! and one staged change set, with address derivation, queries, block and
//! update application, and transaction construction on top.

use vstd::prelude::*;

use crate::chain::{ChainError, LocalChain};
use crate::changeset::{lemma_to_set_empty, lemma_to_set_singleton, BdkChangeSet, ChangeSetContent};
use crate::graph::{
    balance_of, spec_balance, spec_txids_include, Balance, FullTxOut, GraphChangeSet, TxGraph,
};
use crate::keychain::{slot_grows, IndexerChangeSet, Keychain, KeychainIndex};
use crate::select::{
    select_coins, sel_value_sum, spec_fee, spec_output_wu, spec_total_value, spec_total_wu,
    fee128, lemma_total_nonneg, Candidate, CreateTxError, Selection, TxTemplate, DUST_LIMIT,
    INPUT_FIXED_WU, RBF_SEQUENCE, TX_FIXED_WU, TX_VERSION,
};
use crate::trusted::{address_of_spk, address_str_of, satisfaction_wu, satisfaction_wu_of, spk_of};
use crate::types::{
    copy_bytes, copy_tx, spec_net_tag, tx_view, Anchor, BlockId, Hash32, Network, OutPoint, Tx,
    TxOut,
    EXTERNAL_KEYCHAIN, INTERNAL_KEYCHAIN,
};

verus! {

/// The shape in which an external sync driver hands results back: new
/// transaction data, an optional new-tip checkpoint list, and the highest
/// active index seen per keychain.
#[derive(Clone, Debug)]
pub struct Update {
    /// New transactions, floating outputs, anchors and seen-times.
    pub tx_update: GraphChangeSet,
    /// The new tip's checkpoint ancestry, if the chain moved.
    pub cp: Option<LocalChain>,
    /// The highest active derivation index per keychain.
    pub last_active_indices: Vec<(u8, u32)>,
}

/// Stores and indexes on-chain data.
#[derive(Clone, Debug)]
pub struct BdkWallet {
    /// The network this wallet operates on.
    pub network: Network,
    /// The best-known chain.
    pub chain: LocalChain,
    /// The transaction graph.
    pub tx_graph: TxGraph,
    /// The keychain script index.
    pub index: KeychainIndex,
    /// The staged, not yet persisted change set.
    pub stage: BdkChangeSet,
}

impl BdkWallet {
    /// Well-formedness of all components.
    pub open spec fn wf(self) -> bool {
        &&& self.chain.wf()
        &&& self.tx_graph.wf()
        &&& self.index.wf()
    }

    /// A fresh wallet on `network` with the given genesis hash, external
    /// descriptor and optional internal descriptor. The genesis block is
    /// staged so a first persist records it. Fails when a descriptor does
    /// not parse or derive.
    pub fn new(
        network: Network,
        genesis_hash: Hash32,
        external_descriptor: String,
        internal_descriptor: Option<String>,
        lookahead: u32,
    ) -> (r: Option<BdkWallet>)
        ensures
            match r {
                Some(w) => {
                    &&& w.wf()
                    &&& w.chain.blocks@ == seq![BlockId { height: 0u32, hash: genesis_hash }]
                    &&& w.network == network
                    &&& w.index.external is Some
                    &&& (internal_descriptor is Some <==> w.index.internal is Some)
                },
                None => {
                    ||| spk_of(external_descriptor@, 0u32) is None
                    ||| (internal_descriptor matches Some(d) && spk_of(d@, 0u32) is None)
                },
            },
    {
        let (chain, chain_delta) = LocalChain::from_genesis(genesis_hash);
        let mut index = KeychainIndex::new(lookahead);
        if !index.insert_descriptor(Keychain(EXTERNAL_KEYCHAIN), external_descriptor) {
            return None;
        }
        match internal_descriptor {
            Some(d) => {
                if !index.insert_descriptor(Keychain(INTERNAL_KEYCHAIN), d) {
                    return None;
                }
            },
            None => {},
        }
        proof {
            assert(index.spec_state(EXTERNAL_KEYCHAIN) is Some);
            assert(index.external is Some);
            if internal_descriptor is Some {
                assert(index.spec_state(INTERNAL_KEYCHAIN) is Some);
                assert(index.internal is Some);
            } else {
                assert(index.spec_state(INTERNAL_KEYCHAIN) == None::<crate::keychain::KeychainState>);
                assert(index.internal is None);
            }
        }
        let mut stage = BdkChangeSet::new();
        stage.chain.merge(chain_delta);
        Some(
            BdkWallet { network, chain, tx_graph: TxGraph::new(), index, stage },
        )
    }

    /// The latest checkpoint tip.
    pub fn tip(&self) -> (r: BlockId)
        requires
            self.wf(),
        ensures
            r == self.chain.spec_tip(),
    {
        self.chain.tip()
    }

    /// Insert a checkpoint and stage the resulting chain delta.
    ///
    /// Inserting a block the chain already records returns `Ok(false)` and
    /// changes nothing; a different block at an occupied height fails with
    /// `ReorgConflict` and changes nothing — so no sequence of insertions
    /// can silently replace a committed block; an explicit chain update is
    /// the only reorg path.
    pub fn insert_checkpoint(&mut self, block: BlockId) -> (r: Result<bool, ChainError>)
        requires
            old(self).wf(),
        ensures
            final(self).wf(),
            final(self).network == old(self).network,
            final(self).tx_graph == old(self).tx_graph,
            final(self).index == old(self).index,
            match r {
                Ok(inserted) => {
                    &&& final(self).chain.spec_contains(block)
                    &&& if inserted {
                        &&& !old(self).chain.spec_has_height(block.height)
                        &&& forall|b: BlockId|
                            final(self).chain.spec_contains(b) <==> (old(
                                self,
                            ).chain.spec_contains(b) || b == block)
                        &&& final(self).stage.spec_content() == (ChangeSetContent {
                            chain: old(self).stage.spec_content().chain.insert(
                                (block.height, Some(block.hash)),
                            ),
                            txs: old(self).stage.spec_content().txs,
                            txouts: old(self).stage.spec_content().txouts,
                            anchors: old(self).stage.spec_content().anchors,
                            last_seen: old(self).stage.spec_content().last_seen,
                            last_revealed: old(self).stage.spec_content().last_revealed,
                        })
                    } else {
                        &&& old(self).chain.spec_contains(block)
                        &&& final(self).chain == old(self).chain
                        &&& final(self).stage == old(self).stage
                    }
                },
                Err(e) => {
                    &&& e == ChainError::ReorgConflict
                    &&& old(self).chain.spec_has_height(block.height)
                    &&& !old(self).chain.spec_contains(block)
                    &&& final(self).chain == old(self).chain
                    &&& final(self).stage == old(self).stage
                },
            },
    {
        match self.chain.insert_checkpoint(block) {
            Ok((inserted, delta)) => {
                if inserted {
                    let mut cs = BdkChangeSet::new();
                    cs.chain.merge(delta);
                    let ghost pre_stage = self.stage;
                    self.stage.merge(cs);
                    proof {
                        lemma_to_set_empty::<Tx>();
                        lemma_to_set_empty::<(OutPoint, TxOut)>();
                        lemma_to_set_empty::<(Hash32, Anchor)>();
                        lemma_to_set_empty::<(Hash32, u64)>();
                        lemma_to_set_empty::<(u8, u32)>();
                        lemma_to_set_singleton((block.height, Some(block.hash)));
                        assert(cs.chain.blocks@ =~= seq![(block.height, Some(block.hash))]);
                        assert(self.stage.spec_content() =~~= (ChangeSetContent {
                            chain: pre_stage.spec_content().chain.insert(
                                (block.height, Some(block.hash)),
                            ),
                            txs: pre_stage.spec_content().txs,
                            txouts: pre_stage.spec_content().txouts,
                            anchors: pre_stage.spec_content().anchors,
                            last_seen: pre_stage.spec_content().last_seen,
                            last_revealed: pre_stage.spec_content().last_revealed,
                        }));
                    }
                }
                Ok(inserted)
            },
            Err(e) => Err(e),
        }
    }

    /// Apply an update from a sync driver: reconcile the chain with the new
    /// tip, absorb the transaction data, reveal up to the reported active
    /// indices, and stage everything. Fails, changing nothing, exactly when
    /// the chain update does not connect.
    pub fn apply_update(&mut self, update: Update) -> (r: Result<(), ChainError>)
        requires
            old(self).wf(),
            update.cp matches Some(up) ==> up.wf(),
        ensures
            final(self).wf(),
            final(self).network == old(self).network,
            match r {
                Ok(()) => {
                    &&& (update.cp matches Some(up) ==> {
                        &&& old(self).chain.spec_connects(up)
                        &&& forall|b: BlockId|
                            final(self).chain.spec_contains(b) <==> (up.spec_contains(b)
                                || old(self).chain.spec_keeps(up, b))
                    })
                    &&& (update.cp is None ==> final(self).chain == old(self).chain)
                    &&& forall|x: Hash32|
                        #![trigger final(self).tx_graph.spec_has_tx(x)]
                        final(self).tx_graph.spec_has_tx(x) <==> (old(self).tx_graph.spec_has_tx(x)
                            || spec_txids_include(
                            update.tx_update.txs@,
                            update.tx_update.txs@.len() as int,
                            x,
                        ))
                    &&& forall|k: int|
                        0 <= k < update.tx_update.anchors@.len()
                            ==> final(self).tx_graph.anchors@.contains(
                            #[trigger] update.tx_update.anchors@[k],
                        )
                    &&& slot_grows(old(self).index.external, final(self).index.external)
                    &&& slot_grows(old(self).index.internal, final(self).index.internal)
                    &&& forall|op: OutPoint|
                        #![trigger final(self).tx_graph.spec_has_txout(op)]
                        final(self).tx_graph.spec_has_txout(op) <==> (old(
                            self,
                        ).tx_graph.spec_has_txout(op) || crate::graph::spec_txout_keys_include(
                            update.tx_update.txouts@,
                            update.tx_update.txouts@.len() as int,
                            op,
                        ))
                    &&& forall|x: Hash32|
                        #![trigger final(self).tx_graph.spec_last_seen(x)]
                        final(self).tx_graph.spec_last_seen(x) >= old(
                            self,
                        ).tx_graph.spec_last_seen(x)
                    &&& forall|k: int|
                        0 <= k < update.tx_update.last_seen@.len()
                            ==> final(self).tx_graph.spec_last_seen(
                            (#[trigger] update.tx_update.last_seen@[k]).0,
                        ) >= update.tx_update.last_seen@[k].1
                    // The reported active indices end up revealed, unless a
                    // descriptor cannot derive some index at or below one.
                    &&& forall|e: int|
                        0 <= e < update.last_active_indices@.len() ==> {
                            let f = #[trigger] update.last_active_indices@[e];
                            f.1 == u32::MAX || match final(self).index.spec_state(f.0) {
                                Some(s) => s.next_index > f.1 || exists|j: u32|
                                    j <= f.1 && spk_of(s.descriptor@, j) is None,
                                None => true,
                            }
                        }
                    // Everything is staged: the transaction data and active
                    // indices verbatim, and the chain facts of the
                    // reconciliation.
                    &&& final(self).stage.spec_content().txs == old(
                        self,
                    ).stage.spec_content().txs + update.tx_update.txs@.to_set()
                    &&& final(self).stage.spec_content().txouts == old(
                        self,
                    ).stage.spec_content().txouts + update.tx_update.txouts@.to_set()
                    &&& final(self).stage.spec_content().anchors == old(
                        self,
                    ).stage.spec_content().anchors + update.tx_update.anchors@.to_set()
                    &&& final(self).stage.spec_content().last_seen == old(
                        self,
                    ).stage.spec_content().last_seen + update.tx_update.last_seen@.to_set()
                    &&& final(self).stage.spec_content().last_revealed == old(
                        self,
                    ).stage.spec_content().last_revealed
                        + update.last_active_indices@.to_set()
                    &&& old(self).stage.spec_content().chain.subset_of(
                        final(self).stage.spec_content().chain,
                    )
                    &&& forall|f: (u32, Option<Hash32>)| #[trigger]
                        final(self).stage.spec_content().chain.contains(f)
                            ==> (old(self).stage.spec_content().chain.contains(f)
                            || final(self).chain.spec_fact_ok(f))
                },
                Err(e) => {
                    &&& e == ChainError::CannotConnect
                    &&& update.cp is Some
                    &&& !old(self).chain.spec_connects(update.cp->Some_0)
                    &&& *final(self) == *old(self)
                },
            },
    {
        let Update { tx_update, cp, last_active_indices } = update;
        let mut cs = BdkChangeSet::new();
        // Chain first: a non-connecting update must change nothing at all.
        match cp {
            Some(up) => {
                if !up.blocks.is_empty() {
                    match self.chain.apply_update(&up) {
                        Ok(delta) => {
                            cs.chain.merge(delta);
                        },
                        Err(e) => {
                            return Err(e);
                        },
                    }
                } else {
                    proof {
                        assert(!old(self).chain.spec_connects(up)) by {
                            if old(self).chain.spec_connects(up) {
                                let b = choose|b: BlockId|
                                    old(self).chain.spec_contains(b) && up.spec_contains(b);
                                let k = choose|k: int|
                                    0 <= k < up.blocks@.len() && up.blocks@[k] == b;
                            }
                        }
                    }
                    return Err(ChainError::CannotConnect);
                }
            },
            None => {},
        }
        // Indexer: reveal up to the reported active indices, and stage the
        // facts so a reload replays them.
        let idx_delta = IndexerChangeSet { last_revealed: last_active_indices };
        self.index.apply_changeset(&idx_delta);
        cs.indexer.merge(idx_delta);
        // Graph: absorb and stage the transaction data verbatim.
        self.tx_graph.apply_changeset(&tx_update);
        let ghost gtu = tx_update;
        cs.tx_graph.merge(tx_update);
        let ghost pre_stage = self.stage;
        let ghost gcs = cs;
        self.stage.merge(cs);
        proof {
            assert(gcs.tx_graph.txs@ =~= gtu.txs@);
            assert(gcs.tx_graph.txouts@ =~= gtu.txouts@);
            assert(gcs.tx_graph.anchors@ =~= gtu.anchors@);
            assert(gcs.tx_graph.last_seen@ =~= gtu.last_seen@);
            assert(gcs.indexer.last_revealed@ =~= update.last_active_indices@);
            assert forall|f: (u32, Option<Hash32>)| #[trigger]
                self.stage.spec_content().chain.contains(f) implies (
            pre_stage.spec_content().chain.contains(f) || self.chain.spec_fact_ok(f)) by {
                if !pre_stage.spec_content().chain.contains(f) {
                    assert(gcs.chain.blocks@.to_set().contains(f));
                    assert(gcs.chain.blocks@.contains(f));
                    let k = choose|k: int|
                        0 <= k < gcs.chain.blocks@.len() && gcs.chain.blocks@[k] == f;
                }
            }
        }
        Ok(())
    }

    /// Apply the relevant transactions of a block: every transaction is
    /// indexed (for script-reuse bookkeeping), and those touching the
    /// wallet are stored with a confirmation anchor at the block. The
    /// resulting deltas are staged.
    pub fn apply_block_relevant(&mut self, block_txs: &Vec<Tx>, height: u32, hash: Hash32, time: u64)
        requires
            old(self).wf(),
        ensures
            final(self).wf(),
            final(self).network == old(self).network,
            final(self).chain == old(self).chain,
            // The graph only gains transactions.
            forall|x: Hash32|
                old(self).tx_graph.spec_has_tx(x) ==> final(self).tx_graph.spec_has_tx(x),
            // Every block transaction the wallet recognized up front is
            // stored and anchored at this block.
            forall|k: int|
                0 <= k < block_txs@.len() && old(self).index.spec_tx_relevant(
                    #[trigger] block_txs@[k],
                ) ==> (final(self).tx_graph.spec_has_tx(block_txs@[k].txid)
                    && final(self).tx_graph.anchors@.contains(
                    (block_txs@[k].txid, Anchor { block: BlockId { height, hash }, time }),
                )),
            // Nothing beyond the block's relevant transactions was stored:
            // irrelevant transactions are indexed but not kept in full.
            forall|x: Hash32|
                #![trigger final(self).tx_graph.spec_has_tx(x)]
                final(self).tx_graph.spec_has_tx(x) ==> (old(self).tx_graph.spec_has_tx(x)
                    || exists|k: int|
                    0 <= k < block_txs@.len() && (#[trigger] block_txs@[k]).txid == x
                        && final(self).index.spec_tx_relevant(block_txs@[k])),
            // The stored evidence is staged (or was already known): no
            // chain facts, and for every recognized transaction its anchor
            // and content.
            final(self).stage.spec_content().chain == old(self).stage.spec_content().chain,
            forall|k: int|
                0 <= k < block_txs@.len() && old(self).index.spec_tx_relevant(
                    #[trigger] block_txs@[k],
                ) ==> ((final(self).stage.spec_content().anchors.contains(
                    (block_txs@[k].txid, Anchor { block: BlockId { height, hash }, time }),
                ) || old(self).tx_graph.anchors@.contains(
                    (block_txs@[k].txid, Anchor { block: BlockId { height, hash }, time }),
                )) && ((exists|t: Tx|
                    #[trigger] final(self).stage.spec_content().txs.contains(t) && t.txid
                        == block_txs@[k].txid) || old(self).tx_graph.spec_has_tx(
                    block_txs@[k].txid,
                ))),
    {
        broadcast use vstd::seq_lib::group_seq_properties;

        let ghost g0 = *self;
        let anchor = Anchor { block: BlockId { height, hash }, time };
        let mut cs = BdkChangeSet::new();
        let mut k: usize = 0;
        while k < block_txs.len()
            invariant
                self.wf(),
                g0.wf(),
                0 <= k <= block_txs@.len(),
                anchor == (Anchor { block: BlockId { height, hash }, time }),
                self.network == g0.network,
                self.chain == g0.chain,
                self.stage == g0.stage,
                slot_grows(g0.index.external, self.index.external),
                slot_grows(g0.index.internal, self.index.internal),
                g0.index.outpoints@.len() <= self.index.outpoints@.len(),
                forall|i: int|
                    0 <= i < g0.index.outpoints@.len() ==> self.index.outpoints@[i]
                        == g0.index.outpoints@[i],
                forall|x: Hash32|
                    g0.tx_graph.spec_has_tx(x) ==> self.tx_graph.spec_has_tx(x),
                forall|e: (Hash32, Anchor)| #[trigger]
                    g0.tx_graph.anchors@.contains(e) ==> self.tx_graph.anchors@.contains(e),
                forall|p: int|
                    0 <= p < k && g0.index.spec_tx_relevant(#[trigger] block_txs@[p]) ==> (
                    self.tx_graph.spec_has_tx(block_txs@[p].txid)
                        && self.tx_graph.anchors@.contains((block_txs@[p].txid, anchor))),
                // Graph gains only block transactions relevant to the
                // current index.
                forall|x: Hash32|
                    #![trigger self.tx_graph.spec_has_tx(x)]
                    self.tx_graph.spec_has_tx(x) ==> (g0.tx_graph.spec_has_tx(x) || exists|p: int|
                        0 <= p < k && (#[trigger] block_txs@[p]).txid == x
                            && self.index.spec_tx_relevant(block_txs@[p])),
                // Everything the graph gained is mirrored in the pending
                // delta.
                cs.chain.blocks@.len() == 0,
                forall|x: Hash32|
                    #![trigger self.tx_graph.spec_has_tx(x)]
                    self.tx_graph.spec_has_tx(x) ==> (g0.tx_graph.spec_has_tx(x) || exists|t: int|
                        0 <= t < cs.tx_graph.txs@.len() && (#[trigger] cs.tx_graph.txs@[t]).txid
                            == x),
                forall|e: (Hash32, Anchor)| #[trigger]
                    self.tx_graph.anchors@.contains(e) ==> (g0.tx_graph.anchors@.contains(e)
                        || cs.tx_graph.anchors@.contains(e)),
            decreases block_txs@.len() - k,
        {
            let ghost mid = *self;
            let ghost cs0 = cs;
            let tx = &block_txs[k];
            let d_index = self.index.index_tx(tx);
            cs.indexer.merge(d_index);
            let ghost mid2 = *self;
            if self.index.is_tx_relevant(tx) {
                let c = copy_tx(tx);
                let ghost gc = c;
                let ghost mid3 = *self;
                let ghost pre_cs = cs;
                let d1 = self.tx_graph.insert_tx(c);
                let ghost mid4 = *self;
                let d2 = self.tx_graph.insert_anchor(tx.txid, anchor);
                let ghost gd1 = d1;
                let ghost gd2 = d2;
                cs.tx_graph.merge(d1);
                cs.tx_graph.merge(d2);
                proof {
                    assert(gc.txid == tx.txid);
                    // The pending delta mirrors what the graph gained.
                    assert forall|x: Hash32|
                        #![trigger self.tx_graph.spec_has_tx(x)]
                        self.tx_graph.spec_has_tx(x) implies (g0.tx_graph.spec_has_tx(x) || exists|
                            t: int,
                        |
                            0 <= t < cs.tx_graph.txs@.len() && (
                            #[trigger] cs.tx_graph.txs@[t]).txid == x) by {
                        if !g0.tx_graph.spec_has_tx(x) {
                            if mid3.tx_graph.spec_has_tx(x) {
                                assert(mid.tx_graph.spec_has_tx(x));
                                assert(exists|t: int|
                                    0 <= t < cs0.tx_graph.txs@.len() && (
                                    #[trigger] cs0.tx_graph.txs@[t]).txid == x);
                                let t = choose|t: int|
                                    0 <= t < cs0.tx_graph.txs@.len() && (
                                    #[trigger] cs0.tx_graph.txs@[t]).txid == x;
                                assert(pre_cs.tx_graph.txs@[t].txid == x);
                                assert(cs.tx_graph.txs@[t].txid == x);
                            } else {
                                assert(self.tx_graph.txs@ == mid3.tx_graph.txs@.push(gc));
                                let i = choose|i: int|
                                    0 <= i < self.tx_graph.txs@.len() && (
                                    #[trigger] self.tx_graph.txs@[i]).txid == x;
                                if i < mid3.tx_graph.txs@.len() {
                                    assert(mid3.tx_graph.txs@[i].txid == x);
                                } else {
                                    assert(gd1.txs@.len() == 1 && tx_view(gd1.txs@[0]) == tx_view(
                                        gc,
                                    ));
                                    assert(gd1.txs@[0].txid == gc.txid);
                                    assert(cs.tx_graph.txs@[pre_cs.tx_graph.txs@.len() as int]
                                        == gd1.txs@[0]);
                                    assert(self.tx_graph.txs@[i] == gc);
                                }
                            }
                        }
                    }
                    assert forall|e: (Hash32, Anchor)| #[trigger]
                        self.tx_graph.anchors@.contains(e) implies (g0.tx_graph.anchors@.contains(
                        e,
                    ) || cs.tx_graph.anchors@.contains(e)) by {
                        if !g0.tx_graph.anchors@.contains(e) {
                            if mid4.tx_graph.anchors@.contains(e) {
                                assert(mid3.tx_graph.anchors@.contains(e) || e == (
                                tx.txid,
                                anchor,
                                )) by {
                                    if mid4.tx_graph.anchors@ != mid3.tx_graph.anchors@ {
                                        crate::chain::lemma_push_contains(
                                            mid3.tx_graph.anchors@,
                                            (tx.txid, anchor),
                                            e,
                                        );
                                    }
                                }
                                if mid3.tx_graph.anchors@.contains(e) {
                                    let t = choose|t: int|
                                        0 <= t < pre_cs.tx_graph.anchors@.len() && (
                                        #[trigger] pre_cs.tx_graph.anchors@[t]) == e;
                                    assert(cs.tx_graph.anchors@[t] == e);
                                } else {
                                    assert(gd2.anchors@.len() == 0);
                                    let t = choose|t: int|
                                        0 <= t < pre_cs.tx_graph.anchors@.len() && (
                                        #[trigger] pre_cs.tx_graph.anchors@[t]) == e;
                                    assert(cs.tx_graph.anchors@[t] == e);
                                }
                            } else {
                                assert(self.tx_graph.anchors@ == mid4.tx_graph.anchors@.push(
                                    (tx.txid, anchor),
                                ));
                                crate::chain::lemma_push_contains(
                                    mid4.tx_graph.anchors@,
                                    (tx.txid, anchor),
                                    e,
                                );
                                assert(e == (tx.txid, anchor));
                                assert(gd2.anchors@ == seq![(tx.txid, anchor)]);
                                assert(cs.tx_graph.anchors@[cs.tx_graph.anchors@.len() - 1] == e);
                            }
                        }
                    }
                    lemma_graph_gains(mid3.tx_graph, self.tx_graph, gc, anchor);
                    assert(self.tx_graph.spec_has_tx(tx.txid)) by {
                        if mid3.tx_graph.spec_has_tx(gc.txid) {
                        } else {
                            assert(mid4.tx_graph.txs@ == mid3.tx_graph.txs@.push(gc));
                            assert(mid4.tx_graph.txs@[mid4.tx_graph.txs@.len() - 1].txid
                                == tx.txid);
                            assert(mid4.tx_graph.spec_has_tx(tx.txid));
                        }
                    }
                    assert(self.tx_graph.anchors@.contains((tx.txid, anchor))) by {
                        if mid4.tx_graph.anchors@.contains((tx.txid, anchor)) {
                        } else {
                            assert(self.tx_graph.anchors@ == mid4.tx_graph.anchors@.push(
                                (tx.txid, anchor),
                            ));
                            assert(self.tx_graph.anchors@[self.tx_graph.anchors@.len() - 1] == (
                            tx.txid,
                            anchor,
                            ));
                        }
                    }
                }
            } else {
                proof {
                    if g0.index.spec_tx_relevant(*tx) {
                        lemma_relevance_monotone(g0.index, mid.index, *tx);
                        lemma_relevance_monotone(mid.index, mid2.index, *tx);
                    }
                }
            }
            proof {
                crate::keychain::lemma_slot_grows_trans(
                    g0.index.external,
                    mid.index.external,
                    self.index.external,
                );
                crate::keychain::lemma_slot_grows_trans(
                    g0.index.internal,
                    mid.index.internal,
                    self.index.internal,
                );
                assert forall|e: (Hash32, Anchor)| #[trigger]
                    mid.tx_graph.anchors@.contains(e) implies self.tx_graph.anchors@.contains(
                    e,
                ) by {
                    lemma_anchors_monotone(mid.tx_graph.anchors@, self.tx_graph.anchors@, e);
                }
                // The pending delta keeps mirroring the graph on every path.
                assert forall|x: Hash32|
                    #![trigger self.tx_graph.spec_has_tx(x)]
                    self.tx_graph.spec_has_tx(x) implies (g0.tx_graph.spec_has_tx(x) || exists|
                        t: int,
                    |
                        0 <= t < cs.tx_graph.txs@.len() && (#[trigger] cs.tx_graph.txs@[t]).txid
                            == x) by {
                    if !g0.tx_graph.spec_has_tx(x) && self.tx_graph == mid.tx_graph {
                        assert(mid.tx_graph.spec_has_tx(x));
                        assert(exists|t: int|
                            0 <= t < cs0.tx_graph.txs@.len() && (
                            #[trigger] cs0.tx_graph.txs@[t]).txid == x);
                        let t = choose|t: int|
                            0 <= t < cs0.tx_graph.txs@.len() && (
                            #[trigger] cs0.tx_graph.txs@[t]).txid == x;
                        assert(cs.tx_graph.txs@[t].txid == x);
                    }
                }
                // Relevance established at any earlier index still holds.
                assert forall|x: Hash32|
                    #![trigger self.tx_graph.spec_has_tx(x)]
                    self.tx_graph.spec_has_tx(x) implies (g0.tx_graph.spec_has_tx(x) || exists|
                        p: int,
                    |
                        0 <= p < k + 1 && (#[trigger] block_txs@[p]).txid == x
                            && self.index.spec_tx_relevant(block_txs@[p])) by {
                    if !g0.tx_graph.spec_has_tx(x) {
                        if mid.tx_graph.spec_has_tx(x) {
                            let p = choose|p: int|
                                0 <= p < k && (#[trigger] block_txs@[p]).txid == x
                                    && mid.index.spec_tx_relevant(block_txs@[p]);
                            lemma_relevance_monotone(mid.index, self.index, block_txs@[p]);
                        } else {
                            assert(block_txs@[k as int].txid == x);
                            assert(self.index.spec_tx_relevant(block_txs@[k as int]));
                        }
                    }
                }
            }
            k += 1;
        }
        let ghost gcs = cs;
        let ghost pre_stage = self.stage;
        self.stage.merge(cs);
        proof {
            crate::changeset::lemma_to_set_empty::<(u32, Option<Hash32>)>();
            assert(gcs.chain.blocks@ =~= Seq::<(u32, Option<Hash32>)>::empty());
            assert(self.stage.spec_content().chain =~= pre_stage.spec_content().chain);
            assert forall|p: int|
                0 <= p < block_txs@.len() && g0.index.spec_tx_relevant(
                    #[trigger] block_txs@[p],
                ) implies ((self.stage.spec_content().anchors.contains(
                (block_txs@[p].txid, anchor),
            ) || g0.tx_graph.anchors@.contains((block_txs@[p].txid, anchor))) && ((exists|t: Tx|
                #[trigger] self.stage.spec_content().txs.contains(t) && t.txid == block_txs@[
                    p
                ].txid) || g0.tx_graph.spec_has_tx(block_txs@[p].txid))) by {
                // The loop stored and mirrored the evidence.
                if !g0.tx_graph.anchors@.contains((block_txs@[p].txid, anchor)) {
                    assert(gcs.tx_graph.anchors@.contains((block_txs@[p].txid, anchor)));
                    assert(self.stage.spec_content().anchors.contains(
                        (block_txs@[p].txid, anchor),
                    ));
                }
                if !g0.tx_graph.spec_has_tx(block_txs@[p].txid) {
                    let t = choose|t: int|
                        0 <= t < gcs.tx_graph.txs@.len() && (#[trigger] gcs.tx_graph.txs@[t]).txid
                            == block_txs@[p].txid;
                    assert(gcs.tx_graph.txs@.contains(gcs.tx_graph.txs@[t]));
                    assert(self.stage.spec_content().txs.contains(gcs.tx_graph.txs@[t]));
                }
            }
        }
    }

    /// Fold the canonical view into full txouts for the wallet's indexed
    /// outpoints.
    pub fn list_indexed_txouts(&self) -> (r: Vec<FullTxOut>)
        requires
            self.wf(),
        ensures
            forall|k: int|
                0 <= k < r@.len() ==> self.tx_graph.spec_full_txout_ok(
                    self.chain,
                    #[trigger] r@[k],
                ),
            forall|k: int|
                0 <= k < r@.len() ==> crate::graph::spec_entry_matches(
                    self.index.outpoints@,
                    #[trigger] r@[k],
                ),
            forall|l: int|
                0 <= l < self.index.outpoints@.len() && self.tx_graph.spec_spendable_at(
                    self.chain,
                    (#[trigger] self.index.outpoints@[l]).outpoint,
                ) ==> exists|k: int|
                    0 <= k < r@.len() && (#[trigger] r@[k]).outpoint
                        == self.index.outpoints@[l].outpoint,
            forall|k1: int, k2: int|
                0 <= k1 < k2 < r@.len() ==> (#[trigger] r@[k1]).outpoint != (
                #[trigger] r@[k2]).outpoint,
    {
        self.tx_graph.filter_chain_txouts(&self.chain, &self.index.outpoints)
    }

    /// The unspent wallet outputs (UTXOs) under the canonical view: every
    /// spendable indexed outpoint that no canonical transaction spends
    /// appears, exactly once.
    pub fn list_unspent(&self) -> (r: Vec<FullTxOut>)
        requires
            self.wf(),
        ensures
            forall|k: int|
                0 <= k < r@.len() ==> (self.tx_graph.spec_full_txout_ok(
                    self.chain,
                    #[trigger] r@[k],
                ) && r@[k].spent_by is None),
            forall|k: int|
                0 <= k < r@.len() ==> crate::graph::spec_entry_matches(
                    self.index.outpoints@,
                    #[trigger] r@[k],
                ),
            forall|k1: int, k2: int|
                0 <= k1 < k2 < r@.len() ==> (#[trigger] r@[k1]).outpoint != (
                #[trigger] r@[k2]).outpoint,
            forall|l: int|
                0 <= l < self.index.outpoints@.len() && self.tx_graph.spec_spendable_at(
                    self.chain,
                    (#[trigger] self.index.outpoints@[l]).outpoint,
                ) && !(exists|x: Hash32|
                    self.tx_graph.spec_spent_by(
                        self.chain,
                        self.index.outpoints@[l].outpoint,
                        x,
                    )) ==> exists|k: int|
                    0 <= k < r@.len() && (#[trigger] r@[k]).outpoint
                        == self.index.outpoints@[l].outpoint,
    {
        let full = self.list_indexed_txouts();
        let mut r: Vec<FullTxOut> = Vec::new();
        let ghost mut srcs: Seq<int> = Seq::empty();
        let mut k: usize = 0;
        while k < full.len()
            invariant
                self.wf(),
                0 <= k <= full@.len(),
                forall|p: int|
                    0 <= p < full@.len() ==> self.tx_graph.spec_full_txout_ok(
                        self.chain,
                        #[trigger] full@[p],
                    ),
                forall|p: int|
                    0 <= p < full@.len() ==> crate::graph::spec_entry_matches(
                        self.index.outpoints@,
                        #[trigger] full@[p],
                    ),
                forall|p1: int, p2: int|
                    0 <= p1 < p2 < full@.len() ==> (#[trigger] full@[p1]).outpoint != (
                    #[trigger] full@[p2]).outpoint,
                forall|p: int|
                    0 <= p < r@.len() ==> (self.tx_graph.spec_full_txout_ok(
                        self.chain,
                        #[trigger] r@[p],
                    ) && r@[p].spent_by is None),
                forall|p: int|
                    0 <= p < r@.len() ==> crate::graph::spec_entry_matches(
                        self.index.outpoints@,
                        #[trigger] r@[p],
                    ),
                srcs.len() == r@.len(),
                forall|p: int|
                    0 <= p < r@.len() ==> 0 <= #[trigger] srcs[p] < k && (#[trigger] r@[
                        p
                    ]).outpoint == full@[srcs[p]].outpoint,
                forall|p1: int, p2: int| 0 <= p1 < p2 < srcs.len() ==> srcs[p1] < srcs[p2],
                forall|p: int|
                    0 <= p < k && (#[trigger] full@[p]).spent_by is None ==> exists|q: int|
                        0 <= q < r@.len() && (#[trigger] r@[q]).outpoint == full@[p].outpoint,
            decreases full@.len() - k,
        {
            let f = &full[k];
            if f.spent_by.is_none() {
                let c = copy_full_txout(f);
                let ghost gc = c;
                let ghost pre = r@;
                r.push(c);
                proof {
                    let pre_srcs = srcs;
                    srcs = srcs.push(k as int);
                    lemma_full_txout_views(self.tx_graph, self.chain, full@[k as int], gc);
                    assert(r@[r@.len() - 1].outpoint == full@[k as int].outpoint);
                    assert forall|p: int| 0 <= p < r@.len() implies 0 <= #[trigger] srcs[p] < k + 1
                        && (#[trigger] r@[p]).outpoint == full@[srcs[p]].outpoint by {
                        if p < pre.len() {
                            assert(r@[p] == pre[p]);
                        } else {
                            assert(r@[p] == gc && srcs[p] == k as int);
                        }
                    }
                    assert forall|p1: int, p2: int|
                        0 <= p1 < p2 < srcs.len() implies srcs[p1] < srcs[p2] by {
                        if p2 == srcs.len() - 1 {
                            assert(srcs[p1] == pre_srcs[p1]);
                            assert(pre[p1].outpoint == full@[pre_srcs[p1]].outpoint);
                            assert(pre_srcs[p1] < k as int);
                        }
                    }
                    assert forall|p: int|
                        0 <= p < k + 1 && (#[trigger] full@[p]).spent_by is None implies exists|
                            q: int,
                        |
                            0 <= q < r@.len() && (#[trigger] r@[q]).outpoint == full@[
                                p
                            ].outpoint by {
                        if p == k as int {
                            assert(r@[r@.len() - 1].outpoint == full@[p].outpoint);
                        } else {
                            let q = choose|q: int|
                                0 <= q < pre.len() && (#[trigger] pre[q]).outpoint == full@[
                                    p
                                ].outpoint;
                            assert(r@[q] == pre[q]);
                        }
                    }
                    assert(crate::graph::spec_entry_matches(self.index.outpoints@, gc)) by {
                        let l = choose|l: int|
                            0 <= l < self.index.outpoints@.len() && (
                            #[trigger] self.index.outpoints@[l]).keychain == full@[
                                k as int
                            ].keychain && self.index.outpoints@[l].index == full@[k as int].index
                                && self.index.outpoints@[l].outpoint == full@[k as int].outpoint;
                        assert(self.index.outpoints@[l].keychain == gc.keychain);
                    }
                    assert forall|p: int| 0 <= p < r@.len() implies (
                    self.tx_graph.spec_full_txout_ok(self.chain, #[trigger] r@[p]) && r@[
                        p
                    ].spent_by is None) by {
                        if p < pre.len() {
                            assert(r@[p] == pre[p]);
                        } else {
                            assert(r@[p] == gc);
                        }
                    }
                    assert forall|p: int| 0 <= p < r@.len() implies crate::graph::spec_entry_matches(
                        self.index.outpoints@,
                        #[trigger] r@[p],
                    ) by {
                        if p < pre.len() {
                            assert(r@[p] == pre[p]);
                        } else {
                            assert(r@[p] == gc);
                        }
                    }
                }
            }
            k += 1;
        }
        proof {
            assert forall|k1: int, k2: int|
                0 <= k1 < k2 < r@.len() implies (#[trigger] r@[k1]).outpoint != (
            #[trigger] r@[k2]).outpoint by {
                assert(srcs[k1] < srcs[k2]);
                assert(full@[srcs[k1]].outpoint != full@[srcs[k2]].outpoint);
            }
        }
        r
    }

    /// The canonical transactions, resolving conflicts deterministically.
    pub fn transactions(&self) -> (r: Vec<Tx>)
        requires
            self.wf(),
        ensures
            crate::graph::seq_tx_views(r@) == crate::graph::seq_tx_views(
                self.tx_graph.spec_canonical_seq(self.chain),
            ),
    {
        self.tx_graph.list_canonical_txs(&self.chain)
    }

    /// The wallet balance: every unspent canonical output bucketed by
    /// confirmation and trust (change outputs are trusted while pending,
    /// receive outputs are not).
    pub fn balance(&self) -> (r: Balance)
        requires
            self.wf(),
        ensures
            exists|s: Seq<FullTxOut>|
                {
                    &&& #[trigger] spec_balance(s, self.chain.spec_tip().height) == r
                    &&& forall|k: int|
                        0 <= k < s.len() ==> self.tx_graph.spec_full_txout_ok(
                            self.chain,
                            #[trigger] s[k],
                        )
                    &&& forall|k: int|
                        0 <= k < s.len() ==> crate::graph::spec_entry_matches(
                            self.index.outpoints@,
                            #[trigger] s[k],
                        )
                    &&& forall|k1: int, k2: int|
                        0 <= k1 < k2 < s.len() ==> (#[trigger] s[k1]).outpoint != (
                        #[trigger] s[k2]).outpoint
                    &&& forall|l: int|
                        0 <= l < self.index.outpoints@.len() && self.tx_graph.spec_spendable_at(
                            self.chain,
                            (#[trigger] self.index.outpoints@[l]).outpoint,
                        ) ==> exists|k: int|
                            0 <= k < s.len() && (#[trigger] s[k]).outpoint
                                == self.index.outpoints@[l].outpoint
                },
    {
        let txouts = self.list_indexed_txouts();
        let tip = self.chain.tip();
        let r = balance_of(&txouts, tip.height);
        proof {
            assert(spec_balance(txouts@, self.chain.spec_tip().height) == r);
        }
        r
    }

    /// Reveal the next receive address; the indexer delta is staged. The
    /// returned index was never revealed before.
    pub fn reveal_next_address(&mut self) -> (r: Option<(u32, String)>)
        requires
            old(self).wf(),
        ensures
            final(self).wf(),
            final(self).network == old(self).network,
            final(self).chain == old(self).chain,
            final(self).tx_graph == old(self).tx_graph,
            match r {
                Some((idx, addr)) => {
                    &&& old(self).index.external is Some
                    &&& final(self).index.external is Some
                    &&& idx == (old(self).index.external->Some_0).next_index
                    &&& (final(self).index.external->Some_0).next_index == idx + 1
                    &&& crate::keychain::ks_grows(
                        old(self).index.external->Some_0,
                        final(self).index.external->Some_0,
                    )
                    &&& addr@ == address_str_of(
                        spk_of((old(self).index.external->Some_0).descriptor@, idx)->Some_0,
                        spec_net_tag(old(self).network),
                    )->Some_0
                    &&& final(self).stage.spec_content() == (ChangeSetContent {
                        chain: old(self).stage.spec_content().chain,
                        txs: old(self).stage.spec_content().txs,
                        txouts: old(self).stage.spec_content().txouts,
                        anchors: old(self).stage.spec_content().anchors,
                        last_seen: old(self).stage.spec_content().last_seen,
                        last_revealed: old(self).stage.spec_content().last_revealed.insert(
                            (EXTERNAL_KEYCHAIN, idx),
                        ),
                    })
                },
                None => {
                    ||| old(self).index.external is None
                    ||| {
                        let pre = old(self).index.external->Some_0;
                        ||| pre.next_index == u32::MAX
                        ||| spk_of(pre.descriptor@, pre.next_index) is None
                        ||| address_str_of(
                            spk_of(pre.descriptor@, pre.next_index)->Some_0,
                            spec_net_tag(old(self).network),
                        ) is None
                    }
                },
            },
    {
        match self.index.reveal_next_spk(Keychain(EXTERNAL_KEYCHAIN)) {
            Some(((idx, spk), delta)) => {
                match address_of_spk(&spk, self.network) {
                    Some(addr) => {
                        let mut cs = BdkChangeSet::new();
                        cs.indexer.merge(delta);
                        let ghost pre_stage = self.stage;
                        self.stage.merge(cs);
                        proof {
                            lemma_to_set_empty::<(u32, Option<Hash32>)>();
                            lemma_to_set_empty::<Tx>();
                            lemma_to_set_empty::<(OutPoint, TxOut)>();
                            lemma_to_set_empty::<(Hash32, Anchor)>();
                            lemma_to_set_empty::<(Hash32, u64)>();
                            lemma_to_set_singleton((EXTERNAL_KEYCHAIN, idx));
                            assert(cs.indexer.last_revealed@ =~= seq![(EXTERNAL_KEYCHAIN, idx)]);
                            assert(self.stage.spec_content() =~~= (ChangeSetContent {
                                chain: pre_stage.spec_content().chain,
                                txs: pre_stage.spec_content().txs,
                                txouts: pre_stage.spec_content().txouts,
                                anchors: pre_stage.spec_content().anchors,
                                last_seen: pre_stage.spec_content().last_seen,
                                last_revealed: pre_stage.spec_content().last_revealed.insert(
                                    (EXTERNAL_KEYCHAIN, idx),
                                ),
                            }));
                        }
                        Some((idx, addr))
                    },
                    None => None,
                }
            },
            None => None,
        }
    }

    /// The lowest revealed-but-unused receive address, revealing a new one
    /// only if every revealed address is used; never an address already
    /// marked used. The indexer delta, if any, is staged.
    pub fn next_unused_address(&mut self) -> (r: Option<(u32, String)>)
        requires
            old(self).wf(),
        ensures
            final(self).wf(),
            final(self).network == old(self).network,
            final(self).chain == old(self).chain,
            final(self).tx_graph == old(self).tx_graph,
            match r {
                Some((idx, addr)) => {
                    &&& old(self).index.external is Some
                    &&& final(self).index.external is Some
                    &&& idx == crate::keychain::spec_next_unused_idx(
                        old(self).index.external->Some_0,
                    )
                    &&& idx < (final(self).index.external->Some_0).next_index
                    &&& !((final(self).index.external->Some_0).used@[idx as int])
                    &&& crate::keychain::ks_grows(
                        old(self).index.external->Some_0,
                        final(self).index.external->Some_0,
                    )
                    &&& addr@ == address_str_of(
                        spk_of((final(self).index.external->Some_0).descriptor@, idx)->Some_0,
                        spec_net_tag(old(self).network),
                    )->Some_0
                },
                None => {
                    ||| old(self).index.external is None
                    ||| {
                        let pre = old(self).index.external->Some_0;
                        let ci = crate::keychain::spec_next_unused_idx(pre);
                        ||| (ci == pre.next_index && (pre.next_index == u32::MAX || spk_of(
                            pre.descriptor@,
                            pre.next_index,
                        ) is None))
                        ||| address_str_of(
                            spk_of(pre.descriptor@, ci)->Some_0,
                            spec_net_tag(old(self).network),
                        ) is None
                    }
                },
            },
    {
        match self.index.next_unused_spk(Keychain(EXTERNAL_KEYCHAIN)) {
            Some(((idx, spk), delta)) => {
                match address_of_spk(&spk, self.network) {
                    Some(addr) => {
                        let mut cs = BdkChangeSet::new();
                        cs.indexer.merge(delta);
                        self.stage.merge(cs);
                        Some((idx, addr))
                    },
                    None => None,
                }
            },
            None => None,
        }
    }

    /// The address of the given keychain at an arbitrary index; read-only.
    /// Fails for an unbound keychain or an underivable index (the hardened
    /// range).
    pub fn peek_address(&self, keychain: Keychain, index: u32) -> (r: Option<(u32, String)>)
        requires
            self.wf(),
        ensures
            match r {
                Some((idx, addr)) => {
                    &&& idx == index
                    &&& self.index.spec_state(keychain.0) is Some
                    &&& addr@ == address_str_of(
                        spk_of(
                            (self.index.spec_state(keychain.0)->Some_0).descriptor@,
                            index,
                        )->Some_0,
                        spec_net_tag(self.network),
                    )->Some_0
                },
                None => {
                    ||| self.index.spec_state(keychain.0) is None
                    ||| spk_of(
                        (self.index.spec_state(keychain.0)->Some_0).descriptor@,
                        index,
                    ) is None
                    ||| address_str_of(
                        spk_of(
                            (self.index.spec_state(keychain.0)->Some_0).descriptor@,
                            index,
                        )->Some_0,
                        spec_net_tag(self.network),
                    ) is None
                },
            },
    {
        match self.index.peek_spk(keychain, index) {
            Some(spk) => {
                match address_of_spk(&spk, self.network) {
                    Some(addr) => Some((index, addr)),
                    None => None,
                }
            },
            None => None,
        }
    }

    /// Merge a change set into the stage.
    pub fn stage(&mut self, changeset: BdkChangeSet)
        ensures
            final(self).stage.spec_content() == crate::changeset::spec_merged(
                old(self).stage,
                changeset,
            ),
            final(self).network == old(self).network,
            final(self).chain == old(self).chain,
            final(self).tx_graph == old(self).tx_graph,
            final(self).index == old(self).index,
    {
        self.stage.merge(changeset);
    }

    /// The staged changes, if any.
    pub fn staged(&self) -> (r: Option<&BdkChangeSet>)
        ensures
            match r {
                Some(cs) => *cs == self.stage && !self.stage.spec_is_empty(),
                None => self.stage.spec_is_empty(),
            },
    {
        if self.stage.is_empty() {
            None
        } else {
            Some(&self.stage)
        }
    }

    /// Atomically clear and return the stage, for a persist attempt: after
    /// a successful persist of the result nothing is left, so persisting
    /// again immediately writes nothing.
    pub fn take_staged(&mut self) -> (r: Option<BdkChangeSet>)
        ensures
            final(self).stage.spec_is_empty(),
            final(self).network == old(self).network,
            final(self).chain == old(self).chain,
            final(self).tx_graph == old(self).tx_graph,
            final(self).index == old(self).index,
            match r {
                Some(cs) => cs == old(self).stage && !old(self).stage.spec_is_empty(),
                None => old(self).stage.spec_is_empty() && final(self).stage == old(self).stage,
            },
    {
        if self.stage.is_empty() {
            None
        } else {
            Some(self.stage.take())
        }
    }
}

/// After inserting a transaction and its anchor, the graph has both.
proof fn lemma_graph_gains(pre: TxGraph, post: TxGraph, tx: Tx, anchor: Anchor)
    requires
        post.txs@ == pre.txs@ || post.txs@ == pre.txs@.push(tx),
        post.anchors@ == pre.anchors@ || post.anchors@ == pre.anchors@.push((tx.txid, anchor)),
    ensures
        forall|x: Hash32| pre.spec_has_tx(x) ==> post.spec_has_tx(x),
        forall|e: (Hash32, Anchor)| #[trigger]
            pre.anchors@.contains(e) ==> post.anchors@.contains(e),
    decreases 0int,
{
    assert forall|x: Hash32| pre.spec_has_tx(x) implies post.spec_has_tx(x) by {
        let p = choose|p: int| 0 <= p < pre.txs@.len() && (#[trigger] pre.txs@[p]).txid == x;
        assert(post.txs@[p].txid == x);
    }
    assert forall|e: (Hash32, Anchor)| #[trigger]
        pre.anchors@.contains(e) implies post.anchors@.contains(e) by {
        lemma_anchors_monotone(pre.anchors@, post.anchors@, e);
    }
}

/// Membership in the anchor list survives pushes.
proof fn lemma_anchors_monotone(pre: Seq<(Hash32, Anchor)>, post: Seq<(Hash32, Anchor)>, e: (
    Hash32,
    Anchor,
))
    requires
        pre.contains(e),
        post == pre || exists|x: (Hash32, Anchor)| post == pre.push(x),
    ensures
        post.contains(e),
{
    if post != pre {
        let x = choose|x: (Hash32, Anchor)| post == pre.push(x);
        let p = choose|p: int| 0 <= p < pre.len() && pre[p] == e;
        assert(post[p] == e);
    }
}

/// A transaction relevant to a smaller index stays relevant after the
/// index grows: recorded outpoints are preserved and cached scripts keep
/// their content (both are pinned by the descriptor).
proof fn lemma_relevance_monotone(i0: KeychainIndex, i1: KeychainIndex, t: Tx)
    requires
        i0.wf(),
        i1.wf(),
        slot_grows(i0.external, i1.external),
        slot_grows(i0.internal, i1.internal),
        i0.outpoints@.len() <= i1.outpoints@.len(),
        forall|i: int| 0 <= i < i0.outpoints@.len() ==> i1.outpoints@[i] == i0.outpoints@[i],
        i0.spec_tx_relevant(t),
    ensures
        i1.spec_tx_relevant(t),
{
    if exists|i: int, j: int|
        0 <= i < t.inputs@.len() && 0 <= j < i0.outpoints@.len() && (#[trigger] t.inputs@[i]) == (
        #[trigger] i0.outpoints@[j]).outpoint {
        let (i, j) = choose|i: int, j: int|
            0 <= i < t.inputs@.len() && 0 <= j < i0.outpoints@.len() && (#[trigger] t.inputs@[i])
                == (#[trigger] i0.outpoints@[j]).outpoint;
        assert(i1.outpoints@[j] == i0.outpoints@[j]);
        assert(t.inputs@[i] == i1.outpoints@[j].outpoint);
    } else {
        let v = choose|v: int|
            0 <= v < t.outputs@.len() && i0.spec_some_spk_matches((#[trigger] t.outputs@[v]).spk@);
        let spk = t.outputs@[v].spk@;
        assert(i1.spec_some_spk_matches(spk)) by {
            if i0.external matches Some(s0) && exists|i: int|
                0 <= i < s0.spks@.len() && (#[trigger] s0.spks@[i])@ == spk {
                let s0 = i0.external->Some_0;
                let i = choose|i: int|
                    0 <= i < s0.spks@.len() && (#[trigger] s0.spks@[i])@ == spk;
                let s1 = i1.external->Some_0;
                assert(spk_of(s0.descriptor@, i as u32) == Some(s0.spks@[i]@));
                assert(spk_of(s1.descriptor@, i as u32) == Some(s1.spks@[i]@));
                assert(s1.spks@[i]@ == spk);
            } else {
                let s0 = i0.internal->Some_0;
                let i = choose|i: int|
                    0 <= i < s0.spks@.len() && (#[trigger] s0.spks@[i])@ == spk;
                let s1 = i1.internal->Some_0;
                assert(spk_of(s0.descriptor@, i as u32) == Some(s0.spks@[i]@));
                assert(spk_of(s1.descriptor@, i as u32) == Some(s1.spks@[i]@));
                assert(s1.spks@[i]@ == spk);
            }
        }
    }
}


/// A built transaction with its accounting: the unsigned skeleton, the
/// selection it came from, and the reserved change index if a change
/// output was produced.
#[derive(Clone, Debug)]
pub struct CreatedTx {
    /// The unsigned transaction skeleton.
    pub template: TxTemplate,
    /// Which candidates were selected, their total, the fee and change.
    pub selection: Selection,
    /// The internal derivation index reserved for change, if any.
    pub change_index: Option<u32>,
    /// The candidate set the selection indices refer to.
    pub candidates: Vec<Candidate>,
    /// Set when the destination is itself a recognized wallet script, so
    /// a signer can treat the payment as going back to the wallet.
    pub dest_owned: Option<(u8, u32)>,
}

impl BdkWallet {
    /// A candidate is genuine: some unspent output of the canonical view
    /// has its outpoint, value and owner, and its weight is the fixed input
    /// weight plus exactly the owning script's satisfaction weight.
    pub open spec fn spec_candidate_ok(self, c: Candidate) -> bool {
        &&& exists|f: FullTxOut|
            {
                &&& #[trigger] self.tx_graph.spec_full_txout_ok(self.chain, f)
                &&& f.spent_by is None
                &&& f.outpoint == c.outpoint
                &&& f.value == c.value
                &&& f.keychain == c.keychain
                &&& f.index == c.index
            }
        &&& self.index.spec_state(c.keychain) is Some
        &&& c.weight >= INPUT_FIXED_WU
        &&& satisfaction_wu_of(
            (self.index.spec_state(c.keychain)->Some_0).descriptor@,
            c.index,
        ) == Some((c.weight - INPUT_FIXED_WU) as u64)
    }

    /// An indexed outpoint that selection must consider: unspent under the
    /// canonical view, with a bound descriptor whose satisfaction weight is
    /// available and representable.
    pub open spec fn spec_plannable_entry(self, l: int) -> bool {
        let e = self.index.outpoints@[l];
        &&& self.tx_graph.spec_spendable_at(self.chain, e.outpoint)
        &&& !(exists|x: Hash32| self.tx_graph.spec_spent_by(self.chain, e.outpoint, x))
        &&& self.index.spec_state(e.keychain) is Some
        &&& (satisfaction_wu_of(
            (self.index.spec_state(e.keychain)->Some_0).descriptor@,
            e.index,
        ) matches Some(w) && w <= u64::MAX - INPUT_FIXED_WU)
    }

    /// A candidate list that faithfully reflects the wallet: every entry is
    /// a genuine unspent output, no outpoint appears twice, and every
    /// plannable indexed outpoint appears.
    pub open spec fn spec_candidates_complete(self, cands: Seq<Candidate>) -> bool {
        &&& forall|k: int| 0 <= k < cands.len() ==> self.spec_candidate_ok(#[trigger] cands[k])
        &&& forall|k1: int, k2: int|
            0 <= k1 < k2 < cands.len() ==> (#[trigger] cands[k1]).outpoint != (
            #[trigger] cands[k2]).outpoint
        &&& forall|l: int|
            0 <= l < self.index.outpoints@.len() && #[trigger] self.spec_plannable_entry(l)
                ==> exists|k: int|
                0 <= k < cands.len() && (#[trigger] cands[k]).outpoint
                    == self.index.outpoints@[l].outpoint
    }

    /// A listed txout that the candidate loop keeps.
    pub open spec fn spec_utxo_plannable(self, f: FullTxOut) -> bool {
        &&& f.spent_by is None
        &&& self.index.spec_state(f.keychain) is Some
        &&& (satisfaction_wu_of(
            (self.index.spec_state(f.keychain)->Some_0).descriptor@,
            f.index,
        ) matches Some(w) && w <= u64::MAX - INPUT_FIXED_WU)
    }

    /// The spendable candidates: every unspent canonical wallet output
    /// whose owning descriptor yields a satisfaction-weight plan, each
    /// exactly once. Outputs that cannot be planned are excluded, not
    /// silently spent.
    pub fn spend_candidates(&self) -> (r: Vec<Candidate>)
        requires
            self.wf(),
        ensures
            self.spec_candidates_complete(r@),
    {
        let utxos = self.list_indexed_txouts();
        let mut r: Vec<Candidate> = Vec::new();
        let ghost mut srcs: Seq<int> = Seq::empty();
        let mut k: usize = 0;
        while k < utxos.len()
            invariant
                self.wf(),
                0 <= k <= utxos@.len(),
                forall|p: int|
                    0 <= p < utxos@.len() ==> self.tx_graph.spec_full_txout_ok(
                        self.chain,
                        #[trigger] utxos@[p],
                    ),
                forall|p1: int, p2: int|
                    0 <= p1 < p2 < utxos@.len() ==> (#[trigger] utxos@[p1]).outpoint != (
                    #[trigger] utxos@[p2]).outpoint,
                forall|p: int| 0 <= p < r@.len() ==> self.spec_candidate_ok(#[trigger] r@[p]),
                srcs.len() == r@.len(),
                forall|p: int| 0 <= p < r@.len() ==> 0 <= #[trigger] srcs[p] < k,
                forall|p: int|
                    0 <= p < r@.len() ==> (#[trigger] r@[p]).outpoint == utxos@[srcs[p]].outpoint,
                forall|p1: int, p2: int| 0 <= p1 < p2 < srcs.len() ==> srcs[p1] < srcs[p2],
                forall|p: int|
                    0 <= p < k && self.spec_utxo_plannable(#[trigger] utxos@[p]) ==> exists|q: int|
                        0 <= q < r@.len() && (#[trigger] r@[q]).outpoint == utxos@[p].outpoint,
            decreases utxos@.len() - k,
        {
            let ghost pre_r = r@;
            let f = &utxos[k];
            let mut kept = false;
            if f.spent_by.is_some() {
                proof {
                    assert(!self.spec_utxo_plannable(utxos@[k as int]));
                }
            } else {
                match self.index.descriptor_of(Keychain(f.keychain)) {
                    Some(desc) => {
                        match satisfaction_wu(desc.as_str(), f.index) {
                            Some(wu) => {
                                if wu <= u64::MAX - INPUT_FIXED_WU {
                                    let ghost pre = r@;
                                    r.push(
                                        Candidate {
                                            outpoint: f.outpoint,
                                            value: f.value,
                                            weight: INPUT_FIXED_WU + wu,
                                            keychain: f.keychain,
                                            index: f.index,
                                        },
                                    );
                                    kept = true;
                                    proof {
                                        let pre_srcs = srcs;
                                        srcs = srcs.push(k as int);
                                        assert(self.spec_candidate_ok(r@[r@.len() - 1])) by {
                                            assert(self.tx_graph.spec_full_txout_ok(
                                                self.chain,
                                                utxos@[k as int],
                                            ));
                                        }
                                        assert forall|p: int|
                                            0 <= p < r@.len() implies self.spec_candidate_ok(
                                            #[trigger] r@[p],
                                        ) by {
                                            if p < pre.len() {
                                                assert(r@[p] == pre[p]);
                                            }
                                        }
                                        assert forall|p: int|
                                            0 <= p < r@.len() implies 0 <= #[trigger] srcs[p] < k
                                            + 1 by {
                                            if p < pre.len() {
                                                assert(srcs[p] == pre_srcs[p]);
                                            } else {
                                                assert(srcs[p] == k as int);
                                            }
                                        }
                                        assert forall|p: int|
                                            0 <= p < r@.len() implies (#[trigger] r@[p]).outpoint
                                            == utxos@[srcs[p]].outpoint by {
                                            if p < pre.len() {
                                                assert(r@[p] == pre[p] && srcs[p] == pre_srcs[p]);
                                            } else {
                                                assert(srcs[p] == k as int);
                                            }
                                        }
                                        assert forall|p1: int, p2: int|
                                            0 <= p1 < p2 < srcs.len() implies srcs[p1]
                                            < srcs[p2] by {
                                            if p2 == srcs.len() - 1 {
                                                assert(srcs[p1] == pre_srcs[p1]);
                                                assert(pre[p1].outpoint == utxos@[
                                                    pre_srcs[p1]
                                                ].outpoint);
                                                assert(pre_srcs[p1] < k as int);
                                            }
                                        }
                                    }
                                } else {
                                    proof {
                                        assert(!self.spec_utxo_plannable(utxos@[k as int]));
                                    }
                                }
                            },
                            None => {
                                proof {
                                    assert(!self.spec_utxo_plannable(utxos@[k as int]));
                                }
                            },
                        }
                    },
                    None => {
                        proof {
                            assert(!self.spec_utxo_plannable(utxos@[k as int]));
                        }
                    },
                }
            }
            proof {
                assert forall|p: int|
                    0 <= p < k + 1 && self.spec_utxo_plannable(#[trigger] utxos@[p]) implies exists|
                        q: int,
                    |
                        0 <= q < r@.len() && (#[trigger] r@[q]).outpoint == utxos@[p].outpoint by {
                    if p == k as int {
                        assert(kept);
                        assert(r@[r@.len() - 1].outpoint == utxos@[p].outpoint);
                    } else {
                        let q0 = choose|q0: int|
                            0 <= q0 < pre_r.len() && (#[trigger] pre_r[q0]).outpoint == utxos@[
                                p
                            ].outpoint;
                        assert(r@[q0] == pre_r[q0]);
                    }
                }
            }
            k += 1;
        }
        proof {
            assert forall|k1: int, k2: int|
                0 <= k1 < k2 < r@.len() implies (#[trigger] r@[k1]).outpoint != (
            #[trigger] r@[k2]).outpoint by {
                assert(r@[k1].outpoint == utxos@[srcs[k1]].outpoint);
                assert(r@[k2].outpoint == utxos@[srcs[k2]].outpoint);
                assert(srcs[k1] < srcs[k2]);
                assert(utxos@[srcs[k1]].outpoint != utxos@[srcs[k2]].outpoint);
            }
            // Every plannable indexed outpoint appears: its listed txout is
            // plannable and therefore kept.
            assert forall|l: int|
                0 <= l < self.index.outpoints@.len() && #[trigger] self.spec_plannable_entry(
                    l,
                ) implies exists|k2: int|
                0 <= k2 < r@.len() && (#[trigger] r@[k2]).outpoint
                    == self.index.outpoints@[l].outpoint by {
                let e = self.index.outpoints@[l];
                let q = choose|q: int|
                    0 <= q < utxos@.len() && (#[trigger] utxos@[q]).outpoint == e.outpoint;
                // The listed entry's keychain and index are the ones of the
                // unique indexed entry for this outpoint.
                let p = choose|p: int|
                    0 <= p < self.index.outpoints@.len() && (#[trigger] self.index.outpoints@[
                        p
                    ]).keychain == utxos@[q].keychain && self.index.outpoints@[p].index == utxos@[
                        q
                    ].index && self.index.outpoints@[p].outpoint == utxos@[q].outpoint;
                if p < l {
                    assert(self.index.outpoints@[p].outpoint != self.index.outpoints@[l].outpoint);
                } else if l < p {
                    assert(self.index.outpoints@[l].outpoint != self.index.outpoints@[p].outpoint);
                }
                assert(utxos@[q].keychain == e.keychain && utxos@[q].index == e.index);
                assert(utxos@[q].spent_by is None);
                assert(self.spec_utxo_plannable(utxos@[q]));
            }
        }
        r
    }

    /// Build an unsigned spending transaction from the given candidates:
    /// select inputs covering `amount` plus fee at `feerate`, add a change
    /// output by the no-dust-and-least-waste policy (reserving the next
    /// unused internal script, committed only when change is produced),
    /// and assemble the skeleton with the standard version, the tip height
    /// as locktime, and replace-by-fee sequences. In sweep mode the whole
    /// candidate value, minus fee, goes to the destination.
    pub fn create_psbt_with(
        &mut self,
        candidates: &Vec<Candidate>,
        dest_spk: &Vec<u8>,
        amount: u64,
        feerate: u64,
        longterm_feerate: u64,
        seed: u64,
        sweep: bool,
    ) -> (r: Result<CreatedTx, CreateTxError>)
        requires
            old(self).wf(),
        ensures
            final(self).wf(),
            final(self).network == old(self).network,
            final(self).chain == old(self).chain,
            final(self).tx_graph == old(self).tx_graph,
            r is Err ==> *final(self) == *old(self),
            match r {
                Ok(ct) => {
                    &&& ct.candidates@ == candidates@
                    &&& (ct.dest_owned matches Some((k, i)) ==> (old(self).index.spec_state(k)
                        matches Some(s) && i < s.spks@.len() && s.spks@[i as int]@ == dest_spk@))
                    &&& ct.selection.selected@.no_duplicates()
                    &&& forall|k: int|
                        0 <= k < ct.selection.selected@.len() ==> (
                        #[trigger] ct.selection.selected@[k]) < candidates@.len()
                    &&& ct.selection.total_value == sel_value_sum(
                        candidates@,
                        ct.selection.selected@,
                    )
                    &&& ct.template.version == TX_VERSION
                    &&& ct.template.locktime == old(self).chain.spec_tip().height
                    &&& ct.template.inputs@.len() == ct.selection.selected@.len()
                    &&& forall|k: int|
                        0 <= k < ct.template.inputs@.len() ==> (#[trigger] ct.template.inputs@[k])
                            == (
                        candidates@[ct.selection.selected@[k] as int].outpoint,
                        RBF_SEQUENCE,
                        )
                    &&& ct.template.outputs@.len() >= 1
                    &&& ct.template.outputs@[0].spk@ == dest_spk@
                    &&& if sweep {
                        &&& ct.selection.selected@.len() == candidates@.len()
                        &&& ct.template.outputs@.len() == 1
                        &&& ct.template.outputs@[0].value + ct.selection.fee
                            == ct.selection.total_value
                        &&& ct.template.outputs@[0].value >= DUST_LIMIT
                        &&& ct.change_index is None
                        &&& final(self).index == old(self).index
                        &&& final(self).stage == old(self).stage
                    } else {
                        &&& ct.template.outputs@[0].value == amount
                        &&& match ct.selection.change_value {
                            Some(cv) => {
                                &&& ct.template.outputs@.len() == 2
                                &&& ct.template.outputs@[1].value == cv
                                &&& ct.selection.total_value == amount + ct.selection.fee + cv
                                &&& cv >= DUST_LIMIT
                                &&& ct.change_index is Some
                                &&& final(self).index.internal is Some
                                &&& (ct.change_index->Some_0 as int)
                                    < (final(self).index.internal->Some_0).used@.len()
                                &&& (final(self).index.internal->Some_0).used@[ct.change_index->Some_0 as int]
                                &&& ct.template.outputs@[1].spk@ == spk_of(
                                    (old(self).index.internal->Some_0).descriptor@,
                                    ct.change_index->Some_0,
                                )->Some_0
                            },
                            None => {
                                &&& ct.template.outputs@.len() == 1
                                &&& ct.selection.total_value == amount + ct.selection.fee
                                &&& ct.change_index is None
                                &&& final(self).index == old(self).index
                                &&& final(self).stage == old(self).stage
                            },
                        }
                    }
                    &&& (!sweep ==> ((exists|i: int|
                        #[trigger] crate::select::spec_single_covers(
                            candidates@,
                            amount,
                            feerate,
                            TX_FIXED_WU + spec_output_wu(dest_spk@),
                            i,
                        )) ==> (ct.selection.selected@.len() == 1
                        && crate::select::spec_single_covers(
                        candidates@,
                        amount,
                        feerate,
                        TX_FIXED_WU + spec_output_wu(dest_spk@),
                        ct.selection.selected@[0] as int,
                    ) && forall|j: int|
                        #[trigger] crate::select::spec_single_covers(
                            candidates@,
                            amount,
                            feerate,
                            TX_FIXED_WU + spec_output_wu(dest_spk@),
                            j,
                        ) ==> candidates@[ct.selection.selected@[0] as int].value
                            <= candidates@[j].value)))
                    &&& (ct.change_index matches Some(ci) ==> final(self).stage.spec_content()
                        == (ChangeSetContent {
                        chain: old(self).stage.spec_content().chain,
                        txs: old(self).stage.spec_content().txs,
                        txouts: old(self).stage.spec_content().txouts,
                        anchors: old(self).stage.spec_content().anchors,
                        last_seen: old(self).stage.spec_content().last_seen,
                        last_revealed: old(self).stage.spec_content().last_revealed.insert(
                            (INTERNAL_KEYCHAIN, ci),
                        ),
                    }))
                },
                Err(e) => {
                    &&& (e == CreateTxError::InsufficientFunds && !sweep ==> spec_total_value(
                        candidates@,
                    ) < amount + spec_fee(
                        feerate,
                        TX_FIXED_WU + spec_output_wu(dest_spk@) + spec_total_wu(candidates@),
                    ))
                    &&& (e == CreateTxError::InsufficientFunds && sweep ==> spec_total_value(
                        candidates@,
                    ) < spec_fee(
                        feerate,
                        TX_FIXED_WU + spec_output_wu(dest_spk@) + spec_total_wu(candidates@),
                    ) + DUST_LIMIT)
                    &&& (e == CreateTxError::NoDescriptorForChange ==> old(
                        self,
                    ).index.internal is None)
                    &&& (e == CreateTxError::PlanningFailed ==> old(self).index.internal is Some
                        && {
                        let s = old(self).index.internal->Some_0;
                        let ci = crate::keychain::spec_next_unused_idx(s);
                        ||| (ci == s.next_index && spk_of(s.descriptor@, s.next_index) is None)
                        ||| satisfaction_wu_of(s.descriptor@, ci) is None
                    })
                    &&& (e == CreateTxError::ValueOverflow ==> (dest_spk@.len() > 100000 || (old(
                        self,
                    ).index.internal is Some && {
                        let s = old(self).index.internal->Some_0;
                        let ci = crate::keychain::spec_next_unused_idx(s);
                        let cspk = spk_of(s.descriptor@, ci)->Some_0;
                        let w = satisfaction_wu_of(s.descriptor@, ci)->Some_0;
                        ||| cspk.len() > 100000
                        ||| ci == u32::MAX
                        ||| w > u64::MAX - INPUT_FIXED_WU - 3
                        ||| spec_total_value(candidates@) > u64::MAX
                        ||| spec_total_wu(candidates@) > u64::MAX
                        ||| TX_FIXED_WU + spec_output_wu(dest_spk@) + spec_total_wu(candidates@)
                            + spec_output_wu(cspk) + 3 > u64::MAX
                        ||| amount + spec_total_value(candidates@) + spec_fee(
                            feerate,
                            TX_FIXED_WU + spec_output_wu(dest_spk@) + spec_total_wu(candidates@)
                                + spec_output_wu(cspk),
                        ) + spec_fee(longterm_feerate, INPUT_FIXED_WU + w) + DUST_LIMIT
                            > u64::MAX
                    })))
                },
            },
    {
        let ghost pre = *self;
        // Destination output weight.
        if dest_spk.len() > 100000 {
            return Err(CreateTxError::ValueOverflow);
        }
        let dest_wu: u64 = (9 + dest_spk.len() as u64) * 4;
        let base_wu: u64 = TX_FIXED_WU + dest_wu;
        // A destination the wallet recognizes is tagged for the signer.
        let dest_owned = self.index.index_of_spk(dest_spk);
        // Reserve (peek) the change script; nothing is mutated yet.
        if self.index.descriptor_of(Keychain(INTERNAL_KEYCHAIN)).is_none() {
            return Err(CreateTxError::NoDescriptorForChange);
        }
        let (change_idx, change_spk) = match self.index.peek_next_unused(
            Keychain(INTERNAL_KEYCHAIN),
        ) {
            Some(x) => x,
            None => {
                return Err(CreateTxError::PlanningFailed);
            },
        };
        if change_spk.len() > 100000 || change_idx == u32::MAX {
            return Err(CreateTxError::ValueOverflow);
        }
        let change_out_wu: u64 = (9 + change_spk.len() as u64) * 4;
        let change_spend_wu: u64 = match self.index.descriptor_of(Keychain(INTERNAL_KEYCHAIN)) {
            Some(d) => {
                match satisfaction_wu(d.as_str(), change_idx) {
                    Some(w) => {
                        if w <= u64::MAX - INPUT_FIXED_WU - 3 {
                            INPUT_FIXED_WU + w
                        } else {
                            return Err(CreateTxError::ValueOverflow);
                        }
                    },
                    None => {
                        return Err(CreateTxError::PlanningFailed);
                    },
                }
            },
            None => {
                return Err(CreateTxError::NoDescriptorForChange);
            },
        };
        // Bounds: everything the selection arithmetic touches must fit.
        let ghost cs = candidates@;
        let n = candidates.len();
        let mut tv: u128 = 0;
        let mut tw: u128 = 0;
        let mut i: usize = 0;
        proof {
            crate::select::lemma_total_bounds(cs);
            assert(cs.skip(0) =~= cs);
        }
        while i < n
            invariant
                cs == candidates@,
                n == cs.len(),
                0 <= i <= n,
                tv + spec_total_value(cs.skip(i as int)) == spec_total_value(cs),
                tw + spec_total_wu(cs.skip(i as int)) == spec_total_wu(cs),
                spec_total_value(cs) <= cs.len() * 0xFFFF_FFFF_FFFF_FFFF,
                spec_total_wu(cs) <= cs.len() * 0xFFFF_FFFF_FFFF_FFFF,
                cs.len() <= usize::MAX,
            decreases n - i,
        {
            proof {
                assert(cs.skip(i as int).drop_first() =~= cs.skip(i as int + 1));
                assert(cs.skip(i as int)[0] == cs[i as int]);
                lemma_total_nonneg(cs.skip(i as int + 1));
                lemma_total_nonneg(cs);
                assert(cs.len() * 0xFFFF_FFFF_FFFF_FFFF < 0x1_0000_0000_0000_0000_0000_0000_0000_0000)
                    by (nonlinear_arith)
                    requires
                        cs.len() <= 0xFFFF_FFFF_FFFF_FFFFu64,
                ;
            }
            tv = tv + (candidates[i].value as u128);
            tw = tw + (candidates[i].weight as u128);
            i += 1;
        }
        proof {
            assert(cs.skip(n as int) =~= Seq::<Candidate>::empty());
            lemma_total_nonneg(cs);
        }
        if tv > u64::MAX as u128 || tw > u64::MAX as u128 {
            return Err(CreateTxError::ValueOverflow);
        }
        // The weight bound for all fee computations.
        if (base_wu as u128) + tw + (change_out_wu as u128) + 3 > u64::MAX as u128 {
            return Err(CreateTxError::ValueOverflow);
        }
        let f1 = fee128(feerate, base_wu + (tw as u64) + change_out_wu);
        let f2 = fee128(longterm_feerate, change_spend_wu);
        if (amount as u128) + tv + f1 + f2 + (DUST_LIMIT as u128) > u64::MAX as u128 {
            return Err(CreateTxError::ValueOverflow);
        }
        // Select.
        let sel = match select_coins(
            candidates,
            amount,
            feerate,
            base_wu,
            change_out_wu,
            change_spend_wu,
            longterm_feerate,
            seed,
            sweep,
        ) {
            Ok(s) => s,
            Err(e) => {
                return Err(e);
            },
        };
        // Assemble the skeleton.
        let tip = self.chain.tip();
        let mut inputs: Vec<(OutPoint, u32)> = Vec::new();
        let mut k: usize = 0;
        while k < sel.selected.len()
            invariant
                cs == candidates@,
                0 <= k <= sel.selected@.len(),
                forall|p: int|
                    0 <= p < sel.selected@.len() ==> (#[trigger] sel.selected@[p]) < cs.len(),
                inputs@.len() == k,
                forall|p: int|
                    0 <= p < k ==> (#[trigger] inputs@[p]) == (
                    cs[sel.selected@[p] as int].outpoint,
                    RBF_SEQUENCE,
                    ),
            decreases sel.selected@.len() - k,
        {
            let idx = sel.selected[k];
            inputs.push((candidates[idx].outpoint, RBF_SEQUENCE));
            k += 1;
        }
        let mut outputs: Vec<TxOut> = Vec::new();
        let dest_value: u64 = if sweep {
            sel.total_value - sel.fee
        } else {
            amount
        };
        outputs.push(TxOut { value: dest_value, spk: copy_bytes(dest_spk) });
        let mut change_index: Option<u32> = None;
        let mut stage_delta = IndexerChangeSet::new();
        if !sweep {
            match sel.change_value {
                Some(cv) => {
                    outputs.push(TxOut { value: cv, spk: change_spk });
                    // Commit the reserved change script: reveal up to it and
                    // mark it used; the delta is staged below.
                    match self.index.reveal_to_target(Keychain(INTERNAL_KEYCHAIN), change_idx) {
                        Some(d) => {
                            stage_delta.merge(d);
                        },
                        None => {
                            // The peeked script derives, so revealing up to
                            // its index cannot fail: the cache would have to
                            // stop exactly at the peeked index.
                            proof {
                                let st0 = pre.index.internal->Some_0;
                                let st1 = self.index.spec_state(INTERNAL_KEYCHAIN)->Some_0;
                                assert(st1.next_index <= change_idx);
                                assert(st1.spks@.len() >= st0.spks@.len());
                                assert(st0.spks@.len() >= st0.next_index);
                                assert(change_idx <= st0.next_index);
                                assert(st1.spks@.len() == change_idx);
                                assert(spk_of(st1.descriptor@, change_idx) is None);
                                assert(st1.descriptor@ == st0.descriptor@);
                                assert(spk_of(st0.descriptor@, change_idx) is Some);
                                assert(false);
                            }
                        },
                    }
                    let marked = self.index.mark_used(Keychain(INTERNAL_KEYCHAIN), change_idx);
                    proof {
                        assert(marked);
                    }
                    change_index = Some(change_idx);
                    let mut cset = BdkChangeSet::new();
                    let mut d2 = IndexerChangeSet::new();
                    core::mem::swap(&mut d2, &mut stage_delta);
                    cset.indexer.merge(d2);
                    let ghost pre_stage = self.stage;
                    self.stage.merge(cset);
                    proof {
                        lemma_to_set_empty::<(u32, Option<Hash32>)>();
                        lemma_to_set_empty::<Tx>();
                        lemma_to_set_empty::<(OutPoint, crate::types::TxOut)>();
                        lemma_to_set_empty::<(Hash32, Anchor)>();
                        lemma_to_set_empty::<(Hash32, u64)>();
                        lemma_to_set_singleton((INTERNAL_KEYCHAIN, change_idx));
                        assert(cset.indexer.last_revealed@ =~= seq![
                            (INTERNAL_KEYCHAIN, change_idx),
                        ]);
                        assert(self.stage.spec_content() =~~= (ChangeSetContent {
                            chain: pre_stage.spec_content().chain,
                            txs: pre_stage.spec_content().txs,
                            txouts: pre_stage.spec_content().txouts,
                            anchors: pre_stage.spec_content().anchors,
                            last_seen: pre_stage.spec_content().last_seen,
                            last_revealed: pre_stage.spec_content().last_revealed.insert(
                                (INTERNAL_KEYCHAIN, change_idx),
                            ),
                        }));
                    }
                },
                None => {},
            }
        }
        proof {
            assert(outputs@[0].spk@ == dest_spk@);
        }
        Ok(
            CreatedTx {
                template: TxTemplate {
                    version: TX_VERSION,
                    locktime: tip.height,
                    inputs,
                    outputs,
                },
                selection: sel,
                change_index,
                candidates: copy_candidates(candidates),
                dest_owned,
            },
        )
    }

    /// Build an unsigned spending transaction from the wallet's own
    /// spendable candidates. See [`Self::create_psbt_with`]; the candidate
    /// set used is returned in the result, and each of its entries is a
    /// genuine unspent canonical output of this wallet.
    pub fn create_psbt(
        &mut self,
        dest_spk: &Vec<u8>,
        amount: u64,
        feerate: u64,
        longterm_feerate: u64,
        seed: u64,
        sweep: bool,
    ) -> (r: Result<CreatedTx, CreateTxError>)
        requires
            old(self).wf(),
        ensures
            final(self).wf(),
            final(self).network == old(self).network,
            final(self).chain == old(self).chain,
            final(self).tx_graph == old(self).tx_graph,
            r is Err ==> *final(self) == *old(self),
            match r {
                Ok(ct) => {
                    &&& forall|k: int|
                        0 <= k < ct.candidates@.len() ==> old(self).spec_candidate_ok(
                            #[trigger] ct.candidates@[k],
                        )
                    &&& ct.selection.selected@.no_duplicates()
                    &&& forall|k: int|
                        0 <= k < ct.selection.selected@.len() ==> (
                        #[trigger] ct.selection.selected@[k]) < ct.candidates@.len()
                    &&& ct.selection.total_value == sel_value_sum(
                        ct.candidates@,
                        ct.selection.selected@,
                    )
                    &&& ct.template.version == TX_VERSION
                    &&& ct.template.locktime == old(self).chain.spec_tip().height
                    &&& ct.template.inputs@.len() == ct.selection.selected@.len()
                    &&& forall|k: int|
                        0 <= k < ct.template.inputs@.len() ==> (#[trigger] ct.template.inputs@[k])
                            == (
                        ct.candidates@[ct.selection.selected@[k] as int].outpoint,
                        RBF_SEQUENCE,
                        )
                    &&& ct.template.outputs@.len() >= 1
                    &&& ct.template.outputs@[0].spk@ == dest_spk@
                    &&& if sweep {
                        &&& ct.selection.selected@.len() == ct.candidates@.len()
                        &&& ct.template.outputs@.len() == 1
                        &&& ct.template.outputs@[0].value + ct.selection.fee
                            == ct.selection.total_value
                        &&& final(self).index == old(self).index
                        &&& final(self).stage == old(self).stage
                    } else {
                        &&& ct.template.outputs@[0].value == amount
                        &&& ((exists|i: int|
                            #[trigger] crate::select::spec_single_covers(
                                ct.candidates@,
                                amount,
                                feerate,
                                TX_FIXED_WU + spec_output_wu(dest_spk@),
                                i,
                            )) ==> (ct.selection.selected@.len() == 1
                            && crate::select::spec_single_covers(
                            ct.candidates@,
                            amount,
                            feerate,
                            TX_FIXED_WU + spec_output_wu(dest_spk@),
                            ct.selection.selected@[0] as int,
                        )))
                        &&& match ct.selection.change_value {
                            Some(cv) => {
                                &&& ct.template.outputs@.len() == 2
                                &&& ct.template.outputs@[1].value == cv
                                &&& ct.selection.total_value == amount + ct.selection.fee + cv
                                &&& cv >= DUST_LIMIT
                                &&& ct.change_index is Some
                                &&& final(self).index.internal is Some
                                &&& (ct.change_index->Some_0 as int)
                                    < (final(self).index.internal->Some_0).used@.len()
                                &&& (final(self).index.internal->Some_0).used@[ct.change_index->Some_0 as int]
                                &&& final(self).stage.spec_content() == (ChangeSetContent {
                                    chain: old(self).stage.spec_content().chain,
                                    txs: old(self).stage.spec_content().txs,
                                    txouts: old(self).stage.spec_content().txouts,
                                    anchors: old(self).stage.spec_content().anchors,
                                    last_seen: old(self).stage.spec_content().last_seen,
                                    last_revealed: old(self).stage.spec_content(
                                    ).last_revealed.insert(
                                        (INTERNAL_KEYCHAIN, ct.change_index->Some_0),
                                    ),
                                })
                            },
                            None => {
                                &&& ct.template.outputs@.len() == 1
                                &&& ct.selection.total_value == amount + ct.selection.fee
                                &&& final(self).index == old(self).index
                                &&& final(self).stage == old(self).stage
                            },
                        }
                    }
                },
                Err(e) => {
                    &&& (e == CreateTxError::InsufficientFunds ==> exists|cands: Seq<Candidate>|
                        {
                            &&& #[trigger] old(self).spec_candidates_complete(cands)
                            &&& if sweep {
                                spec_total_value(cands) < spec_fee(
                                    feerate,
                                    TX_FIXED_WU + spec_output_wu(dest_spk@) + spec_total_wu(
                                        cands,
                                    ),
                                ) + DUST_LIMIT
                            } else {
                                spec_total_value(cands) < amount + spec_fee(
                                    feerate,
                                    TX_FIXED_WU + spec_output_wu(dest_spk@) + spec_total_wu(
                                        cands,
                                    ),
                                )
                            }
                        })
                    &&& (e == CreateTxError::NoDescriptorForChange ==> old(
                        self,
                    ).index.internal is None)
                    &&& (e == CreateTxError::PlanningFailed ==> old(self).index.internal is Some
                        && {
                        let s = old(self).index.internal->Some_0;
                        let ci = crate::keychain::spec_next_unused_idx(s);
                        ||| (ci == s.next_index && spk_of(s.descriptor@, s.next_index) is None)
                        ||| satisfaction_wu_of(s.descriptor@, ci) is None
                    })
                    &&& (e == CreateTxError::ValueOverflow ==> (dest_spk@.len() > 100000 || (old(
                        self,
                    ).index.internal is Some && exists|cands: Seq<Candidate>|
                        {
                            &&& #[trigger] old(self).spec_candidates_complete(cands)
                            &&& {
                                let s = old(self).index.internal->Some_0;
                                let ci = crate::keychain::spec_next_unused_idx(s);
                                let cspk = spk_of(s.descriptor@, ci)->Some_0;
                                let w = satisfaction_wu_of(s.descriptor@, ci)->Some_0;
                                ||| cspk.len() > 100000
                                ||| ci == u32::MAX
                                ||| w > u64::MAX - INPUT_FIXED_WU - 3
                                ||| spec_total_value(cands) > u64::MAX
                                ||| spec_total_wu(cands) > u64::MAX
                                ||| TX_FIXED_WU + spec_output_wu(dest_spk@) + spec_total_wu(
                                    cands,
                                ) + spec_output_wu(cspk) + 3 > u64::MAX
                                ||| amount + spec_total_value(cands) + spec_fee(
                                    feerate,
                                    TX_FIXED_WU + spec_output_wu(dest_spk@) + spec_total_wu(
                                        cands,
                                    ) + spec_output_wu(cspk),
                                ) + spec_fee(longterm_feerate, INPUT_FIXED_WU + w) + DUST_LIMIT
                                    > u64::MAX
                            }
                        })))
                },
            },
    {
        let candidates = self.spend_candidates();
        let ghost gc = candidates@;
        let r = self.create_psbt_with(
            &candidates,
            dest_spk,
            amount,
            feerate,
            longterm_feerate,
            seed,
            sweep,
        );
        proof {
            if r is Err {
                assert(old(self).spec_candidates_complete(gc));
            }
        }
        r
    }
}

/// An exact copy of a candidate list.
fn copy_candidates(c: &Vec<Candidate>) -> (r: Vec<Candidate>)
    ensures
        r@ == c@,
{
    let mut r: Vec<Candidate> = Vec::new();
    let mut i: usize = 0;
    while i < c.len()
        invariant
            0 <= i <= c@.len(),
            r@ == c@.take(i as int),
        decreases c@.len() - i,
    {
        r.push(c[i]);
        proof {
            assert(r@ =~= c@.take(i as int + 1));
        }
        i += 1;
    }
    proof {
        assert(c@.take(c@.len() as int) =~= c@);
    }
    r
}


impl BdkWallet {
    /// Index the transactions and floating outputs of a graph delta and
    /// stage the resulting indexer changes. This rediscovers the set of
    /// indexed outputs the wallet controls, at load time or after an
    /// update: every output paying to a script the index recognizes is
    /// recorded and marked used.
    pub fn index_tx_graph_changeset(&mut self, tx_graph: &GraphChangeSet)
        requires
            old(self).wf(),
        ensures
            final(self).wf(),
            final(self).network == old(self).network,
            final(self).chain == old(self).chain,
            final(self).tx_graph == old(self).tx_graph,
            slot_grows(old(self).index.external, final(self).index.external),
            slot_grows(old(self).index.internal, final(self).index.internal),
            old(self).index.outpoints@.len() <= final(self).index.outpoints@.len(),
            forall|i: int|
                0 <= i < old(self).index.outpoints@.len() ==> final(self).index.outpoints@[i]
                    == old(self).index.outpoints@[i],
            // Every delta output paying to a script the old cache
            // recognizes gets its outpoint recorded and its index marked.
            forall|t: int, v: int|
                0 <= t < tx_graph.txs@.len() && 0 <= v < (
                #[trigger] tx_graph.txs@[t]).outputs@.len() && old(
                    self,
                ).index.spec_some_spk_matches(
                    (#[trigger] tx_graph.txs@[t].outputs@[v]).spk@,
                ) ==> (final(self).index.spec_outpoint_recorded(
                    OutPoint { txid: tx_graph.txs@[t].txid, vout: v as u32 },
                ) && final(self).index.spec_spk_marked_used(tx_graph.txs@[t].outputs@[v].spk@)),
            forall|e: int|
                0 <= e < tx_graph.txouts@.len() && old(self).index.spec_some_spk_matches(
                    (#[trigger] tx_graph.txouts@[e]).1.spk@,
                ) ==> (final(self).index.spec_outpoint_recorded(tx_graph.txouts@[e].0)
                    && final(self).index.spec_spk_marked_used(tx_graph.txouts@[e].1.spk@)),
            // Only indexer facts are staged, each pointing at a revealed
            // index.
            final(self).stage.spec_content().chain == old(self).stage.spec_content().chain,
            final(self).stage.spec_content().txs == old(self).stage.spec_content().txs,
            final(self).stage.spec_content().txouts == old(self).stage.spec_content().txouts,
            final(self).stage.spec_content().anchors == old(self).stage.spec_content().anchors,
            final(self).stage.spec_content().last_seen
                == old(self).stage.spec_content().last_seen,
            old(self).stage.spec_content().last_revealed.subset_of(
                final(self).stage.spec_content().last_revealed,
            ),
            forall|f: (u8, u32)| #[trigger]
                final(self).stage.spec_content().last_revealed.contains(f)
                    ==> (old(self).stage.spec_content().last_revealed.contains(f)
                    || (final(self).index.spec_state(f.0) is Some && f.1
                    < (final(self).index.spec_state(f.0)->Some_0).next_index)),
    {
        broadcast use vstd::seq_lib::group_seq_properties;

        let ghost g0 = *self;
        let mut cs = BdkChangeSet::new();
        let mut k: usize = 0;
        while k < tx_graph.txs.len()
            invariant
                self.wf(),
                g0.wf(),
                0 <= k <= tx_graph.txs@.len(),
                self.network == g0.network,
                self.chain == g0.chain,
                self.tx_graph == g0.tx_graph,
                self.stage == g0.stage,
                slot_grows(g0.index.external, self.index.external),
                slot_grows(g0.index.internal, self.index.internal),
                g0.index.outpoints@.len() <= self.index.outpoints@.len(),
                forall|i: int|
                    0 <= i < g0.index.outpoints@.len() ==> self.index.outpoints@[i]
                        == g0.index.outpoints@[i],
                cs.chain.blocks@.len() == 0,
                cs.tx_graph.txs@.len() == 0,
                cs.tx_graph.txouts@.len() == 0,
                cs.tx_graph.anchors@.len() == 0,
                cs.tx_graph.last_seen@.len() == 0,
                forall|f: int|
                    0 <= f < cs.indexer.last_revealed@.len() ==> {
                        let e = #[trigger] cs.indexer.last_revealed@[f];
                        self.index.spec_state(e.0) is Some && e.1 < (self.index.spec_state(
                            e.0,
                        )->Some_0).next_index
                    },
                forall|t: int, v: int|
                    0 <= t < k && 0 <= v < (#[trigger] tx_graph.txs@[t]).outputs@.len()
                        && g0.index.spec_some_spk_matches(
                        (#[trigger] tx_graph.txs@[t].outputs@[v]).spk@,
                    ) ==> (self.index.spec_outpoint_recorded(
                        OutPoint { txid: tx_graph.txs@[t].txid, vout: v as u32 },
                    ) && self.index.spec_spk_marked_used(tx_graph.txs@[t].outputs@[v].spk@)),
            decreases tx_graph.txs@.len() - k,
        {
            let ghost mid = *self;
            let ghost cs0 = cs;
            let d = self.index.index_tx(&tx_graph.txs[k]);
            cs.indexer.merge(d);
            proof {
                crate::keychain::lemma_slot_grows_trans(
                    g0.index.external,
                    mid.index.external,
                    self.index.external,
                );
                crate::keychain::lemma_slot_grows_trans(
                    g0.index.internal,
                    mid.index.internal,
                    self.index.internal,
                );
                lemma_index_effects_persist(g0.index, mid.index, self.index, tx_graph.txs@, k as int);
                lemma_cs_facts_persist(cs0.indexer.last_revealed@, d.last_revealed@, cs.indexer.last_revealed@, mid.index, self.index);
                // This transaction's recognized outputs are now recorded.
                assert forall|v: int|
                    0 <= v < tx_graph.txs@[k as int].outputs@.len()
                        && g0.index.spec_some_spk_matches(
                        (#[trigger] tx_graph.txs@[k as int].outputs@[v]).spk@,
                    ) implies (self.index.spec_outpoint_recorded(
                    OutPoint { txid: tx_graph.txs@[k as int].txid, vout: v as u32 },
                ) && self.index.spec_spk_marked_used(
                    tx_graph.txs@[k as int].outputs@[v].spk@,
                )) by {
                    crate::keychain::lemma_match_monotone(
                        g0.index,
                        mid.index,
                        tx_graph.txs@[k as int].outputs@[v].spk@,
                    );
                }
            }
            k += 1;
        }
        let ghost after_txs = *self;
        let mut k: usize = 0;
        while k < tx_graph.txouts.len()
            invariant
                self.wf(),
                g0.wf(),
                after_txs.wf(),
                0 <= k <= tx_graph.txouts@.len(),
                self.network == g0.network,
                self.chain == g0.chain,
                self.tx_graph == g0.tx_graph,
                self.stage == g0.stage,
                slot_grows(g0.index.external, self.index.external),
                slot_grows(g0.index.internal, self.index.internal),
                slot_grows(after_txs.index.external, self.index.external),
                slot_grows(after_txs.index.internal, self.index.internal),
                g0.index.outpoints@.len() <= self.index.outpoints@.len(),
                forall|i: int|
                    0 <= i < g0.index.outpoints@.len() ==> self.index.outpoints@[i]
                        == g0.index.outpoints@[i],
                after_txs.index.outpoints@.len() <= self.index.outpoints@.len(),
                forall|i: int|
                    0 <= i < after_txs.index.outpoints@.len() ==> self.index.outpoints@[i]
                        == after_txs.index.outpoints@[i],
                cs.chain.blocks@.len() == 0,
                cs.tx_graph.txs@.len() == 0,
                cs.tx_graph.txouts@.len() == 0,
                cs.tx_graph.anchors@.len() == 0,
                cs.tx_graph.last_seen@.len() == 0,
                forall|f: int|
                    0 <= f < cs.indexer.last_revealed@.len() ==> {
                        let e = #[trigger] cs.indexer.last_revealed@[f];
                        self.index.spec_state(e.0) is Some && e.1 < (self.index.spec_state(
                            e.0,
                        )->Some_0).next_index
                    },
                forall|t: int, v: int|
                    0 <= t < tx_graph.txs@.len() && 0 <= v < (
                    #[trigger] tx_graph.txs@[t]).outputs@.len()
                        && g0.index.spec_some_spk_matches(
                        (#[trigger] tx_graph.txs@[t].outputs@[v]).spk@,
                    ) ==> (after_txs.index.spec_outpoint_recorded(
                        OutPoint { txid: tx_graph.txs@[t].txid, vout: v as u32 },
                    ) && after_txs.index.spec_spk_marked_used(
                        tx_graph.txs@[t].outputs@[v].spk@,
                    )),
                forall|e: int|
                    0 <= e < k && g0.index.spec_some_spk_matches(
                        (#[trigger] tx_graph.txouts@[e]).1.spk@,
                    ) ==> (self.index.spec_outpoint_recorded(tx_graph.txouts@[e].0)
                        && self.index.spec_spk_marked_used(tx_graph.txouts@[e].1.spk@)),
            decreases tx_graph.txouts@.len() - k,
        {
            let ghost mid = *self;
            let ghost cs0 = cs;
            let e = &tx_graph.txouts[k];
            let d = self.index.index_txout(e.0, &e.1);
            cs.indexer.merge(d);
            proof {
                crate::keychain::lemma_slot_grows_trans(
                    g0.index.external,
                    mid.index.external,
                    self.index.external,
                );
                crate::keychain::lemma_slot_grows_trans(
                    g0.index.internal,
                    mid.index.internal,
                    self.index.internal,
                );
                crate::keychain::lemma_slot_grows_trans(
                    after_txs.index.external,
                    mid.index.external,
                    self.index.external,
                );
                crate::keychain::lemma_slot_grows_trans(
                    after_txs.index.internal,
                    mid.index.internal,
                    self.index.internal,
                );
                lemma_txout_effects_persist(g0.index, mid.index, self.index, tx_graph.txouts@, k as int);
                lemma_cs_facts_persist(cs0.indexer.last_revealed@, d.last_revealed@, cs.indexer.last_revealed@, mid.index, self.index);
                if g0.index.spec_some_spk_matches(tx_graph.txouts@[k as int].1.spk@) {
                    crate::keychain::lemma_match_monotone(
                        g0.index,
                        mid.index,
                        tx_graph.txouts@[k as int].1.spk@,
                    );
                }
            }
            k += 1;
        }
        proof {
            // The recorded and marked facts from the first pass persist.
            assert forall|t: int, v: int|
                0 <= t < tx_graph.txs@.len() && 0 <= v < (
                #[trigger] tx_graph.txs@[t]).outputs@.len() && g0.index.spec_some_spk_matches(
                    (#[trigger] tx_graph.txs@[t].outputs@[v]).spk@,
                ) implies (self.index.spec_outpoint_recorded(
                OutPoint { txid: tx_graph.txs@[t].txid, vout: v as u32 },
            ) && self.index.spec_spk_marked_used(tx_graph.txs@[t].outputs@[v].spk@)) by {
                let op = OutPoint { txid: tx_graph.txs@[t].txid, vout: v as u32 };
                let j = choose|j: int|
                    0 <= j < after_txs.index.outpoints@.len() && (
                    #[trigger] after_txs.index.outpoints@[j]).outpoint == op;
                assert(self.index.outpoints@[j] == after_txs.index.outpoints@[j]);
                crate::keychain::lemma_index_marks_monotone(
                    after_txs.index,
                    self.index,
                    tx_graph.txs@[t].outputs@[v].spk@,
                );
            }
        }
        let ghost gcs = cs;
        let ghost pre_stage = self.stage;
        self.stage.merge(cs);
        proof {
            crate::changeset::lemma_to_set_empty::<(u32, Option<Hash32>)>();
            crate::changeset::lemma_to_set_empty::<Tx>();
            crate::changeset::lemma_to_set_empty::<(OutPoint, TxOut)>();
            crate::changeset::lemma_to_set_empty::<(Hash32, Anchor)>();
            crate::changeset::lemma_to_set_empty::<(Hash32, u64)>();
            assert(gcs.chain.blocks@ =~= Seq::<(u32, Option<Hash32>)>::empty());
            assert(gcs.tx_graph.txs@ =~= Seq::<Tx>::empty());
            assert(gcs.tx_graph.txouts@ =~= Seq::<(OutPoint, TxOut)>::empty());
            assert(gcs.tx_graph.anchors@ =~= Seq::<(Hash32, Anchor)>::empty());
            assert(gcs.tx_graph.last_seen@ =~= Seq::<(Hash32, u64)>::empty());
            assert(self.stage.spec_content().chain =~= pre_stage.spec_content().chain);
            assert(self.stage.spec_content().txs =~= pre_stage.spec_content().txs);
            assert(self.stage.spec_content().txouts =~= pre_stage.spec_content().txouts);
            assert(self.stage.spec_content().anchors =~= pre_stage.spec_content().anchors);
            assert(self.stage.spec_content().last_seen =~= pre_stage.spec_content().last_seen);
            assert forall|f: (u8, u32)| #[trigger]
                self.stage.spec_content().last_revealed.contains(f) implies (
            pre_stage.spec_content().last_revealed.contains(f) || (self.index.spec_state(
                f.0,
            ) is Some && f.1 < (self.index.spec_state(f.0)->Some_0).next_index)) by {
                if !pre_stage.spec_content().last_revealed.contains(f) {
                    assert(gcs.indexer.last_revealed@.contains(f));
                    let i = choose|i: int|
                        0 <= i < gcs.indexer.last_revealed@.len() && gcs.indexer.last_revealed@[i]
                            == f;
                }
            }
        }
    }
}


/// A deep copy of a full txout, equal in content.
fn copy_full_txout(f: &FullTxOut) -> (r: FullTxOut)
    ensures
        r.keychain == f.keychain,
        r.index == f.index,
        r.outpoint == f.outpoint,
        r.value == f.value,
        r.spk@ == f.spk@,
        r.is_coinbase == f.is_coinbase,
        r.spent_by == f.spent_by,
        r.anchor == f.anchor,
{
    FullTxOut {
        keychain: f.keychain,
        index: f.index,
        outpoint: f.outpoint,
        value: f.value,
        spk: copy_bytes(&f.spk),
        is_coinbase: f.is_coinbase,
        spent_by: f.spent_by,
        anchor: f.anchor,
    }
}

/// Whether a txout is genuine depends only on its content, not on which
/// allocation holds its script bytes.
proof fn lemma_full_txout_views(g: TxGraph, chain: LocalChain, a: FullTxOut, b: FullTxOut)
    requires
        g.spec_full_txout_ok(chain, a),
        b.keychain == a.keychain,
        b.index == a.index,
        b.outpoint == a.outpoint,
        b.value == a.value,
        b.spk@ == a.spk@,
        b.is_coinbase == a.is_coinbase,
        b.spent_by == a.spent_by,
        b.anchor == a.anchor,
    ensures
        g.spec_full_txout_ok(chain, b),
{
    let k = choose|k: int|
        0 <= k < g.txs@.len() && (#[trigger] g.txs@[k]).txid == a.outpoint.txid
            && g.spec_canonical(chain, g.txs@[k]) && a.outpoint.vout < g.txs@[k].outputs@.len()
            && crate::types::txout_view(g.txs@[k].outputs@[a.outpoint.vout as int])
            == (crate::types::TxOutV { value: a.value, spk: a.spk@ }) && g.txs@[k].is_coinbase
            == a.is_coinbase;
    assert(g.txs@[k].txid == b.outpoint.txid);
}


/// Outpoint recordings and marks persist as the index grows.
proof fn lemma_index_effects_persist(
    g0: KeychainIndex,
    pre: KeychainIndex,
    post: KeychainIndex,
    txs: Seq<Tx>,
    k: int,
)
    requires
        g0.wf(),
        pre.wf(),
        post.wf(),
        slot_grows(pre.external, post.external),
        slot_grows(pre.internal, post.internal),
        pre.outpoints@.len() <= post.outpoints@.len(),
        forall|i: int| 0 <= i < pre.outpoints@.len() ==> post.outpoints@[i] == pre.outpoints@[i],
        forall|t: int, v: int|
            0 <= t < k && 0 <= v < (#[trigger] txs[t]).outputs@.len()
                && g0.spec_some_spk_matches((#[trigger] txs[t].outputs@[v]).spk@) ==> (
            pre.spec_outpoint_recorded(OutPoint { txid: txs[t].txid, vout: v as u32 })
                && pre.spec_spk_marked_used(txs[t].outputs@[v].spk@)),
    ensures
        forall|t: int, v: int|
            0 <= t < k && 0 <= v < (#[trigger] txs[t]).outputs@.len()
                && g0.spec_some_spk_matches((#[trigger] txs[t].outputs@[v]).spk@) ==> (
            post.spec_outpoint_recorded(OutPoint { txid: txs[t].txid, vout: v as u32 })
                && post.spec_spk_marked_used(txs[t].outputs@[v].spk@)),
{
    assert forall|t: int, v: int|
        0 <= t < k && 0 <= v < (#[trigger] txs[t]).outputs@.len() && g0.spec_some_spk_matches(
            (#[trigger] txs[t].outputs@[v]).spk@,
        ) implies (post.spec_outpoint_recorded(OutPoint { txid: txs[t].txid, vout: v as u32 })
        && post.spec_spk_marked_used(txs[t].outputs@[v].spk@)) by {
        let op = OutPoint { txid: txs[t].txid, vout: v as u32 };
        let j = choose|j: int|
            0 <= j < pre.outpoints@.len() && (#[trigger] pre.outpoints@[j]).outpoint == op;
        assert(post.outpoints@[j] == pre.outpoints@[j]);
        crate::keychain::lemma_index_marks_monotone(pre, post, txs[t].outputs@[v].spk@);
    }
}

/// Same persistence for processed floating outputs.
proof fn lemma_txout_effects_persist(
    g0: KeychainIndex,
    pre: KeychainIndex,
    post: KeychainIndex,
    txouts: Seq<(OutPoint, TxOut)>,
    k: int,
)
    requires
        g0.wf(),
        pre.wf(),
        post.wf(),
        slot_grows(pre.external, post.external),
        slot_grows(pre.internal, post.internal),
        pre.outpoints@.len() <= post.outpoints@.len(),
        forall|i: int| 0 <= i < pre.outpoints@.len() ==> post.outpoints@[i] == pre.outpoints@[i],
        forall|e: int|
            0 <= e < k && g0.spec_some_spk_matches((#[trigger] txouts[e]).1.spk@) ==> (
            pre.spec_outpoint_recorded(txouts[e].0) && pre.spec_spk_marked_used(
                txouts[e].1.spk@,
            )),
    ensures
        forall|e: int|
            0 <= e < k && g0.spec_some_spk_matches((#[trigger] txouts[e]).1.spk@) ==> (
            post.spec_outpoint_recorded(txouts[e].0) && post.spec_spk_marked_used(
                txouts[e].1.spk@,
            )),
{
    assert forall|e: int|
        0 <= e < k && g0.spec_some_spk_matches((#[trigger] txouts[e]).1.spk@) implies (
    post.spec_outpoint_recorded(txouts[e].0) && post.spec_spk_marked_used(
        txouts[e].1.spk@,
    )) by {
        let j = choose|j: int|
            0 <= j < pre.outpoints@.len() && (#[trigger] pre.outpoints@[j]).outpoint == txouts[
                e
            ].0;
        assert(post.outpoints@[j] == pre.outpoints@[j]);
        crate::keychain::lemma_index_marks_monotone(pre, post, txouts[e].1.spk@);
    }
}

/// Staged reveal facts stay sound as the index grows.
proof fn lemma_cs_facts_persist(
    pre_facts: Seq<(u8, u32)>,
    new_facts: Seq<(u8, u32)>,
    post_facts: Seq<(u8, u32)>,
    pre: KeychainIndex,
    post: KeychainIndex,
)
    requires
        post_facts == pre_facts + new_facts,
        slot_grows(pre.external, post.external),
        slot_grows(pre.internal, post.internal),
        forall|f: int|
            0 <= f < pre_facts.len() ==> {
                let e = #[trigger] pre_facts[f];
                pre.spec_state(e.0) is Some && e.1 < (pre.spec_state(e.0)->Some_0).next_index
            },
        forall|f: int|
            0 <= f < new_facts.len() ==> {
                let e = #[trigger] new_facts[f];
                post.spec_state(e.0) is Some && e.1 < (post.spec_state(e.0)->Some_0).next_index
            },
    ensures
        forall|f: int|
            0 <= f < post_facts.len() ==> {
                let e = #[trigger] post_facts[f];
                post.spec_state(e.0) is Some && e.1 < (post.spec_state(e.0)->Some_0).next_index
            },
{
    assert forall|f: int| 0 <= f < post_facts.len() implies {
        let e = #[trigger] post_facts[f];
        post.spec_state(e.0) is Some && e.1 < (post.spec_state(e.0)->Some_0).next_index
    } by {
        let e = post_facts[f];
        if f < pre_facts.len() {
            assert(e == pre_facts[f]);
            crate::keychain::lemma_state_any_slot(pre, post, e.0);
        } else {
            assert(e == new_facts[f - pre_facts.len()]);
        }
    }
}

} // verus!
