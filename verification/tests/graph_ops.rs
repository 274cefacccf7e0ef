//! Canonicalization and balance accounting on the transaction graph.

use loon::chain::LocalChain;
use loon::graph::{balance_of, FullTxOut, IndexedOutPoint, TxGraph};
use loon::types::{Anchor, BlockId, Hash32, OutPoint, Tx, TxOut};

fn h(lo: u128) -> Hash32 {
    Hash32 { hi: 0, lo }
}

fn b(height: u32, lo: u128) -> BlockId {
    BlockId { height, hash: h(lo) }
}

fn spk(tag: u8) -> Vec<u8> {
    vec![0x00, 0x14, tag]
}

fn tx(txid: u128, spends: &[(u128, u32)], outs: &[(u64, u8)]) -> Tx {
    Tx {
        txid: h(txid),
        is_coinbase: false,
        inputs: spends.iter().map(|&(t, v)| OutPoint { txid: h(t), vout: v }).collect(),
        outputs: outs.iter().map(|&(value, tag)| TxOut { value, spk: spk(tag) }).collect(),
    }
}

fn chain_with_block_1() -> LocalChain {
    let (mut chain, _) = LocalChain::from_genesis(h(1));
    chain.insert_checkpoint(b(1, 11)).unwrap();
    chain
}

#[test]
fn insert_tx_is_idempotent() {
    let mut g = TxGraph::new();
    let t = tx(100, &[(1, 0)], &[(5_000, 7)]);
    let d1 = g.insert_tx(t);
    assert_eq!(d1.txs.len(), 1);
    let d2 = g.insert_tx(tx(100, &[(1, 0)], &[(5_000, 7)]));
    assert!(d2.is_empty());
    assert_eq!(g.txs.len(), 1);
}

#[test]
fn insert_anchor_is_idempotent() {
    let mut g = TxGraph::new();
    let a = Anchor { block: b(1, 11), time: 1000 };
    let d1 = g.insert_anchor(h(100), a);
    assert_eq!(d1.anchors.len(), 1);
    let d2 = g.insert_anchor(h(100), a);
    assert!(d2.is_empty());
}

#[test]
fn seen_at_only_rises() {
    let mut g = TxGraph::new();
    let d1 = g.insert_seen_at(h(100), 50);
    assert_eq!(d1.last_seen, vec![(h(100), 50)]);
    let d2 = g.insert_seen_at(h(100), 40);
    assert!(d2.is_empty());
    let d3 = g.insert_seen_at(h(100), 60);
    assert_eq!(d3.last_seen, vec![(h(100), 60)]);
}

/// Of two conflicting transactions, the one anchored in the best chain is
/// canonical, whatever the insertion order.
#[test]
fn canonical_prefers_anchored_both_orders() {
    let chain = chain_with_block_1();
    let anchored = tx(100, &[(1, 0)], &[(5_000, 7)]);
    let rival = tx(101, &[(1, 0)], &[(5_000, 8)]);

    for order in 0..2 {
        let mut g = TxGraph::new();
        if order == 0 {
            g.insert_tx(anchored.clone());
            g.insert_tx(rival.clone());
        } else {
            g.insert_tx(rival.clone());
            g.insert_tx(anchored.clone());
        }
        g.insert_anchor(h(100), Anchor { block: b(1, 11), time: 1000 });
        // The rival looks fresher, but freshness cannot beat an anchor.
        g.insert_seen_at(h(101), 9_999);
        let canon = g.list_canonical_txs(&chain);
        let ids: Vec<Hash32> = canon.iter().map(|t| t.txid).collect();
        assert!(ids.contains(&h(100)), "order {order}");
        assert!(!ids.contains(&h(101)), "order {order}");
    }
}

#[test]
fn canonical_unconfirmed_prefers_most_recently_seen() {
    let chain = chain_with_block_1();
    let mut g = TxGraph::new();
    g.insert_tx(tx(100, &[(1, 0)], &[(5_000, 7)]));
    g.insert_tx(tx(101, &[(1, 0)], &[(5_000, 8)]));
    g.insert_seen_at(h(100), 50);
    g.insert_seen_at(h(101), 60);
    let ids: Vec<Hash32> = g.list_canonical_txs(&chain).iter().map(|t| t.txid).collect();
    assert!(!ids.contains(&h(100)));
    assert!(ids.contains(&h(101)));
}

#[test]
fn filter_chain_txouts_reports_spenders() {
    let chain = chain_with_block_1();
    let mut g = TxGraph::new();
    // A confirmed funding transaction and an unconfirmed spend of its
    // first output.
    g.insert_tx(tx(100, &[(1, 0)], &[(5_000, 7), (3_000, 8)]));
    g.insert_anchor(h(100), Anchor { block: b(1, 11), time: 1000 });
    g.insert_tx(tx(200, &[(100, 0)], &[(4_000, 9)]));
    g.insert_seen_at(h(200), 77);
    let ops = vec![
        IndexedOutPoint { keychain: 0, index: 0, outpoint: OutPoint { txid: h(100), vout: 0 } },
        IndexedOutPoint { keychain: 0, index: 1, outpoint: OutPoint { txid: h(100), vout: 1 } },
    ];
    let txouts = g.filter_chain_txouts(&chain, &ops);
    assert_eq!(txouts.len(), 2);
    let spent: Vec<&FullTxOut> = txouts.iter().filter(|f| f.spent_by.is_some()).collect();
    assert_eq!(spent.len(), 1);
    assert_eq!(spent[0].outpoint.vout, 0);
    assert_eq!(spent[0].spent_by, Some(h(200)));
    assert!(txouts.iter().all(|f| f.anchor.is_some()));
}

/// The four balance buckets together hold exactly the unspent value.
#[test]
fn balance_conserves_unspent_value() {
    let chain = chain_with_block_1();
    let mut g = TxGraph::new();
    // Confirmed funding with two outputs; one is spent by an unconfirmed
    // transaction paying back to the wallet; plus an immature coinbase.
    g.insert_tx(tx(100, &[(1, 0)], &[(5_000, 7), (3_000, 8)]));
    g.insert_anchor(h(100), Anchor { block: b(1, 11), time: 1000 });
    g.insert_tx(tx(200, &[(100, 0)], &[(4_000, 9)]));
    g.insert_seen_at(h(200), 77);
    let mut cb = tx(300, &[], &[(50_000, 10)]);
    cb.is_coinbase = true;
    g.insert_tx(cb);
    g.insert_anchor(h(300), Anchor { block: b(1, 11), time: 1000 });
    let ops = vec![
        IndexedOutPoint { keychain: 0, index: 0, outpoint: OutPoint { txid: h(100), vout: 0 } },
        IndexedOutPoint { keychain: 0, index: 1, outpoint: OutPoint { txid: h(100), vout: 1 } },
        IndexedOutPoint { keychain: 1, index: 0, outpoint: OutPoint { txid: h(200), vout: 0 } },
        IndexedOutPoint { keychain: 0, index: 2, outpoint: OutPoint { txid: h(300), vout: 0 } },
    ];
    let txouts = g.filter_chain_txouts(&chain, &ops);
    let bal = balance_of(&txouts, 1);
    // Spent: the 5,000. Unspent: 3,000 confirmed, 4,000 trusted pending
    // (internal keychain), 50,000 immature coinbase.
    assert_eq!(bal.confirmed, 3_000);
    assert_eq!(bal.trusted_pending, 4_000);
    assert_eq!(bal.untrusted_pending, 0);
    assert_eq!(bal.immature, 50_000);
    let unspent_total: u64 =
        txouts.iter().filter(|f| f.spent_by.is_none()).map(|f| f.value).sum();
    assert_eq!(
        bal.confirmed + bal.trusted_pending + bal.untrusted_pending + bal.immature,
        unspent_total
    );
}

#[test]
fn mature_coinbase_counts_as_confirmed() {
    let (mut chain, _) = LocalChain::from_genesis(h(1));
    chain.insert_checkpoint(b(1, 11)).unwrap();
    chain.insert_checkpoint(b(100, 101)).unwrap();
    let mut g = TxGraph::new();
    let mut cb = tx(300, &[], &[(50_000, 10)]);
    cb.is_coinbase = true;
    g.insert_tx(cb);
    g.insert_anchor(h(300), Anchor { block: b(1, 11), time: 1000 });
    let ops = vec![
        IndexedOutPoint { keychain: 0, index: 0, outpoint: OutPoint { txid: h(300), vout: 0 } },
    ];
    let txouts = g.filter_chain_txouts(&chain, &ops);
    let bal = balance_of(&txouts, 100);
    assert_eq!(bal.confirmed, 50_000);
    assert_eq!(bal.immature, 0);
}
