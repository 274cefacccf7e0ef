//! Merge laws of the combined change set, observed on concrete values.

use loon::changeset::BdkChangeSet;
use loon::types::{Hash32, OutPoint, Tx, TxOut};

fn h(lo: u128) -> Hash32 {
    Hash32 { hi: 0, lo }
}

fn sample_a() -> BdkChangeSet {
    let mut a = BdkChangeSet::new();
    a.chain.blocks.push((0, Some(h(1))));
    a.chain.blocks.push((5, Some(h(50))));
    a.tx_graph.last_seen.push((h(100), 7));
    a.indexer.last_revealed.push((0, 3));
    a
}

fn sample_b() -> BdkChangeSet {
    let mut b = BdkChangeSet::new();
    b.chain.blocks.push((7, Some(h(70))));
    b.tx_graph.txs.push(Tx {
        txid: h(200),
        is_coinbase: false,
        inputs: vec![OutPoint { txid: h(100), vout: 0 }],
        outputs: vec![TxOut { value: 4_000, spk: vec![0, 20, 9] }],
    });
    b.indexer.last_revealed.push((1, 2));
    b
}

fn chain_facts(cs: &BdkChangeSet) -> Vec<(u32, u128)> {
    let mut v: Vec<(u32, u128)> = cs
        .chain
        .blocks
        .iter()
        .map(|(h, x)| (*h, x.map(|hash| hash.lo).unwrap_or(u128::MAX)))
        .collect();
    v.sort();
    v.dedup();
    v
}

fn revealed_facts(cs: &BdkChangeSet) -> Vec<(u8, u32)> {
    let mut v = cs.indexer.last_revealed.clone();
    v.sort();
    v.dedup();
    v
}

#[test]
fn merge_with_empty_changes_nothing() {
    let mut a = sample_a();
    let before_chain = a.chain.blocks.clone();
    let before_seen = a.tx_graph.last_seen.clone();
    a.merge(BdkChangeSet::new());
    assert_eq!(a.chain.blocks, before_chain);
    assert_eq!(a.tx_graph.last_seen, before_seen);
    assert!(!a.is_empty());
}

#[test]
fn merge_commutes_in_observable_effect() {
    let mut ab = sample_a();
    ab.merge(sample_b());
    let mut ba = sample_b();
    ba.merge(sample_a());
    assert_eq!(chain_facts(&ab), chain_facts(&ba));
    assert_eq!(revealed_facts(&ab), revealed_facts(&ba));
    assert_eq!(ab.tx_graph.txs.len(), ba.tx_graph.txs.len());
}

#[test]
fn merge_same_delta_twice_is_idempotent_in_effect() {
    let mut aa = sample_a();
    aa.merge(sample_a());
    let a = sample_a();
    assert_eq!(chain_facts(&aa), chain_facts(&a));
    assert_eq!(revealed_facts(&aa), revealed_facts(&a));
}

#[test]
fn take_leaves_nothing_to_persist() {
    let mut a = sample_a();
    assert!(!a.is_empty());
    let taken = a.take();
    assert!(!taken.is_empty());
    assert!(a.is_empty());
    // An immediate second take finds nothing: persisting twice in a row
    // writes nothing the second time.
    let again = a.take();
    assert!(again.is_empty());
}

#[test]
fn empty_iff_all_sub_deltas_empty() {
    let mut cs = BdkChangeSet::new();
    assert!(cs.is_empty());
    cs.indexer.last_revealed.push((0, 0));
    assert!(!cs.is_empty());
}
