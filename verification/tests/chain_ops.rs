//! Reorg safety and chain reconstruction.

use loon::chain::{ChainError, LocalChain};
use loon::types::{BlockId, Hash32};

fn h(lo: u128) -> Hash32 {
    Hash32 { hi: 0, lo }
}

fn b(height: u32, lo: u128) -> BlockId {
    BlockId { height, hash: h(lo) }
}

#[test]
fn genesis_and_tip() {
    let (chain, delta) = LocalChain::from_genesis(h(1));
    assert_eq!(chain.tip(), b(0, 1));
    assert_eq!(delta.blocks.len(), 1);
    assert_eq!(delta.blocks[0], (0, Some(h(1))));
}

#[test]
fn insert_checkpoint_appends() {
    let (mut chain, _) = LocalChain::from_genesis(h(1));
    let r = chain.insert_checkpoint(b(5, 50)).unwrap();
    assert!(r.0);
    assert_eq!(chain.tip(), b(5, 50));
    let r2 = chain.insert_checkpoint(b(3, 30)).unwrap();
    assert!(r2.0);
    // Spliced below the tip; the tip is unchanged.
    assert_eq!(chain.tip(), b(5, 50));
    assert_eq!(chain.get(3), Some(b(3, 30)));
}

#[test]
fn same_block_reinsert_is_noop() {
    let (mut chain, _) = LocalChain::from_genesis(h(1));
    chain.insert_checkpoint(b(5, 50)).unwrap();
    let r = chain.insert_checkpoint(b(5, 50)).unwrap();
    assert!(!r.0);
    assert!(r.1.blocks.is_empty());
    assert_eq!(chain.tip(), b(5, 50));
}

#[test]
fn conflicting_insert_fails_without_mutation() {
    let (mut chain, _) = LocalChain::from_genesis(h(1));
    chain.insert_checkpoint(b(5, 50)).unwrap();
    let err = chain.insert_checkpoint(b(5, 51)).unwrap_err();
    assert_eq!(err, ChainError::ReorgConflict);
    // The original block is still there, untouched.
    assert_eq!(chain.get(5), Some(b(5, 50)));
    assert_eq!(chain.tip(), b(5, 50));
}

#[test]
fn update_reorgs_divergent_suffix() {
    let (mut chain, _) = LocalChain::from_genesis(h(1));
    chain.insert_checkpoint(b(5, 50)).unwrap();
    chain.insert_checkpoint(b(7, 70)).unwrap();
    // The update agrees at 5 but replaces 7 and extends to 8.
    let up = LocalChain { blocks: vec![b(5, 50), b(7, 71), b(8, 80)] };
    chain.apply_update(&up).unwrap();
    assert_eq!(chain.get(0), Some(b(0, 1)));
    assert_eq!(chain.get(5), Some(b(5, 50)));
    assert_eq!(chain.get(7), Some(b(7, 71)));
    assert_eq!(chain.tip(), b(8, 80));
}

#[test]
fn update_without_common_block_cannot_connect() {
    let (mut chain, _) = LocalChain::from_genesis(h(1));
    chain.insert_checkpoint(b(5, 50)).unwrap();
    let up = LocalChain { blocks: vec![b(9, 90), b(10, 100)] };
    let err = chain.apply_update(&up).unwrap_err();
    assert_eq!(err, ChainError::CannotConnect);
    assert_eq!(chain.tip(), b(5, 50));
}

#[test]
fn changeset_reload_round_trip() {
    let (mut chain, mut delta) = LocalChain::from_genesis(h(1));
    let (_, d1) = chain.insert_checkpoint(b(4, 40)).unwrap();
    delta.merge(d1);
    let (_, d2) = chain.insert_checkpoint(b(9, 90)).unwrap();
    delta.merge(d2);
    let reloaded = LocalChain::from_changeset(&delta).unwrap();
    assert_eq!(reloaded.get(0), Some(b(0, 1)));
    assert_eq!(reloaded.get(4), Some(b(4, 40)));
    assert_eq!(reloaded.tip(), b(9, 90));
    assert_eq!(reloaded.blocks.len(), 3);
}

#[test]
fn changeset_reload_needs_genesis() {
    let delta = loon::chain::ChainChangeSet { blocks: vec![(4, Some(h(40)))] };
    assert!(LocalChain::from_changeset(&delta).is_none());
}

#[test]
fn changeset_later_facts_override() {
    let delta = loon::chain::ChainChangeSet {
        blocks: vec![(0, Some(h(1))), (4, Some(h(40))), (4, Some(h(41))), (5, Some(h(50))), (5, None)],
    };
    let chain = LocalChain::from_changeset(&delta).unwrap();
    assert_eq!(chain.get(4), Some(b(4, 41)));
    assert_eq!(chain.get(5), None);
}
