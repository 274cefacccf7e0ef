//! End-to-end wallet behavior: address derivation, block application,
//! balances, and transaction construction.

use std::str::FromStr;

use loon::select::CreateTxError;
use loon::types::{BlockId, Hash32, Network, OutPoint, Tx, TxOut};
use loon::wallet::BdkWallet;

const XPUB: &str = "xpub661MyMwAqRbcFtXgS5sYJABqqG9YLmC4Q1Rdap9gSE8NqtwybGhePY2gZ29ESFjqJoCu1Rupje8YtGqsefD265TMg7usUDFdp6W1EGMcet8";

fn ext_desc() -> String {
    format!("wpkh({XPUB}/0/*)")
}

fn int_desc() -> String {
    format!("wpkh({XPUB}/1/*)")
}

fn h(lo: u128) -> Hash32 {
    Hash32 { hi: 0, lo }
}

fn b(height: u32, lo: u128) -> BlockId {
    BlockId { height, hash: h(lo) }
}

/// The script the descriptor derives at an index, computed independently
/// of the library.
fn derive_spk_reference(desc: &str, index: u32) -> Vec<u8> {
    let d = miniscript::Descriptor::<miniscript::DescriptorPublicKey>::from_str(desc).unwrap();
    d.at_derivation_index(index).unwrap().script_pubkey().into_bytes()
}

fn new_wallet() -> BdkWallet {
    BdkWallet::new(Network::Bitcoin, h(1), ext_desc(), Some(int_desc()), 5).unwrap()
}

/// Fund the wallet with three confirmed outputs of the given values on
/// external indices 0, 1, 2.
fn fund(wallet: &mut BdkWallet, values: [u64; 3]) {
    let funding = Tx {
        txid: h(0xf1),
        is_coinbase: false,
        inputs: vec![OutPoint { txid: h(0xaa), vout: 0 }],
        outputs: values
            .iter()
            .enumerate()
            .map(|(i, &value)| TxOut { value, spk: derive_spk_reference(&ext_desc(), i as u32) })
            .collect(),
    };
    wallet.insert_checkpoint(b(1, 11)).unwrap();
    wallet.apply_block_relevant(&vec![funding], 1, h(11), 1_000);
}

#[test]
fn reveal_addresses_monotonically() {
    let mut w = new_wallet();
    let (i0, a0) = w.reveal_next_address().unwrap();
    let (i1, a1) = w.reveal_next_address().unwrap();
    let (i2, _) = w.reveal_next_address().unwrap();
    assert_eq!((i0, i1, i2), (0, 1, 2));
    assert_ne!(a0, a1);
    // Nothing is used yet, so the next unused address is the first one.
    let (iu, au) = w.next_unused_address().unwrap();
    assert_eq!(iu, 0);
    assert_eq!(au, a0);
}

#[test]
fn revealed_address_matches_reference_encoding() {
    let mut w = new_wallet();
    let (_, addr) = w.reveal_next_address().unwrap();
    let spk = derive_spk_reference(&ext_desc(), 0);
    let script = bitcoin::ScriptBuf::from(spk);
    let expected =
        bitcoin::Address::from_script(&script, bitcoin::Network::Bitcoin).unwrap().to_string();
    assert_eq!(addr, expected);
}

#[test]
fn peek_address_is_pure() {
    let w = new_wallet();
    let (idx, addr) = w.peek_address(loon::keychain::Keychain(0), 7).unwrap();
    assert_eq!(idx, 7);
    let spk = derive_spk_reference(&ext_desc(), 7);
    let script = bitcoin::ScriptBuf::from(spk);
    let expected =
        bitcoin::Address::from_script(&script, bitcoin::Network::Bitcoin).unwrap().to_string();
    assert_eq!(addr, expected);
    // Peeking reveals nothing.
    let mut w2 = w;
    assert_eq!(w2.reveal_next_address().unwrap().0, 0);
}

#[test]
fn funding_shows_up_in_balance_and_utxos() {
    let mut w = new_wallet();
    fund(&mut w, [5_000, 3_000, 50_000]);
    let bal = w.balance();
    assert_eq!(bal.confirmed, 58_000);
    assert_eq!(bal.trusted_pending + bal.untrusted_pending + bal.immature, 0);
    let utxos = w.list_indexed_txouts();
    assert_eq!(utxos.len(), 3);
    assert!(utxos.iter().all(|u| u.spent_by.is_none() && u.anchor.is_some()));
    // The canonical history holds exactly the funding transaction.
    let txs = w.transactions();
    assert_eq!(txs.len(), 1);
    assert_eq!(txs[0].txid, h(0xf1));
    // Receiving marks the paid indices as used.
    assert!(w.index.is_used(loon::keychain::Keychain(0), 0));
    assert!(w.index.is_used(loon::keychain::Keychain(0), 2));
}

/// Three unspent outputs of 5,000 / 3,000 / 50,000 sats; sending 10,000 at
/// 1 sat/vbyte selects the 50,000 output alone, produces one change
/// output, and leaves the small outputs untouched and spendable.
#[test]
fn send_selects_single_sufficient_output() {
    let mut w = new_wallet();
    fund(&mut w, [5_000, 3_000, 50_000]);
    let dest = derive_spk_reference(&ext_desc(), 90);
    let ct = w.create_psbt(&dest, 10_000, 1, 8, 7, false).unwrap();

    assert_eq!(ct.selection.selected.len(), 1);
    let chosen = ct.candidates[ct.selection.selected[0]];
    assert_eq!(chosen.value, 50_000);

    let cv = ct.selection.change_value.expect("change expected");
    assert_eq!(ct.template.outputs.len(), 2);
    assert_eq!(ct.template.outputs[0].value, 10_000);
    assert_eq!(ct.template.outputs[0].spk, dest);
    assert_eq!(ct.template.outputs[1].value, cv);
    assert_eq!(ct.selection.total_value, 10_000 + ct.selection.fee + cv);
    assert!(cv >= 546);
    // The fee matches the declared formula exactly, with the input weight
    // taken from an independent satisfaction-weight computation.
    let sat_wu = miniscript::Descriptor::<miniscript::DescriptorPublicKey>::from_str(&ext_desc())
        .unwrap()
        .at_derivation_index(2)
        .unwrap()
        .max_weight_to_satisfy()
        .unwrap()
        .to_wu();
    let dest_out_wu = (9 + dest.len() as u64) * 4;
    let change_out_wu = (9 + ct.template.outputs[1].spk.len() as u64) * 4;
    let total_wu = 42 + dest_out_wu + change_out_wu + 164 + sat_wu;
    let expected_fee = (total_wu + 3) / 4;
    assert_eq!(ct.selection.fee, expected_fee);

    assert_eq!(ct.template.version, 2);
    assert_eq!(ct.template.locktime, 1);
    assert_eq!(ct.template.inputs.len(), 1);
    assert_eq!(ct.template.inputs[0].1, 0xFFFF_FFFD);
    assert_eq!(ct.template.inputs[0].0, chosen.outpoint);

    // The 5,000 and 3,000 outputs are untouched and still spendable.
    let unspent = w.list_indexed_txouts();
    let small: Vec<u64> = unspent
        .iter()
        .filter(|u| u.spent_by.is_none() && (u.value == 5_000 || u.value == 3_000))
        .map(|u| u.value)
        .collect();
    assert_eq!(small.len(), 2);
    // The change script is reserved: its index is marked used.
    let change_idx = ct.change_index.unwrap();
    assert!(w.index.is_used(loon::keychain::Keychain(1), change_idx));
}

/// Sweeping 3 outputs totaling 70,000 sats at 2 sat/vbyte drains
/// everything, minus fee, to one output with no change.
#[test]
fn sweep_drains_everything_to_one_output() {
    let mut w = new_wallet();
    fund(&mut w, [10_000, 20_000, 40_000]);
    let dest = derive_spk_reference(&ext_desc(), 91);
    let ct = w.create_psbt(&dest, 0, 2, 8, 7, true).unwrap();

    assert_eq!(ct.selection.selected.len(), 3);
    assert_eq!(ct.selection.total_value, 70_000);
    assert_eq!(ct.template.outputs.len(), 1);
    assert_eq!(ct.template.outputs[0].spk, dest);
    assert_eq!(ct.template.outputs[0].value, 70_000 - ct.selection.fee);
    assert!(ct.selection.change_value.is_none());
    assert!(ct.selection.fee > 0);
    assert_eq!(ct.template.inputs.len(), 3);
    // No change script was reserved.
    assert!(ct.change_index.is_none());
    assert!(!w.index.is_used(loon::keychain::Keychain(1), 0));
}

/// An infeasible target fails with an insufficiency error and stages no
/// indexer mutation: the change address is not marked used.
#[test]
fn infeasible_target_fails_cleanly() {
    let mut w = new_wallet();
    fund(&mut w, [5_000, 3_000, 50_000]);
    let staged_before = w.staged().map(|cs| cs.chain.blocks.len());
    let dest = derive_spk_reference(&ext_desc(), 92);
    let err = w.create_psbt(&dest, 100_000, 1, 8, 7, false).unwrap_err();
    assert_eq!(err, CreateTxError::InsufficientFunds);
    assert!(!w.index.is_used(loon::keychain::Keychain(1), 0));
    let staged_after = w.staged().map(|cs| cs.chain.blocks.len());
    assert_eq!(staged_before, staged_after);
    // The wallet still works: a feasible request succeeds afterwards.
    assert!(w.create_psbt(&dest, 10_000, 1, 8, 7, false).is_ok());
}

#[test]
fn take_staged_clears_the_stage() {
    let mut w = new_wallet();
    fund(&mut w, [5_000, 3_000, 50_000]);
    assert!(w.staged().is_some());
    let taken = w.take_staged().unwrap();
    assert!(!taken.is_empty());
    assert!(w.staged().is_none());
    assert!(w.take_staged().is_none());
}

#[test]
fn apply_update_extends_chain_and_graph() {
    let mut w = new_wallet();
    fund(&mut w, [5_000, 3_000, 50_000]);
    let mut tx_update = loon::graph::GraphChangeSet::new();
    tx_update.txs.push(Tx {
        txid: h(0xf2),
        is_coinbase: false,
        inputs: vec![OutPoint { txid: h(0xf1), vout: 0 }],
        outputs: vec![TxOut { value: 4_000, spk: derive_spk_reference(&int_desc(), 0) }],
    });
    tx_update.last_seen.push((h(0xf2), 500));
    let up = loon::chain::LocalChain { blocks: vec![b(1, 11), b(2, 22)] };
    w.apply_update(loon::wallet::Update {
        tx_update,
        cp: Some(up),
        last_active_indices: vec![(1, 0)],
    })
    .unwrap();
    assert_eq!(w.tip(), b(2, 22));
    let txs = w.transactions();
    assert_eq!(txs.len(), 2);
    // Everything the update carried is staged, including the active index.
    let staged = w.take_staged().unwrap();
    assert!(staged.indexer.last_revealed.contains(&(1, 0)));
    assert!(staged.tx_graph.txs.iter().any(|t| t.txid == h(0xf2)));
}

#[test]
fn wallet_without_change_descriptor_cannot_build() {
    let mut w = BdkWallet::new(Network::Bitcoin, h(1), ext_desc(), None, 5).unwrap();
    fund(&mut w, [5_000, 3_000, 50_000]);
    let dest = derive_spk_reference(&ext_desc(), 93);
    let err = w.create_psbt(&dest, 1_000, 1, 8, 7, false).unwrap_err();
    assert_eq!(err, CreateTxError::NoDescriptorForChange);
}

#[test]
fn invalid_descriptor_is_rejected() {
    assert!(BdkWallet::new(Network::Bitcoin, h(1), "wpkh(not a key)".to_string(), None, 5)
        .is_none());
}

/// Reloading a persisted change set reproduces the wallet: the load path
/// replays the chain facts, re-reveals indices, re-indexes the stored
/// transactions and reapplies them to the graph.
#[test]
fn staged_changes_replay_into_an_equal_wallet() {
    let mut w = new_wallet();
    w.reveal_next_address().unwrap();
    fund(&mut w, [5_000, 3_000, 50_000]);
    let staged = w.take_staged().unwrap();

    let mut reloaded = new_wallet();
    let _ = reloaded.take_staged();
    if let Some(chain) = loon::chain::LocalChain::from_changeset(&staged.chain) {
        reloaded.chain = chain;
    }
    reloaded.index.apply_changeset(&staged.indexer);
    reloaded.index_tx_graph_changeset(&staged.tx_graph);
    reloaded.tx_graph.apply_changeset(&staged.tx_graph);

    assert_eq!(reloaded.tip(), w.tip());
    let b1 = w.balance();
    let b2 = reloaded.balance();
    assert_eq!(b1, b2);
    assert_eq!(reloaded.list_unspent().len(), w.list_unspent().len());
}

#[test]
fn list_unspent_filters_spent_outputs() {
    let mut w = new_wallet();
    fund(&mut w, [5_000, 3_000, 50_000]);
    // An unconfirmed spend of the 5,000 output.
    let spend = Tx {
        txid: h(0xf3),
        is_coinbase: false,
        inputs: vec![OutPoint { txid: h(0xf1), vout: 0 }],
        outputs: vec![TxOut { value: 4_500, spk: derive_spk_reference(&ext_desc(), 94) }],
    };
    let mut tx_update = loon::graph::GraphChangeSet::new();
    tx_update.txs.push(spend);
    tx_update.last_seen.push((h(0xf3), 5));
    w.apply_update(loon::wallet::Update { tx_update, cp: None, last_active_indices: vec![] })
        .unwrap();
    let unspent = w.list_unspent();
    assert!(unspent.iter().all(|u| u.spent_by.is_none()));
    assert!(unspent.iter().all(|u| u.value != 5_000));
    let all = w.list_indexed_txouts();
    assert_eq!(all.len() - unspent.len(), 1);
}

/// Descriptors whose keys need private material to derive are rejected
/// with a plain failure, never an abort.
#[test]
fn hardened_descriptors_are_rejected() {
    let hard_step = format!("wpkh({XPUB}/1h/*)");
    assert!(BdkWallet::new(Network::Bitcoin, h(1), hard_step, None, 5).is_none());
    let hard_wildcard = format!("wpkh({XPUB}/0/*h)");
    assert!(BdkWallet::new(Network::Bitcoin, h(1), hard_wildcard, None, 5).is_none());
    // A hardened derivation index is out of range: a plain None.
    let w = new_wallet();
    assert!(w.peek_address(loon::keychain::Keychain(0), u32::MAX).is_none());
}

/// The next unused address is always the lowest unused index: after the
/// first three indices are seen on chain, it moves past them and reveals.
#[test]
fn next_unused_skips_used_indices() {
    let mut w = new_wallet();
    fund(&mut w, [5_000, 3_000, 50_000]);
    // Indices 0..=2 received funds and are used; 3 is fresh.
    let (idx, _) = w.next_unused_address().unwrap();
    assert_eq!(idx, 3);
    // A second call returns the same index: nothing marked it used.
    let (idx2, _) = w.next_unused_address().unwrap();
    assert_eq!(idx2, 3);
}
