//! Plain value types shared by the chain, graph and indexer modules.

use vstd::prelude::*;

verus! {

/// The keychain tag for receive (external) scripts.
pub const EXTERNAL_KEYCHAIN: u8 = 0;

/// The keychain tag for change (internal) scripts.
pub const INTERNAL_KEYCHAIN: u8 = 1;

/// Coinbase outputs may be spent only this many blocks after they were
/// mined.
pub const COINBASE_MATURITY: u32 = 100;

/// A 256-bit identifier (a block hash or a transaction id), held as two
/// 128-bit halves so that equality is structural.
#[derive(Clone, Copy, Debug, PartialEq, Eq, Structural)]
pub struct Hash32 {
    /// The high 16 bytes.
    pub hi: u128,
    /// The low 16 bytes.
    pub lo: u128,
}

/// A block identifier: a height together with the block's hash.
#[derive(Clone, Copy, Debug, PartialEq, Eq, Structural)]
pub struct BlockId {
    /// The block height.
    pub height: u32,
    /// The block hash.
    pub hash: Hash32,
}

/// A reference to a transaction output: the id of the transaction that
/// created it and the output's position in that transaction.
#[derive(Clone, Copy, Debug, PartialEq, Eq, Structural)]
pub struct OutPoint {
    /// The creating transaction.
    pub txid: Hash32,
    /// The output index within that transaction.
    pub vout: u32,
}

/// A transaction output: a value in satoshis locked by a script pubkey.
#[derive(Clone, Debug)]
pub struct TxOut {
    /// The amount in satoshis.
    pub value: u64,
    /// The locking script, as raw bytes.
    pub spk: Vec<u8>,
}

/// A transaction, keyed by its id. Inputs are the outpoints it spends.
#[derive(Clone, Debug)]
pub struct Tx {
    /// The transaction id.
    pub txid: Hash32,
    /// Whether this is a coinbase transaction (its outputs mature slowly).
    pub is_coinbase: bool,
    /// The outpoints spent by this transaction.
    pub inputs: Vec<OutPoint>,
    /// The outputs created by this transaction.
    pub outputs: Vec<TxOut>,
}

/// Evidence that a transaction is confirmed in a specific block.
#[derive(Clone, Copy, Debug, PartialEq, Eq, Structural)]
pub struct Anchor {
    /// The confirming block.
    pub block: BlockId,
    /// The confirming block's timestamp.
    pub time: u64,
}

/// The network a wallet operates on.
#[derive(Clone, Copy, Debug, PartialEq, Eq, Structural)]
pub enum Network {
    /// Bitcoin mainnet.
    Bitcoin,
    /// Testnet.
    Testnet,
    /// Signet.
    Signet,
    /// Regtest.
    Regtest,
}

/// A small integer tag for each network, used where a plain value is
/// needed.
pub open spec fn spec_net_tag(n: Network) -> u8 {
    match n {
        Network::Bitcoin => 0,
        Network::Testnet => 1,
        Network::Signet => 2,
        Network::Regtest => 3,
    }
}

/// Total order on hashes, high half first; used to break ties
/// deterministically between equally plausible transactions.
pub open spec fn spec_hash_lt(a: Hash32, b: Hash32) -> bool {
    a.hi < b.hi || (a.hi == b.hi && a.lo < b.lo)
}

/// Compare two hashes in the order of [`spec_hash_lt`].
pub fn hash_lt(a: &Hash32, b: &Hash32) -> (r: bool)
    ensures
        r == spec_hash_lt(*a, *b),
{
    a.hi < b.hi || (a.hi == b.hi && a.lo < b.lo)
}

/// Mathematical sum of a sequence of satoshi amounts.
pub open spec fn sum_values(s: Seq<u64>) -> int
    decreases s.len(),
{
    if s.len() == 0 {
        0
    } else {
        s[0] + sum_values(s.drop_first())
    }
}

/// The sum of a sequence of amounts is never negative.
pub proof fn lemma_sum_values_nonneg(s: Seq<u64>)
    ensures
        sum_values(s) >= 0,
    decreases s.len(),
{
    if s.len() > 0 {
        lemma_sum_values_nonneg(s.drop_first());
    }
}

/// Appending one amount adds exactly that amount to the sum.
pub proof fn lemma_sum_values_push(s: Seq<u64>, v: u64)
    ensures
        sum_values(s.push(v)) == sum_values(s) + v,
    decreases s.len(),
{
    if s.len() == 0 {
        assert(s.push(v).drop_first() =~= Seq::<u64>::empty());
        assert(s.push(v)[0] == v);
        assert(sum_values(Seq::<u64>::empty()) == 0);
        assert(sum_values(s.push(v)) == v + sum_values(s.push(v).drop_first()));
    } else {
        assert(s.push(v).drop_first() =~= s.drop_first().push(v));
        assert(s.push(v)[0] == s[0]);
        lemma_sum_values_push(s.drop_first(), v);
        assert(sum_values(s.push(v)) == s[0] + sum_values(s.drop_first().push(v)));
        assert(sum_values(s) == s[0] + sum_values(s.drop_first()));
    }
}

/// The mathematical content of a transaction output.
#[verifier::ext_equal]
pub ghost struct TxOutV {
    /// The amount in satoshis.
    pub value: u64,
    /// The locking script bytes.
    pub spk: Seq<u8>,
}

/// The mathematical content of a transaction.
#[verifier::ext_equal]
pub ghost struct TxV {
    /// The transaction id.
    pub txid: Hash32,
    /// Whether it is a coinbase transaction.
    pub is_coinbase: bool,
    /// The outpoints it spends.
    pub inputs: Seq<OutPoint>,
    /// The outputs it creates.
    pub outputs: Seq<TxOutV>,
}

/// The content of an output.
pub open spec fn txout_view(o: TxOut) -> TxOutV {
    TxOutV { value: o.value, spk: o.spk@ }
}

/// The contents of a list of outputs.
pub open spec fn seq_txout_views(s: Seq<TxOut>) -> Seq<TxOutV> {
    s.map_values(|o: TxOut| txout_view(o))
}

/// The content of a transaction.
pub open spec fn tx_view(t: Tx) -> TxV {
    TxV {
        txid: t.txid,
        is_coinbase: t.is_coinbase,
        inputs: t.inputs@,
        outputs: seq_txout_views(t.outputs@),
    }
}

/// A deep copy of a byte vector, equal in content.
pub fn copy_bytes(b: &Vec<u8>) -> (r: Vec<u8>)
    ensures
        r@ == b@,
{
    let mut r: Vec<u8> = Vec::new();
    let mut i: usize = 0;
    while i < b.len()
        invariant
            0 <= i <= b@.len(),
            r@ == b@.take(i as int),
        decreases b@.len() - i,
    {
        r.push(b[i]);
        proof {
            assert(r@ =~= b@.take(i as int + 1));
        }
        i += 1;
    }
    proof {
        assert(b@.take(b@.len() as int) =~= b@);
    }
    r
}

/// A deep copy of an output, equal in content.
pub fn copy_txout(o: &TxOut) -> (r: TxOut)
    ensures
        txout_view(r) == txout_view(*o),
{
    TxOut { value: o.value, spk: copy_bytes(&o.spk) }
}

/// A deep copy of a transaction, equal in content.
pub fn copy_tx(t: &Tx) -> (r: Tx)
    ensures
        tx_view(r) == tx_view(*t),
{
    let mut inputs: Vec<OutPoint> = Vec::new();
    let mut i: usize = 0;
    while i < t.inputs.len()
        invariant
            0 <= i <= t.inputs@.len(),
            inputs@ == t.inputs@.take(i as int),
        decreases t.inputs@.len() - i,
    {
        inputs.push(t.inputs[i]);
        proof {
            assert(inputs@ =~= t.inputs@.take(i as int + 1));
        }
        i += 1;
    }
    let mut outputs: Vec<TxOut> = Vec::new();
    let mut j: usize = 0;
    while j < t.outputs.len()
        invariant
            0 <= j <= t.outputs@.len(),
            seq_txout_views(outputs@) == seq_txout_views(t.outputs@).take(j as int),
        decreases t.outputs@.len() - j,
    {
        let ghost pre = outputs@;
        let c = copy_txout(&t.outputs[j]);
        let ghost gc = c;
        outputs.push(c);
        proof {
            let gj = j as int;
            assert(outputs@ == pre.push(gc));
            assert(seq_txout_views(pre).len() == pre.len());
            assert(seq_txout_views(t.outputs@).take(gj).len() == gj);
            assert(pre.len() == gj);
            assert(outputs@.len() == gj + 1);
            assert(seq_txout_views(outputs@).len() == gj + 1);
            assert(seq_txout_views(t.outputs@).len() == t.outputs@.len());
            assert forall|k: int| 0 <= k <= gj implies seq_txout_views(outputs@)[k]
                == seq_txout_views(t.outputs@)[k] by {
                assert(seq_txout_views(outputs@)[k] == txout_view(outputs@[k]));
                assert(seq_txout_views(t.outputs@)[k] == txout_view(t.outputs@[k]));
                if k < gj {
                    assert(seq_txout_views(pre)[k] == txout_view(pre[k]));
                    assert(seq_txout_views(pre)[k] == seq_txout_views(t.outputs@).take(gj)[k]);
                } else {
                    assert(outputs@[k] == gc);
                    assert(txout_view(gc) == txout_view(t.outputs@[gj]));
                }
            }
            assert(seq_txout_views(outputs@) =~= seq_txout_views(t.outputs@).take(gj + 1));
        }
        j += 1;
    }
    let r = Tx { txid: t.txid, is_coinbase: t.is_coinbase, inputs, outputs };
    proof {
        assert(t.inputs@.take(t.inputs@.len() as int) =~= t.inputs@);
        assert(seq_txout_views(t.outputs@).take(t.outputs@.len() as int) =~= seq_txout_views(
            t.outputs@,
        ));
        assert(tx_view(r) =~~= tx_view(*t));
    }
    r
}

/// Byte-wise equality of two byte vectors, reflected into their views.
pub fn bytes_eq(a: &Vec<u8>, b: &Vec<u8>) -> (r: bool)
    ensures
        r <==> a@ == b@,
{
    if a.len() != b.len() {
        return false;
    }
    let mut i: usize = 0;
    while i < a.len()
        invariant
            0 <= i <= a@.len(),
            a@.len() == b@.len(),
            forall|j: int| 0 <= j < i ==> a@[j] == b@[j],
        decreases a@.len() - i,
    {
        if a[i] != b[i] {
            return false;
        }
        i += 1;
    }
    proof {
        assert(a@ =~= b@);
    }
    true
}

} // verus!
