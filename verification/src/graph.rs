//! The transaction graph: raw transactions, floating outputs, confirmation
//! anchors and last-seen times, with canonicalization and balance queries.

use vstd::prelude::*;

use crate::chain::LocalChain;
use crate::types::{
    copy_tx, copy_txout, spec_hash_lt, sum_values, tx_view, txout_view, Anchor, Hash32, OutPoint,
    Tx, TxOut, TxOutV, COINBASE_MATURITY, INTERNAL_KEYCHAIN,
};

verus! {

/// Delta of transaction-graph mutations. Merging concatenates; every entry
/// is a monotone fact (a transaction, an output, an anchor, a seen-time).
#[derive(Clone, Debug)]
pub struct GraphChangeSet {
    /// Whole transactions newly added.
    pub txs: Vec<Tx>,
    /// Floating outputs newly added.
    pub txouts: Vec<(OutPoint, TxOut)>,
    /// Anchors newly added.
    pub anchors: Vec<(Hash32, Anchor)>,
    /// Last-seen times newly raised.
    pub last_seen: Vec<(Hash32, u64)>,
}

impl GraphChangeSet {
    /// An empty delta.
    pub fn new() -> (r: GraphChangeSet)
        ensures
            r.txs@.len() == 0,
            r.txouts@.len() == 0,
            r.anchors@.len() == 0,
            r.last_seen@.len() == 0,
    {
        GraphChangeSet { txs: Vec::new(), txouts: Vec::new(), anchors: Vec::new(), last_seen: Vec::new() }
    }

    /// Whether the delta records nothing.
    pub fn is_empty(&self) -> (r: bool)
        ensures
            r <==> (self.txs@.len() == 0 && self.txouts@.len() == 0 && self.anchors@.len() == 0
                && self.last_seen@.len() == 0),
    {
        self.txs.len() == 0 && self.txouts.len() == 0 && self.anchors.len() == 0
            && self.last_seen.len() == 0
    }

    /// Absorb another delta. The observable content becomes the union of
    /// the two deltas' contents.
    pub fn merge(&mut self, other: GraphChangeSet)
        ensures
            final(self).txs@ == old(self).txs@ + other.txs@,
            final(self).txouts@ == old(self).txouts@ + other.txouts@,
            final(self).anchors@ == old(self).anchors@ + other.anchors@,
            final(self).last_seen@ == old(self).last_seen@ + other.last_seen@,
    {
        let mut o = other;
        self.txs.append(&mut o.txs);
        self.txouts.append(&mut o.txouts);
        self.anchors.append(&mut o.anchors);
        self.last_seen.append(&mut o.last_seen);
    }
}

/// Some of the first `j` listed transactions has id `x`.
pub open spec fn spec_txids_include(d: Seq<Tx>, j: int, x: Hash32) -> bool {
    exists|k: int| 0 <= k < j && (#[trigger] d[k]).txid == x
}

/// Some of the first `j` listed floating outputs sits at outpoint `op`.
pub open spec fn spec_txout_keys_include(d: Seq<(OutPoint, TxOut)>, j: int, op: OutPoint) -> bool {
    exists|k: int| 0 <= k < j && (#[trigger] d[k]).0 == op
}

/// Inserting one listed transaction extends the reachable ids by exactly
/// that transaction's id.
proof fn lemma_txids_step(pre: Seq<Tx>, post: Seq<Tx>, t: Tx, d: Seq<Tx>, i: int, g0: Seq<Tx>)
    requires
        0 <= i < d.len(),
        t.txid == d[i].txid,
        if spec_txids_include(pre, pre.len() as int, t.txid) {
            post == pre
        } else {
            post == pre.push(t)
        },
        forall|x: Hash32|
            #![trigger spec_txids_include(pre, pre.len() as int, x)]
            spec_txids_include(pre, pre.len() as int, x) <==> (spec_txids_include(
                g0,
                g0.len() as int,
                x,
            ) || spec_txids_include(d, i, x)),
    ensures
        forall|x: Hash32|
            #![trigger spec_txids_include(post, post.len() as int, x)]
            spec_txids_include(post, post.len() as int, x) <==> (spec_txids_include(
                g0,
                g0.len() as int,
                x,
            ) || spec_txids_include(d, i + 1, x)),
{
    assert forall|x: Hash32|
        #![trigger spec_txids_include(post, post.len() as int, x)]
        spec_txids_include(post, post.len() as int, x) <==> (spec_txids_include(
            g0,
            g0.len() as int,
            x,
        ) || spec_txids_include(d, i + 1, x)) by {
        if spec_txids_include(pre, pre.len() as int, t.txid) {
            if spec_txids_include(d, i + 1, x) {
                let k = choose|k: int| 0 <= k < i + 1 && (#[trigger] d[k]).txid == x;
                if k == i {
                    assert(spec_txids_include(pre, pre.len() as int, x));
                } else {
                    assert(spec_txids_include(d, i, x));
                }
            }
        } else {
            if spec_txids_include(post, post.len() as int, x) {
                let p = choose|p: int| 0 <= p < post.len() && (#[trigger] post[p]).txid == x;
                if p < pre.len() {
                    assert(pre[p].txid == x);
                    assert(spec_txids_include(pre, pre.len() as int, x));
                } else {
                    assert(post[p] == t);
                    assert(d[i].txid == x);
                    assert(spec_txids_include(d, i + 1, x));
                }
            }
            if spec_txids_include(g0, g0.len() as int, x) || spec_txids_include(d, i + 1, x) {
                if spec_txids_include(g0, g0.len() as int, x) || spec_txids_include(d, i, x) {
                    assert(spec_txids_include(pre, pre.len() as int, x));
                    let p = choose|p: int| 0 <= p < pre.len() && (#[trigger] pre[p]).txid == x;
                    assert(post[p].txid == x);
                    assert(spec_txids_include(post, post.len() as int, x));
                } else {
                    let k = choose|k: int| 0 <= k < i + 1 && (#[trigger] d[k]).txid == x;
                    assert(k == i);
                    assert(post[post.len() - 1] == t);
                    assert(spec_txids_include(post, post.len() as int, x));
                }
            }
        }
    }
}

/// Inserting one listed floating output extends the reachable outpoints by
/// exactly that entry's outpoint.
proof fn lemma_txout_keys_step(
    pre: Seq<(OutPoint, TxOut)>,
    post: Seq<(OutPoint, TxOut)>,
    e: (OutPoint, TxOut),
    d: Seq<(OutPoint, TxOut)>,
    i: int,
    g0: Seq<(OutPoint, TxOut)>,
)
    requires
        0 <= i < d.len(),
        e.0 == d[i].0,
        if spec_txout_keys_include(pre, pre.len() as int, e.0) {
            post == pre
        } else {
            post == pre.push(e)
        },
        forall|x: OutPoint|
            #![trigger spec_txout_keys_include(pre, pre.len() as int, x)]
            spec_txout_keys_include(pre, pre.len() as int, x) <==> (spec_txout_keys_include(
                g0,
                g0.len() as int,
                x,
            ) || spec_txout_keys_include(d, i, x)),
    ensures
        forall|x: OutPoint|
            #![trigger spec_txout_keys_include(post, post.len() as int, x)]
            spec_txout_keys_include(post, post.len() as int, x) <==> (spec_txout_keys_include(
                g0,
                g0.len() as int,
                x,
            ) || spec_txout_keys_include(d, i + 1, x)),
{
    assert forall|x: OutPoint|
        #![trigger spec_txout_keys_include(post, post.len() as int, x)]
        spec_txout_keys_include(post, post.len() as int, x) <==> (spec_txout_keys_include(
            g0,
            g0.len() as int,
            x,
        ) || spec_txout_keys_include(d, i + 1, x)) by {
        if spec_txout_keys_include(pre, pre.len() as int, e.0) {
            if spec_txout_keys_include(d, i + 1, x) {
                let k = choose|k: int| 0 <= k < i + 1 && (#[trigger] d[k]).0 == x;
                if k == i {
                    assert(spec_txout_keys_include(pre, pre.len() as int, x));
                } else {
                    assert(spec_txout_keys_include(d, i, x));
                }
            }
        } else {
            if spec_txout_keys_include(post, post.len() as int, x) {
                let p = choose|p: int| 0 <= p < post.len() && (#[trigger] post[p]).0 == x;
                if p < pre.len() {
                    assert(pre[p].0 == x);
                    assert(spec_txout_keys_include(pre, pre.len() as int, x));
                } else {
                    assert(post[p] == e);
                    assert(d[i].0 == x);
                    assert(spec_txout_keys_include(d, i + 1, x));
                }
            }
            if spec_txout_keys_include(g0, g0.len() as int, x) || spec_txout_keys_include(
                d,
                i + 1,
                x,
            ) {
                if spec_txout_keys_include(g0, g0.len() as int, x) || spec_txout_keys_include(
                    d,
                    i,
                    x,
                ) {
                    assert(spec_txout_keys_include(pre, pre.len() as int, x));
                    let p = choose|p: int| 0 <= p < pre.len() && (#[trigger] pre[p]).0 == x;
                    assert(post[p].0 == x);
                    assert(spec_txout_keys_include(post, post.len() as int, x));
                } else {
                    let k = choose|k: int| 0 <= k < i + 1 && (#[trigger] d[k]).0 == x;
                    assert(k == i);
                    assert(post[post.len() - 1] == e);
                    assert(spec_txout_keys_include(post, post.len() as int, x));
                }
            }
        }
    }
}

/// Two distinct transactions conflict when they spend a common outpoint.
pub open spec fn spec_conflicts(a: Tx, b: Tx) -> bool {
    a.txid != b.txid && exists|i: int, j: int|
        0 <= i < a.inputs@.len() && 0 <= j < b.inputs@.len() && a.inputs@[i] == b.inputs@[j]
}

/// The set of transactions and confirmation evidence the wallet knows of.
#[derive(Clone, Debug)]
pub struct TxGraph {
    /// Full transactions, unique by txid.
    pub txs: Vec<Tx>,
    /// Floating outputs whose transaction is not fully known, unique by
    /// outpoint.
    pub txouts: Vec<(OutPoint, TxOut)>,
    /// Candidate confirmation anchors; a transaction may carry several
    /// across reorgs, and canonicalization picks the one in the best chain.
    pub anchors: Vec<(Hash32, Anchor)>,
    /// Last time an unconfirmed transaction was seen, unique by txid.
    pub last_seen: Vec<(Hash32, u64)>,
}

impl TxGraph {
    /// Well-formedness: the keyed stores have unique keys.
    pub open spec fn wf(self) -> bool {
        &&& forall|i: int, j: int|
            0 <= i < j < self.txs@.len() ==> (#[trigger] self.txs@[i]).txid != (
            #[trigger] self.txs@[j]).txid
        &&& forall|i: int, j: int|
            0 <= i < j < self.txouts@.len() ==> (#[trigger] self.txouts@[i]).0 != (
            #[trigger] self.txouts@[j]).0
        &&& forall|i: int, j: int|
            0 <= i < j < self.last_seen@.len() ==> (#[trigger] self.last_seen@[i]).0 != (
            #[trigger] self.last_seen@[j]).0
    }

    /// Whether the graph stores a transaction with this id.
    #[verifier::inline]
    pub open spec fn spec_has_tx(self, txid: Hash32) -> bool {
        spec_txids_include(self.txs@, self.txs@.len() as int, txid)
    }

    /// Whether the graph stores a floating output at this outpoint.
    #[verifier::inline]
    pub open spec fn spec_has_txout(self, op: OutPoint) -> bool {
        spec_txout_keys_include(self.txouts@, self.txouts@.len() as int, op)
    }

    /// Whether some anchor places the transaction in a block of `chain`.
    pub open spec fn spec_anchored_in(self, chain: LocalChain, txid: Hash32) -> bool {
        exists|k: int|
            0 <= k < self.anchors@.len() && (#[trigger] self.anchors@[k]).0 == txid
                && chain.spec_contains(self.anchors@[k].1.block)
    }

    /// When the transaction was last seen unconfirmed (0 if never).
    pub open spec fn spec_last_seen(self, txid: Hash32) -> u64 {
        if exists|k: int| 0 <= k < self.last_seen@.len() && (#[trigger] self.last_seen@[k]).0
            == txid {
            self.last_seen@[choose|k: int|
                0 <= k < self.last_seen@.len() && (#[trigger] self.last_seen@[k]).0 == txid].1
        } else {
            0
        }
    }

    /// Among unconfirmed candidates, `a` beats `b` when it was seen more
    /// recently; equal times break towards the larger txid.
    pub open spec fn spec_prefer(self, a: Tx, b: Tx) -> bool {
        ||| self.spec_last_seen(a.txid) > self.spec_last_seen(b.txid)
        ||| (self.spec_last_seen(a.txid) == self.spec_last_seen(b.txid) && spec_hash_lt(
            b.txid,
            a.txid,
        ))
    }

    /// The canonical transactions: anchored in the best chain, or
    /// unconfirmed and beating every conflicting transaction. This is a
    /// pointwise predicate, so the canonical set never depends on the order
    /// in which transactions were inserted.
    pub open spec fn spec_canonical(self, chain: LocalChain, t: Tx) -> bool {
        ||| self.spec_anchored_in(chain, t.txid)
        ||| (forall|k: int|
            0 <= k < self.txs@.len() && spec_conflicts(t, #[trigger] self.txs@[k]) ==> (
            !self.spec_anchored_in(chain, self.txs@[k].txid) && self.spec_prefer(
                t,
                self.txs@[k],
            )))
    }

    /// An empty graph.
    pub fn new() -> (r: TxGraph)
        ensures
            r.wf(),
            r.txs@.len() == 0,
            r.txouts@.len() == 0,
            r.anchors@.len() == 0,
            r.last_seen@.len() == 0,
    {
        TxGraph { txs: Vec::new(), txouts: Vec::new(), anchors: Vec::new(), last_seen: Vec::new() }
    }

    /// The stored transaction with this id, if any.
    pub fn get_tx(&self, txid: &Hash32) -> (r: Option<&Tx>)
        ensures
            match r {
                Some(t) => self.txs@.contains(*t) && t.txid == *txid,
                None => !self.spec_has_tx(*txid),
            },
    {
        let mut i: usize = 0;
        while i < self.txs.len()
            invariant
                0 <= i <= self.txs@.len(),
                forall|k: int| 0 <= k < i ==> (#[trigger] self.txs@[k]).txid != *txid,
            decreases self.txs@.len() - i,
        {
            if self.txs[i].txid == *txid {
                proof {
                    assert(self.txs@.contains(self.txs@[i as int]));
                }
                return Some(&self.txs[i]);
            }
            i += 1;
        }
        None
    }

    /// Insert a whole transaction, keyed by its id. Idempotent: a second
    /// insertion of a known id changes nothing and yields an empty delta.
    pub fn insert_tx(&mut self, tx: Tx) -> (delta: GraphChangeSet)
        requires
            old(self).wf(),
        ensures
            final(self).wf(),
            final(self).txouts@ == old(self).txouts@,
            final(self).anchors@ == old(self).anchors@,
            final(self).last_seen@ == old(self).last_seen@,
            delta.txouts@.len() == 0 && delta.anchors@.len() == 0 && delta.last_seen@.len() == 0,
            if old(self).spec_has_tx(tx.txid) {
                final(self).txs@ == old(self).txs@ && delta.txs@.len() == 0
            } else {
                final(self).txs@ == old(self).txs@.push(tx) && delta.txs@.len() == 1 && tx_view(
                    delta.txs@[0],
                ) == tx_view(tx)
            },
    {
        let mut i: usize = 0;
        while i < self.txs.len()
            invariant
                *self == *old(self),
                old(self).wf(),
                0 <= i <= self.txs@.len(),
                forall|k: int| 0 <= k < i ==> (#[trigger] self.txs@[k]).txid != tx.txid,
            decreases self.txs@.len() - i,
        {
            if self.txs[i].txid == tx.txid {
                proof {
                    assert(old(self).spec_has_tx(tx.txid)) by {
                        assert(self.txs@[i as int].txid == tx.txid);
                    }
                }
                return GraphChangeSet::new();
            }
            i += 1;
        }
        let mut delta = GraphChangeSet::new();
        delta.txs.push(copy_tx(&tx));
        self.txs.push(tx);
        delta
    }

    /// Insert a floating output, keyed by outpoint. Idempotent.
    pub fn insert_txout(&mut self, op: OutPoint, txo: TxOut) -> (delta: GraphChangeSet)
        requires
            old(self).wf(),
        ensures
            final(self).wf(),
            final(self).txs@ == old(self).txs@,
            final(self).anchors@ == old(self).anchors@,
            final(self).last_seen@ == old(self).last_seen@,
            delta.txs@.len() == 0 && delta.anchors@.len() == 0 && delta.last_seen@.len() == 0,
            if old(self).spec_has_txout(op) {
                final(self).txouts@ == old(self).txouts@ && delta.txouts@.len() == 0
            } else {
                final(self).txouts@ == old(self).txouts@.push((op, txo)) && delta.txouts@.len()
                    == 1 && delta.txouts@[0].0 == op && txout_view(delta.txouts@[0].1)
                    == txout_view(txo)
            },
    {
        let mut i: usize = 0;
        while i < self.txouts.len()
            invariant
                *self == *old(self),
                old(self).wf(),
                0 <= i <= self.txouts@.len(),
                forall|k: int| 0 <= k < i ==> (#[trigger] self.txouts@[k]).0 != op,
            decreases self.txouts@.len() - i,
        {
            if self.txouts[i].0 == op {
                proof {
                    assert(old(self).spec_has_txout(op)) by {
                        assert(self.txouts@[i as int].0 == op);
                    }
                }
                return GraphChangeSet::new();
            }
            i += 1;
        }
        let mut delta = GraphChangeSet::new();
        delta.txouts.push((op, copy_txout(&txo)));
        self.txouts.push((op, txo));
        delta
    }

    /// Insert a confirmation anchor. Idempotent on identical anchors; a
    /// transaction may accumulate several distinct candidate anchors.
    pub fn insert_anchor(&mut self, txid: Hash32, anchor: Anchor) -> (delta: GraphChangeSet)
        requires
            old(self).wf(),
        ensures
            final(self).wf(),
            final(self).txs@ == old(self).txs@,
            final(self).txouts@ == old(self).txouts@,
            final(self).last_seen@ == old(self).last_seen@,
            delta.txs@.len() == 0 && delta.txouts@.len() == 0 && delta.last_seen@.len() == 0,
            if old(self).anchors@.contains((txid, anchor)) {
                final(self).anchors@ == old(self).anchors@ && delta.anchors@.len() == 0
            } else {
                final(self).anchors@ == old(self).anchors@.push((txid, anchor))
                    && delta.anchors@ == seq![(txid, anchor)]
            },
    {
        let mut i: usize = 0;
        while i < self.anchors.len()
            invariant
                *self == *old(self),
                old(self).wf(),
                0 <= i <= self.anchors@.len(),
                forall|k: int| 0 <= k < i ==> (#[trigger] self.anchors@[k]) != (txid, anchor),
            decreases self.anchors@.len() - i,
        {
            let e = self.anchors[i];
            if e.0 == txid && e.1 == anchor {
                proof {
                    assert(self.anchors@[i as int] == (txid, anchor));
                    assert(self.anchors@.contains((txid, anchor)));
                }
                return GraphChangeSet::new();
            }
            i += 1;
        }
        proof {
            if old(self).anchors@.contains((txid, anchor)) {
                let k = choose|k: int|
                    0 <= k < self.anchors@.len() && self.anchors@[k] == (txid, anchor);
            }
        }
        self.anchors.push((txid, anchor));
        let mut delta = GraphChangeSet::new();
        delta.anchors.push((txid, anchor));
        proof {
            assert(delta.anchors@ =~= seq![(txid, anchor)]);
        }
        delta
    }

    /// Raise the last-seen time of a transaction. The recorded time only
    /// ever increases; a stale observation changes nothing.
    pub fn insert_seen_at(&mut self, txid: Hash32, time: u64) -> (delta: GraphChangeSet)
        requires
            old(self).wf(),
        ensures
            final(self).wf(),
            final(self).txs@ == old(self).txs@,
            final(self).txouts@ == old(self).txouts@,
            final(self).anchors@ == old(self).anchors@,
            delta.txs@.len() == 0 && delta.txouts@.len() == 0 && delta.anchors@.len() == 0,
            final(self).spec_last_seen(txid) == if time > old(self).spec_last_seen(txid) {
                time
            } else {
                old(self).spec_last_seen(txid)
            },
            forall|x: Hash32|
                x != txid ==> final(self).spec_last_seen(x) == old(self).spec_last_seen(x),
            if time > old(self).spec_last_seen(txid) {
                delta.last_seen@ == seq![(txid, time)]
            } else {
                delta.last_seen@.len() == 0
            },
    {
        let ghost pre = self.last_seen@;
        let mut i: usize = 0;
        while i < self.last_seen.len()
            invariant
                *self == *old(self),
                old(self).wf(),
                pre == self.last_seen@,
                0 <= i <= pre.len(),
                forall|k: int| 0 <= k < i ==> (#[trigger] pre[k]).0 != txid,
            decreases pre.len() - i,
        {
            let e = self.last_seen[i];
            if e.0 == txid {
                proof {
                    lemma_last_seen_at(*self, txid, i as int);
                }
                if time > e.1 {
                    self.last_seen[i] = (txid, time);
                    proof {
                        lemma_last_seen_at(*self, txid, i as int);
                        assert forall|x: Hash32| x != txid implies final(self).spec_last_seen(x)
                            == old(self).spec_last_seen(x) by {
                            lemma_last_seen_frame(*old(self), *self, x, i as int);
                        }
                    }
                    let mut delta = GraphChangeSet::new();
                    delta.last_seen.push((txid, time));
                    proof {
                        assert(delta.last_seen@ =~= seq![(txid, time)]);
                    }
                    return delta;
                } else {
                    return GraphChangeSet::new();
                }
            }
            i += 1;
        }
        proof {
            assert(old(self).spec_last_seen(txid) == 0) by {
                if exists|k: int| 0 <= k < pre.len() && (#[trigger] pre[k]).0 == txid {
                    let k = choose|k: int| 0 <= k < pre.len() && (#[trigger] pre[k]).0 == txid;
                }
            }
        }
        if time > 0 {
            self.last_seen.push((txid, time));
            proof {
                lemma_last_seen_at(*self, txid, pre.len() as int);
                assert forall|x: Hash32| x != txid implies final(self).spec_last_seen(x) == old(
                    self,
                ).spec_last_seen(x) by {
                    lemma_last_seen_frame_push(*old(self), *self, x);
                }
            }
            let mut delta = GraphChangeSet::new();
            delta.last_seen.push((txid, time));
            proof {
                assert(delta.last_seen@ =~= seq![(txid, time)]);
            }
            delta
        } else {
            GraphChangeSet::new()
        }
    }
}

/// In a well-formed store the last-seen value is the value at any index
/// whose key matches.
proof fn lemma_last_seen_at(g: TxGraph, txid: Hash32, i: int)
    requires
        g.wf(),
        0 <= i < g.last_seen@.len(),
        g.last_seen@[i].0 == txid,
    ensures
        g.spec_last_seen(txid) == g.last_seen@[i].1,
{
    let k = choose|k: int| 0 <= k < g.last_seen@.len() && (#[trigger] g.last_seen@[k]).0 == txid;
    if k != i {
        if k < i {
            assert(g.last_seen@[k].0 != g.last_seen@[i].0);
        } else {
            assert(g.last_seen@[i].0 != g.last_seen@[k].0);
        }
    }
}

/// Updating one keyed entry leaves every other key's value unchanged.
proof fn lemma_last_seen_frame(g0: TxGraph, g1: TxGraph, x: Hash32, i: int)
    requires
        g0.wf(),
        0 <= i < g0.last_seen@.len(),
        g1.last_seen@.len() == g0.last_seen@.len(),
        forall|k: int|
            0 <= k < g0.last_seen@.len() && k != i ==> g1.last_seen@[k] == g0.last_seen@[k],
        g1.last_seen@[i].0 == g0.last_seen@[i].0,
        x != g0.last_seen@[i].0,
    ensures
        g1.spec_last_seen(x) == g0.spec_last_seen(x),
{
    let len = g0.last_seen@.len() as int;
    assert forall|k: int| 0 <= k < len implies (#[trigger] g1.last_seen@[k]).0
        == g0.last_seen@[k].0 by {
        if k != i {
            assert(g1.last_seen@[k] == g0.last_seen@[k]);
        }
    }
    if exists|k: int| 0 <= k < len && (#[trigger] g0.last_seen@[k]).0 == x {
        let k0 = choose|k0: int| 0 <= k0 < len && (#[trigger] g0.last_seen@[k0]).0 == x;
        assert(g1.last_seen@[k0].0 == x);
        let k1 = choose|k1: int|
            0 <= k1 < g1.last_seen@.len() && (#[trigger] g1.last_seen@[k1]).0 == x;
        assert(g0.last_seen@[k1].0 == x);
        if k0 < k1 {
            assert(g0.last_seen@[k0].0 != g0.last_seen@[k1].0);
        } else if k1 < k0 {
            assert(g0.last_seen@[k1].0 != g0.last_seen@[k0].0);
        }
        assert(k0 != i);
        assert(g1.last_seen@[k0] == g0.last_seen@[k0]);
    } else {
        if exists|k: int| 0 <= k < g1.last_seen@.len() && (#[trigger] g1.last_seen@[k]).0 == x {
            let k = choose|k: int|
                0 <= k < g1.last_seen@.len() && (#[trigger] g1.last_seen@[k]).0 == x;
            assert(g0.last_seen@[k].0 == x);
        }
    }
}

/// Appending a new key leaves every other key's value unchanged.
proof fn lemma_last_seen_frame_push(g0: TxGraph, g1: TxGraph, x: Hash32)
    requires
        g0.wf(),
        g1.last_seen@.len() == g0.last_seen@.len() + 1,
        forall|k: int| 0 <= k < g0.last_seen@.len() ==> g1.last_seen@[k] == g0.last_seen@[k],
        x != g1.last_seen@[g0.last_seen@.len() as int].0,
    ensures
        g1.spec_last_seen(x) == g0.spec_last_seen(x),
{
    let len0 = g0.last_seen@.len() as int;
    if exists|k: int| 0 <= k < len0 && (#[trigger] g0.last_seen@[k]).0 == x {
        let k0 = choose|k0: int| 0 <= k0 < len0 && (#[trigger] g0.last_seen@[k0]).0 == x;
        assert(g1.last_seen@[k0].0 == x);
        let k1 = choose|k1: int|
            0 <= k1 < g1.last_seen@.len() && (#[trigger] g1.last_seen@[k1]).0 == x;
        assert(k1 != len0);
        assert(g1.last_seen@[k1] == g0.last_seen@[k1]);
        assert(g0.last_seen@[k1].0 == x);
        if k0 < k1 {
            assert(g0.last_seen@[k0].0 != g0.last_seen@[k1].0);
        } else if k1 < k0 {
            assert(g0.last_seen@[k1].0 != g0.last_seen@[k0].0);
        }
        let kk = choose|kk: int| 0 <= kk < len0 && (#[trigger] g0.last_seen@[kk]).0 == x;
        if kk < k0 {
            assert(g0.last_seen@[kk].0 != g0.last_seen@[k0].0);
        } else if k0 < kk {
            assert(g0.last_seen@[k0].0 != g0.last_seen@[kk].0);
        }
    } else {
        if exists|k: int| 0 <= k < g1.last_seen@.len() && (#[trigger] g1.last_seen@[k]).0 == x {
            let k = choose|k: int|
                0 <= k < g1.last_seen@.len() && (#[trigger] g1.last_seen@[k]).0 == x;
            if k < g0.last_seen@.len() {
                assert(g0.last_seen@[k].0 == x);
            }
        }
    }
}


/// A wallet-owned outpoint together with the keychain and derivation index
/// that recognized it.
#[derive(Clone, Copy, Debug, PartialEq, Eq, Structural)]
pub struct IndexedOutPoint {
    /// The keychain that owns the output's script.
    pub keychain: u8,
    /// The derivation index of that script.
    pub index: u32,
    /// The output's location.
    pub outpoint: OutPoint,
}

/// A derived, read-only view of one wallet-owned output under the current
/// chain: its content, who spent it (if anyone), and its confirmation.
#[derive(Clone, Debug)]
pub struct FullTxOut {
    /// The keychain that owns the output's script.
    pub keychain: u8,
    /// The derivation index of that script.
    pub index: u32,
    /// The output's location.
    pub outpoint: OutPoint,
    /// The amount in satoshis.
    pub value: u64,
    /// The locking script.
    pub spk: Vec<u8>,
    /// Whether the creating transaction is a coinbase.
    pub is_coinbase: bool,
    /// The canonical transaction spending this output, if any.
    pub spent_by: Option<Hash32>,
    /// The anchor placing the creating transaction in the current chain,
    /// if it is confirmed.
    pub anchor: Option<Anchor>,
}

impl TxGraph {
    /// The outpoint is an output of a stored canonical transaction.
    pub open spec fn spec_spendable_at(self, chain: LocalChain, op: OutPoint) -> bool {
        exists|k: int|
            0 <= k < self.txs@.len() && (#[trigger] self.txs@[k]).txid == op.txid
                && self.spec_canonical(chain, self.txs@[k]) && op.vout < self.txs@[k].outputs@.len()
    }

    /// The canonical transaction with id `x` spends `op`.
    pub open spec fn spec_spent_by(self, chain: LocalChain, op: OutPoint, x: Hash32) -> bool {
        exists|k: int|
            0 <= k < self.txs@.len() && (#[trigger] self.txs@[k]).txid == x && self.spec_canonical(
                chain,
                self.txs@[k],
            ) && self.txs@[k].inputs@.contains(op)
    }

    /// A listed txout is genuine: its content comes from the canonical
    /// transaction creating its outpoint, its spender (or absence of one)
    /// is canonical, and its anchor (or absence of one) matches the chain.
    pub open spec fn spec_full_txout_ok(self, chain: LocalChain, f: FullTxOut) -> bool {
        &&& exists|k: int|
            0 <= k < self.txs@.len() && (#[trigger] self.txs@[k]).txid == f.outpoint.txid
                && self.spec_canonical(chain, self.txs@[k]) && f.outpoint.vout
                < self.txs@[k].outputs@.len() && txout_view(
                self.txs@[k].outputs@[f.outpoint.vout as int],
            ) == (TxOutV { value: f.value, spk: f.spk@ }) && self.txs@[k].is_coinbase
                == f.is_coinbase
        &&& match f.spent_by {
            Some(x) => self.spec_spent_by(chain, f.outpoint, x),
            None => !(exists|x: Hash32| self.spec_spent_by(chain, f.outpoint, x)),
        }
        &&& match f.anchor {
            Some(a) => self.anchors@.contains((f.outpoint.txid, a)) && chain.spec_contains(
                a.block,
            ),
            None => !self.spec_anchored_in(chain, f.outpoint.txid),
        }
    }

    /// Whether some anchor places the transaction in a block of `chain`,
    /// and which.
    fn find_chain_anchor(&self, chain: &LocalChain, txid: &Hash32) -> (r: Option<Anchor>)
        requires
            chain.wf(),
        ensures
            match r {
                Some(a) => self.anchors@.contains((*txid, a)) && chain.spec_contains(a.block),
                None => !self.spec_anchored_in(*chain, *txid),
            },
    {
        let mut k: usize = 0;
        while k < self.anchors.len()
            invariant
                chain.wf(),
                0 <= k <= self.anchors@.len(),
                forall|p: int|
                    0 <= p < k ==> !((#[trigger] self.anchors@[p]).0 == *txid
                        && chain.spec_contains(self.anchors@[p].1.block)),
            decreases self.anchors@.len() - k,
        {
            let e = self.anchors[k];
            if e.0 == *txid {
                match chain.get(e.1.block.height) {
                    Some(c) => {
                        if c.hash == e.1.block.hash {
                            proof {
                                assert(c == e.1.block);
                                assert(self.anchors@.contains((*txid, e.1))) by {
                                    assert(self.anchors@[k as int] == (*txid, e.1));
                                }
                            }
                            return Some(e.1);
                        }
                        proof {
                            if chain.spec_contains(e.1.block) {
                                crate::chain::lemma_chain_unique_height(*chain, c, e.1.block);
                            }
                        }
                    },
                    None => {
                        proof {
                            if chain.spec_contains(e.1.block) {
                                let q = choose|q: int|
                                    0 <= q < chain.blocks@.len() && chain.blocks@[q] == e.1.block;
                                assert(chain.blocks@[q].height == e.1.block.height);
                            }
                        }
                    },
                }
            }
            k += 1;
        }
        None
    }

    /// Whether some anchor places the transaction in a block of `chain`.
    fn anchored_in(&self, chain: &LocalChain, txid: &Hash32) -> (r: bool)
        requires
            chain.wf(),
        ensures
            r == self.spec_anchored_in(*chain, *txid),
    {
        self.find_chain_anchor(chain, txid).is_some()
    }

    /// The last-seen time of a transaction (0 if never seen).
    fn last_seen_of(&self, txid: &Hash32) -> (r: u64)
        requires
            self.wf(),
        ensures
            r == self.spec_last_seen(*txid),
    {
        let mut k: usize = 0;
        while k < self.last_seen.len()
            invariant
                self.wf(),
                0 <= k <= self.last_seen@.len(),
                forall|p: int| 0 <= p < k ==> (#[trigger] self.last_seen@[p]).0 != *txid,
            decreases self.last_seen@.len() - k,
        {
            let e = self.last_seen[k];
            if e.0 == *txid {
                proof {
                    lemma_last_seen_at(*self, *txid, k as int);
                }
                return e.1;
            }
            k += 1;
        }
        proof {
            if exists|p: int| 0 <= p < self.last_seen@.len() && (#[trigger] self.last_seen@[p]).0
                == *txid {
                let p = choose|p: int|
                    0 <= p < self.last_seen@.len() && (#[trigger] self.last_seen@[p]).0 == *txid;
            }
        }
        0
    }

    /// Whether `t` is canonical under `chain`.
    pub fn is_canonical(&self, chain: &LocalChain, t: &Tx) -> (r: bool)
        requires
            self.wf(),
            chain.wf(),
        ensures
            r == self.spec_canonical(*chain, *t),
    {
        if self.anchored_in(chain, &t.txid) {
            return true;
        }
        let mut k: usize = 0;
        while k < self.txs.len()
            invariant
                self.wf(),
                chain.wf(),
                !self.spec_anchored_in(*chain, t.txid),
                0 <= k <= self.txs@.len(),
                forall|p: int|
                    0 <= p < k && spec_conflicts(*t, #[trigger] self.txs@[p]) ==> (
                    !self.spec_anchored_in(*chain, self.txs@[p].txid) && self.spec_prefer(
                        *t,
                        self.txs@[p],
                    )),
            decreases self.txs@.len() - k,
        {
            let other = &self.txs[k];
            if conflicts_with(t, other) {
                if self.anchored_in(chain, &other.txid) {
                    proof {
                        assert(spec_conflicts(*t, self.txs@[k as int]));
                    }
                    return false;
                }
                let mine = self.last_seen_of(&t.txid);
                let theirs = self.last_seen_of(&other.txid);
                let wins = mine > theirs || (mine == theirs && crate::types::hash_lt(
                    &other.txid,
                    &t.txid,
                ));
                if !wins {
                    proof {
                        assert(spec_conflicts(*t, self.txs@[k as int]));
                        assert(!self.spec_prefer(*t, self.txs@[k as int]));
                    }
                    return false;
                }
            }
            k += 1;
        }
        true
    }

    /// The canonical transactions under `chain`, in storage order.
    ///
    /// Canonicity is a pointwise predicate over the stored set, so the
    /// result does not depend on the order in which transactions or anchors
    /// were inserted, only on what was inserted.
    pub fn list_canonical_txs(&self, chain: &LocalChain) -> (r: Vec<Tx>)
        requires
            self.wf(),
            chain.wf(),
        ensures
            seq_tx_views(r@) == seq_tx_views(self.spec_canonical_seq(*chain)),
    {
        let mut r: Vec<Tx> = Vec::new();
        let mut i: usize = 0;
        while i < self.txs.len()
            invariant
                self.wf(),
                chain.wf(),
                0 <= i <= self.txs@.len(),
                seq_tx_views(r@) == seq_tx_views(self.spec_canonical_prefix(*chain, i as int)),
            decreases self.txs@.len() - i,
        {
            let ghost pre = r@;
            let ghost gi = i as int;
            if self.is_canonical(chain, &self.txs[i]) {
                let c = copy_tx(&self.txs[i]);
                let ghost gc = c;
                r.push(c);
                proof {
                    lemma_canonical_prefix_step(*self, *chain, gi);
                    assert(r@ == pre.push(gc));
                    lemma_seq_tx_views_push(pre, gc);
                    lemma_seq_tx_views_push(
                        self.spec_canonical_prefix(*chain, gi),
                        self.txs@[gi],
                    );
                    assert(tx_view(gc) == tx_view(self.txs@[gi]));
                    assert(seq_tx_views(r@) =~= seq_tx_views(
                        self.spec_canonical_prefix(*chain, gi + 1),
                    ));
                }
            } else {
                proof {
                    lemma_canonical_prefix_step(*self, *chain, gi);
                }
            }
            i += 1;
        }
        proof {
            assert(self.txs@.take(self.txs@.len() as int) =~= self.txs@);
        }
        r
    }

    /// The canonical transactions among the first `i` stored ones.
    pub open spec fn spec_canonical_prefix(self, chain: LocalChain, i: int) -> Seq<Tx> {
        self.txs@.take(i).filter(|t: Tx| self.spec_canonical(chain, t))
    }

    /// The canonical transactions among all stored ones.
    pub open spec fn spec_canonical_seq(self, chain: LocalChain) -> Seq<Tx> {
        self.spec_canonical_prefix(chain, self.txs@.len() as int)
    }
}

/// The contents of a list of transactions.
pub open spec fn seq_tx_views(s: Seq<Tx>) -> Seq<crate::types::TxV> {
    s.map_values(|t: Tx| tx_view(t))
}

/// Mapping contents commutes with appending one transaction.
proof fn lemma_seq_tx_views_push(s: Seq<Tx>, t: Tx)
    ensures
        seq_tx_views(s.push(t)) == seq_tx_views(s).push(tx_view(t)),
{
    assert(seq_tx_views(s.push(t)) =~= seq_tx_views(s).push(tx_view(t)));
}

/// Extending the canonical prefix by one transaction appends it exactly
/// when it is canonical.
proof fn lemma_canonical_prefix_step(g: TxGraph, chain: LocalChain, i: int)
    requires
        0 <= i < g.txs@.len(),
    ensures
        g.spec_canonical_prefix(chain, i + 1) == if g.spec_canonical(chain, g.txs@[i]) {
            g.spec_canonical_prefix(chain, i).push(g.txs@[i])
        } else {
            g.spec_canonical_prefix(chain, i)
        },
{
    reveal(Seq::filter);
    let pred = |t: Tx| g.spec_canonical(chain, t);
    let s1 = g.txs@.take(i + 1);
    assert(s1.drop_last() =~= g.txs@.take(i));
    assert(s1.last() == g.txs@[i]);
}

/// Whether two transactions spend a common outpoint.
pub fn conflicts_with(a: &Tx, b: &Tx) -> (r: bool)
    ensures
        r == spec_conflicts(*a, *b),
{
    if a.txid == b.txid {
        return false;
    }
    let mut i: usize = 0;
    while i < a.inputs.len()
        invariant
            a.txid != b.txid,
            0 <= i <= a.inputs@.len(),
            forall|p: int, q: int|
                0 <= p < i && 0 <= q < b.inputs@.len() ==> (#[trigger] a.inputs@[p]) != (
                #[trigger] b.inputs@[q]),
        decreases a.inputs@.len() - i,
    {
        let mut j: usize = 0;
        while j < b.inputs.len()
            invariant
                a.txid != b.txid,
                0 <= i < a.inputs@.len(),
                0 <= j <= b.inputs@.len(),
                forall|q: int| 0 <= q < j ==> (#[trigger] b.inputs@[q]) != a.inputs@[i as int],
            decreases b.inputs@.len() - j,
        {
            if a.inputs[i] == b.inputs[j] {
                proof {
                    assert(a.inputs@[i as int] == b.inputs@[j as int]);
                }
                return true;
            }
            j += 1;
        }
        i += 1;
    }
    false
}


impl TxGraph {
    /// The canonical transaction spending `op`, if any.
    fn find_spender(&self, chain: &LocalChain, op: OutPoint) -> (r: Option<Hash32>)
        requires
            self.wf(),
            chain.wf(),
        ensures
            match r {
                Some(x) => self.spec_spent_by(*chain, op, x),
                None => !(exists|x: Hash32| self.spec_spent_by(*chain, op, x)),
            },
    {
        let mut k: usize = 0;
        while k < self.txs.len()
            invariant
                self.wf(),
                chain.wf(),
                0 <= k <= self.txs@.len(),
                forall|p: int|
                    0 <= p < k ==> !(self.spec_canonical(*chain, #[trigger] self.txs@[p])
                        && self.txs@[p].inputs@.contains(op)),
            decreases self.txs@.len() - k,
        {
            let t = &self.txs[k];
            if inputs_contain(t, op) && self.is_canonical(chain, t) {
                proof {
                    assert(self.spec_spent_by(*chain, op, t.txid)) by {
                        assert(self.txs@[k as int].txid == t.txid);
                    }
                }
                return Some(t.txid);
            }
            k += 1;
        }
        proof {
            if exists|x: Hash32| self.spec_spent_by(*chain, op, x) {
                let x = choose|x: Hash32| self.spec_spent_by(*chain, op, x);
                let p = choose|p: int|
                    0 <= p < self.txs@.len() && (#[trigger] self.txs@[p]).txid == x
                        && self.spec_canonical(*chain, self.txs@[p]) && self.txs@[
                        p
                    ].inputs@.contains(op);
            }
        }
        None
    }

    /// Fold the canonical view into full txouts for the wallet's indexed
    /// outpoints. An outpoint is listed exactly when a stored canonical
    /// transaction creates it; its content, spender and anchor all come
    /// from the canonical view.
    pub fn filter_chain_txouts(&self, chain: &LocalChain, ops: &Vec<IndexedOutPoint>) -> (r: Vec<
        FullTxOut,
    >)
        requires
            self.wf(),
            chain.wf(),
            forall|i: int, j: int|
                0 <= i < j < ops@.len() ==> (#[trigger] ops@[i]).outpoint != (
                #[trigger] ops@[j]).outpoint,
        ensures
            forall|k: int|
                0 <= k < r@.len() ==> self.spec_full_txout_ok(*chain, #[trigger] r@[k]),
            forall|k: int|
                0 <= k < r@.len() ==> spec_entry_matches(ops@, #[trigger] r@[k]),
            // No outpoint is listed twice.
            forall|k1: int, k2: int|
                0 <= k1 < k2 < r@.len() ==> (#[trigger] r@[k1]).outpoint != (
                #[trigger] r@[k2]).outpoint,
            forall|l: int|
                0 <= l < ops@.len() && self.spec_spendable_at(
                    *chain,
                    (#[trigger] ops@[l]).outpoint,
                ) ==> exists|k: int|
                    0 <= k < r@.len() && (#[trigger] r@[k]).outpoint == ops@[l].outpoint,
    {
        let mut r: Vec<FullTxOut> = Vec::new();
        let ghost mut srcs: Seq<int> = Seq::empty();
        let mut l: usize = 0;
        while l < ops.len()
            invariant
                self.wf(),
                chain.wf(),
                0 <= l <= ops@.len(),
                forall|k: int|
                    0 <= k < r@.len() ==> self.spec_full_txout_ok(*chain, #[trigger] r@[k]),
                srcs.len() == r@.len(),
                forall|k: int|
                    0 <= k < r@.len() ==> 0 <= #[trigger] srcs[k] < l && ops@[srcs[k]].keychain
                        == r@[k].keychain && ops@[srcs[k]].index == r@[k].index && ops@[
                        srcs[k]
                    ].outpoint == r@[k].outpoint,
                forall|k1: int, k2: int| 0 <= k1 < k2 < srcs.len() ==> srcs[k1] < srcs[k2],
                forall|p: int|
                    0 <= p < l && self.spec_spendable_at(*chain, (#[trigger] ops@[p]).outpoint)
                        ==> exists|k: int|
                        0 <= k < r@.len() && (#[trigger] r@[k]).outpoint == ops@[p].outpoint,
            decreases ops@.len() - l,
        {
            let e = ops[l];
            let ghost pre = r@;
            match self.get_tx(&e.outpoint.txid) {
                Some(t) => {
                    let in_range = (e.outpoint.vout as usize) < t.outputs.len();
                    if in_range && self.is_canonical(chain, t) {
                        let txo = &t.outputs[e.outpoint.vout as usize];
                        let spent_by = self.find_spender(chain, e.outpoint);
                        let anchor = self.find_chain_anchor(chain, &e.outpoint.txid);
                        let f = FullTxOut {
                            keychain: e.keychain,
                            index: e.index,
                            outpoint: e.outpoint,
                            value: txo.value,
                            spk: crate::types::copy_bytes(&txo.spk),
                            is_coinbase: t.is_coinbase,
                            spent_by,
                            anchor,
                        };
                        let ghost gf = f;
                        r.push(f);
                        proof {
                            let gl = l as int;
                            srcs = srcs.push(gl);
                            let kt = choose|kt: int|
                                0 <= kt < self.txs@.len() && self.txs@[kt] == *t;
                            assert(self.spec_full_txout_ok(*chain, gf)) by {
                                assert(self.txs@[kt].txid == gf.outpoint.txid);
                                assert(txout_view(self.txs@[kt].outputs@[gf.outpoint.vout as int])
                                    == (TxOutV { value: gf.value, spk: gf.spk@ }));
                            }
                            assert(r@ == pre.push(gf));
                            assert(ops@[gl] == (IndexedOutPoint {
                                keychain: gf.keychain,
                                index: gf.index,
                                outpoint: gf.outpoint,
                            }));
                            assert(r@[r@.len() - 1] == gf);
                            assert forall|k: int| 0 <= k < r@.len() implies self.spec_full_txout_ok(
                                *chain,
                                #[trigger] r@[k],
                            ) by {
                                if k < pre.len() {
                                    assert(r@[k] == pre[k]);
                                }
                            }
                            assert forall|k: int| 0 <= k < r@.len() implies 0 <= #[trigger] srcs[k]
                                < ops@.len() && ops@[srcs[k]].keychain == r@[k].keychain && ops@[
                                srcs[k]
                            ].index == r@[k].index && ops@[srcs[k]].outpoint
                                == r@[k].outpoint by {
                                if k < pre.len() {
                                    assert(r@[k] == pre[k]);
                                } else {
                                    assert(r@[k] == gf && srcs[k] == gl);
                                    assert(ops@[gl].keychain == gf.keychain && ops@[gl].index
                                        == gf.index && ops@[gl].outpoint == gf.outpoint);
                                }
                            }
                            assert forall|p: int|
                                0 <= p < gl + 1 && self.spec_spendable_at(
                                    *chain,
                                    (#[trigger] ops@[p]).outpoint,
                                ) implies exists|k: int|
                                0 <= k < r@.len() && (#[trigger] r@[k]).outpoint
                                    == ops@[p].outpoint by {
                                if p < gl {
                                    let k = choose|k: int|
                                        0 <= k < pre.len() && (#[trigger] pre[k]).outpoint
                                            == ops@[p].outpoint;
                                    assert(r@[k] == pre[k]);
                                } else {
                                    assert((r@[r@.len() - 1]).outpoint == ops@[p].outpoint);
                                }
                            }
                        }
                    } else {
                        proof {
                            if self.spec_spendable_at(*chain, e.outpoint) {
                                let kt = choose|kt: int|
                                    0 <= kt < self.txs@.len() && (#[trigger] self.txs@[kt]).txid
                                        == e.outpoint.txid && self.spec_canonical(
                                        *chain,
                                        self.txs@[kt],
                                    ) && e.outpoint.vout < self.txs@[kt].outputs@.len();
                                let ko = choose|ko: int|
                                    0 <= ko < self.txs@.len() && self.txs@[ko] == *t;
                                if kt != ko {
                                    if kt < ko {
                                        assert(self.txs@[kt].txid != self.txs@[ko].txid);
                                    } else {
                                        assert(self.txs@[ko].txid != self.txs@[kt].txid);
                                    }
                                }
                                assert(self.txs@[kt] == *t);
                            }
                        }
                    }
                },
                None => {
                    proof {
                        if self.spec_spendable_at(*chain, e.outpoint) {
                            let kt = choose|kt: int|
                                0 <= kt < self.txs@.len() && (#[trigger] self.txs@[kt]).txid
                                    == e.outpoint.txid && self.spec_canonical(
                                    *chain,
                                    self.txs@[kt],
                                ) && e.outpoint.vout < self.txs@[kt].outputs@.len();
                        }
                    }
                },
            }
            l += 1;
        }
        proof {
            assert forall|k1: int, k2: int| 0 <= k1 < k2 < r@.len() implies (
            #[trigger] r@[k1]).outpoint != (#[trigger] r@[k2]).outpoint by {
                assert(srcs[k1] < srcs[k2]);
                assert(ops@[srcs[k1]].outpoint != ops@[srcs[k2]].outpoint);
            }
            assert forall|k: int| 0 <= k < r@.len() implies spec_entry_matches(
                ops@,
                #[trigger] r@[k],
            ) by {
                let q = srcs[k];
                assert(0 <= q < ops@.len() && (#[trigger] ops@[q]).keychain == r@[k].keychain
                    && ops@[q].index == r@[k].index && ops@[q].outpoint == r@[k].outpoint);
            }
        }
        r
    }
}

/// Some requested entry carries exactly this txout's keychain, index and
/// outpoint.
pub open spec fn spec_entry_matches(ops: Seq<IndexedOutPoint>, f: FullTxOut) -> bool {
    exists|l: int|
        0 <= l < ops.len() && (#[trigger] ops[l]).keychain == f.keychain && ops[l].index == f.index
            && ops[l].outpoint == f.outpoint
}

/// Whether the transaction spends `op`.
fn inputs_contain(t: &Tx, op: OutPoint) -> (r: bool)
    ensures
        r == t.inputs@.contains(op),
{
    let mut i: usize = 0;
    while i < t.inputs.len()
        invariant
            0 <= i <= t.inputs@.len(),
            forall|p: int| 0 <= p < i ==> (#[trigger] t.inputs@[p]) != op,
        decreases t.inputs@.len() - i,
    {
        if t.inputs[i] == op {
            proof {
                assert(t.inputs@[i as int] == op);
            }
            return true;
        }
        i += 1;
    }
    false
}


/// Sat amounts bucketed by confirmation status and trust.
#[derive(Clone, Copy, Debug, PartialEq, Eq, Structural)]
pub struct Balance {
    /// Confirmed and, for coinbase outputs, mature.
    pub confirmed: u64,
    /// Unconfirmed outputs on the internal (change) keychain.
    pub trusted_pending: u64,
    /// Unconfirmed outputs on the external (receive) keychain.
    pub untrusted_pending: u64,
    /// Coinbase outputs that have not matured yet.
    pub immature: u64,
}

/// Addition that stops at the largest representable amount.
pub open spec fn spec_sat_add(a: u64, b: u64) -> u64 {
    if a + b > u64::MAX {
        u64::MAX
    } else {
        (a + b) as u64
    }
}

/// Whether a coinbase output confirmed by `anchor` may be spent at
/// `tip_height`.
pub open spec fn spec_mature(anchor: Anchor, tip_height: u32) -> bool {
    anchor.block.height + COINBASE_MATURITY <= tip_height + 1
}

/// The balance bucket of one unspent txout: 0 confirmed, 1 trusted
/// pending, 2 untrusted pending, 3 immature.
pub open spec fn spec_bucket(f: FullTxOut, tip_height: u32) -> int {
    if f.is_coinbase && !(f.anchor is Some && spec_mature(f.anchor->Some_0, tip_height)) {
        3
    } else if f.anchor is Some {
        0
    } else if f.keychain == INTERNAL_KEYCHAIN {
        1
    } else {
        2
    }
}

/// The balance of a list of txouts: every unspent output's value is added
/// to exactly one bucket (saturating at the largest representable amount).
pub open spec fn spec_balance(s: Seq<FullTxOut>, tip_height: u32) -> Balance
    decreases s.len(),
{
    if s.len() == 0 {
        Balance { confirmed: 0, trusted_pending: 0, untrusted_pending: 0, immature: 0 }
    } else {
        let rest = spec_balance(s.drop_first(), tip_height);
        let f = s[0];
        if f.spent_by is Some {
            rest
        } else {
            let b = spec_bucket(f, tip_height);
            if b == 0 {
                Balance { confirmed: spec_sat_add(rest.confirmed, f.value), ..rest }
            } else if b == 1 {
                Balance { trusted_pending: spec_sat_add(rest.trusted_pending, f.value), ..rest }
            } else if b == 2 {
                Balance { untrusted_pending: spec_sat_add(rest.untrusted_pending, f.value), ..rest }
            } else {
                Balance { immature: spec_sat_add(rest.immature, f.value), ..rest }
            }
        }
    }
}

/// The values of the unspent txouts in the list.
pub open spec fn spec_unspent_values(s: Seq<FullTxOut>) -> Seq<u64>
    decreases s.len(),
{
    if s.len() == 0 {
        Seq::empty()
    } else {
        let rest = spec_unspent_values(s.drop_first());
        if s[0].spent_by is Some {
            rest
        } else {
            seq![s[0].value] + rest
        }
    }
}

/// Saturating addition.
pub fn sat_add(a: u64, b: u64) -> (r: u64)
    ensures
        r == spec_sat_add(a, b),
{
    if a > u64::MAX - b {
        u64::MAX
    } else {
        a + b
    }
}

/// Fold a txout list into its balance, skipping spent outputs.
pub fn balance_of(txouts: &Vec<FullTxOut>, tip_height: u32) -> (r: Balance)
    ensures
        r == spec_balance(txouts@, tip_height),
{
    let mut r = Balance { confirmed: 0, trusted_pending: 0, untrusted_pending: 0, immature: 0 };
    let mut i: usize = txouts.len();
    while i > 0
        invariant
            0 <= i <= txouts@.len(),
            r == spec_balance(txouts@.skip(i as int), tip_height),
        decreases i,
    {
        i = i - 1;
        let f = &txouts[i];
        let ghost gsfx = txouts@.skip(i as int);
        proof {
            assert(gsfx.drop_first() =~= txouts@.skip(i as int + 1));
            assert(gsfx[0] == txouts@[i as int]);
        }
        if f.spent_by.is_none() {
            let mature = match f.anchor {
                Some(a) => (a.block.height as u64) + (COINBASE_MATURITY as u64) <= (tip_height
                    as u64) + 1,
                None => false,
            };
            if f.is_coinbase && !mature {
                r = Balance { immature: sat_add(r.immature, f.value), ..r };
            } else if f.anchor.is_some() {
                r = Balance { confirmed: sat_add(r.confirmed, f.value), ..r };
            } else if f.keychain == INTERNAL_KEYCHAIN {
                r = Balance { trusted_pending: sat_add(r.trusted_pending, f.value), ..r };
            } else {
                r = Balance { untrusted_pending: sat_add(r.untrusted_pending, f.value), ..r };
            }
        }
    }
    proof {
        assert(txouts@.skip(0) =~= txouts@);
    }
    r
}

/// Balance conservation: as long as the total fits in a 64-bit amount, the
/// four buckets together hold exactly the sum of the unspent output values;
/// nothing is counted twice and nothing spent is counted.
pub proof fn lemma_balance_conservation(s: Seq<FullTxOut>, tip_height: u32)
    requires
        sum_values(spec_unspent_values(s)) <= u64::MAX,
    ensures
        ({
            let b = spec_balance(s, tip_height);
            b.confirmed + b.trusted_pending + b.untrusted_pending + b.immature == sum_values(
                spec_unspent_values(s),
            )
        }),
    decreases s.len(),
{
    if s.len() > 0 {
        let rest = s.drop_first();
        let f = s[0];
        if f.spent_by is Some {
            lemma_balance_conservation(rest, tip_height);
        } else {
            let uv = spec_unspent_values(s);
            let ruv = spec_unspent_values(rest);
            assert(uv == seq![f.value] + ruv);
            assert(uv[0] == f.value);
            assert(uv.drop_first() =~= ruv);
            assert(sum_values(uv) == f.value + sum_values(ruv));
            lemma_balance_conservation(rest, tip_height);
            let rb = spec_balance(rest, tip_height);
            crate::types::lemma_sum_values_nonneg(ruv);
        }
    }
}

/// Canonicalization prefers the anchored transaction: of two conflicting
/// transactions, one anchored in the current best chain and one not, the
/// anchored one is canonical and the other is not — and since canonicity
/// is a pointwise predicate over the stored set, this holds regardless of
/// the order in which they were inserted.
/// At most one of two conflicting transactions is canonical, as long as
/// the stored data is consistent in that no two conflicting transactions
/// both carry anchors in the best chain (block data cannot confirm both).
/// An unconfirmed rival loses to an anchor, and of two unconfirmed rivals
/// the preference order is strict.
pub proof fn lemma_canonical_exclusive(g: TxGraph, chain: LocalChain, i: int, j: int)
    requires
        g.wf(),
        0 <= i < g.txs@.len(),
        0 <= j < g.txs@.len(),
        spec_conflicts(g.txs@[i], g.txs@[j]),
        !(g.spec_anchored_in(chain, g.txs@[i].txid) && g.spec_anchored_in(
            chain,
            g.txs@[j].txid,
        )),
    ensures
        !(g.spec_canonical(chain, g.txs@[i]) && g.spec_canonical(chain, g.txs@[j])),
{
    assert(spec_conflicts(g.txs@[j], g.txs@[i])) by {
        let (p, q) = choose|p: int, q: int|
            0 <= p < g.txs@[i].inputs@.len() && 0 <= q < g.txs@[j].inputs@.len() && g.txs@[
                i
            ].inputs@[p] == g.txs@[j].inputs@[q];
        assert(g.txs@[j].inputs@[q] == g.txs@[i].inputs@[p]);
    }
    if g.spec_canonical(chain, g.txs@[i]) && g.spec_canonical(chain, g.txs@[j]) {
        if g.spec_anchored_in(chain, g.txs@[i].txid) {
            // The rival is unconfirmed, so its canonicity demands that no
            // conflicting transaction is anchored.
            assert(!g.spec_anchored_in(chain, g.txs@[i].txid));
        } else if g.spec_anchored_in(chain, g.txs@[j].txid) {
            assert(!g.spec_anchored_in(chain, g.txs@[j].txid));
        } else {
            // Both unconfirmed: the preference order is strict, so they
            // cannot both beat each other.
            assert(g.spec_prefer(g.txs@[i], g.txs@[j]));
            assert(g.spec_prefer(g.txs@[j], g.txs@[i]));
        }
    }
}

pub proof fn lemma_canonical_prefers_anchored(
    g: TxGraph,
    chain: LocalChain,
    i: int,
    j: int,
)
    requires
        g.wf(),
        0 <= i < g.txs@.len(),
        0 <= j < g.txs@.len(),
        spec_conflicts(g.txs@[i], g.txs@[j]),
        g.spec_anchored_in(chain, g.txs@[i].txid),
        !g.spec_anchored_in(chain, g.txs@[j].txid),
    ensures
        g.spec_canonical(chain, g.txs@[i]),
        !g.spec_canonical(chain, g.txs@[j]),
{
    assert(spec_conflicts(g.txs@[j], g.txs@[i])) by {
        let (p, q) = choose|p: int, q: int|
            0 <= p < g.txs@[i].inputs@.len() && 0 <= q < g.txs@[j].inputs@.len() && g.txs@[
                i
            ].inputs@[p] == g.txs@[j].inputs@[q];
        assert(g.txs@[j].inputs@[q] == g.txs@[i].inputs@[p]);
    }
}


impl TxGraph {
    /// Apply a persisted or staged delta: insert every recorded fact. Facts
    /// already known change nothing, so replaying a delta is harmless.
    pub fn apply_changeset(&mut self, d: &GraphChangeSet)
        requires
            old(self).wf(),
        ensures
            final(self).wf(),
            forall|x: Hash32|
                #![trigger final(self).spec_has_tx(x)]
                final(self).spec_has_tx(x) <==> (old(self).spec_has_tx(x) || spec_txids_include(
                    d.txs@,
                    d.txs@.len() as int,
                    x,
                )),
            forall|e: (Hash32, Anchor)| #[trigger]
                old(self).anchors@.contains(e) ==> final(self).anchors@.contains(e),
            forall|k: int|
                0 <= k < d.anchors@.len() ==> final(self).anchors@.contains(
                    #[trigger] d.anchors@[k],
                ),
            forall|op: OutPoint|
                #![trigger final(self).spec_has_txout(op)]
                final(self).spec_has_txout(op) <==> (old(self).spec_has_txout(op)
                    || spec_txout_keys_include(d.txouts@, d.txouts@.len() as int, op)),
            forall|x: Hash32|
                final(self).spec_last_seen(x) >= old(self).spec_last_seen(x),
            forall|k: int|
                0 <= k < d.last_seen@.len() ==> final(self).spec_last_seen(
                    (#[trigger] d.last_seen@[k]).0,
                ) >= d.last_seen@[k].1,
    {
        broadcast use vstd::seq_lib::group_seq_properties;

        let ghost g0 = *old(self);
        let mut i: usize = 0;
        while i < d.txs.len()
            invariant
                self.wf(),
                0 <= i <= d.txs@.len(),
                self.txouts@ == g0.txouts@,
                self.anchors@ == g0.anchors@,
                self.last_seen@ == g0.last_seen@,
                forall|x: Hash32|
                    #![trigger self.spec_has_tx(x)]
                    self.spec_has_tx(x) <==> (g0.spec_has_tx(x) || spec_txids_include(
                        d.txs@,
                        i as int,
                        x,
                    )),
            decreases d.txs@.len() - i,
        {
            let ghost pre = *self;
            let tx = copy_tx(&d.txs[i]);
            let ghost gtx = tx;
            let _ = self.insert_tx(tx);
            proof {
                assert(gtx.txid == d.txs@[i as int].txid);
                lemma_txids_step(pre.txs@, self.txs@, gtx, d.txs@, i as int, g0.txs@);
            }
            i += 1;
        }
        let mut i: usize = 0;
        while i < d.txouts.len()
            invariant
                self.wf(),
                0 <= i <= d.txouts@.len(),
                self.anchors@ == g0.anchors@,
                self.last_seen@ == g0.last_seen@,
                forall|x: Hash32|
                    #![trigger self.spec_has_tx(x)]
                    self.spec_has_tx(x) <==> (g0.spec_has_tx(x) || spec_txids_include(
                        d.txs@,
                        d.txs@.len() as int,
                        x,
                    )),
                forall|op: OutPoint|
                    #![trigger self.spec_has_txout(op)]
                    self.spec_has_txout(op) <==> (g0.spec_has_txout(op) || spec_txout_keys_include(
                        d.txouts@,
                        i as int,
                        op,
                    )),
            decreases d.txouts@.len() - i,
        {
            let ghost pre = *self;
            let e = &d.txouts[i];
            let op = e.0;
            let txo = copy_txout(&e.1);
            let ghost gtxo = txo;
            let _ = self.insert_txout(op, txo);
            proof {
                lemma_txout_keys_step(
                    pre.txouts@,
                    self.txouts@,
                    (op, gtxo),
                    d.txouts@,
                    i as int,
                    g0.txouts@,
                );
            }
            i += 1;
        }
        let mut i: usize = 0;
        while i < d.anchors.len()
            invariant
                self.wf(),
                0 <= i <= d.anchors@.len(),
                self.last_seen@ == g0.last_seen@,
                forall|x: Hash32|
                    #![trigger self.spec_has_tx(x)]
                    self.spec_has_tx(x) <==> (g0.spec_has_tx(x) || spec_txids_include(
                        d.txs@,
                        d.txs@.len() as int,
                        x,
                    )),
                forall|op: OutPoint|
                    #![trigger self.spec_has_txout(op)]
                    self.spec_has_txout(op) <==> (g0.spec_has_txout(op) || spec_txout_keys_include(
                        d.txouts@,
                        d.txouts@.len() as int,
                        op,
                    )),
                forall|e: (Hash32, Anchor)| #[trigger]
                    g0.anchors@.contains(e) ==> self.anchors@.contains(e),
                forall|k: int|
                    0 <= k < i ==> self.anchors@.contains(#[trigger] d.anchors@[k]),
            decreases d.anchors@.len() - i,
        {
            let ghost pre = *self;
            let e = d.anchors[i];
            let _ = self.insert_anchor(e.0, e.1);
            proof {
                if !pre.anchors@.contains(e) {
                    assert(self.anchors@ == pre.anchors@.push(e));
                }
                assert forall|x: (Hash32, Anchor)| #[trigger]
                    pre.anchors@.contains(x) implies self.anchors@.contains(x) by {
                    if !pre.anchors@.contains(e) {
                        crate::chain::lemma_push_contains(pre.anchors@, e, x);
                    }
                }
                assert(self.anchors@.contains(e)) by {
                    if pre.anchors@.contains(e) {
                    } else {
                        assert(self.anchors@[self.anchors@.len() - 1] == e);
                    }
                }
            }
            i += 1;
        }
        let mut i: usize = 0;
        while i < d.last_seen.len()
            invariant
                self.wf(),
                0 <= i <= d.last_seen@.len(),
                forall|x: Hash32|
                    #![trigger self.spec_has_tx(x)]
                    self.spec_has_tx(x) <==> (g0.spec_has_tx(x) || spec_txids_include(
                        d.txs@,
                        d.txs@.len() as int,
                        x,
                    )),
                forall|op: OutPoint|
                    #![trigger self.spec_has_txout(op)]
                    self.spec_has_txout(op) <==> (g0.spec_has_txout(op) || spec_txout_keys_include(
                        d.txouts@,
                        d.txouts@.len() as int,
                        op,
                    )),
                forall|e: (Hash32, Anchor)| #[trigger]
                    g0.anchors@.contains(e) ==> self.anchors@.contains(e),
                forall|k: int|
                    0 <= k < d.anchors@.len() ==> self.anchors@.contains(#[trigger] d.anchors@[k]),
                forall|x: Hash32| self.spec_last_seen(x) >= g0.spec_last_seen(x),
                forall|k: int|
                    0 <= k < i ==> self.spec_last_seen((#[trigger] d.last_seen@[k]).0)
                        >= d.last_seen@[k].1,
            decreases d.last_seen@.len() - i,
        {
            let ghost pre = *self;
            let e = d.last_seen[i];
            let _ = self.insert_seen_at(e.0, e.1);
            i += 1;
        }
    }
}

} // verus!
