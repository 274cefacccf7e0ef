//! The wallet's best-known chain of block identifiers.
//!
//! The chain is a sparse, height-ordered list of checkpoints. Insertion is
//! reorg-safe: a block can never silently replace a different block at an
//! occupied height; that requires an explicit chain update.

use vstd::prelude::*;

use crate::types::{BlockId, Hash32};

verus! {

/// Errors from local-chain operations.
#[derive(Clone, Copy, Debug, PartialEq, Eq, Structural)]
pub enum ChainError {
    /// A different block already occupies the requested height.
    ReorgConflict,
    /// A chain update shares no block with the existing chain.
    CannotConnect,
}

/// Delta of local-chain mutations: `(height, Some(hash))` records a block
/// committed at a height, `(height, None)` records a block removed from it.
#[derive(Clone, Debug)]
pub struct ChainChangeSet {
    /// The recorded facts, in the order they were staged.
    pub blocks: Vec<(u32, Option<Hash32>)>,
}

impl ChainChangeSet {
    /// The observable content of the delta: which facts it records.
    pub open spec fn view_set(self) -> Set<(u32, Option<Hash32>)> {
        self.blocks@.to_set()
    }

    /// An empty delta.
    pub fn new() -> (r: ChainChangeSet)
        ensures
            r.blocks@ == Seq::<(u32, Option<Hash32>)>::empty(),
    {
        ChainChangeSet { blocks: Vec::new() }
    }

    /// Whether the delta records nothing.
    pub fn is_empty(&self) -> (r: bool)
        ensures
            r <==> self.blocks@.len() == 0,
    {
        self.blocks.len() == 0
    }

    /// Absorb another delta. The observable content becomes the union of
    /// the two deltas' contents.
    pub fn merge(&mut self, other: ChainChangeSet)
        ensures
            final(self).blocks@ == old(self).blocks@ + other.blocks@,
    {
        let mut o = other;
        self.blocks.append(&mut o.blocks);
    }
}

/// Strictly increasing heights.
pub open spec fn spec_sorted(s: Seq<BlockId>) -> bool {
    forall|i: int, j: int|
        0 <= i < j < s.len() ==> (#[trigger] s[i]).height < (#[trigger] s[j]).height
}

/// The wallet's best-known chain: checkpoints in strictly increasing height
/// order, from genesis to tip.
#[derive(Clone, Debug)]
pub struct LocalChain {
    /// The checkpoints, sorted by strictly increasing height.
    pub blocks: Vec<BlockId>,
}

impl LocalChain {
    /// Well-formedness: non-empty and strictly sorted by height.
    pub open spec fn wf(self) -> bool {
        &&& self.blocks@.len() >= 1
        &&& spec_sorted(self.blocks@)
    }

    /// Whether some checkpoint records `height`.
    pub open spec fn spec_has_height(self, height: u32) -> bool {
        exists|i: int| 0 <= i < self.blocks@.len() && (#[trigger] self.blocks@[i]).height == height
    }

    /// Whether `b` is one of the chain's checkpoints.
    pub open spec fn spec_contains(self, b: BlockId) -> bool {
        self.blocks@.contains(b)
    }

    /// The highest checkpoint.
    pub open spec fn spec_tip(self) -> BlockId {
        self.blocks@.last()
    }

    /// A new chain holding only the genesis block, together with the delta
    /// that records it.
    pub fn from_genesis(hash: Hash32) -> (r: (LocalChain, ChainChangeSet))
        ensures
            r.0.wf(),
            r.0.blocks@ == seq![BlockId { height: 0u32, hash }],
            r.1.blocks@ == seq![(0u32, Some(hash))],
    {
        let genesis = BlockId { height: 0, hash };
        let mut blocks: Vec<BlockId> = Vec::new();
        blocks.push(genesis);
        let mut delta: Vec<(u32, Option<Hash32>)> = Vec::new();
        delta.push((0, Some(hash)));
        proof {
            assert(blocks@ =~= seq![genesis]);
            assert(delta@ =~= seq![(0u32, Some(hash))]);
        }
        (LocalChain { blocks }, ChainChangeSet { blocks: delta })
    }

    /// The current tip.
    pub fn tip(&self) -> (r: BlockId)
        requires
            self.wf(),
        ensures
            r == self.spec_tip(),
    {
        self.blocks[self.blocks.len() - 1]
    }

    /// The checkpoint at `height`, if the chain records one.
    pub fn get(&self, height: u32) -> (r: Option<BlockId>)
        ensures
            match r {
                Some(b) => self.spec_contains(b) && b.height == height,
                None => !self.spec_has_height(height),
            },
    {
        let mut i: usize = 0;
        while i < self.blocks.len()
            invariant
                0 <= i <= self.blocks@.len(),
                forall|j: int| 0 <= j < i ==> (#[trigger] self.blocks@[j]).height != height,
            decreases self.blocks@.len() - i,
        {
            if self.blocks[i].height == height {
                return Some(self.blocks[i]);
            }
            i += 1;
        }
        None
    }

    /// Insert a checkpoint.
    ///
    /// If the chain already records exactly `block`, nothing changes and
    /// `Ok(false)` is returned. If a different block occupies the height,
    /// the call fails with `ReorgConflict` and the chain is unchanged: an
    /// explicit chain update is the only way to supersede committed blocks.
    /// Otherwise the block is spliced in at its height and the resulting
    /// delta is returned with `Ok(true)`.
    pub fn insert_checkpoint(&mut self, block: BlockId) -> (r: Result<
        (bool, ChainChangeSet),
        ChainError,
    >)
        requires
            old(self).wf(),
        ensures
            final(self).wf(),
            match r {
                Ok((inserted, delta)) => {
                    &&& if inserted {
                        &&& !old(self).spec_has_height(block.height)
                        &&& delta.blocks@ == seq![(block.height, Some(block.hash))]
                        &&& forall|b: BlockId|
                            final(self).spec_contains(b) <==> (old(self).spec_contains(b) || b
                                == block)
                    } else {
                        &&& old(self).spec_contains(block)
                        &&& *final(self) == *old(self)
                        &&& delta.blocks@.len() == 0
                    }
                    &&& final(self).spec_contains(block)
                },
                Err(e) => {
                    &&& e == ChainError::ReorgConflict
                    &&& *final(self) == *old(self)
                    &&& old(self).spec_has_height(block.height)
                    &&& !old(self).spec_contains(block)
                },
            },
    {
        // Find the insertion position: the first index whose height is not
        // below the new block's height.
        let mut i: usize = 0;
        while i < self.blocks.len() && self.blocks[i].height < block.height
            invariant
                0 <= i <= self.blocks@.len(),
                forall|j: int| 0 <= j < i ==> (#[trigger] self.blocks@[j]).height < block.height,
            decreases self.blocks@.len() - i,
        {
            i += 1;
        }
        if i < self.blocks.len() && self.blocks[i].height == block.height {
            if self.blocks[i].hash == block.hash {
                proof {
                    assert(self.blocks@[i as int] == block);
                    assert(self.spec_contains(block));
                }
                return Ok((false, ChainChangeSet::new()));
            }
            proof {
                assert(self.spec_has_height(block.height));
                assert forall|j: int|
                    0 <= j < self.blocks@.len() && (#[trigger] self.blocks@[j]).height
                        == block.height implies self.blocks@[j] != block by {
                    if j != i {
                        assert(self.blocks@[j].height != self.blocks@[i as int].height);
                    }
                }
                assert(!self.spec_contains(block));
            }
            return Err(ChainError::ReorgConflict);
        }
        proof {
            assert(!old(self).spec_has_height(block.height)) by {
                assert forall|j: int|
                    0 <= j < self.blocks@.len() implies (#[trigger] self.blocks@[j]).height
                    != block.height by {
                    if j < i {
                    } else if i < self.blocks@.len() {
                        if j > i {
                            assert(self.blocks@[i as int].height < self.blocks@[j].height);
                        }
                        assert(self.blocks@[i as int].height > block.height);
                    }
                }
            }
        }
        let ghost old_seq = self.blocks@;
        let ghost gi = i as int;
        self.blocks.insert(i, block);
        let mut delta: Vec<(u32, Option<Hash32>)> = Vec::new();
        delta.push((block.height, Some(block.hash)));
        proof {
            let s = self.blocks@;
            assert(s == old_seq.subrange(0, gi).push(block) + old_seq.subrange(
                gi,
                old_seq.len() as int,
            ));
            // Heights strictly below the splice point, the new block, then
            // heights strictly above it: the result stays strictly sorted.
            assert forall|p: int, q: int| 0 <= p < q < s.len() implies (#[trigger] s[p]).height < (
            #[trigger] s[q]).height by {
                lemma_insert_index(old_seq, block, gi, p);
                lemma_insert_index(old_seq, block, gi, q);
                if p < gi && q < gi {
                } else if p == gi {
                    assert(s[q] == old_seq[q - 1]);
                    assert(old_seq[q - 1].height > block.height);
                } else if q == gi {
                    assert(s[p] == old_seq[p]);
                } else if p > gi && q > gi {
                    assert(s[p] == old_seq[p - 1] && s[q] == old_seq[q - 1]);
                } else {
                    // p < gi < q
                    assert(s[p] == old_seq[p] && s[q] == old_seq[q - 1]);
                    if q - 1 == gi {
                        assert(old_seq[p].height < block.height);
                        assert(s[q].height == old_seq[gi].height);
                        assert(old_seq[gi].height > block.height);
                    }
                }
            }
            assert forall|b: BlockId| #[trigger]
                final(self).spec_contains(b) implies (old_seq.contains(b) || b == block) by {
                let k = choose|k: int| 0 <= k < s.len() && s[k] == b;
                lemma_insert_index(old_seq, block, gi, k);
            }
            assert forall|b: BlockId| old_seq.contains(b) || b == block implies #[trigger]
                final(self).spec_contains(b) by {
                if b == block {
                    lemma_insert_index(old_seq, block, gi, gi);
                    assert(s[gi] == block);
                } else {
                    let k = choose|k: int| 0 <= k < old_seq.len() && old_seq[k] == b;
                    if k < gi {
                        lemma_insert_index(old_seq, block, gi, k);
                        assert(s[k] == b);
                    } else {
                        lemma_insert_index(old_seq, block, gi, k + 1);
                        assert(s[k + 1] == b);
                    }
                }
            }
            assert(delta@ =~= seq![(block.height, Some(block.hash))]);
        }
        Ok((true, ChainChangeSet { blocks: delta }))
    }
}

impl LocalChain {
    /// Whether the two chains record blocks with the same height but
    /// different hashes at height `h`.
    pub open spec fn spec_disagree_at(self, up: LocalChain, h: u32) -> bool {
        exists|x: BlockId, y: BlockId|
            self.spec_contains(x) && up.spec_contains(y) && x.height == h && y.height == h
                && x.hash != y.hash
    }

    /// Whether the update shares at least one block with this chain.
    pub open spec fn spec_connects(self, up: LocalChain) -> bool {
        exists|b: BlockId| self.spec_contains(b) && up.spec_contains(b)
    }

    /// Whether a checkpoint of this chain survives an update: the update
    /// records nothing at its height and it sits strictly below every
    /// height where the two chains disagree.
    pub open spec fn spec_keeps(self, up: LocalChain, b: BlockId) -> bool {
        &&& self.spec_contains(b)
        &&& !up.spec_has_height(b.height)
        &&& forall|h: u32| self.spec_disagree_at(up, h) ==> b.height < h
    }

    /// A recorded fact agrees with this chain: a `Some` fact names one of
    /// its checkpoints, a `None` fact names a height it does not record.
    pub open spec fn spec_fact_ok(self, f: (u32, Option<Hash32>)) -> bool {
        match f.1 {
            Some(x) => self.spec_contains(BlockId { height: f.0, hash: x }),
            None => !self.spec_has_height(f.0),
        }
    }

    /// Reconcile this chain with an update checkpoint list.
    ///
    /// Blocks of the update always win. Checkpoints of the old chain that
    /// the update does not mention survive only below the lowest height at
    /// which the two chains disagree: everything at or above a divergence
    /// is superseded by the update's ancestry. Fails with `CannotConnect`,
    /// leaving the chain unchanged, exactly when the update shares no block
    /// with the chain.
    pub fn apply_update(&mut self, up: &LocalChain) -> (r: Result<ChainChangeSet, ChainError>)
        requires
            old(self).wf(),
            up.wf(),
        ensures
            final(self).wf(),
            match r {
                Ok(delta) => {
                    &&& old(self).spec_connects(*up)
                    &&& forall|b: BlockId|
                        final(self).spec_contains(b) <==> (up.spec_contains(b) || old(
                            self,
                        ).spec_keeps(*up, b))
                    &&& forall|k: int|
                        0 <= k < delta.blocks@.len() ==> final(self).spec_fact_ok(
                            #[trigger] delta.blocks@[k],
                        )
                },
                Err(e) => {
                    &&& e == ChainError::CannotConnect
                    &&& !old(self).spec_connects(*up)
                    &&& *final(self) == *old(self)
                },
            },
    {
        broadcast use vstd::seq_lib::group_seq_properties;

        let ghost orig = *self;
        // Connectivity: the update must share at least one block with us.
        let mut connected = false;
        let mut j: usize = 0;
        while j < up.blocks.len()
            invariant
                0 <= j <= up.blocks@.len(),
                orig == *self,
                old(self).wf(),
                connected ==> old(self).spec_connects(*up),
                !connected ==> forall|k: int|
                    0 <= k < j ==> !old(self).spec_contains(#[trigger] up.blocks@[k]),
            decreases up.blocks@.len() - j,
        {
            let b = up.blocks[j];
            match self.get(b.height) {
                Some(c) => {
                    if c.hash == b.hash {
                        proof {
                            assert(c == b);
                            assert(up.spec_contains(b));
                        }
                        connected = true;
                    } else {
                        proof {
                            if old(self).spec_contains(b) {
                                lemma_chain_unique_height(*self, c, b);
                            }
                        }
                    }
                },
                None => {
                    proof {
                        if old(self).spec_contains(b) {
                            let k = choose|k: int|
                                0 <= k < self.blocks@.len() && self.blocks@[k] == b;
                            assert(self.blocks@[k].height == b.height);
                        }
                    }
                },
            }
            j += 1;
        }
        if !connected {
            proof {
                if old(self).spec_connects(*up) {
                    let b = choose|b: BlockId|
                        old(self).spec_contains(b) && up.spec_contains(b);
                    let k = choose|k: int| 0 <= k < up.blocks@.len() && up.blocks@[k] == b;
                    assert(!old(self).spec_contains(up.blocks@[k]));
                }
            }
            return Err(ChainError::CannotConnect);
        }
        self.merge_update(up)
    }
}

/// Whether a height survives given the lowest disagreement seen so far.
spec fn keep_ok(d: Option<u32>, h: u32) -> bool {
    match d {
        None => true,
        Some(m) => h < m,
    }
}

/// The merge of an old chain with an update, given the lowest disagreeing
/// height `d`: everything of the update, plus old checkpoints at unmentioned
/// heights strictly below `d`.
spec fn spec_merged_contains(orig: LocalChain, up: LocalChain, d: Option<u32>, b: BlockId) -> bool {
    up.spec_contains(b) || (orig.spec_contains(b) && !up.spec_has_height(b.height) && keep_ok(
        d,
        b.height,
    ))
}

impl LocalChain {
    /// Merge the sorted checkpoint lists. The update wins at common heights;
    /// old checkpoints at or above the first disagreement are dropped.
    fn merge_update(&mut self, up: &LocalChain) -> (r: Result<ChainChangeSet, ChainError>)
        requires
            old(self).wf(),
            up.wf(),
        ensures
            final(self).wf(),
            r is Ok,
            forall|b: BlockId|
                final(self).spec_contains(b) <==> (up.spec_contains(b) || old(self).spec_keeps(
                    *up,
                    b,
                )),
            r matches Ok(delta) ==> forall|k: int|
                0 <= k < delta.blocks@.len() ==> final(self).spec_fact_ok(#[trigger] delta.blocks@[k]),
    {
        broadcast use vstd::seq_lib::group_seq_properties;

        let ghost orig = *old(self);
        let ghost os = orig.blocks@;
        let ghost us = up.blocks@;
        let olen = self.blocks.len();
        let ulen = up.blocks.len();
        let mut out: Vec<BlockId> = Vec::new();
        let mut delta: Vec<(u32, Option<Hash32>)> = Vec::new();
        let mut d: Option<u32> = None;
        let mut i: usize = 0;
        let mut j: usize = 0;
        while i < olen || j < ulen
            invariant
                *self == orig,
                orig.wf(),
                up.wf(),
                os == orig.blocks@,
                us == up.blocks@,
                olen == os.len(),
                ulen == us.len(),
                0 <= i <= olen,
                0 <= j <= ulen,
                // Sortedness of the merged prefix.
                forall|p: int, q: int|
                    0 <= p < q < out@.len() ==> (#[trigger] out@[p]).height < (
                    #[trigger] out@[q]).height,
                // The merged prefix lies strictly below every unprocessed height.
                forall|p: int, l: int|
                    0 <= p < out@.len() && i <= l < olen ==> (#[trigger] out@[p]).height < (
                    #[trigger] os[l]).height,
                forall|p: int, l: int|
                    0 <= p < out@.len() && j <= l < ulen ==> (#[trigger] out@[p]).height < (
                    #[trigger] us[l]).height,
                // Processed update heights lie below unprocessed old heights
                // and vice versa.
                forall|k: int, l: int|
                    0 <= k < j && i <= l < olen ==> (#[trigger] us[k]).height < (
                    #[trigger] os[l]).height,
                forall|k: int, l: int|
                    0 <= k < i && j <= l < ulen ==> (#[trigger] os[k]).height < (
                    #[trigger] us[l]).height,
                // Membership of the merged prefix.
                forall|b: BlockId|
                    out@.contains(b) <==> (us.take(j as int).contains(b) || (os.take(
                        i as int,
                    ).contains(b) && !up.spec_has_height(b.height) && keep_ok(d, b.height))),
                // The lowest disagreement, if discovered yet.
                match d {
                    Some(m) => {
                        &&& orig.spec_disagree_at(*up, m)
                        &&& forall|h: u32| orig.spec_disagree_at(*up, h) ==> m <= h
                        &&& forall|l: int| i <= l < olen ==> (#[trigger] os[l]).height > m
                    },
                    None => forall|h: u32|
                        orig.spec_disagree_at(*up, h) ==> exists|l: int|
                            i <= l < olen && (#[trigger] os[l]).height == h,
                },
                // Every recorded fact agrees with the eventual merged chain.
                forall|k: int|
                    0 <= k < delta@.len() ==> spec_fact_pending(
                        orig,
                        *up,
                        out@,
                        i as int,
                        j as int,
                        #[trigger] delta@[k],
                    ),
            decreases (olen - i) + (ulen - j),
        {
            let ghost pre_out = out@;
            let ghost gi = i as int;
            let ghost gj = j as int;
            if j < ulen && (i >= olen || up.blocks[j].height <= self.blocks[i].height) {
                let ub = up.blocks[j];
                proof {
                    lemma_take_one_more(us, gj);
                    lemma_push_contains(us.take(gj), ub, ub);
                }
                if i < olen && self.blocks[i].height == ub.height {
                    // Common height: the update's block wins.
                    let ob = self.blocks[i];
                    out.push(ub);
                    proof {
                        assert(os.take(gi + 1) =~= os.take(gi).push(ob));
                        assert(up.spec_has_height(ub.height)) by {
                            assert(us[gj].height == ub.height);
                        }
                        assert(os[gi] == ob && os.contains(ob));
                    }
                    if ob.hash != ub.hash {
                        if d.is_none() {
                            proof {
                                assert(orig.spec_disagree_at(*up, ub.height)) by {
                                    assert(orig.spec_contains(ob));
                                    assert(up.spec_contains(ub)) by {
                                        assert(us[gj] == ub);
                                    }
                                }
                                assert forall|h: u32|
                                    orig.spec_disagree_at(*up, h) implies ub.height <= h by {
                                    let l = choose|l: int|
                                        gi <= l < olen && (#[trigger] os[l]).height == h;
                                    if l > gi {
                                        assert(os[gi].height < os[l].height);
                                    }
                                }
                            }
                            d = Some(ub.height);
                        }
                        delta.push((ub.height, Some(ub.hash)));
                        proof {
                            assert(out@.contains(ub)) by {
                                assert(out@.last() == ub);
                            }
                        }
                    } else {
                        proof {
                            assert(ob == ub);
                        }
                    }
                    i += 1;
                    j += 1;
                    proof {
                        lemma_take_one_more(os, gi);
                        lemma_take_one_more(us, gj);
                        assert forall|b: BlockId|
                            out@.contains(b) implies (us.take(gj + 1).contains(b) || (os.take(
                            gi + 1,
                        ).contains(b) && !up.spec_has_height(b.height) && keep_ok(
                            d,
                            b.height,
                        ))) by {
                            lemma_push_contains(pre_out, ub, b);
                            lemma_push_contains(us.take(gj), ub, b);
                            lemma_push_contains(os.take(gi), ob, b);
                            if b != ub {
                                assert(pre_out.contains(b));
                                if !us.take(gj).contains(b) {
                                    let p = choose|p: int|
                                        0 <= p < pre_out.len() && pre_out[p] == b;
                                    assert(pre_out[p].height < os[gi].height);
                                }
                            }
                        }
                        assert forall|b: BlockId|
                            (us.take(gj + 1).contains(b) || (os.take(gi + 1).contains(b)
                                && !up.spec_has_height(b.height) && keep_ok(
                                d,
                                b.height,
                            ))) implies out@.contains(b) by {
                            lemma_push_contains(pre_out, ub, b);
                            lemma_push_contains(us.take(gj), ub, b);
                            lemma_push_contains(os.take(gi), ob, b);
                            if us.take(gj + 1).contains(b) {
                                if b == ub {
                                    assert(out@.last() == ub);
                                } else {
                                    assert(us.take(gj).contains(b));
                                }
                            } else {
                                assert(os.take(gi + 1).contains(b));
                                if b == ob {
                                    assert(up.spec_has_height(b.height));
                                } else {
                                    assert(os.take(gi).contains(b));
                                }
                            }
                        }
                    }
                } else {
                    // The update records a height the old chain does not.
                    out.push(ub);
                    delta.push((ub.height, Some(ub.hash)));
                    j += 1;
                    proof {
                        assert(out@.contains(ub)) by {
                            assert(out@.last() == ub);
                        }
                        assert forall|b: BlockId|
                            out@.contains(b) implies (us.take(gj + 1).contains(b) || (os.take(
                            gi,
                        ).contains(b) && !up.spec_has_height(b.height) && keep_ok(
                            d,
                            b.height,
                        ))) by {
                            lemma_push_contains(pre_out, ub, b);
                            lemma_push_contains(us.take(gj), ub, b);
                            if b != ub {
                                assert(pre_out.contains(b));
                            }
                        }
                        assert forall|b: BlockId|
                            (us.take(gj + 1).contains(b) || (os.take(gi).contains(b)
                                && !up.spec_has_height(b.height) && keep_ok(
                                d,
                                b.height,
                            ))) implies out@.contains(b) by {
                            lemma_push_contains(pre_out, ub, b);
                            lemma_push_contains(us.take(gj), ub, b);
                            if us.take(gj + 1).contains(b) && b != ub {
                                assert(us.take(gj).contains(b));
                            }
                        }
                    }
                }
            } else {
                // An old checkpoint at a height the update does not mention.
                let ob = self.blocks[i];
                proof {
                    assert(os.take(gi + 1) =~= os.take(gi).push(ob));
                    assert(os[gi] == ob && os.contains(ob));
                    assert(!up.spec_has_height(ob.height)) by {
                        assert forall|k: int| 0 <= k < ulen implies (#[trigger] us[k]).height
                            != ob.height by {
                            if k < gj {
                                assert(us[k].height < os[gi].height);
                            } else {
                                assert(us[k].height >= us[gj].height);
                                assert(us[gj].height > os[gi].height);
                            }
                        }
                    }
                }
                if d.is_none() {
                    out.push(ob);
                    proof {
                        assert(out@.contains(ob)) by {
                            assert(out@.last() == ob);
                        }
                        assert forall|h: u32|
                            orig.spec_disagree_at(*up, h) implies exists|l: int|
                            gi + 1 <= l < olen && (#[trigger] os[l]).height == h by {
                            let l = choose|l: int| gi <= l < olen && (#[trigger] os[l]).height == h;
                            assert(l != gi) by {
                                if l == gi {
                                    let y = choose|y: BlockId|
                                        up.spec_contains(y) && y.height == h && exists|x: BlockId|
                                            orig.spec_contains(x) && x.height == h && x.hash
                                                != y.hash;
                                    assert(up.spec_has_height(h)) by {
                                        let ky = choose|ky: int| 0 <= ky < ulen && us[ky] == y;
                                        assert(us[ky].height == h);
                                    }
                                }
                            }
                            assert(os[l].height == h);
                        }
                        assert forall|b: BlockId|
                            out@.contains(b) implies (us.take(gj).contains(b) || (os.take(
                            gi + 1,
                        ).contains(b) && !up.spec_has_height(b.height) && keep_ok(
                            d,
                            b.height,
                        ))) by {
                            lemma_push_contains(pre_out, ob, b);
                            lemma_push_contains(os.take(gi), ob, b);
                            if b != ob {
                                assert(pre_out.contains(b));
                            }
                        }
                        assert forall|b: BlockId|
                            (us.take(gj).contains(b) || (os.take(gi + 1).contains(b)
                                && !up.spec_has_height(b.height) && keep_ok(
                                d,
                                b.height,
                            ))) implies out@.contains(b) by {
                            lemma_push_contains(pre_out, ob, b);
                            lemma_push_contains(os.take(gi), ob, b);
                            if !us.take(gj).contains(b) && b != ob {
                                assert(os.take(gi).contains(b));
                            }
                        }
                    }
                } else {
                    delta.push((ob.height, None));
                    proof {
                        let m = d->Some_0;
                        assert(os[gi].height > m);
                        assert(!keep_ok(d, ob.height));
                        // No checkpoint at this height survives: the merged
                        // prefix sits below it, the update never mentions it,
                        // and later old checkpoints sit above it.
                        assert forall|b: BlockId|
                            out@.contains(b) implies (us.take(gj).contains(b) || (os.take(
                            gi + 1,
                        ).contains(b) && !up.spec_has_height(b.height) && keep_ok(
                            d,
                            b.height,
                        ))) by {
                            lemma_push_contains(os.take(gi), ob, b);
                            assert(pre_out.contains(b));
                            if !us.take(gj).contains(b) {
                                assert(os.take(gi).contains(b));
                            }
                        }
                        assert forall|b: BlockId|
                            (us.take(gj).contains(b) || (os.take(gi + 1).contains(b)
                                && !up.spec_has_height(b.height) && keep_ok(
                                d,
                                b.height,
                            ))) implies out@.contains(b) by {
                            lemma_push_contains(os.take(gi), ob, b);
                            if !us.take(gj).contains(b) && b != ob {
                                assert(os.take(gi).contains(b));
                            }
                        }
                    }
                }
                i += 1;
            }
        }
        proof {
            assert(us.take(ulen as int) =~= us);
            assert(os.take(olen as int) =~= os);
            assert forall|b: BlockId|
                out@.contains(b) <==> (up.spec_contains(b) || orig.spec_keeps(*up, b)) by {
                lemma_keep_ok_is_keeps(orig, *up, d, b, olen as int);
                assert(us.take(ulen as int).contains(b) == up.spec_contains(b));
                assert(os.take(olen as int).contains(b) == orig.spec_contains(b));
            }
            // The update is non-empty, so the merged chain is non-empty.
            assert(us.contains(us[0]));
            assert(up.spec_contains(us[0]));
            assert(out@.contains(us[0]));
            assert(out@.len() >= 1);
        }
        let result = LocalChain { blocks: out };
        proof {
            assert forall|k: int| 0 <= k < delta@.len() implies result.spec_fact_ok(
                #[trigger] delta@[k],
            ) by {
                let f = delta@[k];
                assert(spec_fact_pending(orig, *up, result.blocks@, olen as int, ulen as int, f));
                match f.1 {
                    Some(x) => {},
                    None => {
                        if result.spec_has_height(f.0) {
                            let p = choose|p: int|
                                0 <= p < result.blocks@.len() && (
                                #[trigger] result.blocks@[p]).height == f.0;
                        }
                    },
                }
            }
        }
        *self = result;
        Ok(ChainChangeSet { blocks: delta })
    }
}

/// A recorded fact is consistent with the merged prefix and can never be
/// contradicted by the unprocessed remainders.
spec fn spec_fact_pending(
    orig: LocalChain,
    up: LocalChain,
    out: Seq<BlockId>,
    i: int,
    j: int,
    f: (u32, Option<Hash32>),
) -> bool {
    match f.1 {
        Some(x) => out.contains(BlockId { height: f.0, hash: x }),
        None => {
            &&& forall|p: int| 0 <= p < out.len() ==> (#[trigger] out[p]).height != f.0
            &&& forall|l: int|
                i <= l < orig.blocks@.len() ==> (#[trigger] orig.blocks@[l]).height != f.0
            &&& forall|l: int|
                j <= l < up.blocks@.len() ==> (#[trigger] up.blocks@[l]).height != f.0
        },
    }
}

/// Taking one more element appends exactly that element.
proof fn lemma_take_one_more<A>(s: Seq<A>, i: int)
    requires
        0 <= i < s.len(),
    ensures
        s.take(i + 1) == s.take(i).push(s[i]),
{
    assert(s.take(i + 1) =~= s.take(i).push(s[i]));
}

/// Membership in a pushed sequence decomposes into membership in the
/// original or equality with the pushed element.
pub proof fn lemma_push_contains<A>(s: Seq<A>, x: A, b: A)
    ensures
        s.push(x).contains(b) <==> (s.contains(b) || b == x),
{
    if s.push(x).contains(b) {
        let k = choose|k: int| 0 <= k < s.push(x).len() && s.push(x)[k] == b;
        if k < s.len() {
            assert(s[k] == b);
        }
    }
    if s.contains(b) {
        let k = choose|k: int| 0 <= k < s.len() && s[k] == b;
        assert(s.push(x)[k] == b);
    }
    assert(s.push(x)[s.len() as int] == x);
}

/// With every checkpoint processed, surviving by `keep_ok` of the lowest
/// disagreement is the same as surviving the update.
proof fn lemma_keep_ok_is_keeps(
    orig: LocalChain,
    up: LocalChain,
    d: Option<u32>,
    b: BlockId,
    olen: int,
)
    requires
        olen == orig.blocks@.len(),
        match d {
            Some(m) => orig.spec_disagree_at(up, m) && (forall|h: u32|
                orig.spec_disagree_at(up, h) ==> m <= h),
            None => forall|h: u32|
                orig.spec_disagree_at(up, h) ==> exists|l: int|
                    olen <= l < olen && (#[trigger] orig.blocks@[l]).height == h,
        },
    ensures
        (orig.spec_contains(b) && !up.spec_has_height(b.height) && keep_ok(d, b.height))
            <==> orig.spec_keeps(up, b),
{
    match d {
        Some(m) => {
            if orig.spec_contains(b) && !up.spec_has_height(b.height) {
                if b.height < m {
                    assert forall|h: u32| orig.spec_disagree_at(up, h) implies b.height < h by {
                        assert(m <= h);
                    }
                } else {
                    assert(orig.spec_disagree_at(up, m) && !(b.height < m));
                }
            }
        },
        None => {
            assert forall|h: u32| orig.spec_disagree_at(up, h) implies b.height < h by {
                let l = choose|l: int|
                    olen <= l < olen && (#[trigger] orig.blocks@[l]).height == h;
                assert(false);
            }
        },
    }
}

/// In a well-formed chain two checkpoints at the same height are the same
/// checkpoint.
pub proof fn lemma_chain_unique_height(c: LocalChain, x: BlockId, y: BlockId)
    requires
        c.wf(),
        c.spec_contains(x),
        c.spec_contains(y),
        x.height == y.height,
    ensures
        x == y,
{
    let i = choose|i: int| 0 <= i < c.blocks@.len() && c.blocks@[i] == x;
    let j = choose|j: int| 0 <= j < c.blocks@.len() && c.blocks@[j] == y;
    if i < j {
        assert(c.blocks@[i].height < c.blocks@[j].height);
    } else if j < i {
        assert(c.blocks@[j].height < c.blocks@[i].height);
    }
}

/// Relates the elements of `s.insert(i, x)` to those of `s`: positions below
/// the splice point are unchanged, the splice point holds `x`, and positions
/// above it are shifted up by one.
proof fn lemma_insert_index<A>(s: Seq<A>, x: A, i: int, k: int)
    requires
        0 <= i <= s.len(),
        0 <= k < s.len() + 1,
    ensures
        k < i ==> s.insert(i, x)[k] == s[k],
        k == i ==> s.insert(i, x)[k] == x,
        k > i ==> s.insert(i, x)[k] == s[k - 1],
{
    assert(s.insert(i, x) == s.subrange(0, i).push(x) + s.subrange(i, s.len() as int));
}


/// The map of committed blocks after applying recorded facts in order:
/// later facts override earlier ones.
pub open spec fn spec_apply_facts(
    m: Map<u32, Hash32>,
    facts: Seq<(u32, Option<Hash32>)>,
) -> Map<u32, Hash32>
    decreases facts.len(),
{
    if facts.len() == 0 {
        m
    } else {
        let f = facts[0];
        let m2 = match f.1 {
            Some(x) => m.insert(f.0, x),
            None => m.remove(f.0),
        };
        spec_apply_facts(m2, facts.drop_first())
    }
}

/// Applying one more fact at the end updates the accumulated map by exactly
/// that fact.
pub proof fn lemma_apply_facts_push(
    m: Map<u32, Hash32>,
    s: Seq<(u32, Option<Hash32>)>,
    f: (u32, Option<Hash32>),
)
    ensures
        spec_apply_facts(m, s.push(f)) == (match f.1 {
            Some(x) => spec_apply_facts(m, s).insert(f.0, x),
            None => spec_apply_facts(m, s).remove(f.0),
        }),
    decreases s.len(),
{
    let mf = match f.1 {
        Some(x) => spec_apply_facts(m, s).insert(f.0, x),
        None => spec_apply_facts(m, s).remove(f.0),
    };
    if s.len() == 0 {
        assert(s.push(f).drop_first() =~= Seq::<(u32, Option<Hash32>)>::empty());
        assert(s.push(f)[0] == f);
        assert(spec_apply_facts(m, s) == m);
        let m2 = match f.1 {
            Some(x) => m.insert(f.0, x),
            None => m.remove(f.0),
        };
        assert(spec_apply_facts(m2, Seq::<(u32, Option<Hash32>)>::empty()) == m2);
        assert(spec_apply_facts(m, s.push(f)) == m2);
    } else {
        assert(s.push(f).drop_first() =~= s.drop_first().push(f));
        assert(s.push(f)[0] == s[0]);
        let m2 = match s[0].1 {
            Some(x) => m.insert(s[0].0, x),
            None => m.remove(s[0].0),
        };
        lemma_apply_facts_push(m2, s.drop_first(), f);
        assert(spec_apply_facts(m, s.push(f)) == spec_apply_facts(m2, s.drop_first().push(f)));
        assert(spec_apply_facts(m, s) == spec_apply_facts(m2, s.drop_first()));
    }
}

/// Find the entry recording height `h`, if any.
fn find_entry(assoc: &Vec<(u32, Option<Hash32>)>, h: u32) -> (r: Option<usize>)
    ensures
        match r {
            Some(k) => k < assoc@.len() && assoc@[k as int].0 == h,
            None => forall|k: int| 0 <= k < assoc@.len() ==> (#[trigger] assoc@[k]).0 != h,
        },
{
    let mut k: usize = 0;
    while k < assoc.len()
        invariant
            0 <= k <= assoc@.len(),
            forall|p: int| 0 <= p < k ==> (#[trigger] assoc@[p]).0 != h,
        decreases assoc@.len() - k,
    {
        if assoc[k].0 == h {
            return Some(k);
        }
        k += 1;
    }
    None
}

/// Splice a block into a sorted checkpoint list at an unoccupied height.
fn sorted_insert(v: &mut Vec<BlockId>, b: BlockId)
    requires
        spec_sorted(old(v)@),
        forall|p: int| 0 <= p < old(v)@.len() ==> (#[trigger] old(v)@[p]).height != b.height,
    ensures
        spec_sorted(final(v)@),
        forall|x: BlockId| final(v)@.contains(x) <==> (old(v)@.contains(x) || x == b),
{
    let mut i: usize = 0;
    while i < v.len() && v[i].height < b.height
        invariant
            0 <= i <= v@.len(),
            *v == *old(v),
            forall|j: int| 0 <= j < i ==> (#[trigger] v@[j]).height < b.height,
        decreases v@.len() - i,
    {
        i += 1;
    }
    let ghost old_seq = v@;
    let ghost gi = i as int;
    proof {
        if gi < old_seq.len() {
            assert(old_seq[gi].height > b.height);
        }
    }
    v.insert(i, b);
    proof {
        let s = v@;
        assert forall|p: int, q: int| 0 <= p < q < s.len() implies (#[trigger] s[p]).height < (
        #[trigger] s[q]).height by {
            lemma_insert_index(old_seq, b, gi, p);
            lemma_insert_index(old_seq, b, gi, q);
            if p < gi && q > gi && q - 1 == gi {
                assert(old_seq[gi].height > b.height);
            }
        }
        assert forall|x: BlockId| s.contains(x) implies (old_seq.contains(x) || x == b) by {
            let k = choose|k: int| 0 <= k < s.len() && s[k] == x;
            lemma_insert_index(old_seq, b, gi, k);
        }
        assert forall|x: BlockId| old_seq.contains(x) || x == b implies s.contains(x) by {
            if x == b {
                lemma_insert_index(old_seq, b, gi, gi);
                assert(s[gi] == b);
            } else {
                let k = choose|k: int| 0 <= k < old_seq.len() && old_seq[k] == x;
                if k < gi {
                    lemma_insert_index(old_seq, b, gi, k);
                    assert(s[k] == x);
                } else {
                    lemma_insert_index(old_seq, b, gi, k + 1);
                    assert(s[k + 1] == x);
                }
            }
        }
    }
}

impl LocalChain {
    /// Reconstruct a chain from a persisted delta. Facts are applied in
    /// order, later facts overriding earlier ones. Returns `None` when the
    /// accumulated state records no genesis block (one at height 0).
    pub fn from_changeset(cs: &ChainChangeSet) -> (r: Option<LocalChain>)
        ensures
            match r {
                Some(c) => {
                    &&& c.wf()
                    &&& spec_apply_facts(Map::empty(), cs.blocks@).dom().contains(0u32)
                    &&& forall|b: BlockId|
                        c.spec_contains(b) <==> spec_apply_facts(
                            Map::empty(),
                            cs.blocks@,
                        ).contains_pair(b.height, b.hash)
                },
                None => !spec_apply_facts(Map::empty(), cs.blocks@).dom().contains(0u32),
            },
    {
        let facts = &cs.blocks;
        let ghost fs = facts@;
        // Collapse the fact list, later facts overriding earlier ones.
        let mut assoc: Vec<(u32, Option<Hash32>)> = Vec::new();
        let mut t: usize = 0;
        while t < facts.len()
            invariant
                fs == facts@,
                0 <= t <= fs.len(),
                forall|p: int, q: int|
                    0 <= p < q < assoc@.len() ==> (#[trigger] assoc@[p]).0 != (
                    #[trigger] assoc@[q]).0,
                forall|k: int|
                    0 <= k < assoc@.len() ==> match (#[trigger] assoc@[k]).1 {
                        Some(x) => spec_apply_facts(Map::empty(), fs.take(t as int)).contains_pair(
                            assoc@[k].0,
                            x,
                        ),
                        None => !spec_apply_facts(Map::empty(), fs.take(t as int)).dom().contains(
                            assoc@[k].0,
                        ),
                    },
                forall|h: u32| #[trigger]
                    spec_apply_facts(Map::empty(), fs.take(t as int)).dom().contains(h)
                        ==> exists|k: int| 0 <= k < assoc@.len() && (#[trigger] assoc@[k]).0 == h,
            decreases fs.len() - t,
        {
            let f = facts[t];
            let ghost pre = assoc@;
            let ghost m0 = spec_apply_facts(Map::empty(), fs.take(t as int));
            match find_entry(&assoc, f.0) {
                Some(k) => {
                    assoc[k] = f;
                    proof {
                        assert(assoc@[k as int] == f);
                        assert(exists|q: int| 0 <= q < assoc@.len() && #[trigger] assoc@[q] == f);
                    }
                },
                None => {
                    assoc.push(f);
                    proof {
                        assert(assoc@[assoc@.len() - 1] == f);
                        assert(exists|q: int| 0 <= q < assoc@.len() && #[trigger] assoc@[q] == f);
                    }
                },
            }
            proof {
                lemma_apply_facts_push(Map::empty(), fs.take(t as int), f);
                assert(fs.take(t as int + 1) =~= fs.take(t as int).push(f));
                let m1 = spec_apply_facts(Map::empty(), fs.take(t as int + 1));
                assert forall|h: u32| #[trigger] m1.dom().contains(h) implies exists|k: int|
                    0 <= k < assoc@.len() && (#[trigger] assoc@[k]).0 == h by {
                    if h == f.0 {
                        let k = choose|k: int| 0 <= k < assoc@.len() && #[trigger] assoc@[k] == f;
                        assert(assoc@[k].0 == h);
                    } else {
                        assert(m0.dom().contains(h));
                        let k = choose|k: int| 0 <= k < pre.len() && (#[trigger] pre[k]).0 == h;
                        assert(assoc@[k].0 == h);
                    }
                }
            }
            t += 1;
        }
        proof {
            assert(fs.take(fs.len() as int) =~= fs);
        }
        let ghost m = spec_apply_facts(Map::empty(), fs);
        // A genesis block must have survived.
        match find_entry(&assoc, 0) {
            Some(kz) => {
                if assoc[kz].1.is_none() {
                    proof {
                        assert(!m.dom().contains(0u32));
                    }
                    return None;
                }
                proof {
                    assert(exists|k: int|
                        0 <= k < assoc@.len() && (#[trigger] assoc@[k]).0 == 0u32 && assoc@[k].1
                            is Some);
                }
            },
            None => {
                proof {
                    if m.dom().contains(0u32) {
                        let k = choose|k: int|
                            0 <= k < assoc@.len() && (#[trigger] assoc@[k]).0 == 0;
                    }
                }
                return None;
            },
        }
        // Build the sorted chain from the collapsed facts.
        let mut out: Vec<BlockId> = Vec::new();
        let mut k: usize = 0;
        while k < assoc.len()
            invariant
                0 <= k <= assoc@.len(),
                forall|p: int, q: int|
                    0 <= p < q < assoc@.len() ==> (#[trigger] assoc@[p]).0 != (
                    #[trigger] assoc@[q]).0,
                spec_sorted(out@),
                forall|b: BlockId|
                    out@.contains(b) <==> exists|p: int|
                        0 <= p < k && #[trigger] assoc@[p] == (b.height, Some(b.hash)),
            decreases assoc@.len() - k,
        {
            let e = assoc[k];
            let ghost pre = out@;
            if let Some(x) = e.1 {
                let nb = BlockId { height: e.0, hash: x };
                proof {
                    assert forall|p: int| 0 <= p < out@.len() implies (
                    #[trigger] out@[p]).height != nb.height by {
                        assert(pre.contains(pre[p]));
                        let q = choose|q: int|
                            0 <= q < k && #[trigger] assoc@[q] == (pre[p].height, Some(pre[p].hash));
                        if pre[p].height == nb.height {
                            assert(assoc@[q].0 == assoc@[k as int].0);
                        }
                    }
                }
                sorted_insert(&mut out, nb);
                proof {
                    assert forall|b: BlockId|
                        out@.contains(b) <==> exists|p: int|
                            0 <= p < k + 1 && #[trigger] assoc@[p] == (
                            b.height,
                            Some(b.hash),
                        ) by {
                        if out@.contains(b) {
                            if b == nb {
                                assert(assoc@[k as int] == (b.height, Some(b.hash)));
                            }
                        }
                        if exists|p: int|
                            0 <= p < k + 1 && #[trigger] assoc@[p] == (b.height, Some(b.hash)) {
                            let p = choose|p: int|
                                0 <= p < k + 1 && #[trigger] assoc@[p] == (b.height, Some(b.hash));
                            if p == k {
                                assert(b == nb);
                            } else {
                                assert(pre.contains(b));
                            }
                        }
                    }
                }
            } else {
                proof {
                    assert forall|b: BlockId|
                        out@.contains(b) <==> exists|p: int|
                            0 <= p < k + 1 && #[trigger] assoc@[p] == (
                            b.height,
                            Some(b.hash),
                        ) by {
                        if exists|p: int|
                            0 <= p < k + 1 && #[trigger] assoc@[p] == (b.height, Some(b.hash)) {
                            let p = choose|p: int|
                                0 <= p < k + 1 && #[trigger] assoc@[p] == (b.height, Some(b.hash));
                            assert(p < k);
                        }
                    }
                }
            }
            k += 1;
        }
        let c = LocalChain { blocks: out };
        proof {
            // Membership matches the accumulated map.
            assert forall|b: BlockId| c.spec_contains(b) <==> m.contains_pair(
                b.height,
                b.hash,
            ) by {
                if c.spec_contains(b) {
                    let p = choose|p: int|
                        0 <= p < assoc@.len() && #[trigger] assoc@[p] == (b.height, Some(b.hash));
                }
                if m.contains_pair(b.height, b.hash) {
                    let q = choose|q: int|
                        0 <= q < assoc@.len() && (#[trigger] assoc@[q]).0 == b.height;
                    match assoc@[q].1 {
                        Some(x) => {
                            assert(m.contains_pair(b.height, x));
                            assert(x == b.hash);
                            assert(assoc@[q] == (b.height, Some(b.hash)));
                        },
                        None => {
                            assert(!m.dom().contains(b.height));
                        },
                    }
                }
            }
            // The genesis entry guarantees non-emptiness.
            let kg = choose|kg: int|
                0 <= kg < assoc@.len() && (#[trigger] assoc@[kg]).0 == 0u32 && assoc@[kg].1
                    is Some;
            let x = assoc@[kg].1->Some_0;
            assert(assoc@[kg] == (0u32, Some(x)));
            assert(c.spec_contains(BlockId { height: 0u32, hash: x }));
        }
        Some(c)
    }
}

} // verus!
