//! The keychain script index: descriptors bound to keychains, revealed and
//! used derivation indices, and the reverse maps from scripts and outpoints
//! back to `(keychain, index)`.

use vstd::prelude::*;

use crate::graph::IndexedOutPoint;
use crate::trusted::{derive_spk, spk_of};
use crate::types::{bytes_eq, copy_bytes, OutPoint, Tx, TxOut, EXTERNAL_KEYCHAIN, INTERNAL_KEYCHAIN};

verus! {

/// Represents the unique id of a descriptor.
#[derive(Clone, Copy, Debug, PartialEq, Eq, Structural)]
pub struct Keychain(pub u8);

impl Keychain {
    /// The external keychain, used for receive addresses.
    pub fn external() -> (r: Keychain)
        ensures
            r.0 == EXTERNAL_KEYCHAIN,
    {
        Keychain(EXTERNAL_KEYCHAIN)
    }

    /// The internal keychain, used for change addresses.
    pub fn internal() -> (r: Keychain)
        ensures
            r.0 == INTERNAL_KEYCHAIN,
    {
        Keychain(INTERNAL_KEYCHAIN)
    }
}

/// Delta of keychain-index mutations: the highest index newly revealed for
/// a keychain. Merging concatenates; application takes the maximum.
#[derive(Clone, Debug)]
pub struct IndexerChangeSet {
    /// Newly revealed indices, per keychain.
    pub last_revealed: Vec<(u8, u32)>,
}

impl IndexerChangeSet {
    /// An empty delta.
    pub fn new() -> (r: IndexerChangeSet)
        ensures
            r.last_revealed@.len() == 0,
    {
        IndexerChangeSet { last_revealed: Vec::new() }
    }

    /// Whether the delta records nothing.
    pub fn is_empty(&self) -> (r: bool)
        ensures
            r <==> self.last_revealed@.len() == 0,
    {
        self.last_revealed.len() == 0
    }

    /// Absorb another delta. The observable content becomes the union of
    /// the two deltas' contents.
    pub fn merge(&mut self, other: IndexerChangeSet)
        ensures
            final(self).last_revealed@ == old(self).last_revealed@ + other.last_revealed@,
    {
        let mut o = other;
        self.last_revealed.append(&mut o.last_revealed);
    }
}

/// The per-keychain state: the bound descriptor, how many indices have been
/// revealed, the cached derived scripts (revealed plus lookahead), and the
/// monotone used flags.
#[derive(Clone, Debug)]
pub struct KeychainState {
    /// The output-generating descriptor.
    pub descriptor: String,
    /// The number of revealed indices: indices `0 .. next_index` have been
    /// handed out.
    pub next_index: u32,
    /// The derived script for each index below `spks.len()`; at least the
    /// revealed ones, plus a lookahead window for matching.
    pub spks: Vec<Vec<u8>>,
    /// Which indices have ever appeared on chain; never cleared.
    pub used: Vec<bool>,
}

/// Well-formedness of one keychain's state: every cached script is exactly
/// what the descriptor derives at its index, and only revealed indices can
/// be used.
pub open spec fn ks_wf(s: KeychainState) -> bool {
    &&& s.next_index <= s.spks@.len() <= u32::MAX
    &&& s.used@.len() == s.spks@.len()
    &&& forall|i: int|
        0 <= i < s.spks@.len() ==> spk_of(s.descriptor@, i as u32) == Some(
            (#[trigger] s.spks@[i])@,
        )
    &&& forall|i: int| 0 <= i < s.used@.len() && (#[trigger] s.used@[i]) ==> i < s.next_index
}

/// The used flags only ever gain entries.
pub open spec fn ks_used_monotone(pre: KeychainState, post: KeychainState) -> bool {
    &&& post.used@.len() >= pre.used@.len()
    &&& forall|i: int| 0 <= i < pre.used@.len() && (#[trigger] pre.used@[i]) ==> post.used@[i]
}

/// Revealed indices only ever grow, under the same descriptor.
pub open spec fn ks_grows(pre: KeychainState, post: KeychainState) -> bool {
    &&& post.descriptor@ == pre.descriptor@
    &&& post.next_index >= pre.next_index
    &&& post.spks@.len() >= pre.spks@.len()
    &&& ks_used_monotone(pre, post)
}

impl KeychainState {
    /// Derive scripts until at least `target` are cached. Fails (leaving a
    /// consistent, possibly partly extended cache) only when the descriptor
    /// cannot derive some index below `target`.
    fn extend_to(&mut self, target: u32) -> (r: bool)
        requires
            ks_wf(*old(self)),
        ensures
            ks_wf(*final(self)),
            final(self).descriptor@ == old(self).descriptor@,
            final(self).next_index == old(self).next_index,
            final(self).spks@.len() >= old(self).spks@.len(),
            forall|i: int|
                0 <= i < old(self).used@.len() ==> final(self).used@[i] == old(self).used@[i],
            forall|i: int|
                old(self).used@.len() <= i < final(self).used@.len() ==> !final(self).used@[i],
            r ==> final(self).spks@.len() >= target,
            !r ==> final(self).spks@.len() < target && spk_of(
                final(self).descriptor@,
                final(self).spks@.len() as u32,
            ) is None,
    {
        while self.spks.len() < target as usize
            invariant
                ks_wf(*old(self)),
                ks_wf(*self),
                self.descriptor@ == old(self).descriptor@,
                self.next_index == old(self).next_index,
                self.spks@.len() >= old(self).spks@.len(),
                target <= u32::MAX,
                forall|i: int|
                    0 <= i < old(self).used@.len() ==> self.used@[i] == old(self).used@[i],
                forall|i: int|
                    old(self).used@.len() <= i < self.used@.len() ==> !self.used@[i],
            decreases target - self.spks@.len(),
        {
            let idx = self.spks.len() as u32;
            match derive_spk(self.descriptor.as_str(), idx) {
                Some(spk) => {
                    self.spks.push(spk);
                    self.used.push(false);
                },
                None => {
                    return false;
                },
            }
        }
        true
    }

    /// Reveal the next never-revealed index: derive its script and advance
    /// the revealed counter. Returns the index and its script.
    fn reveal_next(&mut self) -> (r: Option<(u32, Vec<u8>)>)
        requires
            ks_wf(*old(self)),
            old(self).next_index < u32::MAX,
        ensures
            ks_wf(*final(self)),
            ks_grows(*old(self), *final(self)),
            match r {
                Some((idx, spk)) => {
                    &&& idx == old(self).next_index
                    &&& final(self).next_index == old(self).next_index + 1
                    &&& Some(spk@) == spk_of(old(self).descriptor@, idx)
                    &&& idx < final(self).used@.len()
                    &&& !final(self).used@[idx as int]
                },
                None => {
                    &&& spk_of(old(self).descriptor@, old(self).next_index) is None
                    &&& final(self).next_index == old(self).next_index
                },
            },
    {
        let idx = self.next_index;
        if !self.extend_to(idx + 1) {
            // The cache stops exactly at the first underivable index, which
            // must be the one about to be revealed.
            proof {
                assert(self.spks@.len() == idx as int);
            }
            return None;
        }
        let spk = copy_bytes(&self.spks[idx as usize]);
        self.next_index = idx + 1;
        proof {
            assert(spk_of(self.descriptor@, idx) == Some(self.spks@[idx as int]@));
        }
        Some((idx, spk))
    }
}

/// The keychain index: one optional state per keychain, a lookahead window
/// width, and the reverse map from observed outpoints to their owners.
#[derive(Clone, Debug)]
pub struct KeychainIndex {
    /// The receive keychain's state, if a descriptor is bound.
    pub external: Option<KeychainState>,
    /// The change keychain's state, if a descriptor is bound.
    pub internal: Option<KeychainState>,
    /// How many unrevealed scripts to keep derived for matching.
    pub lookahead: u32,
    /// Outpoints whose script belongs to a keychain, unique by outpoint.
    pub outpoints: Vec<IndexedOutPoint>,
}

impl KeychainIndex {
    /// Well-formedness: each bound state is well-formed and the reverse map
    /// has unique outpoints.
    pub open spec fn wf(self) -> bool {
        &&& match self.external {
            Some(s) => ks_wf(s),
            None => true,
        }
        &&& match self.internal {
            Some(s) => ks_wf(s),
            None => true,
        }
        &&& forall|i: int, j: int|
            0 <= i < j < self.outpoints@.len() ==> (#[trigger] self.outpoints@[i]).outpoint != (
            #[trigger] self.outpoints@[j]).outpoint
    }

    /// The state bound to a keychain tag.
    pub open spec fn spec_state(self, keychain: u8) -> Option<KeychainState> {
        if keychain == EXTERNAL_KEYCHAIN {
            self.external
        } else if keychain == INTERNAL_KEYCHAIN {
            self.internal
        } else {
            None
        }
    }

    /// An empty index with the given lookahead window.
    pub fn new(lookahead: u32) -> (r: KeychainIndex)
        ensures
            r.wf(),
            r.external is None,
            r.internal is None,
            r.outpoints@.len() == 0,
            r.lookahead == lookahead,
    {
        KeychainIndex { external: None, internal: None, lookahead, outpoints: Vec::new() }
    }

    /// Bind a descriptor to a keychain. Fails if the tag is unknown, the
    /// slot is already bound, or the descriptor cannot derive index 0.
    pub fn insert_descriptor(&mut self, keychain: Keychain, descriptor: String) -> (r: bool)
        requires
            old(self).wf(),
        ensures
            final(self).wf(),
            final(self).outpoints@ == old(self).outpoints@,
            r ==> (final(self).spec_state(keychain.0) matches Some(s) && s.descriptor@
                == descriptor@ && s.next_index == 0),
            r ==> spk_of(descriptor@, 0u32) is Some,
            !r ==> *final(self) == *old(self),
            !r ==> ((keychain.0 != EXTERNAL_KEYCHAIN && keychain.0 != INTERNAL_KEYCHAIN) || old(
                self,
            ).spec_state(keychain.0) is Some || spk_of(descriptor@, 0u32) is None),
            forall|k: u8|
                k != keychain.0 ==> final(self).spec_state(k) == old(self).spec_state(k),
    {
        let valid = derive_spk(descriptor.as_str(), 0).is_some();
        if !valid {
            return false;
        }
        let mut state = KeychainState {
            descriptor,
            next_index: 0,
            spks: Vec::new(),
            used: Vec::new(),
        };
        proof {
            assert(state.spks@.len() == 0);
        }
        // Keep a lookahead window of derived scripts for matching.
        if self.lookahead < u32::MAX {
            let _ = state.extend_to(self.lookahead);
        }
        if keychain.0 == EXTERNAL_KEYCHAIN {
            if self.external.is_some() {
                return false;
            }
            self.external = Some(state);
            true
        } else if keychain.0 == INTERNAL_KEYCHAIN {
            if self.internal.is_some() {
                return false;
            }
            self.internal = Some(state);
            true
        } else {
            false
        }
    }

    /// Derive, reveal and return the next never-revealed script of the
    /// keychain, advancing the revealed counter; the returned delta records
    /// the newly revealed index. The returned index was never returned by
    /// an earlier reveal, because every earlier reveal returned an index
    /// below the current revealed counter.
    pub fn reveal_next_spk(&mut self, keychain: Keychain) -> (r: Option<
        ((u32, Vec<u8>), IndexerChangeSet),
    >)
        requires
            old(self).wf(),
        ensures
            final(self).wf(),
            final(self).outpoints@ == old(self).outpoints@,
            final(self).lookahead == old(self).lookahead,
            forall|k: u8|
                k != keychain.0 ==> final(self).spec_state(k) == old(self).spec_state(k),
            match r {
                Some(((idx, spk), delta)) => {
                    &&& old(self).spec_state(keychain.0) is Some
                    &&& final(self).spec_state(keychain.0) is Some
                    &&& idx == (old(self).spec_state(keychain.0)->Some_0).next_index
                    &&& (final(self).spec_state(keychain.0)->Some_0).next_index == idx + 1
                    &&& Some(spk@) == spk_of(
                        (old(self).spec_state(keychain.0)->Some_0).descriptor@,
                        idx,
                    )
                    &&& ks_grows(
                        old(self).spec_state(keychain.0)->Some_0,
                        final(self).spec_state(keychain.0)->Some_0,
                    )
                    &&& idx < (final(self).spec_state(keychain.0)->Some_0).used@.len()
                    &&& !((final(self).spec_state(keychain.0)->Some_0).used@[idx as int])
                    &&& delta.last_revealed@ == seq![(keychain.0, idx)]
                },
                None => {
                    &&& (final(self).spec_state(keychain.0) is Some <==> old(self).spec_state(
                        keychain.0,
                    ) is Some)
                    &&& (old(self).spec_state(keychain.0) is Some ==> ks_grows(
                        old(self).spec_state(keychain.0)->Some_0,
                        final(self).spec_state(keychain.0)->Some_0,
                    ) && (final(self).spec_state(keychain.0)->Some_0).next_index == (old(
                        self,
                    ).spec_state(keychain.0)->Some_0).next_index)
                    &&& (old(self).spec_state(keychain.0) is Some ==> {
                        let pre = old(self).spec_state(keychain.0)->Some_0;
                        pre.next_index == u32::MAX || spk_of(pre.descriptor@, pre.next_index)
                            is None
                    })
                },
            },
    {
        let r = if keychain.0 == EXTERNAL_KEYCHAIN {
            reveal_in_slot(&mut self.external)
        } else if keychain.0 == INTERNAL_KEYCHAIN {
            reveal_in_slot(&mut self.internal)
        } else {
            return None;
        };
        match r {
            Some((idx, spk)) => {
                let mut delta = IndexerChangeSet::new();
                delta.last_revealed.push((keychain.0, idx));
                proof {
                    assert(delta.last_revealed@ =~= seq![(keychain.0, idx)]);
                }
                Some(((idx, spk), delta))
            },
            None => None,
        }
    }

    /// The lowest revealed-but-unused script of the keychain, revealing a
    /// new one only if every revealed script is used. The returned index is
    /// never one already marked used.
    pub fn next_unused_spk(&mut self, keychain: Keychain) -> (r: Option<
        ((u32, Vec<u8>), IndexerChangeSet),
    >)
        requires
            old(self).wf(),
        ensures
            final(self).wf(),
            final(self).outpoints@ == old(self).outpoints@,
            final(self).lookahead == old(self).lookahead,
            forall|k: u8|
                k != keychain.0 ==> final(self).spec_state(k) == old(self).spec_state(k),
            match r {
                Some(((idx, spk), delta)) => {
                    &&& old(self).spec_state(keychain.0) is Some
                    &&& final(self).spec_state(keychain.0) is Some
                    &&& idx == spec_next_unused_idx(old(self).spec_state(keychain.0)->Some_0)
                    &&& idx < (final(self).spec_state(keychain.0)->Some_0).next_index
                    &&& !((final(self).spec_state(keychain.0)->Some_0).used@[idx as int])
                    &&& Some(spk@) == spk_of(
                        (final(self).spec_state(keychain.0)->Some_0).descriptor@,
                        idx,
                    )
                    &&& ks_grows(
                        old(self).spec_state(keychain.0)->Some_0,
                        final(self).spec_state(keychain.0)->Some_0,
                    )
                },
                None => {
                    &&& (final(self).spec_state(keychain.0) is Some <==> old(self).spec_state(
                        keychain.0,
                    ) is Some)
                    &&& (old(self).spec_state(keychain.0) is Some ==> ks_grows(
                        old(self).spec_state(keychain.0)->Some_0,
                        final(self).spec_state(keychain.0)->Some_0,
                    ))
                    &&& (old(self).spec_state(keychain.0) is Some ==> {
                        let pre = old(self).spec_state(keychain.0)->Some_0;
                        spec_next_unused_idx(pre) == pre.next_index && (pre.next_index
                            == u32::MAX || spk_of(pre.descriptor@, pre.next_index) is None)
                    })
                },
            },
    {
        if keychain.0 == EXTERNAL_KEYCHAIN {
            match &self.external {
                Some(s) => {
                    match find_unused(s) {
                        Some(i) => {
                            let spk = copy_bytes(&s.spks[i as usize]);
                            proof {
                                assert(spk_of(s.descriptor@, i) == Some(s.spks@[i as int]@));
                            }
                            return Some(((i, spk), IndexerChangeSet::new()));
                        },
                        None => {},
                    }
                },
                None => {
                    return None;
                },
            }
        } else if keychain.0 == INTERNAL_KEYCHAIN {
            match &self.internal {
                Some(s) => {
                    match find_unused(s) {
                        Some(i) => {
                            let spk = copy_bytes(&s.spks[i as usize]);
                            proof {
                                assert(spk_of(s.descriptor@, i) == Some(s.spks@[i as int]@));
                            }
                            return Some(((i, spk), IndexerChangeSet::new()));
                        },
                        None => {},
                    }
                },
                None => {
                    return None;
                },
            }
        } else {
            return None;
        }
        match self.reveal_next_spk(keychain) {
            Some(((idx, spk), delta)) => Some(((idx, spk), delta)),
            None => None,
        }
    }

    /// Pure derivation of the keychain's script at an arbitrary index; no
    /// state is touched. Fails for an unbound keychain or an index the
    /// descriptor cannot derive (the hardened range).
    pub fn peek_spk(&self, keychain: Keychain, index: u32) -> (r: Option<Vec<u8>>)
        ensures
            match r {
                Some(spk) => self.spec_state(keychain.0) is Some && Some(spk@) == spk_of(
                    (self.spec_state(keychain.0)->Some_0).descriptor@,
                    index,
                ),
                None => self.spec_state(keychain.0) is None || spk_of(
                    (self.spec_state(keychain.0)->Some_0).descriptor@,
                    index,
                ) is None,
            },
    {
        let state = if keychain.0 == EXTERNAL_KEYCHAIN {
            &self.external
        } else if keychain.0 == INTERNAL_KEYCHAIN {
            &self.internal
        } else {
            return None;
        };
        match state {
            Some(s) => derive_spk(s.descriptor.as_str(), index),
            None => None,
        }
    }

    /// Whether the keychain's index has ever been seen on chain.
    pub fn is_used(&self, keychain: Keychain, index: u32) -> (r: bool)
        requires
            self.wf(),
        ensures
            r <==> (self.spec_state(keychain.0) matches Some(s) && index < s.used@.len()
                && s.used@[index as int]),
    {
        let state = if keychain.0 == EXTERNAL_KEYCHAIN {
            &self.external
        } else if keychain.0 == INTERNAL_KEYCHAIN {
            &self.internal
        } else {
            return false;
        };
        match state {
            Some(s) => (index as usize) < s.used.len() && s.used[index as usize],
            None => false,
        }
    }

    /// The keychain and index owning this script, among the cached derived
    /// scripts (external keychain searched first).
    pub fn index_of_spk(&self, spk: &Vec<u8>) -> (r: Option<(u8, u32)>)
        requires
            self.wf(),
        ensures
            match r {
                Some((k, i)) => self.spec_state(k) matches Some(s) && i < s.spks@.len()
                    && s.spks@[i as int]@ == spk@,
                None => !self.spec_some_spk_matches(spk@),
            },
    {
        match &self.external {
            Some(s) => {
                match find_spk(s, spk) {
                    Some(i) => {
                        return Some((EXTERNAL_KEYCHAIN, i));
                    },
                    None => {},
                }
            },
            None => {},
        }
        match &self.internal {
            Some(s) => {
                match find_spk(s, spk) {
                    Some(i) => {
                        return Some((INTERNAL_KEYCHAIN, i));
                    },
                    None => {},
                }
            },
            None => {},
        }
        None
    }

    /// Some recorded entry maps `op` to its owner.
    pub open spec fn spec_outpoint_recorded(self, op: OutPoint) -> bool {
        exists|j: int|
            0 <= j < self.outpoints@.len() && (#[trigger] self.outpoints@[j]).outpoint == op
    }

    /// Some cached script equals `spk` and is marked used on its keychain.
    pub open spec fn spec_spk_marked_used(self, spk: Seq<u8>) -> bool {
        ||| (self.external matches Some(s) && spec_state_marks(s, spk))
        ||| (self.internal matches Some(s) && spec_state_marks(s, spk))
    }

    /// Some cached derived script equals `spk`.
    pub open spec fn spec_some_spk_matches(self, spk: Seq<u8>) -> bool {
        ||| (self.external matches Some(s) && exists|i: int|
            0 <= i < s.spks@.len() && (#[trigger] s.spks@[i])@ == spk)
        ||| (self.internal matches Some(s) && exists|i: int|
            0 <= i < s.spks@.len() && (#[trigger] s.spks@[i])@ == spk)
    }

    /// Whether the transaction touches the wallet: it spends a recorded
    /// outpoint or pays to a cached derived script.
    pub open spec fn spec_tx_relevant(self, tx: Tx) -> bool {
        ||| exists|i: int, j: int|
            0 <= i < tx.inputs@.len() && 0 <= j < self.outpoints@.len() && (
            #[trigger] tx.inputs@[i]) == (#[trigger] self.outpoints@[j]).outpoint
        ||| exists|v: int|
            0 <= v < tx.outputs@.len() && self.spec_some_spk_matches(
                (#[trigger] tx.outputs@[v]).spk@,
            )
    }

    /// Whether any input or output of the transaction touches an indexed
    /// script or outpoint.
    pub fn is_tx_relevant(&self, tx: &Tx) -> (r: bool)
        requires
            self.wf(),
        ensures
            r == self.spec_tx_relevant(*tx),
    {
        let mut i: usize = 0;
        while i < tx.inputs.len()
            invariant
                self.wf(),
                0 <= i <= tx.inputs@.len(),
                forall|p: int, q: int|
                    0 <= p < i && 0 <= q < self.outpoints@.len() ==> (#[trigger] tx.inputs@[p]) != (
                    #[trigger] self.outpoints@[q]).outpoint,
            decreases tx.inputs@.len() - i,
        {
            let mut j: usize = 0;
            while j < self.outpoints.len()
                invariant
                    self.wf(),
                    0 <= i < tx.inputs@.len(),
                    0 <= j <= self.outpoints@.len(),
                    forall|q: int|
                        0 <= q < j ==> (#[trigger] self.outpoints@[q]).outpoint != tx.inputs@[
                            i as int
                        ],
                decreases self.outpoints@.len() - j,
            {
                if self.outpoints[j].outpoint == tx.inputs[i] {
                    proof {
                        assert(tx.inputs@[i as int] == self.outpoints@[j as int].outpoint);
                    }
                    return true;
                }
                j += 1;
            }
            i += 1;
        }
        let mut v: usize = 0;
        while v < tx.outputs.len()
            invariant
                self.wf(),
                0 <= v <= tx.outputs@.len(),
                forall|p: int, q: int|
                    0 <= p < tx.inputs@.len() && 0 <= q < self.outpoints@.len() ==> (
                    #[trigger] tx.inputs@[p]) != (#[trigger] self.outpoints@[q]).outpoint,
                forall|p: int|
                    0 <= p < v ==> !self.spec_some_spk_matches((#[trigger] tx.outputs@[p]).spk@),
            decreases tx.outputs@.len() - v,
        {
            match self.index_of_spk(&tx.outputs[v].spk) {
                Some((k, i)) => {
                    proof {
                        let s = self.spec_state(k)->Some_0;
                        assert(s.spks@[i as int]@ == tx.outputs@[v as int].spk@);
                        if k == EXTERNAL_KEYCHAIN {
                            assert(self.external == Some(s));
                        } else {
                            assert(self.internal == Some(s));
                        }
                        assert(self.spec_some_spk_matches(tx.outputs@[v as int].spk@));
                    }
                    return true;
                },
                None => {},
            }
            v += 1;
        }
        false
    }
}

/// The position of the first cached script equal to `spk`, if any.
fn find_spk(s: &KeychainState, spk: &Vec<u8>) -> (r: Option<u32>)
    requires
        ks_wf(*s),
    ensures
        match r {
            Some(i) => i < s.spks@.len() && s.spks@[i as int]@ == spk@,
            None => forall|i: int| 0 <= i < s.spks@.len() ==> (#[trigger] s.spks@[i])@ != spk@,
        },
{
    let mut i: usize = 0;
    while i < s.spks.len()
        invariant
            ks_wf(*s),
            0 <= i <= s.spks@.len(),
            forall|p: int| 0 <= p < i ==> (#[trigger] s.spks@[p])@ != spk@,
        decreases s.spks@.len() - i,
    {
        if bytes_eq(&s.spks[i], spk) {
            return Some(i as u32);
        }
        i += 1;
    }
    None
}


/// Reveal the next index of the state in `slot`, if one is bound.
fn reveal_in_slot(slot: &mut Option<KeychainState>) -> (r: Option<(u32, Vec<u8>)>)
    requires
        match *old(slot) {
            Some(s) => ks_wf(s),
            None => true,
        },
    ensures
        match (*old(slot), *final(slot)) {
            (Some(pre), Some(post)) => {
                &&& ks_wf(post)
                &&& ks_grows(pre, post)
                &&& match r {
                    Some((idx, spk)) => {
                        &&& idx == pre.next_index
                        &&& post.next_index == pre.next_index + 1
                        &&& Some(spk@) == spk_of(pre.descriptor@, idx)
                        &&& idx < post.used@.len()
                        &&& !post.used@[idx as int]
                    },
                    None => post.next_index == pre.next_index && (pre.next_index == u32::MAX
                        || spk_of(pre.descriptor@, pre.next_index) is None),
                }
            },
            (None, None) => r is None,
            _ => false,
        },
{
    match slot {
        Some(s) => {
            if s.next_index == u32::MAX {
                return None;
            }
            s.reveal_next()
        },
        None => None,
    }
}

/// The lowest revealed index of the state that is not marked used.
fn find_unused(s: &KeychainState) -> (r: Option<u32>)
    requires
        ks_wf(*s),
    ensures
        match r {
            Some(i) => i == spec_next_unused_idx(*s) && i < s.next_index && !s.used@[i as int]
                && forall|j: int| 0 <= j < i ==> s.used@[j],
            None => spec_next_unused_idx(*s) == s.next_index && forall|i: int|
                0 <= i < s.next_index ==> s.used@[i],
        },
{
    let mut i: usize = 0;
    let n = s.next_index as usize;
    while i < n
        invariant
            ks_wf(*s),
            n == s.next_index,
            0 <= i <= n,
            forall|p: int| 0 <= p < i ==> s.used@[p],
        decreases n - i,
    {
        if !s.used[i] {
            proof {
                lemma_first_unused_prefix(*s, i as u32);
            }
            return Some(i as u32);
        }
        i += 1;
    }
    proof {
        lemma_first_unused_prefix(*s, s.next_index);
    }
    None
}

/// The lowest revealed-but-unused index at or above `i`, or the next index
/// to reveal when every revealed index from `i` on is used.
pub open spec fn spec_first_unused_from(s: KeychainState, i: u32) -> u32
    decreases s.next_index - i,
{
    if i >= s.next_index {
        s.next_index
    } else if !s.used@[i as int] {
        i
    } else {
        spec_first_unused_from(s, (i + 1) as u32)
    }
}

/// The lowest revealed-but-unused index, or the next index to reveal when
/// every revealed index is used.
pub open spec fn spec_next_unused_idx(s: KeychainState) -> u32 {
    spec_first_unused_from(s, 0)
}

/// When every index below `i` is used, the search from the start reaches
/// the search from `i`.
proof fn lemma_first_unused_prefix(s: KeychainState, i: u32)
    requires
        i <= s.next_index,
        forall|j: int| 0 <= j < i ==> s.used@[j],
    ensures
        spec_next_unused_idx(s) == spec_first_unused_from(s, i),
    decreases i,
{
    if i > 0 {
        lemma_first_unused_prefix(s, (i - 1) as u32);
        assert(spec_first_unused_from(s, (i - 1) as u32) == spec_first_unused_from(s, i));
    }
}


/// Some cached script of the state equals `spk` and its index is marked
/// used.
pub open spec fn spec_state_marks(s: KeychainState, spk: Seq<u8>) -> bool {
    exists|ii: int|
        0 <= ii < s.spks@.len() && (#[trigger] s.spks@[ii])@ == spk && ii < s.used@.len()
            && s.used@[ii]
}

/// A state keeps every mark as it grows: used flags are monotone and the
/// cached script at an index never changes content (both are pinned by the
/// descriptor).
pub proof fn lemma_marks_monotone(pre: KeychainState, post: KeychainState, spk: Seq<u8>)
    requires
        ks_wf(pre),
        ks_wf(post),
        ks_grows(pre, post),
        spec_state_marks(pre, spk),
    ensures
        spec_state_marks(post, spk),
{
    let ii = choose|ii: int|
        0 <= ii < pre.spks@.len() && (#[trigger] pre.spks@[ii])@ == spk && ii < pre.used@.len()
            && pre.used@[ii];
    assert(spk_of(pre.descriptor@, ii as u32) == Some(pre.spks@[ii]@));
    assert(spk_of(post.descriptor@, ii as u32) == Some(post.spks@[ii]@));
    assert(post.spks@[ii]@ == spk);
    assert(post.used@[ii]);
}

/// Either no state is bound under the tag in both, or both are bound and
/// the state only grew.
pub open spec fn slot_grows(pre: Option<KeychainState>, post: Option<KeychainState>) -> bool {
    match (pre, post) {
        (Some(a), Some(b)) => ks_grows(a, b),
        (None, None) => true,
        _ => false,
    }
}

impl KeychainIndex {
    /// The number of revealed indices of a keychain.
    pub fn next_index_of(&self, keychain: Keychain) -> (r: Option<u32>)
        ensures
            match r {
                Some(n) => self.spec_state(keychain.0) is Some && n == (self.spec_state(
                    keychain.0,
                )->Some_0).next_index,
                None => self.spec_state(keychain.0) is None,
            },
    {
        if keychain.0 == EXTERNAL_KEYCHAIN {
            match &self.external {
                Some(s) => Some(s.next_index),
                None => None,
            }
        } else if keychain.0 == INTERNAL_KEYCHAIN {
            match &self.internal {
                Some(s) => Some(s.next_index),
                None => None,
            }
        } else {
            None
        }
    }

    /// The lowest revealed-but-unused index with its script, or the next
    /// index to reveal with its script, without touching any state.
    pub fn peek_next_unused(&self, keychain: Keychain) -> (r: Option<(u32, Vec<u8>)>)
        requires
            self.wf(),
        ensures
            match r {
                Some((idx, spk)) => {
                    &&& self.spec_state(keychain.0) is Some
                    &&& idx == spec_next_unused_idx(self.spec_state(keychain.0)->Some_0)
                    &&& Some(spk@) == spk_of(
                        (self.spec_state(keychain.0)->Some_0).descriptor@,
                        idx,
                    )
                    &&& idx <= (self.spec_state(keychain.0)->Some_0).next_index
                    &&& (idx < (self.spec_state(keychain.0)->Some_0).used@.len() ==> !(self.spec_state(
                        keychain.0,
                    )->Some_0).used@[idx as int])
                },
                None => self.spec_state(keychain.0) is None || {
                    let s = self.spec_state(keychain.0)->Some_0;
                    spec_next_unused_idx(s) == s.next_index && spk_of(
                        s.descriptor@,
                        s.next_index,
                    ) is None
                },
            },
    {
        let s = if keychain.0 == EXTERNAL_KEYCHAIN {
            match &self.external {
                Some(s) => s,
                None => {
                    return None;
                },
            }
        } else if keychain.0 == INTERNAL_KEYCHAIN {
            match &self.internal {
                Some(s) => s,
                None => {
                    return None;
                },
            }
        } else {
            return None;
        };
        match find_unused(s) {
            Some(i) => {
                let spk = copy_bytes(&s.spks[i as usize]);
                proof {
                    assert(spk_of(s.descriptor@, i) == Some(s.spks@[i as int]@));
                }
                Some((i, spk))
            },
            None => {
                let idx = s.next_index;
                match derive_spk(s.descriptor.as_str(), idx) {
                    Some(spk) => {
                        proof {
                            if (idx as int) < s.used@.len() {
                                assert(!s.used@[idx as int]);
                            }
                        }
                        Some((idx, spk))
                    },
                    None => None,
                }
            },
        }
    }

    /// Mark a revealed index as used; once set the flag never clears.
    pub fn mark_used(&mut self, keychain: Keychain, index: u32) -> (r: bool)
        requires
            old(self).wf(),
        ensures
            final(self).wf(),
            final(self).outpoints@ == old(self).outpoints@,
            final(self).lookahead == old(self).lookahead,
            forall|k: u8|
                k != keychain.0 ==> final(self).spec_state(k) == old(self).spec_state(k),
            slot_grows(old(self).spec_state(keychain.0), final(self).spec_state(keychain.0)),
            r ==> (final(self).spec_state(keychain.0) is Some && index < (final(self).spec_state(
                keychain.0,
            )->Some_0).used@.len() && (final(self).spec_state(keychain.0)->Some_0).used@[
                index as int
            ]),
            (old(self).spec_state(keychain.0) is Some && index < (old(self).spec_state(
                keychain.0,
            )->Some_0).next_index) ==> r,
    {
        if keychain.0 == EXTERNAL_KEYCHAIN {
            match &mut self.external {
                Some(s) => mark_used_in(s, index),
                None => false,
            }
        } else if keychain.0 == INTERNAL_KEYCHAIN {
            match &mut self.internal {
                Some(s) => mark_used_in(s, index),
                None => false,
            }
        } else {
            false
        }
    }

    /// Reveal every index up to and including `target`, extending the
    /// cache. The returned delta records the newly revealed boundary.
    pub fn reveal_to_target(&mut self, keychain: Keychain, target: u32) -> (r: Option<
        IndexerChangeSet,
    >)
        requires
            old(self).wf(),
            target < u32::MAX,
        ensures
            final(self).wf(),
            final(self).outpoints@ == old(self).outpoints@,
            final(self).lookahead == old(self).lookahead,
            forall|k: u8|
                k != keychain.0 ==> final(self).spec_state(k) == old(self).spec_state(k),
            slot_grows(old(self).spec_state(keychain.0), final(self).spec_state(keychain.0)),
            r is Some ==> (final(self).spec_state(keychain.0) is Some && (final(self).spec_state(
                keychain.0,
            )->Some_0).next_index > target),
            r matches Some(d) ==> d.last_revealed@ == seq![(keychain.0, target)],
            (r is None && old(self).spec_state(keychain.0) is Some) ==> {
                let post = final(self).spec_state(keychain.0)->Some_0;
                &&& final(self).spec_state(keychain.0) is Some
                &&& post.next_index <= target
                &&& post.spks@.len() <= target
                &&& spk_of(post.descriptor@, post.spks@.len() as u32) is None
            },
    {
        let ok = if keychain.0 == EXTERNAL_KEYCHAIN {
            match &mut self.external {
                Some(s) => reveal_to_in(s, target),
                None => {
                    return None;
                },
            }
        } else if keychain.0 == INTERNAL_KEYCHAIN {
            match &mut self.internal {
                Some(s) => reveal_to_in(s, target),
                None => {
                    return None;
                },
            }
        } else {
            return None;
        };
        if ok {
            let mut delta = IndexerChangeSet::new();
            delta.last_revealed.push((keychain.0, target));
            proof {
                assert(delta.last_revealed@ =~= seq![(keychain.0, target)]);
            }
            Some(delta)
        } else {
            None
        }
    }

    /// Record an observed output: if its script belongs to a keychain, map
    /// the outpoint to `(keychain, index)`, reveal up to that index and
    /// mark it used. Unrecognized outputs change nothing.
    pub fn index_txout(&mut self, op: OutPoint, txo: &TxOut) -> (delta: IndexerChangeSet)
        requires
            old(self).wf(),
        ensures
            final(self).wf(),
            final(self).lookahead == old(self).lookahead,
            slot_grows(old(self).external, final(self).external),
            slot_grows(old(self).internal, final(self).internal),
            // Old entries survive; at most one new entry appears, for `op`.
            final(self).outpoints@ == old(self).outpoints@ || (final(self).outpoints@.len() == old(
                self,
            ).outpoints@.len() + 1 && (forall|i: int|
                0 <= i < old(self).outpoints@.len() ==> final(self).outpoints@[i] == old(
                    self,
                ).outpoints@[i]) && final(self).outpoints@.last().outpoint == op),
            // A recognized script gets its outpoint recorded and its index
            // marked used.
            old(self).spec_some_spk_matches(txo.spk@) ==> (final(self).spec_outpoint_recorded(op)
                && final(self).spec_spk_marked_used(txo.spk@)),
            // The delta records only indices that are revealed afterwards.
            forall|e: int|
                0 <= e < delta.last_revealed@.len() ==> {
                    let f = #[trigger] delta.last_revealed@[e];
                    final(self).spec_state(f.0) is Some && f.1 < (final(self).spec_state(
                        f.0,
                    )->Some_0).next_index
                },
    {
        let ghost pre = *self;
        match self.index_of_spk(&txo.spk) {
            Some((k, i)) => {
                proof {
                    assert(i < u32::MAX) by {
                        let s = self.spec_state(k)->Some_0;
                        assert(s.spks@.len() <= u32::MAX);
                    }
                }
                let mut recorded = false;
                let mut j: usize = 0;
                while j < self.outpoints.len()
                    invariant
                        *self == pre,
                        pre.wf(),
                        0 <= j <= self.outpoints@.len(),
                        !recorded ==> forall|p: int|
                            0 <= p < j ==> (#[trigger] self.outpoints@[p]).outpoint != op,
                        recorded ==> exists|p: int|
                            0 <= p < self.outpoints@.len() && (#[trigger] self.outpoints@[
                                p
                            ]).outpoint == op,
                    decreases self.outpoints@.len() - j,
                {
                    if self.outpoints[j].outpoint == op {
                        proof {
                            assert(self.outpoints@[j as int].outpoint == op);
                        }
                        recorded = true;
                    }
                    j += 1;
                }
                let ghost mid0 = *self;
                if !recorded {
                    self.outpoints.push(IndexedOutPoint { keychain: k, index: i, outpoint: op });
                    proof {
                        assert(self.outpoints@.last().outpoint == op);
                        assert forall|p: int, q: int|
                            0 <= p < q < self.outpoints@.len() implies (
                        #[trigger] self.outpoints@[p]).outpoint != (
                        #[trigger] self.outpoints@[q]).outpoint by {
                            if q == self.outpoints@.len() - 1 {
                                assert(self.outpoints@[p] == mid0.outpoints@[p]);
                            }
                        }
                    }
                }
                let ghost mid = *self;
                let delta = match self.next_index_of(Keychain(k)) {
                    Some(n) => {
                        if i >= n {
                            match self.reveal_to_target(Keychain(k), i) {
                                Some(d) => d,
                                None => {
                                    // The matched script is cached, so its
                                    // index is already derivable: revealing
                                    // up to it cannot fail.
                                    proof {
                                        let post = self.spec_state(k)->Some_0;
                                        assert(post.spks@.len() >= (mid.spec_state(
                                            k,
                                        )->Some_0).spks@.len());
                                        assert(false);
                                    }
                                    IndexerChangeSet::new()
                                },
                            }
                        } else {
                            IndexerChangeSet::new()
                        }
                    },
                    None => IndexerChangeSet::new(),
                };
                let ghost mid2 = *self;
                proof {
                    lemma_state_slots(pre, mid, k);
                    lemma_state_slots(mid, mid2, k);
                    assert(i < (mid2.spec_state(k)->Some_0).next_index);
                }
                let marked = self.mark_used(Keychain(k), i);
                proof {
                    assert(marked);
                    lemma_state_slots(mid2, *self, k);
                    lemma_slot_grows_trans(pre.external, mid.external, mid2.external);
                    lemma_slot_grows_trans(pre.external, mid2.external, self.external);
                    lemma_slot_grows_trans(pre.internal, mid.internal, mid2.internal);
                    lemma_slot_grows_trans(pre.internal, mid2.internal, self.internal);
                    if pre.spec_some_spk_matches(txo.spk@) {
                        assert(self.spec_outpoint_recorded(op)) by {
                            assert(exists|p: int|
                                0 <= p < self.outpoints@.len() && (#[trigger] self.outpoints@[
                                    p
                                ]).outpoint == op);
                        }
                    }
                    // The matched index is marked used on its keychain, and
                    // the cached script there still holds the same content.
                    let s0 = pre.spec_state(k)->Some_0;
                    let s1 = self.spec_state(k)->Some_0;
                    assert(spk_of(s0.descriptor@, i) == Some(s0.spks@[i as int]@));
                    assert(spk_of(s1.descriptor@, i) == Some(s1.spks@[i as int]@));
                    assert(s1.spks@[i as int]@ == txo.spk@);
                    assert(spec_state_marks(s1, txo.spk@));
                    assert(self.spec_spk_marked_used(txo.spk@)) by {
                        if k == EXTERNAL_KEYCHAIN {
                            assert(self.external == Some(s1));
                        } else {
                            assert(self.internal == Some(s1));
                        }
                    }
                    // Delta entries point at revealed indices.
                    assert forall|e: int| 0 <= e < delta.last_revealed@.len() implies {
                        let f = #[trigger] delta.last_revealed@[e];
                        self.spec_state(f.0) is Some && f.1 < (self.spec_state(
                            f.0,
                        )->Some_0).next_index
                    } by {
                        assert(delta.last_revealed@[e] == (k, i));
                    }
                }
                delta
            },
            None => IndexerChangeSet::new(),
        }
    }

    /// Index every output of a transaction. Relevant outputs are recorded
    /// in the reverse map; the delta records newly revealed indices.
    pub fn index_tx(&mut self, tx: &Tx) -> (delta: IndexerChangeSet)
        requires
            old(self).wf(),
        ensures
            final(self).wf(),
            final(self).lookahead == old(self).lookahead,
            slot_grows(old(self).external, final(self).external),
            slot_grows(old(self).internal, final(self).internal),
            // Old entries survive, and every new entry is an output of `tx`.
            old(self).outpoints@.len() <= final(self).outpoints@.len(),
            forall|i: int|
                0 <= i < old(self).outpoints@.len() ==> final(self).outpoints@[i] == old(
                    self,
                ).outpoints@[i],
            forall|i: int|
                old(self).outpoints@.len() <= i < final(self).outpoints@.len() ==> (
                #[trigger] final(self).outpoints@[i]).outpoint.txid == tx.txid,
            // Every output paying to a script the old cache recognizes gets
            // its outpoint recorded and its index marked used.
            forall|v: int|
                0 <= v < tx.outputs@.len() && old(self).spec_some_spk_matches(
                    (#[trigger] tx.outputs@[v]).spk@,
                ) ==> (final(self).spec_outpoint_recorded(
                    OutPoint { txid: tx.txid, vout: v as u32 },
                ) && final(self).spec_spk_marked_used(tx.outputs@[v].spk@)),
            // The delta records only indices that are revealed afterwards.
            forall|e: int|
                0 <= e < delta.last_revealed@.len() ==> {
                    let f = #[trigger] delta.last_revealed@[e];
                    final(self).spec_state(f.0) is Some && f.1 < (final(self).spec_state(
                        f.0,
                    )->Some_0).next_index
                },
    {
        let ghost g0 = *self;
        let mut delta = IndexerChangeSet::new();
        let mut v: usize = 0;
        while v < tx.outputs.len()
            invariant
                self.wf(),
                g0.wf(),
                0 <= v <= tx.outputs@.len(),
                self.lookahead == g0.lookahead,
                slot_grows(g0.external, self.external),
                slot_grows(g0.internal, self.internal),
                g0.outpoints@.len() <= self.outpoints@.len(),
                forall|i: int|
                    0 <= i < g0.outpoints@.len() ==> self.outpoints@[i] == g0.outpoints@[i],
                forall|i: int|
                    g0.outpoints@.len() <= i < self.outpoints@.len() ==> (
                    #[trigger] self.outpoints@[i]).outpoint.txid == tx.txid,
                forall|p: int|
                    0 <= p < v && g0.spec_some_spk_matches((#[trigger] tx.outputs@[p]).spk@)
                        ==> (self.spec_outpoint_recorded(
                        OutPoint { txid: tx.txid, vout: p as u32 },
                    ) && self.spec_spk_marked_used(tx.outputs@[p].spk@)),
                forall|e: int|
                    0 <= e < delta.last_revealed@.len() ==> {
                        let f = #[trigger] delta.last_revealed@[e];
                        self.spec_state(f.0) is Some && f.1 < (self.spec_state(
                            f.0,
                        )->Some_0).next_index
                    },
            decreases tx.outputs@.len() - v,
        {
            let ghost mid = *self;
            let ghost pre_delta = delta.last_revealed@;
            let op = OutPoint { txid: tx.txid, vout: v as u32 };
            let d = self.index_txout(op, &tx.outputs[v]);
            delta.merge(d);
            proof {
                lemma_slot_grows_trans(g0.external, mid.external, self.external);
                lemma_slot_grows_trans(g0.internal, mid.internal, self.internal);
                if g0.spec_some_spk_matches(tx.outputs@[v as int].spk@) {
                    lemma_match_monotone(g0, mid, tx.outputs@[v as int].spk@);
                }
                // Earlier recordings and marks survive this step.
                assert forall|p: int|
                    0 <= p < v + 1 && g0.spec_some_spk_matches(
                        (#[trigger] tx.outputs@[p]).spk@,
                    ) implies (self.spec_outpoint_recorded(
                    OutPoint { txid: tx.txid, vout: p as u32 },
                ) && self.spec_spk_marked_used(tx.outputs@[p].spk@)) by {
                    if p < v {
                        let opp = OutPoint { txid: tx.txid, vout: p as u32 };
                        let j = choose|j: int|
                            0 <= j < mid.outpoints@.len() && (#[trigger] mid.outpoints@[
                                j
                            ]).outpoint == opp;
                        assert(self.outpoints@[j] == mid.outpoints@[j]);
                        lemma_index_marks_monotone(mid, *self, tx.outputs@[p].spk@);
                    }
                }
                // Earlier delta entries still point below the counter.
                assert forall|e: int| 0 <= e < delta.last_revealed@.len() implies {
                    let f = #[trigger] delta.last_revealed@[e];
                    self.spec_state(f.0) is Some && f.1 < (self.spec_state(
                        f.0,
                    )->Some_0).next_index
                } by {
                    let f = delta.last_revealed@[e];
                    if e < pre_delta.len() {
                        assert(f == pre_delta[e]);
                        assert(mid.spec_state(f.0) is Some);
                        lemma_state_any_slot(mid, *self, f.0);
                    }
                }
            }
            v += 1;
        }
        delta
    }

    /// Replay a persisted delta: reveal each recorded index again, so a
    /// reload sees every index that was ever revealed.
    pub fn apply_changeset(&mut self, d: &IndexerChangeSet)
        requires
            old(self).wf(),
        ensures
            final(self).wf(),
            final(self).outpoints@ == old(self).outpoints@,
            slot_grows(old(self).external, final(self).external),
            slot_grows(old(self).internal, final(self).internal),
            // Every replayable fact ends up revealed, unless the bound
            // descriptor cannot derive some index at or below it.
            forall|e: int|
                0 <= e < d.last_revealed@.len() ==> {
                    let f = #[trigger] d.last_revealed@[e];
                    f.1 == u32::MAX || match final(self).spec_state(f.0) {
                        Some(s) => s.next_index > f.1 || exists|j: u32|
                            j <= f.1 && spk_of(s.descriptor@, j) is None,
                        None => true,
                    }
                },
    {
        let ghost g0 = *self;
        let mut i: usize = 0;
        while i < d.last_revealed.len()
            invariant
                self.wf(),
                g0.wf(),
                0 <= i <= d.last_revealed@.len(),
                self.outpoints@ == g0.outpoints@,
                slot_grows(g0.external, self.external),
                slot_grows(g0.internal, self.internal),
                forall|e: int|
                    0 <= e < i ==> {
                        let f = #[trigger] d.last_revealed@[e];
                        f.1 == u32::MAX || match self.spec_state(f.0) {
                            Some(s) => s.next_index > f.1 || exists|j: u32|
                                j <= f.1 && spk_of(s.descriptor@, j) is None,
                            None => true,
                        }
                    },
            decreases d.last_revealed@.len() - i,
        {
            let ghost mid = *self;
            let e = d.last_revealed[i];
            if e.1 < u32::MAX {
                let r = self.reveal_to_target(Keychain(e.0), e.1);
                proof {
                    lemma_state_slots(mid, *self, e.0);
                    lemma_slot_grows_trans(g0.external, mid.external, self.external);
                    lemma_slot_grows_trans(g0.internal, mid.internal, self.internal);
                    if r is None && mid.spec_state(e.0) is Some {
                        let post = self.spec_state(e.0)->Some_0;
                        assert(spk_of(post.descriptor@, post.spks@.len() as u32) is None);
                        assert(post.spks@.len() <= e.1);
                    }
                    // Earlier replays stay settled: counters only grow and
                    // an underivable index stays underivable.
                    assert forall|p: int| 0 <= p < i + 1 implies {
                        let f = #[trigger] d.last_revealed@[p];
                        f.1 == u32::MAX || match self.spec_state(f.0) {
                            Some(s) => s.next_index > f.1 || exists|j: u32|
                                j <= f.1 && spk_of(s.descriptor@, j) is None,
                            None => true,
                        }
                    } by {
                        let f = d.last_revealed@[p];
                        if p < i && f.1 != u32::MAX {
                            lemma_state_any_slot(mid, *self, f.0);
                            if mid.spec_state(f.0) is Some {
                                assert((self.spec_state(f.0)->Some_0).descriptor@ == (
                                mid.spec_state(f.0)->Some_0).descriptor@);
                            }
                        }
                    }
                }
            }
            i += 1;
        }
    }
}

/// When both slots grow, so does the state under any tag.
pub proof fn lemma_state_any_slot(pre: KeychainIndex, post: KeychainIndex, k: u8)
    requires
        slot_grows(pre.external, post.external),
        slot_grows(pre.internal, post.internal),
    ensures
        slot_grows(pre.spec_state(k), post.spec_state(k)),
{
}

/// Relates per-tag state facts to the two slot fields: when a mutation
/// grows the state of tag `k` and leaves other tags unchanged, both slots
/// grow.
proof fn lemma_state_slots(pre: KeychainIndex, post: KeychainIndex, k: u8)
    requires
        slot_grows(pre.spec_state(k), post.spec_state(k)) || post.spec_state(k) == pre.spec_state(
            k,
        ) || (pre.spec_state(k) is Some && post.spec_state(k) is Some && ks_grows(
            pre.spec_state(k)->Some_0,
            post.spec_state(k)->Some_0,
        )),
        forall|kk: u8| kk != k ==> post.spec_state(kk) == pre.spec_state(kk),
    ensures
        slot_grows(pre.external, post.external),
        slot_grows(pre.internal, post.internal),
{
    if k == EXTERNAL_KEYCHAIN {
        assert(pre.spec_state(k) == pre.external && post.spec_state(k) == post.external);
    } else {
        assert(post.spec_state(EXTERNAL_KEYCHAIN) == pre.spec_state(EXTERNAL_KEYCHAIN));
        assert(post.external == pre.external);
    }
    if k == INTERNAL_KEYCHAIN {
        assert(pre.spec_state(k) == pre.internal && post.spec_state(k) == post.internal);
    } else {
        assert(post.spec_state(INTERNAL_KEYCHAIN) == pre.spec_state(INTERNAL_KEYCHAIN));
        assert(post.internal == pre.internal);
    }
}

/// A script matched by a smaller index stays matched after the index
/// grows: cached scripts keep their content.
pub proof fn lemma_match_monotone(i0: KeychainIndex, i1: KeychainIndex, spk: Seq<u8>)
    requires
        i0.wf(),
        i1.wf(),
        slot_grows(i0.external, i1.external),
        slot_grows(i0.internal, i1.internal),
        i0.spec_some_spk_matches(spk),
    ensures
        i1.spec_some_spk_matches(spk),
{
    if i0.external matches Some(s0) && exists|i: int|
        0 <= i < s0.spks@.len() && (#[trigger] s0.spks@[i])@ == spk {
        let s0 = i0.external->Some_0;
        let i = choose|i: int| 0 <= i < s0.spks@.len() && (#[trigger] s0.spks@[i])@ == spk;
        let s1 = i1.external->Some_0;
        assert(spk_of(s0.descriptor@, i as u32) == Some(s0.spks@[i]@));
        assert(spk_of(s1.descriptor@, i as u32) == Some(s1.spks@[i]@));
        assert(s1.spks@[i]@ == spk);
    } else {
        let s0 = i0.internal->Some_0;
        let i = choose|i: int| 0 <= i < s0.spks@.len() && (#[trigger] s0.spks@[i])@ == spk;
        let s1 = i1.internal->Some_0;
        assert(spk_of(s0.descriptor@, i as u32) == Some(s0.spks@[i]@));
        assert(spk_of(s1.descriptor@, i as u32) == Some(s1.spks@[i]@));
        assert(s1.spks@[i]@ == spk);
    }
}

/// A mark survives index growth.
pub proof fn lemma_index_marks_monotone(i0: KeychainIndex, i1: KeychainIndex, spk: Seq<u8>)
    requires
        i0.wf(),
        i1.wf(),
        slot_grows(i0.external, i1.external),
        slot_grows(i0.internal, i1.internal),
        i0.spec_spk_marked_used(spk),
    ensures
        i1.spec_spk_marked_used(spk),
{
    if i0.external matches Some(s0) && spec_state_marks(s0, spk) {
        lemma_marks_monotone(i0.external->Some_0, i1.external->Some_0, spk);
    } else {
        lemma_marks_monotone(i0.internal->Some_0, i1.internal->Some_0, spk);
    }
}

/// Growth of a keychain slot is transitive.
pub proof fn lemma_slot_grows_trans(
    a: Option<KeychainState>,
    b: Option<KeychainState>,
    c: Option<KeychainState>,
)
    requires
        slot_grows(a, b),
        slot_grows(b, c),
    ensures
        slot_grows(a, c),
{
}

/// Mark one revealed index of a state as used.
fn mark_used_in(s: &mut KeychainState, index: u32) -> (r: bool)
    requires
        ks_wf(*old(s)),
    ensures
        ks_wf(*final(s)),
        ks_grows(*old(s), *final(s)),
        r ==> index < final(s).used@.len() && final(s).used@[index as int],
        index < old(s).next_index ==> r,
{
    if index < s.next_index {
        proof {
            assert(index < s.used@.len());
        }
        s.used[index as usize] = true;
        true
    } else {
        false
    }
}

/// Extend the cache and advance the revealed counter past `target`.
fn reveal_to_in(s: &mut KeychainState, target: u32) -> (r: bool)
    requires
        ks_wf(*old(s)),
        target < u32::MAX,
    ensures
        ks_wf(*final(s)),
        ks_grows(*old(s), *final(s)),
        r ==> final(s).next_index > target,
        !r ==> (final(s).next_index <= target && final(s).spks@.len() <= target && spk_of(
            final(s).descriptor@,
            final(s).spks@.len() as u32,
        ) is None),
{
    if s.next_index > target {
        return true;
    }
    if !s.extend_to(target + 1) {
        return false;
    }
    s.next_index = target + 1;
    true
}


impl KeychainIndex {
    /// The descriptor bound to a keychain, if any.
    pub fn descriptor_of(&self, keychain: Keychain) -> (r: Option<&String>)
        ensures
            match r {
                Some(d) => self.spec_state(keychain.0) is Some && d@ == (self.spec_state(
                    keychain.0,
                )->Some_0).descriptor@,
                None => self.spec_state(keychain.0) is None,
            },
    {
        if keychain.0 == EXTERNAL_KEYCHAIN {
            match &self.external {
                Some(s) => Some(&s.descriptor),
                None => None,
            }
        } else if keychain.0 == INTERNAL_KEYCHAIN {
            match &self.internal {
                Some(s) => Some(&s.descriptor),
                None => None,
            }
        } else {
            None
        }
    }
}

} // verus!
