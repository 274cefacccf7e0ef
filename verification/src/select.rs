//! Coin selection and transaction assembly: choose unspent outputs to cover
//! a payment and fee target, decide on a change output, and build an
//! unsigned transaction skeleton.

use vstd::prelude::*;

use crate::types::{OutPoint, TxOut};

verus! {

/// Transaction version used for built transactions.
pub const TX_VERSION: u32 = 2;

/// Sequence number that signals replace-by-fee without a relative locktime.
pub const RBF_SEQUENCE: u32 = 0xFFFF_FFFD;

/// Fixed weight of a transaction shell: version, locktime, the two counts,
/// and the segwit marker, in weight units.
pub const TX_FIXED_WU: u64 = 42;

/// Fixed weight of one input besides its satisfaction: outpoint, script
/// length byte and sequence, in weight units.
pub const INPUT_FIXED_WU: u64 = 164;

/// Below this amount an output is considered dust and never created.
pub const DUST_LIMIT: u64 = 546;

/// A spendable candidate input: an unspent, plannable wallet output.
#[derive(Clone, Copy, Debug, PartialEq, Eq, Structural)]
pub struct Candidate {
    /// Where the output sits.
    pub outpoint: OutPoint,
    /// Its value in satoshis.
    pub value: u64,
    /// Its full input weight when spent: fixed input weight plus the
    /// worst-case satisfaction weight, in weight units.
    pub weight: u64,
    /// The owning keychain.
    pub keychain: u8,
    /// The owning derivation index.
    pub index: u32,
}

/// Why a transaction could not be built.
#[derive(Clone, Copy, Debug, PartialEq, Eq, Structural)]
pub enum CreateTxError {
    /// No candidate subset reaches the amount plus fee, even using all.
    InsufficientFunds,
    /// The change keychain has no bound descriptor.
    NoDescriptorForChange,
    /// A selected candidate unexpectedly cannot produce a spending plan.
    PlanningFailed,
    /// Amounts or weights exceed what 64-bit arithmetic can represent.
    ValueOverflow,
}

/// The outcome of selection: which candidates were chosen, their total
/// value, the fee paid, and the change value if a change output is made.
#[derive(Clone, Debug)]
pub struct Selection {
    /// Indices into the candidate list, without duplicates.
    pub selected: Vec<usize>,
    /// The sum of the selected candidates' values.
    pub total_value: u64,
    /// The fee the transaction pays.
    pub fee: u64,
    /// The value of the change output, if one is produced.
    pub change_value: Option<u64>,
}

/// An unsigned transaction skeleton: plain data ready to be serialized
/// into a partially-signed transaction by the embedding application.
#[derive(Clone, Debug)]
pub struct TxTemplate {
    /// Transaction version.
    pub version: u32,
    /// Absolute locktime (the current tip height, deterring fee sniping).
    pub locktime: u32,
    /// The spent outpoints with their sequence numbers.
    pub inputs: Vec<(OutPoint, u32)>,
    /// The created outputs.
    pub outputs: Vec<TxOut>,
}

/// The fee, in satoshis, for a weight at a feerate in sat/vbyte: weight
/// units are converted to vbytes rounding up.
pub open spec fn spec_fee(rate: u64, wu: int) -> int {
    ((wu + 3) / 4) * rate
}

/// The total value of a candidate list.
pub open spec fn spec_total_value(c: Seq<Candidate>) -> int
    decreases c.len(),
{
    if c.len() == 0 {
        0
    } else {
        c[0].value + spec_total_value(c.drop_first())
    }
}

/// The total weight of a candidate list.
pub open spec fn spec_total_wu(c: Seq<Candidate>) -> int
    decreases c.len(),
{
    if c.len() == 0 {
        0
    } else {
        c[0].weight + spec_total_wu(c.drop_first())
    }
}

/// The total value of the candidates at the listed indices (out-of-range
/// indices count as zero; selection never produces them).
pub open spec fn sel_value_sum(c: Seq<Candidate>, idxs: Seq<usize>) -> int
    decreases idxs.len(),
{
    if idxs.len() == 0 {
        0
    } else {
        (if idxs[0] < c.len() {
            c[idxs[0] as int].value as int
        } else {
            0
        }) + sel_value_sum(c, idxs.drop_first())
    }
}

/// The total weight of the candidates at the listed indices.
pub open spec fn sel_weight_sum(c: Seq<Candidate>, idxs: Seq<usize>) -> int
    decreases idxs.len(),
{
    if idxs.len() == 0 {
        0
    } else {
        (if idxs[0] < c.len() {
            c[idxs[0] as int].weight as int
        } else {
            0
        }) + sel_weight_sum(c, idxs.drop_first())
    }
}

/// Totals are never negative.
pub proof fn lemma_total_nonneg(c: Seq<Candidate>)
    ensures
        spec_total_value(c) >= 0,
        spec_total_wu(c) >= 0,
    decreases c.len(),
{
    if c.len() > 0 {
        lemma_total_nonneg(c.drop_first());
    }
}

/// Index sums are never negative.
pub proof fn lemma_sel_sum_nonneg(c: Seq<Candidate>, idxs: Seq<usize>)
    ensures
        sel_value_sum(c, idxs) >= 0,
        sel_weight_sum(c, idxs) >= 0,
    decreases idxs.len(),
{
    if idxs.len() > 0 {
        lemma_sel_sum_nonneg(c, idxs.drop_first());
    }
}

/// Appending one index adds exactly its candidate's value and weight.
pub proof fn lemma_sel_sum_push(c: Seq<Candidate>, idxs: Seq<usize>, i: usize)
    requires
        i < c.len(),
    ensures
        sel_value_sum(c, idxs.push(i)) == sel_value_sum(c, idxs) + c[i as int].value,
        sel_weight_sum(c, idxs.push(i)) == sel_weight_sum(c, idxs) + c[i as int].weight,
    decreases idxs.len(),
{
    if idxs.len() == 0 {
        assert(idxs.push(i).drop_first() =~= Seq::<usize>::empty());
        assert(idxs.push(i)[0] == i);
        assert(sel_value_sum(c, Seq::<usize>::empty()) == 0);
        assert(sel_value_sum(c, idxs.push(i)) == c[i as int].value + sel_value_sum(
            c,
            idxs.push(i).drop_first(),
        ));
        assert(sel_weight_sum(c, idxs.push(i)) == c[i as int].weight + sel_weight_sum(
            c,
            idxs.push(i).drop_first(),
        ));
    } else {
        assert(idxs.push(i).drop_first() =~= idxs.drop_first().push(i));
        assert(idxs.push(i)[0] == idxs[0]);
        lemma_sel_sum_push(c, idxs.drop_first(), i);
        assert(sel_value_sum(c, idxs.push(i)) == (if idxs[0] < c.len() {
            c[idxs[0] as int].value as int
        } else {
            0
        }) + sel_value_sum(c, idxs.drop_first().push(i)));
        assert(sel_weight_sum(c, idxs.push(i)) == (if idxs[0] < c.len() {
            c[idxs[0] as int].weight as int
        } else {
            0
        }) + sel_weight_sum(c, idxs.drop_first().push(i)));
    }
}

/// Replacing the index at position `j` adjusts the sums by the difference.
proof fn lemma_sel_sum_update(c: Seq<Candidate>, idxs: Seq<usize>, j: int, x: usize)
    requires
        0 <= j < idxs.len(),
    ensures
        sel_value_sum(c, idxs.update(j, x)) == sel_value_sum(c, idxs) - (if idxs[j] < c.len() {
            c[idxs[j] as int].value as int
        } else {
            0
        }) + (if x < c.len() {
            c[x as int].value as int
        } else {
            0
        }),
        sel_weight_sum(c, idxs.update(j, x)) == sel_weight_sum(c, idxs) - (if idxs[j] < c.len() {
            c[idxs[j] as int].weight as int
        } else {
            0
        }) + (if x < c.len() {
            c[x as int].weight as int
        } else {
            0
        }),
    decreases j,
{
    if j == 0 {
        assert(idxs.update(0, x).drop_first() =~= idxs.drop_first());
        assert(idxs.update(0, x)[0] == x);
    } else {
        assert(idxs.update(j, x).drop_first() =~= idxs.drop_first().update(j - 1, x));
        assert(idxs.update(j, x)[0] == idxs[0]);
        lemma_sel_sum_update(c, idxs.drop_first(), j - 1, x);
    }
}

/// Dropping the last index subtracts exactly its candidate's value and
/// weight.
proof fn lemma_sel_sum_drop_last(c: Seq<Candidate>, idxs: Seq<usize>)
    requires
        idxs.len() >= 1,
    ensures
        sel_value_sum(c, idxs.drop_last()) == sel_value_sum(c, idxs) - (if idxs.last() < c.len() {
            c[idxs.last() as int].value as int
        } else {
            0
        }),
        sel_weight_sum(c, idxs.drop_last()) == sel_weight_sum(c, idxs) - (if idxs.last()
            < c.len() {
            c[idxs.last() as int].weight as int
        } else {
            0
        }),
    decreases idxs.len(),
{
    if idxs.len() == 1 {
        assert(idxs.drop_last() =~= Seq::<usize>::empty());
        assert(sel_value_sum(c, idxs.drop_last()) == 0);
        assert(idxs[0] == idxs.last());
        assert(idxs.drop_first() =~= Seq::<usize>::empty());
        assert(sel_value_sum(c, idxs.drop_first()) == 0);
        assert(sel_weight_sum(c, idxs.drop_first()) == 0);
        assert(sel_value_sum(c, idxs) == (if idxs[0] < c.len() {
            c[idxs[0] as int].value as int
        } else {
            0
        }));
        assert(sel_weight_sum(c, idxs) == (if idxs[0] < c.len() {
            c[idxs[0] as int].weight as int
        } else {
            0
        }));
    } else {
        assert(idxs.drop_last().drop_first() =~= idxs.drop_first().drop_last());
        assert(idxs.drop_last()[0] == idxs[0]);
        assert(idxs.drop_first().last() == idxs.last());
        lemma_sel_sum_drop_last(c, idxs.drop_first());
        assert(sel_value_sum(c, idxs.drop_last()) == (if idxs[0] < c.len() {
            c[idxs[0] as int].value as int
        } else {
            0
        }) + sel_value_sum(c, idxs.drop_first().drop_last()));
        assert(sel_weight_sum(c, idxs.drop_last()) == (if idxs[0] < c.len() {
            c[idxs[0] as int].weight as int
        } else {
            0
        }) + sel_weight_sum(c, idxs.drop_first().drop_last()));
    }
}

/// Removing the index at position `j` by a swap-remove subtracts exactly
/// its candidate's value and weight.
proof fn lemma_sel_sum_swap_remove(c: Seq<Candidate>, idxs: Seq<usize>, j: int)
    requires
        0 <= j < idxs.len(),
    ensures
        sel_value_sum(c, idxs.update(j, idxs.last()).drop_last()) == sel_value_sum(c, idxs) - (if
        idxs[j] < c.len() {
            c[idxs[j] as int].value as int
        } else {
            0
        }),
        sel_weight_sum(c, idxs.update(j, idxs.last()).drop_last()) == sel_weight_sum(c, idxs) - (if
        idxs[j] < c.len() {
            c[idxs[j] as int].weight as int
        } else {
            0
        }),
{
    let x = idxs.last();
    lemma_sel_sum_update(c, idxs, j, x);
    let u = idxs.update(j, x);
    lemma_sel_sum_drop_last(c, u);
    assert(u.last() == x) by {
        if j == idxs.len() - 1 {
        } else {
            assert(u[u.len() - 1] == idxs[idxs.len() - 1]);
        }
    }
}

/// The total value and weight of a suffix never exceed the whole totals.
proof fn lemma_total_skip_bound(c: Seq<Candidate>, i: int)
    requires
        0 <= i <= c.len(),
    ensures
        spec_total_value(c.skip(i)) <= spec_total_value(c),
        spec_total_wu(c.skip(i)) <= spec_total_wu(c),
        spec_total_value(c.skip(i)) >= 0,
        spec_total_wu(c.skip(i)) >= 0,
    decreases i,
{
    lemma_total_nonneg(c.skip(i));
    if i == 0 {
        assert(c.skip(0) =~= c);
    } else {
        lemma_total_skip_bound(c, i - 1);
        assert(c.skip(i - 1).drop_first() =~= c.skip(i));
        if c.skip(i - 1).len() > 0 {
            assert(spec_total_value(c.skip(i - 1)) == c.skip(i - 1)[0].value + spec_total_value(
                c.skip(i),
            ));
            assert(spec_total_wu(c.skip(i - 1)) == c.skip(i - 1)[0].weight + spec_total_wu(
                c.skip(i),
            ));
        }
    }
}

/// One step of the xorshift pseudo-random generator. Seedable so that
/// selection runs are exactly reproducible.
pub fn xorshift(state: u64) -> (r: u64)
    ensures
        state != 0 ==> r != 0,
{
    let mut x = state;
    x = x ^ (x << 13);
    x = x ^ (x >> 7);
    x = x ^ (x << 17);
    proof {
        assert(state != 0 ==> x != 0) by (bit_vector)
            requires
                x == ((state ^ (state << 13)) ^ ((state ^ (state << 13)) >> 7)) ^ (((state ^ (state
                    << 13)) ^ ((state ^ (state << 13)) >> 7)) << 17),
        ;
    }
    x
}

/// The fee for `wu` weight units at `rate` sat/vbyte.
pub fn fee_for(rate: u64, wu: u64) -> (r: u64)
    requires
        wu + 3 <= u64::MAX,
        spec_fee(rate, wu as int) <= u64::MAX,
    ensures
        r == spec_fee(rate, wu as int),
{
    ((wu + 3) / 4) * rate
}

/// Fees are never negative.
proof fn lemma_fee_nonneg(rate: u64, wu: int)
    requires
        wu >= 0,
    ensures
        spec_fee(rate, wu) >= 0,
{
    assert(((wu + 3) / 4) * rate >= 0) by (nonlinear_arith)
        requires
            wu >= 0,
    ;
}

/// Fees grow with weight.
proof fn lemma_fee_monotone(rate: u64, wu1: int, wu2: int)
    requires
        0 <= wu1 <= wu2,
    ensures
        spec_fee(rate, wu1) <= spec_fee(rate, wu2),
{
    assert(((wu1 + 3) / 4) <= ((wu2 + 3) / 4)) by (nonlinear_arith)
        requires
            0 <= wu1 <= wu2,
    ;
    assert(((wu1 + 3) / 4) * rate <= ((wu2 + 3) / 4) * rate) by (nonlinear_arith)
        requires
            0 <= ((wu1 + 3) / 4) <= ((wu2 + 3) / 4),
    ;
}


/// A candidate that alone covers the amount plus the fee its own input
/// weight incurs.
pub open spec fn spec_single_covers(
    c: Seq<Candidate>,
    amount: u64,
    feerate: u64,
    base_wu: int,
    i: int,
) -> bool {
    0 <= i < c.len() && c[i].value >= amount + spec_fee(feerate, base_wu + c[i].weight)
}

/// One element never exceeds the totals.
proof fn lemma_elem_le_total(c: Seq<Candidate>, i: int)
    requires
        0 <= i < c.len(),
    ensures
        c[i].value <= spec_total_value(c),
        c[i].weight <= spec_total_wu(c),
{
    lemma_total_skip_bound(c, i);
    assert(c.skip(i)[0] == c[i]);
    assert(c.skip(i).drop_first() =~= c.skip(i + 1));
    lemma_total_nonneg(c.skip(i + 1));
    assert(spec_total_value(c.skip(i)) == c[i].value + spec_total_value(c.skip(i + 1)));
    assert(spec_total_wu(c.skip(i)) == c[i].weight + spec_total_wu(c.skip(i + 1)));
}

/// A swap-remove keeps the remaining entries distinct, drops exactly the
/// removed entry, and introduces nothing new.
proof fn lemma_swap_remove_entries(s: Seq<usize>, j: int)
    requires
        0 <= j < s.len(),
        s.no_duplicates(),
    ensures
        s.update(j, s.last()).drop_last().no_duplicates(),
        forall|q: int|
            0 <= q < s.len() - 1 ==> (#[trigger] s.update(j, s.last()).drop_last()[q]) != s[j],
        forall|q: int|
            0 <= q < s.len() - 1 ==> s.contains(#[trigger] s.update(j, s.last()).drop_last()[q]),
{
    let t = s.update(j, s.last()).drop_last();
    assert forall|q: int| 0 <= q < t.len() implies (#[trigger] t[q]) == (if q == j {
        s.last()
    } else {
        s[q]
    }) by {}
    assert forall|p: int, q: int| 0 <= p < q < t.len() implies t[p] != t[q] by {
        if p == j {
            assert(t[p] == s[s.len() - 1] && t[q] == s[q]);
        } else if q == j {
            assert(t[q] == s[s.len() - 1] && t[p] == s[p]);
        }
    }
    assert forall|q: int| 0 <= q < t.len() implies t[q] != s[j] by {
        if q == j {
            assert(t[q] == s[s.len() - 1]);
        }
    }
    assert forall|q: int| 0 <= q < t.len() implies s.contains(t[q]) by {
        if q == j {
            assert(s[s.len() - 1] == t[q]);
        } else {
            assert(s[q] == t[q]);
        }
    }
}

/// Select candidates to cover `amount` plus the fee at `feerate`, then
/// decide on change by the no-dust-and-least-waste policy.
///
/// A single candidate that covers the target alone is preferred (the
/// smallest such); otherwise candidates are drawn in seeded pseudo-random
/// order and accumulated until the target is met. In sweep mode every
/// candidate is selected and the whole value, minus fee, goes to the
/// destination with no change.
pub fn select_coins(
    candidates: &Vec<Candidate>,
    amount: u64,
    feerate: u64,
    base_wu: u64,
    change_out_wu: u64,
    change_spend_wu: u64,
    longterm_feerate: u64,
    seed: u64,
    sweep: bool,
) -> (r: Result<Selection, CreateTxError>)
    requires
        amount + spec_total_value(candidates@) + spec_fee(
            feerate,
            base_wu + spec_total_wu(candidates@) + change_out_wu,
        ) + spec_fee(longterm_feerate, change_spend_wu as int) + DUST_LIMIT <= u64::MAX,
        base_wu + spec_total_wu(candidates@) + change_out_wu + 3 <= u64::MAX,
        change_spend_wu + 3 <= u64::MAX,
    ensures
        match r {
            Ok(sel) => {
                &&& sel.selected@.no_duplicates()
                &&& forall|k: int|
                    0 <= k < sel.selected@.len() ==> (#[trigger] sel.selected@[k]) < candidates@.len()
                &&& sel.total_value == sel_value_sum(candidates@, sel.selected@)
                &&& if sweep {
                    &&& sel.selected@.len() == candidates@.len()
                    &&& forall|k: int| 0 <= k < sel.selected@.len() ==> #[trigger] sel.selected@[k] == k
                    &&& sel.change_value is None
                    &&& sel.fee == spec_fee(feerate, base_wu + spec_total_wu(candidates@))
                    &&& sel.total_value >= sel.fee + DUST_LIMIT
                } else {
                    // When some candidate covers the target alone, the
                    // selection is exactly one such candidate, of minimal
                    // value among them.
                    &&& ((exists|i: int|
                        spec_single_covers(candidates@, amount, feerate, base_wu as int, i)) ==> (
                    sel.selected@.len() == 1 && spec_single_covers(
                        candidates@,
                        amount,
                        feerate,
                        base_wu as int,
                        sel.selected@[0] as int,
                    ) && forall|j: int|
                        spec_single_covers(candidates@, amount, feerate, base_wu as int, j)
                            ==> candidates@[sel.selected@[0] as int].value <= candidates@[j].value))
                } && if sweep {
                    true
                } else {
                    let w = sel_weight_sum(candidates@, sel.selected@);
                    let fee_c = spec_fee(feerate, base_wu + w + change_out_wu);
                    let fee_n = spec_fee(feerate, base_wu + w);
                    match sel.change_value {
                        Some(cv) => {
                            &&& sel.total_value == amount + sel.fee + cv
                            &&& cv >= DUST_LIMIT
                            &&& sel.fee == fee_c
                            &&& spec_fee(feerate, change_out_wu as int) + spec_fee(
                                longterm_feerate,
                                change_spend_wu as int,
                            ) < sel.total_value - amount - fee_n
                        },
                        None => {
                            &&& sel.total_value == amount + sel.fee
                            &&& sel.fee >= fee_n
                            &&& (sel.total_value < amount + fee_c + DUST_LIMIT || spec_fee(
                                feerate,
                                change_out_wu as int,
                            ) + spec_fee(longterm_feerate, change_spend_wu as int)
                                >= sel.total_value - amount - fee_n)
                        },
                    }
                }
            },
            Err(e) => {
                &&& e == CreateTxError::InsufficientFunds
                &&& if sweep {
                    spec_total_value(candidates@) < spec_fee(
                        feerate,
                        base_wu + spec_total_wu(candidates@),
                    ) + DUST_LIMIT
                } else {
                    spec_total_value(candidates@) < amount + spec_fee(
                        feerate,
                        base_wu + spec_total_wu(candidates@),
                    )
                }
            },
        },
{
    broadcast use vstd::seq_lib::group_seq_properties;

    let ghost cs = candidates@;
    let n = candidates.len();
    // Totals over all candidates.
    proof {
        lemma_total_nonneg(cs);
        lemma_fee_nonneg(feerate, base_wu + spec_total_wu(cs) + change_out_wu);
        lemma_fee_nonneg(longterm_feerate, change_spend_wu as int);
    }
    let mut total_v: u64 = 0;
    let mut total_w: u64 = 0;
    let mut i: usize = 0;
    while i < n
        invariant
            cs == candidates@,
            n == cs.len(),
            0 <= i <= n,
            total_v + spec_total_value(cs.skip(i as int)) == spec_total_value(cs),
            total_w + spec_total_wu(cs.skip(i as int)) == spec_total_wu(cs),
            spec_total_value(cs) <= u64::MAX,
            spec_total_wu(cs) <= u64::MAX,
        decreases n - i,
    {
        proof {
            assert(cs.skip(i as int).drop_first() =~= cs.skip(i as int + 1));
            assert(cs.skip(i as int)[0] == cs[i as int]);
            lemma_total_nonneg(cs.skip(i as int + 1));
            lemma_total_nonneg(cs);
        }
        total_v = total_v + candidates[i].value;
        total_w = total_w + candidates[i].weight;
        i += 1;
    }
    proof {
        assert(cs.skip(n as int) =~= Seq::<Candidate>::empty());
        lemma_total_nonneg(cs);
    }
    if sweep {
        proof {
            lemma_fee_monotone(feerate, base_wu + total_w, base_wu + total_w + change_out_wu);
        }
        let fee_all = fee_for(feerate, base_wu + total_w);
        if total_v < fee_all || total_v - fee_all < DUST_LIMIT {
            return Err(CreateTxError::InsufficientFunds);
        }
        let mut selected: Vec<usize> = Vec::new();
        let mut k: usize = 0;
        while k < n
            invariant
                cs == candidates@,
                n == cs.len(),
                0 <= k <= n,
                selected@.len() == k,
                forall|p: int| 0 <= p < k ==> #[trigger] selected@[p] == p,
                sel_value_sum(cs, selected@) + spec_total_value(cs.skip(k as int))
                    == spec_total_value(cs),
                sel_weight_sum(cs, selected@) + spec_total_wu(cs.skip(k as int)) == spec_total_wu(
                    cs,
                ),
            decreases n - k,
        {
            let ghost pre = selected@;
            selected.push(k);
            proof {
                lemma_sel_sum_push(cs, pre, k);
                assert(cs.skip(k as int).drop_first() =~= cs.skip(k as int + 1));
                assert(cs.skip(k as int)[0] == cs[k as int]);
            }
            k += 1;
        }
        proof {
            assert(cs.skip(n as int) =~= Seq::<Candidate>::empty());
            assert forall|p: int, q: int| 0 <= p < q < selected@.len() implies selected@[p]
                != selected@[q] by {}
        }
        return Ok(
            Selection { selected, total_value: total_v, fee: fee_all, change_value: None },
        );
    }
    // Non-sweep: prefer the smallest single candidate that covers the
    // target alone; otherwise accumulate in seeded pseudo-random order.
    let mut selected: Vec<usize> = Vec::new();
    let mut sel_v: u64 = 0;
    let mut sel_w: u64 = 0;
    let mut best: Option<usize> = None;
    let mut i: usize = 0;
    while i < n
        invariant
            cs == candidates@,
            n == cs.len(),
            0 <= i <= n,
            amount + spec_total_value(cs) + spec_fee(
                feerate,
                base_wu + spec_total_wu(cs) + change_out_wu,
            ) <= u64::MAX,
            base_wu + spec_total_wu(cs) + change_out_wu + 3 <= u64::MAX,
            match best {
                Some(b) => b < n && spec_single_covers(cs, amount, feerate, base_wu as int, b as int)
                    && forall|j: int|
                    0 <= j < i && spec_single_covers(cs, amount, feerate, base_wu as int, j)
                        ==> cs[b as int].value <= cs[j].value,
                None => forall|j: int|
                    0 <= j < i ==> !spec_single_covers(cs, amount, feerate, base_wu as int, j),
            },
        decreases n - i,
    {
        proof {
            lemma_elem_le_total(cs, i as int);
            lemma_fee_monotone(
                feerate,
                base_wu + cs[i as int].weight,
                base_wu + spec_total_wu(cs) + change_out_wu,
            );
            lemma_total_nonneg(cs);
        }
        let fee_i = fee_for(feerate, base_wu + candidates[i].weight);
        if candidates[i].value >= amount + fee_i {
            let better = match best {
                Some(b) => candidates[i].value < candidates[b].value,
                None => true,
            };
            if better {
                best = Some(i);
            }
        }
        i += 1;
    }
    match best {
        Some(b) => {
            selected.push(b);
            sel_v = candidates[b].value;
            sel_w = candidates[b].weight;
            proof {
                lemma_sel_sum_push(cs, Seq::<usize>::empty(), b);
                lemma_elem_le_total(cs, b as int);
            }
        },
        None => {
            // Seeded pseudo-random draw until the target is met.
            let mut pool: Vec<usize> = Vec::new();
            let mut k: usize = 0;
            while k < n
                invariant
                    cs == candidates@,
                    n == cs.len(),
                    0 <= k <= n,
                    pool@.len() == k,
                    forall|p: int| 0 <= p < k ==> #[trigger] pool@[p] == p,
                    sel_value_sum(cs, pool@) + spec_total_value(cs.skip(k as int))
                        == spec_total_value(cs),
                    sel_weight_sum(cs, pool@) + spec_total_wu(cs.skip(k as int)) == spec_total_wu(
                        cs,
                    ),
                decreases n - k,
            {
                let ghost pre = pool@;
                pool.push(k);
                proof {
                    lemma_sel_sum_push(cs, pre, k);
                    assert(cs.skip(k as int).drop_first() =~= cs.skip(k as int + 1));
                    assert(cs.skip(k as int)[0] == cs[k as int]);
                }
                k += 1;
            }
            proof {
                assert(cs.skip(n as int) =~= Seq::<Candidate>::empty());
                assert forall|p: int, q: int| 0 <= p < q < pool@.len() implies pool@[p]
                    != pool@[q] by {}
            }
            let mut rng: u64 = if seed == 0 {
                0x9E3779B97F4A7C15
            } else {
                seed
            };
            loop
                invariant_except_break
                    !sweep,
                    cs == candidates@,
                    n == cs.len(),
                    amount + spec_total_value(cs) + spec_fee(
                        feerate,
                        base_wu + spec_total_wu(cs) + change_out_wu,
                    ) <= u64::MAX,
                    base_wu + spec_total_wu(cs) + change_out_wu + 3 <= u64::MAX,
                    selected@.no_duplicates(),
                    pool@.no_duplicates(),
                    forall|p: int| 0 <= p < selected@.len() ==> (#[trigger] selected@[p]) < n,
                    forall|p: int| 0 <= p < pool@.len() ==> (#[trigger] pool@[p]) < n,
                    forall|p: int, q: int|
                        0 <= p < selected@.len() && 0 <= q < pool@.len() ==> (
                        #[trigger] selected@[p]) != (#[trigger] pool@[q]),
                    sel_v == sel_value_sum(cs, selected@),
                    sel_w == sel_weight_sum(cs, selected@),
                    sel_v + sel_value_sum(cs, pool@) == spec_total_value(cs),
                    sel_w + sel_weight_sum(cs, pool@) == spec_total_wu(cs),
                ensures
                    selected@.no_duplicates(),
                    forall|p: int| 0 <= p < selected@.len() ==> (#[trigger] selected@[p]) < n,
                    sel_v == sel_value_sum(cs, selected@),
                    sel_w == sel_weight_sum(cs, selected@),
                    sel_w <= spec_total_wu(cs),
                    sel_v >= amount + spec_fee(feerate, base_wu + sel_w),
                decreases pool@.len(),
            {
                proof {
                    lemma_sel_sum_nonneg(cs, pool@);
                    lemma_fee_monotone(
                        feerate,
                        base_wu + sel_w,
                        base_wu + spec_total_wu(cs) + change_out_wu,
                    );
                    lemma_total_nonneg(cs);
                }
                let fee_now = fee_for(feerate, base_wu + sel_w);
                if sel_v >= amount + fee_now {
                    break ;
                }
                if pool.len() == 0 {
                    proof {
                        assert(sel_value_sum(cs, pool@) == 0);
                        assert(sel_weight_sum(cs, pool@) == 0);
                        lemma_fee_monotone(feerate, base_wu + sel_w, base_wu + spec_total_wu(cs));
                    }
                    return Err(CreateTxError::InsufficientFunds);
                }
                rng = xorshift(rng);
                let j = (rng % (pool.len() as u64)) as usize;
                let ghost gpool = pool@;
                let ghost gsel = selected@;
                let idx = pool.swap_remove(j);
                proof {
                    lemma_sel_sum_swap_remove(cs, gpool, j as int);
                    lemma_swap_remove_entries(gpool, j as int);
                    lemma_sel_sum_push(cs, gsel, idx);
                    lemma_sel_sum_nonneg(cs, pool@);
                    lemma_sel_sum_nonneg(cs, gsel);
                    assert forall|p: int, q: int|
                        0 <= p < gsel.push(idx).len() && 0 <= q < pool@.len() implies (
                    #[trigger] gsel.push(idx)[p]) != (#[trigger] pool@[q]) by {
                        if p < gsel.len() {
                            assert(gpool.contains(pool@[q]));
                            let q0 = choose|q0: int| 0 <= q0 < gpool.len() && gpool[q0] == pool@[q];
                            assert(gsel[p] != gpool[q0]);
                        } else {
                            assert(gsel.push(idx)[p] == idx);
                        }
                    }
                    assert(gsel.push(idx).no_duplicates()) by {
                        assert(gpool.contains(idx)) by {
                            assert(gpool[j as int] == idx);
                        }
                        assert forall|p: int, q: int|
                            0 <= p < q < gsel.push(idx).len() implies gsel.push(idx)[p] != gsel.push(
                            idx,
                        )[q] by {
                            if q == gsel.len() {
                                assert(gsel[p] != gpool[j as int]);
                            }
                        }
                    }
                }
                selected.push(idx);
                sel_v = sel_v + candidates[idx].value;
                sel_w = sel_w + candidates[idx].weight;
            }
        },
    }
    // The target is covered; decide on change by no-dust-and-least-waste.
    proof {
        lemma_sel_sum_nonneg(cs, selected@);
        lemma_fee_monotone(
            feerate,
            base_wu + sel_w,
            base_wu + spec_total_wu(cs) + change_out_wu,
        );
        lemma_fee_monotone(
            feerate,
            base_wu + sel_w + change_out_wu,
            base_wu + spec_total_wu(cs) + change_out_wu,
        );
        lemma_fee_monotone(feerate, change_out_wu as int, base_wu + spec_total_wu(cs) + change_out_wu);
        lemma_total_nonneg(cs);
    }
    let fee_nochange = fee_for(feerate, base_wu + sel_w);
    let fee_change = fee_for(feerate, base_wu + sel_w + change_out_wu);
    let excess = sel_v - (amount + fee_nochange);
    let keep_waste = fee_for(feerate, change_out_wu) + fee_for(longterm_feerate, change_spend_wu);
    if sel_v >= amount + fee_change + DUST_LIMIT && keep_waste < excess {
        let cv = sel_v - (amount + fee_change);
        Ok(
            Selection {
                selected,
                total_value: sel_v,
                fee: fee_change,
                change_value: Some(cv),
            },
        )
    } else {
        Ok(
            Selection {
                selected,
                total_value: sel_v,
                fee: sel_v - amount,
                change_value: None,
            },
        )
    }
}


/// The weight, in weight units, of one output paying to `spk`: value,
/// script length byte and the script itself.
pub open spec fn spec_output_wu(spk: Seq<u8>) -> int {
    (9 + spk.len() as int) * 4
}

/// Bounds on totals: each is at most the count times the largest element.
pub proof fn lemma_total_bounds(c: Seq<Candidate>)
    ensures
        spec_total_value(c) <= c.len() * 0xFFFF_FFFF_FFFF_FFFF,
        spec_total_wu(c) <= c.len() * 0xFFFF_FFFF_FFFF_FFFF,
    decreases c.len(),
{
    if c.len() == 0 {
    } else {
        lemma_total_bounds(c.drop_first());
        assert(c.len() * 0xFFFF_FFFF_FFFF_FFFF == (c.len() - 1) * 0xFFFF_FFFF_FFFF_FFFF
            + 0xFFFF_FFFF_FFFF_FFFF) by (nonlinear_arith);
    }
}

/// The fee in 128-bit arithmetic, with its natural bound.
pub fn fee128(rate: u64, wu: u64) -> (r: u128)
    ensures
        r == spec_fee(rate, wu as int),
        r < 0x4000_0000_0000_0000_0000_0000_0000_0000u128,
{
    let q: u128 = (wu as u128 + 3) / 4;
    proof {
        assert(q * (rate as u128) < 0x4000_0000_0000_0000_0000_0000_0000_0000u128)
            by (nonlinear_arith)
            requires
                q <= 0x4000_0000_0000_0000u128,
                rate <= 0xFFFF_FFFF_FFFF_FFFFu64,
        ;
        assert(q * (rate as u128) == spec_fee(rate, wu as int)) by (nonlinear_arith)
            requires
                q == ((wu as int) + 3) / 4,
                rate >= 0,
        ;
    }
    q * (rate as u128)
}

} // verus!
