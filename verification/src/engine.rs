//! The batch engine: one entry point, parametrized by a strategy selector,
//! that drives a whole batch from the seed draft to the completed
//! accumulator.
//!
//! Whatever the chosen topology, the engine guarantees the global invariant
//! at the moment the accumulator is complete: it is well formed (no coin
//! spent twice, every proof of funds matching its outpoint), its fee ledger
//! balances the input and output values exactly, and its locktime is zero.

use vstd::prelude::*;

use crate::builder::{
    add_contribution, contribution_fits, contribution_result, input_of, lemma_contribution_props,
};
use crate::errors::BatchError;
use crate::laws::wallets_disjoint;
use crate::model::{sum_input_values, sum_output_values, Accumulator, AccumulatorModel,
    InputEntryModel};
use crate::participant::{
    candidate_wf, lemma_sum_candidate_concat, lemma_sum_candidate_nonneg,
    lemma_sum_candidate_prefix_bound, sum_candidate_values, ParticipantWallet,
    ParticipantWalletModel, UtxoCandidateModel,
};
use crate::strategies::{
    all_candidates, circulation_fits, circulation_run, collect_pool, fee_times,
    foreign_input_embedding,
    foreign_wallet, gather_candidates, hex_relay_circulation, lemma_circulation_props,
    lemma_fee_times_mono, lemma_fee_times_nonneg, lemma_merge_balanced, lemma_pool_run_props,
    lemma_total_candidate_nonneg, lemma_total_fees_snoc, merge_fragments, merge_run, merge_two,
    pool_circulation, pool_models, pool_run, reported_entry, seed_accumulator, seed_result,
    sequential_circulation,
    total_candidate_values, total_fees_paid, total_fees_reimbursed, total_pool_values,
    uniform_output_circulation, wallet_models, PoolEntryModel,
};

verus! {

/// The six coordination topologies the engine can drive.
pub enum Strategy {
    /// The accumulator is passed from participant to participant; each
    /// appends one bounded non-payer contribution; the initiator tops up.
    SequentialCirculation { max_count: u16 },
    /// Each participant independently builds a complete fragment paying
    /// `fragment_amount` to a recipient of its own; the initiator
    /// concatenates all fragments.
    IndependentBuildThenMerge { fragment_amount: u64, fragment_inputs: usize },
    /// The initiator's builder is handed every participant's coins
    /// directly and absorbs their value into one change output of its own.
    ForeignInputEmbedding,
    /// Sequential circulation over an explicit transport: the accumulator
    /// is serialized to hexadecimal text before each hop.
    HexRelayCirculation,
    /// Participants first report coins and a designated script to a central
    /// pool; the initiator walks the pool and tops up.
    CentralizedPool { max_count: u16 },
    /// Sequential circulation in which every participant also emits one
    /// output of exactly the recipient amount, the shared denomination.
    UniformOutputCirculation { max_count: u16 },
}

/// The machine bounds under which a whole batch cannot overflow, whatever
/// the strategy: all value in the system, plus twice the fee budget, fits a
/// 64-bit amount.
pub open spec fn batch_bounds(
    init: ParticipantWalletModel,
    parts: Seq<ParticipantWalletModel>,
    fee: u64,
) -> bool {
    &&& init.wf()
    &&& forall|j: int| 0 <= j < parts.len() ==> (#[trigger] parts[j]).wf()
    &&& sum_candidate_values(init.utxos) + sum_candidate_values(init.utxos)
        + total_candidate_values(parts) + fee_times(parts.len() as int, fee) + fee_times(
        parts.len() as int,
        fee,
    ) + fee <= u64::MAX
}

/// Every coin is owned by exactly one wallet in the system.
pub open spec fn coins_owned_once(
    init: ParticipantWalletModel,
    parts: Seq<ParticipantWalletModel>,
) -> bool {
    &&& forall|j: int| 0 <= j < parts.len() ==> wallets_disjoint(init, #[trigger] parts[j])
    &&& forall|j: int, k: int|
        0 <= j < k < parts.len() ==> wallets_disjoint(#[trigger] parts[j], #[trigger] parts[k])
}


/// The fresh scripts each strategy actually reveals: one per participant
/// for a circulating or pool pass (two under the uniform denomination), one
/// from the initiator wherever it tops up or absorbs change, one per
/// participant for its own fragment recipient under the merge — and none
/// beyond that.
pub open spec fn script_supply_ok(
    strategy: Strategy,
    init: ParticipantWalletModel,
    parts: Seq<ParticipantWalletModel>,
) -> bool {
    match strategy {
        Strategy::UniformOutputCirculation { .. } => init.scripts_left() >= 1 && forall|j: int|
            0 <= j < parts.len() ==> (#[trigger] parts[j]).scripts_left() >= 2,
        Strategy::IndependentBuildThenMerge { .. } => forall|j: int|
            0 <= j < parts.len() ==> (#[trigger] parts[j]).scripts_left() >= 1,
        Strategy::ForeignInputEmbedding => init.scripts_left() >= 1,
        _ => init.scripts_left() >= 1 && forall|j: int|
            0 <= j < parts.len() ==> (#[trigger] parts[j]).scripts_left() >= 1,
    }
}

/// The outcome of a whole batch: the completed accumulator, the initiator's
/// wallet, and the participants' wallets, or the failure.
pub type BatchOutcome = Option<
    (AccumulatorModel, ParticipantWalletModel, Seq<ParticipantWalletModel>),
>;

/// The initiator's aggregate obligation: one fixed fee per participant.
pub open spec fn spec_total_fee(n: int, fee: u64) -> u64 {
    fee_times(n, fee) as u64
}

/// A wallet after designating one fresh script.
pub open spec fn advanced(w: ParticipantWalletModel) -> ParticipantWalletModel {
    ParticipantWalletModel { revealed: w.revealed + 1, ..w }
}

/// What a circulating batch produces, exactly: the seed draft, one ring
/// pass, then the initiator's top-up — which must attach at least one coin
/// whenever any fee is owed, since the top-up is the one place an
/// insufficient-funds failure is fatal to the whole batch.
pub open spec fn ring_result(
    init: ParticipantWalletModel,
    ws: Seq<ParticipantWalletModel>,
    script: Seq<u8>,
    amount: u64,
    seed_inputs: int,
    fee: u64,
    max_count: int,
) -> BatchOutcome {
    match seed_result(init, script, amount, seed_inputs) {
        None => None,
        Some(seed) => match circulation_run(seed, ws, max_count, None, fee) {
            None => None,
            Some((a1, ws1)) => {
                let total_fee = spec_total_fee(ws.len() as int, fee);
                match contribution_result(a1, init, 2, None, total_fee, true) {
                    None => None,
                    Some((a2, i2)) => if total_fee > 0 && a2.inputs.len() == a1.inputs.len() {
                        None
                    } else {
                        Some((a2, i2, ws1))
                    },
                }
            },
        },
    }
}

/// What a uniform-output batch produces, exactly: the seed draft, the
/// initiator's top-up, then the uniform ring pass.
pub open spec fn uniform_result(
    init: ParticipantWalletModel,
    ws: Seq<ParticipantWalletModel>,
    script: Seq<u8>,
    amount: u64,
    seed_inputs: int,
    fee: u64,
    max_count: int,
) -> BatchOutcome {
    match seed_result(init, script, amount, seed_inputs) {
        None => None,
        Some(seed) => {
            let total_fee = spec_total_fee(ws.len() as int, fee);
            match contribution_result(seed, init, 2, None, total_fee, true) {
                None => None,
                Some((a1, i2)) => if total_fee > 0 && a1.inputs.len() == seed.inputs.len() {
                    None
                } else {
                    match circulation_run(a1, ws, max_count, Some(amount), fee) {
                        None => None,
                        Some((a2, ws1)) => Some((a2, i2, ws1)),
                    }
                },
            }
        },
    }
}

/// What a centralized-pool batch produces, exactly: the seed draft, one
/// walk over the reported pool, then the initiator's top-up.
pub open spec fn centralized_pool_result(
    init: ParticipantWalletModel,
    ws: Seq<ParticipantWalletModel>,
    script: Seq<u8>,
    amount: u64,
    seed_inputs: int,
    fee: u64,
    max_count: int,
) -> BatchOutcome {
    match seed_result(init, script, amount, seed_inputs) {
        None => None,
        Some(seed) => {
            let entries = ws.map_values(|w: ParticipantWalletModel| reported_entry(w));
            let a1 = pool_run(seed, entries, max_count, fee);
            let total_fee = spec_total_fee(ws.len() as int, fee);
            match contribution_result(a1, init, 2, None, total_fee, true) {
                None => None,
                Some((a2, i2)) => if total_fee > 0 && a2.inputs.len() == a1.inputs.len() {
                    None
                } else {
                    Some((a2, i2, ws.map_values(|w: ParticipantWalletModel| advanced(w))))
                },
            }
        },
    }
}

/// The fragments the participants build independently, each paying
/// `fragment_amount` to a recipient script of its own.
pub open spec fn fragment_results(
    ws: Seq<ParticipantWalletModel>,
    fragment_amount: u64,
    fragment_inputs: int,
) -> Option<Seq<AccumulatorModel>>
    decreases ws.len(),
{
    if ws.len() == 0 {
        Some(Seq::empty())
    } else {
        let w = ws.first();
        match seed_result(w, w.scripts[w.revealed], fragment_amount, fragment_inputs) {
            None => None,
            Some(f) => match fragment_results(ws.drop_first(), fragment_amount, fragment_inputs) {
                None => None,
                Some(t) => Some(seq![f] + t),
            },
        }
    }
}

/// What a build-then-merge batch produces, exactly: the seed draft and the
/// concatenation of every participant's fragment.
pub open spec fn merge_result(
    init: ParticipantWalletModel,
    ws: Seq<ParticipantWalletModel>,
    script: Seq<u8>,
    amount: u64,
    seed_inputs: int,
    fragment_amount: u64,
    fragment_inputs: int,
) -> BatchOutcome {
    match seed_result(init, script, amount, seed_inputs) {
        None => None,
        Some(seed) => match fragment_results(ws, fragment_amount, fragment_inputs) {
            None => None,
            Some(frags) => Some(
                (
                    merge_run(seed, frags),
                    init,
                    ws.map_values(|w: ParticipantWalletModel| advanced(w)),
                ),
            ),
        },
    }
}

/// What a foreign-input batch produces, exactly: the seed draft plus one
/// fee-free contribution of every donated coin through the initiator's own
/// builder.
pub open spec fn foreign_result(
    init: ParticipantWalletModel,
    ws: Seq<ParticipantWalletModel>,
    script: Seq<u8>,
    amount: u64,
    seed_inputs: int,
) -> BatchOutcome {
    match seed_result(init, script, amount, seed_inputs) {
        None => None,
        Some(seed) => match contribution_result(
            seed,
            foreign_wallet(init, all_candidates(ws)),
            u16::MAX as int,
            None,
            0,
            false,
        ) {
            None => None,
            Some((a2, fw2)) => Some(
                (a2, ParticipantWalletModel { revealed: fw2.revealed, ..init }, ws),
            ),
        },
    }
}

/// What the engine produces under each strategy, exactly.
pub open spec fn batch_result(
    strategy: Strategy,
    init: ParticipantWalletModel,
    ws: Seq<ParticipantWalletModel>,
    script: Seq<u8>,
    amount: u64,
    seed_inputs: int,
    fee: u64,
) -> BatchOutcome {
    match strategy {
        Strategy::SequentialCirculation { max_count } => ring_result(
            init,
            ws,
            script,
            amount,
            seed_inputs,
            fee,
            max_count as int,
        ),
        Strategy::HexRelayCirculation => ring_result(init, ws, script, amount, seed_inputs, fee, 1),
        Strategy::UniformOutputCirculation { max_count } => uniform_result(
            init,
            ws,
            script,
            amount,
            seed_inputs,
            fee,
            max_count as int,
        ),
        Strategy::CentralizedPool { max_count } => centralized_pool_result(
            init,
            ws,
            script,
            amount,
            seed_inputs,
            fee,
            max_count as int,
        ),
        Strategy::IndependentBuildThenMerge { fragment_amount, fragment_inputs } => merge_result(
            init,
            ws,
            script,
            amount,
            seed_inputs,
            fragment_amount,
            fragment_inputs as int,
        ),
        Strategy::ForeignInputEmbedding => foreign_result(init, ws, script, amount, seed_inputs),
    }
}

/// A top-up that attached a coin charged exactly its fee to the payer side
/// of the ledger and left the reimbursement side alone.
proof fn lemma_topup_charges(
    acc: AccumulatorModel,
    w: ParticipantWalletModel,
    max_count: int,
    fee: u64,
)
    requires
        contribution_fits(acc, w, fee, None),
        contribution_result(acc, w, max_count, None, fee, true) matches Some(p) && p.0.inputs.len()
            > acc.inputs.len(),
    ensures
        ({
            let (a2, _) = contribution_result(acc, w, max_count, None, fee, true)->Some_0;
            &&& a2.fees_paid == acc.fees_paid + fee
            &&& a2.fees_reimbursed == acc.fees_reimbursed
        }),
{
}

/// Building one more fragment appends its seed result.
proof fn lemma_fragment_results_snoc(
    ws: Seq<ParticipantWalletModel>,
    w: ParticipantWalletModel,
    fragment_amount: u64,
    fragment_inputs: int,
)
    ensures
        fragment_results(ws.push(w), fragment_amount, fragment_inputs) == match (
            fragment_results(ws, fragment_amount, fragment_inputs),
            seed_result(w, w.scripts[w.revealed], fragment_amount, fragment_inputs),
        ) {
            (Some(fs), Some(f)) => Some(fs.push(f)),
            _ => None,
        },
    decreases ws.len(),
{
    if ws.len() == 0 {
        assert(ws.push(w).drop_first() =~= Seq::<ParticipantWalletModel>::empty());
        assert(ws.push(w).first() == w);
        assert(fragment_results(
            Seq::<ParticipantWalletModel>::empty(),
            fragment_amount,
            fragment_inputs,
        ) == Some(Seq::<AccumulatorModel>::empty()));
        match seed_result(w, w.scripts[w.revealed], fragment_amount, fragment_inputs) {
            None => {},
            Some(f) => {
                assert(seq![f] + Seq::<AccumulatorModel>::empty() =~= Seq::<
                    AccumulatorModel,
                >::empty().push(f));
            },
        }
    } else {
        assert(ws.push(w).first() == ws.first());
        assert(ws.push(w).drop_first() =~= ws.drop_first().push(w));
        lemma_fragment_results_snoc(ws.drop_first(), w, fragment_amount, fragment_inputs);
        let w0 = ws.first();
        match seed_result(w0, w0.scripts[w0.revealed], fragment_amount, fragment_inputs) {
            None => {},
            Some(f0) => {
                match (
                    fragment_results(ws.drop_first(), fragment_amount, fragment_inputs),
                    seed_result(w, w.scripts[w.revealed], fragment_amount, fragment_inputs),
                ) {
                    (Some(fs), Some(f)) => {
                        assert(seq![f0] + fs.push(f) =~= (seq![f0] + fs).push(f));
                    },
                    _ => {},
                }
            },
        }
    }
}

/// A failed fragment anywhere fails the whole build.
proof fn lemma_fragment_results_concat(
    a: Seq<ParticipantWalletModel>,
    b: Seq<ParticipantWalletModel>,
    fragment_amount: u64,
    fragment_inputs: int,
)
    ensures
        fragment_results(a + b, fragment_amount, fragment_inputs) == match (
            fragment_results(a, fragment_amount, fragment_inputs),
            fragment_results(b, fragment_amount, fragment_inputs),
        ) {
            (Some(fa), Some(fb)) => Some(fa + fb),
            _ => None,
        },
    decreases a.len(),
{
    if a.len() == 0 {
        assert(a + b =~= b);
        match fragment_results(b, fragment_amount, fragment_inputs) {
            None => {},
            Some(fb) => {
                assert(Seq::<AccumulatorModel>::empty() + fb =~= fb);
            },
        }
    } else {
        assert((a + b).first() == a.first());
        assert((a + b).drop_first() =~= a.drop_first() + b);
        lemma_fragment_results_concat(a.drop_first(), b, fragment_amount, fragment_inputs);
        let w0 = a.first();
        match seed_result(w0, w0.scripts[w0.revealed], fragment_amount, fragment_inputs) {
            None => {},
            Some(f0) => {
                match (
                    fragment_results(a.drop_first(), fragment_amount, fragment_inputs),
                    fragment_results(b, fragment_amount, fragment_inputs),
                ) {
                    (Some(fa), Some(fb)) => {
                        assert(seq![f0] + (fa + fb) =~= (seq![f0] + fa) + fb);
                    },
                    _ => {},
                }
            },
        }
    }
}

/// Merging adds the fragments' fee ledgers to the seed's, exactly.
proof fn lemma_merge_run_ledger(acc: AccumulatorModel, frags: Seq<AccumulatorModel>)
    requires
        acc.fees_paid + total_fees_paid(frags) <= u64::MAX,
        acc.fees_reimbursed + total_fees_reimbursed(frags) <= u64::MAX,
    ensures
        merge_run(acc, frags).fees_paid == acc.fees_paid + total_fees_paid(frags),
        merge_run(acc, frags).fees_reimbursed == acc.fees_reimbursed + total_fees_reimbursed(
            frags,
        ),
    decreases frags.len(),
{
    if frags.len() > 0 {
        crate::strategies::lemma_total_fees_nonneg(frags.drop_first());
        lemma_merge_run_ledger(merge_two(acc, frags.first()), frags.drop_first());
    }
}

/// What the seed draft looks like, extracted from its defining equation.
proof fn lemma_seed_facts(
    w: ParticipantWalletModel,
    script: Seq<u8>,
    amount: u64,
    max_inputs: int,
)
    requires
        w.wf(),
        0 <= max_inputs,
        sum_candidate_values(w.utxos) <= u64::MAX,
        seed_result(w, script, amount, max_inputs) is Some,
    ensures
        ({
            let a = seed_result(w, script, amount, max_inputs)->Some_0;
            &&& a.fees_reimbursed == 0
            &&& a.locktime == 0
            &&& a.fees_paid <= sum_candidate_values(w.utxos)
            &&& sum_input_values(a.inputs) <= sum_candidate_values(w.utxos)
            &&& amount <= sum_candidate_values(w.utxos)
            &&& sum_output_values(a.outputs) == amount
            &&& a.inputs.len() <= w.utxos.len()
            &&& forall|x: int|
                0 <= x < a.inputs.len() ==> (#[trigger] a.inputs[x]).outpoint
                    == w.utxos[x].outpoint
        }),
{
    let a = seed_result(w, script, amount, max_inputs)->Some_0;
    let k = if max_inputs <= w.utxos.len() {
        max_inputs
    } else {
        w.utxos.len() as int
    };
    let chosen = w.utxos.take(k);
    let total = sum_candidate_values(chosen);
    lemma_sum_candidate_prefix_bound(w.utxos, k);
    assert(forall|i: int| 0 <= i < chosen.len() ==> (#[trigger] chosen[i]) == w.utxos[i]);
    assert(forall|i: int| 0 <= i < chosen.len() ==> candidate_wf(#[trigger] chosen[i]));
    assert(sum_output_values(a.outputs) == amount) by {
        assert(a.outputs.drop_last() =~= Seq::<crate::model::TxOutModel>::empty());
        assert(sum_output_values(Seq::<crate::model::TxOutModel>::empty()) == 0);
    }
    assert(sum_input_values(a.inputs) == total) by {
        lemma_seed_inputs_sum(chosen);
    }
    assert(forall|x: int|
        0 <= x < a.inputs.len() ==> (#[trigger] a.inputs[x]) == input_of(chosen[x]));
}

/// The inputs a candidate prefix becomes carry exactly its value.
proof fn lemma_seed_inputs_sum(chosen: Seq<UtxoCandidateModel>)
    requires
        forall|i: int| 0 <= i < chosen.len() ==> candidate_wf(#[trigger] chosen[i]),
    ensures
        sum_input_values(chosen.map_values(|c: UtxoCandidateModel| input_of(c)))
            == sum_candidate_values(chosen),
    decreases chosen.len(),
{
    if chosen.len() > 0 {
        let d = chosen.drop_last();
        assert(forall|i: int| 0 <= i < d.len() ==> d[i] == chosen[i]);
        lemma_seed_inputs_sum(d);
        let mapped = chosen.map_values(|c: UtxoCandidateModel| input_of(c));
        assert(mapped.drop_last() =~= d.map_values(|c: UtxoCandidateModel| input_of(c)));
        assert(mapped.last() == input_of(chosen.last()));
        assert(crate::model::spend_value(input_of(chosen.last())) == chosen.last().txout.value);
    }
}

/// After a fitting seed, any circulation pass over the participants fits.
proof fn lemma_pass_fits(
    init: ParticipantWalletModel,
    parts: Seq<ParticipantWalletModel>,
    fee: u64,
    acc: AccumulatorModel,
    uniform: Option<u64>,
)
    requires
        batch_bounds(init, parts, fee),
        sum_input_values(acc.inputs) <= sum_candidate_values(init.utxos) + sum_candidate_values(
            init.utxos,
        ),
        acc.fees_paid <= sum_candidate_values(init.utxos) + fee_times(parts.len() as int, fee),
        acc.fees_reimbursed == 0,
        uniform matches Some(a) ==> a <= sum_candidate_values(init.utxos),
        forall|j: int|
            0 <= j < parts.len() ==> (#[trigger] parts[j]).scripts_left() >= if uniform is Some {
                2int
            } else {
                1int
            },
    ensures
        circulation_fits(acc, parts, uniform, fee),
{
    lemma_sum_candidate_nonneg(init.utxos);
    lemma_total_candidate_nonneg(parts);
    lemma_fee_times_nonneg(parts.len() as int, fee);
}

/// After the pass, the initiator's top-up contribution fits.
proof fn lemma_topup_fits(
    init: ParticipantWalletModel,
    parts: Seq<ParticipantWalletModel>,
    fee: u64,
    total_fee: u64,
    acc: AccumulatorModel,
)
    requires
        batch_bounds(init, parts, fee),
        total_fee == fee_times(parts.len() as int, fee),
        sum_input_values(acc.inputs) <= sum_candidate_values(init.utxos) + total_candidate_values(
            parts,
        ),
        acc.fees_paid <= sum_candidate_values(init.utxos),
        acc.fees_reimbursed <= fee_times(parts.len() as int, fee),
    ensures
        contribution_fits(acc, init, total_fee, None),
{
    lemma_sum_candidate_nonneg(init.utxos);
    lemma_total_candidate_nonneg(parts);
    lemma_fee_times_nonneg(parts.len() as int, fee);
}

/// No two of these input lists spend a common outpoint.
pub open spec fn inputs_disjoint(a: Seq<InputEntryModel>, b: Seq<InputEntryModel>) -> bool {
    forall|i: int, j: int|
        0 <= i < a.len() && 0 <= j < b.len() ==> (#[trigger] a[i]).outpoint != (
        #[trigger] b[j]).outpoint
}

/// Merging well-formed parts whose input sets are disjoint by construction
/// yields a well-formed accumulator: no dedup pass is needed.
proof fn lemma_merge_run_wf(acc: AccumulatorModel, frags: Seq<AccumulatorModel>)
    requires
        acc.wf(),
        forall|k: int| 0 <= k < frags.len() ==> (#[trigger] frags[k]).wf(),
        forall|k: int| 0 <= k < frags.len() ==> inputs_disjoint(
            acc.inputs,
            (#[trigger] frags[k]).inputs,
        ),
        forall|k: int, l: int|
            0 <= k < l < frags.len() ==> inputs_disjoint(
                (#[trigger] frags[k]).inputs,
                (#[trigger] frags[l]).inputs,
            ),
    ensures
        merge_run(acc, frags).wf(),
    decreases frags.len(),
{
    if frags.len() > 0 {
        let f0 = frags.first();
        assert(frags[0].wf() && inputs_disjoint(acc.inputs, frags[0].inputs));
        let m = merge_two(acc, f0);
        assert(m.wf()) by {
            assert forall|i: int, j: int| 0 <= i < j < m.inputs.len() implies m.inputs[i].outpoint
                != m.inputs[j].outpoint by {
                if j < acc.inputs.len() {
                    assert(m.inputs[i] == acc.inputs[i] && m.inputs[j] == acc.inputs[j]);
                } else if i >= acc.inputs.len() {
                    assert(m.inputs[i] == f0.inputs[i - acc.inputs.len()]);
                    assert(m.inputs[j] == f0.inputs[j - acc.inputs.len()]);
                } else {
                    assert(m.inputs[i] == acc.inputs[i]);
                    assert(m.inputs[j] == f0.inputs[j - acc.inputs.len()]);
                }
            }
            assert forall|i: int| 0 <= i < m.inputs.len() implies crate::model::input_wf(
                #[trigger] m.inputs[i],
            ) by {
                if i < acc.inputs.len() {
                    assert(m.inputs[i] == acc.inputs[i]);
                } else {
                    assert(m.inputs[i] == f0.inputs[i - acc.inputs.len()]);
                }
            }
        }
        let rest = frags.drop_first();
        assert forall|k: int| 0 <= k < rest.len() implies inputs_disjoint(
            m.inputs,
            (#[trigger] rest[k]).inputs,
        ) by {
            assert(rest[k] == frags[k + 1]);
            assert(inputs_disjoint(acc.inputs, frags[k + 1].inputs));
            assert(inputs_disjoint(frags[0].inputs, frags[k + 1].inputs));
            assert forall|i: int, j: int|
                0 <= i < m.inputs.len() && 0 <= j < rest[k].inputs.len() implies (
            #[trigger] m.inputs[i]).outpoint != (#[trigger] rest[k].inputs[j]).outpoint by {
                if i < acc.inputs.len() {
                    assert(m.inputs[i] == acc.inputs[i]);
                } else {
                    assert(m.inputs[i] == f0.inputs[i - acc.inputs.len()]);
                }
            }
        }
        assert(forall|k: int| 0 <= k < rest.len() ==> (#[trigger] rest[k]).wf()) by {
            assert(forall|k: int| 0 <= k < rest.len() ==> rest[k] == frags[k + 1]);
        }
        assert(forall|k: int, l: int|
            0 <= k < l < rest.len() ==> inputs_disjoint(
                (#[trigger] rest[k]).inputs,
                (#[trigger] rest[l]).inputs,
            )) by {
            assert(forall|k: int| 0 <= k < rest.len() ==> rest[k] == frags[k + 1]);
        }
        lemma_merge_run_wf(m, rest);
    }
}

/// The coins gathered from wallets that each own their coins once, with no
/// coin shared between wallets, are well formed and pairwise distinct, and
/// carry the wallets' total value.
proof fn lemma_all_candidates_wf(ws: Seq<ParticipantWalletModel>)
    requires
        forall|j: int| 0 <= j < ws.len() ==> (#[trigger] ws[j]).wf(),
        forall|j: int, k: int|
            0 <= j < k < ws.len() ==> wallets_disjoint(#[trigger] ws[j], #[trigger] ws[k]),
    ensures
        forall|i: int| 0 <= i < all_candidates(ws).len() ==> candidate_wf(
            #[trigger] all_candidates(ws)[i],
        ),
        forall|i: int, j: int|
            0 <= i < j < all_candidates(ws).len() ==> all_candidates(ws)[i].outpoint
                != all_candidates(ws)[j].outpoint,
        sum_candidate_values(all_candidates(ws)) == total_candidate_values(ws),
        forall|i: int|
            0 <= i < all_candidates(ws).len() ==> exists|j: int, x: int|
                0 <= j < ws.len() && 0 <= x < ws[j].utxos.len() && #[trigger] all_candidates(
                    ws,
                )[i] == ws[j].utxos[x],
    decreases ws.len(),
{
    if ws.len() > 0 {
        let w0 = ws.first();
        assert(ws[0].wf());
        let rest = ws.drop_first();
        assert(forall|j: int| 0 <= j < rest.len() ==> (#[trigger] rest[j]) == ws[j + 1]);
        lemma_all_candidates_wf(rest);
        let all = all_candidates(ws);
        let tail = all_candidates(rest);
        assert(all == w0.utxos + tail);
        lemma_sum_candidate_concat(w0.utxos, tail);
        assert forall|i: int| 0 <= i < all.len() implies exists|j: int, x: int|
            0 <= j < ws.len() && 0 <= x < ws[j].utxos.len() && #[trigger] all[i] == ws[j].utxos[x]
            by {
            if i < w0.utxos.len() {
                assert(all[i] == ws[0].utxos[i]);
            } else {
                let (j, x) = choose|j: int, x: int|
                    0 <= j < rest.len() && 0 <= x < rest[j].utxos.len() && tail[i
                        - w0.utxos.len()] == rest[j].utxos[x];
                assert(all[i] == ws[j + 1].utxos[x]);
            }
        }
        assert forall|i: int| 0 <= i < all.len() implies candidate_wf(#[trigger] all[i]) by {
            if i < w0.utxos.len() {
                assert(all[i] == ws[0].utxos[i]);
            } else {
                assert(all[i] == tail[i - w0.utxos.len()]);
            }
        }
        assert forall|i: int, j: int| 0 <= i < j < all.len() implies all[i].outpoint
            != all[j].outpoint by {
            if j < w0.utxos.len() {
                assert(all[i] == ws[0].utxos[i] && all[j] == ws[0].utxos[j]);
            } else if i >= w0.utxos.len() {
                assert(all[i] == tail[i - w0.utxos.len()] && all[j] == tail[j - w0.utxos.len()]);
            } else {
                assert(all[i] == ws[0].utxos[i]);
                assert(all[j] == tail[j - w0.utxos.len()]);
                let (k, x) = choose|k: int, x: int|
                    0 <= k < rest.len() && 0 <= x < rest[k].utxos.len() && tail[j
                        - w0.utxos.len()] == rest[k].utxos[x];
                assert(wallets_disjoint(ws[0], ws[k + 1]));
                assert(ws[0].utxos[i].outpoint != ws[k + 1].utxos[x].outpoint);
            }
        }
    }
}

/// A pool reported by wallets carries the wallets' coins.
proof fn lemma_pool_totals(entries: Seq<PoolEntryModel>, ws: Seq<ParticipantWalletModel>)
    requires
        entries.len() == ws.len(),
        forall|j: int| 0 <= j < entries.len() ==> (#[trigger] entries[j]).utxos == ws[j].utxos,
    ensures
        total_pool_values(entries) == total_candidate_values(ws),
    decreases entries.len(),
{
    if entries.len() > 0 {
        assert(entries[0].utxos == ws[0].utxos);
        assert(forall|j: int|
            0 <= j < entries.drop_first().len() ==> (#[trigger] entries.drop_first()[j])
                == entries[j + 1]);
        assert(forall|j: int|
            0 <= j < ws.drop_first().len() ==> (#[trigger] ws.drop_first()[j]) == ws[j + 1]);
        lemma_pool_totals(entries.drop_first(), ws.drop_first());
    }
}

/// A prefix of wallets never holds more value than all of them.
proof fn lemma_total_candidate_snoc(ws: Seq<ParticipantWalletModel>, w: ParticipantWalletModel)
    ensures
        total_candidate_values(ws.push(w)) == total_candidate_values(ws) + sum_candidate_values(
            w.utxos,
        ),
    decreases ws.len(),
{
    if ws.len() == 0 {
        assert(ws.push(w).drop_first() =~= Seq::<ParticipantWalletModel>::empty());
        assert(ws.push(w).first() == w);
        assert(total_candidate_values(Seq::<ParticipantWalletModel>::empty()) == 0);
    } else {
        assert(ws.push(w).first() == ws.first());
        assert(ws.push(w).drop_first() =~= ws.drop_first().push(w));
        lemma_total_candidate_snoc(ws.drop_first(), w);
    }
}

proof fn lemma_total_candidate_take_bound(ws: Seq<ParticipantWalletModel>, i: int)
    requires
        0 <= i <= ws.len(),
    ensures
        total_candidate_values(ws.take(i)) <= total_candidate_values(ws),
    decreases ws.len() - i,
{
    lemma_total_candidate_nonneg(ws.take(i));
    if i == ws.len() {
        assert(ws.take(i) =~= ws);
    } else {
        assert(ws.take(i + 1) =~= ws.take(i).push(ws[i]));
        lemma_total_candidate_snoc(ws.take(i), ws[i]);
        lemma_sum_candidate_nonneg(ws[i].utxos);
        lemma_total_candidate_take_bound(ws, i + 1);
    }
}

/// Merging never changes the seed's locktime.
proof fn lemma_merge_run_locktime(acc: AccumulatorModel, frags: Seq<AccumulatorModel>)
    ensures
        merge_run(acc, frags).locktime == acc.locktime,
    decreases frags.len(),
{
    if frags.len() > 0 {
        lemma_merge_run_locktime(merge_two(acc, frags.first()), frags.drop_first());
    }
}

/// The aggregate fee the initiator owes for a pass: one fixed fee per
/// participant.
pub fn total_fee_of(n: usize, fee: u64) -> (r: u64)
    requires
        fee_times(n as int, fee) <= u64::MAX,
    ensures
        r == fee_times(n as int, fee),
{
    let mut r: u64 = 0;
    let mut i: usize = 0;
    while i < n
        invariant
            0 <= i <= n,
            r == fee_times(i as int, fee),
            fee_times(n as int, fee) <= u64::MAX,
        decreases n - i,
    {
        proof {
            lemma_fee_times_nonneg(i as int, fee);
            lemma_fee_times_mono(i + 1, n as int, fee);
            assert(fee_times(i + 1, fee) == fee + fee_times(i as int, fee));
        }
        r = r + fee;
        i += 1;
    }
    r
}

fn run_ring(
    initiator: ParticipantWallet,
    participants: Vec<ParticipantWallet>,
    recipient_script: Vec<u8>,
    amount: u64,
    seed_inputs: usize,
    fee: u64,
    max_count: u16,
    over_hex: bool,
) -> (r: Result<(Accumulator, ParticipantWallet, Vec<ParticipantWallet>), BatchError>)
    requires
        batch_bounds(initiator@, wallet_models(participants@), fee),
        initiator@.scripts_left() >= 1,
        forall|j: int|
            0 <= j < participants@.len() ==> (#[trigger] wallet_models(
                participants@,
            )[j]).scripts_left() >= 1,
        over_hex ==> max_count == 1,
    ensures
        r matches Ok(t) ==> {
            &&& ring_result(
                initiator@,
                wallet_models(participants@),
                recipient_script@,
                amount,
                seed_inputs as int,
                fee,
                max_count as int,
            ) == Some((t.0@, t.1@, wallet_models(t.2@)))
            &&& t.0@.wf()
            &&& t.0@.balanced()
            &&& t.0@.locktime == 0
            &&& t.0@.net_fee() >= 0
        },
        r matches Err(e) ==> {
            &&& ring_result(
                initiator@,
                wallet_models(participants@),
                recipient_script@,
                amount,
                seed_inputs as int,
                fee,
                max_count as int,
            ) is None
            &&& e == BatchError::InsufficientFunds
        },
{
    let ghost init0 = initiator@;
    let ghost ws0 = wallet_models(participants@);
    let ghost rs = recipient_script@;
    let n = participants.len();
    proof {
        lemma_sum_candidate_nonneg(init0.utxos);
        lemma_total_candidate_nonneg(ws0);
        lemma_fee_times_nonneg(n as int, fee);
    }
    let total_fee = total_fee_of(n, fee);
    proof {
        assert(total_fee == spec_total_fee(ws0.len() as int, fee));
    }
    let seed_acc = match seed_accumulator(&initiator, recipient_script, amount, seed_inputs) {
        Ok(a) => a,
        Err(e) => {
            return Err(e);
        },
    };
    let ghost seedm = seed_acc@;
    proof {
        lemma_seed_facts(init0, rs, amount, seed_inputs as int);
        lemma_pass_fits(init0, ws0, fee, seedm, None);
    }
    let pass = if over_hex {
        hex_relay_circulation(seed_acc, participants, fee)
    } else {
        sequential_circulation(seed_acc, participants, max_count, fee)
    };
    let (acc1, parts1) = match pass {
        Ok(p) => p,
        Err(e) => {
            return Err(e);
        },
    };
    let ghost a1m = acc1@;
    let a1_len = acc1.inputs.len();
    proof {
        lemma_circulation_props(seedm, ws0, max_count as int, None, fee);
        lemma_topup_fits(init0, ws0, fee, total_fee, a1m);
    }
    match add_contribution(acc1, initiator, 2, None, total_fee, true) {
        Ok((acc2, init2)) => {
            // The top-up is the one place an insufficient-funds failure is
            // fatal: owing a fee while attaching nothing means no coin
            // anywhere at the initiator can cover it.
            if total_fee > 0 && acc2.inputs.len() == a1_len {
                return Err(BatchError::InsufficientFunds);
            }
            proof {
                lemma_contribution_props(a1m, init0, 2, None, total_fee, true);
                if total_fee > 0 {
                    lemma_topup_charges(a1m, init0, 2, total_fee);
                }
            }
            Ok((acc2, init2, parts1))
        },
        Err(e) => Err(e),
    }
}

fn run_uniform(
    initiator: ParticipantWallet,
    participants: Vec<ParticipantWallet>,
    recipient_script: Vec<u8>,
    amount: u64,
    seed_inputs: usize,
    fee: u64,
    max_count: u16,
) -> (r: Result<(Accumulator, ParticipantWallet, Vec<ParticipantWallet>), BatchError>)
    requires
        batch_bounds(initiator@, wallet_models(participants@), fee),
        initiator@.scripts_left() >= 1,
        forall|j: int|
            0 <= j < participants@.len() ==> (#[trigger] wallet_models(
                participants@,
            )[j]).scripts_left() >= 2,
    ensures
        r matches Ok(t) ==> {
            &&& uniform_result(
                initiator@,
                wallet_models(participants@),
                recipient_script@,
                amount,
                seed_inputs as int,
                fee,
                max_count as int,
            ) == Some((t.0@, t.1@, wallet_models(t.2@)))
            &&& t.0@.wf()
            &&& t.0@.balanced()
            &&& t.0@.locktime == 0
            &&& t.0@.net_fee() >= 0
        },
        r matches Err(e) ==> {
            &&& uniform_result(
                initiator@,
                wallet_models(participants@),
                recipient_script@,
                amount,
                seed_inputs as int,
                fee,
                max_count as int,
            ) is None
            &&& e == BatchError::InsufficientFunds
        },
{
    let ghost init0 = initiator@;
    let ghost ws0 = wallet_models(participants@);
    let ghost rs = recipient_script@;
    let n = participants.len();
    proof {
        lemma_sum_candidate_nonneg(init0.utxos);
        lemma_total_candidate_nonneg(ws0);
        lemma_fee_times_nonneg(n as int, fee);
    }
    let total_fee = total_fee_of(n, fee);
    proof {
        assert(total_fee == spec_total_fee(ws0.len() as int, fee));
    }
    let seed_acc = match seed_accumulator(&initiator, recipient_script, amount, seed_inputs) {
        Ok(a) => a,
        Err(e) => {
            return Err(e);
        },
    };
    let ghost seedm = seed_acc@;
    let seed_len = seed_acc.inputs.len();
    proof {
        lemma_seed_facts(init0, rs, amount, seed_inputs as int);
        lemma_topup_fits(init0, ws0, fee, total_fee, seedm);
    }
    let (acc1, init2) = match add_contribution(seed_acc, initiator, 2, None, total_fee, true) {
        Ok(p) => p,
        Err(e) => {
            return Err(e);
        },
    };
    // The top-up is the one place an insufficient-funds failure is fatal:
    // owing a fee while attaching nothing means no coin anywhere at the
    // initiator can cover it.
    if total_fee > 0 && acc1.inputs.len() == seed_len {
        return Err(BatchError::InsufficientFunds);
    }
    let ghost a1m = acc1@;
    proof {
        lemma_contribution_props(seedm, init0, 2, None, total_fee, true);
        if total_fee > 0 {
            lemma_topup_charges(seedm, init0, 2, total_fee);
        }
        lemma_pass_fits(init0, ws0, fee, a1m, Some(amount));
    }
    match uniform_output_circulation(acc1, participants, max_count, amount, fee) {
        Ok((acc2, parts2)) => {
            proof {
                lemma_circulation_props(a1m, ws0, max_count as int, Some(amount), fee);
            }
            Ok((acc2, init2, parts2))
        },
        Err(e) => Err(e),
    }
}

fn run_pool(
    initiator: ParticipantWallet,
    participants: Vec<ParticipantWallet>,
    recipient_script: Vec<u8>,
    amount: u64,
    seed_inputs: usize,
    fee: u64,
    max_count: u16,
) -> (r: Result<(Accumulator, ParticipantWallet, Vec<ParticipantWallet>), BatchError>)
    requires
        batch_bounds(initiator@, wallet_models(participants@), fee),
        initiator@.scripts_left() >= 1,
        forall|j: int|
            0 <= j < participants@.len() ==> (#[trigger] wallet_models(
                participants@,
            )[j]).scripts_left() >= 1,
    ensures
        r matches Ok(t) ==> {
            &&& centralized_pool_result(
                initiator@,
                wallet_models(participants@),
                recipient_script@,
                amount,
                seed_inputs as int,
                fee,
                max_count as int,
            ) == Some((t.0@, t.1@, wallet_models(t.2@)))
            &&& t.0@.wf()
            &&& t.0@.balanced()
            &&& t.0@.locktime == 0
            &&& t.0@.net_fee() >= 0
        },
        r matches Err(e) ==> {
            &&& centralized_pool_result(
                initiator@,
                wallet_models(participants@),
                recipient_script@,
                amount,
                seed_inputs as int,
                fee,
                max_count as int,
            ) is None
            &&& e == BatchError::InsufficientFunds
        },
{
    let ghost init0 = initiator@;
    let ghost ws0 = wallet_models(participants@);
    let ghost rs = recipient_script@;
    let n = participants.len();
    proof {
        lemma_sum_candidate_nonneg(init0.utxos);
        lemma_total_candidate_nonneg(ws0);
        lemma_fee_times_nonneg(n as int, fee);
        assert(forall|j: int|
            0 <= j < participants@.len() ==> (#[trigger] participants@[j]@) == ws0[j]);
    }
    let total_fee = total_fee_of(n, fee);
    proof {
        assert(total_fee == spec_total_fee(ws0.len() as int, fee));
    }
    let seed_acc = match seed_accumulator(&initiator, recipient_script, amount, seed_inputs) {
        Ok(a) => a,
        Err(e) => {
            return Err(e);
        },
    };
    let ghost seedm = seed_acc@;
    let (pool, parts1) = collect_pool(participants);
    proof {
        lemma_seed_facts(init0, rs, amount, seed_inputs as int);
        let es = pool_models(pool@);
        assert(es.len() == ws0.len());
        assert(forall|j: int| 0 <= j < es.len() ==> (#[trigger] es[j]) == pool@[j]@);
        assert(forall|j: int| 0 <= j < es.len() ==> (#[trigger] es[j]).utxos == ws0[j].utxos);
        lemma_pool_totals(es, ws0);
        assert(forall|j: int| 0 <= j < es.len() ==> crate::strategies::pool_entry_wf(
            #[trigger] es[j],
        ));
        assert(es =~= ws0.map_values(|w: ParticipantWalletModel| reported_entry(w)));
        assert(wallet_models(parts1@) =~= ws0.map_values(
            |w: ParticipantWalletModel| advanced(w),
        ));
    }
    let acc1 = pool_circulation(seed_acc, &pool, max_count, fee);
    let ghost a1m = acc1@;
    let a1_len = acc1.inputs.len();
    proof {
        lemma_pool_run_props(seedm, pool_models(pool@), max_count as int, fee);
        lemma_topup_fits(init0, ws0, fee, total_fee, a1m);
    }
    match add_contribution(acc1, initiator, 2, None, total_fee, true) {
        Ok((acc2, init2)) => {
            // The top-up is the one place an insufficient-funds failure is
            // fatal: owing a fee while attaching nothing means no coin
            // anywhere at the initiator can cover it.
            if total_fee > 0 && acc2.inputs.len() == a1_len {
                return Err(BatchError::InsufficientFunds);
            }
            proof {
                lemma_contribution_props(a1m, init0, 2, None, total_fee, true);
                if total_fee > 0 {
                    lemma_topup_charges(a1m, init0, 2, total_fee);
                }
            }
            Ok((acc2, init2, parts1))
        },
        Err(e) => Err(e),
    }
}

/// The seed draft depends on a wallet only through its coins.
proof fn lemma_seed_result_utxos(
    w1: ParticipantWalletModel,
    w2: ParticipantWalletModel,
    script: Seq<u8>,
    amount: u64,
    max_inputs: int,
)
    requires
        w1.utxos == w2.utxos,
    ensures
        seed_result(w1, script, amount, max_inputs) == seed_result(w2, script, amount, max_inputs),
{
}

fn run_merge(
    initiator: ParticipantWallet,
    participants: Vec<ParticipantWallet>,
    recipient_script: Vec<u8>,
    amount: u64,
    seed_inputs: usize,
    fee: u64,
    fragment_amount: u64,
    fragment_inputs: usize,
) -> (r: Result<(Accumulator, ParticipantWallet, Vec<ParticipantWallet>), BatchError>)
    requires
        batch_bounds(initiator@, wallet_models(participants@), fee),
        coins_owned_once(initiator@, wallet_models(participants@)),
        forall|j: int|
            0 <= j < participants@.len() ==> (#[trigger] wallet_models(
                participants@,
            )[j]).scripts_left() >= 1,
    ensures
        r matches Ok(t) ==> {
            &&& merge_result(
                initiator@,
                wallet_models(participants@),
                recipient_script@,
                amount,
                seed_inputs as int,
                fragment_amount,
                fragment_inputs as int,
            ) == Some((t.0@, t.1@, wallet_models(t.2@)))
            &&& t.0@.wf()
            &&& t.0@.balanced()
            &&& t.0@.locktime == 0
            &&& t.0@.net_fee() >= 0
        },
        r matches Err(e) ==> {
            &&& merge_result(
                initiator@,
                wallet_models(participants@),
                recipient_script@,
                amount,
                seed_inputs as int,
                fragment_amount,
                fragment_inputs as int,
            ) is None
            &&& e == BatchError::InsufficientFunds
        },
{
    let ghost init0 = initiator@;
    let ghost ws0 = wallet_models(participants@);
    let ghost rs = recipient_script@;
    proof {
        lemma_sum_candidate_nonneg(init0.utxos);
        lemma_total_candidate_nonneg(ws0);
        lemma_fee_times_nonneg(ws0.len() as int, fee);
    }
    let seed_acc = match seed_accumulator(&initiator, recipient_script, amount, seed_inputs) {
        Ok(a) => a,
        Err(e) => {
            return Err(e);
        },
    };
    let ghost seedm = seed_acc@;
    proof {
        lemma_seed_facts(init0, rs, amount, seed_inputs as int);
    }
    let mut rest = participants;
    let mut parts2: Vec<ParticipantWallet> = Vec::new();
    let mut frags: Vec<Accumulator> = Vec::new();
    #[verifier::loop_isolation(false)]
    while rest.len() > 0
        invariant
            frags@.len() == parts2@.len() == ws0.len() - rest@.len(),
            rest@.len() <= ws0.len(),
            forall|j: int|
                0 <= j < rest@.len() ==> (#[trigger] rest@[j]@) == ws0[ws0.len() - rest@.len()
                    + j],
            forall|j: int|
                0 <= j < parts2@.len() ==> (#[trigger] parts2@[j]@) == advanced(ws0[j]),
            fragment_results(ws0.take(frags@.len() as int), fragment_amount,
                fragment_inputs as int) == Some(crate::strategies::acc_models(frags@)),
            forall|k: int|
                0 <= k < frags@.len() ==> {
                    let f = (#[trigger] frags@[k])@;
                    &&& f.wf()
                    &&& f.balanced()
                    &&& f.fees_reimbursed == 0
                    &&& f.fees_paid <= sum_candidate_values(ws0[k].utxos)
                    &&& f.inputs.len() <= ws0[k].utxos.len()
                    &&& forall|x: int|
                        0 <= x < f.inputs.len() ==> (#[trigger] f.inputs[x]).outpoint
                            == ws0[k].utxos[x].outpoint
                },
            total_fees_paid(crate::strategies::acc_models(frags@)) <= total_candidate_values(
                ws0.take(frags@.len() as int),
            ),
            total_fees_reimbursed(crate::strategies::acc_models(frags@)) == 0,
        decreases rest@.len(),
    {
        let ghost k = ws0.len() - rest@.len();
        let mut w = rest.remove(0);
        proof {
            assert(w@ == ws0[k as int]);
            assert(ws0[k as int].wf());
            assert(ws0[k as int].scripts_left() >= 1);
        }
        let script = w.reveal_next_script();
        let ghost frag_rs = script@;
        proof {
            assert(w@.utxos == ws0[k as int].utxos);
            assert(frag_rs == ws0[k as int].scripts[ws0[k as int].revealed]);
            assert(sum_candidate_values(w@.utxos) <= u64::MAX) by {
                lemma_total_candidate_take_bound(ws0, k as int);
                assert(ws0.take(k + 1) =~= ws0.take(k as int).push(ws0[k as int]));
                lemma_total_candidate_snoc(ws0.take(k as int), ws0[k as int]);
                lemma_total_candidate_take_bound(ws0, k + 1);
                lemma_total_candidate_nonneg(ws0.take(k as int));
            }
        }
        match seed_accumulator(&w, script, fragment_amount, fragment_inputs) {
            Ok(frag) => {
                proof {
                    lemma_seed_facts(w@, frag_rs, fragment_amount, fragment_inputs as int);
                    lemma_seed_result_utxos(w@, ws0[k as int], frag_rs, fragment_amount,
                        fragment_inputs as int);
                    let ghost before = crate::strategies::acc_models(frags@);
                    lemma_total_fees_snoc(before, frag@);
                    assert(crate::strategies::acc_models(frags@.push(frag)) =~= before.push(
                        frag@,
                    ));
                    assert(ws0.take(k + 1) =~= ws0.take(k as int).push(ws0[k as int]));
                    lemma_total_candidate_snoc(ws0.take(k as int), ws0[k as int]);
                    lemma_fragment_results_snoc(ws0.take(k as int), ws0[k as int],
                        fragment_amount, fragment_inputs as int);
                }
                frags.push(frag);
                parts2.push(w);
                proof {
                    assert(parts2@[parts2@.len() - 1]@ == advanced(ws0[k as int]));
                }
            },
            Err(e) => {
                // One underfunded fragment fails the whole build.
                proof {
                    lemma_seed_result_utxos(w@, ws0[k as int], frag_rs, fragment_amount,
                        fragment_inputs as int);
                    assert(ws0 =~= ws0.take(k as int) + ws0.skip(k as int));
                    lemma_fragment_results_concat(ws0.take(k as int), ws0.skip(k as int),
                        fragment_amount, fragment_inputs as int);
                    assert(ws0.skip(k as int).first() == ws0[k as int]);
                    assert(fragment_results(ws0.skip(k as int), fragment_amount,
                        fragment_inputs as int) is None);
                }
                return Err(e);
            },
        }
    }
    let ghost fms = crate::strategies::acc_models(frags@);
    proof {
        assert(ws0.take(fms.len() as int) =~= ws0);
        assert(wallet_models(parts2@) =~= ws0.map_values(
            |w: ParticipantWalletModel| advanced(w),
        ));
        assert forall|k: int| 0 <= k < fms.len() implies inputs_disjoint(
            seedm.inputs,
            (#[trigger] fms[k]).inputs,
        ) by {
            assert(fms[k] == frags@[k]@);
            assert(wallets_disjoint(init0, ws0[k]));
            assert forall|i: int, j: int|
                0 <= i < seedm.inputs.len() && 0 <= j < fms[k].inputs.len() implies (
            #[trigger] seedm.inputs[i]).outpoint != (#[trigger] fms[k].inputs[j]).outpoint by {
                assert(seedm.inputs[i].outpoint == init0.utxos[i].outpoint);
                assert(fms[k].inputs[j].outpoint == ws0[k].utxos[j].outpoint);
                assert(init0.utxos[i].outpoint != ws0[k].utxos[j].outpoint);
            }
        }
        assert forall|k: int, l: int| 0 <= k < l < fms.len() implies inputs_disjoint(
            (#[trigger] fms[k]).inputs,
            (#[trigger] fms[l]).inputs,
        ) by {
            assert(fms[k] == frags@[k]@ && fms[l] == frags@[l]@);
            assert(wallets_disjoint(ws0[k], ws0[l]));
            assert forall|i: int, j: int|
                0 <= i < fms[k].inputs.len() && 0 <= j < fms[l].inputs.len() implies (
            #[trigger] fms[k].inputs[i]).outpoint != (#[trigger] fms[l].inputs[j]).outpoint by {
                assert(fms[k].inputs[i].outpoint == ws0[k].utxos[i].outpoint);
                assert(fms[l].inputs[j].outpoint == ws0[l].utxos[j].outpoint);
                assert(ws0[k].utxos[i].outpoint != ws0[l].utxos[j].outpoint);
            }
        }
        assert(forall|k: int| 0 <= k < fms.len() ==> (#[trigger] fms[k]).wf() && fms[k].balanced());
        lemma_merge_run_wf(seedm, fms);
        lemma_merge_balanced(seedm, fms);
        lemma_merge_run_locktime(seedm, fms);
        crate::strategies::lemma_total_fees_nonneg(fms);
        lemma_merge_run_ledger(seedm, fms);
    }
    let merged = merge_fragments(seed_acc, frags);
    Ok((merged, initiator, parts2))
}

fn run_foreign(
    initiator: ParticipantWallet,
    participants: Vec<ParticipantWallet>,
    recipient_script: Vec<u8>,
    amount: u64,
    seed_inputs: usize,
) -> (r: Result<(Accumulator, ParticipantWallet, Vec<ParticipantWallet>), BatchError>)
    requires
        batch_bounds(initiator@, wallet_models(participants@), 0),
        coins_owned_once(initiator@, wallet_models(participants@)),
        initiator@.scripts_left() >= 1,
        all_candidates(wallet_models(participants@)).len() < u16::MAX,
    ensures
        r matches Ok(t) ==> {
            &&& foreign_result(
                initiator@,
                wallet_models(participants@),
                recipient_script@,
                amount,
                seed_inputs as int,
            ) == Some((t.0@, t.1@, wallet_models(t.2@)))
            &&& t.0@.wf()
            &&& t.0@.balanced()
            &&& t.0@.locktime == 0
            &&& t.0@.net_fee() >= 0
        },
        r matches Err(e) ==> {
            &&& foreign_result(
                initiator@,
                wallet_models(participants@),
                recipient_script@,
                amount,
                seed_inputs as int,
            ) is None
            &&& e == BatchError::InsufficientFunds
        },
{
    let ghost init0 = initiator@;
    let ghost ws0 = wallet_models(participants@);
    let ghost rs = recipient_script@;
    proof {
        lemma_sum_candidate_nonneg(init0.utxos);
        lemma_total_candidate_nonneg(ws0);
        lemma_fee_times_nonneg(ws0.len() as int, 0);
    }
    let seed_acc = match seed_accumulator(&initiator, recipient_script, amount, seed_inputs) {
        Ok(a) => a,
        Err(e) => {
            return Err(e);
        },
    };
    let ghost seedm = seed_acc@;
    let foreign = gather_candidates(&participants);
    let ghost fw = foreign_wallet(init0, all_candidates(ws0));
    proof {
        lemma_seed_facts(init0, rs, amount, seed_inputs as int);
        lemma_all_candidates_wf(ws0);
        assert(fw.wf());
        assert(contribution_fits(seedm, fw, 0, None));
    }
    let (acc2, init2) = foreign_input_embedding(seed_acc, initiator, foreign);
    proof {
        lemma_contribution_props(seedm, fw, u16::MAX as int, None, 0, false);
        let (a2m, fw2) = contribution_result(seedm, fw, u16::MAX as int, None, 0, false)
            ->Some_0;
        assert(init2@ == (ParticipantWalletModel { revealed: fw2.revealed, ..init0 }));
        assert(a2m.fees_reimbursed == 0);
    }
    Ok((acc2, init2, participants))
}

/// Drive a whole batch under the chosen strategy: seed the draft from the
/// initiator's coins, run the strategy's contribution pass over the
/// participants, and — for the circulating and pool topologies — have the
/// initiator top up the pool with one payer contribution covering one fixed
/// fee per participant.
///
/// The result is pinned exactly to [`batch_result`], the composition of the
/// strategy's defining runs: `Ok` carries precisely the accumulator and
/// wallets that composition yields, and `Err` occurs exactly when it has no
/// value — an underfunded seed or fragment, a failed contribution, or a
/// top-up that attaches nothing while a fee is owed.  On success the
/// completed accumulator additionally satisfies the global invariant: it is
/// well formed (no coin spent twice, proofs of funds matching), its fee
/// ledger balances input against output value exactly with a non-negative
/// net fee, and its locktime is zero.  The only failure is
/// `InsufficientFunds`, fatal to the batch.
pub fn run_batch(
    strategy: &Strategy,
    initiator: ParticipantWallet,
    participants: Vec<ParticipantWallet>,
    recipient_script: Vec<u8>,
    amount: u64,
    seed_inputs: usize,
    fee_per_participant: u64,
) -> (r: Result<(Accumulator, ParticipantWallet, Vec<ParticipantWallet>), BatchError>)
    requires
        batch_bounds(initiator@, wallet_models(participants@), fee_per_participant),
        coins_owned_once(initiator@, wallet_models(participants@)),
        script_supply_ok(*strategy, initiator@, wallet_models(participants@)),
        strategy matches Strategy::ForeignInputEmbedding ==> all_candidates(
            wallet_models(participants@),
        ).len() < u16::MAX && fee_per_participant == 0,
    ensures
        r matches Ok(t) ==> {
            &&& batch_result(
                *strategy,
                initiator@,
                wallet_models(participants@),
                recipient_script@,
                amount,
                seed_inputs as int,
                fee_per_participant,
            ) == Some((t.0@, t.1@, wallet_models(t.2@)))
            &&& t.0@.wf()
            &&& t.0@.balanced()
            &&& t.0@.locktime == 0
            &&& t.0@.net_fee() >= 0
        },
        r matches Err(e) ==> {
            &&& batch_result(
                *strategy,
                initiator@,
                wallet_models(participants@),
                recipient_script@,
                amount,
                seed_inputs as int,
                fee_per_participant,
            ) is None
            &&& e == BatchError::InsufficientFunds
        },
{
    match strategy {
        Strategy::SequentialCirculation { max_count } => run_ring(
            initiator,
            participants,
            recipient_script,
            amount,
            seed_inputs,
            fee_per_participant,
            *max_count,
            false,
        ),
        Strategy::HexRelayCirculation => run_ring(
            initiator,
            participants,
            recipient_script,
            amount,
            seed_inputs,
            fee_per_participant,
            1,
            true,
        ),
        Strategy::UniformOutputCirculation { max_count } => run_uniform(
            initiator,
            participants,
            recipient_script,
            amount,
            seed_inputs,
            fee_per_participant,
            *max_count,
        ),
        Strategy::CentralizedPool { max_count } => run_pool(
            initiator,
            participants,
            recipient_script,
            amount,
            seed_inputs,
            fee_per_participant,
            *max_count,
        ),
        Strategy::IndependentBuildThenMerge { fragment_amount, fragment_inputs } => run_merge(
            initiator,
            participants,
            recipient_script,
            amount,
            seed_inputs,
            fee_per_participant,
            *fragment_amount,
            *fragment_inputs,
        ),
        Strategy::ForeignInputEmbedding => run_foreign(
            initiator,
            participants,
            recipient_script,
            amount,
            seed_inputs,
        ),
    }
}

} // verus!
