//! The coordination strategies: the topologies by which participants'
//! contributions reach the accumulator.
//!
//! All strategies share the seed step ([`seed_accumulator`]): the initiator
//! drafts an accumulator with exactly one named recipient output, funded by a
//! bounded number of its own coins, at locktime zero; the funding surplus is
//! recorded in the fee ledger as paid-in value.  On top of the shared
//! contribution builder the strategies differ only in how the accumulator
//! travels: passed along a ring ([`sequential_circulation`],
//! [`uniform_output_circulation`], [`hex_relay_circulation`]), merged from
//! independently built fragments
//! ([`merge_fragments`]), handed foreign coins directly
//! ([`foreign_input_embedding`]), or walked over a centrally collected pool
//! ([`pool_circulation`]).

use vstd::prelude::*;

use crate::builder::{
    add_contribution, contribution_fits, contribution_result, copy_bytes, copy_candidates,
    copy_funding_tx, input_of, lemma_contribution_props,
};
use crate::codec::{
    codec_wf, deserialize_hex, hex_of, lemma_exec_codec_wf, lemma_round_trip_hex,
    parse_hex_accumulator, ser_acc, serialize_hex,
};
use crate::errors::BatchError;
use crate::model::{
    inputs_wf, lemma_sum_input_push, spend_value, sum_input_values, sum_output_values,
    Accumulator, AccumulatorModel, InputEntry, ProofOfFunds, TxOut, TxOutModel,
};
use crate::participant::{
    candidate_wf, lemma_sum_candidate_prefix_bound, sum_candidate_values, ParticipantWallet,
    ParticipantWalletModel, UtxoCandidate, UtxoCandidateModel,
};

verus! {

/// The models of a vector of participant wallets.
pub open spec fn wallet_models(ws: Seq<ParticipantWallet>) -> Seq<ParticipantWalletModel> {
    ws.map_values(|w: ParticipantWallet| w@)
}

/// What the seed step produces: the first `max_inputs` of the initiator's
/// coins fund one recipient output of `amount`; the surplus is recorded as
/// value paid into the fee pot.  `None` is the insufficient-funds failure.
pub open spec fn seed_result(
    w: ParticipantWalletModel,
    script: Seq<u8>,
    amount: u64,
    max_inputs: int,
) -> Option<AccumulatorModel> {
    let k = if max_inputs <= w.utxos.len() {
        max_inputs
    } else {
        w.utxos.len() as int
    };
    let chosen = w.utxos.take(k);
    let total = sum_candidate_values(chosen);
    if total < amount {
        None
    } else {
        Some(
            AccumulatorModel {
                inputs: chosen.map_values(|c: UtxoCandidateModel| input_of(c)),
                outputs: seq![TxOutModel { value: amount, script }],
                locktime: 0,
                fees_paid: (total - amount) as u64,
                fees_reimbursed: 0,
            },
        )
    }
}

/// The shared seed step: draft an accumulator naming one recipient output,
/// funded by manual selection of the initiator's first `max_inputs` coins.
/// The initiator's wallet is only read; no script of its own is revealed.
///
/// Fails with `InsufficientFunds` exactly when the selected coins do not
/// cover `amount`.
pub fn seed_accumulator(
    wallet: &ParticipantWallet,
    recipient_script: Vec<u8>,
    amount: u64,
    max_inputs: usize,
) -> (r: Result<Accumulator, BatchError>)
    requires
        wallet@.wf(),
        sum_candidate_values(wallet@.utxos) <= u64::MAX,
    ensures
        r matches Ok(a) ==> {
            &&& seed_result(wallet@, recipient_script@, amount, max_inputs as int) == Some(a@)
            &&& a@.wf()
            &&& a@.balanced()
        },
        r matches Err(e) ==> {
            &&& seed_result(wallet@, recipient_script@, amount, max_inputs as int) is None
            &&& e == BatchError::InsufficientFunds
        },
{
    let n = wallet.utxos.len();
    let k = if max_inputs <= n {
        max_inputs
    } else {
        n
    };
    let ghost chosen = wallet@.utxos.take(k as int);
    let mut inputs: Vec<InputEntry> = Vec::new();
    let mut total: u64 = 0;
    let mut i: usize = 0;
    while i < k
        invariant
            0 <= i <= k <= n,
            n == wallet.utxos.len(),
            wallet@.wf(),
            sum_candidate_values(wallet@.utxos) <= u64::MAX,
            inputs@.len() == i,
            forall|j: int| 0 <= j < i ==> inputs@[j]@ == input_of(wallet@.utxos[j]),
            total == sum_candidate_values(wallet@.utxos.take(i as int)),
            total == sum_input_values(inputs@.map_values(|e: InputEntry| e@)),
        decreases k - i,
    {
        proof {
            lemma_sum_candidate_prefix_bound(wallet@.utxos, i + 1);
            assert(wallet@.utxos.take(i + 1).drop_last() =~= wallet@.utxos.take(i as int));
            assert(candidate_wf(wallet@.utxos[i as int]));
        }
        let entry = InputEntry {
            outpoint: wallet.utxos[i].outpoint,
            proof: ProofOfFunds::Full(copy_funding_tx(&wallet.utxos[i].funding)),
        };
        assert(entry@ == input_of(wallet@.utxos[i as int]));
        let ghost before = inputs@.map_values(|e: InputEntry| e@);
        inputs.push(entry);
        proof {
            assert(inputs@.map_values(|e: InputEntry| e@) =~= before.push(entry@));
            lemma_sum_input_push(before, entry@);
            assert(spend_value(entry@) == wallet@.utxos[i as int].txout.value);
        }
        total = total + wallet.utxos[i].txout.value;
        i += 1;
    }
    if total < amount {
        return Err(BatchError::InsufficientFunds);
    }
    let mut outputs: Vec<TxOut> = Vec::new();
    outputs.push(TxOut { value: amount, script: recipient_script });
    let acc = Accumulator { inputs, outputs, locktime: 0, fees_paid: total - amount,
        fees_reimbursed: 0 };
    proof {
        let m = acc@;
        assert(m.inputs =~= chosen.map_values(|c: UtxoCandidateModel| input_of(c)));
        assert(m.outputs =~= seq![TxOutModel { value: amount, script: recipient_script@ }]);
        assert(seed_result(wallet@, recipient_script@, amount, max_inputs as int) == Some(m));
        assert(sum_output_values(m.outputs) == amount) by {
            assert(m.outputs.drop_last() =~= Seq::<TxOutModel>::empty());
            assert(sum_output_values(Seq::<TxOutModel>::empty()) == 0);
            assert(m.outputs.last() == TxOutModel { value: amount, script: recipient_script@ });
        }
        assert(m.balanced());
        assert forall|p: int, q: int| 0 <= p < q < m.inputs.len() implies m.inputs[p].outpoint
            != m.inputs[q].outpoint by {
            assert(m.inputs[p].outpoint == wallet@.utxos[p].outpoint);
            assert(m.inputs[q].outpoint == wallet@.utxos[q].outpoint);
        }
        assert(inputs_wf(m.inputs));
    }
    Ok(acc)
}

/// How much fee budget a pass over `n` participants can consume.
pub open spec fn fee_times(n: int, fee: u64) -> int
    decreases n,
{
    if n <= 0 {
        0
    } else {
        fee + fee_times(n - 1, fee)
    }
}

/// Total candidate value held by a sequence of wallets.
pub open spec fn total_candidate_values(ws: Seq<ParticipantWalletModel>) -> int
    decreases ws.len(),
{
    if ws.len() == 0 {
        0
    } else {
        sum_candidate_values(ws.first().utxos) + total_candidate_values(ws.drop_first())
    }
}

/// What one circulation pass does: the accumulator visits the wallets in
/// order, each appending one bounded non-payer contribution (with the fixed
/// uniform amount, if the strategy has one) before forwarding.  `None` is
/// the first contribution failure, which aborts the batch.
pub open spec fn circulation_run(
    acc: AccumulatorModel,
    ws: Seq<ParticipantWalletModel>,
    max_count: int,
    uniform: Option<u64>,
    fee: u64,
) -> Option<(AccumulatorModel, Seq<ParticipantWalletModel>)>
    decreases ws.len(),
{
    if ws.len() == 0 {
        Some((acc, Seq::empty()))
    } else {
        match contribution_result(acc, ws.first(), max_count, uniform, fee, false) {
            None => None,
            Some((a2, w2)) => match circulation_run(a2, ws.drop_first(), max_count, uniform, fee) {
                None => None,
                Some((a3, ws3)) => Some((a3, seq![w2] + ws3)),
            },
        }
    }
}

/// The machine bounds under which one circulation pass cannot overflow.
pub open spec fn circulation_fits(
    acc: AccumulatorModel,
    ws: Seq<ParticipantWalletModel>,
    uniform: Option<u64>,
    fee: u64,
) -> bool {
    &&& forall|j: int| 0 <= j < ws.len() ==> (#[trigger] ws[j]).wf()
    &&& forall|j: int|
        0 <= j < ws.len() ==> (#[trigger] ws[j]).scripts_left() >= if uniform is Some {
            2int
        } else {
            1int
        }
    &&& sum_input_values(acc.inputs) + total_candidate_values(ws) + fee <= u64::MAX
    &&& acc.fees_reimbursed + fee_times(ws.len() as int, fee) <= u64::MAX
    &&& acc.fees_paid + fee <= u64::MAX
    &&& (uniform matches Some(a) ==> a + fee <= u64::MAX)
}

/// A circulation pass that fits lets its first contribution fit.
pub proof fn lemma_circulation_fits_first(
    acc: AccumulatorModel,
    ws: Seq<ParticipantWalletModel>,
    uniform: Option<u64>,
    fee: u64,
)
    requires
        circulation_fits(acc, ws, uniform, fee),
        ws.len() > 0,
    ensures
        contribution_fits(acc, ws.first(), fee, uniform),
        ws.first().wf(),
        ws.first().scripts_left() >= if uniform is Some {
            2int
        } else {
            1int
        },
{
    assert(ws[0].wf());
    assert(ws[0].scripts_left() >= if uniform is Some { 2int } else { 1int });
    crate::participant::lemma_sum_candidate_nonneg(ws.first().utxos);
    lemma_total_candidate_nonneg(ws.drop_first());
    crate::model::lemma_sum_input_nonneg(acc.inputs);
    lemma_fee_times_nonneg(ws.drop_first().len() as int, fee);
    assert(fee_times(ws.len() as int, fee) == fee + fee_times(ws.len() as int - 1, fee));
}

/// After a fitting first contribution the rest of the pass still fits.
pub proof fn lemma_circulation_fits_next(
    acc: AccumulatorModel,
    ws: Seq<ParticipantWalletModel>,
    max_count: int,
    uniform: Option<u64>,
    fee: u64,
)
    requires
        circulation_fits(acc, ws, uniform, fee),
        ws.len() > 0,
        contribution_result(acc, ws.first(), max_count, uniform, fee, false) is Some,
    ensures
        ({
            let (a2, w2) = contribution_result(acc, ws.first(), max_count, uniform, fee, false)->Some_0;
            circulation_fits(a2, ws.drop_first(), uniform, fee)
        }),
{
    lemma_circulation_fits_first(acc, ws, uniform, fee);
    lemma_contribution_props(acc, ws.first(), max_count, uniform, fee, false);
    let (a2, w2) = contribution_result(acc, ws.first(), max_count, uniform, fee, false)->Some_0;
    assert(forall|j: int|
        0 <= j < ws.drop_first().len() ==> (#[trigger] ws.drop_first()[j]).wf() && ws.drop_first()[j].scripts_left() >= if uniform is Some { 2int } else { 1int }) by {
        assert(forall|j: int| 0 <= j < ws.drop_first().len() ==> ws.drop_first()[j] == ws[j + 1]);
    }
    assert(fee_times(ws.len() as int, fee) == fee + fee_times(ws.len() as int - 1, fee));
    lemma_fee_times_nonneg(ws.drop_first().len() as int, fee);
}

/// What a whole circulation pass preserves: well-formedness, the fee
/// balance, the existing outputs in place, and the ledger's payer side; the
/// reimbursement side grows by at most one fee per participant.
pub proof fn lemma_circulation_props(
    acc: AccumulatorModel,
    ws: Seq<ParticipantWalletModel>,
    max_count: int,
    uniform: Option<u64>,
    fee: u64,
)
    requires
        circulation_fits(acc, ws, uniform, fee),
    ensures
        circulation_run(acc, ws, max_count, uniform, fee) matches Some(p) ==> {
            let (a2, ws2) = p;
            &&& acc.wf() ==> a2.wf()
            &&& acc.balanced() ==> a2.balanced()
            &&& a2.locktime == acc.locktime
            &&& a2.outputs.len() >= acc.outputs.len()
            &&& a2.outputs.take(acc.outputs.len() as int) == acc.outputs
            &&& a2.inputs.take(acc.inputs.len() as int) == acc.inputs
            &&& a2.inputs.len() >= acc.inputs.len()
            &&& a2.fees_paid == acc.fees_paid
            &&& acc.fees_reimbursed <= a2.fees_reimbursed <= acc.fees_reimbursed + fee_times(
                ws.len() as int,
                fee,
            )
            &&& sum_input_values(acc.inputs) <= sum_input_values(a2.inputs) <= sum_input_values(
                acc.inputs,
            ) + total_candidate_values(ws)
            &&& ws2.len() == ws.len()
        },
    decreases ws.len(),
{
    if ws.len() > 0 {
        let w0 = ws.first();
        lemma_circulation_fits_first(acc, ws, uniform, fee);
        let r0 = contribution_result(acc, w0, max_count, uniform, fee, false);
        if r0 is Some {
            let (a2, w2) = r0->Some_0;
            lemma_contribution_props(acc, w0, max_count, uniform, fee, false);
            lemma_circulation_fits_next(acc, ws, max_count, uniform, fee);
            lemma_circulation_props(a2, ws.drop_first(), max_count, uniform, fee);
            assert(fee_times(ws.len() as int, fee) == fee + fee_times(ws.len() as int - 1, fee));
            let r1 = circulation_run(a2, ws.drop_first(), max_count, uniform, fee);
            if r1 is Some {
                let (a3, ws3) = r1->Some_0;
                assert(a3.outputs.take(acc.outputs.len() as int) == acc.outputs) by {
                    assert(a3.outputs.take(a2.outputs.len() as int).take(acc.outputs.len() as int)
                        =~= a3.outputs.take(acc.outputs.len() as int));
                }
                assert(a3.inputs.take(acc.inputs.len() as int) == acc.inputs) by {
                    assert(a3.inputs.take(a2.inputs.len() as int).take(acc.inputs.len() as int)
                        =~= a3.inputs.take(acc.inputs.len() as int));
                }
            }
        }
    }
}

/// One circulation pass: the accumulator visits each wallet in order, each
/// appending one bounded non-payer contribution.  Returns the extended
/// accumulator and the wallets with their cursors advanced, or the first
/// contribution failure.
fn circulate(
    acc: Accumulator,
    wallets: Vec<ParticipantWallet>,
    max_count: u16,
    uniform_amount: Option<u64>,
    fee: u64,
) -> (r: Result<(Accumulator, Vec<ParticipantWallet>), BatchError>)
    requires
        circulation_fits(acc@, wallet_models(wallets@), uniform_amount, fee),
    ensures
        r matches Ok(p) ==> circulation_run(
            acc@,
            wallet_models(wallets@),
            max_count as int,
            uniform_amount,
            fee,
        ) == Some((p.0@, wallet_models(p.1@))),
        r matches Err(e) ==> {
            &&& circulation_run(
                acc@,
                wallet_models(wallets@),
                max_count as int,
                uniform_amount,
                fee,
            ) is None
            &&& e == BatchError::InsufficientFunds
        },
{
    let ghost acc0 = acc@;
    let ghost ws0 = wallet_models(wallets@);
    let mut acc = acc;
    let mut rest = wallets;
    let mut out: Vec<ParticipantWallet> = Vec::new();
    #[verifier::loop_isolation(false)]
    while rest.len() > 0
        invariant
            circulation_fits(acc@, wallet_models(rest@), uniform_amount, fee),
            ({
                let cont = circulation_run(
                    acc@,
                    wallet_models(rest@),
                    max_count as int,
                    uniform_amount,
                    fee,
                );
                circulation_run(acc0, ws0, max_count as int, uniform_amount, fee) == match cont {
                    None => None::<(AccumulatorModel, Seq<ParticipantWalletModel>)>,
                    Some((af, wsf)) => Some((af, wallet_models(out@) + wsf)),
                }
            }),
        decreases rest@.len(),
    {
        let ghost rem = wallet_models(rest@);
        let ghost acc_pre = acc@;
        let w = rest.remove(0);
        proof {
            assert(wallet_models(rest@) =~= rem.drop_first());
            assert(w@ == rem.first());
            lemma_circulation_fits_first(acc@, rem, uniform_amount, fee);
        }
        match add_contribution(acc, w, max_count, uniform_amount, fee, false) {
            Ok((a2, w2)) => {
                proof {
                    lemma_circulation_fits_next(acc_pre, rem, max_count as int, uniform_amount,
                        fee);
                }
                acc = a2;
                let ghost out_before = wallet_models(out@);
                out.push(w2);
                proof {
                    assert(wallet_models(out@) =~= out_before.push(w2@));
                    let cont = circulation_run(
                        acc@,
                        wallet_models(rest@),
                        max_count as int,
                        uniform_amount,
                        fee,
                    );
                    match cont {
                        None => {},
                        Some((af, wsf)) => {
                            assert(out_before.push(w2@) + wsf =~= out_before + (seq![w2@] + wsf));
                        },
                    }
                }
            },
            Err(e) => {
                proof {
                    assert(contribution_result(acc_pre, rem.first(), max_count as int,
                        uniform_amount, fee, false) is None);
                    assert(circulation_run(acc_pre, rem, max_count as int, uniform_amount, fee)
                        is None);
                }
                return Err(e);
            },
        }
    }
    proof {
        assert(wallet_models(rest@) =~= Seq::<ParticipantWalletModel>::empty());
        assert(wallet_models(out@) + Seq::<ParticipantWalletModel>::empty() =~= wallet_models(
            out@,
        ));
    }
    Ok((acc, out))
}

/// Total candidate values over wallets are never negative.
pub proof fn lemma_total_candidate_nonneg(ws: Seq<ParticipantWalletModel>)
    ensures
        total_candidate_values(ws) >= 0,
    decreases ws.len(),
{
    if ws.len() > 0 {
        crate::participant::lemma_sum_candidate_nonneg(ws.first().utxos);
        lemma_total_candidate_nonneg(ws.drop_first());
    }
}

/// Fee budgets are never negative.
pub proof fn lemma_fee_times_nonneg(n: int, fee: u64)
    ensures
        fee_times(n, fee) >= 0,
    decreases n,
{
    if n > 0 {
        lemma_fee_times_nonneg(n - 1, fee);
    }
}

/// Sequential circulation: the single accumulator is passed from participant
/// to participant along a ring; each appends exactly one bounded non-payer
/// contribution before forwarding.  In-process mutation; no serialization
/// between hops.
pub fn sequential_circulation(
    acc: Accumulator,
    wallets: Vec<ParticipantWallet>,
    max_count: u16,
    fee: u64,
) -> (r: Result<(Accumulator, Vec<ParticipantWallet>), BatchError>)
    requires
        circulation_fits(acc@, wallet_models(wallets@), None, fee),
    ensures
        r matches Ok(p) ==> circulation_run(
            acc@,
            wallet_models(wallets@),
            max_count as int,
            None,
            fee,
        ) == Some((p.0@, wallet_models(p.1@))),
        r matches Err(e) ==> {
            &&& circulation_run(acc@, wallet_models(wallets@), max_count as int, None, fee) is None
            &&& e == BatchError::InsufficientFunds
        },
{
    circulate(acc, wallets, max_count, None, fee)
}

/// Uniform-output circulation: sequential circulation in which every
/// contribution additionally emits one output of exactly `amount` — the
/// shared denomination — besides the participant's own change, and coin
/// collection stops as soon as the gathered value covers `amount + fee`.
pub fn uniform_output_circulation(
    acc: Accumulator,
    wallets: Vec<ParticipantWallet>,
    max_count: u16,
    amount: u64,
    fee: u64,
) -> (r: Result<(Accumulator, Vec<ParticipantWallet>), BatchError>)
    requires
        circulation_fits(acc@, wallet_models(wallets@), Some(amount), fee),
    ensures
        r matches Ok(p) ==> circulation_run(
            acc@,
            wallet_models(wallets@),
            max_count as int,
            Some(amount),
            fee,
        ) == Some((p.0@, wallet_models(p.1@))),
        r matches Err(e) ==> {
            &&& circulation_run(
                acc@,
                wallet_models(wallets@),
                max_count as int,
                Some(amount),
                fee,
            ) is None
            &&& e == BatchError::InsufficientFunds
        },
{
    circulate(acc, wallets, max_count, Some(amount), fee)
}

/// The models of a vector of accumulators.
pub open spec fn acc_models(v: Seq<Accumulator>) -> Seq<AccumulatorModel> {
    v.map_values(|a: Accumulator| a@)
}

/// The models of a vector of candidate coins.
pub open spec fn cand_models(v: Seq<UtxoCandidate>) -> Seq<UtxoCandidateModel> {
    v.map_values(|c: UtxoCandidate| c@)
}

/// Merging two accumulators concatenates their input and output lists and
/// adds their fee ledgers; nothing is deduplicated or dropped.
pub open spec fn merge_two(a: AccumulatorModel, b: AccumulatorModel) -> AccumulatorModel {
    AccumulatorModel {
        inputs: a.inputs + b.inputs,
        outputs: a.outputs + b.outputs,
        locktime: a.locktime,
        fees_paid: (a.fees_paid + b.fees_paid) as u64,
        fees_reimbursed: (a.fees_reimbursed + b.fees_reimbursed) as u64,
    }
}

/// Folding a sequence of independently built fragments into the initiator's
/// accumulator, in order.
pub open spec fn merge_run(acc: AccumulatorModel, frags: Seq<AccumulatorModel>) -> AccumulatorModel
    decreases frags.len(),
{
    if frags.len() == 0 {
        acc
    } else {
        merge_run(merge_two(acc, frags.first()), frags.drop_first())
    }
}

/// Total paid-in ledger value over a sequence of fragments.
pub open spec fn total_fees_paid(frags: Seq<AccumulatorModel>) -> int
    decreases frags.len(),
{
    if frags.len() == 0 {
        0
    } else {
        frags.first().fees_paid + total_fees_paid(frags.drop_first())
    }
}

/// Total reimbursed ledger value over a sequence of fragments.
pub open spec fn total_fees_reimbursed(frags: Seq<AccumulatorModel>) -> int
    decreases frags.len(),
{
    if frags.len() == 0 {
        0
    } else {
        frags.first().fees_reimbursed + total_fees_reimbursed(frags.drop_first())
    }
}

/// Ledger totals are never negative.
pub proof fn lemma_total_fees_nonneg(frags: Seq<AccumulatorModel>)
    ensures
        total_fees_paid(frags) >= 0,
        total_fees_reimbursed(frags) >= 0,
    decreases frags.len(),
{
    if frags.len() > 0 {
        lemma_total_fees_nonneg(frags.drop_first());
    }
}

/// Independent-build-then-merge: each participant built its own complete
/// fragment against its own recipient; the initiator concatenates all input
/// lists and all output lists into one accumulator.  Every fragment's own
/// recipient output is preserved unmodified; no dedup pass runs, because the
/// fragments' input sets are disjoint by construction (a coin is owned by
/// exactly one wallet).
pub fn merge_fragments(acc: Accumulator, frags: Vec<Accumulator>) -> (r: Accumulator)
    requires
        acc@.fees_paid + total_fees_paid(acc_models(frags@)) <= u64::MAX,
        acc@.fees_reimbursed + total_fees_reimbursed(acc_models(frags@)) <= u64::MAX,
    ensures
        r@ == merge_run(acc@, acc_models(frags@)),
{
    let ghost acc0 = acc@;
    let ghost fs0 = acc_models(frags@);
    let mut acc = acc;
    let mut rest = frags;
    #[verifier::loop_isolation(false)]
    while rest.len() > 0
        invariant
            merge_run(acc0, fs0) == merge_run(acc@, acc_models(rest@)),
            acc@.fees_paid + total_fees_paid(acc_models(rest@)) <= u64::MAX,
            acc@.fees_reimbursed + total_fees_reimbursed(acc_models(rest@)) <= u64::MAX,
        decreases rest@.len(),
    {
        let ghost rem = acc_models(rest@);
        let ghost acc_pre = acc@;
        let mut f = rest.remove(0);
        proof {
            assert(acc_models(rest@) =~= rem.drop_first());
            assert(f@ == rem.first());
            lemma_total_fees_nonneg(rem.drop_first());
        }
        acc.inputs.append(&mut f.inputs);
        acc.outputs.append(&mut f.outputs);
        acc.fees_paid = acc.fees_paid + f.fees_paid;
        acc.fees_reimbursed = acc.fees_reimbursed + f.fees_reimbursed;
        proof {
            assert(acc@.inputs =~= acc_pre.inputs + rem.first().inputs);
            assert(acc@.outputs =~= acc_pre.outputs + rem.first().outputs);
            assert(acc@ == merge_two(acc_pre, rem.first()));
        }
    }
    proof {
        assert(acc_models(rest@) =~= Seq::<AccumulatorModel>::empty());
    }
    acc
}

/// A merge of balanced parts is balanced: concatenating inputs and outputs
/// and adding the ledgers keeps the fee-balance invariant of every part.
pub proof fn lemma_merge_balanced(acc: AccumulatorModel, frags: Seq<AccumulatorModel>)
    requires
        acc.balanced(),
        forall|k: int| 0 <= k < frags.len() ==> (#[trigger] frags[k]).balanced(),
        acc.fees_paid + total_fees_paid(frags) <= u64::MAX,
        acc.fees_reimbursed + total_fees_reimbursed(frags) <= u64::MAX,
    ensures
        merge_run(acc, frags).balanced(),
    decreases frags.len(),
{
    if frags.len() > 0 {
        let f0 = frags.first();
        assert(frags[0].balanced());
        let m = merge_two(acc, f0);
        crate::model::lemma_sum_input_concat(acc.inputs, f0.inputs);
        crate::model::lemma_sum_output_concat(acc.outputs, f0.outputs);
        lemma_total_fees_nonneg(frags.drop_first());
        crate::model::lemma_sum_input_nonneg(f0.inputs);
        crate::model::lemma_sum_output_nonneg(f0.outputs);
        assert(m.balanced());
        assert(forall|k: int|
            0 <= k < frags.drop_first().len() ==> (#[trigger] frags.drop_first()[k]).balanced());
        lemma_merge_balanced(m, frags.drop_first());
    }
}

/// The synthetic wallet through which foreign coins are handed to the
/// contribution builder: the donated candidates with the initiator's own
/// script supply.
pub open spec fn foreign_wallet(
    initiator: ParticipantWalletModel,
    cands: Seq<UtxoCandidateModel>,
) -> ParticipantWalletModel {
    ParticipantWalletModel {
        utxos: cands,
        scripts: initiator.scripts,
        revealed: initiator.revealed,
    }
}

/// All candidate coins of a sequence of wallets, in visiting order.
pub open spec fn all_candidates(ws: Seq<ParticipantWalletModel>) -> Seq<UtxoCandidateModel>
    decreases ws.len(),
{
    if ws.len() == 0 {
        Seq::empty()
    } else {
        ws.first().utxos + all_candidates(ws.drop_first())
    }
}

/// Gathering one more wallet appends its coins.
pub proof fn lemma_all_candidates_snoc(ws: Seq<ParticipantWalletModel>, w: ParticipantWalletModel)
    ensures
        all_candidates(ws.push(w)) == all_candidates(ws) + w.utxos,
    decreases ws.len(),
{
    if ws.len() == 0 {
        assert(ws.push(w).drop_first() =~= Seq::<ParticipantWalletModel>::empty());
        assert(ws.push(w).first() == w);
        assert(all_candidates(Seq::<ParticipantWalletModel>::empty())
            =~= Seq::<UtxoCandidateModel>::empty());
        assert(all_candidates(ws.push(w)) =~= all_candidates(ws) + w.utxos);
    } else {
        assert(ws.push(w).first() == ws.first());
        assert(ws.push(w).drop_first() =~= ws.drop_first().push(w));
        lemma_all_candidates_snoc(ws.drop_first(), w);
        assert(ws.first().utxos + (all_candidates(ws.drop_first()) + w.utxos) =~= (ws.first().utxos
            + all_candidates(ws.drop_first())) + w.utxos);
    }
}

/// Collect every participant's candidate coins into one list, in visiting
/// order, for the foreign-input embedding strategy.  The wallets are only
/// read.
pub fn gather_candidates(participants: &Vec<ParticipantWallet>) -> (r: Vec<UtxoCandidate>)
    ensures
        cand_models(r@) == all_candidates(wallet_models(participants@)),
{
    let mut out: Vec<UtxoCandidate> = Vec::new();
    let n = participants.len();
    let mut p: usize = 0;
    while p < n
        invariant
            0 <= p <= n,
            n == participants.len(),
            cand_models(out@) == all_candidates(wallet_models(participants@).take(p as int)),
        decreases n - p,
    {
        let w = &participants[p];
        let ghost before = cand_models(out@);
        let mut fresh = copy_candidates(&w.utxos);
        out.append(&mut fresh);
        proof {
            assert(cand_models(out@) =~= before + w@.utxos);
            assert(wallet_models(participants@).take(p + 1) =~= wallet_models(
                participants@,
            ).take(p as int).push(participants@[p as int]@));
            lemma_all_candidates_snoc(
                wallet_models(participants@).take(p as int),
                participants@[p as int]@,
            );
        }
        p += 1;
    }
    proof {
        assert(wallet_models(participants@).take(n as int) =~= wallet_models(participants@));
    }
    out
}

/// Foreign-input embedding: the initiator's own builder is handed the
/// donated coins directly, one per input, with proof of funds attached; no
/// participant-authored output is created, so no fee reimbursement is
/// modelled — the initiator absorbs the whole donated value into one change
/// output of its own.
pub fn foreign_input_embedding(
    acc: Accumulator,
    initiator: ParticipantWallet,
    foreign: Vec<UtxoCandidate>,
) -> (r: (Accumulator, ParticipantWallet))
    requires
        foreign_wallet(initiator@, cand_models(foreign@)).wf(),
        contribution_fits(acc@, foreign_wallet(initiator@, cand_models(foreign@)), 0, None),
        initiator@.scripts_left() >= 1,
        foreign@.len() < u16::MAX,
    ensures
        ({
            let spec_r = contribution_result(
                acc@,
                foreign_wallet(initiator@, cand_models(foreign@)),
                u16::MAX as int,
                None,
                0,
                false,
            );
            &&& spec_r is Some
            &&& r.0@ == spec_r->Some_0.0
            &&& r.1@.utxos == initiator@.utxos
            &&& r.1@.scripts == initiator@.scripts
            &&& r.1@.revealed == spec_r->Some_0.1.revealed
        }),
{
    let ghost fw = foreign_wallet(initiator@, cand_models(foreign@));
    let wallet = ParticipantWallet {
        utxos: foreign,
        scripts: initiator.scripts,
        revealed: initiator.revealed,
    };
    assert(wallet@ == fw);
    match add_contribution(acc, wallet, u16::MAX, None, 0, false) {
        Ok((a2, w2)) => {
            let out = ParticipantWallet {
                utxos: initiator.utxos,
                scripts: w2.scripts,
                revealed: w2.revealed,
            };
            (a2, out)
        },
        Err(_) => {
            // A non-payer contribution with no uniform amount cannot fail.
            proof {
                assert(contribution_result(acc@, fw, u16::MAX as int, None, 0, false) is Some);
            }
            (
                Accumulator {
                    inputs: Vec::new(),
                    outputs: Vec::new(),
                    locktime: 0,
                    fees_paid: 0,
                    fees_reimbursed: 0,
                },
                ParticipantWallet { utxos: Vec::new(), scripts: Vec::new(), revealed: 0 },
            )
        },
    }
}

/// One entry of the centralized pool: the participant's designated output
/// script and its eligible coins with their funding transactions, reported
/// before any accumulator mutation happens.
#[derive(Clone, Debug)]
pub struct PoolEntry {
    pub script: Vec<u8>,
    pub utxos: Vec<UtxoCandidate>,
}

/// Mathematical model of a [`PoolEntry`].
pub struct PoolEntryModel {
    pub script: Seq<u8>,
    pub utxos: Seq<UtxoCandidateModel>,
}

impl View for PoolEntry {
    type V = PoolEntryModel;

    open spec fn view(&self) -> PoolEntryModel {
        PoolEntryModel { script: self.script@, utxos: cand_models(self.utxos@) }
    }
}

/// The models of a vector of pool entries.
pub open spec fn pool_models(v: Seq<PoolEntry>) -> Seq<PoolEntryModel> {
    v.map_values(|e: PoolEntry| e@)
}

/// A pool entry is well formed when its coins are backed by their funding
/// transactions and no coin is listed twice (they come from one wallet).
pub open spec fn pool_entry_wf(e: PoolEntryModel) -> bool {
    &&& forall|i: int| 0 <= i < e.utxos.len() ==> candidate_wf(#[trigger] e.utxos[i])
    &&& forall|i: int, j: int|
        0 <= i < j < e.utxos.len() ==> e.utxos[i].outpoint != e.utxos[j].outpoint
    &&& e.utxos.len() <= usize::MAX
}

/// The synthetic one-shot wallet a pool entry acts through: its coins, its
/// single designated script, cursor at the start.
pub open spec fn pool_wallet(e: PoolEntryModel) -> ParticipantWalletModel {
    ParticipantWalletModel { utxos: e.utxos, scripts: seq![e.script], revealed: 0 }
}

/// What one pool entry does to the accumulator: a bounded non-payer
/// contribution whose output goes to the entry's designated script — the
/// initiator always pays, so the entry is always reimbursed.  An entry with
/// no eligible coin leaves the accumulator untouched.
pub open spec fn pool_entry_result(
    acc: AccumulatorModel,
    e: PoolEntryModel,
    max_count: int,
    fee: u64,
) -> AccumulatorModel {
    contribution_result(acc, pool_wallet(e), max_count, None, fee, false)->Some_0.0
}

/// Walking the whole pool, in the order the entries were collected.
pub open spec fn pool_run(
    acc: AccumulatorModel,
    entries: Seq<PoolEntryModel>,
    max_count: int,
    fee: u64,
) -> AccumulatorModel
    decreases entries.len(),
{
    if entries.len() == 0 {
        acc
    } else {
        pool_run(pool_entry_result(acc, entries.first(), max_count, fee), entries.drop_first(),
            max_count, fee)
    }
}

/// The machine bounds under which a pool walk cannot overflow.
pub open spec fn pool_fits(
    acc: AccumulatorModel,
    entries: Seq<PoolEntryModel>,
    fee: u64,
) -> bool {
    &&& forall|j: int| 0 <= j < entries.len() ==> pool_entry_wf(#[trigger] entries[j])
    &&& sum_input_values(acc.inputs) + total_pool_values(entries) + fee <= u64::MAX
    &&& acc.fees_reimbursed + fee_times(entries.len() as int, fee) <= u64::MAX
    &&& acc.fees_paid + fee <= u64::MAX
}

/// Total candidate value held by a pool.
pub open spec fn total_pool_values(entries: Seq<PoolEntryModel>) -> int
    decreases entries.len(),
{
    if entries.len() == 0 {
        0
    } else {
        sum_candidate_values(entries.first().utxos) + total_pool_values(entries.drop_first())
    }
}

/// Pool totals are never negative.
pub proof fn lemma_total_pool_nonneg(entries: Seq<PoolEntryModel>)
    ensures
        total_pool_values(entries) >= 0,
    decreases entries.len(),
{
    if entries.len() > 0 {
        crate::participant::lemma_sum_candidate_nonneg(entries.first().utxos);
        lemma_total_pool_nonneg(entries.drop_first());
    }
}

/// A fitting pool walk lets its first entry's contribution fit, and that
/// contribution cannot fail.
pub proof fn lemma_pool_fits_first(acc: AccumulatorModel, entries: Seq<PoolEntryModel>, fee: u64)
    requires
        pool_fits(acc, entries, fee),
        entries.len() > 0,
    ensures
        pool_wallet(entries.first()).wf(),
        contribution_fits(acc, pool_wallet(entries.first()), fee, None),
        forall|max_count: int|
            #[trigger] contribution_result(acc, pool_wallet(entries.first()), max_count, None,
                fee, false) is Some,
{
    assert(pool_entry_wf(entries[0]));
    crate::participant::lemma_sum_candidate_nonneg(entries.first().utxos);
    lemma_total_pool_nonneg(entries.drop_first());
    crate::model::lemma_sum_input_nonneg(acc.inputs);
    lemma_fee_times_nonneg(entries.drop_first().len() as int, fee);
    assert(fee_times(entries.len() as int, fee) == fee + fee_times(entries.len() as int - 1, fee));
}

/// After one pool entry the rest of the walk still fits.
pub proof fn lemma_pool_fits_next(
    acc: AccumulatorModel,
    entries: Seq<PoolEntryModel>,
    max_count: int,
    fee: u64,
)
    requires
        pool_fits(acc, entries, fee),
        entries.len() > 0,
    ensures
        pool_fits(pool_entry_result(acc, entries.first(), max_count, fee), entries.drop_first(),
            fee),
{
    lemma_pool_fits_first(acc, entries, fee);
    lemma_contribution_props(acc, pool_wallet(entries.first()), max_count, None, fee, false);
    assert(forall|j: int|
        0 <= j < entries.drop_first().len() ==> pool_entry_wf(#[trigger] entries.drop_first()[j]))
        by {
        assert(forall|j: int|
            0 <= j < entries.drop_first().len() ==> entries.drop_first()[j] == entries[j + 1]);
    }
    assert(fee_times(entries.len() as int, fee) == fee + fee_times(entries.len() as int - 1, fee));
    lemma_fee_times_nonneg(entries.drop_first().len() as int, fee);
}

/// Centralized pool: every participant first reported its eligible coins and
/// one designated script; the initiator then walks the collected pool
/// sequentially, appending one bounded, always-reimbursed contribution per
/// entry.  Discovery touched no shared state; only this walk mutates the
/// accumulator.  The walk itself cannot fail: the pool model assumes the
/// initiator always pays.
pub fn pool_circulation(
    acc: Accumulator,
    pool: &Vec<PoolEntry>,
    max_count: u16,
    fee: u64,
) -> (r: Accumulator)
    requires
        pool_fits(acc@, pool_models(pool@), fee),
    ensures
        r@ == pool_run(acc@, pool_models(pool@), max_count as int, fee),
{
    let ghost acc0 = acc@;
    let ghost es0 = pool_models(pool@);
    let mut acc = acc;
    let n = pool.len();
    let mut p: usize = 0;
    proof {
        assert(es0.skip(0) =~= es0);
        assert(es0.take(0) =~= Seq::<PoolEntryModel>::empty());
        assert(pool_run(acc0, es0.take(0), max_count as int, fee) == acc0);
    }
    #[verifier::loop_isolation(false)]
    while p < n
        invariant
            0 <= p <= n,
            n == pool.len(),
            acc@ == pool_run(acc0, es0.take(p as int), max_count as int, fee),
            pool_fits(acc@, es0.skip(p as int), fee),
        decreases n - p,
    {
        let ghost acc_pre = acc@;
        proof {
            assert(es0.skip(p as int).first() == es0[p as int]);
            assert(es0[p as int] == pool@[p as int]@);
        }
        let entry = &pool[p];
        let utxos = copy_candidates(&entry.utxos);
        let mut scripts: Vec<Vec<u8>> = Vec::new();
        scripts.push(copy_bytes(&entry.script));
        let wallet = ParticipantWallet { utxos, scripts, revealed: 0 };
        proof {
            assert(wallet@.scripts =~= seq![entry@.script]);
            assert(wallet@ == pool_wallet(es0.skip(p as int).first()));
            lemma_pool_fits_first(acc_pre, es0.skip(p as int), fee);
        }
        match add_contribution(acc, wallet, max_count, None, fee, false) {
            Ok((a2, _)) => {
                proof {
                    lemma_pool_fits_next(acc_pre, es0.skip(p as int), max_count as int, fee);
                    assert(es0.skip(p as int).drop_first() =~= es0.skip(p + 1));
                    assert(es0.take(p + 1) =~= es0.take(p as int).push(es0[p as int]));
                    lemma_pool_run_snoc(acc0, es0.take(p as int), es0[p as int], max_count as int,
                        fee);
                }
                acc = a2;
            },
            Err(_) => {
                // A non-payer contribution with no uniform amount cannot fail.
                proof {
                    assert(contribution_result(acc_pre, pool_wallet(es0.skip(p as int).first()),
                        max_count as int, None, fee, false) is Some);
                }
                return Accumulator {
                    inputs: Vec::new(),
                    outputs: Vec::new(),
                    locktime: 0,
                    fees_paid: 0,
                    fees_reimbursed: 0,
                };
            },
        }
        p += 1;
    }
    proof {
        assert(es0.take(n as int) =~= es0);
    }
    acc
}

/// Walking one more pool entry is one more entry step.
pub proof fn lemma_pool_run_snoc(
    acc: AccumulatorModel,
    entries: Seq<PoolEntryModel>,
    e: PoolEntryModel,
    max_count: int,
    fee: u64,
)
    ensures
        pool_run(acc, entries.push(e), max_count, fee) == pool_entry_result(
            pool_run(acc, entries, max_count, fee),
            e,
            max_count,
            fee,
        ),
    decreases entries.len(),
{
    if entries.len() == 0 {
        let tail = Seq::<PoolEntryModel>::empty();
        assert(entries.push(e).drop_first() =~= tail);
        assert(entries.push(e).first() == e);
        assert(pool_run(pool_entry_result(acc, e, max_count, fee), tail, max_count, fee)
            == pool_entry_result(acc, e, max_count, fee));
    } else {
        assert(entries.push(e).first() == entries.first());
        assert(entries.push(e).drop_first() =~= entries.drop_first().push(e));
        lemma_pool_run_snoc(pool_entry_result(acc, entries.first(), max_count, fee),
            entries.drop_first(), e, max_count, fee);
    }
}

/// The pool entry one wallet reports: its eligible coins and one freshly
/// designated output script.
pub open spec fn reported_entry(w: ParticipantWalletModel) -> PoolEntryModel {
    PoolEntryModel { script: w.scripts[w.revealed], utxos: w.utxos }
}

/// The discovery phase of the centralized-pool strategy: every participant
/// reports its eligible coins and one designated script to the central
/// collector, without touching any accumulator.  Each wallet's cursor
/// advances by the one script it designated.  Discovery touches only the
/// reporting wallet's own state, so entries may be collected in any order or
/// in parallel; only the later walk is sequential.
pub fn collect_pool(participants: Vec<ParticipantWallet>) -> (r: (
    Vec<PoolEntry>,
    Vec<ParticipantWallet>,
))
    requires
        forall|j: int| 0 <= j < participants@.len() ==> (#[trigger] participants@[j]@).wf(),
        forall|j: int|
            0 <= j < participants@.len() ==> (#[trigger] participants@[j]@).scripts_left() >= 1,
    ensures
        r.0@.len() == participants@.len(),
        r.1@.len() == participants@.len(),
        forall|j: int|
            0 <= j < participants@.len() ==> (#[trigger] r.0@[j]@) == reported_entry(
                participants@[j]@,
            ),
        forall|j: int|
            0 <= j < participants@.len() ==> (#[trigger] r.1@[j]@) == (ParticipantWalletModel {
                revealed: participants@[j]@.revealed + 1,
                ..participants@[j]@
            }),
{
    let ghost ws0 = participants@;
    let mut rest = participants;
    let mut entries: Vec<PoolEntry> = Vec::new();
    let mut wallets: Vec<ParticipantWallet> = Vec::new();
    #[verifier::loop_isolation(false)]
    while rest.len() > 0
        invariant
            entries@.len() == wallets@.len() == ws0.len() - rest@.len(),
            rest@.len() <= ws0.len(),
            forall|j: int|
                0 <= j < rest@.len() ==> (#[trigger] rest@[j]) == ws0[ws0.len() - rest@.len() + j],
            forall|j: int|
                0 <= j < entries@.len() ==> (#[trigger] entries@[j]@) == reported_entry(ws0[j]@),
            forall|j: int|
                0 <= j < wallets@.len() ==> (#[trigger] wallets@[j]@) == (ParticipantWalletModel {
                    revealed: ws0[j]@.revealed + 1,
                    ..ws0[j]@
                }),
        decreases rest@.len(),
    {
        let ghost k = ws0.len() - rest@.len();
        let mut w = rest.remove(0);
        proof {
            assert(w == ws0[k as int]);
            assert(ws0[k as int]@.wf());
            assert(ws0[k as int]@.scripts_left() >= 1);
        }
        let utxos = copy_candidates(&w.utxos);
        let script = w.reveal_next_script();
        let entry = PoolEntry { script, utxos };
        proof {
            assert(entry@ == reported_entry(ws0[k as int]@));
        }
        entries.push(entry);
        wallets.push(w);
    }
    (entries, wallets)
}

/// One hop of the hex-relay ring: decode the transiting hexadecimal
/// accumulator, append one single-coin contribution, and re-encode it for
/// the next hop.  A payload that does not parse aborts the hop with
/// `Deserialization`.
pub fn relay_contribution(h: &Vec<u8>, wallet: ParticipantWallet, fee: u64, payer: bool) -> (r:
    Result<(Vec<u8>, ParticipantWallet), BatchError>)
    requires
        wallet@.wf(),
        wallet@.scripts_left() >= 1,
        parse_hex_accumulator(h@) matches Some(m) ==> contribution_fits(m, wallet@, fee, None),
    ensures
        match parse_hex_accumulator(h@) {
            None => r matches Err(e) && e == BatchError::Deserialization,
            Some(m) => match contribution_result(m, wallet@, 1, None, fee, payer) {
                None => r matches Err(e) && e == BatchError::InsufficientFunds,
                Some((m2, w2)) => r matches Ok(p) && p.0@ == hex_of(ser_acc(m2)) && p.1@ == w2
                    && codec_wf(m2),
            },
        },
{
    let acc = match deserialize_hex(h) {
        Ok(a) => a,
        Err(e) => {
            return Err(e);
        },
    };
    match add_contribution(acc, wallet, 1, None, fee, payer) {
        Ok((a2, w2)) => {
            proof {
                lemma_exec_codec_wf(&a2);
            }
            let h2 = serialize_hex(&a2);
            Ok((h2, w2))
        },
        Err(e) => Err(e),
    }
}

/// Hex-relay circulation: sequential circulation over an explicit transport.
/// The accumulator is serialized to its canonical hexadecimal text before
/// each hop and deserialized on arrival, so every hop exercises the wire
/// format's round trip; each participant appends one single-coin non-payer
/// contribution.  The result is exactly what the in-memory ring would have
/// produced.
#[verifier::rlimit(100)]
#[verifier::spinoff_prover]
pub fn hex_relay_circulation(acc: Accumulator, wallets: Vec<ParticipantWallet>, fee: u64) -> (r:
    Result<(Accumulator, Vec<ParticipantWallet>), BatchError>)
    requires
        circulation_fits(acc@, wallet_models(wallets@), None, fee),
    ensures
        r matches Ok(p) ==> circulation_run(acc@, wallet_models(wallets@), 1, None, fee) == Some(
            (p.0@, wallet_models(p.1@)),
        ),
        r matches Err(e) ==> {
            &&& circulation_run(acc@, wallet_models(wallets@), 1, None, fee) is None
            &&& e == BatchError::InsufficientFunds
        },
{
    let ghost acc0 = acc@;
    let ghost ws0 = wallet_models(wallets@);
    proof {
        lemma_exec_codec_wf(&acc);
        lemma_round_trip_hex(acc@);
    }
    let mut h = serialize_hex(&acc);
    let ghost mut m_cur = acc@;
    let mut rest = wallets;
    let mut out: Vec<ParticipantWallet> = Vec::new();
    #[verifier::loop_isolation(false)]
    while rest.len() > 0
        invariant
            parse_hex_accumulator(h@) == Some(m_cur),
            h@ == hex_of(ser_acc(m_cur)),
            codec_wf(m_cur),
            circulation_fits(m_cur, wallet_models(rest@), None, fee),
            ({
                let cont = circulation_run(m_cur, wallet_models(rest@), 1, None, fee);
                circulation_run(acc0, ws0, 1, None, fee) == match cont {
                    None => None::<(AccumulatorModel, Seq<ParticipantWalletModel>)>,
                    Some((af, wsf)) => Some((af, wallet_models(out@) + wsf)),
                }
            }),
        decreases rest@.len(),
    {
        let ghost rem = wallet_models(rest@);
        let ghost m_pre = m_cur;
        let w = rest.remove(0);
        proof {
            assert(wallet_models(rest@) =~= rem.drop_first());
            assert(w@ == rem.first());
            lemma_circulation_fits_first(m_pre, rem, None, fee);
        }
        match relay_contribution(&h, w, fee, false) {
            Ok((h2, w2)) => {
                proof {
                    lemma_circulation_fits_next(m_pre, rem, 1, None, fee);
                    m_cur = contribution_result(m_pre, rem.first(), 1, None, fee, false)
                        ->Some_0.0;
                    lemma_round_trip_hex(m_cur);
                }
                h = h2;
                let ghost out_before = wallet_models(out@);
                out.push(w2);
                proof {
                    assert(wallet_models(out@) =~= out_before.push(w2@));
                    let cont = circulation_run(m_cur, wallet_models(rest@), 1, None, fee);
                    match cont {
                        None => {},
                        Some((af, wsf)) => {
                            assert(out_before.push(w2@) + wsf =~= out_before + (seq![w2@] + wsf));
                        },
                    }
                }
            },
            Err(e) => {
                proof {
                    assert(contribution_result(m_pre, rem.first(), 1, None, fee, false) is None);
                    assert(circulation_run(m_pre, rem, 1, None, fee) is None);
                }
                return Err(e);
            },
        }
    }
    proof {
        assert(wallet_models(rest@) =~= Seq::<ParticipantWalletModel>::empty());
        assert(wallet_models(out@) + Seq::<ParticipantWalletModel>::empty() =~= wallet_models(
            out@,
        ));
    }
    match deserialize_hex(&h) {
        Ok(acc_final) => Ok((acc_final, out)),
        Err(_) => {
            // The payload we just produced always parses back.
            proof {
                assert(parse_hex_accumulator(h@) == Some(m_cur));
            }
            Err(BatchError::InsufficientFunds)
        },
    }
}

/// What the whole pool walk preserves: well-formedness, the fee balance,
/// the outputs already present, and the payer side of the ledger.
pub proof fn lemma_pool_run_props(
    acc: AccumulatorModel,
    entries: Seq<PoolEntryModel>,
    max_count: int,
    fee: u64,
)
    requires
        pool_fits(acc, entries, fee),
    ensures
        ({
            let a2 = pool_run(acc, entries, max_count, fee);
            &&& acc.wf() ==> a2.wf()
            &&& acc.balanced() ==> a2.balanced()
            &&& a2.locktime == acc.locktime
            &&& a2.fees_paid == acc.fees_paid
            &&& acc.fees_reimbursed <= a2.fees_reimbursed <= acc.fees_reimbursed + fee_times(
                entries.len() as int,
                fee,
            )
            &&& sum_input_values(acc.inputs) <= sum_input_values(a2.inputs) <= sum_input_values(
                acc.inputs,
            ) + total_pool_values(entries)
            &&& a2.outputs.len() >= acc.outputs.len()
            &&& a2.outputs.take(acc.outputs.len() as int) == acc.outputs
            &&& a2.inputs.take(acc.inputs.len() as int) == acc.inputs
            &&& a2.inputs.len() >= acc.inputs.len()
        }),
    decreases entries.len(),
{
    if entries.len() > 0 {
        let e0 = entries.first();
        lemma_pool_fits_first(acc, entries, fee);
        lemma_contribution_props(acc, pool_wallet(e0), max_count, None, fee, false);
        lemma_pool_fits_next(acc, entries, max_count, fee);
        assert(fee_times(entries.len() as int, fee) == fee + fee_times(
            entries.len() as int - 1,
            fee,
        ));
        lemma_fee_times_nonneg(entries.drop_first().len() as int, fee);
        crate::participant::lemma_sum_candidate_nonneg(e0.utxos);
        lemma_total_pool_nonneg(entries.drop_first());
        let a1 = pool_entry_result(acc, e0, max_count, fee);
        lemma_pool_run_props(a1, entries.drop_first(), max_count, fee);
        let a2 = pool_run(acc, entries, max_count, fee);
        assert(a2.outputs.take(acc.outputs.len() as int) == acc.outputs) by {
            assert(a2.outputs.take(a1.outputs.len() as int).take(acc.outputs.len() as int)
                =~= a2.outputs.take(acc.outputs.len() as int));
        }
        assert(a2.inputs.take(acc.inputs.len() as int) == acc.inputs) by {
            assert(a2.inputs.take(a1.inputs.len() as int).take(acc.inputs.len() as int)
                =~= a2.inputs.take(acc.inputs.len() as int));
        }
    }
}

/// Appending a fragment adds its ledger to the totals.
pub proof fn lemma_total_fees_snoc(frags: Seq<AccumulatorModel>, f: AccumulatorModel)
    ensures
        total_fees_paid(frags.push(f)) == total_fees_paid(frags) + f.fees_paid,
        total_fees_reimbursed(frags.push(f)) == total_fees_reimbursed(frags) + f.fees_reimbursed,
    decreases frags.len(),
{
    if frags.len() == 0 {
        assert(frags.push(f).drop_first() =~= Seq::<AccumulatorModel>::empty());
        assert(frags.push(f).first() == f);
        assert(total_fees_paid(Seq::<AccumulatorModel>::empty()) == 0);
        assert(total_fees_reimbursed(Seq::<AccumulatorModel>::empty()) == 0);
    } else {
        assert(frags.push(f).first() == frags.first());
        assert(frags.push(f).drop_first() =~= frags.drop_first().push(f));
        lemma_total_fees_snoc(frags.drop_first(), f);
    }
}

/// Budgets grow with the number of participants.
pub proof fn lemma_fee_times_mono(a: int, b: int, fee: u64)
    requires
        0 <= a <= b,
    ensures
        fee_times(a, fee) <= fee_times(b, fee),
    decreases b,
{
    if a < b {
        lemma_fee_times_mono(a, b - 1, fee);
    }
}

} // verus!
