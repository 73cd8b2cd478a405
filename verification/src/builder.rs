//! The contribution builder: the reusable primitive every coordination
//! strategy is built on.
//!
//! A contribution turns a bounded slice of one participant's candidate coins
//! into accumulator inputs (with proof of funds attached) plus the outputs
//! reflecting that participant's net position after its fee obligation.  The
//! selection walks the candidates in wallet order, skips any coin the
//! accumulator already spends (the dedup guard), and stops at the count cap
//! or, in uniform-output mode, as soon as the gathered value covers the fixed
//! amount plus the fee.
//!
//! The whole selection is specified by the fold [`selection_run`]; the
//! contract of [`add_contribution`] pins its result to
//! [`contribution_result`] exactly.

use vstd::prelude::*;

use crate::errors::BatchError;
use crate::model::{
    distinct_outpoints, inputs_wf, input_wf, lemma_sum_input_push, lemma_sum_output_push,
    lemma_count_push, spend_value, spends_outpoint, sum_input_values,
    count_outputs_with_value, Accumulator, AccumulatorModel, FundingTx, InputEntry,
    InputEntryModel, ProofOfFunds, ProofOfFundsModel, TxOut, TxOutModel,
};
use crate::participant::{
    candidate_wf, lemma_sum_candidate_prefix_bound, sum_candidate_values, ParticipantWallet,
    ParticipantWalletModel, UtxoCandidate, UtxoCandidateModel,
};

verus! {

/// The accumulator input a candidate becomes: its outpoint with the full
/// funding transaction attached as proof of funds.
pub open spec fn input_of(c: UtxoCandidateModel) -> InputEntryModel {
    InputEntryModel { outpoint: c.outpoint, proof: ProofOfFundsModel::Full(c.funding) }
}

/// State threaded through the candidate walk: the accumulator's input list so
/// far, the value gathered by this contribution, how many coins it attached,
/// and whether a stop condition has triggered.
pub struct SelectionState {
    pub inputs: Seq<InputEntryModel>,
    pub gained: int,
    pub count: int,
    pub stop: bool,
}

/// The walk starts from the accumulator's current inputs with nothing
/// gathered.
pub open spec fn selection_init(inputs: Seq<InputEntryModel>) -> SelectionState {
    SelectionState { inputs, gained: 0, count: 0, stop: false }
}

/// One candidate considered: skipped if the walk already stopped, the count
/// cap leaves no room, or the coin is already spent; otherwise attached,
/// with the stop conditions evaluated on the new state.  The cap is checked
/// before attaching, so a walk never attaches more than `max_count` coins.
pub open spec fn selection_step(
    st: SelectionState,
    c: UtxoCandidateModel,
    max_count: int,
    uniform: Option<u64>,
    fee: u64,
) -> SelectionState {
    if st.stop || st.count >= max_count || spends_outpoint(st.inputs, c.outpoint) {
        st
    } else {
        let gained = st.gained + c.txout.value;
        let hit_target = match uniform {
            Some(a) => gained >= a + fee,
            None => false,
        };
        SelectionState {
            inputs: st.inputs.push(input_of(c)),
            gained,
            count: st.count + 1,
            stop: hit_target || st.count + 1 >= max_count,
        }
    }
}

/// The whole candidate walk, in the order the wallet supplies the coins.
pub open spec fn selection_run(
    st: SelectionState,
    cands: Seq<UtxoCandidateModel>,
    max_count: int,
    uniform: Option<u64>,
    fee: u64,
) -> SelectionState
    decreases cands.len(),
{
    if cands.len() == 0 {
        st
    } else {
        selection_run(
            selection_step(st, cands.first(), max_count, uniform, fee),
            cands.drop_first(),
            max_count,
            uniform,
            fee,
        )
    }
}

/// Walking one more candidate is one more step.
pub proof fn lemma_selection_run_snoc(
    st: SelectionState,
    cands: Seq<UtxoCandidateModel>,
    c: UtxoCandidateModel,
    max_count: int,
    uniform: Option<u64>,
    fee: u64,
)
    ensures
        selection_run(st, cands.push(c), max_count, uniform, fee) == selection_step(
            selection_run(st, cands, max_count, uniform, fee),
            c,
            max_count,
            uniform,
            fee,
        ),
    decreases cands.len(),
{
    if cands.len() == 0 {
        let e = Seq::<UtxoCandidateModel>::empty();
        assert(cands.push(c).drop_first() =~= e);
        assert(cands.push(c).first() == c);
        assert(selection_run(selection_step(st, c, max_count, uniform, fee), e, max_count, uniform, fee)
            == selection_step(st, c, max_count, uniform, fee));
    } else {
        assert(cands.push(c).first() == cands.first());
        assert(cands.push(c).drop_first() =~= cands.drop_first().push(c));
        lemma_selection_run_snoc(
            selection_step(st, cands.first(), max_count, uniform, fee),
            cands.drop_first(),
            c,
            max_count,
            uniform,
            fee,
        );
    }
}

/// A stopped walk never moves again.
pub proof fn lemma_selection_run_stopped(
    st: SelectionState,
    cands: Seq<UtxoCandidateModel>,
    max_count: int,
    uniform: Option<u64>,
    fee: u64,
)
    requires
        st.stop,
    ensures
        selection_run(st, cands, max_count, uniform, fee) == st,
    decreases cands.len(),
{
    if cands.len() > 0 {
        lemma_selection_run_stopped(st, cands.drop_first(), max_count, uniform, fee);
    }
}

/// Walking a concatenation is walking both halves in turn.
pub proof fn lemma_selection_run_concat(
    st: SelectionState,
    a: Seq<UtxoCandidateModel>,
    b: Seq<UtxoCandidateModel>,
    max_count: int,
    uniform: Option<u64>,
    fee: u64,
)
    ensures
        selection_run(st, a + b, max_count, uniform, fee) == selection_run(
            selection_run(st, a, max_count, uniform, fee),
            b,
            max_count,
            uniform,
            fee,
        ),
    decreases a.len(),
{
    if a.len() == 0 {
        assert(a + b =~= b);
    } else {
        assert((a + b).first() == a.first());
        assert((a + b).drop_first() =~= a.drop_first() + b);
        lemma_selection_run_concat(
            selection_step(st, a.first(), max_count, uniform, fee),
            a.drop_first(),
            b,
            max_count,
            uniform,
            fee,
        );
    }
}

/// Everything the candidate walk guarantees, relative to the input list
/// `base` it started from.
pub open spec fn selection_inv(base: Seq<InputEntryModel>, st: SelectionState, max_count: int) -> bool {
    &&& st.inputs.len() >= base.len()
    &&& st.inputs.take(base.len() as int) == base
    &&& st.count == st.inputs.len() - base.len()
    &&& st.gained == sum_input_values(st.inputs.skip(base.len() as int))
    &&& (st.count <= max_count || st.count == 0)
    &&& (inputs_wf(base) ==> inputs_wf(st.inputs))
    &&& (distinct_outpoints(base) ==> distinct_outpoints(st.inputs))
}

/// The guarantees hold trivially of a freshly started walk.
pub proof fn lemma_selection_init_inv(base: Seq<InputEntryModel>, max_count: int)
    ensures
        selection_inv(base, selection_init(base), max_count),
{
    assert(base.take(base.len() as int) =~= base);
    assert(base.skip(base.len() as int) =~= Seq::<InputEntryModel>::empty());
}

/// One step preserves the walk's guarantees and gathers at most the
/// candidate's value.
proof fn lemma_selection_step_inv(
    base: Seq<InputEntryModel>,
    st: SelectionState,
    c: UtxoCandidateModel,
    max_count: int,
    uniform: Option<u64>,
    fee: u64,
)
    requires
        candidate_wf(c),
        selection_inv(base, st, max_count),
    ensures
        selection_inv(base, selection_step(st, c, max_count, uniform, fee), max_count),
        selection_step(st, c, max_count, uniform, fee).gained <= st.gained + c.txout.value,
        st.gained <= selection_step(st, c, max_count, uniform, fee).gained,
{
    let st2 = selection_step(st, c, max_count, uniform, fee);
    if !(st.stop || st.count >= max_count || spends_outpoint(st.inputs, c.outpoint)) {
        let e = input_of(c);
        assert(spend_value(e) == c.txout.value);
        assert(input_wf(e));
        assert(st2.inputs.take(base.len() as int) =~= base);
        assert(st2.inputs.skip(base.len() as int) =~= st.inputs.skip(base.len() as int).push(e));
        lemma_sum_input_push(st.inputs.skip(base.len() as int), e);
        assert forall|i: int, j: int|
            0 <= i < j < st2.inputs.len() && distinct_outpoints(st.inputs) implies st2.inputs[i].outpoint
            != st2.inputs[j].outpoint by {
            if j == st2.inputs.len() - 1 {
                assert(!spends_outpoint(st.inputs, c.outpoint));
                assert(st.inputs[i].outpoint != c.outpoint);
            }
        }
    }
}

/// The whole walk preserves the guarantees and never gathers more value than
/// the candidates offer.
pub proof fn lemma_selection_run_inv(
    base: Seq<InputEntryModel>,
    st: SelectionState,
    cands: Seq<UtxoCandidateModel>,
    max_count: int,
    uniform: Option<u64>,
    fee: u64,
)
    requires
        forall|i: int| 0 <= i < cands.len() ==> candidate_wf(#[trigger] cands[i]),
        selection_inv(base, st, max_count),
    ensures
        selection_inv(base, selection_run(st, cands, max_count, uniform, fee), max_count),
        selection_run(st, cands, max_count, uniform, fee).gained <= st.gained
            + sum_candidate_values(cands),
        st.gained <= selection_run(st, cands, max_count, uniform, fee).gained,
    decreases cands.len(),
{
    if cands.len() > 0 {
        let st2 = selection_step(st, cands.first(), max_count, uniform, fee);
        lemma_selection_step_inv(base, st, cands.first(), max_count, uniform, fee);
        lemma_selection_run_inv(base, st2, cands.drop_first(), max_count, uniform, fee);
        assert(sum_candidate_values(cands) == sum_candidate_values(cands.drop_first())
            + cands.first().txout.value) by {
            lemma_sum_candidate_first(cands);
        }
    }
}

/// Splitting a candidate sum at the first element.
proof fn lemma_sum_candidate_first(s: Seq<UtxoCandidateModel>)
    requires
        s.len() > 0,
    ensures
        sum_candidate_values(s) == s.first().txout.value + sum_candidate_values(s.drop_first()),
    decreases s.len(),
{
    if s.len() == 1 {
        assert(s.drop_first() =~= Seq::<UtxoCandidateModel>::empty());
        assert(s.drop_last() =~= Seq::<UtxoCandidateModel>::empty());
    } else {
        lemma_sum_candidate_first(s.drop_last());
        assert(s.drop_last().first() == s.first());
        assert(s.drop_last().drop_first() =~= s.drop_first().drop_last());
        assert(s.drop_first().last() == s.last());
    }
}

/// What one contribution does to the accumulator and the wallet, exactly.
///
/// `None` is the insufficient-funds failure: a payer whose gathered value
/// cannot cover its fee, or a uniform-output contribution whose net value
/// cannot cover the fixed amount.  A participant whose walk attaches no coin
/// at all contributes neither input nor output and is not an error.
pub open spec fn contribution_result(
    acc: AccumulatorModel,
    w: ParticipantWalletModel,
    max_count: int,
    uniform: Option<u64>,
    fee: u64,
    payer: bool,
) -> Option<(AccumulatorModel, ParticipantWalletModel)> {
    let st = selection_run(selection_init(acc.inputs), w.utxos, max_count, uniform, fee);
    if st.inputs.len() == acc.inputs.len() {
        Some((acc, w))
    } else if payer && st.gained < fee {
        None
    } else {
        let net = if payer {
            st.gained - fee
        } else {
            st.gained + fee
        };
        let fees_paid = if payer {
            (acc.fees_paid + fee) as u64
        } else {
            acc.fees_paid
        };
        let fees_reimbursed = if payer {
            acc.fees_reimbursed
        } else {
            (acc.fees_reimbursed + fee) as u64
        };
        match uniform {
            Some(a) => {
                if net < a {
                    None
                } else {
                    Some(
                        (
                            AccumulatorModel {
                                inputs: st.inputs,
                                outputs: acc.outputs.push(
                                    TxOutModel { value: a, script: w.scripts[w.revealed] },
                                ).push(
                                    TxOutModel {
                                        value: (net - a) as u64,
                                        script: w.scripts[w.revealed + 1],
                                    },
                                ),
                                locktime: acc.locktime,
                                fees_paid,
                                fees_reimbursed,
                            },
                            ParticipantWalletModel { revealed: w.revealed + 2, ..w },
                        ),
                    )
                }
            },
            None => Some(
                (
                    AccumulatorModel {
                        inputs: st.inputs,
                        outputs: acc.outputs.push(
                            TxOutModel { value: net as u64, script: w.scripts[w.revealed] },
                        ),
                        locktime: acc.locktime,
                        fees_paid,
                        fees_reimbursed,
                    },
                    ParticipantWalletModel { revealed: w.revealed + 1, ..w },
                ),
            ),
        }
    }
}

/// The machine bounds under which one contribution cannot overflow.
pub open spec fn contribution_fits(
    acc: AccumulatorModel,
    w: ParticipantWalletModel,
    fee: u64,
    uniform: Option<u64>,
) -> bool {
    &&& sum_input_values(acc.inputs) + sum_candidate_values(w.utxos) <= u64::MAX
    &&& sum_candidate_values(w.utxos) + fee <= u64::MAX
    &&& acc.fees_paid + fee <= u64::MAX
    &&& acc.fees_reimbursed + fee <= u64::MAX
    &&& (uniform matches Some(a) ==> a + fee <= u64::MAX)
}

/// What a successful contribution guarantees beyond the exact result: the
/// structural invariants are preserved, the fee ledger stays balanced, the
/// existing inputs and outputs are kept unchanged in place, and in
/// uniform-output mode a contribution that attached a coin adds one output
/// of exactly the fixed amount.
pub proof fn lemma_contribution_props(
    acc: AccumulatorModel,
    w: ParticipantWalletModel,
    max_count: int,
    uniform: Option<u64>,
    fee: u64,
    payer: bool,
)
    requires
        w.wf(),
        contribution_fits(acc, w, fee, uniform),
        contribution_result(acc, w, max_count, uniform, fee, payer) is Some,
    ensures
        ({
            let (a2, w2) = contribution_result(acc, w, max_count, uniform, fee, payer)->Some_0;
            &&& acc.wf() ==> a2.wf()
            &&& acc.balanced() ==> a2.balanced()
            &&& a2.locktime == acc.locktime
            &&& a2.inputs.len() >= acc.inputs.len()
            &&& a2.inputs.take(acc.inputs.len() as int) == acc.inputs
            &&& a2.outputs.len() >= acc.outputs.len()
            &&& a2.outputs.take(acc.outputs.len() as int) == acc.outputs
            &&& w2.scripts == w.scripts
            &&& w2.utxos == w.utxos
            &&& w.revealed <= w2.revealed <= w.revealed + 2
            &&& (uniform matches Some(a) ==> (a2.inputs.len() > acc.inputs.len()
                ==> count_outputs_with_value(a2.outputs, a) >= count_outputs_with_value(
                    acc.outputs,
                    a,
                ) + 1))
            &&& (uniform is None && a2.inputs.len() > acc.inputs.len() ==> a2.outputs.len()
                == acc.outputs.len() + 1)
            &&& (a2.inputs.len() == acc.inputs.len() ==> a2 == acc && w2 == w)
            &&& sum_input_values(a2.inputs) <= sum_input_values(acc.inputs)
                + sum_candidate_values(w.utxos)
            &&& sum_input_values(acc.inputs) <= sum_input_values(a2.inputs)
            &&& acc.fees_paid <= a2.fees_paid <= acc.fees_paid + fee
            &&& acc.fees_reimbursed <= a2.fees_reimbursed <= acc.fees_reimbursed + fee
            &&& (!payer ==> a2.fees_paid == acc.fees_paid)
            &&& (payer ==> a2.fees_reimbursed == acc.fees_reimbursed)
            &&& (max_count >= 0 ==> a2.inputs.len() <= acc.inputs.len() + max_count)
        }),
{
    let st = selection_run(selection_init(acc.inputs), w.utxos, max_count, uniform, fee);
    lemma_selection_init_inv(acc.inputs, max_count);
    lemma_selection_run_inv(
        acc.inputs,
        selection_init(acc.inputs),
        w.utxos,
        max_count,
        uniform,
        fee,
    );
    let r = contribution_result(acc, w, max_count, uniform, fee, payer);
    let (a2, w2) = r->Some_0;
    if st.inputs.len() == acc.inputs.len() {
        assert(acc.inputs.take(acc.inputs.len() as int) =~= acc.inputs);
        assert(acc.outputs.take(acc.outputs.len() as int) =~= acc.outputs);
    } else {
        assert(st.gained <= sum_candidate_values(w.utxos));
        assert(sum_input_values(a2.inputs) == sum_input_values(acc.inputs) + st.gained) by {
            assert(a2.inputs =~= acc.inputs + a2.inputs.skip(acc.inputs.len() as int));
            crate::model::lemma_sum_input_concat(
                acc.inputs,
                a2.inputs.skip(acc.inputs.len() as int),
            );
        }
        let net = if payer {
            st.gained - fee
        } else {
            st.gained + fee
        };
        match uniform {
            Some(a) => {
                let o1 = TxOutModel { value: a, script: w.scripts[w.revealed] };
                let o2 = TxOutModel { value: (net - a) as u64, script: w.scripts[w.revealed + 1] };
                lemma_sum_output_push(acc.outputs, o1);
                lemma_sum_output_push(acc.outputs.push(o1), o2);
                lemma_count_push(acc.outputs, o1, a);
                lemma_count_push(acc.outputs.push(o1), o2, a);
                assert(a2.outputs.take(acc.outputs.len() as int) =~= acc.outputs);
            },
            None => {
                let o1 = TxOutModel { value: net as u64, script: w.scripts[w.revealed] };
                lemma_sum_output_push(acc.outputs, o1);
                assert(a2.outputs.take(acc.outputs.len() as int) =~= acc.outputs);
            },
        }
    }
}

/// Deep copy of a script.
pub fn copy_bytes(v: &Vec<u8>) -> (r: Vec<u8>)
    ensures
        r@ == v@,
{
    vstd::slice::slice_to_vec(v.as_slice())
}

/// Deep copy of a transaction output.
pub fn copy_tx_out(o: &TxOut) -> (r: TxOut)
    ensures
        r@ == o@,
{
    TxOut { value: o.value, script: copy_bytes(&o.script) }
}

/// Deep copy of a funding transaction.
pub fn copy_funding_tx(tx: &FundingTx) -> (r: FundingTx)
    ensures
        r@ == tx@,
{
    let n = tx.outputs.len();
    let mut outputs: Vec<TxOut> = Vec::new();
    let mut i: usize = 0;
    while i < n
        invariant
            0 <= i <= n,
            n == tx.outputs.len(),
            outputs@.len() == i,
            forall|k: int| 0 <= k < i ==> outputs@[k]@ == tx@.outputs[k],
        decreases n - i,
    {
        outputs.push(copy_tx_out(&tx.outputs[i]));
        i += 1;
    }
    let r = FundingTx { txid: tx.txid, outputs };
    proof {
        assert(r@.outputs =~= tx@.outputs);
    }
    r
}

/// Deep copy of a candidate coin.
pub fn copy_candidate(c: &UtxoCandidate) -> (r: UtxoCandidate)
    ensures
        r@ == c@,
{
    UtxoCandidate {
        outpoint: c.outpoint,
        txout: copy_tx_out(&c.txout),
        funding: copy_funding_tx(&c.funding),
    }
}

/// Deep copy of a candidate list.
pub fn copy_candidates(v: &Vec<UtxoCandidate>) -> (r: Vec<UtxoCandidate>)
    ensures
        r@.map_values(|c: UtxoCandidate| c@) == v@.map_values(|c: UtxoCandidate| c@),
{
    let n = v.len();
    let mut out: Vec<UtxoCandidate> = Vec::new();
    let mut i: usize = 0;
    while i < n
        invariant
            0 <= i <= n,
            n == v.len(),
            out@.len() == i,
            forall|k: int| 0 <= k < i ==> out@[k]@ == v@[k]@,
        decreases n - i,
    {
        out.push(copy_candidate(&v[i]));
        i += 1;
    }
    proof {
        assert(out@.map_values(|c: UtxoCandidate| c@) =~= v@.map_values(|c: UtxoCandidate| c@));
    }
    out
}

/// Build one participant's contribution and append it to the accumulator.
///
/// Walks the wallet's candidates in order, skipping coins the accumulator
/// already spends; attaches each remaining coin with its funding transaction
/// while there is room under the count cap — never more than `max_count`
/// coins — stopping early in uniform-output mode once the gathered value
/// covers `amount + fee`; then appends the outputs carrying the
/// participant's net position (the uniform output first, if any, then the
/// change) to freshly revealed scripts, and records the fee obligation in
/// the ledger.  A participant with no eligible coin contributes nothing and
/// succeeds.
///
/// Fails with `InsufficientFunds` exactly when [`contribution_result`] has
/// no value: a payer that cannot cover its fee, or a uniform contribution
/// that cannot cover the fixed amount.
pub fn add_contribution(
    acc: Accumulator,
    wallet: ParticipantWallet,
    max_count: u16,
    uniform_amount: Option<u64>,
    fee: u64,
    payer: bool,
) -> (r: Result<(Accumulator, ParticipantWallet), BatchError>)
    requires
        wallet@.wf(),
        contribution_fits(acc@, wallet@, fee, uniform_amount),
        wallet@.scripts_left() >= if uniform_amount is Some {
            2int
        } else {
            1int
        },
    ensures
        r matches Ok(p) ==> contribution_result(
            acc@,
            wallet@,
            max_count as int,
            uniform_amount,
            fee,
            payer,
        ) == Some((p.0@, p.1@)),
        r matches Ok(p) ==> p.0@.inputs.len() <= acc@.inputs.len() + max_count,
        r matches Err(e) ==> {
            &&& contribution_result(acc@, wallet@, max_count as int, uniform_amount, fee, payer)
                is None
            &&& e == BatchError::InsufficientFunds
        },
{
    let ghost acc0 = acc@;
    let ghost w0 = wallet@;
    let mut acc = acc;
    let mut wallet = wallet;
    let n = wallet.utxos.len();
    let mut gained: u64 = 0;
    let mut count: u16 = 0;
    let mut stop: bool = false;
    let mut i: usize = 0;
    while i < n && !stop
        invariant
            0 <= i <= n,
            n == wallet.utxos.len(),
            wallet@ == w0,
            w0.wf(),
            contribution_fits(acc0, w0, fee, uniform_amount),
            acc.locktime == acc0.locktime,
            acc.fees_paid == acc0.fees_paid,
            acc.fees_reimbursed == acc0.fees_reimbursed,
            acc@.outputs == acc0.outputs,
            ({
                let st = selection_run(
                    selection_init(acc0.inputs),
                    w0.utxos.take(i as int),
                    max_count as int,
                    uniform_amount,
                    fee,
                );
                &&& acc@.inputs == st.inputs
                &&& gained == st.gained
                &&& count == st.count
                &&& stop == st.stop
                &&& st.gained <= sum_candidate_values(w0.utxos.take(i as int))
            }),
            count <= max_count,
        decreases n - i,
    {
        let ghost st_pre = selection_run(
            selection_init(acc0.inputs),
            w0.utxos.take(i as int),
            max_count as int,
            uniform_amount,
            fee,
        );
        proof {
            assert(w0.utxos.take(i + 1) =~= w0.utxos.take(i as int).push(w0.utxos[i as int]));
            lemma_selection_run_snoc(
                selection_init(acc0.inputs),
                w0.utxos.take(i as int),
                w0.utxos[i as int],
                max_count as int,
                uniform_amount,
                fee,
            );
            lemma_sum_candidate_prefix_bound(w0.utxos, i + 1);
            assert(sum_candidate_values(w0.utxos.take(i + 1)) == sum_candidate_values(
                w0.utxos.take(i as int),
            ) + w0.utxos[i as int].txout.value) by {
                assert(w0.utxos.take(i + 1).drop_last() =~= w0.utxos.take(i as int));
            }
        }
        if count < max_count {
            let already = acc.contains_outpoint(wallet.utxos[i].outpoint);
            if !already {
                let entry = InputEntry {
                    outpoint: wallet.utxos[i].outpoint,
                    proof: ProofOfFunds::Full(copy_funding_tx(&wallet.utxos[i].funding)),
                };
                assert(entry@ == input_of(w0.utxos[i as int]));
                acc.inputs.push(entry);
                proof {
                    assert(acc@.inputs =~= st_pre.inputs.push(input_of(w0.utxos[i as int])));
                }
                assert(sum_candidate_values(w0.utxos) + fee <= u64::MAX);
                gained = gained + wallet.utxos[i].txout.value;
                count = count + 1;
                let mut hit: bool = count >= max_count;
                if let Some(a) = uniform_amount {
                    if gained >= a + fee {
                        hit = true;
                    }
                }
                stop = hit;
            }
        }
        i += 1;
    }
    // The walk over the full candidate list is the walk we just performed:
    // either every candidate was considered, or the walk stopped and the
    // remaining candidates change nothing.
    let ghost st = selection_run(
        selection_init(acc0.inputs),
        w0.utxos,
        max_count as int,
        uniform_amount,
        fee,
    );
    proof {
        assert(w0.utxos =~= w0.utxos.take(i as int) + w0.utxos.skip(i as int));
        lemma_selection_run_concat(
            selection_init(acc0.inputs),
            w0.utxos.take(i as int),
            w0.utxos.skip(i as int),
            max_count as int,
            uniform_amount,
            fee,
        );
        if stop {
            lemma_selection_run_stopped(
                selection_run(
                    selection_init(acc0.inputs),
                    w0.utxos.take(i as int),
                    max_count as int,
                    uniform_amount,
                    fee,
                ),
                w0.utxos.skip(i as int),
                max_count as int,
                uniform_amount,
                fee,
            );
        } else {
            assert(w0.utxos.take(i as int) =~= w0.utxos);
        }
        lemma_selection_init_inv(acc0.inputs, max_count as int);
        lemma_selection_run_inv(
            acc0.inputs,
            selection_init(acc0.inputs),
            w0.utxos,
            max_count as int,
            uniform_amount,
            fee,
        );
    }
    if count == 0 {
        assert(st.inputs.len() == acc0.inputs.len());
        proof {
            assert(acc@.inputs =~= acc0.inputs);
        }
        return Ok((acc, wallet));
    }
    assert(st.inputs.len() > acc0.inputs.len());
    if payer && gained < fee {
        return Err(BatchError::InsufficientFunds);
    }
    let net: u64 = if payer {
        gained - fee
    } else {
        gained + fee
    };
    match uniform_amount {
        Some(a) => {
            if net < a {
                return Err(BatchError::InsufficientFunds);
            }
            let s1 = wallet.reveal_next_script();
            acc.outputs.push(TxOut { value: a, script: s1 });
            let s2 = wallet.reveal_next_script();
            acc.outputs.push(TxOut { value: net - a, script: s2 });
            proof {
                assert(acc@.outputs =~= acc0.outputs.push(
                    TxOutModel { value: a, script: w0.scripts[w0.revealed] },
                ).push(
                    TxOutModel {
                        value: (net - a) as u64,
                        script: w0.scripts[w0.revealed + 1],
                    },
                ));
            }
        },
        None => {
            let s1 = wallet.reveal_next_script();
            acc.outputs.push(TxOut { value: net, script: s1 });
            proof {
                assert(acc@.outputs =~= acc0.outputs.push(
                    TxOutModel { value: net as u64, script: w0.scripts[w0.revealed] },
                ));
            }
        },
    }
    if payer {
        acc.fees_paid = acc.fees_paid + fee;
    } else {
        acc.fees_reimbursed = acc.fees_reimbursed + fee;
    }
    Ok((acc, wallet))
}

} // verus!
