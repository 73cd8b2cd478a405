//! The data model: outpoints, transaction outputs, proof-of-funds metadata,
//! and the accumulator (the batch transaction under construction).
//!
//! Every executable type has a mathematical model (`...Model`) reached through
//! its view `@`; all contracts in the crate are stated over these models.

use vstd::prelude::*;

verus! {

/// Identity of a transaction, as four 64-bit words of its 256-bit id.
#[derive(Clone, Copy, Debug, PartialEq, Eq, Structural)]
pub struct Txid {
    pub w0: u64,
    pub w1: u64,
    pub w2: u64,
    pub w3: u64,
}

/// Global identity of a spendable coin: the transaction that minted it plus
/// the index of the minted output.  Immutable once minted.
#[derive(Clone, Copy, Debug, PartialEq, Eq, Structural)]
pub struct Outpoint {
    pub txid: Txid,
    pub vout: u32,
}

/// A transaction output: a value and the script that restricts spending it.
#[derive(Clone, Debug)]
pub struct TxOut {
    pub value: u64,
    pub script: Vec<u8>,
}

/// Mathematical model of a [`TxOut`].
pub struct TxOutModel {
    pub value: u64,
    pub script: Seq<u8>,
}

impl View for TxOut {
    type V = TxOutModel;

    open spec fn view(&self) -> TxOutModel {
        TxOutModel { value: self.value, script: self.script@ }
    }
}

/// A funding transaction attached as proof of funds: its id and its outputs.
#[derive(Clone, Debug)]
pub struct FundingTx {
    pub txid: Txid,
    pub outputs: Vec<TxOut>,
}

/// Mathematical model of a [`FundingTx`].
pub struct FundingTxModel {
    pub txid: Txid,
    pub outputs: Seq<TxOutModel>,
}

impl View for FundingTx {
    type V = FundingTxModel;

    open spec fn view(&self) -> FundingTxModel {
        FundingTxModel { txid: self.txid, outputs: self.outputs@.map_values(|o: TxOut| o@) }
    }
}

/// Proof-of-funds metadata carried with each accumulator input: either the
/// full funding transaction or a witness-only value/script pair.
#[derive(Clone, Debug)]
pub enum ProofOfFunds {
    Full(FundingTx),
    Witness(TxOut),
}

/// Mathematical model of a [`ProofOfFunds`].
pub enum ProofOfFundsModel {
    Full(FundingTxModel),
    Witness(TxOutModel),
}

impl View for ProofOfFunds {
    type V = ProofOfFundsModel;

    open spec fn view(&self) -> ProofOfFundsModel {
        match self {
            ProofOfFunds::Full(tx) => ProofOfFundsModel::Full(tx@),
            ProofOfFunds::Witness(o) => ProofOfFundsModel::Witness(o@),
        }
    }
}

/// One input of the accumulator: the outpoint it spends plus its
/// proof-of-funds metadata.
#[derive(Clone, Debug)]
pub struct InputEntry {
    pub outpoint: Outpoint,
    pub proof: ProofOfFunds,
}

/// Mathematical model of an [`InputEntry`].
pub struct InputEntryModel {
    pub outpoint: Outpoint,
    pub proof: ProofOfFundsModel,
}

impl View for InputEntry {
    type V = InputEntryModel;

    open spec fn view(&self) -> InputEntryModel {
        InputEntryModel { outpoint: self.outpoint, proof: self.proof@ }
    }
}

/// The batch transaction under construction: an unsigned transaction skeleton
/// (ordered inputs, ordered outputs, locktime) plus the fee ledger.
///
/// The ledger records value paid into the shared fee pot (`fees_paid`: seed
/// surplus and payer-role contributions) and value promised back out of it
/// (`fees_reimbursed`: non-payer reimbursements).  Every operation of the
/// crate preserves [`balanced`] and [`distinct_outpoints`] over the inputs.
#[derive(Clone, Debug)]
pub struct Accumulator {
    pub inputs: Vec<InputEntry>,
    pub outputs: Vec<TxOut>,
    pub locktime: u32,
    pub fees_paid: u64,
    pub fees_reimbursed: u64,
}

/// Mathematical model of an [`Accumulator`].
pub struct AccumulatorModel {
    pub inputs: Seq<InputEntryModel>,
    pub outputs: Seq<TxOutModel>,
    pub locktime: u32,
    pub fees_paid: u64,
    pub fees_reimbursed: u64,
}

impl View for Accumulator {
    type V = AccumulatorModel;

    open spec fn view(&self) -> AccumulatorModel {
        AccumulatorModel {
            inputs: self.inputs@.map_values(|i: InputEntry| i@),
            outputs: self.outputs@.map_values(|o: TxOut| o@),
            locktime: self.locktime,
            fees_paid: self.fees_paid,
            fees_reimbursed: self.fees_reimbursed,
        }
    }
}

/// The value an input makes spendable: the value of the funding output its
/// outpoint refers to, or the claimed value of a witness-only proof.  An
/// out-of-range reference contributes nothing.
pub open spec fn spend_value(entry: InputEntryModel) -> int {
    match entry.proof {
        ProofOfFundsModel::Full(tx) => {
            if entry.outpoint.vout < tx.outputs.len() {
                tx.outputs[entry.outpoint.vout as int].value as int
            } else {
                0
            }
        },
        ProofOfFundsModel::Witness(o) => o.value as int,
    }
}

/// An input entry is well formed when its proof of funds really speaks about
/// the outpoint it is attached to.
pub open spec fn input_wf(entry: InputEntryModel) -> bool {
    match entry.proof {
        ProofOfFundsModel::Full(tx) => {
            &&& tx.txid == entry.outpoint.txid
            &&& entry.outpoint.vout < tx.outputs.len()
        },
        ProofOfFundsModel::Witness(_) => true,
    }
}

/// Total value made spendable by a sequence of inputs.
pub open spec fn sum_input_values(s: Seq<InputEntryModel>) -> int
    decreases s.len(),
{
    if s.len() == 0 {
        0
    } else {
        sum_input_values(s.drop_last()) + spend_value(s.last())
    }
}

/// Total value carried by a sequence of outputs.
pub open spec fn sum_output_values(s: Seq<TxOutModel>) -> int
    decreases s.len(),
{
    if s.len() == 0 {
        0
    } else {
        sum_output_values(s.drop_last()) + s.last().value
    }
}

/// How many outputs of the sequence carry exactly the given value.
pub open spec fn count_outputs_with_value(s: Seq<TxOutModel>, value: u64) -> int
    decreases s.len(),
{
    if s.len() == 0 {
        0
    } else {
        count_outputs_with_value(s.drop_last(), value) + if s.last().value == value {
            1int
        } else {
            0int
        }
    }
}

/// The outpoints spent by a sequence of inputs, in order.
pub open spec fn outpoints_of(s: Seq<InputEntryModel>) -> Seq<Outpoint> {
    s.map_values(|e: InputEntryModel| e.outpoint)
}

/// Whether some input of the sequence already spends the given outpoint.
/// This is the question the dedup guard answers.
pub open spec fn spends_outpoint(s: Seq<InputEntryModel>, op: Outpoint) -> bool {
    exists|i: int| 0 <= i < s.len() && s[i].outpoint == op
}

/// No two inputs of the sequence spend the same outpoint.
pub open spec fn distinct_outpoints(s: Seq<InputEntryModel>) -> bool {
    forall|i: int, j: int| 0 <= i < j < s.len() ==> s[i].outpoint != s[j].outpoint
}

/// All inputs of the accumulator are well formed.
pub open spec fn inputs_wf(s: Seq<InputEntryModel>) -> bool {
    forall|i: int| 0 <= i < s.len() ==> input_wf(#[trigger] s[i])
}

impl AccumulatorModel {
    /// The fee-ledger invariant: value in plus promised reimbursements equals
    /// value out plus value paid into the pot.  Equivalently, the inputs
    /// exceed the outputs by exactly the net fee the initiator has collected.
    pub open spec fn balanced(self) -> bool {
        sum_input_values(self.inputs) + self.fees_reimbursed == sum_output_values(self.outputs)
            + self.fees_paid
    }

    /// Structural well-formedness: proofs of funds match their outpoints and
    /// no outpoint is spent twice.
    pub open spec fn wf(self) -> bool {
        &&& inputs_wf(self.inputs)
        &&& distinct_outpoints(self.inputs)
    }

    /// The net fee the initiator has collected so far.
    pub open spec fn net_fee(self) -> int {
        self.fees_paid - self.fees_reimbursed
    }
}

/// Appending an input grows the input-value sum by the value it spends.
pub proof fn lemma_sum_input_push(s: Seq<InputEntryModel>, e: InputEntryModel)
    ensures
        sum_input_values(s.push(e)) == sum_input_values(s) + spend_value(e),
{
    assert(s.push(e).drop_last() =~= s);
}

/// Appending an output grows the output-value sum by its value.
pub proof fn lemma_sum_output_push(s: Seq<TxOutModel>, o: TxOutModel)
    ensures
        sum_output_values(s.push(o)) == sum_output_values(s) + o.value,
{
    assert(s.push(o).drop_last() =~= s);
}

/// Appending an output changes the count of a value by one exactly when the
/// output carries that value.
pub proof fn lemma_count_push(s: Seq<TxOutModel>, o: TxOutModel, value: u64)
    ensures
        count_outputs_with_value(s.push(o), value) == count_outputs_with_value(s, value) + if o.value
            == value {
            1int
        } else {
            0int
        },
{
    assert(s.push(o).drop_last() =~= s);
}

/// Input-value sums add up over concatenation.
pub proof fn lemma_sum_input_concat(a: Seq<InputEntryModel>, b: Seq<InputEntryModel>)
    ensures
        sum_input_values(a + b) == sum_input_values(a) + sum_input_values(b),
    decreases b.len(),
{
    if b.len() == 0 {
        assert(a + b =~= a);
    } else {
        lemma_sum_input_concat(a, b.drop_last());
        assert((a + b).drop_last() =~= a + b.drop_last());
        assert((a + b).last() == b.last());
    }
}

/// Output-value sums add up over concatenation.
pub proof fn lemma_sum_output_concat(a: Seq<TxOutModel>, b: Seq<TxOutModel>)
    ensures
        sum_output_values(a + b) == sum_output_values(a) + sum_output_values(b),
    decreases b.len(),
{
    if b.len() == 0 {
        assert(a + b =~= a);
    } else {
        lemma_sum_output_concat(a, b.drop_last());
        assert((a + b).drop_last() =~= a + b.drop_last());
        assert((a + b).last() == b.last());
    }
}

/// Counts of a value add up over concatenation.
pub proof fn lemma_count_concat(a: Seq<TxOutModel>, b: Seq<TxOutModel>, value: u64)
    ensures
        count_outputs_with_value(a + b, value) == count_outputs_with_value(a, value)
            + count_outputs_with_value(b, value),
    decreases b.len(),
{
    if b.len() == 0 {
        assert(a + b =~= a);
    } else {
        lemma_count_concat(a, b.drop_last(), value);
        assert((a + b).drop_last() =~= a + b.drop_last());
        assert((a + b).last() == b.last());
    }
}

/// The fee-balance law: for every balanced accumulator the total input value
/// equals the total output value plus the net fee collected by the
/// initiator, exactly.  Every operation of this crate that builds or extends
/// an accumulator states in its contract that it preserves `balanced`, so
/// this holds of every completed accumulator, whichever strategy produced it.
pub proof fn lemma_fee_balance(m: AccumulatorModel)
    requires
        m.balanced(),
    ensures
        sum_input_values(m.inputs) == sum_output_values(m.outputs) + m.net_fee(),
{
}

impl Accumulator {
    /// The dedup guard: does some existing input already spend `op`?
    /// Pure; linear in the number of inputs.
    pub fn contains_outpoint(&self, op: Outpoint) -> (r: bool)
        ensures
            r == spends_outpoint(self@.inputs, op),
    {
        let n = self.inputs.len();
        let mut i: usize = 0;
        while i < n
            invariant
                0 <= i <= n,
                n == self.inputs.len(),
                forall|k: int| 0 <= k < i ==> self@.inputs[k].outpoint != op,
            decreases n - i,
        {
            if self.inputs[i].outpoint == op {
                assert(self@.inputs[i as int].outpoint == op);
                return true;
            }
            i += 1;
        }
        false
    }

    /// Total value made spendable by the accumulator's inputs.
    pub fn total_input_value(&self) -> (r: u64)
        requires
            sum_input_values(self@.inputs) <= u64::MAX,
        ensures
            r == sum_input_values(self@.inputs),
    {
        let n = self.inputs.len();
        let mut total: u64 = 0;
        let mut i: usize = 0;
        while i < n
            invariant
                0 <= i <= n,
                n == self.inputs.len(),
                sum_input_values(self@.inputs) <= u64::MAX,
                total == sum_input_values(self@.inputs.take(i as int)),
            decreases n - i,
        {
            let entry = &self.inputs[i];
            let v: u64 = match &entry.proof {
                ProofOfFunds::Full(tx) => {
                    if (entry.outpoint.vout as usize) < tx.outputs.len() {
                        tx.outputs[entry.outpoint.vout as usize].value
                    } else {
                        0
                    }
                },
                ProofOfFunds::Witness(o) => o.value,
            };
            assert(v == spend_value(self@.inputs[i as int]));
            proof {
                assert(self@.inputs.take(i + 1) =~= self@.inputs.take(i as int).push(
                    self@.inputs[i as int],
                ));
                lemma_sum_input_push(self@.inputs.take(i as int), self@.inputs[i as int]);
                lemma_sum_input_prefix_bound(self@.inputs, i + 1);
            }
            total = total + v;
            i += 1;
        }
        proof {
            assert(self@.inputs.take(n as int) =~= self@.inputs);
        }
        total
    }

    /// Total value carried by the accumulator's outputs.
    pub fn total_output_value(&self) -> (r: u64)
        requires
            sum_output_values(self@.outputs) <= u64::MAX,
        ensures
            r == sum_output_values(self@.outputs),
    {
        let n = self.outputs.len();
        let mut total: u64 = 0;
        let mut i: usize = 0;
        while i < n
            invariant
                0 <= i <= n,
                n == self.outputs.len(),
                sum_output_values(self@.outputs) <= u64::MAX,
                total == sum_output_values(self@.outputs.take(i as int)),
            decreases n - i,
        {
            let v = self.outputs[i].value;
            assert(v == self@.outputs[i as int].value);
            proof {
                assert(self@.outputs.take(i + 1) =~= self@.outputs.take(i as int).push(
                    self@.outputs[i as int],
                ));
                lemma_sum_output_push(self@.outputs.take(i as int), self@.outputs[i as int]);
                lemma_sum_output_prefix_bound(self@.outputs, i + 1);
            }
            total = total + v;
            i += 1;
        }
        proof {
            assert(self@.outputs.take(n as int) =~= self@.outputs);
        }
        total
    }

    /// How many outputs carry exactly `value`.  This is what the
    /// denomination-uniformity property of the uniform-output strategy is
    /// checked with.
    pub fn count_outputs_of_value(&self, value: u64) -> (r: usize)
        ensures
            r == count_outputs_with_value(self@.outputs, value),
    {
        let n = self.outputs.len();
        let mut count: usize = 0;
        let mut i: usize = 0;
        while i < n
            invariant
                0 <= i <= n,
                n == self.outputs.len(),
                count == count_outputs_with_value(self@.outputs.take(i as int), value),
                count <= i,
            decreases n - i,
        {
            proof {
                assert(self@.outputs.take(i + 1) =~= self@.outputs.take(i as int).push(
                    self@.outputs[i as int],
                ));
                lemma_count_push(self@.outputs.take(i as int), self@.outputs[i as int], value);
            }
            if self.outputs[i].value == value {
                count += 1;
            }
            i += 1;
        }
        proof {
            assert(self@.outputs.take(n as int) =~= self@.outputs);
        }
        count
    }
}

/// The spendable value claimed by witness-only proofs alone.
pub open spec fn sum_witness_values(s: Seq<InputEntryModel>) -> int
    decreases s.len(),
{
    if s.len() == 0 {
        0
    } else {
        sum_witness_values(s.drop_last()) + match s.last().proof {
            ProofOfFundsModel::Witness(_) => spend_value(s.last()),
            ProofOfFundsModel::Full(_) => 0,
        }
    }
}

/// The spendable value backed by full funding transactions alone.
pub open spec fn sum_full_values(s: Seq<InputEntryModel>) -> int
    decreases s.len(),
{
    if s.len() == 0 {
        0
    } else {
        sum_full_values(s.drop_last()) + match s.last().proof {
            ProofOfFundsModel::Full(_) => spend_value(s.last()),
            ProofOfFundsModel::Witness(_) => 0,
        }
    }
}

/// The two kinds of proof split the total input value between them.
pub proof fn lemma_input_value_split(s: Seq<InputEntryModel>)
    ensures
        sum_witness_values(s) + sum_full_values(s) == sum_input_values(s),
    decreases s.len(),
{
    if s.len() > 0 {
        lemma_input_value_split(s.drop_last());
    }
}

impl Accumulator {
    /// The input value split by proof kind: what witness-only proofs claim
    /// and what full funding transactions back, in that order.
    pub fn input_value_split(&self) -> (r: (u64, u64))
        requires
            sum_input_values(self@.inputs) <= u64::MAX,
        ensures
            r.0 == sum_witness_values(self@.inputs),
            r.1 == sum_full_values(self@.inputs),
    {
        let n = self.inputs.len();
        let mut witness_total: u64 = 0;
        let mut full_total: u64 = 0;
        let mut i: usize = 0;
        proof {
            lemma_split_prefix_bound(self@.inputs, 0);
        }
        while i < n
            invariant
                0 <= i <= n,
                n == self.inputs.len(),
                sum_input_values(self@.inputs) <= u64::MAX,
                witness_total == sum_witness_values(self@.inputs.take(i as int)),
                full_total == sum_full_values(self@.inputs.take(i as int)),
            decreases n - i,
        {
            let entry = &self.inputs[i];
            proof {
                assert(self@.inputs.take(i + 1).drop_last() =~= self@.inputs.take(i as int));
                assert(self@.inputs.take(i + 1).last() == self@.inputs[i as int]);
                lemma_split_prefix_bound(self@.inputs, i + 1);
                lemma_input_value_split(self@.inputs.take(i + 1));
            }
            match &entry.proof {
                ProofOfFunds::Witness(o) => {
                    witness_total = witness_total + o.value;
                },
                ProofOfFunds::Full(tx) => {
                    let v: u64 = if (entry.outpoint.vout as usize) < tx.outputs.len() {
                        tx.outputs[entry.outpoint.vout as usize].value
                    } else {
                        0
                    };
                    assert(v == spend_value(self@.inputs[i as int]));
                    full_total = full_total + v;
                },
            }
            i += 1;
        }
        proof {
            assert(self@.inputs.take(n as int) =~= self@.inputs);
        }
        (witness_total, full_total)
    }
}

/// Both partial sums stay within the total.
proof fn lemma_split_prefix_bound(s: Seq<InputEntryModel>, i: int)
    requires
        0 <= i <= s.len(),
    ensures
        0 <= sum_witness_values(s.take(i)),
        0 <= sum_full_values(s.take(i)),
        sum_witness_values(s.take(i)) + sum_full_values(s.take(i)) <= sum_input_values(s),
{
    lemma_split_nonneg(s.take(i));
    lemma_input_value_split(s.take(i));
    lemma_sum_input_prefix_bound(s, i);
}

/// The partial sums are never negative.
proof fn lemma_split_nonneg(s: Seq<InputEntryModel>)
    ensures
        sum_witness_values(s) >= 0,
        sum_full_values(s) >= 0,
    decreases s.len(),
{
    if s.len() > 0 {
        lemma_split_nonneg(s.drop_last());
    }
}

/// Every value is non-negative, so a prefix sum never exceeds the whole.
pub proof fn lemma_sum_input_prefix_bound(s: Seq<InputEntryModel>, i: int)
    requires
        0 <= i <= s.len(),
    ensures
        sum_input_values(s.take(i)) <= sum_input_values(s),
        sum_input_values(s.take(i)) >= 0,
    decreases s.len() - i,
{
    lemma_sum_input_nonneg(s.take(i));
    if i == s.len() {
        assert(s.take(i) =~= s);
    } else {
        assert(s.take(i + 1).drop_last() =~= s.take(i));
        assert(s.take(i + 1).last() == s[i]);
        lemma_sum_input_prefix_bound(s, i + 1);
    }
}

/// Input-value sums are never negative.
pub proof fn lemma_sum_input_nonneg(s: Seq<InputEntryModel>)
    ensures
        sum_input_values(s) >= 0,
    decreases s.len(),
{
    if s.len() > 0 {
        lemma_sum_input_nonneg(s.drop_last());
    }
}

/// Every value is non-negative, so a prefix sum never exceeds the whole.
pub proof fn lemma_sum_output_prefix_bound(s: Seq<TxOutModel>, i: int)
    requires
        0 <= i <= s.len(),
    ensures
        sum_output_values(s.take(i)) <= sum_output_values(s),
        sum_output_values(s.take(i)) >= 0,
    decreases s.len() - i,
{
    lemma_sum_output_nonneg(s.take(i));
    if i == s.len() {
        assert(s.take(i) =~= s);
    } else {
        assert(s.take(i + 1).drop_last() =~= s.take(i));
        assert(s.take(i + 1).last() == s[i]);
        lemma_sum_output_prefix_bound(s, i + 1);
    }
}

/// Output-value sums are never negative.
pub proof fn lemma_sum_output_nonneg(s: Seq<TxOutModel>)
    ensures
        sum_output_values(s) >= 0,
    decreases s.len(),
{
    if s.len() > 0 {
        lemma_sum_output_nonneg(s.drop_last());
    }
}

} // verus!
