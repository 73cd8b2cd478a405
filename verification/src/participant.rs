//! The participant model: the view of one wallet that the engine consumes.
//!
//! A participant supplies an ordered list of spendable coins, each paired
//! with the transaction that produced it, and a supply of fresh output
//! scripts revealed one at a time through a monotonically advancing cursor.

use vstd::prelude::*;

use crate::model::{FundingTx, FundingTxModel, Outpoint, TxOut, TxOutModel};

verus! {

/// One unspent output a participant can contribute: its outpoint, its value
/// and spending script, and the full transaction that produced it (attached
/// to the accumulator as proof of funds).
#[derive(Clone, Debug)]
pub struct UtxoCandidate {
    pub outpoint: Outpoint,
    pub txout: TxOut,
    pub funding: FundingTx,
}

/// Mathematical model of a [`UtxoCandidate`].
pub struct UtxoCandidateModel {
    pub outpoint: Outpoint,
    pub txout: TxOutModel,
    pub funding: FundingTxModel,
}

impl View for UtxoCandidate {
    type V = UtxoCandidateModel;

    open spec fn view(&self) -> UtxoCandidateModel {
        UtxoCandidateModel { outpoint: self.outpoint, txout: self.txout@, funding: self.funding@ }
    }
}

/// A candidate is well formed when the attached funding transaction really
/// produced it: same transaction id, an output index in range, and a value
/// and script that agree with the funding output.
pub open spec fn candidate_wf(c: UtxoCandidateModel) -> bool {
    &&& c.funding.txid == c.outpoint.txid
    &&& c.outpoint.vout < c.funding.outputs.len()
    &&& c.funding.outputs[c.outpoint.vout as int].value == c.txout.value
    &&& c.funding.outputs[c.outpoint.vout as int].script == c.txout.script
}

/// Total value of a sequence of candidates.
pub open spec fn sum_candidate_values(s: Seq<UtxoCandidateModel>) -> int
    decreases s.len(),
{
    if s.len() == 0 {
        0
    } else {
        sum_candidate_values(s.drop_last()) + s.last().txout.value
    }
}

/// Candidate-value sums are never negative.
pub proof fn lemma_sum_candidate_nonneg(s: Seq<UtxoCandidateModel>)
    ensures
        sum_candidate_values(s) >= 0,
    decreases s.len(),
{
    if s.len() > 0 {
        lemma_sum_candidate_nonneg(s.drop_last());
    }
}

/// A prefix of candidates never sums to more than the whole sequence.
pub proof fn lemma_sum_candidate_prefix_bound(s: Seq<UtxoCandidateModel>, i: int)
    requires
        0 <= i <= s.len(),
    ensures
        sum_candidate_values(s.take(i)) <= sum_candidate_values(s),
        sum_candidate_values(s.take(i)) >= 0,
    decreases s.len() - i,
{
    lemma_sum_candidate_nonneg(s.take(i));
    if i == s.len() {
        assert(s.take(i) =~= s);
    } else {
        assert(s.take(i + 1).drop_last() =~= s.take(i));
        assert(s.take(i + 1).last() == s[i]);
        lemma_sum_candidate_prefix_bound(s, i + 1);
    }
}

/// Candidate-value sums add up over concatenation.
pub proof fn lemma_sum_candidate_concat(a: Seq<UtxoCandidateModel>, b: Seq<UtxoCandidateModel>)
    ensures
        sum_candidate_values(a + b) == sum_candidate_values(a) + sum_candidate_values(b),
    decreases b.len(),
{
    if b.len() == 0 {
        assert(a + b =~= a);
    } else {
        lemma_sum_candidate_concat(a, b.drop_last());
        assert((a + b).drop_last() =~= a + b.drop_last());
        assert((a + b).last() == b.last());
    }
}

/// What the engine sees of one wallet: candidate coins in the order the
/// wallet supplies them (stable for a fixed wallet state), fresh output
/// scripts in derivation order, and the address-reveal cursor.
#[derive(Clone, Debug)]
pub struct ParticipantWallet {
    pub utxos: Vec<UtxoCandidate>,
    pub scripts: Vec<Vec<u8>>,
    pub revealed: usize,
}

/// Mathematical model of a [`ParticipantWallet`].
pub struct ParticipantWalletModel {
    pub utxos: Seq<UtxoCandidateModel>,
    pub scripts: Seq<Seq<u8>>,
    pub revealed: int,
}

impl View for ParticipantWallet {
    type V = ParticipantWalletModel;

    open spec fn view(&self) -> ParticipantWalletModel {
        ParticipantWalletModel {
            utxos: self.utxos@.map_values(|c: UtxoCandidate| c@),
            scripts: self.scripts@.map_values(|s: Vec<u8>| s@),
            revealed: self.revealed as int,
        }
    }
}

impl ParticipantWalletModel {
    /// Wallet well-formedness: every candidate is backed by its funding
    /// transaction, a coin is owned once (no outpoint listed twice), and the
    /// cursor has not run past the script supply.
    pub open spec fn wf(self) -> bool {
        &&& forall|i: int| 0 <= i < self.utxos.len() ==> candidate_wf(#[trigger] self.utxos[i])
        &&& forall|i: int, j: int|
            0 <= i < j < self.utxos.len() ==> self.utxos[i].outpoint != self.utxos[j].outpoint
        &&& 0 <= self.revealed <= self.scripts.len()
        &&& self.utxos.len() <= usize::MAX
    }

    /// How many more scripts the wallet can still reveal.
    pub open spec fn scripts_left(self) -> int {
        self.scripts.len() - self.revealed
    }
}

impl ParticipantWallet {
    /// Reveal the next fresh output script, advancing the cursor.  The cursor
    /// only ever moves forward: a replayed pass never re-derives an already
    /// used script.
    pub fn reveal_next_script(&mut self) -> (r: Vec<u8>)
        requires
            old(self)@.revealed < old(self)@.scripts.len(),
        ensures
            r@ == old(self)@.scripts[old(self)@.revealed],
            final(self)@.scripts == old(self)@.scripts,
            final(self)@.utxos == old(self)@.utxos,
            final(self)@.revealed == old(self)@.revealed + 1,
    {
        let n = self.scripts.len();
        assert(self.revealed < n);
        let script = self.scripts[self.revealed].clone();
        assert(script@ == self@.scripts[self@.revealed]);
        self.revealed = self.revealed + 1;
        script
    }
}

} // verus!
