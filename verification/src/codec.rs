//! The wire format: a canonical byte serialization of the accumulator and
//! its hexadecimal text rendering.
//!
//! This is the only representation that transits or persists.  The round
//! trip through serialize and deserialize is lossless for every field the
//! engine reads — inputs, outputs, proof-of-funds metadata, locktime and the
//! fee ledger — which [`lemma_round_trip`] states and proves.
//!
//! Layout, all integers little-endian: locktime (4 bytes), the two fee
//! ledger fields (8 each), then the length-prefixed input list and the
//! length-prefixed output list.  An output is its value, then its
//! length-prefixed script.  An input is its outpoint (32-byte transaction
//! id, 4-byte index) and a tagged proof of funds: `0` introduces a full
//! funding transaction (id plus length-prefixed output list), `1` a
//! witness-only output.

use vstd::prelude::*;

use crate::errors::BatchError;
use crate::model::{
    Accumulator, AccumulatorModel, FundingTx, FundingTxModel, InputEntry, InputEntryModel,
    Outpoint, ProofOfFunds, ProofOfFundsModel, TxOut, TxOutModel, Txid,
};

verus! {

/// The eight little-endian bytes of a 64-bit integer.
pub open spec fn le64(v: u64) -> Seq<u8> {
    seq![
        v as u8,
        (v >> 8) as u8,
        (v >> 16) as u8,
        (v >> 24) as u8,
        (v >> 32) as u8,
        (v >> 40) as u8,
        (v >> 48) as u8,
        (v >> 56) as u8,
    ]
}

/// The four little-endian bytes of a 32-bit integer.
pub open spec fn le32(v: u32) -> Seq<u8> {
    seq![v as u8, (v >> 8) as u8, (v >> 16) as u8, (v >> 24) as u8]
}

/// The 64-bit integer read from the first eight bytes.
pub open spec fn le64_val(s: Seq<u8>) -> u64
    recommends
        s.len() >= 8,
{
    (s[0] as u64) | ((s[1] as u64) << 8) | ((s[2] as u64) << 16) | ((s[3] as u64) << 24) | (
    (s[4] as u64) << 32) | ((s[5] as u64) << 40) | ((s[6] as u64) << 48) | ((s[7] as u64) << 56)
}

/// The 32-bit integer read from the first four bytes.
pub open spec fn le32_val(s: Seq<u8>) -> u32
    recommends
        s.len() >= 4,
{
    (s[0] as u32) | ((s[1] as u32) << 8) | ((s[2] as u32) << 16) | ((s[3] as u32) << 24)
}

pub open spec fn ser_txid(t: Txid) -> Seq<u8> {
    le64(t.w0) + le64(t.w1) + le64(t.w2) + le64(t.w3)
}

pub open spec fn ser_txout(o: TxOutModel) -> Seq<u8> {
    le64(o.value) + le64(o.script.len() as u64) + o.script
}

pub open spec fn ser_txouts(s: Seq<TxOutModel>) -> Seq<u8>
    decreases s.len(),
{
    if s.len() == 0 {
        Seq::empty()
    } else {
        ser_txout(s.first()) + ser_txouts(s.drop_first())
    }
}

pub open spec fn ser_proof(p: ProofOfFundsModel) -> Seq<u8> {
    match p {
        ProofOfFundsModel::Full(tx) => seq![0u8] + ser_txid(tx.txid) + le64(
            tx.outputs.len() as u64,
        ) + ser_txouts(tx.outputs),
        ProofOfFundsModel::Witness(o) => seq![1u8] + ser_txout(o),
    }
}

pub open spec fn ser_input(e: InputEntryModel) -> Seq<u8> {
    ser_txid(e.outpoint.txid) + le32(e.outpoint.vout) + ser_proof(e.proof)
}

pub open spec fn ser_inputs(s: Seq<InputEntryModel>) -> Seq<u8>
    decreases s.len(),
{
    if s.len() == 0 {
        Seq::empty()
    } else {
        ser_input(s.first()) + ser_inputs(s.drop_first())
    }
}

/// The canonical byte serialization of an accumulator.
pub open spec fn ser_acc(m: AccumulatorModel) -> Seq<u8> {
    le32(m.locktime) + le64(m.fees_paid) + le64(m.fees_reimbursed) + le64(m.inputs.len() as u64)
        + ser_inputs(m.inputs) + le64(m.outputs.len() as u64) + ser_txouts(m.outputs)
}

/// The list and script lengths a serialized accumulator can carry.  Every
/// accumulator held in memory satisfies this ([`lemma_exec_codec_wf`]).
pub open spec fn codec_wf(m: AccumulatorModel) -> bool {
    &&& m.inputs.len() <= u64::MAX
    &&& m.outputs.len() <= u64::MAX
    &&& forall|i: int| 0 <= i < m.outputs.len() ==> (#[trigger] m.outputs[i]).script.len()
        <= u64::MAX
    &&& forall|i: int|
        0 <= i < m.inputs.len() ==> proof_codec_wf(#[trigger] m.inputs[i].proof)
}

pub open spec fn txout_codec_wf(o: TxOutModel) -> bool {
    o.script.len() <= u64::MAX
}

pub open spec fn proof_codec_wf(p: ProofOfFundsModel) -> bool {
    match p {
        ProofOfFundsModel::Full(tx) => {
            &&& tx.outputs.len() <= u64::MAX
            &&& forall|j: int| 0 <= j < tx.outputs.len() ==> txout_codec_wf(
                #[trigger] tx.outputs[j],
            )
        },
        ProofOfFundsModel::Witness(o) => txout_codec_wf(o),
    }
}

// ---------------------------------------------------------------------------
// Parsers.  Each consumes a prefix of the byte sequence and returns the
// parsed value with the remaining bytes, or nothing if the bytes run out or
// a tag is unknown.

pub open spec fn p_u8(s: Seq<u8>) -> Option<(u8, Seq<u8>)> {
    if s.len() >= 1 {
        Some((s[0], s.skip(1)))
    } else {
        None
    }
}

pub open spec fn p_le64(s: Seq<u8>) -> Option<(u64, Seq<u8>)> {
    if s.len() >= 8 {
        Some((le64_val(s), s.skip(8)))
    } else {
        None
    }
}

pub open spec fn p_le32(s: Seq<u8>) -> Option<(u32, Seq<u8>)> {
    if s.len() >= 4 {
        Some((le32_val(s), s.skip(4)))
    } else {
        None
    }
}

pub open spec fn p_bytes(s: Seq<u8>, n: u64) -> Option<(Seq<u8>, Seq<u8>)> {
    if s.len() >= n {
        Some((s.take(n as int), s.skip(n as int)))
    } else {
        None
    }
}

pub open spec fn p_txid(s: Seq<u8>) -> Option<(Txid, Seq<u8>)> {
    match p_le64(s) {
        None => None,
        Some((w0, s)) => match p_le64(s) {
            None => None,
            Some((w1, s)) => match p_le64(s) {
                None => None,
                Some((w2, s)) => match p_le64(s) {
                    None => None,
                    Some((w3, s)) => Some((Txid { w0, w1, w2, w3 }, s)),
                },
            },
        },
    }
}

pub open spec fn p_txout(s: Seq<u8>) -> Option<(TxOutModel, Seq<u8>)> {
    match p_le64(s) {
        None => None,
        Some((value, s)) => match p_le64(s) {
            None => None,
            Some((n, s)) => match p_bytes(s, n) {
                None => None,
                Some((script, s)) => Some((TxOutModel { value, script }, s)),
            },
        },
    }
}

pub open spec fn p_txouts(s: Seq<u8>, n: u64) -> Option<(Seq<TxOutModel>, Seq<u8>)>
    decreases n,
{
    if n == 0 {
        Some((Seq::empty(), s))
    } else {
        match p_txout(s) {
            None => None,
            Some((o, s)) => match p_txouts(s, (n - 1) as u64) {
                None => None,
                Some((t, s)) => Some((seq![o] + t, s)),
            },
        }
    }
}

pub open spec fn p_proof(s: Seq<u8>) -> Option<(ProofOfFundsModel, Seq<u8>)> {
    match p_u8(s) {
        None => None,
        Some((tag, s)) => {
            if tag == 0 {
                match p_txid(s) {
                    None => None,
                    Some((txid, s)) => match p_le64(s) {
                        None => None,
                        Some((n, s)) => match p_txouts(s, n) {
                            None => None,
                            Some((outputs, s)) => Some(
                                (ProofOfFundsModel::Full(FundingTxModel { txid, outputs }), s),
                            ),
                        },
                    },
                }
            } else if tag == 1 {
                match p_txout(s) {
                    None => None,
                    Some((o, s)) => Some((ProofOfFundsModel::Witness(o), s)),
                }
            } else {
                None
            }
        },
    }
}

pub open spec fn p_input(s: Seq<u8>) -> Option<(InputEntryModel, Seq<u8>)> {
    match p_txid(s) {
        None => None,
        Some((txid, s)) => match p_le32(s) {
            None => None,
            Some((vout, s)) => match p_proof(s) {
                None => None,
                Some((proof, s)) => Some(
                    (InputEntryModel { outpoint: Outpoint { txid, vout }, proof }, s),
                ),
            },
        },
    }
}

pub open spec fn p_inputs(s: Seq<u8>, n: u64) -> Option<(Seq<InputEntryModel>, Seq<u8>)>
    decreases n,
{
    if n == 0 {
        Some((Seq::empty(), s))
    } else {
        match p_input(s) {
            None => None,
            Some((e, s)) => match p_inputs(s, (n - 1) as u64) {
                None => None,
                Some((t, s)) => Some((seq![e] + t, s)),
            },
        }
    }
}

pub open spec fn p_acc(s: Seq<u8>) -> Option<(AccumulatorModel, Seq<u8>)> {
    match p_le32(s) {
        None => None,
        Some((locktime, s)) => match p_le64(s) {
            None => None,
            Some((fees_paid, s)) => match p_le64(s) {
                None => None,
                Some((fees_reimbursed, s)) => match p_le64(s) {
                    None => None,
                    Some((n_in, s)) => match p_inputs(s, n_in) {
                        None => None,
                        Some((inputs, s)) => match p_le64(s) {
                            None => None,
                            Some((n_out, s)) => match p_txouts(s, n_out) {
                                None => None,
                                Some((outputs, s)) => Some(
                                    (
                                        AccumulatorModel {
                                            inputs,
                                            outputs,
                                            locktime,
                                            fees_paid,
                                            fees_reimbursed,
                                        },
                                        s,
                                    ),
                                ),
                            },
                        },
                    },
                },
            },
        },
    }
}

/// What a byte payload deserializes to: the whole payload must be consumed.
pub open spec fn parse_accumulator(s: Seq<u8>) -> Option<AccumulatorModel> {
    match p_acc(s) {
        None => None,
        Some((m, rest)) => if rest.len() == 0 {
            Some(m)
        } else {
            None
        },
    }
}

// ---------------------------------------------------------------------------
// Round trip: parsing a serialization, with anything after it, yields the
// serialized value and leaves exactly the rest.

proof fn lemma_rt_le64(v: u64, rest: Seq<u8>)
    ensures
        p_le64(le64(v) + rest) == Some((v, rest)),
{
    let s = le64(v) + rest;
    assert(le64_val(s) == v) by {
        assert(s[0] == v as u8 && s[1] == (v >> 8) as u8 && s[2] == (v >> 16) as u8 && s[3] == (v
            >> 24) as u8 && s[4] == (v >> 32) as u8 && s[5] == (v >> 40) as u8 && s[6] == (v >> 48)
            as u8 && s[7] == (v >> 56) as u8);
        assert((v as u8 as u64) | ((v >> 8) as u8 as u64) << 8 | ((v >> 16) as u8 as u64) << 16 | (
        (v >> 24) as u8 as u64) << 24 | ((v >> 32) as u8 as u64) << 32 | ((v >> 40) as u8 as u64)
            << 40 | ((v >> 48) as u8 as u64) << 48 | ((v >> 56) as u8 as u64) << 56 == v)
            by (bit_vector);
    }
    assert(s.skip(8) =~= rest);
}

proof fn lemma_rt_le32(v: u32, rest: Seq<u8>)
    ensures
        p_le32(le32(v) + rest) == Some((v, rest)),
{
    let s = le32(v) + rest;
    assert(le32_val(s) == v) by {
        assert(s[0] == v as u8 && s[1] == (v >> 8) as u8 && s[2] == (v >> 16) as u8 && s[3] == (v
            >> 24) as u8);
        assert((v as u8 as u32) | ((v >> 8) as u8 as u32) << 8 | ((v >> 16) as u8 as u32) << 16 | (
        (v >> 24) as u8 as u32) << 24 == v) by (bit_vector);
    }
    assert(s.skip(4) =~= rest);
}

proof fn lemma_rt_txid(t: Txid, rest: Seq<u8>)
    ensures
        p_txid(ser_txid(t) + rest) == Some((t, rest)),
{
    let s = ser_txid(t) + rest;
    assert(s =~= le64(t.w0) + (le64(t.w1) + (le64(t.w2) + (le64(t.w3) + rest))));
    lemma_rt_le64(t.w0, le64(t.w1) + (le64(t.w2) + (le64(t.w3) + rest)));
    lemma_rt_le64(t.w1, le64(t.w2) + (le64(t.w3) + rest));
    lemma_rt_le64(t.w2, le64(t.w3) + rest);
    lemma_rt_le64(t.w3, rest);
}

proof fn lemma_rt_txout(o: TxOutModel, rest: Seq<u8>)
    requires
        txout_codec_wf(o),
    ensures
        p_txout(ser_txout(o) + rest) == Some((o, rest)),
{
    let n = o.script.len() as u64;
    let s = ser_txout(o) + rest;
    assert(s =~= le64(o.value) + (le64(n) + (o.script + rest)));
    lemma_rt_le64(o.value, le64(n) + (o.script + rest));
    lemma_rt_le64(n, o.script + rest);
    assert(p_bytes(o.script + rest, n) == Some((o.script, rest))) by {
        assert((o.script + rest).take(n as int) =~= o.script);
        assert((o.script + rest).skip(n as int) =~= rest);
    }
}

proof fn lemma_rt_txouts(s: Seq<TxOutModel>, rest: Seq<u8>)
    requires
        s.len() <= u64::MAX,
        forall|j: int| 0 <= j < s.len() ==> txout_codec_wf(#[trigger] s[j]),
    ensures
        p_txouts(ser_txouts(s) + rest, s.len() as u64) == Some((s, rest)),
    decreases s.len(),
{
    if s.len() == 0 {
        assert(ser_txouts(s) + rest =~= rest);
    } else {
        let o = s.first();
        let t = s.drop_first();
        assert(ser_txouts(s) + rest =~= ser_txout(o) + (ser_txouts(t) + rest));
        lemma_rt_txout(o, ser_txouts(t) + rest);
        lemma_rt_txouts(t, rest);
        assert(seq![o] + t =~= s);
    }
}

#[verifier::rlimit(80)]
proof fn lemma_rt_proof(p: ProofOfFundsModel, rest: Seq<u8>)
    requires
        proof_codec_wf(p),
    ensures
        p_proof(ser_proof(p) + rest) == Some((p, rest)),
{
    match p {
        ProofOfFundsModel::Full(tx) => {
            let n = tx.outputs.len() as u64;
            let s = ser_proof(p) + rest;
            assert(s =~= seq![0u8] + (ser_txid(tx.txid) + (le64(n) + (ser_txouts(tx.outputs)
                + rest))));
            assert(p_u8(s) == Some((0u8, ser_txid(tx.txid) + (le64(n) + (ser_txouts(tx.outputs)
                + rest))))) by {
                assert(s[0] == 0u8);
                assert(s.skip(1) =~= ser_txid(tx.txid) + (le64(n) + (ser_txouts(tx.outputs)
                    + rest)));
            }
            lemma_rt_txid(tx.txid, le64(n) + (ser_txouts(tx.outputs) + rest));
            lemma_rt_le64(n, ser_txouts(tx.outputs) + rest);
            lemma_rt_txouts(tx.outputs, rest);
        },
        ProofOfFundsModel::Witness(o) => {
            let s = ser_proof(p) + rest;
            assert(s =~= seq![1u8] + (ser_txout(o) + rest));
            assert(p_u8(s) == Some((1u8, ser_txout(o) + rest))) by {
                assert(s[0] == 1u8);
                assert(s.skip(1) =~= ser_txout(o) + rest);
            }
            lemma_rt_txout(o, rest);
        },
    }
}

#[verifier::rlimit(80)]
proof fn lemma_rt_input(e: InputEntryModel, rest: Seq<u8>)
    requires
        proof_codec_wf(e.proof),
    ensures
        p_input(ser_input(e) + rest) == Some((e, rest)),
{
    let s = ser_input(e) + rest;
    assert(s =~= ser_txid(e.outpoint.txid) + (le32(e.outpoint.vout) + (ser_proof(e.proof)
        + rest)));
    lemma_rt_txid(e.outpoint.txid, le32(e.outpoint.vout) + (ser_proof(e.proof) + rest));
    lemma_rt_le32(e.outpoint.vout, ser_proof(e.proof) + rest);
    lemma_rt_proof(e.proof, rest);
}

#[verifier::rlimit(80)]
proof fn lemma_rt_inputs(s: Seq<InputEntryModel>, rest: Seq<u8>)
    requires
        s.len() <= u64::MAX,
        forall|j: int| 0 <= j < s.len() ==> proof_codec_wf(#[trigger] s[j].proof),
    ensures
        p_inputs(ser_inputs(s) + rest, s.len() as u64) == Some((s, rest)),
    decreases s.len(),
{
    if s.len() == 0 {
        assert(ser_inputs(s) + rest =~= rest);
    } else {
        let e = s.first();
        let t = s.drop_first();
        assert(ser_inputs(s) + rest =~= ser_input(e) + (ser_inputs(t) + rest));
        lemma_rt_input(e, ser_inputs(t) + rest);
        lemma_rt_inputs(t, rest);
        assert(seq![e] + t =~= s);
    }
}

/// Round-trip losslessness: deserializing a serialized accumulator yields it
/// back exactly — the input list, the output list, the proof-of-funds
/// metadata, the locktime and the fee ledger.  This is the guarantee the
/// hex-relay strategy rests on: any invariant checked of the in-memory form
/// holds of the serialized-then-deserialized form, whatever the accumulator
/// holds — no inputs or outputs, one, or many.
pub proof fn lemma_round_trip(m: AccumulatorModel)
    requires
        codec_wf(m),
    ensures
        parse_accumulator(ser_acc(m)) == Some(m),
{
    let n_in = m.inputs.len() as u64;
    let n_out = m.outputs.len() as u64;
    let empty = Seq::<u8>::empty();
    let s = ser_acc(m);
    assert(s =~= le32(m.locktime) + (le64(m.fees_paid) + (le64(m.fees_reimbursed) + (le64(n_in) + (
    ser_inputs(m.inputs) + (le64(n_out) + (ser_txouts(m.outputs) + empty)))))));
    lemma_rt_le32(m.locktime, le64(m.fees_paid) + (le64(m.fees_reimbursed) + (le64(n_in) + (
    ser_inputs(m.inputs) + (le64(n_out) + (ser_txouts(m.outputs) + empty))))));
    lemma_rt_le64(m.fees_paid, le64(m.fees_reimbursed) + (le64(n_in) + (ser_inputs(m.inputs) + (
    le64(n_out) + (ser_txouts(m.outputs) + empty)))));
    lemma_rt_le64(m.fees_reimbursed, le64(n_in) + (ser_inputs(m.inputs) + (le64(n_out) + (
    ser_txouts(m.outputs) + empty))));
    lemma_rt_le64(n_in, ser_inputs(m.inputs) + (le64(n_out) + (ser_txouts(m.outputs) + empty)));
    lemma_rt_inputs(m.inputs, le64(n_out) + (ser_txouts(m.outputs) + empty));
    lemma_rt_le64(n_out, ser_txouts(m.outputs) + empty);
    lemma_rt_txouts(m.outputs, empty);
}

/// Every accumulator held in memory fits the codec's length bounds.
pub proof fn lemma_exec_codec_wf(acc: &Accumulator)
    ensures
        codec_wf(acc@),
{
    assert(acc.inputs.len() == acc@.inputs.len());
    assert(acc.outputs.len() == acc@.outputs.len());
    assert forall|i: int| 0 <= i < acc@.outputs.len() implies (
    #[trigger] acc@.outputs[i]).script.len() <= u64::MAX by {
        assert(acc@.outputs[i] == acc.outputs@[i]@);
        assert(acc.outputs@[i].script.len() == acc.outputs@[i].script@.len());
    }
    assert forall|i: int| 0 <= i < acc@.inputs.len() implies proof_codec_wf(
        #[trigger] acc@.inputs[i].proof,
    ) by {
        assert(acc@.inputs[i] == acc.inputs@[i]@);
        match acc.inputs@[i].proof {
            ProofOfFunds::Full(tx) => {
                assert(tx.outputs.len() == tx.outputs@.len());
                assert forall|j: int| 0 <= j < tx.outputs@.len() implies txout_codec_wf(
                    #[trigger] tx@.outputs[j],
                ) by {
                    assert(tx@.outputs[j] == tx.outputs@[j]@);
                    assert(tx.outputs@[j].script.len() == tx.outputs@[j].script@.len());
                }
            },
            ProofOfFunds::Witness(o) => {
                assert(o.script.len() == o.script@.len());
            },
        }
    }
}

// ---------------------------------------------------------------------------
// Executable serializer.

pub open spec fn txout_models(v: Seq<TxOut>) -> Seq<TxOutModel> {
    v.map_values(|o: TxOut| o@)
}

pub open spec fn input_models(v: Seq<InputEntry>) -> Seq<InputEntryModel> {
    v.map_values(|e: InputEntry| e@)
}

/// Serializing one more output appends its bytes.
proof fn lemma_ser_txouts_snoc(s: Seq<TxOutModel>, o: TxOutModel)
    ensures
        ser_txouts(s.push(o)) == ser_txouts(s) + ser_txout(o),
    decreases s.len(),
{
    if s.len() == 0 {
        assert(s.push(o).drop_first() =~= Seq::<TxOutModel>::empty());
        assert(s.push(o).first() == o);
        assert(ser_txouts(Seq::<TxOutModel>::empty()) == Seq::<u8>::empty());
        assert(ser_txouts(s.push(o)) =~= ser_txouts(s) + ser_txout(o));
    } else {
        assert(s.push(o).first() == s.first());
        assert(s.push(o).drop_first() =~= s.drop_first().push(o));
        lemma_ser_txouts_snoc(s.drop_first(), o);
        assert(ser_txout(s.first()) + (ser_txouts(s.drop_first()) + ser_txout(o)) =~= (ser_txout(
            s.first(),
        ) + ser_txouts(s.drop_first())) + ser_txout(o));
    }
}

/// Serializing one more input appends its bytes.
proof fn lemma_ser_inputs_snoc(s: Seq<InputEntryModel>, e: InputEntryModel)
    ensures
        ser_inputs(s.push(e)) == ser_inputs(s) + ser_input(e),
    decreases s.len(),
{
    if s.len() == 0 {
        assert(s.push(e).drop_first() =~= Seq::<InputEntryModel>::empty());
        assert(s.push(e).first() == e);
        assert(ser_inputs(Seq::<InputEntryModel>::empty()) == Seq::<u8>::empty());
        assert(ser_inputs(s.push(e)) =~= ser_inputs(s) + ser_input(e));
    } else {
        assert(s.push(e).first() == s.first());
        assert(s.push(e).drop_first() =~= s.drop_first().push(e));
        lemma_ser_inputs_snoc(s.drop_first(), e);
        assert(ser_input(s.first()) + (ser_inputs(s.drop_first()) + ser_input(e)) =~= (ser_input(
            s.first(),
        ) + ser_inputs(s.drop_first())) + ser_input(e));
    }
}

fn put_le64(out: &mut Vec<u8>, v: u64)
    ensures
        final(out)@ == old(out)@ + le64(v),
{
    out.push(v as u8);
    out.push((v >> 8) as u8);
    out.push((v >> 16) as u8);
    out.push((v >> 24) as u8);
    out.push((v >> 32) as u8);
    out.push((v >> 40) as u8);
    out.push((v >> 48) as u8);
    out.push((v >> 56) as u8);
    proof {
        assert(out@ =~= old(out)@ + le64(v));
    }
}

fn put_le32(out: &mut Vec<u8>, v: u32)
    ensures
        final(out)@ == old(out)@ + le32(v),
{
    out.push(v as u8);
    out.push((v >> 8) as u8);
    out.push((v >> 16) as u8);
    out.push((v >> 24) as u8);
    proof {
        assert(out@ =~= old(out)@ + le32(v));
    }
}

fn put_bytes(out: &mut Vec<u8>, b: &Vec<u8>)
    ensures
        final(out)@ == old(out)@ + b@,
{
    let n = b.len();
    let mut i: usize = 0;
    while i < n
        invariant
            0 <= i <= n,
            n == b.len(),
            out@ == old(out)@ + b@.take(i as int),
        decreases n - i,
    {
        out.push(b[i]);
        proof {
            assert(old(out)@ + b@.take(i + 1) =~= (old(out)@ + b@.take(i as int)).push(
                b@[i as int],
            ));
        }
        i += 1;
    }
    proof {
        assert(b@.take(n as int) =~= b@);
    }
}

fn put_txid(out: &mut Vec<u8>, t: &Txid)
    ensures
        final(out)@ == old(out)@ + ser_txid(*t),
{
    put_le64(out, t.w0);
    put_le64(out, t.w1);
    put_le64(out, t.w2);
    put_le64(out, t.w3);
    proof {
        assert(out@ =~= old(out)@ + ser_txid(*t));
    }
}

fn put_txout(out: &mut Vec<u8>, o: &TxOut)
    ensures
        final(out)@ == old(out)@ + ser_txout(o@),
{
    put_le64(out, o.value);
    put_le64(out, o.script.len() as u64);
    put_bytes(out, &o.script);
    proof {
        assert(out@ =~= old(out)@ + ser_txout(o@));
    }
}

fn put_txouts(out: &mut Vec<u8>, v: &Vec<TxOut>)
    ensures
        final(out)@ == old(out)@ + ser_txouts(txout_models(v@)),
{
    let n = v.len();
    let mut i: usize = 0;
    while i < n
        invariant
            0 <= i <= n,
            n == v.len(),
            out@ == old(out)@ + ser_txouts(txout_models(v@).take(i as int)),
        decreases n - i,
    {
        put_txout(out, &v[i]);
        proof {
            assert(txout_models(v@).take(i + 1) =~= txout_models(v@).take(i as int).push(
                v@[i as int]@,
            ));
            lemma_ser_txouts_snoc(txout_models(v@).take(i as int), v@[i as int]@);
            assert(old(out)@ + (ser_txouts(txout_models(v@).take(i as int)) + ser_txout(
                v@[i as int]@,
            )) =~= (old(out)@ + ser_txouts(txout_models(v@).take(i as int))) + ser_txout(
                v@[i as int]@,
            ));
        }
        i += 1;
    }
    proof {
        assert(txout_models(v@).take(n as int) =~= txout_models(v@));
    }
}

fn put_proof(out: &mut Vec<u8>, p: &ProofOfFunds)
    ensures
        final(out)@ == old(out)@ + ser_proof(p@),
{
    match p {
        ProofOfFunds::Full(tx) => {
            out.push(0u8);
            put_txid(out, &tx.txid);
            put_le64(out, tx.outputs.len() as u64);
            put_txouts(out, &tx.outputs);
            proof {
                assert(tx@.outputs == txout_models(tx.outputs@));
                assert(out@ =~= old(out)@ + ser_proof(p@));
            }
        },
        ProofOfFunds::Witness(o) => {
            out.push(1u8);
            put_txout(out, o);
            proof {
                assert(out@ =~= old(out)@ + ser_proof(p@));
            }
        },
    }
}

fn put_input(out: &mut Vec<u8>, e: &InputEntry)
    ensures
        final(out)@ == old(out)@ + ser_input(e@),
{
    put_txid(out, &e.outpoint.txid);
    put_le32(out, e.outpoint.vout);
    put_proof(out, &e.proof);
    proof {
        assert(out@ =~= old(out)@ + ser_input(e@));
    }
}

/// Serialize the accumulator into its canonical byte form.
pub fn serialize(acc: &Accumulator) -> (r: Vec<u8>)
    ensures
        r@ == ser_acc(acc@),
{
    let mut out: Vec<u8> = Vec::new();
    put_le32(&mut out, acc.locktime);
    put_le64(&mut out, acc.fees_paid);
    put_le64(&mut out, acc.fees_reimbursed);
    put_le64(&mut out, acc.inputs.len() as u64);
    let ghost header = out@;
    let n = acc.inputs.len();
    let mut i: usize = 0;
    while i < n
        invariant
            0 <= i <= n,
            n == acc.inputs.len(),
            out@ == header + ser_inputs(input_models(acc.inputs@).take(i as int)),
        decreases n - i,
    {
        put_input(&mut out, &acc.inputs[i]);
        proof {
            assert(input_models(acc.inputs@).take(i + 1) =~= input_models(acc.inputs@).take(
                i as int,
            ).push(acc.inputs@[i as int]@));
            lemma_ser_inputs_snoc(input_models(acc.inputs@).take(i as int), acc.inputs@[i as int]@);
            assert(header + (ser_inputs(input_models(acc.inputs@).take(i as int)) + ser_input(
                acc.inputs@[i as int]@,
            )) =~= (header + ser_inputs(input_models(acc.inputs@).take(i as int))) + ser_input(
                acc.inputs@[i as int]@,
            ));
        }
        i += 1;
    }
    proof {
        assert(input_models(acc.inputs@).take(n as int) =~= input_models(acc.inputs@));
    }
    put_le64(&mut out, acc.outputs.len() as u64);
    put_txouts(&mut out, &acc.outputs);
    proof {
        assert(acc@.inputs == input_models(acc.inputs@));
        assert(acc@.outputs == txout_models(acc.outputs@));
        assert(out@ =~= ser_acc(acc@));
    }
    out
}

// ---------------------------------------------------------------------------
// Executable deserializer.  Each reader mirrors the corresponding parser on
// the bytes that remain from its position.

fn rd_u8(b: &Vec<u8>, pos: usize) -> (r: Option<(u8, usize)>)
    requires
        pos <= b@.len(),
    ensures
        match r {
            Some(p) => {
                &&& p_u8(b@.skip(pos as int)) == Some((p.0, b@.skip(p.1 as int)))
                &&& pos <= p.1 <= b@.len()
            },
            None => p_u8(b@.skip(pos as int)) is None,
        },
{
    let n = b.len();
    if n - pos >= 1 {
        let v = b[pos];
        proof {
            assert(b@.skip(pos as int)[0] == b@[pos as int]);
            assert(b@.skip(pos as int).skip(1) =~= b@.skip(pos + 1));
        }
        Some((v, pos + 1))
    } else {
        None
    }
}

fn rd_le64(b: &Vec<u8>, pos: usize) -> (r: Option<(u64, usize)>)
    requires
        pos <= b@.len(),
    ensures
        match r {
            Some(p) => {
                &&& p_le64(b@.skip(pos as int)) == Some((p.0, b@.skip(p.1 as int)))
                &&& pos <= p.1 <= b@.len()
            },
            None => p_le64(b@.skip(pos as int)) is None,
        },
{
    let n = b.len();
    if n - pos >= 8 {
        let v = (b[pos] as u64) | ((b[pos + 1] as u64) << 8) | ((b[pos + 2] as u64) << 16) | ((b[pos
            + 3] as u64) << 24) | ((b[pos + 4] as u64) << 32) | ((b[pos + 5] as u64) << 40) | ((b[pos
            + 6] as u64) << 48) | ((b[pos + 7] as u64) << 56);
        proof {
            let s = b@.skip(pos as int);
            assert(s[0] == b@[pos as int] && s[1] == b@[pos + 1] && s[2] == b@[pos + 2] && s[3]
                == b@[pos + 3] && s[4] == b@[pos + 4] && s[5] == b@[pos + 5] && s[6] == b@[pos + 6]
                && s[7] == b@[pos + 7]);
            assert(v == le64_val(s));
            assert(s.skip(8) =~= b@.skip(pos + 8));
        }
        Some((v, pos + 8))
    } else {
        None
    }
}

fn rd_le32(b: &Vec<u8>, pos: usize) -> (r: Option<(u32, usize)>)
    requires
        pos <= b@.len(),
    ensures
        match r {
            Some(p) => {
                &&& p_le32(b@.skip(pos as int)) == Some((p.0, b@.skip(p.1 as int)))
                &&& pos <= p.1 <= b@.len()
            },
            None => p_le32(b@.skip(pos as int)) is None,
        },
{
    let n = b.len();
    if n - pos >= 4 {
        let v = (b[pos] as u32) | ((b[pos + 1] as u32) << 8) | ((b[pos + 2] as u32) << 16) | ((b[pos
            + 3] as u32) << 24);
        proof {
            let s = b@.skip(pos as int);
            assert(s[0] == b@[pos as int] && s[1] == b@[pos + 1] && s[2] == b@[pos + 2] && s[3]
                == b@[pos + 3]);
            assert(v == le32_val(s));
            assert(s.skip(4) =~= b@.skip(pos + 4));
        }
        Some((v, pos + 4))
    } else {
        None
    }
}

fn rd_bytes(b: &Vec<u8>, pos: usize, count: u64) -> (r: Option<(Vec<u8>, usize)>)
    requires
        pos <= b@.len(),
    ensures
        match r {
            Some(p) => {
                &&& p_bytes(b@.skip(pos as int), count) == Some((p.0@, b@.skip(p.1 as int)))
                &&& pos <= p.1 <= b@.len()
            },
            None => p_bytes(b@.skip(pos as int), count) is None,
        },
{
    let n = b.len();
    if ((n - pos) as u64) >= count {
        let c = count as usize;
        let out = vstd::slice::slice_to_vec(vstd::slice::slice_subrange(b.as_slice(), pos, pos
            + c));
        proof {
            let s = b@.skip(pos as int);
            assert(out@ =~= s.take(count as int));
            assert(s.skip(count as int) =~= b@.skip(pos + c));
        }
        Some((out, pos + c))
    } else {
        None
    }
}

fn rd_txid(b: &Vec<u8>, pos: usize) -> (r: Option<(Txid, usize)>)
    requires
        pos <= b@.len(),
    ensures
        match r {
            Some(p) => {
                &&& p_txid(b@.skip(pos as int)) == Some((p.0, b@.skip(p.1 as int)))
                &&& pos <= p.1 <= b@.len()
            },
            None => p_txid(b@.skip(pos as int)) is None,
        },
{
    match rd_le64(b, pos) {
        None => None,
        Some((w0, pos)) => match rd_le64(b, pos) {
            None => None,
            Some((w1, pos)) => match rd_le64(b, pos) {
                None => None,
                Some((w2, pos)) => match rd_le64(b, pos) {
                    None => None,
                    Some((w3, pos)) => Some((Txid { w0, w1, w2, w3 }, pos)),
                },
            },
        },
    }
}

fn rd_txout(b: &Vec<u8>, pos: usize) -> (r: Option<(TxOut, usize)>)
    requires
        pos <= b@.len(),
    ensures
        match r {
            Some(p) => {
                &&& p_txout(b@.skip(pos as int)) == Some((p.0@, b@.skip(p.1 as int)))
                &&& pos <= p.1 <= b@.len()
            },
            None => p_txout(b@.skip(pos as int)) is None,
        },
{
    match rd_le64(b, pos) {
        None => None,
        Some((value, pos)) => match rd_le64(b, pos) {
            None => None,
            Some((count, pos)) => match rd_bytes(b, pos, count) {
                None => None,
                Some((script, pos)) => Some((TxOut { value, script }, pos)),
            },
        },
    }
}

fn rd_txouts(b: &Vec<u8>, pos: usize, n: u64) -> (r: Option<(Vec<TxOut>, usize)>)
    requires
        pos <= b@.len(),
    ensures
        match r {
            Some(p) => {
                &&& p_txouts(b@.skip(pos as int), n) == Some(
                    (txout_models(p.0@), b@.skip(p.1 as int)),
                )
                &&& pos <= p.1 <= b@.len()
            },
            None => p_txouts(b@.skip(pos as int), n) is None,
        },
{
    let mut out: Vec<TxOut> = Vec::new();
    let mut cur: usize = pos;
    let mut k: u64 = 0;
    #[verifier::loop_isolation(false)]
    while k < n
        invariant
            pos <= cur <= b@.len(),
            0 <= k <= n,
            ({
                let tailp = p_txouts(b@.skip(cur as int), (n - k) as u64);
                p_txouts(b@.skip(pos as int), n) == match tailp {
                    None => None::<(Seq<TxOutModel>, Seq<u8>)>,
                    Some((t, rest)) => Some((txout_models(out@) + t, rest)),
                }
            }),
        decreases n - k,
    {
        let ghost before = txout_models(out@);
        match rd_txout(b, cur) {
            None => {
                return None;
            },
            Some((o, pos2)) => {
                out.push(o);
                proof {
                    assert(txout_models(out@) =~= before.push(o@));
                    let tailp = p_txouts(b@.skip(pos2 as int), (n - k - 1) as u64);
                    match tailp {
                        None => {},
                        Some((t, rest)) => {
                            assert(before.push(o@) + t =~= before + (seq![o@] + t));
                        },
                    }
                }
                cur = pos2;
                k = k + 1;
            },
        }
    }
    proof {
        assert(p_txouts(b@.skip(cur as int), 0) == Some(
            (Seq::<TxOutModel>::empty(), b@.skip(cur as int)),
        ));
        assert(txout_models(out@) + Seq::<TxOutModel>::empty() =~= txout_models(out@));
    }
    Some((out, cur))
}

fn rd_proof(b: &Vec<u8>, pos: usize) -> (r: Option<(ProofOfFunds, usize)>)
    requires
        pos <= b@.len(),
    ensures
        match r {
            Some(p) => {
                &&& p_proof(b@.skip(pos as int)) == Some((p.0@, b@.skip(p.1 as int)))
                &&& pos <= p.1 <= b@.len()
            },
            None => p_proof(b@.skip(pos as int)) is None,
        },
{
    match rd_u8(b, pos) {
        None => None,
        Some((tag, pos)) => {
            if tag == 0 {
                match rd_txid(b, pos) {
                    None => None,
                    Some((txid, pos)) => match rd_le64(b, pos) {
                        None => None,
                        Some((n, pos)) => match rd_txouts(b, pos, n) {
                            None => None,
                            Some((outputs, pos)) => {
                                let tx = FundingTx { txid, outputs };
                                proof {
                                    assert(tx@.outputs == txout_models(tx.outputs@));
                                }
                                Some((ProofOfFunds::Full(tx), pos))
                            },
                        },
                    },
                }
            } else if tag == 1 {
                match rd_txout(b, pos) {
                    None => None,
                    Some((o, pos)) => Some((ProofOfFunds::Witness(o), pos)),
                }
            } else {
                None
            }
        },
    }
}

fn rd_input(b: &Vec<u8>, pos: usize) -> (r: Option<(InputEntry, usize)>)
    requires
        pos <= b@.len(),
    ensures
        match r {
            Some(p) => {
                &&& p_input(b@.skip(pos as int)) == Some((p.0@, b@.skip(p.1 as int)))
                &&& pos <= p.1 <= b@.len()
            },
            None => p_input(b@.skip(pos as int)) is None,
        },
{
    match rd_txid(b, pos) {
        None => None,
        Some((txid, pos)) => match rd_le32(b, pos) {
            None => None,
            Some((vout, pos)) => match rd_proof(b, pos) {
                None => None,
                Some((proof_of_funds, pos)) => Some(
                    (InputEntry { outpoint: Outpoint { txid, vout }, proof: proof_of_funds }, pos),
                ),
            },
        },
    }
}

#[verifier::rlimit(100)]
#[verifier::spinoff_prover]
fn rd_inputs(b: &Vec<u8>, pos: usize, n: u64) -> (r: Option<(Vec<InputEntry>, usize)>)
    requires
        pos <= b@.len(),
    ensures
        match r {
            Some(p) => {
                &&& p_inputs(b@.skip(pos as int), n) == Some(
                    (input_models(p.0@), b@.skip(p.1 as int)),
                )
                &&& pos <= p.1 <= b@.len()
            },
            None => p_inputs(b@.skip(pos as int), n) is None,
        },
{
    let mut out: Vec<InputEntry> = Vec::new();
    let mut cur: usize = pos;
    let mut k: u64 = 0;
    #[verifier::loop_isolation(false)]
    while k < n
        invariant
            pos <= cur <= b@.len(),
            0 <= k <= n,
            ({
                let tailp = p_inputs(b@.skip(cur as int), (n - k) as u64);
                p_inputs(b@.skip(pos as int), n) == match tailp {
                    None => None::<(Seq<InputEntryModel>, Seq<u8>)>,
                    Some((t, rest)) => Some((input_models(out@) + t, rest)),
                }
            }),
        decreases n - k,
    {
        let ghost before = input_models(out@);
        match rd_input(b, cur) {
            None => {
                return None;
            },
            Some((e, pos2)) => {
                out.push(e);
                proof {
                    assert(input_models(out@) =~= before.push(e@));
                    let tailp = p_inputs(b@.skip(pos2 as int), (n - k - 1) as u64);
                    match tailp {
                        None => {},
                        Some((t, rest)) => {
                            assert(before.push(e@) + t =~= before + (seq![e@] + t));
                        },
                    }
                }
                cur = pos2;
                k = k + 1;
            },
        }
    }
    proof {
        assert(p_inputs(b@.skip(cur as int), 0) == Some(
            (Seq::<InputEntryModel>::empty(), b@.skip(cur as int)),
        ));
        assert(input_models(out@) + Seq::<InputEntryModel>::empty() =~= input_models(out@));
    }
    Some((out, cur))
}

/// Deserialize an accumulator from its canonical byte form.  The whole
/// payload must be consumed.  Fails with `Deserialization` exactly when the
/// bytes do not parse.
pub fn deserialize(bytes: &Vec<u8>) -> (r: Result<Accumulator, BatchError>)
    ensures
        r matches Ok(acc) ==> parse_accumulator(bytes@) == Some(acc@),
        r matches Err(e) ==> {
            &&& parse_accumulator(bytes@) is None
            &&& e == BatchError::Deserialization
        },
{
    proof {
        assert(bytes@.skip(0) =~= bytes@);
    }
    let ghost s0 = bytes@;
    match rd_le32(bytes, 0) {
        None => Err(BatchError::Deserialization),
        Some((locktime, pos)) => match rd_le64(bytes, pos) {
            None => Err(BatchError::Deserialization),
            Some((fees_paid, pos)) => match rd_le64(bytes, pos) {
                None => Err(BatchError::Deserialization),
                Some((fees_reimbursed, pos)) => match rd_le64(bytes, pos) {
                    None => Err(BatchError::Deserialization),
                    Some((n_in, pos)) => match rd_inputs(bytes, pos, n_in) {
                        None => Err(BatchError::Deserialization),
                        Some((inputs, pos)) => match rd_le64(bytes, pos) {
                            None => Err(BatchError::Deserialization),
                            Some((n_out, pos)) => match rd_txouts(bytes, pos, n_out) {
                                None => Err(BatchError::Deserialization),
                                Some((outputs, pos)) => {
                                    if pos == bytes.len() {
                                        let acc = Accumulator {
                                            inputs,
                                            outputs,
                                            locktime,
                                            fees_paid,
                                            fees_reimbursed,
                                        };
                                        proof {
                                            assert(acc@.inputs == input_models(inputs@));
                                            assert(acc@.outputs == txout_models(outputs@));
                                            assert(bytes@.skip(pos as int).len() == 0);
                                        }
                                        Ok(acc)
                                    } else {
                                        Err(BatchError::Deserialization)
                                    }
                                },
                            },
                        },
                    },
                },
            },
        },
    }
}

// ---------------------------------------------------------------------------
// Hexadecimal text rendering: two lowercase digits per byte.  Decoding also
// accepts uppercase digits.

/// The ASCII digit of a nibble: `0`-`9` then `a`-`f`.
pub open spec fn hex_digit(n: u8) -> u8
    recommends
        n < 16,
{
    if n < 10 {
        (48 + n) as u8
    } else {
        (87 + n) as u8
    }
}

/// The hexadecimal text of a byte sequence.
pub open spec fn hex_of(b: Seq<u8>) -> Seq<u8>
    decreases b.len(),
{
    if b.len() == 0 {
        Seq::empty()
    } else {
        seq![hex_digit((b.first() / 16) as u8), hex_digit((b.first() % 16) as u8)] + hex_of(
            b.drop_first(),
        )
    }
}

/// The nibble an ASCII digit denotes, if any.
pub open spec fn unhex_digit(c: u8) -> Option<u8> {
    if 48 <= c <= 57 {
        Some((c - 48) as u8)
    } else if 97 <= c <= 102 {
        Some((c - 87) as u8)
    } else if 65 <= c <= 70 {
        Some((c - 55) as u8)
    } else {
        None
    }
}

/// The bytes a hexadecimal text denotes: two digits each, nothing else.
pub open spec fn unhex(s: Seq<u8>) -> Option<Seq<u8>>
    decreases s.len(),
{
    if s.len() == 0 {
        Some(Seq::empty())
    } else if s.len() == 1 {
        None
    } else {
        match (unhex_digit(s[0]), unhex_digit(s[1])) {
            (Some(hi), Some(lo)) => match unhex(s.skip(2)) {
                None => None,
                Some(t) => Some(seq![(16 * hi + lo) as u8] + t),
            },
            _ => None,
        }
    }
}

/// Reading back a digit yields the nibble it was written from.
proof fn lemma_unhex_hex_digit(n: u8)
    requires
        n < 16,
    ensures
        unhex_digit(hex_digit(n)) == Some(n),
{
}

/// Decoding a hexadecimal rendering yields the bytes it was written from.
pub proof fn lemma_unhex_hex(b: Seq<u8>)
    ensures
        unhex(hex_of(b)) == Some(b),
    decreases b.len(),
{
    if b.len() > 0 {
        let x = b.first();
        let hi = (x / 16) as u8;
        let lo = (x % 16) as u8;
        let s = hex_of(b);
        lemma_unhex_hex_digit(hi);
        lemma_unhex_hex_digit(lo);
        assert(s.len() >= 2);
        assert(s[0] == hex_digit(hi) && s[1] == hex_digit(lo));
        assert(s.skip(2) =~= hex_of(b.drop_first()));
        lemma_unhex_hex(b.drop_first());
        assert(16 * hi + lo == x);
        assert(seq![(16 * hi + lo) as u8] + b.drop_first() =~= b);
    }
}

/// Encoding one more byte appends its two digits.
proof fn lemma_hex_of_snoc(b: Seq<u8>, x: u8)
    ensures
        hex_of(b.push(x)) == hex_of(b) + seq![
            hex_digit((x / 16) as u8),
            hex_digit((x % 16) as u8),
        ],
    decreases b.len(),
{
    if b.len() == 0 {
        assert(b.push(x).drop_first() =~= Seq::<u8>::empty());
        assert(b.push(x).first() == x);
        assert(hex_of(Seq::<u8>::empty()) == Seq::<u8>::empty());
        assert(hex_of(b.push(x)) =~= hex_of(b) + seq![
            hex_digit((x / 16) as u8),
            hex_digit((x % 16) as u8),
        ]);
    } else {
        assert(b.push(x).first() == b.first());
        assert(b.push(x).drop_first() =~= b.drop_first().push(x));
        lemma_hex_of_snoc(b.drop_first(), x);
        assert(hex_of(b.push(x)) =~= hex_of(b) + seq![
            hex_digit((x / 16) as u8),
            hex_digit((x % 16) as u8),
        ]);
    }
}

/// Render bytes as hexadecimal text, two lowercase digits per byte.
pub fn hex_encode(b: &Vec<u8>) -> (r: Vec<u8>)
    ensures
        r@ == hex_of(b@),
{
    let n = b.len();
    let mut out: Vec<u8> = Vec::new();
    let mut i: usize = 0;
    while i < n
        invariant
            0 <= i <= n,
            n == b.len(),
            out@ == hex_of(b@.take(i as int)),
        decreases n - i,
    {
        let x = b[i];
        let hi = x / 16;
        let lo = x % 16;
        out.push(if hi < 10 {
            48 + hi
        } else {
            87 + hi
        });
        out.push(if lo < 10 {
            48 + lo
        } else {
            87 + lo
        });
        proof {
            assert(b@.take(i + 1) =~= b@.take(i as int).push(b@[i as int]));
            lemma_hex_of_snoc(b@.take(i as int), b@[i as int]);
            assert(out@ =~= hex_of(b@.take(i as int)) + seq![
                hex_digit((b@[i as int] / 16) as u8),
                hex_digit((b@[i as int] % 16) as u8),
            ]);
        }
        i += 1;
    }
    proof {
        assert(b@.take(n as int) =~= b@);
    }
    out
}

/// Decode one ASCII digit.
fn hex_digit_value(c: u8) -> (r: Option<u8>)
    ensures
        r == unhex_digit(c),
{
    if 48 <= c && c <= 57 {
        Some(c - 48)
    } else if 97 <= c && c <= 102 {
        Some(c - 87)
    } else if 65 <= c && c <= 70 {
        Some(c - 55)
    } else {
        None
    }
}

/// Decode hexadecimal text back into bytes.  Fails with `Deserialization`
/// exactly when the text is not an even run of hexadecimal digits.
pub fn hex_decode(s: &Vec<u8>) -> (r: Result<Vec<u8>, BatchError>)
    ensures
        r matches Ok(b) ==> unhex(s@) == Some(b@),
        r matches Err(e) ==> {
            &&& unhex(s@) is None
            &&& e == BatchError::Deserialization
        },
{
    let n = s.len();
    if n % 2 != 0 {
        proof {
            lemma_unhex_odd(s@);
        }
        return Err(BatchError::Deserialization);
    }
    let mut out: Vec<u8> = Vec::new();
    let mut i: usize = 0;
    proof {
        assert(s@.skip(0) =~= s@);
    }
    #[verifier::loop_isolation(false)]
    while i < n
        invariant
            0 <= i <= n,
            i % 2 == 0,
            n % 2 == 0,
            ({
                let tail = unhex(s@.skip(i as int));
                unhex(s@) == match tail {
                    None => None::<Seq<u8>>,
                    Some(t) => Some(out@ + t),
                }
            }),
        decreases n - i,
    {
        let ghost before = out@;
        let hi = match hex_digit_value(s[i]) {
            Some(v) => v,
            None => {
                proof {
                    assert(s@.skip(i as int)[0] == s@[i as int]);
                }
                return Err(BatchError::Deserialization);
            },
        };
        let lo = match hex_digit_value(s[i + 1]) {
            Some(v) => v,
            None => {
                proof {
                    assert(s@.skip(i as int)[0] == s@[i as int]);
                    assert(s@.skip(i as int)[1] == s@[i + 1]);
                }
                return Err(BatchError::Deserialization);
            },
        };
        out.push(16 * hi + lo);
        proof {
            assert(s@.skip(i as int)[0] == s@[i as int]);
            assert(s@.skip(i as int)[1] == s@[i + 1]);
            assert(s@.skip(i as int).skip(2) =~= s@.skip(i + 2));
            let tail = unhex(s@.skip(i + 2));
            match tail {
                None => {},
                Some(t) => {
                    assert(before.push((16 * hi + lo) as u8) + t =~= before + (seq![(16 * hi + lo)
                        as u8] + t));
                },
            }
        }
        i += 2;
    }
    proof {
        assert(s@.skip(n as int) =~= Seq::<u8>::empty());
        assert(out@ + Seq::<u8>::empty() =~= out@);
    }
    Ok(out)
}

/// A text of odd length is not hexadecimal.
proof fn lemma_unhex_odd(s: Seq<u8>)
    requires
        s.len() % 2 == 1,
    ensures
        unhex(s) is None,
    decreases s.len(),
{
    if s.len() > 1 {
        lemma_unhex_odd(s.skip(2));
    }
}

/// Serialize the accumulator and render the bytes as hexadecimal text: the
/// representation that transits between hops.
pub fn serialize_hex(acc: &Accumulator) -> (r: Vec<u8>)
    ensures
        r@ == hex_of(ser_acc(acc@)),
{
    let bytes = serialize(acc);
    hex_encode(&bytes)
}

/// What a hexadecimal payload denotes, if anything.
pub open spec fn parse_hex_accumulator(s: Seq<u8>) -> Option<AccumulatorModel> {
    match unhex(s) {
        None => None,
        Some(bytes) => parse_accumulator(bytes),
    }
}

/// Decode a hexadecimal payload and deserialize the accumulator it carries.
/// Fails with `Deserialization` exactly when the text or the bytes are
/// malformed.
pub fn deserialize_hex(s: &Vec<u8>) -> (r: Result<Accumulator, BatchError>)
    ensures
        r matches Ok(acc) ==> parse_hex_accumulator(s@) == Some(acc@),
        r matches Err(e) ==> {
            &&& parse_hex_accumulator(s@) is None
            &&& e == BatchError::Deserialization
        },
{
    match hex_decode(s) {
        Err(e) => Err(e),
        Ok(bytes) => deserialize(&bytes),
    }
}

/// The hexadecimal round trip is lossless too.
pub proof fn lemma_round_trip_hex(m: AccumulatorModel)
    requires
        codec_wf(m),
    ensures
        parse_hex_accumulator(hex_of(ser_acc(m))) == Some(m),
{
    lemma_unhex_hex(ser_acc(m));
    lemma_round_trip(m);
}

// ---------------------------------------------------------------------------
// Deep equality, for callers that must compare an accumulator against its
// round-tripped form.

/// Byte-for-byte script equality.
pub fn eq_bytes(a: &Vec<u8>, b: &Vec<u8>) -> (r: bool)
    ensures
        r == (a@ == b@),
{
    if a.len() != b.len() {
        return false;
    }
    let n = a.len();
    let mut i: usize = 0;
    while i < n
        invariant
            0 <= i <= n,
            n == a.len() == b.len(),
            forall|k: int| 0 <= k < i ==> a@[k] == b@[k],
        decreases n - i,
    {
        if a[i] != b[i] {
            return false;
        }
        i += 1;
    }
    proof {
        assert(a@ =~= b@);
    }
    true
}

fn eq_txout(a: &TxOut, b: &TxOut) -> (r: bool)
    ensures
        r == (a@ == b@),
{
    a.value == b.value && eq_bytes(&a.script, &b.script)
}

fn eq_txouts(a: &Vec<TxOut>, b: &Vec<TxOut>) -> (r: bool)
    ensures
        r == (txout_models(a@) == txout_models(b@)),
{
    if a.len() != b.len() {
        assert(txout_models(a@).len() != txout_models(b@).len());
        return false;
    }
    let n = a.len();
    let mut i: usize = 0;
    while i < n
        invariant
            0 <= i <= n,
            n == a.len() == b.len(),
            forall|k: int| 0 <= k < i ==> a@[k]@ == b@[k]@,
        decreases n - i,
    {
        if !eq_txout(&a[i], &b[i]) {
            assert(txout_models(a@)[i as int] != txout_models(b@)[i as int]);
            return false;
        }
        i += 1;
    }
    proof {
        assert(txout_models(a@) =~= txout_models(b@));
    }
    true
}

fn eq_proof(a: &ProofOfFunds, b: &ProofOfFunds) -> (r: bool)
    ensures
        r == (a@ == b@),
{
    match (a, b) {
        (ProofOfFunds::Full(ta), ProofOfFunds::Full(tb)) => ta.txid == tb.txid && eq_txouts(
            &ta.outputs,
            &tb.outputs,
        ),
        (ProofOfFunds::Witness(oa), ProofOfFunds::Witness(ob)) => eq_txout(oa, ob),
        _ => false,
    }
}

fn eq_input(a: &InputEntry, b: &InputEntry) -> (r: bool)
    ensures
        r == (a@ == b@),
{
    a.outpoint == b.outpoint && eq_proof(&a.proof, &b.proof)
}

/// Field-for-field equality of two accumulators: same inputs with the same
/// proof-of-funds metadata, same outputs, same locktime, same fee ledger.
pub fn accumulators_equal(a: &Accumulator, b: &Accumulator) -> (r: bool)
    ensures
        r == (a@ == b@),
{
    if a.locktime != b.locktime || a.fees_paid != b.fees_paid || a.fees_reimbursed
        != b.fees_reimbursed {
        return false;
    }
    if !eq_txouts(&a.outputs, &b.outputs) {
        return false;
    }
    if a.inputs.len() != b.inputs.len() {
        assert(a@.inputs.len() != b@.inputs.len());
        return false;
    }
    let n = a.inputs.len();
    let mut i: usize = 0;
    while i < n
        invariant
            0 <= i <= n,
            n == a.inputs.len() == b.inputs.len(),
            forall|k: int| 0 <= k < i ==> a@.inputs[k] == b@.inputs[k],
        decreases n - i,
    {
        if !eq_input(&a.inputs[i], &b.inputs[i]) {
            assert(a@.inputs[i as int] != b@.inputs[i as int]);
            return false;
        }
        i += 1;
    }
    proof {
        assert(a@.inputs =~= b@.inputs);
        assert(a@.outputs == b@.outputs);
        assert(a@ == b@);
    }
    true
}

} // verus!
