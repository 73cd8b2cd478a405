//! The library-wide laws: properties that relate several operations, stated
//! and proved once over the models the contracts use.

use vstd::prelude::*;
use vstd::multiset::Multiset;

use crate::model::{
    count_outputs_with_value, outpoints_of, spends_outpoint, AccumulatorModel, InputEntryModel,
    Outpoint, TxOutModel,
};
use crate::builder::{
    contribution_result, input_of, selection_init, selection_run, selection_step, SelectionState,
};
use crate::participant::{ParticipantWalletModel, UtxoCandidateModel};
use crate::strategies::{
    circulation_fits, circulation_run, lemma_circulation_fits_first, lemma_circulation_fits_next,
    merge_run, merge_two, pool_entry_result, pool_entry_wf, pool_run, pool_wallet, PoolEntryModel,
};

verus! {

/// No duplicate input: in every well-formed accumulator — and every
/// operation of this crate preserves well-formedness — the multiset of
/// (transaction id, output index) pairs across the inputs has no repeated
/// element, however many visits produced them.
pub proof fn lemma_no_duplicate_input(m: AccumulatorModel)
    requires
        m.wf(),
    ensures
        forall|op: Outpoint| outpoints_of(m.inputs).to_multiset().count(op) <= 1,
{
    broadcast use vstd::seq_lib::group_to_multiset_ensures;

    let ops = outpoints_of(m.inputs);
    assert(ops.no_duplicates()) by {
        assert(forall|i: int, j: int|
            0 <= i < j < m.inputs.len() ==> m.inputs[i].outpoint != m.inputs[j].outpoint);
        assert(forall|i: int| 0 <= i < ops.len() ==> ops[i] == m.inputs[i].outpoint);
    }
    ops.lemma_multiset_has_no_duplicates();
    assert forall|op: Outpoint| ops.to_multiset().count(op) <= 1 by {
        if ops.to_multiset().count(op) > 0 {
            assert(ops.to_multiset().contains(op));
        }
    }
}

/// The input multiset contributed by a sequence of fragments.
pub open spec fn fragment_inputs_ms(frags: Seq<AccumulatorModel>) -> Multiset<InputEntryModel>
    decreases frags.len(),
{
    if frags.len() == 0 {
        Multiset::empty()
    } else {
        frags.first().inputs.to_multiset().add(fragment_inputs_ms(frags.drop_first()))
    }
}

/// The output multiset contributed by a sequence of fragments.
pub open spec fn fragment_outputs_ms(frags: Seq<AccumulatorModel>) -> Multiset<TxOutModel>
    decreases frags.len(),
{
    if frags.len() == 0 {
        Multiset::empty()
    } else {
        frags.first().outputs.to_multiset().add(fragment_outputs_ms(frags.drop_first()))
    }
}

/// Merging yields exactly the seed's entries plus every fragment's entries,
/// as multisets.
proof fn lemma_merge_run_ms(acc: AccumulatorModel, frags: Seq<AccumulatorModel>)
    ensures
        merge_run(acc, frags).inputs.to_multiset() == acc.inputs.to_multiset().add(
            fragment_inputs_ms(frags),
        ),
        merge_run(acc, frags).outputs.to_multiset() == acc.outputs.to_multiset().add(
            fragment_outputs_ms(frags),
        ),
    decreases frags.len(),
{
    if frags.len() == 0 {
        assert(acc.inputs.to_multiset().add(Multiset::<InputEntryModel>::empty())
            =~= acc.inputs.to_multiset());
        assert(acc.outputs.to_multiset().add(Multiset::<TxOutModel>::empty())
            =~= acc.outputs.to_multiset());
    } else {
        let f0 = frags.first();
        let m = merge_two(acc, f0);
        lemma_merge_run_ms(m, frags.drop_first());
        vstd::seq_lib::lemma_multiset_commutative(acc.inputs, f0.inputs);
        vstd::seq_lib::lemma_multiset_commutative(acc.outputs, f0.outputs);
        assert(acc.inputs.to_multiset().add(f0.inputs.to_multiset()).add(
            fragment_inputs_ms(frags.drop_first()),
        ) =~= acc.inputs.to_multiset().add(
            f0.inputs.to_multiset().add(fragment_inputs_ms(frags.drop_first())),
        ));
        assert(acc.outputs.to_multiset().add(f0.outputs.to_multiset()).add(
            fragment_outputs_ms(frags.drop_first()),
        ) =~= acc.outputs.to_multiset().add(
            f0.outputs.to_multiset().add(fragment_outputs_ms(frags.drop_first())),
        ));
    }
}

/// A fragment can be pulled out of the sum at any position.
proof fn lemma_fragment_ms_remove(frags: Seq<AccumulatorModel>, j: int)
    requires
        0 <= j < frags.len(),
    ensures
        fragment_inputs_ms(frags) == frags[j].inputs.to_multiset().add(
            fragment_inputs_ms(frags.remove(j)),
        ),
        fragment_outputs_ms(frags) == frags[j].outputs.to_multiset().add(
            fragment_outputs_ms(frags.remove(j)),
        ),
    decreases j,
{
    if j == 0 {
        assert(frags.remove(0) =~= frags.drop_first());
    } else {
        let d = frags.drop_first();
        assert(frags.remove(j).first() == frags.first());
        assert(frags.remove(j).drop_first() =~= d.remove(j - 1));
        lemma_fragment_ms_remove(d, j - 1);
        assert(d[j - 1] == frags[j]);
        let a = frags.first().inputs.to_multiset();
        let b = frags[j].inputs.to_multiset();
        let x = fragment_inputs_ms(d.remove(j - 1));
        assert(a.add(b.add(x)) =~= b.add(a.add(x)));
        let ao = frags.first().outputs.to_multiset();
        let bo = frags[j].outputs.to_multiset();
        let xo = fragment_outputs_ms(d.remove(j - 1));
        assert(ao.add(bo.add(xo)) =~= bo.add(ao.add(xo)));
    }
}

/// The fragments' contribution depends only on which fragments there are,
/// not on their order.
proof fn lemma_fragment_ms_permutation(f1: Seq<AccumulatorModel>, f2: Seq<AccumulatorModel>)
    requires
        f1.to_multiset() == f2.to_multiset(),
    ensures
        fragment_inputs_ms(f1) == fragment_inputs_ms(f2),
        fragment_outputs_ms(f1) == fragment_outputs_ms(f2),
    decreases f1.len(),
{
    broadcast use vstd::seq_lib::group_to_multiset_ensures;

    if f1.len() == 0 {
        assert(f1.to_multiset().len() == f1.len());
        assert(f2.to_multiset().len() == f2.len());
        assert(f2.len() == 0);
    } else {
        let x = f1.first();
        assert(f1.contains(x));
        assert(f1.to_multiset().count(x) > 0);
        assert(f2.to_multiset().count(x) > 0);
        assert(f2.contains(x));
        let j = choose|j: int| 0 <= j < f2.len() && f2[j] == x;
        assert(f1.remove(0) =~= f1.drop_first());
        assert(f1.remove(0).to_multiset() == f1.to_multiset().remove(x));
        assert(f2.remove(j).to_multiset() == f2.to_multiset().remove(x));
        lemma_fragment_ms_permutation(f1.drop_first(), f2.remove(j));
        lemma_fragment_ms_remove(f2, j);
    }
}

/// Merge associativity: concatenating independently built fragments in any
/// order yields the same final input multiset and the same final output
/// multiset (though not necessarily the same order).
pub proof fn lemma_merge_any_order(
    acc: AccumulatorModel,
    f1: Seq<AccumulatorModel>,
    f2: Seq<AccumulatorModel>,
)
    requires
        f1.to_multiset() == f2.to_multiset(),
    ensures
        merge_run(acc, f1).inputs.to_multiset() == merge_run(acc, f2).inputs.to_multiset(),
        merge_run(acc, f1).outputs.to_multiset() == merge_run(acc, f2).outputs.to_multiset(),
{
    lemma_merge_run_ms(acc, f1);
    lemma_merge_run_ms(acc, f2);
    lemma_fragment_ms_permutation(f1, f2);
}

/// Merging preserves every fragment's own outputs — in particular each
/// sender's recipient output, value unchanged: whatever a fragment carried
/// occurs at least as often in the merged accumulator.
pub proof fn lemma_merge_preserves_fragment_outputs(
    acc: AccumulatorModel,
    frags: Seq<AccumulatorModel>,
    k: int,
)
    requires
        0 <= k < frags.len(),
    ensures
        forall|o: TxOutModel| merge_run(acc, frags).outputs.to_multiset().count(o)
            >= frags[k].outputs.to_multiset().count(o),
{
    lemma_merge_run_ms(acc, frags);
    lemma_fragment_ms_remove(frags, k);
}

/// A candidate walk never removes inputs.
proof fn lemma_selection_run_len(
    st: SelectionState,
    cands: Seq<UtxoCandidateModel>,
    max_count: int,
    uniform: Option<u64>,
    fee: u64,
)
    ensures
        selection_run(st, cands, max_count, uniform, fee).inputs.len() >= st.inputs.len(),
    decreases cands.len(),
{
    if cands.len() > 0 {
        lemma_selection_run_len(
            selection_step(st, cands.first(), max_count, uniform, fee),
            cands.drop_first(),
            max_count,
            uniform,
            fee,
        );
    }
}

/// Whatever a candidate walk spends it either spent before or took from the
/// candidates it was offered.
proof fn lemma_selection_run_sources(
    st: SelectionState,
    cands: Seq<UtxoCandidateModel>,
    max_count: int,
    uniform: Option<u64>,
    fee: u64,
)
    ensures
        forall|op: Outpoint|
            spends_outpoint(selection_run(st, cands, max_count, uniform, fee).inputs, op)
                ==> spends_outpoint(st.inputs, op) || (exists|j: int|
                0 <= j < cands.len() && (#[trigger] cands[j]).outpoint == op),
    decreases cands.len(),
{
    if cands.len() > 0 {
        let st2 = selection_step(st, cands.first(), max_count, uniform, fee);
        lemma_selection_run_sources(st2, cands.drop_first(), max_count, uniform, fee);
        assert forall|op: Outpoint|
            spends_outpoint(selection_run(st, cands, max_count, uniform, fee).inputs, op) implies
            spends_outpoint(st.inputs, op) || (exists|j: int|
            0 <= j < cands.len() && (#[trigger] cands[j]).outpoint == op) by {
            if spends_outpoint(st2.inputs, op) {
                if !spends_outpoint(st.inputs, op) {
                    // The step pushed the first candidate's input.
                    let i = choose|i: int| 0 <= i < st2.inputs.len() && st2.inputs[i].outpoint
                        == op;
                    assert(cands[0].outpoint == op);
                }
            } else {
                let j = choose|j: int|
                    0 <= j < cands.drop_first().len() && cands.drop_first()[j].outpoint == op;
                assert(cands[j + 1].outpoint == op);
            }
        }
    }
}

/// A walk with room under its cap, offered a fresh first candidate,
/// attaches at least one coin.
proof fn lemma_selection_adds_when_fresh(
    inputs0: Seq<InputEntryModel>,
    cands: Seq<UtxoCandidateModel>,
    max_count: int,
    uniform: Option<u64>,
    fee: u64,
)
    requires
        1 <= max_count,
        cands.len() > 0,
        !spends_outpoint(inputs0, cands[0].outpoint),
    ensures
        selection_run(selection_init(inputs0), cands, max_count, uniform, fee).inputs.len()
            > inputs0.len(),
{
    let st2 = selection_step(selection_init(inputs0), cands.first(), max_count, uniform, fee);
    assert(st2.inputs.len() == inputs0.len() + 1);
    lemma_selection_run_len(st2, cands.drop_first(), max_count, uniform, fee);
}

/// None of the wallet's coins is spent by the given inputs.
pub open spec fn wallet_fresh(inputs: Seq<InputEntryModel>, w: ParticipantWalletModel) -> bool {
    forall|i: int|
        0 <= i < w.utxos.len() ==> !spends_outpoint(inputs, (#[trigger] w.utxos[i]).outpoint)
}

/// Two wallets own no coin in common.
pub open spec fn wallets_disjoint(a: ParticipantWalletModel, b: ParticipantWalletModel) -> bool {
    forall|i: int, j: int|
        0 <= i < a.utxos.len() && 0 <= j < b.utxos.len() ==> (#[trigger] a.utxos[i]).outpoint != (
        #[trigger] b.utxos[j]).outpoint
}

/// Uniform-output equality: a uniform-output pass with a positive coin cap
/// and fixed amount `A` over `k` participants, each holding at least one
/// coin of its own (coins are owned once, and none is already spent by the
/// accumulator), adds at least `k` outputs of value exactly `A` — one per
/// participant — besides whatever change outputs it creates.
pub proof fn lemma_uniform_output_count(
    acc: AccumulatorModel,
    ws: Seq<ParticipantWalletModel>,
    max_count: int,
    amount: u64,
    fee: u64,
)
    requires
        1 <= max_count,
        circulation_fits(acc, ws, Some(amount), fee),
        forall|j: int| 0 <= j < ws.len() ==> (#[trigger] ws[j]).utxos.len() > 0,
        forall|j: int| 0 <= j < ws.len() ==> wallet_fresh(acc.inputs, #[trigger] ws[j]),
        forall|j: int, k: int|
            0 <= j < k < ws.len() ==> wallets_disjoint(#[trigger] ws[j], #[trigger] ws[k]),
    ensures
        circulation_run(acc, ws, max_count, Some(amount), fee) matches Some(p)
            ==> count_outputs_with_value(p.0.outputs, amount) >= count_outputs_with_value(
            acc.outputs,
            amount,
        ) + ws.len(),
    decreases ws.len(),
{
    let r = circulation_run(acc, ws, max_count, Some(amount), fee);
    if ws.len() > 0 && r is Some {
        let w0 = ws.first();
        assert(ws[0].utxos.len() > 0);
        assert(wallet_fresh(acc.inputs, ws[0]));
        lemma_circulation_fits_first(acc, ws, Some(amount), fee);
        let r0 = contribution_result(acc, w0, max_count, Some(amount), fee, false);
        assert(r0 is Some);
        let (a2, w2) = r0->Some_0;
        let st = selection_run(selection_init(acc.inputs), w0.utxos, max_count, Some(amount), fee);
        lemma_selection_adds_when_fresh(acc.inputs, w0.utxos, max_count, Some(amount), fee);
        assert(st.inputs.len() > acc.inputs.len());
        crate::builder::lemma_contribution_props(acc, w0, max_count, Some(amount), fee, false);
        assert(count_outputs_with_value(a2.outputs, amount) >= count_outputs_with_value(
            acc.outputs,
            amount,
        ) + 1);
        assert(a2.inputs == st.inputs);
        lemma_circulation_fits_next(acc, ws, max_count, Some(amount), fee);
        lemma_selection_run_sources(
            selection_init(acc.inputs),
            w0.utxos,
            max_count,
            Some(amount),
            fee,
        );
        let rest = ws.drop_first();
        assert forall|j: int| 0 <= j < rest.len() implies wallet_fresh(
            a2.inputs,
            #[trigger] rest[j],
        ) by {
            assert(rest[j] == ws[j + 1]);
            assert(wallet_fresh(acc.inputs, ws[j + 1]));
            assert(wallets_disjoint(ws[0], ws[j + 1]));
            assert forall|i: int| 0 <= i < rest[j].utxos.len() implies !spends_outpoint(
                a2.inputs,
                (#[trigger] rest[j].utxos[i]).outpoint,
            ) by {
                let op = rest[j].utxos[i].outpoint;
                if spends_outpoint(a2.inputs, op) {
                    assert(spends_outpoint(acc.inputs, op) || (exists|m: int|
                        0 <= m < w0.utxos.len() && (#[trigger] w0.utxos[m]).outpoint == op));
                    assert(!spends_outpoint(acc.inputs, op));
                    let m = choose|m: int|
                        0 <= m < w0.utxos.len() && w0.utxos[m].outpoint == op;
                    assert(ws[0].utxos[m].outpoint != ws[j + 1].utxos[i].outpoint);
                }
            }
        }
        assert(forall|j: int| 0 <= j < rest.len() ==> (#[trigger] rest[j]).utxos.len() > 0) by {
            assert(forall|j: int| 0 <= j < rest.len() ==> rest[j] == ws[j + 1]);
        }
        assert(forall|j: int, k: int|
            0 <= j < k < rest.len() ==> wallets_disjoint(#[trigger] rest[j], #[trigger] rest[k]))
            by {
            assert(forall|j: int| 0 <= j < rest.len() ==> rest[j] == ws[j + 1]);
        }
        lemma_uniform_output_count(a2, rest, max_count, amount, fee);
        let r1 = circulation_run(a2, rest, max_count, Some(amount), fee);
        assert(r1 is Some);
        let (a3, _) = r1->Some_0;
        assert(count_outputs_with_value(a3.outputs, amount) >= count_outputs_with_value(
            a2.outputs,
            amount,
        ) + rest.len());
    }
}

/// The set of outpoints a sequence of inputs spends.
pub open spec fn outpoint_set(s: Seq<InputEntryModel>) -> Set<Outpoint> {
    Set::new(|op: Outpoint| spends_outpoint(s, op))
}

/// The set of outpoints a sequence of candidates offers.
pub open spec fn candidate_outpoints(cands: Seq<UtxoCandidateModel>) -> Set<Outpoint> {
    Set::new(
        |op: Outpoint| exists|i: int| 0 <= i < cands.len() && (#[trigger] cands[i]).outpoint == op,
    )
}

/// Spending from a concatenation is spending from either half.
proof fn lemma_spends_concat(a: Seq<InputEntryModel>, b: Seq<InputEntryModel>, op: Outpoint)
    ensures
        spends_outpoint(a + b, op) <==> spends_outpoint(a, op) || spends_outpoint(b, op),
{
    if spends_outpoint(a + b, op) {
        let i = choose|i: int| 0 <= i < (a + b).len() && (a + b)[i].outpoint == op;
        if i < a.len() {
            assert(a[i].outpoint == op);
        } else {
            assert(b[i - a.len()].outpoint == op);
        }
    }
    if spends_outpoint(a, op) {
        let i = choose|i: int| 0 <= i < a.len() && a[i].outpoint == op;
        assert((a + b)[i].outpoint == op);
    }
    if spends_outpoint(b, op) {
        let i = choose|i: int| 0 <= i < b.len() && b[i].outpoint == op;
        assert((a + b)[a.len() + i].outpoint == op);
    }
}

/// What a walk picks when every candidate is fresh: the first coins of its
/// own list, up to the cap — independently of anything else.
proof fn lemma_selection_fresh_prefix(
    st: SelectionState,
    cands: Seq<UtxoCandidateModel>,
    cap: int,
    fee: u64,
)
    requires
        !st.stop,
        0 <= st.count < cap,
        forall|i: int, j: int|
            0 <= i < j < cands.len() ==> (#[trigger] cands[i]).outpoint != (
            #[trigger] cands[j]).outpoint,
        forall|i: int|
            0 <= i < cands.len() ==> !spends_outpoint(st.inputs, (#[trigger] cands[i]).outpoint),
    ensures
        ({
            let m = if cap - st.count <= cands.len() {
                cap - st.count
            } else {
                cands.len() as int
            };
            selection_run(st, cands, cap, None, fee).inputs == st.inputs + cands.take(
                m,
            ).map_values(|c: UtxoCandidateModel| input_of(c))
        }),
    decreases cands.len(),
{
    let m = if cap - st.count <= cands.len() {
        cap - st.count
    } else {
        cands.len() as int
    };
    if cands.len() == 0 {
        assert(st.inputs + cands.take(0).map_values(|c: UtxoCandidateModel| input_of(c))
            =~= st.inputs);
    } else {
        let c0 = cands.first();
        assert(!spends_outpoint(st.inputs, c0.outpoint));
        let st2 = selection_step(st, c0, cap, None, fee);
        assert(st2.inputs == st.inputs.push(input_of(c0)));
        if st.count + 1 >= cap {
            assert(st2.stop);
            crate::builder::lemma_selection_run_stopped(st2, cands.drop_first(), cap, None, fee);
            assert(m == 1);
            assert(st.inputs + cands.take(1).map_values(|c: UtxoCandidateModel| input_of(c))
                =~= st.inputs.push(input_of(c0)));
        } else {
            assert(!st2.stop);
            assert forall|i: int| 0 <= i < cands.drop_first().len() implies !spends_outpoint(
                st2.inputs,
                (#[trigger] cands.drop_first()[i]).outpoint,
            ) by {
                let op = cands.drop_first()[i].outpoint;
                assert(cands[i + 1].outpoint == op);
                assert(cands[0].outpoint != cands[i + 1].outpoint);
                if spends_outpoint(st2.inputs, op) {
                    let k = choose|k: int|
                        0 <= k < st2.inputs.len() && st2.inputs[k].outpoint == op;
                    if k < st.inputs.len() {
                        assert(spends_outpoint(st.inputs, op));
                    } else {
                        assert(st2.inputs[k] == input_of(c0));
                    }
                }
            }
            lemma_selection_fresh_prefix(st2, cands.drop_first(), cap, fee);
            let m2 = m - 1;
            assert(st2.inputs + cands.drop_first().take(m2).map_values(
                |c: UtxoCandidateModel| input_of(c),
            ) =~= st.inputs + cands.take(m).map_values(|c: UtxoCandidateModel| input_of(c)));
        }
    }
}

/// A pool entry is fresh for the accumulator when none of its coins is
/// already spent.
pub open spec fn entry_fresh(inputs: Seq<InputEntryModel>, e: PoolEntryModel) -> bool {
    forall|i: int|
        0 <= i < e.utxos.len() ==> !spends_outpoint(inputs, (#[trigger] e.utxos[i]).outpoint)
}

/// Two pool entries own no coin in common.
pub open spec fn entries_disjoint(a: PoolEntryModel, b: PoolEntryModel) -> bool {
    forall|i: int, j: int|
        0 <= i < a.utxos.len() && 0 <= j < b.utxos.len() ==> (#[trigger] a.utxos[i]).outpoint != (
        #[trigger] b.utxos[j]).outpoint
}

/// The coins a pool entry gets to consume: the first ones of its own list,
/// up to the cap.
pub open spec fn entry_picks(e: PoolEntryModel, cap: int) -> Seq<UtxoCandidateModel> {
    e.utxos.take(
        if cap <= e.utxos.len() {
            cap
        } else {
            e.utxos.len() as int
        },
    )
}

/// The outpoints a whole pool gets to consume.
pub open spec fn pool_picks(entries: Seq<PoolEntryModel>, cap: int) -> Set<Outpoint>
    decreases entries.len(),
{
    if entries.len() == 0 {
        Set::empty()
    } else {
        candidate_outpoints(entry_picks(entries.first(), cap)).union(
            pool_picks(entries.drop_first(), cap),
        )
    }
}

/// A fresh pool entry consumes exactly the first coins of its own list.
proof fn lemma_pool_entry_fresh(acc: AccumulatorModel, e: PoolEntryModel, cap: int, fee: u64)
    requires
        1 <= cap,
        pool_entry_wf(e),
        entry_fresh(acc.inputs, e),
    ensures
        pool_entry_result(acc, e, cap, fee).inputs == acc.inputs + entry_picks(e, cap).map_values(
            |c: UtxoCandidateModel| input_of(c),
        ),
{
    let st = selection_run(selection_init(acc.inputs), e.utxos, cap, None, fee);
    lemma_selection_fresh_prefix(selection_init(acc.inputs), e.utxos, cap, fee);
    assert(st.inputs == acc.inputs + entry_picks(e, cap).map_values(
        |c: UtxoCandidateModel| input_of(c),
    ));
    let r0 = contribution_result(acc, pool_wallet(e), cap, None, fee, false);
    if e.utxos.len() == 0 {
        assert(e.utxos.take(0) =~= e.utxos);
        assert(entry_picks(e, cap).map_values(|c: UtxoCandidateModel| input_of(c)).len() == 0);
        assert(acc.inputs + entry_picks(e, cap).map_values(|c: UtxoCandidateModel| input_of(c))
            =~= acc.inputs);
    } else {
        assert(entry_picks(e, cap).len() >= 1);
        assert(st.inputs.len() > acc.inputs.len());
    }
}

/// Under freshness and single ownership, the pool walk consumes exactly its
/// entries' own prefixes, whatever order the entries stand in.
proof fn lemma_pool_run_fresh(
    acc: AccumulatorModel,
    entries: Seq<PoolEntryModel>,
    cap: int,
    fee: u64,
)
    requires
        1 <= cap,
        forall|k: int| 0 <= k < entries.len() ==> pool_entry_wf(#[trigger] entries[k]),
        forall|k: int| 0 <= k < entries.len() ==> entry_fresh(acc.inputs, #[trigger] entries[k]),
        forall|k: int, l: int|
            0 <= k < l < entries.len() ==> entries_disjoint(
                #[trigger] entries[k],
                #[trigger] entries[l],
            ),
    ensures
        outpoint_set(pool_run(acc, entries, cap, fee).inputs) == outpoint_set(acc.inputs).union(
            pool_picks(entries, cap),
        ),
    decreases entries.len(),
{
    if entries.len() == 0 {
        assert(outpoint_set(acc.inputs).union(Set::<Outpoint>::empty())
            =~= outpoint_set(acc.inputs));
    } else {
        let e0 = entries.first();
        assert(pool_entry_wf(entries[0]) && entry_fresh(acc.inputs, entries[0]));
        let a2 = pool_entry_result(acc, e0, cap, fee);
        lemma_pool_entry_fresh(acc, e0, cap, fee);
        let picks0 = entry_picks(e0, cap).map_values(|c: UtxoCandidateModel| input_of(c));
        assert(outpoint_set(a2.inputs) =~= outpoint_set(acc.inputs).union(
            candidate_outpoints(entry_picks(e0, cap)),
        )) by {
            assert forall|op: Outpoint|
                spends_outpoint(a2.inputs, op) <==> spends_outpoint(acc.inputs, op) || (exists|
                    i: int,
                |
                    0 <= i < entry_picks(e0, cap).len() && (#[trigger] entry_picks(e0, cap)[i])
                        .outpoint == op) by {
                lemma_spends_concat(acc.inputs, picks0, op);
                if spends_outpoint(picks0, op) {
                    let i = choose|i: int| 0 <= i < picks0.len() && picks0[i].outpoint == op;
                    assert(entry_picks(e0, cap)[i].outpoint == op);
                }
                if exists|i: int|
                    0 <= i < entry_picks(e0, cap).len() && (#[trigger] entry_picks(e0, cap)[i])
                        .outpoint == op {
                    let i = choose|i: int|
                        0 <= i < entry_picks(e0, cap).len() && entry_picks(e0, cap)[i].outpoint
                            == op;
                    assert(picks0[i].outpoint == op);
                }
            }
        }
        let rest = entries.drop_first();
        assert forall|k: int| 0 <= k < rest.len() implies entry_fresh(
            a2.inputs,
            #[trigger] rest[k],
        ) by {
            assert(rest[k] == entries[k + 1]);
            assert(entry_fresh(acc.inputs, entries[k + 1]));
            assert(entries_disjoint(entries[0], entries[k + 1]));
            assert forall|i: int| 0 <= i < rest[k].utxos.len() implies !spends_outpoint(
                a2.inputs,
                (#[trigger] rest[k].utxos[i]).outpoint,
            ) by {
                let op = rest[k].utxos[i].outpoint;
                lemma_spends_concat(acc.inputs, picks0, op);
                if spends_outpoint(picks0, op) {
                    let m = choose|m: int| 0 <= m < picks0.len() && picks0[m].outpoint == op;
                    assert(entry_picks(e0, cap)[m] == e0.utxos[m]);
                    assert(entries[0].utxos[m].outpoint != entries[k + 1].utxos[i].outpoint);
                }
            }
        }
        assert(forall|k: int| 0 <= k < rest.len() ==> pool_entry_wf(#[trigger] rest[k])) by {
            assert(forall|k: int| 0 <= k < rest.len() ==> rest[k] == entries[k + 1]);
        }
        assert(forall|k: int, l: int|
            0 <= k < l < rest.len() ==> entries_disjoint(#[trigger] rest[k], #[trigger] rest[l]))
            by {
            assert(forall|k: int| 0 <= k < rest.len() ==> rest[k] == entries[k + 1]);
        }
        lemma_pool_run_fresh(a2, rest, cap, fee);
        assert(outpoint_set(acc.inputs).union(candidate_outpoints(entry_picks(e0, cap))).union(
            pool_picks(rest, cap),
        ) =~= outpoint_set(acc.inputs).union(
            candidate_outpoints(entry_picks(e0, cap)).union(pool_picks(rest, cap)),
        ));
    }
}

/// An entry can be pulled out of the pool's pick set at any position.
proof fn lemma_pool_picks_remove(entries: Seq<PoolEntryModel>, j: int, cap: int)
    requires
        0 <= j < entries.len(),
    ensures
        pool_picks(entries, cap) == candidate_outpoints(entry_picks(entries[j], cap)).union(
            pool_picks(entries.remove(j), cap),
        ),
    decreases j,
{
    if j == 0 {
        assert(entries.remove(0) =~= entries.drop_first());
    } else {
        let d = entries.drop_first();
        assert(entries.remove(j).first() == entries.first());
        assert(entries.remove(j).drop_first() =~= d.remove(j - 1));
        lemma_pool_picks_remove(d, j - 1, cap);
        assert(d[j - 1] == entries[j]);
        let a = candidate_outpoints(entry_picks(entries.first(), cap));
        let b = candidate_outpoints(entry_picks(entries[j], cap));
        let x = pool_picks(d.remove(j - 1), cap);
        assert(a.union(b.union(x)) =~= b.union(a.union(x)));
    }
}

/// The pool's pick set depends only on which entries there are, not on
/// their order.
proof fn lemma_pool_picks_permutation(p1: Seq<PoolEntryModel>, p2: Seq<PoolEntryModel>, cap: int)
    requires
        p1.to_multiset() == p2.to_multiset(),
    ensures
        pool_picks(p1, cap) == pool_picks(p2, cap),
    decreases p1.len(),
{
    broadcast use vstd::seq_lib::group_to_multiset_ensures;

    if p1.len() == 0 {
        assert(p1.to_multiset().len() == p1.len());
        assert(p2.to_multiset().len() == p2.len());
        assert(p2.len() == 0);
    } else {
        let x = p1.first();
        assert(p1.contains(x));
        assert(p1.to_multiset().count(x) > 0);
        assert(p2.to_multiset().count(x) > 0);
        assert(p2.contains(x));
        let j = choose|j: int| 0 <= j < p2.len() && p2[j] == x;
        assert(p1.remove(0) =~= p1.drop_first());
        assert(p1.remove(0).to_multiset() == p1.to_multiset().remove(x));
        assert(p2.remove(j).to_multiset() == p2.to_multiset().remove(x));
        lemma_pool_picks_permutation(p1.drop_first(), p2.remove(j), cap);
        lemma_pool_picks_remove(p2, j, cap);
    }
}

/// Pool determinism: for a fixed pool snapshot and a fixed per-entry cap,
/// the centralized-pool walk consumes the same set of outpoints whatever
/// order the entries are walked in, provided each coin is owned by exactly
/// one entry and none is already spent.
pub proof fn lemma_pool_determinism(
    acc: AccumulatorModel,
    p1: Seq<PoolEntryModel>,
    p2: Seq<PoolEntryModel>,
    cap: int,
    fee: u64,
)
    requires
        1 <= cap,
        p1.to_multiset() == p2.to_multiset(),
        forall|k: int| 0 <= k < p1.len() ==> pool_entry_wf(#[trigger] p1[k]),
        forall|k: int| 0 <= k < p1.len() ==> entry_fresh(acc.inputs, #[trigger] p1[k]),
        forall|k: int, l: int|
            0 <= k < l < p1.len() ==> entries_disjoint(#[trigger] p1[k], #[trigger] p1[l]),
        forall|k: int| 0 <= k < p2.len() ==> pool_entry_wf(#[trigger] p2[k]),
        forall|k: int| 0 <= k < p2.len() ==> entry_fresh(acc.inputs, #[trigger] p2[k]),
        forall|k: int, l: int|
            0 <= k < l < p2.len() ==> entries_disjoint(#[trigger] p2[k], #[trigger] p2[l]),
    ensures
        outpoint_set(pool_run(acc, p1, cap, fee).inputs) == outpoint_set(
            pool_run(acc, p2, cap, fee).inputs,
        ),
{
    lemma_pool_run_fresh(acc, p1, cap, fee);
    lemma_pool_run_fresh(acc, p2, cap, fee);
    lemma_pool_picks_permutation(p1, p2, cap);
}

} // verus!
