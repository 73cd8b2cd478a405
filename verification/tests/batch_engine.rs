use psbt_batch::builder::add_contribution;
use psbt_batch::engine::{run_batch, Strategy};
use psbt_batch::errors::BatchError;
use psbt_batch::model::{Accumulator, FundingTx, Outpoint, TxOut, Txid};
use psbt_batch::participant::{ParticipantWallet, UtxoCandidate};
use psbt_batch::strategies::{
    collect_pool, foreign_input_embedding, gather_candidates, merge_fragments, pool_circulation,
    seed_accumulator, sequential_circulation, uniform_output_circulation,
};

fn txid(n: u64) -> Txid {
    Txid { w0: n, w1: n + 1, w2: n + 2, w3: n + 3 }
}

fn candidate(id: u64, vout: u32, value: u64, script_tag: u8) -> UtxoCandidate {
    let spk = vec![script_tag, script_tag, script_tag];
    let mut outputs = Vec::new();
    for i in 0..=vout {
        outputs.push(TxOut { value: if i == vout { value } else { 1 }, script: spk.clone() });
    }
    UtxoCandidate {
        outpoint: Outpoint { txid: txid(id), vout },
        txout: TxOut { value, script: spk.clone() },
        funding: FundingTx { txid: txid(id), outputs },
    }
}

fn wallet(utxos: Vec<UtxoCandidate>, script_base: u8, scripts: usize) -> ParticipantWallet {
    let mut s = Vec::new();
    for i in 0..scripts {
        s.push(vec![script_base, i as u8]);
    }
    ParticipantWallet { utxos, scripts: s, revealed: 0 }
}

fn initiator_wallet() -> ParticipantWallet {
    wallet(
        vec![
            candidate(10, 0, 400_000, 100),
            candidate(20, 0, 377_777, 100),
            candidate(30, 0, 500_000, 100),
            candidate(40, 0, 300_000, 100),
        ],
        100,
        4,
    )
}

fn five_participants() -> Vec<ParticipantWallet> {
    let mut parts = Vec::new();
    for p in 0u64..5 {
        parts.push(wallet(
            vec![
                candidate(1000 + 10 * p, 0, 100_000, 110 + p as u8),
                candidate(1001 + 10 * p, 1, 50_000, 110 + p as u8),
            ],
            110 + p as u8,
            3,
        ));
    }
    parts
}

fn input_outpoints(acc: &Accumulator) -> Vec<Outpoint> {
    acc.inputs.iter().map(|e| e.outpoint).collect()
}

/// The concrete end-to-end scenario: a 777,777-unit recipient output funded
/// by two initiator coins, five sequential non-payer contributions at a
/// 77,777 fee, and a 388,885 payer top-up.
#[test]
fn sequential_batch_scenario() {
    let initiator = initiator_wallet();
    let participants = five_participants();
    let recipient_script = vec![7u8, 7, 7];

    let seed = seed_accumulator(&initiator, recipient_script.clone(), 777_777, 2).unwrap();
    assert_eq!(seed.inputs.len(), 2);
    assert_eq!(seed.outputs.len(), 1);
    assert_eq!(seed.outputs[0].value, 777_777);
    assert_eq!(seed.fees_paid, 0);
    assert_eq!(seed.locktime, 0);

    let (acc, _parts) = sequential_circulation(seed, participants, 2, 77_777).unwrap();
    // Each participant contributed both coins and one reimbursed output.
    assert_eq!(acc.inputs.len(), 2 + 10);
    assert_eq!(acc.outputs.len(), 1 + 5);
    assert_eq!(acc.fees_reimbursed, 5 * 77_777);

    let (acc, _initiator) = add_contribution(acc, initiator, 2, None, 388_885, true).unwrap();
    // Exactly: the named recipient output, five participant outputs, one
    // initiator change output.
    assert_eq!(acc.outputs.len(), 7);
    assert_eq!(acc.fees_paid, 388_885);
    assert_eq!(acc.fees_reimbursed, 388_885);

    // Fee balance, fees fully internalized: output value equals input value
    // minus zero.
    let total_in = acc.total_input_value();
    let total_out = acc.total_output_value();
    assert_eq!(total_in, total_out);

    // Participant outputs carry their coins' value plus the fee.
    assert_eq!(acc.outputs[1].value, 150_000 + 77_777);
    // The top-up change: 500,000 + 300,000 - 388,885.
    assert_eq!(acc.outputs[6].value, 411_115);
}

/// Fee balance restated over the ledger: inputs == outputs + net fee.
#[test]
fn fee_balance_ledger() {
    let initiator = initiator_wallet();
    let participants = five_participants();
    let seed = seed_accumulator(&initiator, vec![7, 7, 7], 700_000, 2).unwrap();
    // The seed surplus (77,777) is paid into the pot.
    assert_eq!(seed.fees_paid, 77_777);
    let (acc, _) = sequential_circulation(seed, participants, 1, 10_000).unwrap();
    let net = acc.fees_paid as i128 - acc.fees_reimbursed as i128;
    assert_eq!(
        acc.total_input_value() as i128,
        acc.total_output_value() as i128 + net
    );
}

/// No duplicate input, even when the same wallet is visited more than once.
#[test]
fn no_duplicate_inputs_across_rounds() {
    let initiator = initiator_wallet();
    let participants = five_participants();
    let seed = seed_accumulator(&initiator, vec![7, 7, 7], 777_777, 2).unwrap();
    let (acc, parts) = sequential_circulation(seed, participants, 2, 1_000).unwrap();
    let inputs_after_first = acc.inputs.len();
    // A second round over the same wallets finds every coin already spent.
    let (acc, _) = sequential_circulation(acc, parts, 2, 1_000).unwrap();
    assert_eq!(acc.inputs.len(), inputs_after_first);
    let ops = input_outpoints(&acc);
    for i in 0..ops.len() {
        for j in (i + 1)..ops.len() {
            assert_ne!(ops[i], ops[j]);
        }
    }
}

/// A participant holding a coin the accumulator already spends skips it.
#[test]
fn dedup_guard_skips_known_coin() {
    let initiator = initiator_wallet();
    // This participant claims the initiator's first coin plus one of its own.
    let sneaky = wallet(vec![candidate(10, 0, 400_000, 99), candidate(900, 0, 5_000, 99)], 99, 2);
    let seed = seed_accumulator(&initiator, vec![7, 7, 7], 700_000, 2).unwrap();
    let (acc, _) = sequential_circulation(seed, vec![sneaky], 2, 100).unwrap();
    assert_eq!(acc.inputs.len(), 3);
    let ops = input_outpoints(&acc);
    for i in 0..ops.len() {
        for j in (i + 1)..ops.len() {
            assert_ne!(ops[i], ops[j]);
        }
    }
    // Only the fresh coin was attached and reimbursed.
    assert_eq!(acc.outputs.last().unwrap().value, 5_000 + 100);
}

/// A participant with no eligible coin contributes neither input nor output
/// and is not an error.
#[test]
fn empty_participant_is_skipped() {
    let initiator = initiator_wallet();
    let empty = wallet(vec![], 99, 2);
    let seed = seed_accumulator(&initiator, vec![7, 7, 7], 700_000, 2).unwrap();
    let inputs_before = seed.inputs.len();
    let outputs_before = seed.outputs.len();
    let (acc, parts) = sequential_circulation(seed, vec![empty], 2, 100).unwrap();
    assert_eq!(acc.inputs.len(), inputs_before);
    assert_eq!(acc.outputs.len(), outputs_before);
    assert_eq!(acc.fees_reimbursed, 0);
    // No address was revealed either.
    assert_eq!(parts[0].revealed, 0);
}

/// The per-call maximum bounds the attached coins for every cap: a zero
/// cap attaches nothing, a cap of one attaches exactly one.
#[test]
fn coin_cap_bounds_attachments() {
    let initiator = initiator_wallet();
    let seed = seed_accumulator(&initiator, vec![7, 7, 7], 700_000, 2).unwrap();
    let inputs_before = seed.inputs.len();
    let outputs_before = seed.outputs.len();

    let p = five_participants().remove(0);
    let (acc, w2) = add_contribution(seed, p, 0, None, 100, false).unwrap();
    assert_eq!(acc.inputs.len(), inputs_before);
    assert_eq!(acc.outputs.len(), outputs_before);
    assert_eq!(acc.fees_reimbursed, 0);
    assert_eq!(w2.revealed, 0);

    let p = five_participants().remove(0);
    let (acc, _) = add_contribution(acc, p, 1, None, 100, false).unwrap();
    assert_eq!(acc.inputs.len(), inputs_before + 1);
    assert_eq!(acc.outputs.last().unwrap().value, 100_000 + 100);
}

/// The seed fails exactly when the selected coins cannot cover the amount.
#[test]
fn seed_insufficient_funds() {
    let initiator = initiator_wallet();
    let r = seed_accumulator(&initiator, vec![7, 7, 7], 800_000, 2);
    assert_eq!(r.unwrap_err(), BatchError::InsufficientFunds);
}

/// The payer top-up fails exactly when its gathered value is below the fee.
#[test]
fn payer_top_up_insufficient_funds() {
    let initiator = initiator_wallet();
    let seed = seed_accumulator(&initiator, vec![7, 7, 7], 777_777, 2).unwrap();
    // Remaining initiator coins gather 800,000 — less than this fee.
    let r = add_contribution(seed, initiator, 2, None, 900_000, true);
    assert_eq!(r.unwrap_err(), BatchError::InsufficientFunds);
}

/// Merge associativity: fragments concatenated in any order give the same
/// input and output multisets, and every sender's recipient output value
/// survives unchanged.
#[test]
fn merge_fragments_any_order() {
    let initiator = initiator_wallet();
    let seed = seed_accumulator(&initiator, vec![7, 7, 7], 700_000, 2).unwrap();
    let mut frags = Vec::new();
    for (i, p) in five_participants().into_iter().enumerate() {
        let frag = seed_accumulator(&p, vec![110 + i as u8, 0], 120_000, 2).unwrap();
        assert_eq!(frag.outputs[0].value, 120_000);
        frags.push(frag);
    }
    let reordered = vec![
        frags[2].clone(),
        frags[0].clone(),
        frags[4].clone(),
        frags[1].clone(),
        frags[3].clone(),
    ];
    let a = merge_fragments(seed.clone(), frags);
    let b = merge_fragments(seed, reordered);

    let mut ops_a = input_outpoints(&a);
    let mut ops_b = input_outpoints(&b);
    ops_a.sort_by_key(|o| (o.txid.w0, o.vout));
    ops_b.sort_by_key(|o| (o.txid.w0, o.vout));
    assert_eq!(ops_a, ops_b);

    let mut outs_a: Vec<(u64, Vec<u8>)> =
        a.outputs.iter().map(|o| (o.value, o.script.clone())).collect();
    let mut outs_b: Vec<(u64, Vec<u8>)> =
        b.outputs.iter().map(|o| (o.value, o.script.clone())).collect();
    outs_a.sort();
    outs_b.sort();
    assert_eq!(outs_a, outs_b);

    // Each fragment's recipient output value is still there.
    assert_eq!(a.outputs.iter().filter(|o| o.value == 120_000).count(), 5);
    assert_eq!(b.outputs.iter().filter(|o| o.value == 120_000).count(), 5);
}

/// Uniform-output equality: one output of exactly the fixed amount per
/// funded participant, on top of the initiator's own outputs.
#[test]
fn uniform_output_denominations() {
    let initiator = initiator_wallet();
    let participants = five_participants();
    let seed = seed_accumulator(&initiator, vec![7, 7, 7], 700_000, 2).unwrap();
    let before = seed.count_outputs_of_value(130_000);
    let (acc, _) = uniform_output_circulation(seed, participants, 2, 130_000, 10_000).unwrap();
    // Each participant gathered 150,000: enough for the 130,000 target plus
    // fee; one uniform output each.
    assert_eq!(acc.count_outputs_of_value(130_000), before + 5);
    // Each also got a change output of 150,000 + 10,000 - 130,000.
    assert_eq!(acc.count_outputs_of_value(30_000), 5);
}

/// A uniform contribution that cannot cover the fixed amount aborts.
#[test]
fn uniform_insufficient_funds() {
    let initiator = initiator_wallet();
    let poor = wallet(vec![candidate(900, 0, 10_000, 99)], 99, 2);
    let seed = seed_accumulator(&initiator, vec![7, 7, 7], 700_000, 2).unwrap();
    let r = uniform_output_circulation(seed, vec![poor], 2, 130_000, 1_000);
    assert_eq!(r.unwrap_err(), BatchError::InsufficientFunds);
}

/// Pool determinism: with a fixed snapshot and a cap of two coins per
/// entry, the consumed outpoints do not depend on the walk order.
#[test]
fn pool_walk_order_invariant() {
    let initiator = initiator_wallet();
    let seed = seed_accumulator(&initiator, vec![7, 7, 7], 700_000, 2).unwrap();

    let mut participants = Vec::new();
    for p in 0u64..3 {
        participants.push(wallet(
            vec![
                candidate(2000 + 10 * p, 0, 30_000, 120 + p as u8),
                candidate(2001 + 10 * p, 0, 40_000, 120 + p as u8),
                candidate(2002 + 10 * p, 0, 50_000, 120 + p as u8),
            ],
            120 + p as u8,
            2,
        ));
    }
    let (pool, _wallets) = collect_pool(participants);
    let mut reversed = pool.clone();
    reversed.reverse();

    let a = pool_circulation(seed.clone(), &pool, 2, 7_000);
    let b = pool_circulation(seed, &reversed, 2, 7_000);

    let mut ops_a = input_outpoints(&a);
    let mut ops_b = input_outpoints(&b);
    ops_a.sort_by_key(|o| (o.txid.w0, o.vout));
    ops_b.sort_by_key(|o| (o.txid.w0, o.vout));
    assert_eq!(ops_a, ops_b);
    // Two coins per entry were consumed, never the third.
    assert_eq!(a.inputs.len(), 2 + 6);
    // Every entry is reimbursed unconditionally: 30,000 + 40,000 + 7,000.
    assert_eq!(a.count_outputs_of_value(77_000), 3);
    assert_eq!(a.fees_reimbursed, 21_000);
    assert_eq!(a.fees_paid, seed_fees_paid());
}

fn seed_fees_paid() -> u64 {
    // 400,000 + 377,777 - 700,000
    77_777
}

/// Foreign-input embedding: the initiator absorbs the donated value into
/// one change output of its own; no reimbursement output is created.
#[test]
fn foreign_embedding_absorbs_value() {
    let initiator = initiator_wallet();
    let participants = five_participants();
    let seed = seed_accumulator(&initiator, vec![7, 7, 7], 700_000, 2).unwrap();
    let outputs_before = seed.outputs.len();
    let foreign = gather_candidates(&participants);
    assert_eq!(foreign.len(), 10);
    let (acc, init2) = foreign_input_embedding(seed, initiator, foreign);
    assert_eq!(acc.inputs.len(), 2 + 10);
    // Exactly one new output, carrying the whole donated value.
    assert_eq!(acc.outputs.len(), outputs_before + 1);
    assert_eq!(acc.outputs.last().unwrap().value, 5 * 150_000);
    assert_eq!(acc.fees_reimbursed, 0);
    assert_eq!(init2.revealed, 1);
    assert_eq!(acc.total_input_value(), acc.total_output_value() + acc.fees_paid);
}

/// The address-reveal cursor advances monotonically, one script at a time.
#[test]
fn reveal_cursor_advances() {
    let mut w = wallet(vec![], 5, 3);
    assert_eq!(w.reveal_next_script(), vec![5, 0]);
    assert_eq!(w.reveal_next_script(), vec![5, 1]);
    assert_eq!(w.revealed, 2);
}

/// The pool discovery phase designates one fresh script per participant.
#[test]
fn collect_pool_designates_scripts() {
    let participants = five_participants();
    let (pool, wallets) = collect_pool(participants);
    assert_eq!(pool.len(), 5);
    for (i, e) in pool.iter().enumerate() {
        assert_eq!(e.script, vec![110 + i as u8, 0]);
        assert_eq!(e.utxos.len(), 2);
        assert_eq!(wallets[i].revealed, 1);
    }
}

/// The engine drives every strategy to a balanced, well-formed result.
#[test]
fn run_batch_all_strategies() {
    let strategies = vec![
        Strategy::SequentialCirculation { max_count: 2 },
        Strategy::HexRelayCirculation,
        Strategy::UniformOutputCirculation { max_count: 2 },
        Strategy::CentralizedPool { max_count: 2 },
        Strategy::IndependentBuildThenMerge { fragment_amount: 120_000, fragment_inputs: 2 },
        Strategy::ForeignInputEmbedding,
    ];
    for strategy in &strategies {
        let fee = match strategy {
            Strategy::ForeignInputEmbedding => 0,
            _ => 50_000,
        };
        // The uniform strategy shares the recipient amount as its fixed
        // denomination, so it needs one every participant can cover.
        let amount = match strategy {
            Strategy::UniformOutputCirculation { .. } => 100_000,
            _ => 700_000,
        };
        let (acc, _, _) = run_batch(
            strategy,
            initiator_wallet(),
            five_participants(),
            vec![7, 7, 7],
            amount,
            2,
            fee,
        )
        .unwrap();
        assert_eq!(acc.locktime, 0);
        // The initiator never promises out more than was paid into the pot.
        assert!(acc.fees_paid >= acc.fees_reimbursed);
        let net = acc.fees_paid as i128 - acc.fees_reimbursed as i128;
        assert_eq!(
            acc.total_input_value() as i128,
            acc.total_output_value() as i128 + net
        );
        let ops = input_outpoints(&acc);
        for i in 0..ops.len() {
            for j in (i + 1)..ops.len() {
                assert_ne!(ops[i], ops[j]);
            }
        }
    }
}

/// A top-up that can attach nothing while fees are owed is fatal: the
/// batch must not complete with more reimbursement promised than paid in.
#[test]
fn run_batch_empty_top_up_is_fatal() {
    // The seed consumes both initiator coins, so nothing is left to fund
    // the per-participant fees.
    let initiator = wallet(
        vec![candidate(10, 0, 400_000, 100), candidate(20, 0, 377_777, 100)],
        100,
        4,
    );
    let r = run_batch(
        &Strategy::SequentialCirculation { max_count: 2 },
        initiator,
        five_participants(),
        vec![7, 7, 7],
        700_000,
        2,
        1_000,
    );
    assert_eq!(r.unwrap_err(), BatchError::InsufficientFunds);
}

/// The engine propagates the one fatal failure.
#[test]
fn run_batch_insufficient_funds() {
    let r = run_batch(
        &Strategy::SequentialCirculation { max_count: 2 },
        initiator_wallet(),
        five_participants(),
        vec![7, 7, 7],
        5_000_000,
        2,
        1_000,
    );
    assert_eq!(r.unwrap_err(), BatchError::InsufficientFunds);
}
