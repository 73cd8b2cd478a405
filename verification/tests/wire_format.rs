use psbt_batch::codec::{
    accumulators_equal, deserialize, deserialize_hex, hex_decode, hex_encode, serialize,
    serialize_hex,
};
use psbt_batch::errors::BatchError;
use psbt_batch::model::{
    Accumulator, FundingTx, InputEntry, Outpoint, ProofOfFunds, TxOut, Txid,
};
use psbt_batch::participant::{ParticipantWallet, UtxoCandidate};
use psbt_batch::strategies::{
    hex_relay_circulation, relay_contribution, seed_accumulator, sequential_circulation,
};
use psbt_batch::uri::build_v1_pj_uri;

fn txid(n: u64) -> Txid {
    Txid { w0: n, w1: n * 3, w2: n * 5, w3: n * 7 }
}

fn full_input(id: u64, vout: u32, value: u64) -> InputEntry {
    InputEntry {
        outpoint: Outpoint { txid: txid(id), vout },
        proof: ProofOfFunds::Full(FundingTx {
            txid: txid(id),
            outputs: vec![
                TxOut { value, script: vec![1, 2, 3] },
                TxOut { value: value + 1, script: vec![] },
            ],
        }),
    }
}

fn witness_input(id: u64, vout: u32, value: u64) -> InputEntry {
    InputEntry {
        outpoint: Outpoint { txid: txid(id), vout },
        proof: ProofOfFunds::Witness(TxOut { value, script: vec![9, 8] }),
    }
}

fn assert_round_trips(acc: &Accumulator) {
    let bytes = serialize(acc);
    let back = deserialize(&bytes).unwrap();
    assert!(accumulators_equal(acc, &back));
    let hex = serialize_hex(acc);
    let back = deserialize_hex(&hex).unwrap();
    assert!(accumulators_equal(acc, &back));
}

/// Round trip of the empty accumulator: no inputs, no outputs.
#[test]
fn round_trip_empty() {
    let acc = Accumulator {
        inputs: vec![],
        outputs: vec![],
        locktime: 0,
        fees_paid: 0,
        fees_reimbursed: 0,
    };
    assert_round_trips(&acc);
}

/// Round trip with one input and one output.
#[test]
fn round_trip_single() {
    let acc = Accumulator {
        inputs: vec![full_input(1, 0, 1_000)],
        outputs: vec![TxOut { value: 900, script: vec![0xde, 0xad] }],
        locktime: 0,
        fees_paid: 100,
        fees_reimbursed: 0,
    };
    assert_round_trips(&acc);
}

/// Round trip with several inputs and outputs, both proof-of-funds kinds,
/// and a nonzero locktime.
#[test]
fn round_trip_many() {
    let acc = Accumulator {
        inputs: vec![
            full_input(1, 0, 1_000),
            witness_input(2, 3, 42),
            full_input(3, 1, u64::MAX),
        ],
        outputs: vec![
            TxOut { value: 0, script: vec![] },
            TxOut { value: 123_456, script: (0u8..32).collect() },
        ],
        locktime: 500_000,
        fees_paid: 7,
        fees_reimbursed: 11,
    };
    assert_round_trips(&acc);
}

/// Round trip of an accumulator assembled by a real strategy pass.
#[test]
fn round_trip_after_circulation() {
    let initiator = ParticipantWallet {
        utxos: vec![UtxoCandidate {
            outpoint: Outpoint { txid: txid(50), vout: 0 },
            txout: TxOut { value: 500_000, script: vec![1] },
            funding: FundingTx {
                txid: txid(50),
                outputs: vec![TxOut { value: 500_000, script: vec![1] }],
            },
        }],
        scripts: vec![vec![1, 0]],
        revealed: 0,
    };
    let p = ParticipantWallet {
        utxos: vec![UtxoCandidate {
            outpoint: Outpoint { txid: txid(60), vout: 0 },
            txout: TxOut { value: 70_000, script: vec![2] },
            funding: FundingTx {
                txid: txid(60),
                outputs: vec![TxOut { value: 70_000, script: vec![2] }],
            },
        }],
        scripts: vec![vec![2, 0], vec![2, 1]],
        revealed: 0,
    };
    let seed = seed_accumulator(&initiator, vec![7, 7], 400_000, 1).unwrap();
    let (acc, _) = sequential_circulation(seed, vec![p], 1, 5_000).unwrap();
    assert_round_trips(&acc);
}

/// The hex relay produces exactly what the in-memory ring produces.
#[test]
fn hex_relay_matches_in_memory_ring() {
    let make = || {
        let mut parts = Vec::new();
        for p in 0u64..3 {
            parts.push(ParticipantWallet {
                utxos: vec![UtxoCandidate {
                    outpoint: Outpoint { txid: txid(100 + p), vout: 0 },
                    txout: TxOut { value: 30_000 + p, script: vec![p as u8] },
                    funding: FundingTx {
                        txid: txid(100 + p),
                        outputs: vec![TxOut { value: 30_000 + p, script: vec![p as u8] }],
                    },
                }],
                scripts: vec![vec![p as u8, 0], vec![p as u8, 1]],
                revealed: 0,
            });
        }
        parts
    };
    let initiator = ParticipantWallet {
        utxos: vec![UtxoCandidate {
            outpoint: Outpoint { txid: txid(90), vout: 0 },
            txout: TxOut { value: 200_000, script: vec![9] },
            funding: FundingTx {
                txid: txid(90),
                outputs: vec![TxOut { value: 200_000, script: vec![9] }],
            },
        }],
        scripts: vec![vec![9, 0]],
        revealed: 0,
    };
    let seed_a = seed_accumulator(&initiator, vec![7, 7], 150_000, 1).unwrap();
    let seed_b = seed_a.clone();
    let (over_hex, _) = hex_relay_circulation(seed_a, make(), 2_500).unwrap();
    let (in_memory, _) = sequential_circulation(seed_b, make(), 1, 2_500).unwrap();
    assert!(accumulators_equal(&over_hex, &in_memory));
}

/// The hexadecimal rendering agrees with the reference encoder.
#[test]
fn hex_matches_reference_encoder() {
    let data = vec![0x00u8, 0x1a, 0xff, 0x7b, 0x80];
    assert_eq!(hex_encode(&data), hex::encode(&data).into_bytes());

    let acc = Accumulator {
        inputs: vec![witness_input(4, 1, 77)],
        outputs: vec![TxOut { value: 70, script: vec![5] }],
        locktime: 1,
        fees_paid: 0,
        fees_reimbursed: 7,
    };
    assert_eq!(serialize_hex(&acc), hex::encode(serialize(&acc)).into_bytes());
}

/// Decoding accepts uppercase digits, as the reference decoder does.
#[test]
fn hex_decode_uppercase() {
    let lower = hex_decode(&b"00af1b".to_vec()).unwrap();
    let upper = hex_decode(&b"00AF1B".to_vec()).unwrap();
    assert_eq!(lower, upper);
    assert_eq!(lower, hex::decode("00af1b").unwrap());
}

/// Malformed transit payloads fail with the deserialization error.
#[test]
fn malformed_payloads_are_rejected() {
    // Not hexadecimal at all.
    assert_eq!(
        deserialize_hex(&b"zz".to_vec()).unwrap_err(),
        BatchError::Deserialization
    );
    // Odd number of digits.
    assert_eq!(
        deserialize_hex(&b"abc".to_vec()).unwrap_err(),
        BatchError::Deserialization
    );
    // Valid hexadecimal, but truncated bytes.
    assert_eq!(
        deserialize_hex(&b"0011".to_vec()).unwrap_err(),
        BatchError::Deserialization
    );
    assert_eq!(
        deserialize(&vec![1, 2, 3]).unwrap_err(),
        BatchError::Deserialization
    );
    // A valid serialization with trailing garbage.
    let acc = Accumulator {
        inputs: vec![],
        outputs: vec![],
        locktime: 0,
        fees_paid: 0,
        fees_reimbursed: 0,
    };
    let mut bytes = serialize(&acc);
    bytes.push(0);
    assert_eq!(deserialize(&bytes).unwrap_err(), BatchError::Deserialization);
    // An unknown proof-of-funds tag.
    let with_input = Accumulator {
        inputs: vec![witness_input(1, 0, 5)],
        outputs: vec![],
        locktime: 0,
        fees_paid: 0,
        fees_reimbursed: 0,
    };
    let mut bytes = serialize(&with_input);
    // The tag byte sits after locktime, ledger, input count and outpoint.
    let tag_at = 4 + 8 + 8 + 8 + 32 + 4;
    bytes[tag_at] = 9;
    assert_eq!(deserialize(&bytes).unwrap_err(), BatchError::Deserialization);
}

/// Field-for-field equality tells accumulators apart.
#[test]
fn equality_is_exact() {
    let a = Accumulator {
        inputs: vec![full_input(1, 0, 10)],
        outputs: vec![TxOut { value: 10, script: vec![1] }],
        locktime: 0,
        fees_paid: 0,
        fees_reimbursed: 0,
    };
    let mut b = a.clone();
    assert!(accumulators_equal(&a, &b));
    b.outputs[0].value = 11;
    assert!(!accumulators_equal(&a, &b));
    let mut c = a.clone();
    c.inputs[0].outpoint.vout = 1;
    assert!(!accumulators_equal(&a, &c));
}

/// One relay hop: decode, contribute one coin, re-encode; a malformed
/// payload aborts the hop.
#[test]
fn relay_hop() {
    let p = ParticipantWallet {
        utxos: vec![UtxoCandidate {
            outpoint: Outpoint { txid: txid(70), vout: 0 },
            txout: TxOut { value: 20_000, script: vec![3] },
            funding: FundingTx {
                txid: txid(70),
                outputs: vec![TxOut { value: 20_000, script: vec![3] }],
            },
        }],
        scripts: vec![vec![3, 0]],
        revealed: 0,
    };
    let bad = relay_contribution(&b"zz".to_vec(), p.clone(), 100, false);
    assert_eq!(bad.unwrap_err(), BatchError::Deserialization);

    let acc = Accumulator {
        inputs: vec![],
        outputs: vec![],
        locktime: 0,
        fees_paid: 0,
        fees_reimbursed: 0,
    };
    let hex = serialize_hex(&acc);
    let (hex, p2) = relay_contribution(&hex, p, 100, false).unwrap();
    assert_eq!(p2.revealed, 1);
    let back = deserialize_hex(&hex).unwrap();
    assert_eq!(back.inputs.len(), 1);
    assert_eq!(back.outputs.len(), 1);
    assert_eq!(back.outputs[0].value, 20_100);
    assert_eq!(back.fees_reimbursed, 100);
}

/// The input value splits between witness-only and fully backed proofs.
#[test]
fn input_value_split_by_proof_kind() {
    let acc = Accumulator {
        inputs: vec![
            full_input(1, 0, 1_000),
            witness_input(2, 3, 42),
            full_input(3, 0, 500),
            witness_input(4, 0, 8),
        ],
        outputs: vec![],
        locktime: 0,
        fees_paid: 0,
        fees_reimbursed: 0,
    };
    let (witness_total, full_total) = acc.input_value_split();
    assert_eq!(witness_total, 50);
    assert_eq!(full_total, 1_500);
    assert_eq!(witness_total + full_total, acc.total_input_value());
}

/// The version-1 payjoin URI layout.
#[test]
fn v1_pj_uri_layout() {
    let uri = build_v1_pj_uri("bc1qexampleaddress", "https://example.com");
    assert_eq!(uri, "bitcoin:bc1qexampleaddress?pj=https://example.com");
}
