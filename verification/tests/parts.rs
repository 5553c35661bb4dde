use ordinal_transaction_builder::address::{Address, Network, Payload, WitnessProgram};
use ordinal_transaction_builder::amount::Amount;
use ordinal_transaction_builder::error::{Error, Invariant};
use ordinal_transaction_builder::fee_rate::{FeeRate, VBytes};
use ordinal_transaction_builder::ordered::{SortedMap, SortedSet};
use ordinal_transaction_builder::outpoint::{InscriptionId, OutPoint, SatPoint, Txid};
use ordinal_transaction_builder::text::duplicate_address_message;
use ordinal_transaction_builder::transaction::{Transaction, TxIn, TxOut};

fn counted_txid() -> Txid {
    let mut bytes = [0; 32];
    for (i, byte) in bytes.iter_mut().enumerate() {
        *byte = i as u8;
    }
    Txid(bytes)
}

fn counted_satpoint(offset: u64) -> SatPoint {
    SatPoint {
        outpoint: OutPoint {
            txid: counted_txid(),
            vout: 12,
        },
        offset,
    }
}

const COUNTED: &str = "1f1e1d1c1b1a191817161514131211100f0e0d0c0b0a09080706050403020100";

fn rate(rate: f64) -> FeeRate {
    FeeRate::from_bits(rate.to_bits()).unwrap()
}

fn witness(version: u8, program: &[u8], network: Network) -> Address {
    Address {
        payload: Payload::WitnessProgram(WitnessProgram::new(version, program).unwrap()),
        network,
    }
}

#[test]
fn fees_are_those_of_double_precision() {
    let rates = [
        0.0,
        f64::from_bits(1),
        1e-300,
        0.1,
        0.5,
        1.0,
        1.1,
        2.675,
        17.3,
        250.0,
        12345.678,
        9_007_199_254_740_993.0,
        1e18,
        1e19,
        1e200,
        f64::MAX,
    ];
    let weights = [
        0usize,
        1,
        2,
        3,
        4,
        5,
        172,
        232,
        396,
        519,
        1_000_003,
        (1 << 53) + 1,
        (1 << 60) + 12345,
        usize::MAX,
    ];
    for r in rates {
        for weight in weights {
            let size = VBytes::from_weight(weight);
            let expected = (r * (weight as f64 / 4.0)).round() as u64;
            assert_eq!(rate(r).fee(size).0, expected, "{r} {weight}");
            let larger = (r * (weight as f64 / 4.0 + 43.0)).round() as u64;
            assert_eq!(rate(r).fee(size.plus(172)).0, larger, "{r} {weight}");
        }
    }
}

#[test]
fn halves_of_a_sat_are_rounded_up() {
    assert_eq!(rate(0.5).fee(VBytes { quarters: 4 }).0, 1);
    assert_eq!(rate(0.5).fee(VBytes { quarters: 3 }).0, 0);
    assert_eq!(rate(1.0).fee(VBytes { quarters: 398 }).0, 100);
    assert_eq!(rate(1.0).fee(VBytes { quarters: 397 }).0, 99);
}

#[test]
fn not_every_number_is_a_fee_rate() {
    for number in [-1.0, -0.0, f64::INFINITY, f64::NEG_INFINITY, f64::NAN] {
        assert!(FeeRate::from_bits(number.to_bits()).is_none());
    }
    assert!(FeeRate::from_bits(f64::MAX.to_bits()).is_some());
    assert!(FeeRate::from_bits(0.0f64.to_bits()).is_some());
}

#[test]
fn witness_programs_are_limited() {
    assert!(WitnessProgram::new(16, &[0; 40]).is_some());
    assert!(WitnessProgram::new(17, &[0; 40]).is_none());
    assert!(WitnessProgram::new(0, &[0; 41]).is_none());
    assert!(WitnessProgram::new(0, &[0; 2]).is_some());
    assert!(WitnessProgram::new(0, &[0; 1]).is_none());
    assert!(WitnessProgram::new(1, &[1, 0]) != WitnessProgram::new(1, &[1, 0, 0]));
}

#[test]
fn scripts_of_addresses() {
    let key = Address {
        payload: Payload::PubkeyHash([7; 20]),
        network: Network::Bitcoin,
    };
    let mut script = vec![0x76, 0xa9, 0x14];
    script.extend([7; 20]);
    script.extend([0x88, 0xac]);
    assert_eq!(key.script_pubkey(), script);
    assert_eq!(key.dust_value(), Amount::from_sat(546));

    let hash = Address {
        payload: Payload::ScriptHash([8; 20]),
        network: Network::Bitcoin,
    };
    let mut script = vec![0xa9, 0x14];
    script.extend([8; 20]);
    script.push(0x87);
    assert_eq!(hash.script_pubkey(), script);
    assert_eq!(hash.dust_value(), Amount::from_sat(540));

    let segwit = witness(0, &[9; 20], Network::Bitcoin);
    let mut script = vec![0x00, 0x14];
    script.extend([9; 20]);
    assert_eq!(segwit.script_pubkey(), script);
    assert_eq!(segwit.dust_value(), Amount::from_sat(294));

    let taproot = witness(1, &[9; 32], Network::Bitcoin);
    let mut script = vec![0x51, 0x20];
    script.extend([9; 32]);
    assert_eq!(taproot.script_pubkey(), script);
    assert_eq!(taproot.dust_value(), Amount::from_sat(330));

    let latest = witness(16, &[1, 2], Network::Bitcoin);
    assert_eq!(latest.script_pubkey(), vec![0x60, 0x02, 1, 2]);
    assert_eq!(latest.dust_value(), Amount::from_sat(240));
}

#[test]
fn weight_counts_witnesses_once() {
    let input = |witness: Vec<Vec<u8>>| TxIn {
        previous_output: OutPoint::null(),
        script_sig: vec![0; 3],
        sequence: 0,
        witness,
    };
    let output = TxOut {
        value: 5,
        script_pubkey: vec![0; 300],
    };
    let mut transaction = Transaction {
        version: 1,
        lock_time: 0,
        input: vec![input(vec![]), input(vec![])],
        output: vec![output],
    };
    assert_eq!(transaction.weight(), 4 * (8 + 1 + 1 + 2 * 44 + 311));
    transaction.input[1].witness = vec![vec![0; 64], vec![]];
    assert_eq!(
        transaction.weight(),
        4 * (8 + 1 + 1 + 2 * 44 + 311) + 2 + 1 + (1 + 65 + 1)
    );
}

#[test]
fn maps_are_ordered_by_key() {
    let key = |first: u8, vout: u32| {
        let mut bytes = [0; 32];
        bytes[0] = first;
        OutPoint {
            txid: Txid(bytes),
            vout,
        }
    };
    let mut map = SortedMap::new();
    map.insert(key(2, 0), Amount::from_sat(1));
    map.insert(key(1, 9), Amount::from_sat(2));
    map.insert(key(1, 3), Amount::from_sat(3));
    map.insert(key(2, 0), Amount::from_sat(4));
    assert_eq!(map.len(), 3);
    assert_eq!(map.entry(0), (key(1, 3), Amount::from_sat(3)));
    assert_eq!(map.entry(1), (key(1, 9), Amount::from_sat(2)));
    assert_eq!(map.entry(2), (key(2, 0), Amount::from_sat(4)));
    assert_eq!(map.get(&key(1, 9)), Some(Amount::from_sat(2)));
    assert_eq!(map.get(&key(1, 4)), None);

    let mut set = SortedSet::from_keys(&map);
    set.remove(&key(1, 9));
    set.remove(&key(7, 7));
    assert_eq!(set.len(), 2);
    assert_eq!(set.item(0), key(1, 3));
    assert_eq!(set.item(1), key(2, 0));
}

#[test]
fn messages() {
    let sats = Amount::from_sat;
    let messages = [
        (
            Error::Dust {
                output_value: sats(1),
                dust_value: sats(294),
            },
            "output value is below dust value: 0.00000001 BTC < 0.00000294 BTC".to_string(),
        ),
        (
            Error::Dust {
                output_value: sats(0),
                dust_value: sats(1_230_000_000),
            },
            "output value is below dust value: 0 BTC < 12.3 BTC".to_string(),
        ),
        (
            Error::MaxPostageLessThanTarget {
                max_postage: sats(9),
                target_postage: sats(10_000),
            },
            "max postage 9 sats is less than target postage 10000 sats".to_string(),
        ),
        (
            Error::NotInWallet(counted_satpoint(7)),
            format!("outgoing satpoint {COUNTED}:12:7 not in wallet"),
        ),
        (
            Error::OutOfRange(counted_satpoint(u64::MAX), 19),
            format!(
                "outgoing satpoint {COUNTED}:12:18446744073709551615 offset higher than maximum 19"
            ),
        ),
        (
            Error::TooManyInputs(3),
            "--max-inputs (3) exceeded".to_string(),
        ),
        (
            Error::NotEnoughCardinalUtxos,
            "wallet does not contain enough cardinal UTXOs, please add additional funds to wallet."
                .to_string(),
        ),
        (
            Error::UtxoContainsAdditionalInscription {
                outgoing_satpoint: counted_satpoint(0),
                inscribed_satpoint: counted_satpoint(500),
                inscription_id: InscriptionId {
                    txid: counted_txid(),
                    index: 10,
                },
            },
            format!(
                "cannot send {COUNTED}:12:0 without also sending inscription {COUNTED}i10 at {COUNTED}:12:500"
            ),
        ),
        (
            Error::ValueOverflow,
            "arithmetic overflow calculating value".to_string(),
        ),
        (
            Error::Broken(Invariant::FeeEstimationIsCorrect),
            "invariant: fee estimation is correct".to_string(),
        ),
    ];
    for (error, message) in messages {
        assert_eq!(error.message(), message);
    }
}

#[test]
fn duplicate_address_is_displayed() {
    let texts = [
        "tb1q6en7qjxgw4ev8xwx94pzdry6a6ky7wlfeqzunz",
        "bc1pxwww0ct9ue7e8tdnlmug5m2tamfn7q06sahstg39ys4c9f3340qqxrdu9k",
    ];
    for text in texts {
        let parsed: bitcoin::Address = text.parse().unwrap();
        let network = if parsed.network == bitcoin::Network::Bitcoin {
            Network::Bitcoin
        } else {
            Network::Testnet
        };
        let address = match parsed.payload {
            bitcoin::util::address::Payload::WitnessProgram { version, program } => {
                witness(version.to_num(), &program, network)
            }
            _ => panic!("not a witness program"),
        };
        assert_eq!(
            Error::DuplicateAddress(address).message(),
            format!("duplicate input address: {text}")
        );
        assert_eq!(
            duplicate_address_message(text),
            format!("duplicate input address: {text}")
        );
    }
    let key = Address {
        payload: Payload::PubkeyHash([0; 20]),
        network: Network::Bitcoin,
    };
    assert_eq!(
        Error::DuplicateAddress(key).message(),
        "duplicate input address: 1111111111111111111114oLvT2"
    );
}
