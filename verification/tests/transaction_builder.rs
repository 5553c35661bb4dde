use ordinal_transaction_builder::address::{Address, Network, Payload, WitnessProgram};
use ordinal_transaction_builder::amount::Amount;
use ordinal_transaction_builder::builder::{
    TransactionBuilder, DEFAULT_MAX_POSTAGE, DEFAULT_TARGET_POSTAGE, ENABLE_RBF_NO_LOCKTIME,
    SCHNORR_SIGNATURE_SIZE,
};
use ordinal_transaction_builder::error::{Error, Invariant};
use ordinal_transaction_builder::fee_rate::{FeeRate, VBytes};
use ordinal_transaction_builder::model::{
    Target, ADDITIONAL_INPUT_QUARTERS, ADDITIONAL_OUTPUT_QUARTERS,
};
use ordinal_transaction_builder::ordered::{SortedMap, SortedSet};
use ordinal_transaction_builder::outpoint::{InscriptionId, OutPoint, SatPoint, Txid};
use ordinal_transaction_builder::transaction::{Transaction, TxIn, TxOut};

const COIN_VALUE: u64 = 100_000_000;

fn txid(n: u8) -> Txid {
    Txid([n * 0x11; 32])
}

fn outpoint(n: u8) -> OutPoint {
    OutPoint {
        txid: txid(n),
        vout: n as u32,
    }
}

fn satpoint(n: u8, offset: u64) -> SatPoint {
    SatPoint {
        outpoint: outpoint(n),
        offset,
    }
}

fn inscription_id(n: u8) -> InscriptionId {
    InscriptionId {
        txid: txid(n),
        index: n as u32,
    }
}

fn address(text: &str) -> Address {
    let parsed: bitcoin::Address = text.parse().unwrap();
    let network = match parsed.network {
        bitcoin::Network::Bitcoin => Network::Bitcoin,
        bitcoin::Network::Testnet => Network::Testnet,
        bitcoin::Network::Signet => Network::Signet,
        bitcoin::Network::Regtest => Network::Regtest,
    };
    let payload = match parsed.payload {
        bitcoin::util::address::Payload::WitnessProgram { version, program } => {
            Payload::WitnessProgram(WitnessProgram::new(version.to_num(), &program).unwrap())
        }
        _ => panic!("not a witness program"),
    };
    Address { payload, network }
}

fn recipient() -> Address {
    address("tb1q6en7qjxgw4ev8xwx94pzdry6a6ky7wlfeqzunz")
}

fn change(n: usize) -> Address {
    address(
        [
            "tb1qjsv26lap3ffssj6hfy8mzn0lg5vte6a42j75ww",
            "tb1qakxxzv9n7706kc3xdcycrtfv8cqv62hnwexc0l",
        ][n],
    )
}

fn alignment() -> Option<Address> {
    Some(address("tb1qxz9yk0td0yye009gt6ayn7jthz5p07a75luryg"))
}

fn fee_rate(rate: f64) -> FeeRate {
    FeeRate::from_bits(rate.to_bits()).unwrap()
}

fn vbytes(size: VBytes) -> f64 {
    size.quarters as f64 / 4.0
}

fn wallet(utxos: Vec<(OutPoint, Amount)>) -> SortedMap<OutPoint, Amount> {
    let mut amounts = SortedMap::new();
    for (outpoint, amount) in utxos {
        amounts.insert(outpoint, amount);
    }
    amounts
}

fn inscriptions<const N: usize>(
    entries: [(SatPoint, InscriptionId); N],
) -> SortedMap<SatPoint, InscriptionId> {
    let mut inscriptions = SortedMap::new();
    for (satpoint, id) in entries {
        inscriptions.insert(satpoint, id);
    }
    inscriptions
}

fn unspent(builder: &TransactionBuilder) -> Vec<OutPoint> {
    (0..builder.utxos.len()).map(|i| builder.utxos.item(i)).collect()
}

fn ordered(mut outpoints: Vec<OutPoint>) -> Vec<OutPoint> {
    outpoints.sort_by_key(|outpoint| (outpoint.txid.0, outpoint.vout));
    outpoints
}

fn tx_in(previous_output: OutPoint) -> TxIn {
    TxIn {
        previous_output,
        script_sig: Vec::new(),
        sequence: ENABLE_RBF_NO_LOCKTIME,
        witness: Vec::new(),
    }
}

fn tx_out(value: u64, address: Address) -> TxOut {
    TxOut {
        value,
        script_pubkey: address.script_pubkey(),
    }
}

#[test]
fn select_sat() {
    let mut utxos = vec![
        (outpoint(1), Amount::from_sat(5_000)),
        (outpoint(2), Amount::from_sat(49 * COIN_VALUE)),
        (outpoint(3), Amount::from_sat(2_000)),
    ];

    let tx_builder = TransactionBuilder::new(
        satpoint(2, 0),
        SortedMap::new(),
        wallet(utxos.clone()),
        vec![recipient()],
        None,
        [change(0), change(1)],
        fee_rate(1.0),
        None,
        vec![Target::Postage],
        Amount::from_sat(DEFAULT_TARGET_POSTAGE),
        Amount::from_sat(DEFAULT_MAX_POSTAGE),
    )
    .unwrap()
    .select_outgoing()
    .unwrap();

    utxos.remove(1);
    assert_eq!(
        unspent(&tx_builder),
        ordered(utxos.iter().map(|(outpoint, _ranges)| *outpoint).collect())
    );
    assert_eq!(tx_builder.inputs, [outpoint(2)]);
    assert_eq!(
        tx_builder.outputs,
        [(
            recipient(),
            Amount::from_sat(100 * COIN_VALUE - 51 * COIN_VALUE)
        )]
    )
}

#[test]
fn tx_builder_to_transaction() {
    let mut amounts = SortedMap::new();
    amounts.insert(outpoint(1), Amount::from_sat(5_000));
    amounts.insert(outpoint(2), Amount::from_sat(5_000));
    amounts.insert(outpoint(3), Amount::from_sat(2_000));

    let tx_builder = TransactionBuilder {
        amounts,
        fee_rate: fee_rate(1.0),
        max_inputs: None,
        utxos: SortedSet::new(),
        outgoing: satpoint(1, 0),
        inscriptions: SortedMap::new(),
        recipient: vec![recipient()],
        alignment: None,
        unused_change_addresses: vec![change(0), change(1)],
        change_addresses: vec![change(0), change(1)],
        inputs: vec![outpoint(1), outpoint(2), outpoint(3)],
        outputs: vec![
            (recipient(), Amount::from_sat(5_000)),
            (change(0), Amount::from_sat(5_000)),
            (change(1), Amount::from_sat(1_724)),
        ],
        target: vec![Target::Postage],
        target_postage: Amount::from_sat(DEFAULT_TARGET_POSTAGE),
        max_postage: Amount::from_sat(DEFAULT_MAX_POSTAGE),
        current_output: 0,
        padding_outputs: 0,
    };

    assert_eq!(
        tx_builder.build(),
        Ok(Transaction {
            version: 1,
            lock_time: 0,
            input: vec![tx_in(outpoint(1)), tx_in(outpoint(2)), tx_in(outpoint(3))],
            output: vec![
                tx_out(5_000, recipient()),
                tx_out(5_000, change(0)),
                tx_out(1_724, change(1))
            ],
        })
    )
}

#[test]
fn transactions_are_rbf() {
    let utxos = vec![(outpoint(1), Amount::from_sat(5_000))];

    assert!(TransactionBuilder::build_transaction_with_postage(
        satpoint(1, 0),
        SortedMap::new(),
        wallet(utxos),
        recipient(),
        None,
        [change(0), change(1)],
        fee_rate(1.0),
        None,
        Amount::from_sat(DEFAULT_TARGET_POSTAGE),
        Amount::from_sat(DEFAULT_MAX_POSTAGE),
    )
    .unwrap()
    .input
    .iter()
    .any(|input| bitcoin::Sequence(input.sequence).is_rbf()))
}

#[test]
fn deduct_fee() {
    let utxos = vec![(outpoint(1), Amount::from_sat(5_000))];

    assert_eq!(
        TransactionBuilder::build_transaction_with_postage(
            satpoint(1, 0),
            SortedMap::new(),
            wallet(utxos),
            recipient(),
            None,
            [change(0), change(1)],
            fee_rate(1.0),
            None,
            Amount::from_sat(DEFAULT_TARGET_POSTAGE),
            Amount::from_sat(DEFAULT_MAX_POSTAGE),
        ),
        Ok(Transaction {
            version: 1,
            lock_time: 0,
            input: vec![tx_in(outpoint(1))],
            output: vec![tx_out(4901, recipient())],
        })
    )
}

#[test]
fn invariant_deduct_fee_does_not_consume_sat() {
    let utxos = vec![(outpoint(1), Amount::from_sat(5_000))];

    let result = TransactionBuilder::new(
        satpoint(1, 4_950),
        SortedMap::new(),
        wallet(utxos),
        vec![recipient()],
        None,
        [change(0), change(1)],
        fee_rate(1.0),
        None,
        vec![Target::Postage],
        Amount::from_sat(DEFAULT_TARGET_POSTAGE),
        Amount::from_sat(DEFAULT_MAX_POSTAGE),
    )
    .unwrap()
    .select_outgoing()
    .unwrap()
    .align_outgoing()
    .unwrap()
    .strip_value()
    .unwrap()
    .deduct_fee();
    assert_eq!(result.err(), Some(Error::Broken(Invariant::FeeDoesNotConsumeSat)));
}

#[test]
fn additional_postage_added_when_required() {
    let utxos = vec![
        (outpoint(1), Amount::from_sat(5_000)),
        (outpoint(2), Amount::from_sat(5_000)),
    ];

    assert_eq!(
        TransactionBuilder::build_transaction_with_postage(
            satpoint(1, 4_950),
            SortedMap::new(),
            wallet(utxos),
            recipient(),
            None,
            [change(0), change(1)],
            fee_rate(1.0),
            None,
            Amount::from_sat(DEFAULT_TARGET_POSTAGE),
            Amount::from_sat(DEFAULT_MAX_POSTAGE),
        ),
        Ok(Transaction {
            version: 1,
            lock_time: 0,
            input: vec![tx_in(outpoint(1)), tx_in(outpoint(2))],
            output: vec![tx_out(4_950, change(0)), tx_out(4_862, recipient())],
        })
    )
}

#[test]
fn insufficient_padding_to_add_postage_no_utxos() {
    let utxos = vec![(outpoint(1), Amount::from_sat(5_000))];

    assert_eq!(
        TransactionBuilder::build_transaction_with_postage(
            satpoint(1, 4_950),
            SortedMap::new(),
            wallet(utxos),
            recipient(),
            None,
            [change(0), change(1)],
            fee_rate(1.0),
            None,
            Amount::from_sat(DEFAULT_TARGET_POSTAGE),
            Amount::from_sat(DEFAULT_MAX_POSTAGE),
        ),
        Err(Error::NotEnoughCardinalUtxos),
    )
}

#[test]
fn insufficient_padding_to_add_postage_small_utxos() {
    let utxos = vec![
        (outpoint(1), Amount::from_sat(5_000)),
        (outpoint(2), Amount::from_sat(1)),
    ];

    assert_eq!(
        TransactionBuilder::build_transaction_with_postage(
            satpoint(1, 4_950),
            SortedMap::new(),
            wallet(utxos),
            recipient(),
            None,
            [change(0), change(1)],
            fee_rate(1.0),
            None,
            Amount::from_sat(DEFAULT_TARGET_POSTAGE),
            Amount::from_sat(DEFAULT_MAX_POSTAGE),
        ),
        Err(Error::NotEnoughCardinalUtxos),
    )
}

#[test]
fn excess_additional_postage_is_stripped() {
    let utxos = vec![
        (outpoint(1), Amount::from_sat(5_000)),
        (outpoint(2), Amount::from_sat(25_000)),
    ];

    assert_eq!(
        TransactionBuilder::build_transaction_with_postage(
            satpoint(1, 4_950),
            SortedMap::new(),
            wallet(utxos),
            recipient(),
            None,
            [change(0), change(1)],
            fee_rate(1.0),
            None,
            Amount::from_sat(DEFAULT_TARGET_POSTAGE),
            Amount::from_sat(DEFAULT_MAX_POSTAGE),
        ),
        Ok(Transaction {
            version: 1,
            lock_time: 0,
            input: vec![tx_in(outpoint(1)), tx_in(outpoint(2))],
            output: vec![
                tx_out(4_950, change(0)),
                tx_out(
                    DEFAULT_TARGET_POSTAGE,
                    recipient()
                ),
                tx_out(14_831, change(1)),
            ],
        })
    )
}

#[test]
fn invariant_satpoint_outpoint_is_contained_in_utxos() {
    let result = TransactionBuilder::new(
        satpoint(2, 0),
        SortedMap::new(),
        wallet(vec![(outpoint(1), Amount::from_sat(4))]),
        vec![recipient()],
        None,
        [change(0), change(1)],
        fee_rate(1.0),
        None,
        vec![Target::Postage],
        Amount::from_sat(DEFAULT_TARGET_POSTAGE),
        Amount::from_sat(DEFAULT_MAX_POSTAGE),
    )
    .unwrap()
    .build();
    assert_eq!(result.err(), Some(Error::Broken(Invariant::SatIsContainedInUtxos)));
}

#[test]
fn invariant_satpoint_offset_is_contained_in_utxos() {
    let result = TransactionBuilder::new(
        satpoint(1, 4),
        SortedMap::new(),
        wallet(vec![(outpoint(1), Amount::from_sat(4))]),
        vec![recipient()],
        None,
        [change(0), change(1)],
        fee_rate(1.0),
        None,
        vec![Target::Postage],
        Amount::from_sat(DEFAULT_TARGET_POSTAGE),
        Amount::from_sat(DEFAULT_MAX_POSTAGE),
    )
    .unwrap()
    .build();
    assert_eq!(result.err(), Some(Error::Broken(Invariant::SatIsContainedInUtxos)));
}

#[test]
fn invariant_inputs_spend_sat() {
    let result = TransactionBuilder::new(
        satpoint(1, 2),
        SortedMap::new(),
        wallet(vec![(outpoint(1), Amount::from_sat(5))]),
        vec![recipient()],
        None,
        [change(0), change(1)],
        fee_rate(1.0),
        None,
        vec![Target::Postage],
        Amount::from_sat(DEFAULT_TARGET_POSTAGE),
        Amount::from_sat(DEFAULT_MAX_POSTAGE),
    )
    .unwrap()
    .build();
    assert_eq!(result.err(), Some(Error::Broken(Invariant::InputsSpendSat)));
}

#[test]
fn invariant_sat_is_sent_to_recipient() {
    let mut builder = TransactionBuilder::new(
        satpoint(1, 2),
        SortedMap::new(),
        wallet(vec![(outpoint(1), Amount::from_sat(5))]),
        vec![recipient()],
        None,
        [change(0), change(1)],
        fee_rate(1.0),
        None,
        vec![Target::Postage],
        Amount::from_sat(DEFAULT_TARGET_POSTAGE),
        Amount::from_sat(DEFAULT_MAX_POSTAGE),
    )
    .unwrap()
    .select_outgoing()
    .unwrap();

    builder.outputs[0].0 = address("tb1qx4gf3ya0cxfcwydpq8vr2lhrysneuj5d7lqatw");

    let result = builder.build();
    assert_eq!(result.err(), Some(Error::Broken(Invariant::SatIsSentToFirstRecipient)));
}

#[test]
fn invariant_sat_is_found_in_outputs() {
    let mut builder = TransactionBuilder::new(
        satpoint(1, 2),
        SortedMap::new(),
        wallet(vec![(outpoint(1), Amount::from_sat(5))]),
        vec![recipient()],
        None,
        [change(0), change(1)],
        fee_rate(1.0),
        None,
        vec![Target::Postage],
        Amount::from_sat(DEFAULT_TARGET_POSTAGE),
        Amount::from_sat(DEFAULT_MAX_POSTAGE),
    )
    .unwrap()
    .select_outgoing()
    .unwrap();

    builder.outputs[0].1 = Amount::from_sat(0);

    let result = builder.build();
    assert_eq!(result.err(), Some(Error::Broken(Invariant::SatIsFoundInOutputs)));
}

#[test]
fn excess_postage_is_stripped() {
    let utxos = vec![(outpoint(1), Amount::from_sat(1_000_000))];

    assert_eq!(
        TransactionBuilder::build_transaction_with_postage(
            satpoint(1, 0),
            SortedMap::new(),
            wallet(utxos),
            recipient(),
            None,
            [change(0), change(1)],
            fee_rate(1.0),
            None,
            Amount::from_sat(DEFAULT_TARGET_POSTAGE),
            Amount::from_sat(DEFAULT_MAX_POSTAGE),
        ),
        Ok(Transaction {
            version: 1,
            lock_time: 0,
            input: vec![tx_in(outpoint(1))],
            output: vec![
                tx_out(
                    DEFAULT_TARGET_POSTAGE,
                    recipient()
                ),
                tx_out(989_870, change(1))
            ],
        })
    )
}

#[test]
fn invariant_excess_postage_is_stripped() {
    let utxos = vec![(outpoint(1), Amount::from_sat(1_000_000))];

    let result = TransactionBuilder::new(
        satpoint(1, 0),
        SortedMap::new(),
        wallet(utxos),
        vec![recipient()],
        None,
        [change(0), change(1)],
        fee_rate(1.0),
        None,
        vec![Target::Postage],
        Amount::from_sat(DEFAULT_TARGET_POSTAGE),
        Amount::from_sat(DEFAULT_MAX_POSTAGE),
    )
    .unwrap()
    .select_outgoing()
    .unwrap()
    .build();
    assert_eq!(result.err(), Some(Error::Broken(Invariant::ExcessPostageIsStripped)));
}

#[test]
fn sat_is_aligned() {
    let utxos = vec![(outpoint(1), Amount::from_sat(10_000))];

    assert_eq!(
        TransactionBuilder::build_transaction_with_postage(
            satpoint(1, 3_333),
            SortedMap::new(),
            wallet(utxos),
            recipient(),
            None,
            [change(0), change(1)],
            fee_rate(1.0),
            None,
            Amount::from_sat(DEFAULT_TARGET_POSTAGE),
            Amount::from_sat(DEFAULT_MAX_POSTAGE),
        ),
        Ok(Transaction {
            version: 1,
            lock_time: 0,
            input: vec![tx_in(outpoint(1))],
            output: vec![tx_out(3_333, change(0)), tx_out(6_537, recipient())],
        })
    )
}

#[test]
fn alignment_output_under_dust_limit_is_padded() {
    let utxos = vec![
        (outpoint(1), Amount::from_sat(10_000)),
        (outpoint(2), Amount::from_sat(10_000)),
    ];

    assert_eq!(
        TransactionBuilder::build_transaction_with_postage(
            satpoint(1, 1),
            SortedMap::new(),
            wallet(utxos),
            recipient(),
            None,
            [change(0), change(1)],
            fee_rate(1.0),
            None,
            Amount::from_sat(DEFAULT_TARGET_POSTAGE),
            Amount::from_sat(DEFAULT_MAX_POSTAGE),
        ),
        Ok(Transaction {
            version: 1,
            lock_time: 0,
            input: vec![tx_in(outpoint(2)), tx_in(outpoint(1))],
            output: vec![tx_out(10_001, change(0)), tx_out(9_811, recipient())],
        })
    )
}

#[test]
fn invariant_all_output_are_recognized() {
    let utxos = vec![(outpoint(1), Amount::from_sat(10_000))];

    let mut builder = TransactionBuilder::new(
        satpoint(1, 3_333),
        SortedMap::new(),
        wallet(utxos),
        vec![recipient()],
        None,
        [change(0), change(1)],
        fee_rate(1.0),
        None,
        vec![Target::Postage],
        Amount::from_sat(DEFAULT_TARGET_POSTAGE),
        Amount::from_sat(DEFAULT_MAX_POSTAGE),
    )
    .unwrap()
    .select_outgoing()
    .unwrap()
    .align_outgoing()
    .unwrap()
    .add_value()
    .unwrap()
    .strip_value()
    .unwrap()
    .deduct_fee()
    .unwrap();

    builder.change_addresses = Vec::new();

    let result = builder.build();
    assert_eq!(result.err(), Some(Error::Broken(Invariant::OutputsAreChangeOrRecipient)));
}

#[test]
fn invariant_all_output_are_above_dust_limit() {
    let utxos = vec![(outpoint(1), Amount::from_sat(10_000))];

    let result = TransactionBuilder::new(
        satpoint(1, 1),
        SortedMap::new(),
        wallet(utxos),
        vec![recipient()],
        None,
        [change(0), change(1)],
        fee_rate(1.0),
        None,
        vec![Target::Postage],
        Amount::from_sat(DEFAULT_TARGET_POSTAGE),
        Amount::from_sat(DEFAULT_MAX_POSTAGE),
    )
    .unwrap()
    .select_outgoing()
    .unwrap()
    .align_outgoing()
    .unwrap()
    .add_value()
    .unwrap()
    .strip_value()
    .unwrap()
    .deduct_fee()
    .unwrap()
    .build();
    assert_eq!(result.err(), Some(Error::Broken(Invariant::OutputsAreAboveDustLimit)));
}

#[test]
fn invariant_sat_is_aligned() {
    let utxos = vec![(outpoint(1), Amount::from_sat(10_000))];

    let result = TransactionBuilder::new(
        satpoint(1, 3_333),
        SortedMap::new(),
        wallet(utxos),
        vec![recipient()],
        None,
        [change(0), change(1)],
        fee_rate(1.0),
        None,
        vec![Target::Postage],
        Amount::from_sat(DEFAULT_TARGET_POSTAGE),
        Amount::from_sat(DEFAULT_MAX_POSTAGE),
    )
    .unwrap()
    .select_outgoing()
    .unwrap()
    .strip_value()
    .unwrap()
    .deduct_fee()
    .unwrap()
    .build();
    assert_eq!(result.err(), Some(Error::Broken(Invariant::SatIsAtFirstPosition)));
}

#[test]
fn invariant_fee_is_at_least_target_fee_rate() {
    let utxos = vec![(outpoint(1), Amount::from_sat(10_000))];

    let result = TransactionBuilder::new(
        satpoint(1, 0),
        SortedMap::new(),
        wallet(utxos),
        vec![recipient()],
        None,
        [change(0), change(1)],
        fee_rate(1.0),
        None,
        vec![Target::Postage],
        Amount::from_sat(DEFAULT_TARGET_POSTAGE),
        Amount::from_sat(DEFAULT_MAX_POSTAGE),
    )
    .unwrap()
    .select_outgoing()
    .unwrap()
    .strip_value()
    .unwrap()
    .build();
    assert_eq!(result.err(), Some(Error::Broken(Invariant::FeeEstimationIsCorrect)));
}

#[test]
fn invariant_recipient_appears_exactly_once() {
    let mut amounts = SortedMap::new();
    amounts.insert(outpoint(1), Amount::from_sat(5_000));
    amounts.insert(outpoint(2), Amount::from_sat(5_000));
    amounts.insert(outpoint(3), Amount::from_sat(2_000));

    let result = TransactionBuilder {
        amounts,
        fee_rate: fee_rate(1.0),
        max_inputs: None,
        utxos: SortedSet::new(),
        outgoing: satpoint(1, 0),
        inscriptions: SortedMap::new(),
        recipient: vec![recipient()],
        alignment: alignment(),
        unused_change_addresses: vec![change(0), change(1)],
        change_addresses: vec![change(0), change(1)],
        inputs: vec![outpoint(1), outpoint(2), outpoint(3)],
        outputs: vec![
            (recipient(), Amount::from_sat(5_000)),
            (recipient(), Amount::from_sat(5_000)),
            (change(1), Amount::from_sat(1_774)),
        ],
        target: vec![Target::Postage],
        target_postage: Amount::from_sat(DEFAULT_TARGET_POSTAGE),
        max_postage: Amount::from_sat(DEFAULT_MAX_POSTAGE),
        current_output: 0,
        padding_outputs: 0,
    }
    .build();
    assert_eq!(result.err(), Some(Error::Broken(Invariant::RecipientAppearsExactlyOnce)));
}

#[test]
fn invariant_change_appears_at_most_once() {
    let mut amounts = SortedMap::new();
    amounts.insert(outpoint(1), Amount::from_sat(5_000));
    amounts.insert(outpoint(2), Amount::from_sat(5_000));
    amounts.insert(outpoint(3), Amount::from_sat(2_000));

    let result = TransactionBuilder {
        amounts,
        fee_rate: fee_rate(1.0),
        max_inputs: None,
        utxos: SortedSet::new(),
        outgoing: satpoint(1, 0),
        inscriptions: SortedMap::new(),
        recipient: vec![recipient()],
        alignment: alignment(),
        unused_change_addresses: vec![change(0), change(1)],
        change_addresses: vec![change(0), change(1)],
        inputs: vec![outpoint(1), outpoint(2), outpoint(3)],
        outputs: vec![
            (recipient(), Amount::from_sat(5_000)),
            (change(0), Amount::from_sat(5_000)),
            (change(0), Amount::from_sat(1_774)),
        ],
        target: vec![Target::Postage],
        target_postage: Amount::from_sat(DEFAULT_TARGET_POSTAGE),
        max_postage: Amount::from_sat(DEFAULT_MAX_POSTAGE),
        current_output: 0,
        padding_outputs: 0,
    }
    .build();
    assert_eq!(result.err(), Some(Error::Broken(Invariant::ChangeAppearsAtMostOnce)));
}

#[test]
fn do_not_select_already_inscribed_sats_for_cardinal_utxos() {
    let utxos = vec![
        (outpoint(1), Amount::from_sat(100)),
        (outpoint(2), Amount::from_sat(49 * COIN_VALUE)),
    ];

    assert_eq!(
        TransactionBuilder::build_transaction_with_postage(
            satpoint(1, 0),
            inscriptions([(satpoint(2, 10 * COIN_VALUE), inscription_id(1))]),
            wallet(utxos),
            recipient(),
            alignment(),
            [change(0), change(1)],
            fee_rate(1.0),
            None,
            Amount::from_sat(DEFAULT_TARGET_POSTAGE),
            Amount::from_sat(DEFAULT_MAX_POSTAGE),
        ),
        Err(Error::NotEnoughCardinalUtxos)
    )
}

#[test]
fn do_not_send_two_inscriptions_at_once() {
    let utxos = vec![(outpoint(1), Amount::from_sat(1_000))];

    assert_eq!(
        TransactionBuilder::build_transaction_with_postage(
            satpoint(1, 0),
            inscriptions([(satpoint(1, 500), inscription_id(1))]),
            wallet(utxos),
            recipient(),
            alignment(),
            [change(0), change(1)],
            fee_rate(1.0),
            None,
            Amount::from_sat(DEFAULT_TARGET_POSTAGE),
            Amount::from_sat(DEFAULT_MAX_POSTAGE),
        ),
        Err(Error::UtxoContainsAdditionalInscription {
            outgoing_satpoint: satpoint(1, 0),
            inscribed_satpoint: satpoint(1, 500),
            inscription_id: inscription_id(1),
        })
    )
}

#[test]
fn build_transaction_with_custom_fee_rate() {
    let utxos = vec![(outpoint(1), Amount::from_sat(10_000))];

    let fee_rate = fee_rate(17.3);

    let transaction = TransactionBuilder::build_transaction_with_postage(
        satpoint(1, 0),
        inscriptions([(satpoint(1, 0), inscription_id(1))]),
        wallet(utxos),
        recipient(),
        alignment(),
        [change(0), change(1)],
        fee_rate,
        None,
        Amount::from_sat(DEFAULT_TARGET_POSTAGE),
        Amount::from_sat(DEFAULT_MAX_POSTAGE),
    )
    .unwrap();

    let fee = fee_rate
        .fee(VBytes::from_weight(transaction.weight() + SCHNORR_SIGNATURE_SIZE).plus(4));

    assert_eq!(
        transaction,
        Transaction {
            version: 1,
            lock_time: 0,
            input: vec![tx_in(outpoint(1))],
            output: vec![tx_out(10_000 - fee.to_sat(), recipient())],
        }
    )
}

#[test]
fn exact_transaction_has_correct_value() {
    let utxos = vec![(outpoint(1), Amount::from_sat(5_000))];

    assert_eq!(
        TransactionBuilder::build_transaction_with_value(
            satpoint(1, 0),
            SortedMap::new(),
            wallet(utxos),
            recipient(),
            alignment(),
            [change(0), change(1)],
            fee_rate(1.0),
            None,
            Amount::from_sat(1000)
        ),
        Ok(Transaction {
            version: 1,
            lock_time: 0,
            input: vec![tx_in(outpoint(1))],
            output: vec![tx_out(1000, recipient()), tx_out(3870, change(1))],
        })
    )
}

#[test]
fn exact_transaction_adds_output_to_cover_value() {
    let utxos = vec![
        (outpoint(1), Amount::from_sat(1_000)),
        (outpoint(2), Amount::from_sat(1_000)),
    ];

    assert_eq!(
        TransactionBuilder::build_transaction_with_value(
            satpoint(1, 0),
            SortedMap::new(),
            wallet(utxos),
            recipient(),
            alignment(),
            [change(0), change(1)],
            fee_rate(1.0),
            None,
            Amount::from_sat(1500)
        ),
        Ok(Transaction {
            version: 1,
            lock_time: 0,
            input: vec![tx_in(outpoint(1)), tx_in(outpoint(2))],
            output: vec![tx_out(1500, recipient()), tx_out(312, change(1))],
        })
    )
}

#[test]
fn refuse_to_send_dust() {
    let utxos = vec![(outpoint(1), Amount::from_sat(1_000))];

    assert_eq!(
        TransactionBuilder::build_transaction_with_value(
            satpoint(1, 0),
            inscriptions([(satpoint(1, 500), inscription_id(1))]),
            wallet(utxos),
            recipient(),
            alignment(),
            [change(0), change(1)],
            fee_rate(1.0),
            None,
            Amount::from_sat(1)
        ),
        Err(Error::Dust {
            output_value: Amount::from_sat(1),
            dust_value: Amount::from_sat(294)
        })
    )
}

#[test]
fn do_not_select_outputs_which_do_not_pay_for_their_own_fee_at_default_fee_rate() {
    let utxos = vec![
        (outpoint(1), Amount::from_sat(1_000)),
        (outpoint(2), Amount::from_sat(100)),
    ];

    assert_eq!(
        TransactionBuilder::build_transaction_with_value(
            satpoint(1, 0),
            SortedMap::new(),
            wallet(utxos),
            recipient(),
            alignment(),
            [change(0), change(1)],
            fee_rate(1.0),
            None,
            Amount::from_sat(1000)
        ),
        Err(Error::NotEnoughCardinalUtxos),
    )
}

#[test]
fn do_not_select_outputs_which_do_not_pay_for_their_own_fee_at_higher_fee_rate() {
    let utxos = vec![
        (outpoint(1), Amount::from_sat(1_000)),
        (outpoint(2), Amount::from_sat(500)),
    ];

    assert_eq!(
        TransactionBuilder::build_transaction_with_value(
            satpoint(1, 0),
            SortedMap::new(),
            wallet(utxos),
            recipient(),
            alignment(),
            [change(0), change(1)],
            fee_rate(4.0),
            None,
            Amount::from_sat(1000)
        ),
        Err(Error::NotEnoughCardinalUtxos),
    )
}

#[test]
fn additional_input_size_is_correct() {
    let before = TransactionBuilder::estimate_vbytes_with(0, Vec::new());
    let after = TransactionBuilder::estimate_vbytes_with(1, Vec::new());
    assert_eq!(vbytes(after) - vbytes(before), 58.0);
    assert_eq!(after.quarters - before.quarters, ADDITIONAL_INPUT_QUARTERS as u128);
}

#[test]
fn additional_output_size_is_correct() {
    let before = TransactionBuilder::estimate_vbytes_with(0, Vec::new());
    let after = TransactionBuilder::estimate_vbytes_with(
        0,
        vec![
            address("bc1pxwww0ct9ue7e8tdnlmug5m2tamfn7q06sahstg39ys4c9f3340qqxrdu9k"),
        ],
    );
    assert_eq!(vbytes(after) - vbytes(before), 43.0);
    assert_eq!(after.quarters - before.quarters, ADDITIONAL_OUTPUT_QUARTERS as u128);
}

#[test]
fn do_not_strip_excess_value_if_it_would_create_dust() {
    assert_eq!(
        TransactionBuilder::build_transaction_with_value(
            satpoint(1, 0),
            SortedMap::new(),
            wallet(vec![(outpoint(1), Amount::from_sat(1_000))]),
            recipient(),
            alignment(),
            [change(0), change(1)],
            fee_rate(1.0),
            None,
            Amount::from_sat(707)
        ),
        Ok(Transaction {
            version: 1,
            lock_time: 0,
            input: vec![tx_in(outpoint(1))],
            output: vec![tx_out(901, recipient())],
        }),
    );
}

#[test]
fn possible_to_create_output_of_exactly_max_postage() {
    assert_eq!(
        TransactionBuilder::build_transaction_with_postage(
            satpoint(1, 0),
            SortedMap::new(),
            wallet(vec![(outpoint(1), Amount::from_sat(20_099))]),
            recipient(),
            alignment(),
            [change(0), change(1)],
            fee_rate(1.0),
            None,
            Amount::from_sat(DEFAULT_TARGET_POSTAGE),
            Amount::from_sat(DEFAULT_MAX_POSTAGE),
        ),
        Ok(Transaction {
            version: 1,
            lock_time: 0,
            input: vec![tx_in(outpoint(1))],
            output: vec![tx_out(20_000, recipient())],
        }),
    );
}

#[test]
fn do_not_strip_excess_value_if_additional_output_cannot_pay_fee() {
    assert_eq!(
        TransactionBuilder::build_transaction_with_value(
            satpoint(1, 0),
            SortedMap::new(),
            wallet(vec![(outpoint(1), Amount::from_sat(1_500))]),
            recipient(),
            alignment(),
            [change(0), change(1)],
            fee_rate(5.0),
            None,
            Amount::from_sat(1000)
        ),
        Ok(Transaction {
            version: 1,
            lock_time: 0,
            input: vec![tx_in(outpoint(1))],
            output: vec![tx_out(1005, recipient())],
        }),
    );
}

#[test]
fn correct_error_is_returned_when_fee_cannot_be_paid() {
    assert_eq!(
        TransactionBuilder::build_transaction_with_value(
            satpoint(1, 0),
            SortedMap::new(),
            wallet(vec![(outpoint(1), Amount::from_sat(1_500))]),
            recipient(),
            alignment(),
            [change(0), change(1)],
            fee_rate(6.0),
            None,
            Amount::from_sat(1000)
        ),
        Err(Error::NotEnoughCardinalUtxos)
    );
}

#[test]
fn recipient_address_must_be_unique() {
    assert_eq!(
        TransactionBuilder::build_transaction_with_value(
            satpoint(1, 0),
            SortedMap::new(),
            wallet(vec![(outpoint(1), Amount::from_sat(1000))]),
            recipient(),
            alignment(),
            [recipient(), change(1)],
            fee_rate(0.0),
            None,
            Amount::from_sat(1000)
        ),
        Err(Error::DuplicateAddress(recipient()))
    );
}

#[test]
fn change_addresses_must_be_unique() {
    assert_eq!(
        TransactionBuilder::build_transaction_with_value(
            satpoint(1, 0),
            SortedMap::new(),
            wallet(vec![(outpoint(1), Amount::from_sat(1000))]),
            recipient(),
            alignment(),
            [change(0), change(0)],
            fee_rate(0.0),
            None,
            Amount::from_sat(1000)
        ),
        Err(Error::DuplicateAddress(change(0)))
    );
}

#[test]
fn output_over_value_because_fees_prevent_excess_value_stripping() {
    assert_eq!(
        TransactionBuilder::build_transaction_with_value(
            satpoint(1, 0),
            SortedMap::new(),
            wallet(vec![(outpoint(1), Amount::from_sat(2000))]),
            recipient(),
            alignment(),
            [change(0), change(1)],
            fee_rate(2.0),
            None,
            Amount::from_sat(1500)
        ),
        Ok(Transaction {
            version: 1,
            lock_time: 0,
            input: vec![tx_in(outpoint(1))],
            output: vec![tx_out(1802, recipient())],
        }),
    );
}

#[test]
fn output_over_max_postage_because_fees_prevent_excess_value_stripping() {
    assert_eq!(
        TransactionBuilder::build_transaction_with_postage(
            satpoint(1, 0),
            SortedMap::new(),
            wallet(vec![(outpoint(1), Amount::from_sat(45000))]),
            recipient(),
            alignment(),
            [change(0), change(1)],
            fee_rate(250.0),
            None,
            Amount::from_sat(DEFAULT_TARGET_POSTAGE),
            Amount::from_sat(DEFAULT_MAX_POSTAGE),
        ),
        Ok(Transaction {
            version: 1,
            lock_time: 0,
            input: vec![tx_in(outpoint(1))],
            output: vec![tx_out(20250, recipient())],
        }),
    );
}

#[test]
fn select_outgoing_can_select_multiple_utxos() {
    let mut utxos = vec![
        (outpoint(2), Amount::from_sat(3_006)), // 2. biggest utxo is selected 2nd leaving us needing 4206 more
        (outpoint(1), Amount::from_sat(3_003)), // 1. satpoint is selected 1st leaving us needing 7154 more
        (outpoint(5), Amount::from_sat(3_004)),
        (outpoint(4), Amount::from_sat(3_001)), // 4. smallest utxo >= 1259 is selected 4th, filling deficit
        (outpoint(3), Amount::from_sat(3_005)), // 3. next biggest utxo is selected 3rd leaving us needing 1259 more
        (outpoint(6), Amount::from_sat(3_002)),
    ];

    let tx_builder = TransactionBuilder::new(
        satpoint(1, 0),
        SortedMap::new(),
        wallet(utxos.clone()),
        vec![recipient()],
        None,
        [change(0), change(1)],
        fee_rate(1.0),
        None,
        vec![Target::Value(Amount::from_sat(10_000))],
        Amount::from_sat(0),
        Amount::from_sat(0),
    )
    .unwrap()
    .select_outgoing()
    .unwrap()
    .add_value()
    .unwrap();

    utxos.remove(4);
    utxos.remove(3);
    utxos.remove(1);
    utxos.remove(0);
    assert_eq!(
        unspent(&tx_builder),
        ordered(utxos.iter().map(|(outpoint, _ranges)| *outpoint).collect())
    );
    assert_eq!(
        tx_builder.inputs,
        [outpoint(1), outpoint(2), outpoint(3), outpoint(4)]
    ); // value inputs are pushed at the end
    assert_eq!(
        tx_builder.outputs,
        [(recipient(), Amount::from_sat(3_003 + 3_006 + 3_005 + 3_001))]
    )
}

#[test]
fn pad_alignment_output_can_select_multiple_utxos() {
    let mut utxos = vec![
        (outpoint(4), Amount::from_sat(101)), // 4. smallest utxo >= 84 is selected 4th, filling deficit
        (outpoint(1), Amount::from_sat(20_000)), // 1. satpoint is selected 1st leaving deficit 293
        (outpoint(2), Amount::from_sat(105)), // 2. biggest utxo <= 293 is selected 2nd leaving deficit 188
        (outpoint(5), Amount::from_sat(103)),
        (outpoint(6), Amount::from_sat(10_000)),
        (outpoint(3), Amount::from_sat(104)), // 3. biggest utxo <= 188 is selected 3rd leaving deficit 84
        (outpoint(7), Amount::from_sat(102)),
    ];

    let tx_builder = TransactionBuilder::new(
        satpoint(1, 1),
        SortedMap::new(),
        wallet(utxos.clone()),
        vec![recipient()],
        None,
        [change(0), change(1)],
        fee_rate(1.0),
        None,
        vec![Target::Value(Amount::from_sat(10_000))],
        Amount::from_sat(0),
        Amount::from_sat(0),
    )
    .unwrap()
    .select_outgoing()
    .unwrap()
    .align_outgoing()
    .unwrap()
    .pad_alignment_output()
    .unwrap();

    utxos.remove(5);
    utxos.remove(2);
    utxos.remove(1);
    utxos.remove(0);
    assert_eq!(
        unspent(&tx_builder),
        ordered(utxos.iter().map(|(outpoint, _ranges)| *outpoint).collect())
    );
    assert_eq!(
        tx_builder.inputs,
        [outpoint(4), outpoint(3), outpoint(2), outpoint(1)]
    ); // padding inputs are inserted at the start
    assert_eq!(
        tx_builder.outputs,
        [
            (change(0), Amount::from_sat(101 + 104 + 105 + 1)),
            (recipient(), Amount::from_sat(19_999))
        ]
    )
}

fn select_cardinal_utxo_prefer_under_helper(
    target_value: Amount,
    prefer_under: bool,
    expected_value: Amount,
) {
    let utxos = vec![
        (outpoint(4), Amount::from_sat(101)),
        (outpoint(1), Amount::from_sat(20_000)),
        (outpoint(2), Amount::from_sat(105)),
        (outpoint(5), Amount::from_sat(103)),
        (outpoint(6), Amount::from_sat(10_000)),
        (outpoint(3), Amount::from_sat(104)),
        (outpoint(7), Amount::from_sat(102)),
    ];

    let mut tx_builder = TransactionBuilder::new(
        satpoint(0, 0),
        SortedMap::new(),
        wallet(utxos),
        vec![recipient()],
        None,
        [change(0), change(1)],
        fee_rate(1.0),
        None,
        vec![Target::Value(Amount::from_sat(10_000))],
        Amount::from_sat(0),
        Amount::from_sat(0),
    )
    .unwrap();

    assert_eq!(
        tx_builder
            .select_cardinal_utxo(target_value, prefer_under)
            .unwrap()
            .1,
        expected_value
    );
}

#[test]
fn select_cardinal_utxo_prefer_under() {
    // select biggest utxo <= 104
    select_cardinal_utxo_prefer_under_helper(Amount::from_sat(104), true, Amount::from_sat(104));

    // select biggest utxo <= 1_000
    select_cardinal_utxo_prefer_under_helper(Amount::from_sat(1_000), true, Amount::from_sat(105));

    // select biggest utxo <= 10, else smallest > 10
    select_cardinal_utxo_prefer_under_helper(Amount::from_sat(10), true, Amount::from_sat(101));

    // select smallest utxo >= 104
    select_cardinal_utxo_prefer_under_helper(Amount::from_sat(104), false, Amount::from_sat(104));

    // select smallest utxo >= 1_000
    select_cardinal_utxo_prefer_under_helper(
        Amount::from_sat(1000),
        false,
        Amount::from_sat(10_000),
    );

    // select smallest utxo >= 100_000, else biggest < 100_000
    select_cardinal_utxo_prefer_under_helper(
        Amount::from_sat(100_000),
        false,
        Amount::from_sat(20_000),
    );
}
