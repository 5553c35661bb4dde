use ordinal_transaction_builder::address::{Address, Network, Payload, WitnessProgram};
use ordinal_transaction_builder::amount::Amount;
use ordinal_transaction_builder::builder::{
    TransactionBuilder, DEFAULT_MAX_POSTAGE, DEFAULT_TARGET_POSTAGE, ENABLE_RBF_NO_LOCKTIME,
};
use ordinal_transaction_builder::error::{Error, Invariant};
use ordinal_transaction_builder::fee_rate::{FeeRate, VBytes};
use ordinal_transaction_builder::model::Target;
use ordinal_transaction_builder::ordered::SortedMap;
use ordinal_transaction_builder::outpoint::{InscriptionId, OutPoint, SatPoint, Txid};
use ordinal_transaction_builder::transaction::{Transaction, TxIn, TxOut};

fn txid(n: u8) -> Txid {
    Txid([n * 0x11; 32])
}

fn outpoint(n: u8) -> OutPoint {
    OutPoint {
        txid: txid(n),
        vout: n as u32,
    }
}

fn satpoint(n: u8, offset: u64) -> SatPoint {
    SatPoint {
        outpoint: outpoint(n),
        offset,
    }
}

fn inscription_id(n: u8) -> InscriptionId {
    InscriptionId {
        txid: txid(n),
        index: n as u32,
    }
}

fn address(text: &str) -> Address {
    let parsed: bitcoin::Address = text.parse().unwrap();
    let network = match parsed.network {
        bitcoin::Network::Bitcoin => Network::Bitcoin,
        bitcoin::Network::Testnet => Network::Testnet,
        bitcoin::Network::Signet => Network::Signet,
        bitcoin::Network::Regtest => Network::Regtest,
    };
    let payload = match parsed.payload {
        bitcoin::util::address::Payload::WitnessProgram { version, program } => {
            Payload::WitnessProgram(WitnessProgram::new(version.to_num(), &program).unwrap())
        }
        _ => panic!("not a witness program"),
    };
    Address { payload, network }
}

fn recipient() -> Address {
    address("tb1q6en7qjxgw4ev8xwx94pzdry6a6ky7wlfeqzunz")
}

fn change(n: usize) -> Address {
    address(
        [
            "tb1qjsv26lap3ffssj6hfy8mzn0lg5vte6a42j75ww",
            "tb1qakxxzv9n7706kc3xdcycrtfv8cqv62hnwexc0l",
        ][n],
    )
}

fn alignment() -> Option<Address> {
    Some(address("tb1qxz9yk0td0yye009gt6ayn7jthz5p07a75luryg"))
}

fn fee_rate(rate: f64) -> FeeRate {
    FeeRate::from_bits(rate.to_bits()).unwrap()
}

fn wallet(utxos: Vec<(OutPoint, Amount)>) -> SortedMap<OutPoint, Amount> {
    let mut amounts = SortedMap::new();
    for (outpoint, amount) in utxos {
        amounts.insert(outpoint, amount);
    }
    amounts
}

fn inscriptions<const N: usize>(
    entries: [(SatPoint, InscriptionId); N],
) -> SortedMap<SatPoint, InscriptionId> {
    let mut inscriptions = SortedMap::new();
    for (satpoint, id) in entries {
        inscriptions.insert(satpoint, id);
    }
    inscriptions
}

fn tx_in(previous_output: OutPoint) -> TxIn {
    TxIn {
        previous_output,
        script_sig: Vec::new(),
        sequence: ENABLE_RBF_NO_LOCKTIME,
        witness: Vec::new(),
    }
}

fn tx_out(value: u64, address: Address) -> TxOut {
    TxOut {
        value,
        script_pubkey: address.script_pubkey(),
    }
}

fn second_recipient() -> Address {
    address("bc1pxwww0ct9ue7e8tdnlmug5m2tamfn7q06sahstg39ys4c9f3340qqxrdu9k")
}

/// The least that an output to the second recipient should hold.
const TAPROOT_DUST: u64 = 330;

fn with_value(
    outgoing: SatPoint,
    utxos: Vec<(OutPoint, Amount)>,
    max_inputs: Option<usize>,
    value: u64,
) -> Result<Transaction, Error> {
    TransactionBuilder::build_transaction_with_value(
        outgoing,
        SortedMap::new(),
        wallet(utxos),
        recipient(),
        None,
        [change(0), change(1)],
        fee_rate(1.0),
        max_inputs,
        Amount::from_sat(value),
    )
}

fn with_values(
    outgoing: SatPoint,
    utxos: Vec<(OutPoint, Amount)>,
    recipients: Vec<Address>,
    values: Vec<Amount>,
) -> Result<Transaction, Error> {
    TransactionBuilder::build_transaction_with_values(
        outgoing,
        SortedMap::new(),
        wallet(utxos),
        recipients,
        None,
        [change(0), change(1)],
        fee_rate(1.0),
        values,
        None,
    )
}

/// What the inputs hold more than the outputs, and the fee for the size of the
/// signed transaction.
fn fees(utxos: &[(OutPoint, Amount)], transaction: &Transaction, rate: FeeRate) -> (u64, u64) {
    let spent: u64 = transaction
        .input
        .iter()
        .map(|input| {
            let (_, amount) = utxos
                .iter()
                .find(|(outpoint, _)| *outpoint == input.previous_output)
                .unwrap();
            amount.0
        })
        .sum();
    let paid: u64 = transaction.output.iter().map(|output| output.value).sum();
    let signatures = 2 + 66 * transaction.input.len();
    let size = VBytes::from_weight(transaction.weight() + signatures);
    (spent - paid, rate.fee(size).0)
}

#[test]
fn not_in_wallet() {
    assert_eq!(
        with_value(
            satpoint(2, 0),
            vec![(outpoint(1), Amount::from_sat(5_000))],
            None,
            1_000
        ),
        Err(Error::NotInWallet(satpoint(2, 0)))
    );
}

#[test]
fn out_of_range() {
    assert_eq!(
        with_value(
            satpoint(1, 5_000),
            vec![(outpoint(1), Amount::from_sat(5_000))],
            None,
            1_000
        ),
        Err(Error::OutOfRange(satpoint(1, 5_000), 4_999))
    );
}

#[test]
fn empty_output_has_no_last_sat() {
    assert_eq!(
        with_value(
            satpoint(1, 0),
            vec![(outpoint(1), Amount::from_sat(0))],
            None,
            1_000
        ),
        Err(Error::Broken(Invariant::Arithmetic))
    );
}

#[test]
fn no_inputs_allowed() {
    assert_eq!(
        with_value(
            satpoint(1, 0),
            vec![(outpoint(1), Amount::from_sat(5_000))],
            Some(0),
            1_000
        ),
        Err(Error::TooManyInputs(0))
    );
}

#[test]
fn inputs_are_limited() {
    let utxos = vec![
        (outpoint(1), Amount::from_sat(1_000)),
        (outpoint(2), Amount::from_sat(1_000)),
    ];
    assert_eq!(
        with_value(satpoint(1, 0), utxos.clone(), Some(1), 1_500),
        Err(Error::TooManyInputs(1))
    );
    assert_eq!(
        with_value(satpoint(1, 0), utxos, Some(2), 1_500)
            .unwrap()
            .input
            .len(),
        2
    );
}

#[test]
fn value_overflows_with_fee() {
    assert_eq!(
        with_value(
            satpoint(1, 0),
            vec![(outpoint(1), Amount::from_sat(5_000))],
            None,
            u64::MAX
        ),
        Err(Error::ValueOverflow)
    );
}

#[test]
fn max_postage_less_than_target() {
    assert_eq!(
        TransactionBuilder::build_transaction_with_postage(
            satpoint(1, 0),
            SortedMap::new(),
            SortedMap::new(),
            recipient(),
            None,
            [change(0), change(1)],
            fee_rate(1.0),
            None,
            Amount::from_sat(10_001),
            Amount::from_sat(10_000),
        ),
        Err(Error::MaxPostageLessThanTarget {
            max_postage: Amount::from_sat(10_000),
            target_postage: Amount::from_sat(10_001),
        })
    );
}

#[test]
fn several_recipients_get_their_values() {
    let utxos = vec![(outpoint(1), Amount::from_sat(10_000))];
    let transaction = with_values(
        satpoint(1, 0),
        utxos.clone(),
        vec![recipient(), second_recipient()],
        vec![Amount::from_sat(1_000), Amount::from_sat(2_000)],
    )
    .unwrap();
    assert_eq!(
        transaction.output,
        vec![
            tx_out(1_000, recipient()),
            tx_out(2_000, second_recipient()),
            tx_out(6_827, change(1)),
        ]
    );
    assert_eq!(fees(&utxos, &transaction, fee_rate(1.0)), (173, 173));
}

#[test]
fn several_recipients_are_funded_in_order() {
    let utxos = vec![
        (outpoint(1), Amount::from_sat(1_500)),
        (outpoint(2), Amount::from_sat(4_000)),
    ];
    let transaction = with_values(
        satpoint(1, 0),
        utxos.clone(),
        vec![recipient(), second_recipient()],
        vec![Amount::from_sat(1_000), Amount::from_sat(2_000)],
    )
    .unwrap();
    assert_eq!(
        transaction.output,
        vec![
            tx_out(1_000, recipient()),
            tx_out(2_000, second_recipient()),
            tx_out(2_269, change(1)),
        ]
    );
    assert_eq!(fees(&utxos, &transaction, fee_rate(1.0)), (231, 231));
}

#[test]
fn alignment_is_taken_from_the_last_recipients() {
    let utxos = vec![
        (outpoint(1), Amount::from_sat(3_000)),
        (outpoint(2), Amount::from_sat(4_000)),
    ];
    let transaction = with_values(
        satpoint(1, 2_500),
        utxos.clone(),
        vec![recipient(), second_recipient()],
        vec![Amount::from_sat(1_000), Amount::from_sat(2_000)],
    )
    .unwrap();
    assert_eq!(
        transaction.output,
        vec![
            tx_out(2_500, change(0)),
            tx_out(1_000, recipient()),
            tx_out(2_000, second_recipient()),
            tx_out(1_238, change(1)),
        ]
    );
    assert_eq!(fees(&utxos, &transaction, fee_rate(1.0)), (262, 262));
}

#[test]
fn one_of_several_values_is_dust() {
    assert_eq!(
        with_values(
            satpoint(1, 0),
            vec![(outpoint(1), Amount::from_sat(10_000))],
            vec![recipient(), second_recipient()],
            vec![Amount::from_sat(1_000), Amount::from_sat(329)],
        ),
        Err(Error::Dust {
            output_value: Amount::from_sat(329),
            dust_value: Amount::from_sat(TAPROOT_DUST),
        })
    );
}

#[test]
fn recipient_without_value() {
    assert_eq!(
        with_values(
            satpoint(1, 0),
            vec![(outpoint(1), Amount::from_sat(10_000))],
            vec![recipient(), second_recipient()],
            vec![Amount::from_sat(1_000)],
        ),
        Err(Error::Broken(Invariant::SameNumberOfOutputsAsRecipients))
    );
}

#[test]
fn no_recipient() {
    assert_eq!(
        with_values(
            satpoint(1, 0),
            vec![(outpoint(1), Amount::from_sat(10_000))],
            vec![],
            vec![],
        ),
        Err(Error::Broken(Invariant::FirstOutputIsRecipient))
    );
}

#[test]
fn recipient_given_twice() {
    assert_eq!(
        with_values(
            satpoint(1, 0),
            vec![(outpoint(1), Amount::from_sat(10_000))],
            vec![recipient(), recipient()],
            vec![Amount::from_sat(1_000), Amount::from_sat(1_000)],
        ),
        Err(Error::Broken(Invariant::RecipientAppearsExactlyOnce))
    );
}

#[test]
fn inscription_before_the_outgoing_sat_needs_room() {
    let build = |offset: u64| {
        TransactionBuilder::build_transaction_with_postage(
            satpoint(1, offset),
            inscriptions([(satpoint(1, 0), inscription_id(1))]),
            wallet(vec![(outpoint(1), Amount::from_sat(10_000))]),
            recipient(),
            None,
            [change(0), change(1)],
            fee_rate(1.0),
            None,
            Amount::from_sat(DEFAULT_TARGET_POSTAGE),
            Amount::from_sat(DEFAULT_MAX_POSTAGE),
        )
    };
    assert_eq!(
        build(293),
        Err(Error::UtxoContainsAdditionalInscription {
            outgoing_satpoint: satpoint(1, 293),
            inscribed_satpoint: satpoint(1, 0),
            inscription_id: inscription_id(1),
        })
    );
    assert_eq!(
        build(294).unwrap().output,
        vec![tx_out(294, change(0)), tx_out(9_576, recipient())]
    );
}

#[test]
fn the_last_conflicting_inscription_is_named() {
    assert_eq!(
        TransactionBuilder::build_transaction_with_postage(
            satpoint(1, 0),
            inscriptions([
                (satpoint(1, 700), inscription_id(3)),
                (satpoint(1, 500), inscription_id(2)),
            ]),
            wallet(vec![(outpoint(1), Amount::from_sat(10_000))]),
            recipient(),
            None,
            [change(0), change(1)],
            fee_rate(1.0),
            None,
            Amount::from_sat(DEFAULT_TARGET_POSTAGE),
            Amount::from_sat(DEFAULT_MAX_POSTAGE),
        ),
        Err(Error::UtxoContainsAdditionalInscription {
            outgoing_satpoint: satpoint(1, 0),
            inscribed_satpoint: satpoint(1, 700),
            inscription_id: inscription_id(3),
        })
    );
}

#[test]
fn given_alignment_address_is_used() {
    let transaction = TransactionBuilder::build_transaction_with_postage(
        satpoint(1, 3_333),
        SortedMap::new(),
        wallet(vec![(outpoint(1), Amount::from_sat(10_000))]),
        recipient(),
        alignment(),
        [change(0), change(1)],
        fee_rate(1.0),
        None,
        Amount::from_sat(DEFAULT_TARGET_POSTAGE),
        Amount::from_sat(DEFAULT_MAX_POSTAGE),
    )
    .unwrap();
    assert_eq!(
        transaction.output,
        vec![
            tx_out(3_333, alignment().unwrap()),
            tx_out(6_537, recipient())
        ]
    );
}

#[test]
fn fee_is_what_inputs_hold_more_than_outputs() {
    let utxos = vec![
        (outpoint(1), Amount::from_sat(5_000)),
        (outpoint(2), Amount::from_sat(25_000)),
    ];
    for rate in [0.0, 0.3, 1.0, 1.5, 2.7, 10.0] {
        let transaction = TransactionBuilder::build_transaction_with_postage(
            satpoint(1, 4_950),
            SortedMap::new(),
            wallet(utxos.clone()),
            recipient(),
            None,
            [change(0), change(1)],
            fee_rate(rate),
            None,
            Amount::from_sat(DEFAULT_TARGET_POSTAGE),
            Amount::from_sat(DEFAULT_MAX_POSTAGE),
        );
        if let Ok(transaction) = transaction {
            let (paid, expected) = fees(&utxos, &transaction, fee_rate(rate));
            assert_eq!(paid, expected);
            assert_eq!(transaction.output[0], tx_out(4_950, change(0)));
        } else {
            panic!("no transaction at {rate}");
        }
    }
}

#[test]
fn inscribed_outputs_are_not_spent_for_padding() {
    let result = TransactionBuilder::build_transaction_with_postage(
        satpoint(1, 1),
        inscriptions([(satpoint(2, 0), inscription_id(1))]),
        wallet(vec![
            (outpoint(1), Amount::from_sat(10_000)),
            (outpoint(2), Amount::from_sat(10_000)),
            (outpoint(3), Amount::from_sat(10_000)),
        ]),
        recipient(),
        None,
        [change(0), change(1)],
        fee_rate(1.0),
        None,
        Amount::from_sat(DEFAULT_TARGET_POSTAGE),
        Amount::from_sat(DEFAULT_MAX_POSTAGE),
    )
    .unwrap();
    assert_eq!(
        result.input,
        vec![tx_in(outpoint(3)), tx_in(outpoint(1))]
    );
}

#[test]
fn fee_can_be_more_than_the_last_output() {
    let mut builder = TransactionBuilder::new(
        satpoint(1, 0),
        SortedMap::new(),
        wallet(vec![(outpoint(1), Amount::from_sat(5_000))]),
        vec![recipient()],
        None,
        [change(0), change(1)],
        fee_rate(1.0),
        None,
        vec![Target::Postage],
        Amount::from_sat(DEFAULT_TARGET_POSTAGE),
        Amount::from_sat(DEFAULT_MAX_POSTAGE),
    )
    .unwrap()
    .select_outgoing()
    .unwrap();
    builder.outputs.push((change(1), Amount::from_sat(10)));
    assert_eq!(
        builder.deduct_fee().err(),
        Some(Error::Broken(Invariant::LastOutputCanPayFee))
    );
}

#[test]
fn only_the_last_recipient_gets_what_is_not_worth_change() {
    let utxos = vec![(outpoint(1), Amount::from_sat(3_400))];
    let transaction = with_values(
        satpoint(1, 0),
        utxos.clone(),
        vec![recipient(), second_recipient()],
        vec![Amount::from_sat(1_000), Amount::from_sat(2_000)],
    )
    .unwrap();
    assert_eq!(
        transaction.output,
        vec![
            tx_out(1_000, recipient()),
            tx_out(2_258, second_recipient()),
        ]
    );
    assert_eq!(fees(&utxos, &transaction, fee_rate(1.0)), (142, 142));
}

#[test]
fn limit_only_refuses_more_inputs() {
    let utxos = vec![
        (outpoint(1), Amount::from_sat(1_000)),
        (outpoint(2), Amount::from_sat(1_000)),
        (outpoint(3), Amount::from_sat(1_000)),
        (outpoint(4), Amount::from_sat(1_000)),
    ];
    let transaction = with_value(satpoint(1, 1), utxos.clone(), None, 1_500);
    assert_eq!(transaction.as_ref().unwrap().input.len(), 3);
    assert_eq!(
        with_value(satpoint(1, 1), utxos.clone(), Some(4), 1_500),
        transaction
    );
    assert_eq!(
        with_value(satpoint(1, 1), utxos.clone(), Some(3), 1_500),
        transaction
    );
    for limit in 1..3 {
        assert_eq!(
            with_value(satpoint(1, 1), utxos.clone(), Some(limit), 1_500),
            Err(Error::TooManyInputs(limit))
        );
    }
}

#[test]
fn inscribed_output_has_no_influence() {
    for value in [1_000, 4_000, 9_000] {
        let build = |inscriptions, utxos| {
            TransactionBuilder::build_transaction_with_value(
                satpoint(2, 0),
                inscriptions,
                wallet(utxos),
                recipient(),
                None,
                [change(0), change(1)],
                fee_rate(1.0),
                None,
                Amount::from_sat(value),
            )
        };
        let utxos = vec![
            (outpoint(2), Amount::from_sat(2_000)),
            (outpoint(4), Amount::from_sat(5_000)),
        ];
        let without = build(SortedMap::new(), utxos.clone());
        if value == 9_000 {
            assert_eq!(without, Err(Error::NotEnoughCardinalUtxos));
        } else {
            assert_eq!(
                without.as_ref().unwrap().output[0],
                tx_out(value, recipient())
            );
        }
        for n in [1, 3, 5] {
            let mut more = utxos.clone();
            more.push((outpoint(n), Amount::from_sat(3_000)));
            assert_eq!(
                build(
                    inscriptions([(satpoint(n, 10), inscription_id(n))]),
                    more.clone()
                ),
                without
            );
            if value == 4_000 {
                assert_ne!(build(SortedMap::new(), more), without);
            }
        }
    }
}

#[test]
fn one_of_several_values_is_one_value() {
    let utxos = vec![
        (outpoint(1), Amount::from_sat(5_000)),
        (outpoint(2), Amount::from_sat(6_000)),
    ];
    for value in [100, 294, 1_500, 5_000, 8_000, 20_000] {
        assert_eq!(
            with_values(
                satpoint(1, 700),
                utxos.clone(),
                vec![recipient()],
                vec![Amount::from_sat(value)]
            ),
            with_value(satpoint(1, 700), utxos.clone(), None, value)
        );
    }
}

#[test]
fn of_equal_cardinals_the_first_is_selected() {
    for prefer_under in [false, true] {
        for target in [500, 1_000, 2_000] {
            let mut builder = TransactionBuilder::new(
                satpoint(1, 0),
                inscriptions([(satpoint(1, 0), inscription_id(1))]),
                wallet(vec![
                    (outpoint(1), Amount::from_sat(1_000)),
                    (outpoint(4), Amount::from_sat(1_000)),
                    (outpoint(2), Amount::from_sat(1_000)),
                    (outpoint(3), Amount::from_sat(1_000)),
                ]),
                vec![recipient()],
                None,
                [change(0), change(1)],
                fee_rate(1.0),
                None,
                vec![Target::Postage],
                Amount::from_sat(DEFAULT_TARGET_POSTAGE),
                Amount::from_sat(DEFAULT_MAX_POSTAGE),
            )
            .unwrap();
            for n in 2..5 {
                assert_eq!(
                    builder.select_cardinal_utxo(Amount::from_sat(target), prefer_under),
                    Ok((outpoint(n), Amount::from_sat(1_000)))
                );
            }
        }
    }
}
