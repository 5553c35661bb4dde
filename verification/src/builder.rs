//! The construction of ordinal-aware transactions.

use vstd::prelude::*;

use crate::address::Address;
use crate::amount::Amount;
use crate::error::Error;
use crate::error::Invariant;
use crate::fee_rate::FeeRate;
use crate::fee_rate::VBytes;
use crate::model::Target;
use crate::ordered::SortedMap;
use crate::ordered::SortedSet;
use crate::outpoint::InscriptionId;
use crate::outpoint::OutPoint;
use crate::outpoint::SatPoint;
use crate::transaction::Transaction;
use crate::transaction::TxIn;
use crate::transaction::TxOut;

verus! {

/// The sequence number that lets a transaction be replaced by one that pays a
/// higher fee.
pub const ENABLE_RBF_NO_LOCKTIME: u32 = 0xffff_fffd;

/// The size of a Schnorr signature, in bytes.
pub const SCHNORR_SIGNATURE_SIZE: usize = 64;

/// What an output that carries an inscription should hold, in sats.
pub const DEFAULT_TARGET_POSTAGE: u64 = 10_000;

/// What an output that carries an inscription may hold at most, in sats.
pub const DEFAULT_MAX_POSTAGE: u64 = 20_000;

/// A transaction under construction, and the wallet it is built from.
#[derive(Debug)]
pub struct TransactionBuilder {
    pub amounts: SortedMap<OutPoint, Amount>,
    pub change_addresses: Vec<Address>,
    pub fee_rate: FeeRate,
    pub max_inputs: Option<usize>,
    pub inputs: Vec<OutPoint>,
    pub inscriptions: SortedMap<SatPoint, InscriptionId>,
    pub outgoing: SatPoint,
    pub outputs: Vec<(Address, Amount)>,
    pub recipient: Vec<Address>,
    pub alignment: Option<Address>,
    pub unused_change_addresses: Vec<Address>,
    pub utxos: SortedSet<OutPoint>,
    pub target: Vec<Target>,
    pub target_postage: Amount,
    pub max_postage: Amount,
    pub current_output: usize,
    pub padding_outputs: usize,
}

impl View for TransactionBuilder {
    type V = crate::model::Draft;

    open spec fn view(&self) -> crate::model::Draft {
        crate::model::Draft {
            amounts: self.amounts@,
            change_addresses: self.change_addresses@,
            fee_rate: self.fee_rate,
            max_inputs: self.max_inputs,
            inputs: self.inputs@,
            inscriptions: self.inscriptions.entries(),
            outgoing: self.outgoing,
            outputs: self.outputs@,
            recipient: self.recipient@,
            alignment: self.alignment,
            unused_change_addresses: self.unused_change_addresses@,
            utxos: self.utxos@,
            target: self.target@,
            target_postage: self.target_postage,
            max_postage: self.max_postage,
            current_output: self.current_output as int,
            padding_outputs: self.padding_outputs as int,
        }
    }
}

/// Every address is well-formed.
fn check_addresses(addresses: &Vec<Address>)
    ensures
        forall|i: int| 0 <= i < addresses@.len() ==> (#[trigger] addresses@[i]).well_formed(),
{
    let mut i: usize = 0;
    while i < addresses.len()
        invariant
            i <= addresses@.len(),
            forall|j: int| 0 <= j < i ==> (#[trigger] addresses@[j]).well_formed(),
        decreases addresses@.len() - i,
    {
        addresses[i].check_well_formed();
        i += 1;
    }
}

impl TransactionBuilder {
    /// A transaction that sends the outgoing sat to the recipient, in an output
    /// that holds at most `max_postage`, or `target_postage` where it would hold
    /// more and the rest is worth a change output.
    pub fn build_transaction_with_postage(
        outgoing: SatPoint,
        inscriptions: SortedMap<SatPoint, InscriptionId>,
        amounts: SortedMap<OutPoint, Amount>,
        recipient: Address,
        alignment: Option<Address>,
        change: [Address; 2],
        fee_rate: FeeRate,
        max_inputs: Option<usize>,
        target_postage: Amount,
        max_postage: Amount,
    ) -> (built: Result<Transaction, Error>)
        requires
            512 * (amounts.entries().len() + 5) <= usize::MAX,
        ensures
            crate::model::answers(
                built,
                crate::model::outcome_with_postage(
                    outgoing,
                    inscriptions,
                    amounts,
                    recipient,
                    alignment,
                    change@,
                    fee_rate,
                    max_inputs,
                    target_postage,
                    max_postage,
                ),
            ),
            if max_postage.0 < target_postage.0 {
                built == Err::<Transaction, Error>(
                    Error::MaxPostageLessThanTarget { max_postage, target_postage },
                )
            } else {
                crate::promises::is_right_answer(
                    built,
                    (crate::request::Request {
                        outgoing,
                        inscriptions: inscriptions@,
                        amounts: amounts@,
                        recipient: seq![recipient],
                        alignment,
                        change: change@,
                        fee_rate,
                        max_inputs,
                        target: seq![Target::Postage],
                        target_postage,
                        max_postage,
                    }),
                )
            },
    {
        let ghost wallet = (inscriptions, amounts);
        recipient.check_well_formed();
        proof {
            use_type_invariant(&inscriptions);
            use_type_invariant(&amounts);
        }
        if max_postage.0 < target_postage.0 {
            return Err(Error::MaxPostageLessThanTarget { max_postage, target_postage });
        }
        let recipients: Vec<Address> = vec![recipient];
        let targets: Vec<Target> = vec![Target::Postage];
        assert(recipients@ =~= seq![recipient]);
        assert(targets@ =~= seq![Target::Postage]);
        let builder = Self::new(
            outgoing,
            inscriptions,
            amounts,
            recipients,
            alignment,
            change,
            fee_rate,
            max_inputs,
            targets,
            target_postage,
            max_postage,
        );
        let built = match builder {
            Ok(builder) => builder.build_transaction(),
            Err(error) => Err(error),
        };
        proof {
            crate::promises::postage_requests_are_answered_rightly(
                outgoing,
                wallet.0,
                wallet.1,
                recipient,
                alignment,
                change@,
                fee_rate,
                max_inputs,
                target_postage,
                max_postage,
                built,
            );
        }
        built
    }

    /// A transaction that sends the outgoing sat to the recipient, in an output
    /// that holds the given value, or more where the rest is not worth a change
    /// output.
    pub fn build_transaction_with_value(
        outgoing: SatPoint,
        inscriptions: SortedMap<SatPoint, InscriptionId>,
        amounts: SortedMap<OutPoint, Amount>,
        recipient: Address,
        alignment: Option<Address>,
        change: [Address; 2],
        fee_rate: FeeRate,
        max_inputs: Option<usize>,
        output_value: Amount,
    ) -> (built: Result<Transaction, Error>)
        requires
            512 * (amounts.entries().len() + 5) <= usize::MAX,
        ensures
            crate::model::answers(
                built,
                crate::model::outcome_with_value(
                    outgoing,
                    inscriptions,
                    amounts,
                    recipient,
                    alignment,
                    change@,
                    fee_rate,
                    max_inputs,
                    output_value,
                ),
            ),
            if output_value.0 < crate::address::dust_of(recipient.script()) {
                built == Err::<Transaction, Error>(
                    Error::Dust {
                        output_value,
                        dust_value: Amount(crate::address::dust_of(recipient.script()) as u64),
                    },
                )
            } else {
                crate::promises::is_right_answer(
                    built,
                    (crate::request::Request {
                        outgoing,
                        inscriptions: inscriptions@,
                        amounts: amounts@,
                        recipient: seq![recipient],
                        alignment,
                        change: change@,
                        fee_rate,
                        max_inputs,
                        target: seq![Target::Value(output_value)],
                        target_postage: Amount(0),
                        max_postage: Amount(0),
                    }),
                )
            },
    {
        let ghost wallet = (inscriptions, amounts);
        proof {
            use_type_invariant(&inscriptions);
            use_type_invariant(&amounts);
        }
        let dust_value = recipient.dust_value();
        if output_value.0 < dust_value.0 {
            return Err(Error::Dust { output_value, dust_value });
        }
        let recipients: Vec<Address> = vec![recipient];
        let targets: Vec<Target> = vec![Target::Value(output_value)];
        proof {
            crate::address::lemma_script_length(recipient);
            assert(recipients@ =~= seq![recipient]);
            assert(targets@ =~= seq![Target::Value(output_value)]);
        }
        let builder = Self::new(
            outgoing,
            inscriptions,
            amounts,
            recipients,
            alignment,
            change,
            fee_rate,
            max_inputs,
            targets,
            Amount(0),
            Amount(0),
        );
        let built = match builder {
            Ok(builder) => builder.build_transaction(),
            Err(error) => Err(error),
        };
        proof {
            crate::promises::value_requests_are_answered_rightly(
                outgoing,
                wallet.0,
                wallet.1,
                recipient,
                alignment,
                change@,
                fee_rate,
                max_inputs,
                output_value,
                built,
            );
        }
        built
    }

    /// A transaction that sends the outgoing sat to the first recipient, and to
    /// each recipient an output that holds its value; where the rest is not worth
    /// a change output, the last holds more.
    pub fn build_transaction_with_values(
        outgoing: SatPoint,
        inscriptions: SortedMap<SatPoint, InscriptionId>,
        amounts: SortedMap<OutPoint, Amount>,
        recipient: Vec<Address>,
        alignment: Option<Address>,
        change: [Address; 2],
        fee_rate: FeeRate,
        output_value: Vec<Amount>,
        max_inputs: Option<usize>,
    ) -> (built: Result<Transaction, Error>)
        requires
            512 * (amounts.entries().len() + recipient@.len() + 4) <= usize::MAX,
        ensures
            crate::model::answers(
                built,
                crate::model::outcome_with_values(
                    outgoing,
                    inscriptions,
                    amounts,
                    recipient@,
                    alignment,
                    change@,
                    fee_rate,
                    output_value@,
                    max_inputs,
                ),
            ),
            if exists|i: int| #[trigger]
                crate::promises::is_dust(recipient@, output_value@, i) {
                exists|i: int| #[trigger]
                    crate::promises::is_dust(recipient@, output_value@, i) && built == Err::<
                        Transaction,
                        Error,
                    >(
                        Error::Dust {
                            output_value: output_value@[i],
                            dust_value: Amount(
                                crate::address::dust_of(recipient@[i].script()) as u64,
                            ),
                        },
                    ) && forall|j: int|
                        j < i ==> !#[trigger] crate::promises::is_dust(
                            recipient@,
                            output_value@,
                            j,
                        )
            } else {
                crate::promises::is_right_answer(
                    built,
                    (crate::request::Request {
                        outgoing,
                        inscriptions: inscriptions@,
                        amounts: amounts@,
                        recipient: recipient@,
                        alignment,
                        change: change@,
                        fee_rate,
                        max_inputs,
                        target: Seq::new(
                            output_value@.len(),
                            |i: int| Target::Value(output_value@[i]),
                        ),
                        target_postage: Amount(0),
                        max_postage: Amount(0),
                    }),
                )
            },
    {
        let ghost wallet = (inscriptions, amounts);
        let ghost recipients = recipient@;
        check_addresses(&recipient);
        proof {
            use_type_invariant(&inscriptions);
            use_type_invariant(&amounts);
        }
        let mut i: usize = 0;
        while i < recipient.len() && i < output_value.len()
            invariant
                recipients == recipient@,
                wallet == (inscriptions, amounts),
                wallet.0.well_formed(),
                wallet.1.well_formed(),
                forall|j: int| 0 <= j < recipients.len() ==> (#[trigger] recipients[j]).well_formed(),
                512 * (amounts.entries().len() + recipients.len() + 4) <= usize::MAX,
                i <= recipient@.len(),
                i <= output_value@.len(),
                crate::model::first_dust(recipient@, output_value@, 0) == crate::model::first_dust(
                    recipient@,
                    output_value@,
                    i as int,
                ),
                forall|j: int| 0 <= j < i ==> (#[trigger] output_value@[j]).0 > 0,
            decreases recipient@.len() - i,
        {
            let dust_value = recipient[i].dust_value();
            if output_value[i].0 < dust_value.0 {
                let built = Err(Error::Dust { output_value: output_value[i], dust_value });
                proof {
                    crate::promises::values_requests_are_answered_rightly(
                        outgoing,
                        wallet.0,
                        wallet.1,
                        recipients,
                        alignment,
                        change@,
                        fee_rate,
                        output_value@,
                        max_inputs,
                        built,
                    );
                }
                return built;
            }
            proof {
                crate::address::lemma_script_length(recipient@[i as int]);
            }
            i += 1;
        }
        let mut targets: Vec<Target> = Vec::new();
        let mut k: usize = 0;
        while k < output_value.len()
            invariant
                k <= output_value@.len(),
                targets@ == crate::model::value_targets(output_value@).take(k as int),
            decreases output_value@.len() - k,
        {
            targets.push(Target::Value(output_value[k]));
            assert(targets@ =~= crate::model::value_targets(output_value@).take(k + 1));
            k += 1;
        }
        assert(targets@ =~= crate::model::value_targets(output_value@));
        let builder = Self::new(
            outgoing,
            inscriptions,
            amounts,
            recipient,
            alignment,
            change,
            fee_rate,
            max_inputs,
            targets,
            Amount(0),
            Amount(0),
        );
        let built = match builder {
            Ok(builder) => builder.build_transaction(),
            Err(error) => Err(error),
        };
        proof {
            crate::promises::values_requests_are_answered_rightly(
                outgoing,
                wallet.0,
                wallet.1,
                recipients,
                alignment,
                change@,
                fee_rate,
                output_value@,
                max_inputs,
                built,
            );
        }
        built
    }

    /// The transaction that the draft makes, after all the steps.
    pub fn build_transaction(self) -> (built: Result<Transaction, Error>)
        requires
            self@.fresh(),
        ensures
            crate::model::answers(built, self@.finished()),
    {
        let selected = match self.select_outgoing() {
            Ok(builder) => builder,
            Err(error) => {
                return Err(error);
            },
        };
        let aligned = match selected.align_outgoing() {
            Ok(builder) => builder,
            Err(error) => {
                return Err(error);
            },
        };
        let padded = match aligned.pad_alignment_output() {
            Ok(builder) => builder,
            Err(error) => {
                return Err(error);
            },
        };
        let funded = match padded.add_value() {
            Ok(builder) => builder,
            Err(error) => {
                return Err(error);
            },
        };
        let stripped = match funded.strip_value() {
            Ok(builder) => builder,
            Err(error) => {
                return Err(error);
            },
        };
        let deducted = match stripped.deduct_fee() {
            Ok(builder) => builder,
            Err(error) => {
                return Err(error);
            },
        };
        deducted.build()
    }

    /// A builder for a request, unless an address is given twice or no input is
    /// allowed.
    pub fn new(
        outgoing: SatPoint,
        inscriptions: SortedMap<SatPoint, InscriptionId>,
        amounts: SortedMap<OutPoint, Amount>,
        recipient: Vec<Address>,
        alignment: Option<Address>,
        change: [Address; 2],
        fee_rate: FeeRate,
        max_inputs: Option<usize>,
        target: Vec<Target>,
        target_postage: Amount,
        max_postage: Amount,
    ) -> (builder: Result<Self, Error>)
        requires
            512 * (amounts.entries().len() + recipient@.len() + 4) <= usize::MAX,
            forall|i: int|
                0 <= i < recipient@.len() && i < target@.len() ==> #[trigger] target@[i]
                    != Target::Value(Amount(0)),
        ensures
            ({
                let draft = crate::model::begun(
                    outgoing,
                    inscriptions,
                    amounts,
                    recipient@,
                    alignment,
                    change@,
                    fee_rate,
                    max_inputs,
                    target@,
                    target_postage,
                    max_postage,
                );
                match draft.refusal() {
                    Some(error) => builder == Err::<Self, Error>(error),
                    None => builder matches Ok(builder) && builder@ == draft && draft.fresh(),
                }
            }),
    {
        let ghost draft = crate::model::begun(
            outgoing,
            inscriptions,
            amounts,
            recipient@,
            alignment,
            change@,
            fee_rate,
            max_inputs,
            target@,
            target_postage,
            max_postage,
        );
        let mut i: usize = 0;
        #[verifier::loop_isolation(false)]
        while i < recipient.len()
            invariant
                i <= recipient@.len(),
                draft.recipient_in_change(0) == draft.recipient_in_change(i as int),
                forall|j: int| 0 <= j < i ==> (#[trigger] recipient@[j]).well_formed(),
            decreases recipient@.len() - i,
        {
            recipient[i].check_well_formed();
            if change[0] == recipient[i] {
                assert(change@[0] == recipient@[i as int]);
                return Err(Error::DuplicateAddress(recipient[i]));
            }
            if change[1] == recipient[i] {
                assert(change@[1] == recipient@[i as int]);
                return Err(Error::DuplicateAddress(recipient[i]));
            }
            assert(!change@.contains(recipient@[i as int]));
            i += 1;
        }
        if change[0] == change[1] {
            return Err(Error::DuplicateAddress(change[0]));
        }
        if let Some(max_inputs) = max_inputs {
            if max_inputs < 1 {
                return Err(Error::TooManyInputs(max_inputs));
            }
        }
        let utxos = SortedSet::from_keys(&amounts);
        let change_addresses: Vec<Address> = vec![change[0], change[1]];
        let unused_change_addresses: Vec<Address> = vec![change[0], change[1]];
        proof {
            use_type_invariant(&amounts);
            crate::model::lemma_begun_is_fresh(
                outgoing,
                inscriptions,
                amounts,
                recipient@,
                alignment,
                change@,
                fee_rate,
                max_inputs,
                target@,
                target_postage,
                max_postage,
            );
            assert(change_addresses@ =~= change@);
            assert(unused_change_addresses@ =~= change@);
        }
        Ok(
            TransactionBuilder {
                utxos,
                amounts,
                change_addresses,
                fee_rate,
                max_inputs,
                inputs: Vec::new(),
                inscriptions,
                outgoing,
                outputs: Vec::new(),
                recipient,
                alignment,
                unused_change_addresses,
                target,
                target_postage,
                max_postage,
                current_output: 0,
                padding_outputs: 0,
            },
        )
    }

    /// What the recipient is to be sent at least.
    fn demand(&self, i: usize) -> (demand: Amount)
        requires
            i < self@.paired(),
        ensures
            demand.0 == self@.demand(i as int),
    {
        match self.target[i] {
            Target::Postage => self.recipient[i].dust_value(),
            Target::Value(value) => value,
        }
    }

    /// The number of sats before the outgoing sat in the inputs.
    pub fn calculate_sat_offset(&self) -> (offset: Result<u64, Error>)
        requires
            self@.well_formed(),
        ensures
            match self@.sat_offset() {
                Ok(sats) => offset matches Ok(offset) && offset == sats,
                Err(error) => offset == Err::<u64, Error>(error),
            },
    {
        let mut before: u64 = 0;
        let mut i: usize = 0;
        let ghost draft = self@;
        let ghost outpoint = self.outgoing.outpoint;
        assert(draft.inputs.skip(0) =~= draft.inputs);
        while i < self.inputs.len()
            invariant
                draft == self@,
                draft.well_formed(),
                outpoint == draft.outgoing.outpoint,
                i <= draft.inputs.len(),
                forall|j: int| 0 <= j < i ==> draft.inputs[j] != outpoint,
                crate::model::worth_before(draft.amounts, draft.inputs, outpoint) == before
                    + crate::model::worth_before(
                    draft.amounts,
                    draft.inputs.skip(i as int),
                    outpoint,
                ),
            decreases draft.inputs.len() - i,
        {
            let ghost rest = draft.inputs.skip(i as int);
            proof {
                assert(rest[0] == draft.inputs[i as int]);
                assert(rest.drop_first() =~= draft.inputs.skip(i + 1));
                crate::model::lemma_worth_before_is_not_negative(
                    draft.amounts,
                    rest.drop_first(),
                    outpoint,
                );
            }
            if self.inputs[i] == self.outgoing.outpoint {
                return match before.checked_add(self.outgoing.offset) {
                    Some(offset) => Ok(offset),
                    None => Err(Error::Broken(Invariant::Arithmetic)),
                };
            }
            assert(draft.amounts.contains_key(draft.inputs[i as int]));
            let amount = self.amounts.get(&self.inputs[i]).unwrap();
            before = match before.checked_add(amount.0) {
                Some(sum) => sum,
                None => {
                    return Err(Error::Broken(Invariant::Arithmetic));
                },
            };
            i += 1;
        }
        Err(Error::Broken(Invariant::SatIsInInputs))
    }

    /// Whether an output of the wallet holds an inscription.
    fn is_inscribed(&self, outpoint: &OutPoint) -> (inscribed: bool)
        ensures
            inscribed == self@.inscribed(*outpoint),
    {
        let mut i: usize = 0;
        while i < self.inscriptions.len()
            invariant
                i <= self@.inscriptions.len(),
                forall|j: int|
                    0 <= j < i ==> (#[trigger] self@.inscriptions[j]).0.outpoint != *outpoint,
            decreases self@.inscriptions.len() - i,
        {
            if self.inscriptions.entry(i).0.outpoint == *outpoint {
                assert(self@.inscriptions[i as int].0.outpoint == *outpoint);
                return true;
            }
            i += 1;
        }
        false
    }

    /// Takes the unspent output without an inscription that is preferred where
    /// about `target_value` is wanted: with `prefer_under` rather a smaller one,
    /// else rather a bigger one.
    pub fn select_cardinal_utxo(&mut self, target_value: Amount, prefer_under: bool) -> (selected:
        Result<(OutPoint, Amount), Error>)
        requires
            old(self)@.well_formed(),
        ensures
            match old(self)@.cardinal(target_value.0 as int, prefer_under) {
                Ok(utxo) => selected == Ok::<(OutPoint, Amount), Error>(
                    (utxo, old(self)@.amounts[utxo]),
                ) && final(self)@ == old(self)@.take_utxo(utxo),
                Err(error) => selected == Err::<(OutPoint, Amount), Error>(error) && final(self)@
                    == old(self)@,
            },
    {
        if let Some(max_inputs) = self.max_inputs {
            if self.inputs.len() == max_inputs {
                return Err(Error::TooManyInputs(max_inputs));
            }
        }
        let ghost draft = self@;
        let mut found: Option<(OutPoint, Amount)> = None;
        let mut best: u64 = 0;
        let mut i: usize = 0;
        while i < self.utxos.len()
            invariant
                draft == self@,
                draft.well_formed(),
                i <= draft.utxos.len(),
                best == draft.value_of(
                    draft.choice(i as int, target_value.0 as int, prefer_under),
                ),
                found == (match draft.choice(i as int, target_value.0 as int, prefer_under) {
                    Some(utxo) => Some((utxo, draft.amounts[utxo])),
                    None => None,
                }),
            decreases draft.utxos.len() - i,
        {
            let utxo = self.utxos.item(i);
            assert(draft.amounts.contains_key(draft.utxos[i as int]));
            if !self.is_inscribed(&utxo) {
                let amount = self.amounts.get(&utxo).unwrap();
                let value: u64 = amount.0;
                let target: u64 = target_value.0;
                let take = if prefer_under {
                    best == 0 || (best <= target && value <= target && value > best) || (best
                        > target && (value <= target || value < best))
                } else {
                    (best >= target && value >= target && value < best) || (best < target && (value
                        >= target || value > best))
                };
                if take {
                    found = Some((utxo, amount));
                    best = value;
                }
            }
            i += 1;
        }
        match found {
            Some((utxo, value)) => {
                self.utxos.remove(&utxo);
                Ok((utxo, value))
            },
            None => Err(Error::NotEnoughCardinalUtxos),
        }
    }

    /// The virtual size of a transaction with so many inputs and with outputs to
    /// the given addresses. Wallets hold taproot outputs only, so the witness of
    /// each input is one Schnorr signature.
    pub fn estimate_vbytes_with(inputs: usize, outputs: Vec<Address>) -> (size: VBytes)
        requires
            512 * (inputs + outputs@.len() + 2) <= usize::MAX,
        ensures
            size.quarters == crate::fee_rate::round_to_double(
                crate::model::signed_weight(inputs as nat, outputs@),
            ),
            inputs > 0 ==> size.quarters == crate::fee_rate::round_to_double(
                crate::request::weight_once_signed(
                    inputs as nat,
                    crate::request::scripts_to(outputs@),
                ),
            ),
            size.quarters <= 0x2_0000_0000_0000_0000,
            size.in_range(),
    {
        let mut input: Vec<TxIn> = Vec::new();
        let mut i: usize = 0;
        while i < inputs
            invariant
                i <= inputs,
                input@.len() == i,
                forall|j: int| 0 <= j < i ==> crate::model::is_signed(#[trigger] input@[j]),
            decreases inputs - i,
        {
            let signature: Vec<u8> = vec![0; SCHNORR_SIGNATURE_SIZE];
            let witness: Vec<Vec<u8>> = vec![signature];
            let tx_in = TxIn {
                previous_output: OutPoint::null(),
                script_sig: Vec::new(),
                sequence: ENABLE_RBF_NO_LOCKTIME,
                witness,
            };
            assert(tx_in.witness@.len() == 1 && tx_in.witness@[0]@.len() == 64);
            input.push(tx_in);
            i += 1;
        }
        let mut output: Vec<TxOut> = Vec::new();
        i = 0;
        while i < outputs.len()
            invariant
                i <= outputs@.len(),
                output@.len() == i,
                forall|j: int|
                    0 <= j < i ==> (#[trigger] output@[j]).script_pubkey@ == outputs@[j].script()
                        && outputs@[j].well_formed(),
            decreases outputs@.len() - i,
        {
            output.push(TxOut { value: 0, script_pubkey: outputs[i].script_pubkey() });
            i += 1;
        }
        let transaction = Transaction { version: 1, lock_time: 0, input, output };
        proof {
            crate::model::lemma_signed_weight(transaction, outputs@);
            crate::fulfilment::lemma_size_of_payments(outputs@);
        }
        VBytes::from_weight(transaction.weight())
    }

    /// The virtual size of the transaction under construction, once signed.
    pub fn estimate_vbytes(&self) -> (size: VBytes)
        requires
            self@.well_formed(),
        ensures
            size.quarters == self@.vbytes(),
            self@.inputs.len() > 0 ==> size.quarters == crate::fee_rate::round_to_double(
                crate::request::weight_once_signed(
                    self@.inputs.len(),
                    crate::request::scripts_to(
                        Seq::new(self@.outputs.len(), |i: int| self@.outputs[i].0),
                    ),
                ),
            ),
            size.quarters <= 0x2_0000_0000_0000_0000,
            size.in_range(),
    {
        let mut outputs: Vec<Address> = Vec::new();
        let mut i: usize = 0;
        while i < self.outputs.len()
            invariant
                i <= self@.outputs.len(),
                outputs@ == crate::model::payees(self@.outputs).take(i as int),
            decreases self@.outputs.len() - i,
        {
            outputs.push(self.outputs[i].0);
            assert(outputs@ =~= crate::model::payees(self@.outputs).take(i + 1));
            i += 1;
        }
        assert(outputs@ =~= crate::model::payees(self@.outputs));
        assert(outputs@ =~= Seq::new(self@.outputs.len(), |i: int| self@.outputs[i].0));
        Self::estimate_vbytes_with(self.inputs.len(), outputs)
    }

    /// The fee of the transaction under construction.
    pub fn estimate_fee(&self) -> (fee: Amount)
        requires
            self@.well_formed(),
        ensures
            fee.0 == self@.fee(),
    {
        self.fee_rate.fee(self.estimate_vbytes())
    }

    /// Spends the output with the outgoing sat, and hands out what it holds to
    /// the recipients.
    pub fn select_outgoing(self) -> (selected: Result<Self, Error>)
        requires
            self@.fresh(),
        ensures
            match self@.selected() {
                Ok(draft) => selected matches Ok(builder) && builder@ == draft
                    && draft.ready_to_align(),
                Err(error) => selected == Err::<Self, Error>(error),
            },
    {
        let ghost draft = self@;
        let mut builder = self;
        let dust_limit = builder.unused_change_addresses[1].dust_value().0;
        let mut i: usize = builder.inscriptions.len();
        while i > 0
            invariant
                draft == self@,
                builder@ == draft,
                draft.well_formed(),
                dust_limit == draft.unused_change_addresses.last().dust(),
                i <= draft.inscriptions.len(),
                draft.last_conflict(i as int) == draft.last_conflict(
                    draft.inscriptions.len() as int,
                ),
            decreases i,
        {
            i -= 1;
            let (inscribed_satpoint, inscription_id) = builder.inscriptions.entry(i);
            if builder.outgoing.outpoint == inscribed_satpoint.outpoint && builder.outgoing.offset
                != inscribed_satpoint.offset && (builder.outgoing.offset
                < inscribed_satpoint.offset || (builder.outgoing.offset > 0
                && builder.outgoing.offset < dust_limit)) {
                return Err(
                    Error::UtxoContainsAdditionalInscription {
                        outgoing_satpoint: builder.outgoing,
                        inscribed_satpoint,
                        inscription_id,
                    },
                );
            }
        }
        let amount = match builder.amounts.get(&builder.outgoing.outpoint) {
            Some(amount) => amount.0,
            None => {
                return Err(Error::NotInWallet(builder.outgoing));
            },
        };
        if builder.outgoing.offset >= amount {
            if amount == 0 {
                return Err(Error::Broken(Invariant::Arithmetic));
            }
            return Err(Error::OutOfRange(builder.outgoing, amount - 1));
        }
        builder.utxos.remove(&builder.outgoing.outpoint);
        builder.inputs.push(builder.outgoing.outpoint);
        proof {
            draft.lemma_same_request(builder@, amount as int);
            draft.lemma_selected();
            if draft.recipient.len() > 0 {
                draft.lemma_served(amount as int);
            }
        }
        let ghost selected = draft.selected()->Ok_0;
        let ghost shares = draft.shares(amount as int);
        let mut available: u64 = amount;
        let mut k: usize = 0;
        while k < builder.recipient.len() && k < builder.target.len()
            invariant
                draft.well_formed(),
                draft.outputs.len() == 0,
                draft.selected() == Ok::<crate::model::Draft, Error>(selected),
                selected.outputs == draft.outputs + shares,
                shares == draft.shares(amount as int),
                builder@ == (crate::model::Draft {
                    outputs: shares.take(k as int),
                    current_output: builder.current_output as int,
                    ..selected
                }),
                selected.current_output == draft.served(amount as int),
                0 <= builder.current_output <= k <= draft.paired(),
                draft.recipient.len() > 0 ==> builder.current_output < draft.recipient.len(),
                draft.demand_before(builder.current_output as int) <= amount,
                builder.current_output < k ==> builder.current_output == draft.recipient.len() - 1
                    || amount < draft.demand_before(builder.current_output + 1),
                builder.current_output == k || k == draft.recipient.len() || amount
                    < draft.demand_before(k as int),
                k < draft.paired() ==> available == if amount > draft.demand_before(k as int) {
                    amount - draft.demand_before(k as int)
                } else {
                    0
                },
            decreases draft.paired() - k,
        {
            proof {
                draft.lemma_same_request(builder@, amount as int);
                assert(0 < draft.demand(k as int) <= u64::MAX);
                assert(draft.demand_before(k + 1) == draft.demand_before(k as int) + draft.demand(
                    k as int,
                ));
                draft.lemma_demand_grows(builder.current_output as int, k as int);
                if builder.current_output < k {
                    draft.lemma_demand_grows(builder.current_output + 1, k as int);
                }
                assert(shares.take(k + 1) =~= shares.take(k as int).push(shares[k as int]));
            }
            let recipient = builder.recipient[k];
            let value = builder.demand(k).0;
            if available < value {
                builder.outputs.push((recipient, Amount(available)));
                available = 0;
            } else if builder.current_output == builder.recipient.len() - 1 {
                builder.outputs.push((recipient, Amount(available)));
            } else {
                builder.outputs.push((recipient, Amount(value)));
                available = available - value;
                builder.current_output = builder.current_output + 1;
            }
            k += 1;
        }
        proof {
            if draft.recipient.len() > 0 {
                draft.lemma_served_is(amount as int, builder.current_output as int);
            }
            assert(shares.take(k as int) =~= shares);
            assert(selected.outputs =~= shares);
        }
        Ok(builder)
    }

    /// Pays the sats before the outgoing one to an output of their own, before
    /// those of the recipients.
    pub fn align_outgoing(self) -> (aligned: Result<Self, Error>)
        requires
            self@.ready_to_align(),
        ensures
            match self@.aligned() {
                Ok(draft) => aligned matches Ok(builder) && builder@ == draft && draft.settled(),
                Err(error) => aligned == Err::<Self, Error>(error),
            },
    {
        let ghost draft = self@;
        let mut builder = self;
        if builder.outputs.len() != builder.recipient.len() {
            return Err(Error::Broken(Invariant::SameNumberOfOutputsAsRecipients));
        }
        if builder.outputs.len() == 0 || builder.outputs[0].0 != builder.recipient[0] {
            return Err(Error::Broken(Invariant::FirstOutputIsRecipient));
        }
        proof {
            draft.lemma_aligned();
            draft.lemma_shares_fit();
            draft.lemma_served(draft.funds());
            assert(draft.outputs.skip(0) =~= draft.outputs);
        }
        let sat_offset: u64 = match builder.calculate_sat_offset() {
            Ok(sat_offset) => sat_offset,
            Err(error) => {
                return Err(error);
            },
        };
        if sat_offset == 0 {
            return Ok(builder);
        }
        let address = match builder.alignment {
            Some(alignment) => alignment,
            None => builder.unused_change_addresses[0],
        };
        builder.outputs.insert(0, (address, Amount(sat_offset)));
        builder.padding_outputs = 1;
        let mut debit: u64 = sat_offset;
        let ghost padding = seq![(draft.alignment_address(), Amount(sat_offset))];
        let ghost mut funds = draft.funds();
        assert(builder@.outputs =~= padding + draft.shares(funds));
        loop
            invariant
                draft == self@,
                draft.settled(),
                draft.sat_offset() == Ok::<int, Error>(sat_offset as int),
                draft.outputs.len() == draft.recipient.len(),
                draft.outputs[0].0 == draft.recipient[0],
                draft.aligned() matches Ok(aligned) ==> aligned.settled(),
                0 < debit <= sat_offset,
                padding == seq![(draft.alignment_address(), Amount(sat_offset))],
                funds - debit == draft.funds() - sat_offset,
                draft.reaches(funds, builder.current_output as int),
                funds - draft.demand_before(builder.current_output as int) <= u64::MAX,
                builder@ == (crate::model::Draft {
                    outputs: padding + draft.shares(funds),
                    current_output: builder.current_output as int,
                    padding_outputs: 1,
                    ..draft
                }),
            decreases builder.current_output,
        {
            let ghost c = builder.current_output as int;
            let at: usize = builder.current_output + builder.padding_outputs;
            let (recipient, existing) = builder.outputs[at];
            proof {
                assert(0 < draft.demand(c) <= u64::MAX);
                draft.lemma_shares_differ_at(funds, draft.demand_before(c), c);
                assert(builder@.outputs[at as int] == draft.shares(funds)[c]);
            }
            if existing.0 < debit {
                debit = debit - existing.0;
                builder.outputs.set(at, (recipient, Amount(0)));
                proof {
                    funds = draft.demand_before(c);
                    assert(builder@.outputs =~= padding + draft.shares(funds));
                }
                if builder.current_output == 0 {
                    return Err(Error::Broken(Invariant::Arithmetic));
                }
                builder.current_output = builder.current_output - 1;
                proof {
                    assert(0 < draft.demand(c - 1) <= u64::MAX);
                }
            } else {
                builder.outputs.set(at, (recipient, Amount(existing.0 - debit)));
                proof {
                    let rest = funds - debit;
                    draft.lemma_shares_differ_at(funds, rest, c);
                    draft.lemma_served_is(rest, c);
                    draft.lemma_demand_grows(0, c);
                    assert(builder@.outputs =~= padding + draft.shares(rest));
                    assert(builder@ =~= draft.aligned()->Ok_0);
                }
                return Ok(builder);
            }
        }
    }

    /// Pads the output for the sats before the outgoing one with cardinal
    /// outputs until it is not dust.
    pub fn pad_alignment_output(self) -> (padded: Result<Self, Error>)
        requires
            self@.settled(),
        ensures
            match self@.padded() {
                Ok(draft) => padded matches Ok(builder) && builder@ == draft && draft.settled(),
                Err(error) => padded == Err::<Self, Error>(error),
            },
    {
        let ghost draft = self@;
        let mut builder = self;
        proof {
            if draft.padding_outputs == 0 {
                assert(draft.outputs[0] == draft.outputs.skip(0)[0]);
                assert(draft.outputs[0].0 == draft.recipient[0]);
            }
        }
        if builder.outputs[0].0 == builder.recipient[0] {
            return Ok(builder);
        }
        let dust_limit: u64 = builder.unused_change_addresses[1].dust_value().0;
        while builder.outputs[0].1.0 < dust_limit
            invariant
                draft == self@,
                draft.padded() == builder@.padded_to_dust_limit(),
                builder@.settled(),
                builder@.padding_outputs == 1,
                dust_limit == builder@.unused_change_addresses.last().dust(),
            decreases builder@.utxos.len(),
        {
            let ghost before = builder@;
            let first = builder.outputs[0];
            let target: u64 = dust_limit - first.1.0;
            proof {
                before.lemma_cardinal_is_unspent(target as int, true);
            }
            // Smaller outputs are preferred, to tidy up dust.
            let (utxo, size) = match builder.select_cardinal_utxo(Amount(target), true) {
                Ok(selected) => selected,
                Err(error) => {
                    return Err(error);
                },
            };
            let sum: u64 = match first.1.0.checked_add(size.0) {
                Some(sum) => sum,
                None => {
                    return Err(Error::Broken(Invariant::Arithmetic));
                },
            };
            builder.inputs.insert(0, utxo);
            builder.outputs.set(0, (first.0, Amount(sum)));
            proof {
                before.lemma_pad_with(utxo);
                assert(builder@.inputs =~= before.pad_with(utxo).inputs);
                assert(builder@ =~= before.pad_with(utxo));
            }
        }
        Ok(builder)
    }

    /// Hands out so much more to the recipients, unless an output would hold more
    /// than an amount can.
    fn hand_out(&mut self, value: Amount) -> (fits: bool)
        requires
            old(self)@.settled(),
        ensures
            ({
                let draft = old(self)@;
                let funds = draft.funds() + value.0;
                &&& fits == (funds - draft.demand_before(draft.current_output) <= u64::MAX)
                &&& fits ==> final(self)@ == (crate::model::Draft {
                    outputs: draft.outputs.take(draft.padding_outputs) + draft.shares(funds),
                    current_output: draft.served(funds),
                    ..draft
                })
            }),
    {
        let ghost draft = self@;
        let ghost pad = draft.padding_outputs;
        let ghost padding = draft.outputs.take(pad);
        let ghost whole = draft.funds() + value.0;
        let mut available: u64 = value.0;
        let ghost mut first = true;
        proof {
            draft.lemma_shares_fit();
            draft.lemma_served(draft.funds());
            assert(draft.outputs =~= padding + draft.outputs.skip(pad));
        }
        loop
            invariant
                draft == old(self)@,
                draft.settled(),
                pad == draft.padding_outputs,
                padding == draft.outputs.take(pad),
                padding.len() == pad,
                whole == draft.funds() + value.0,
                available <= value.0,
                draft.reaches(whole - available, self.current_output as int),
                draft.demand_before(draft.current_output) <= draft.funds(),
                0 <= draft.current_output <= self.current_output,
                first ==> available == value.0 && self.current_output == draft.current_output,
                !first ==> whole - draft.demand_before(draft.current_output) <= u64::MAX
                    && whole - available == draft.demand_before(self.current_output as int),
                whole - available - draft.demand_before(self.current_output as int) <= u64::MAX,
                self@ == (crate::model::Draft {
                    outputs: padding + draft.shares(whole - available),
                    current_output: self.current_output as int,
                    ..draft
                }),
            decreases draft.recipient.len() - self.current_output,
        {
            let ghost c = self.current_output as int;
            let ghost so_far = whole - available;
            let at: usize = self.current_output + self.padding_outputs;
            let (recipient, existing) = self.outputs[at];
            proof {
                draft.lemma_same_request(self@, 0);
                assert(0 < draft.demand(c) <= u64::MAX);
                assert(draft.demand_before(c + 1) == draft.demand_before(c) + draft.demand(c));
                draft.lemma_demand_grows(draft.current_output, c);
                draft.lemma_shares_differ_at(so_far, so_far, c);
                assert(self@.outputs[at as int] == draft.shares(so_far)[c]);
            }
            let demand: u64 = self.demand(self.current_output).0;
            let sum: u64 = match available.checked_add(existing.0) {
                Some(sum) => sum,
                None => {
                    return false;
                },
            };
            if sum < demand || self.current_output == self.recipient.len() - 1 {
                self.outputs.set(at, (recipient, Amount(sum)));
                proof {
                    draft.lemma_shares_differ_at(so_far, whole, c);
                    draft.lemma_served_is(whole, c);
                    assert(self@.outputs =~= padding + draft.shares(whole));
                    assert(self@ =~= (crate::model::Draft {
                        outputs: padding + draft.shares(whole),
                        current_output: draft.served(whole),
                        ..draft
                    }));
                }
                return true;
            }
            self.outputs.set(at, (recipient, Amount(demand)));
            available = available - (demand - existing.0);
            self.current_output = self.current_output + 1;
            proof {
                first = false;
                draft.lemma_shares_differ_at(so_far, draft.demand_before(c + 1), c);
                assert(self@.outputs =~= padding + draft.shares(whole - available));
                assert(0 < draft.demand(c + 1) <= u64::MAX);
                assert(draft.demand_before(c + 2) == draft.demand_before(c + 1) + draft.demand(
                    c + 1,
                ));
            }
        }
    }

    /// Adds cardinal outputs as far as the recipients and the fee need them.
    pub fn add_value(self) -> (funded: Result<Self, Error>)
        requires
            self@.settled(),
        ensures
            match self@.funded() {
                Ok(draft) => funded matches Ok(builder) && builder@ == draft && draft.settled(),
                Err(error) => funded == Err::<Self, Error>(error),
            },
    {
        let ghost draft = self@;
        let mut builder = self;
        let estimated_fee: u64 = builder.estimate_fee().0;
        let mut min_value: u64 = 0;
        let mut i: usize = 0;
        while i < builder.recipient.len()
            invariant
                draft == self@,
                builder@ == draft,
                draft.settled(),
                i <= draft.recipient.len(),
                min_value == draft.demand_before(i as int),
            decreases draft.recipient.len() - i,
        {
            let demand: u64 = builder.demand(i).0;
            min_value = match min_value.checked_add(demand) {
                Some(sum) => sum,
                None => {
                    proof {
                        draft.lemma_demand_grows(i + 1, draft.paired());
                    }
                    return Err(Error::Broken(Invariant::Arithmetic));
                },
            };
            i += 1;
        }
        let needed: u64 = match min_value.checked_add(estimated_fee) {
            Some(sum) => sum,
            None => {
                return Err(Error::ValueOverflow);
            },
        };
        let have: u64 = match sum_of(&builder.outputs, builder.padding_outputs) {
            Some(have) => have,
            None => {
                return Err(Error::Broken(Invariant::Arithmetic));
            },
        };
        let mut deficit: u64 = if needed > have {
            needed - have
        } else {
            0
        };
        assert(draft.funded() == draft.funded_for(needed - have));
        assert(needed <= have ==> draft.funded_for(needed - have) == draft.funded_for(0));
        let additional_input = VBytes { quarters: crate::model::ADDITIONAL_INPUT_QUARTERS as u128 };
        while deficit > 0
            invariant
                draft == self@,
                builder@.settled(),
                additional_input.quarters == crate::model::ADDITIONAL_INPUT_QUARTERS,
                draft.funded() == builder@.funded_for(deficit as int),
            decreases builder@.utxos.len(),
        {
            let ghost before = builder@;
            let additional_fee: u64 = builder.fee_rate.fee(additional_input).0;
            let needed: u64 = match deficit.checked_add(additional_fee) {
                Some(sum) => sum,
                None => {
                    return Err(Error::ValueOverflow);
                },
            };
            proof {
                before.lemma_cardinal_is_unspent(needed as int, false);
            }
            // Outputs that fill the need are preferred.
            let (utxo, value) = match builder.select_cardinal_utxo(Amount(needed), false) {
                Ok(selected) => selected,
                Err(error) => {
                    return Err(error);
                },
            };
            if value.0 < additional_fee {
                return Err(Error::NotEnoughCardinalUtxos);
            }
            let benefit: u64 = value.0 - additional_fee;
            builder.inputs.push(utxo);
            let ghost spent = builder@;
            proof {
                before.lemma_take_utxo(utxo);
                before.lemma_same_request(spent, before.funds());
                assert(spent.well_formed());
            }
            if !builder.hand_out(value) {
                return Err(Error::Broken(Invariant::Arithmetic));
            }
            let ghost rest = deficit - benefit;
            proof {
                before.lemma_fund_with(utxo);
                before.lemma_same_request(spent, before.funds() + value.0);
                assert(builder@ =~= before.fund_with(utxo));
                assert(rest <= 0 ==> builder@.funded_for(rest) == builder@.funded_for(0));
            }
            deficit = if benefit > deficit {
                0
            } else {
                deficit - benefit
            };
        }
        Ok(builder)
    }

    /// Pays to a change output what the targets do not allow, if that is more
    /// than dust after the fee.
    pub fn strip_value(self) -> (stripped: Result<Self, Error>)
        requires
            self@.settled(),
        ensures
            match self@.stripped() {
                Ok(draft) => stripped matches Ok(builder) && builder@ == draft && draft.payable(),
                Err(error) => stripped == Err::<Self, Error>(error),
            },
    {
        let ghost draft = self@;
        let mut builder = self;
        let broken: Result<Self, Error> = Err(Error::Broken(Invariant::Arithmetic));
        let sat_offset: u64 = match builder.calculate_sat_offset() {
            Ok(sat_offset) => sat_offset,
            Err(error) => {
                return Err(error);
            },
        };
        assert(draft.outputs.skip(0) =~= draft.outputs);
        let total: u64 = match sum_of(&builder.outputs, 0) {
            Some(total) => total,
            None => {
                return broken;
            },
        };
        if total < sat_offset {
            return broken;
        }
        let value: u64 = total - sat_offset;
        let size = builder.estimate_vbytes();
        let fee: u64 = builder.fee_rate.fee(size).0;
        if value < fee {
            return Ok(builder);
        }
        let (max, target) = match builder.limits() {
            Some(limits) => limits,
            None => {
                return broken;
            },
        };
        if value - fee <= max.0 {
            return Ok(builder);
        }
        let dust: u64 = builder.unused_change_addresses[1].dust_value().0;
        let larger = size.plus(crate::model::ADDITIONAL_OUTPUT_QUARTERS);
        let keep: u64 = match dust.checked_add(builder.fee_rate.fee(larger).0) {
            Some(keep) => keep,
            None => {
                return broken;
            },
        };
        if value < target.0 {
            return broken;
        }
        let excess: u64 = value - target.0;
        if excess <= keep {
            return Ok(builder);
        }
        let last: usize = builder.outputs.len() - 1;
        let (address, amount) = builder.outputs[last];
        if amount.0 < excess {
            return broken;
        }
        builder.outputs.set(last, (address, Amount(amount.0 - excess)));
        builder.outputs.push((builder.unused_change_addresses[1], Amount(excess)));
        proof {
            assert(builder@.outputs =~= draft.strip(excess as int).outputs);
            assert(builder@ =~= draft.strip(excess as int));
            draft.lemma_same_request(builder@, 0);
        }
        Ok(builder)
    }

    /// The most that the targets allow together, and what they aim at, if
    /// amounts can hold them.
    fn limits(&self) -> (limits: Option<(Amount, Amount)>)
        ensures
            ({
                let allowed = self@.allowed(self@.target.len() as int);
                let aimed = self@.aimed(self@.target.len() as int);
                match limits {
                    Some((max, target)) => max.0 == allowed && target.0 == aimed,
                    None => allowed > u64::MAX || aimed > u64::MAX,
                }
            }),
    {
        let mut max: u64 = 0;
        let mut target: u64 = 0;
        let mut i: usize = 0;
        while i < self.target.len()
            invariant
                i <= self@.target.len(),
                max == self@.allowed(i as int),
                target == self@.aimed(i as int),
            decreases self@.target.len() - i,
        {
            let (allowed, aimed) = match self.target[i] {
                Target::Postage => (self.max_postage.0, self.target_postage.0),
                Target::Value(value) => (value.0, value.0),
            };
            proof {
                self@.lemma_limits_grow(i + 1, self@.target.len() as int);
            }
            max = match max.checked_add(allowed) {
                Some(max) => max,
                None => {
                    return None;
                },
            };
            target = match target.checked_add(aimed) {
                Some(target) => target,
                None => {
                    return None;
                },
            };
            i += 1;
        }
        Some((Amount(max), Amount(target)))
    }

    /// Takes the fee out of the last output.
    pub fn deduct_fee(self) -> (deducted: Result<Self, Error>)
        requires
            self@.payable(),
        ensures
            match self@.deducted() {
                Ok(draft) => deducted matches Ok(builder) && builder@ == draft && draft.payable(),
                Err(error) => deducted == Err::<Self, Error>(error),
            },
    {
        let ghost draft = self@;
        let mut builder = self;
        let sat_offset: u64 = match builder.calculate_sat_offset() {
            Ok(sat_offset) => sat_offset,
            Err(error) => {
                return Err(error);
            },
        };
        let fee: u64 = builder.estimate_fee().0;
        assert(draft.outputs.skip(0) =~= draft.outputs);
        let total: u64 = match sum_of(&builder.outputs, 0) {
            Some(total) => total,
            None => {
                return Err(Error::Broken(Invariant::Arithmetic));
            },
        };
        if total < fee {
            return Err(Error::Broken(Invariant::Arithmetic));
        }
        if total - fee <= sat_offset {
            return Err(Error::Broken(Invariant::FeeDoesNotConsumeSat));
        }
        let last: usize = builder.outputs.len() - 1;
        let (address, amount) = builder.outputs[last];
        if amount.0 < fee {
            return Err(Error::Broken(Invariant::LastOutputCanPayFee));
        }
        builder.outputs.set(last, (address, Amount(amount.0 - fee)));
        proof {
            let deducted = draft.deducted()->Ok_0;
            assert(builder@.outputs =~= deducted.outputs);
            assert(builder@ =~= deducted);
            draft.lemma_same_request(builder@, 0);
        }
        Ok(builder)
    }
}

/// What the outputs from a given one on hold together, if an amount can hold it.
fn sum_of(outputs: &Vec<(Address, Amount)>, from: usize) -> (sum: Option<u64>)
    requires
        from <= outputs@.len(),
    ensures
        match sum {
            Some(sum) => sum == crate::model::total(outputs@.skip(from as int)),
            None => crate::model::total(outputs@.skip(from as int)) > u64::MAX,
        },
{
    let ghost counted = outputs@.skip(from as int);
    let mut sum: u64 = 0;
    let mut i: usize = from;
    while i < outputs.len()
        invariant
            from <= i <= outputs@.len(),
            counted == outputs@.skip(from as int),
            sum == crate::model::total(counted.take(i - from)),
        decreases outputs@.len() - i,
    {
        let ghost next = counted.take(i - from + 1);
        proof {
            assert(next.drop_last() =~= counted.take(i - from));
            assert(next.last() == outputs@[i as int]);
        }
        sum = match sum.checked_add(outputs[i].1.0) {
            Some(sum) => sum,
            None => {
                proof {
                    crate::allotment::lemma_total_split(counted, i - from + 1);
                    crate::allotment::lemma_total_is_not_negative(counted.skip(i - from + 1));
                }
                return None;
            },
        };
        i += 1;
    }
    assert(counted.take(i - from) =~= counted);
    Some(sum)
}

} // verus!
