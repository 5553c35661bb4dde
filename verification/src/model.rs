//! The construction of a transaction as a mathematical function.
//!
//! A [`Draft`] is the state of a transaction under construction. Each step of
//! the construction maps a draft to the next one, or to the failure that ends
//! it.

use vstd::prelude::*;

use crate::address::Address;
use crate::amount::Amount;
use crate::error::Error;
use crate::error::Invariant;
use crate::fee_rate::FeeRate;
use crate::ordered::SortedMap;
use crate::outpoint::InscriptionId;
use crate::outpoint::OutPoint;
use crate::outpoint::SatPoint;
use crate::transaction::Transaction;
use crate::transaction::TxIn;
use crate::transaction::TxOut;

verus! {

/// What a recipient is to be sent.
#[derive(Clone, Copy, PartialEq, Eq, Debug, Structural)]
pub enum Target {
    Value(Amount),
    Postage,
}

/// A transaction under construction, and the wallet it is built from.
#[verifier::ext_equal]
pub struct Draft {
    /// What each output of the wallet holds.
    pub amounts: Map<OutPoint, Amount>,
    pub change_addresses: Seq<Address>,
    pub fee_rate: FeeRate,
    pub max_inputs: Option<usize>,
    pub inputs: Seq<OutPoint>,
    /// The inscribed sats of the wallet, in ascending order.
    pub inscriptions: Seq<(SatPoint, InscriptionId)>,
    /// The sat to send.
    pub outgoing: SatPoint,
    pub outputs: Seq<(Address, Amount)>,
    pub recipient: Seq<Address>,
    pub alignment: Option<Address>,
    pub unused_change_addresses: Seq<Address>,
    /// The outputs of the wallet that are not yet spent, in ascending order.
    pub utxos: Seq<OutPoint>,
    pub target: Seq<Target>,
    pub target_postage: Amount,
    pub max_postage: Amount,
    /// The number of recipients that have all that they are to be sent.
    pub current_output: int,
    /// The number of outputs before those of the recipients.
    pub padding_outputs: int,
}

/// The weight of one more input, in quarters of a virtual byte: 58 bytes.
pub const ADDITIONAL_INPUT_QUARTERS: u64 = 232;

/// The weight of one more output, in quarters of a virtual byte: 43 bytes.
pub const ADDITIONAL_OUTPUT_QUARTERS: u64 = 172;

/// What the outputs hold together.
pub open spec fn total(outputs: Seq<(Address, Amount)>) -> int
    decreases outputs.len(),
{
    if outputs.len() == 0 {
        0
    } else {
        total(outputs.drop_last()) + outputs.last().1.0
    }
}

/// What the inputs hold together.
pub open spec fn worth(amounts: Map<OutPoint, Amount>, inputs: Seq<OutPoint>) -> int
    decreases inputs.len(),
{
    if inputs.len() == 0 {
        0
    } else {
        worth(amounts, inputs.drop_last()) + amounts[inputs.last()].0
    }
}

/// More of the inputs hold no less.
pub proof fn lemma_worth_grows(amounts: Map<OutPoint, Amount>, inputs: Seq<OutPoint>, i: int)
    requires
        0 <= i <= inputs.len(),
    ensures
        0 <= worth(amounts, inputs.take(i)) <= worth(amounts, inputs),
    decreases inputs.len(),
{
    if i == inputs.len() {
        assert(inputs.take(i) =~= inputs);
        if inputs.len() > 0 {
            lemma_worth_grows(amounts, inputs.drop_last(), i - 1);
        }
    } else {
        lemma_worth_grows(amounts, inputs.drop_last(), i);
        assert(inputs.drop_last().take(i) =~= inputs.take(i));
    }
}

/// What the inputs before a given one hold together.
pub open spec fn worth_before(
    amounts: Map<OutPoint, Amount>,
    inputs: Seq<OutPoint>,
    outpoint: OutPoint,
) -> int
    decreases inputs.len(),
{
    if inputs.len() == 0 || inputs[0] == outpoint {
        0
    } else {
        amounts[inputs[0]].0 + worth_before(amounts, inputs.drop_first(), outpoint)
    }
}

pub proof fn lemma_worth_before_is_not_negative(
    amounts: Map<OutPoint, Amount>,
    inputs: Seq<OutPoint>,
    outpoint: OutPoint,
)
    ensures
        worth_before(amounts, inputs, outpoint) >= 0,
    decreases inputs.len(),
{
    if inputs.len() > 0 && inputs[0] != outpoint {
        lemma_worth_before_is_not_negative(amounts, inputs.drop_first(), outpoint);
    }
}

/// The addresses that the outputs pay.
pub open spec fn payees(outputs: Seq<(Address, Amount)>) -> Seq<Address> {
    Seq::new(outputs.len(), |i: int| outputs[i].0)
}

/// The size of outputs to the given addresses.
pub open spec fn payments_size(addresses: Seq<Address>) -> nat
    decreases addresses.len(),
{
    if addresses.len() == 0 {
        0
    } else {
        payments_size(addresses.drop_last()) + 8 + crate::transaction::prefixed_size(
            addresses.last().script().len(),
        )
    }
}

/// The weight of a transaction with so many inputs, each with a witness that is
/// one Schnorr signature, and with outputs to the given addresses.
pub open spec fn signed_weight(inputs: nat, addresses: Seq<Address>) -> nat {
    4 * (8 + crate::address::compact_size(inputs) + crate::address::compact_size(addresses.len())
        + 41 * inputs + payments_size(addresses)) + if inputs > 0 {
        2 + 66 * inputs
    } else {
        0
    }
}

/// The refusal of the first value that is dust for its recipient, counted from
/// `from`.
pub open spec fn first_dust(recipient: Seq<Address>, values: Seq<Amount>, from: int) -> Option<
    Error,
>
    decreases recipient.len() - from,
{
    if from < 0 || from >= recipient.len() || from >= values.len() {
        None
    } else if values[from].0 < recipient[from].dust() {
        Some(
            Error::Dust {
                output_value: values[from],
                dust_value: Amount(recipient[from].dust() as u64),
            },
        )
    } else {
        first_dust(recipient, values, from + 1)
    }
}

/// The targets that ask for the given values.
pub open spec fn value_targets(values: Seq<Amount>) -> Seq<Target> {
    Seq::new(values.len(), |i: int| Target::Value(values[i]))
}

/// The result is the transaction of the finished draft, or the error.
pub open spec fn answers(
    result: Result<Transaction, Error>,
    outcome: Result<Draft, Error>,
) -> bool {
    match outcome {
        Ok(draft) => result matches Ok(transaction) && transaction.carries_out(draft),
        Err(error) => result == Err::<Transaction, Error>(error),
    }
}

/// The input has no script, and a witness of one Schnorr signature.
pub open spec fn is_signed(input: TxIn) -> bool {
    &&& input.script_sig@.len() == 0
    &&& input.witness@.len() == 1
    &&& input.witness@[0]@.len() == 64
}

proof fn lemma_signed_inputs(inputs: Seq<TxIn>)
    requires
        forall|i: int| 0 <= i < inputs.len() ==> is_signed(#[trigger] inputs[i]),
    ensures
        crate::transaction::inputs_size(inputs) == 41 * inputs.len(),
        crate::transaction::witnesses_size(inputs) == 66 * inputs.len(),
    decreases inputs.len(),
{
    if inputs.len() > 0 {
        lemma_signed_inputs(inputs.drop_last());
        let last = inputs.last();
        assert(is_signed(inputs[inputs.len() - 1]));
        reveal_with_fuel(crate::transaction::items_size, 2);
        assert(last.witness@.last() == last.witness@[0]);
    }
}

proof fn lemma_payments_size(outputs: Seq<TxOut>, addresses: Seq<Address>)
    requires
        outputs.len() == addresses.len(),
        forall|i: int|
            0 <= i < outputs.len() ==> (#[trigger] outputs[i]).script_pubkey@
                == addresses[i].script() && addresses[i].well_formed(),
    ensures
        crate::transaction::outputs_size(outputs) == payments_size(addresses),
        payments_size(addresses) <= 51 * addresses.len(),
    decreases outputs.len(),
{
    if outputs.len() > 0 {
        lemma_payments_size(outputs.drop_last(), addresses.drop_last());
        let last = outputs.len() - 1;
        assert(outputs[last].script_pubkey@ == addresses[last].script());
        crate::address::lemma_script_length(addresses[last]);
    }
}

/// The weight of a transaction whose inputs are signed.
pub proof fn lemma_signed_weight(transaction: Transaction, addresses: Seq<Address>)
    requires
        forall|i: int|
            0 <= i < transaction.input@.len() ==> is_signed(#[trigger] transaction.input@[i]),
        transaction.output@.len() == addresses.len(),
        forall|i: int|
            0 <= i < addresses.len() ==> (#[trigger] transaction.output@[i]).script_pubkey@
                == addresses[i].script() && addresses[i].well_formed(),
    ensures
        transaction.weight_units() == signed_weight(transaction.input@.len(), addresses),
        transaction.weight_units() + transaction.input@.len() <= 512 * (transaction.input@.len()
            + addresses.len() + 2),
{
    lemma_signed_inputs(transaction.input@);
    lemma_payments_size(transaction.output@, addresses);
    if transaction.input@.len() > 0 {
        assert(is_signed(transaction.input@[0]));
        assert(transaction.has_witness());
    }
}

/// Whether an output that holds `value` is to be preferred to the `best` so
/// far, where about `target` is wanted. No output so far counts as zero.
pub open spec fn better(value: int, best: int, target: int, prefer_under: bool) -> bool {
    if prefer_under {
        ||| best == 0
        ||| best <= target && best < value <= target
        ||| best > target && (value <= target || value < best)
    } else {
        ||| best >= target && target <= value < best
        ||| best < target && (value >= target || value > best)
    }
}

/// The number of the outputs that pays the sat with the given number of sats
/// before it, counted from `from`.
pub open spec fn output_at(outputs: Seq<(Address, Amount)>, sat: int, from: int) -> Option<int>
    decreases outputs.len() - from,
{
    if from < 0 || from >= outputs.len() {
        None
    } else if total(outputs.take(from + 1)) > sat {
        Some(from)
    } else {
        output_at(outputs, sat, from + 1)
    }
}

/// The number of the first output with the given script, counted from `from`;
/// where there is none, the number of outputs.
pub open spec fn first_payment(
    outputs: Seq<(Address, Amount)>,
    script: Seq<u8>,
    from: int,
) -> int
    decreases outputs.len() - from,
{
    if from < 0 || from >= outputs.len() {
        outputs.len() as int
    } else if outputs[from].0.script() == script {
        from
    } else {
        first_payment(outputs, script, from + 1)
    }
}

pub proof fn lemma_first_payment(outputs: Seq<(Address, Amount)>, script: Seq<u8>, from: int)
    requires
        0 <= from <= outputs.len(),
    ensures
        from <= first_payment(outputs, script, from) <= outputs.len(),
    decreases outputs.len() - from,
{
    if from < outputs.len() && outputs[from].0.script() != script {
        lemma_first_payment(outputs, script, from + 1);
    }
}

/// No two outputs have the given script.
pub open spec fn paid_at_most_once(outputs: Seq<(Address, Amount)>, script: Seq<u8>) -> bool {
    forall|i: int, j: int|
        0 <= i < j < outputs.len() && #[trigger] outputs[i].0.script() == script
            ==> #[trigger] outputs[j].0.script() != script
}

/// Some output has the given script.
pub open spec fn paid(outputs: Seq<(Address, Amount)>, script: Seq<u8>) -> bool {
    exists|i: int| 0 <= i < outputs.len() && #[trigger] outputs[i].0.script() == script
}

/// The largest dust value of the given addresses, in sats.
pub open spec fn largest_dust(addresses: Seq<Address>) -> int
    decreases addresses.len(),
{
    if addresses.len() == 0 {
        0
    } else {
        let rest = largest_dust(addresses.drop_last());
        if addresses.last().dust() > rest {
            addresses.last().dust() as int
        } else {
            rest
        }
    }
}

/// The draft that a request begins with: nothing is spent or paid.
pub open spec fn begun(
    outgoing: SatPoint,
    inscriptions: SortedMap<SatPoint, InscriptionId>,
    amounts: SortedMap<OutPoint, Amount>,
    recipient: Seq<Address>,
    alignment: Option<Address>,
    change: Seq<Address>,
    fee_rate: FeeRate,
    max_inputs: Option<usize>,
    target: Seq<Target>,
    target_postage: Amount,
    max_postage: Amount,
) -> Draft {
    Draft {
        amounts: amounts@,
        change_addresses: change,
        fee_rate,
        max_inputs,
        inputs: Seq::empty(),
        inscriptions: inscriptions.entries(),
        outgoing,
        outputs: Seq::empty(),
        recipient,
        alignment,
        unused_change_addresses: change,
        utxos: amounts.keys(),
        target,
        target_postage,
        max_postage,
        current_output: 0,
        padding_outputs: 0,
    }
}

/// What becomes of a request to send the outgoing sat with postage.
pub open spec fn outcome_with_postage(
    outgoing: SatPoint,
    inscriptions: SortedMap<SatPoint, InscriptionId>,
    amounts: SortedMap<OutPoint, Amount>,
    recipient: Address,
    alignment: Option<Address>,
    change: Seq<Address>,
    fee_rate: FeeRate,
    max_inputs: Option<usize>,
    target_postage: Amount,
    max_postage: Amount,
) -> Result<Draft, Error> {
    if max_postage.0 < target_postage.0 {
        Err(Error::MaxPostageLessThanTarget { max_postage, target_postage })
    } else {
        begun(
            outgoing,
            inscriptions,
            amounts,
            seq![recipient],
            alignment,
            change,
            fee_rate,
            max_inputs,
            seq![Target::Postage],
            target_postage,
            max_postage,
        ).outcome()
    }
}

/// What becomes of a request to send the outgoing sat in an output with a given
/// value.
pub open spec fn outcome_with_value(
    outgoing: SatPoint,
    inscriptions: SortedMap<SatPoint, InscriptionId>,
    amounts: SortedMap<OutPoint, Amount>,
    recipient: Address,
    alignment: Option<Address>,
    change: Seq<Address>,
    fee_rate: FeeRate,
    max_inputs: Option<usize>,
    output_value: Amount,
) -> Result<Draft, Error> {
    if output_value.0 < recipient.dust() {
        Err(Error::Dust { output_value, dust_value: Amount(recipient.dust() as u64) })
    } else {
        begun(
            outgoing,
            inscriptions,
            amounts,
            seq![recipient],
            alignment,
            change,
            fee_rate,
            max_inputs,
            seq![Target::Value(output_value)],
            Amount(0),
            Amount(0),
        ).outcome()
    }
}

/// What becomes of a request to send the outgoing sat to the first of several
/// recipients, in outputs with given values.
pub open spec fn outcome_with_values(
    outgoing: SatPoint,
    inscriptions: SortedMap<SatPoint, InscriptionId>,
    amounts: SortedMap<OutPoint, Amount>,
    recipient: Seq<Address>,
    alignment: Option<Address>,
    change: Seq<Address>,
    fee_rate: FeeRate,
    output_value: Seq<Amount>,
    max_inputs: Option<usize>,
) -> Result<Draft, Error> {
    match first_dust(recipient, output_value, 0) {
        Some(error) => Err(error),
        None => begun(
            outgoing,
            inscriptions,
            amounts,
            recipient,
            alignment,
            change,
            fee_rate,
            max_inputs,
            value_targets(output_value),
            Amount(0),
            Amount(0),
        ).outcome(),
    }
}

/// A request begins with a fresh draft, if no recipient is to be sent nothing and
/// the wallet is not too large for the weight of a transaction to be computed.
pub proof fn lemma_begun_is_fresh(
    outgoing: SatPoint,
    inscriptions: SortedMap<SatPoint, InscriptionId>,
    amounts: SortedMap<OutPoint, Amount>,
    recipient: Seq<Address>,
    alignment: Option<Address>,
    change: Seq<Address>,
    fee_rate: FeeRate,
    max_inputs: Option<usize>,
    target: Seq<Target>,
    target_postage: Amount,
    max_postage: Amount,
)
    requires
        amounts.well_formed(),
        forall|i: int| 0 <= i < recipient.len() ==> (#[trigger] recipient[i]).well_formed(),
        change.len() == 2,
        512 * (amounts.entries().len() + recipient.len() + 4) <= usize::MAX,
        forall|i: int|
            0 <= i < recipient.len() && i < target.len() ==> #[trigger] target[i] != Target::Value(
                Amount(0),
            ),
    ensures
        begun(
            outgoing,
            inscriptions,
            amounts,
            recipient,
            alignment,
            change,
            fee_rate,
            max_inputs,
            target,
            target_postage,
            max_postage,
        ).fresh(),
{
    let draft = begun(
        outgoing,
        inscriptions,
        amounts,
        recipient,
        alignment,
        change,
        fee_rate,
        max_inputs,
        target,
        target_postage,
        max_postage,
    );
    crate::ordered::lemma_ascending_keys_are_distinct(amounts.keys());
    assert forall|i: int| 0 <= i < draft.utxos.len() implies draft.amounts.contains_key(
        #[trigger] draft.utxos[i],
    ) by {
        crate::ordered::lemma_map_holds_only_entries(amounts.entries(), draft.utxos[i]);
    }
    assert forall|outpoint: OutPoint| #[trigger]
        draft.amounts.contains_key(outpoint) implies draft.utxos.contains(outpoint) by {
        crate::ordered::lemma_map_holds_only_entries(amounts.entries(), outpoint);
    }
    assert forall|i: int| 0 <= i < draft.paired() implies 0 < #[trigger] draft.demand(i)
        <= u64::MAX by {
        crate::address::lemma_script_length(recipient[i]);
        assert(target[i] != Target::Value(Amount(0)));
    }
}

impl Draft {
    /// What the recipient is to be sent at least, in sats.
    pub open spec fn demand(self, i: int) -> int {
        match self.target[i] {
            Target::Postage => self.recipient[i].dust() as int,
            Target::Value(value) => value.0 as int,
        }
    }

    /// What the recipients before the given one are to be sent at least.
    pub open spec fn demand_before(self, i: int) -> int
        decreases i,
    {
        if i <= 0 {
            0
        } else {
            self.demand_before(i - 1) + self.demand(i - 1)
        }
    }

    /// The number of recipients that have a target.
    pub open spec fn paired(self) -> int {
        if self.recipient.len() <= self.target.len() {
            self.recipient.len() as int
        } else {
            self.target.len() as int
        }
    }

    /// There is a recipient, and each has a target.
    pub open spec fn matched(self) -> bool {
        0 < self.recipient.len() <= self.target.len()
    }

    /// What the given recipient gets when the funds are handed out in order:
    /// each recipient gets what it is to be sent, as long as the funds last, and
    /// the last one gets all that is left.
    pub open spec fn share(self, funds: int, i: int) -> int {
        let left = if funds > self.demand_before(i) {
            funds - self.demand_before(i)
        } else {
            0
        };
        if i == self.recipient.len() - 1 || left < self.demand(i) {
            left
        } else {
            self.demand(i)
        }
    }

    /// The outputs of the recipients when the funds are handed out in order.
    pub open spec fn shares(self, funds: int) -> Seq<(Address, Amount)> {
        Seq::new(
            self.paired() as nat,
            |i: int| (self.recipient[i], Amount(self.share(funds, i) as u64)),
        )
    }

    /// The number of recipients, counted from `from` and without the last, that
    /// get all that they are to be sent.
    pub open spec fn served_from(self, funds: int, from: int) -> int
        decreases self.paired() - from,
    {
        if from >= self.paired() || from >= self.recipient.len() - 1 || funds < self.demand_before(
            from + 1,
        ) {
            from
        } else {
            self.served_from(funds, from + 1)
        }
    }

    pub open spec fn served(self, funds: int) -> int {
        self.served_from(funds, 0)
    }

    /// What the outputs from the first recipient on hold together.
    pub open spec fn funds(self) -> int {
        total(self.outputs.skip(self.padding_outputs))
    }

    /// The number of sats before the outgoing sat in the inputs.
    pub open spec fn sat_offset(self) -> Result<int, Error> {
        let before = worth_before(self.amounts, self.inputs, self.outgoing.outpoint);
        if before > u64::MAX {
            Err(Error::Broken(Invariant::Arithmetic))
        } else if !self.inputs.contains(self.outgoing.outpoint) {
            Err(Error::Broken(Invariant::SatIsInInputs))
        } else if before + self.outgoing.offset > u64::MAX {
            Err(Error::Broken(Invariant::Arithmetic))
        } else {
            Ok(before + self.outgoing.offset)
        }
    }

    /// The virtual size of the signed transaction, in quarters of a byte.
    pub open spec fn vbytes(self) -> nat {
        crate::fee_rate::round_to_double(signed_weight(self.inputs.len(), payees(self.outputs)))
    }

    /// The virtual size with one more output, in quarters of a byte.
    pub open spec fn vbytes_with_output(self) -> nat {
        crate::fee_rate::round_to_double(self.vbytes() + ADDITIONAL_OUTPUT_QUARTERS as nat)
    }

    /// The fee of the signed transaction, in sats.
    pub open spec fn fee(self) -> int {
        self.fee_rate.fee_at(self.vbytes()) as int
    }

    pub open spec fn input_fee(self) -> int {
        self.fee_rate.fee_at(ADDITIONAL_INPUT_QUARTERS as nat) as int
    }

    pub open spec fn output_fee(self) -> int {
        self.fee_rate.fee_at(ADDITIONAL_OUTPUT_QUARTERS as nat) as int
    }

    /// Whether an output of the wallet holds an inscription.
    pub open spec fn inscribed(self, outpoint: OutPoint) -> bool {
        exists|i: int|
            0 <= i < self.inscriptions.len() && (#[trigger] self.inscriptions[i]).0.outpoint
                == outpoint
    }

    /// What an output holds, in sats; zero where there is none.
    pub open spec fn value_of(self, outpoint: Option<OutPoint>) -> int {
        match outpoint {
            Some(outpoint) => self.amounts[outpoint].0 as int,
            None => 0,
        }
    }

    /// The preferred one of the first `count` unspent outputs without an
    /// inscription.
    pub open spec fn choice(self, count: int, target: int, prefer_under: bool) -> Option<OutPoint>
        decreases count,
    {
        if count <= 0 {
            None
        } else {
            let best = self.choice(count - 1, target, prefer_under);
            let utxo = self.utxos[count - 1];
            if !self.inscribed(utxo) && better(
                self.amounts[utxo].0 as int,
                self.value_of(best),
                target,
                prefer_under,
            ) {
                Some(utxo)
            } else {
                best
            }
        }
    }

    /// The unspent output without an inscription that is preferred where about
    /// `target` sats are wanted.
    pub open spec fn cardinal(self, target: int, prefer_under: bool) -> Result<OutPoint, Error> {
        if self.max_inputs == Some(self.inputs.len() as usize) {
            Err(Error::TooManyInputs(self.inputs.len() as usize))
        } else {
            match self.choice(self.utxos.len() as int, target, prefer_under) {
                Some(utxo) => Ok(utxo),
                None => Err(Error::NotEnoughCardinalUtxos),
            }
        }
    }

    /// The draft with an output of the wallet taken out of the unspent ones.
    pub open spec fn take_utxo(self, utxo: OutPoint) -> Draft {
        Draft { utxos: crate::ordered::without(self.utxos, utxo), ..self }
    }

    /// The state of a draft: each unspent output and each input is in the
    /// wallet, there are two change addresses, each recipient is to be sent
    /// something, and what can still be added keeps the transaction's weight in
    /// range.
    pub open spec fn well_formed(self) -> bool {
        &&& self.unused_change_addresses.len() == 2
        &&& self.utxos.no_duplicates()
        &&& forall|i: int|
            0 <= i < self.utxos.len() ==> self.amounts.contains_key(#[trigger] self.utxos[i])
        &&& forall|i: int|
            0 <= i < self.inputs.len() ==> self.amounts.contains_key(#[trigger] self.inputs[i])
        &&& forall|i: int|
            0 <= i < self.paired() ==> 0 < #[trigger] self.demand(i) <= u64::MAX
        &&& 0 <= self.current_output
        &&& 0 <= self.padding_outputs <= 1
        &&& self.outputs.len() <= self.recipient.len() + 2
        &&& self.has_room()
    }

    /// A transaction with all that can still be added has a weight in range.
    pub open spec fn has_room(self) -> bool {
        512 * (self.inputs.len() + self.utxos.len() + self.recipient.len() + 4) <= usize::MAX
    }

    /// Nothing is spent or paid yet.
    pub open spec fn fresh(self) -> bool {
        &&& self.well_formed()
        &&& forall|outpoint: OutPoint| #[trigger]
            self.amounts.contains_key(outpoint) ==> self.utxos.contains(outpoint)
        &&& self.inputs.len() == 0
        &&& self.outputs.len() == 0
        &&& self.current_output == 0
        &&& self.padding_outputs == 0
    }

    /// The outgoing sat is spent, and what its output holds is handed out.
    pub open spec fn ready_to_align(self) -> bool {
        &&& self.well_formed()
        &&& self.padding_outputs == 0
        &&& self.outputs.len() == self.paired()
        &&& self.matched() ==> self.handed_out()
    }

    /// The outputs after the padding are those of the recipients, with the
    /// funds handed out in order.
    pub open spec fn handed_out(self) -> bool {
        &&& self.well_formed()
        &&& self.padding_outputs <= self.outputs.len()
        &&& self.outputs.skip(self.padding_outputs) == self.shares(self.funds())
        &&& self.current_output == self.served(self.funds())
    }

    /// Moreover there is a recipient, and each has an output.
    pub open spec fn settled(self) -> bool {
        &&& self.matched()
        &&& self.handed_out()
    }

    /// There is a recipient, and an output to take the fee out of.
    pub open spec fn payable(self) -> bool {
        &&& self.well_formed()
        &&& self.recipient.len() > 0
        &&& self.outputs.len() > 0
    }

    /// The first recipient that is a change address as well, counted from
    /// `from`.
    pub open spec fn recipient_in_change(self, from: int) -> Option<Address>
        decreases self.recipient.len() - from,
    {
        if from < 0 || from >= self.recipient.len() {
            None
        } else if self.unused_change_addresses.contains(self.recipient[from]) {
            Some(self.recipient[from])
        } else {
            self.recipient_in_change(from + 1)
        }
    }

    /// Why the construction cannot begin.
    pub open spec fn refusal(self) -> Option<Error> {
        match self.recipient_in_change(0) {
            Some(address) => Some(Error::DuplicateAddress(address)),
            None => if self.unused_change_addresses[0] == self.unused_change_addresses[1] {
                Some(Error::DuplicateAddress(self.unused_change_addresses[0]))
            } else if self.max_inputs == Some(0usize) {
                Some(Error::TooManyInputs(0))
            } else {
                None
            },
        }
    }

    /// Whether an inscription would be sent along with the outgoing sat: it is
    /// in the same output, and comes after that sat, or would be in an alignment
    /// output that is too small without padding.
    pub open spec fn conflicts(self, inscribed: SatPoint) -> bool {
        let dust_limit = self.unused_change_addresses.last().dust();
        &&& self.outgoing.outpoint == inscribed.outpoint
        &&& self.outgoing.offset != inscribed.offset
        &&& self.outgoing.offset < inscribed.offset || 0 < self.outgoing.offset < dust_limit
    }

    /// The last of the first `count` inscriptions that conflicts with the
    /// outgoing sat.
    pub open spec fn last_conflict(self, count: int) -> Option<(SatPoint, InscriptionId)>
        decreases count,
    {
        if count <= 0 {
            None
        } else if self.conflicts(self.inscriptions[count - 1].0) {
            Some(self.inscriptions[count - 1])
        } else {
            self.last_conflict(count - 1)
        }
    }

    /// Spends the output with the outgoing sat, and hands out what it holds to
    /// the recipients.
    pub open spec fn selected(self) -> Result<Draft, Error> {
        let outpoint = self.outgoing.outpoint;
        let amount = self.amounts[outpoint].0;
        match self.last_conflict(self.inscriptions.len() as int) {
            Some((inscribed_satpoint, inscription_id)) => Err(
                Error::UtxoContainsAdditionalInscription {
                    outgoing_satpoint: self.outgoing,
                    inscribed_satpoint,
                    inscription_id,
                },
            ),
            None => if !self.amounts.contains_key(outpoint) {
                Err(Error::NotInWallet(self.outgoing))
            } else if amount == 0 {
                Err(Error::Broken(Invariant::Arithmetic))
            } else if self.outgoing.offset >= amount {
                Err(Error::OutOfRange(self.outgoing, (amount - 1) as u64))
            } else {
                Ok(
                    Draft {
                        inputs: self.inputs.push(outpoint),
                        outputs: self.outputs + self.shares(amount as int),
                        current_output: self.served(amount as int),
                        ..self.take_utxo(outpoint)
                    },
                )
            },
        }
    }

    /// The address of an output for the sats before the outgoing one.
    pub open spec fn alignment_address(self) -> Address {
        match self.alignment {
            Some(address) => address,
            None => self.unused_change_addresses[0],
        }
    }

    /// Pays the sats before the outgoing one to an output of their own, before
    /// those of the recipients.
    pub open spec fn aligned(self) -> Result<Draft, Error> {
        if self.outputs.len() != self.recipient.len() {
            Err(Error::Broken(Invariant::SameNumberOfOutputsAsRecipients))
        } else if self.outputs.len() == 0 || self.outputs[0].0 != self.recipient[0] {
            Err(Error::Broken(Invariant::FirstOutputIsRecipient))
        } else {
            match self.sat_offset() {
                Err(error) => Err(error),
                Ok(offset) => if offset == 0 {
                    Ok(self)
                } else if offset > self.funds() {
                    Err(Error::Broken(Invariant::Arithmetic))
                } else {
                    let rest = self.funds() - offset;
                    Ok(
                        Draft {
                            outputs: seq![(self.alignment_address(), Amount(offset as u64))]
                                + self.shares(rest),
                            current_output: self.served(rest),
                            padding_outputs: 1,
                            ..self
                        },
                    )
                },
            }
        }
    }

    /// Spends a cardinal output before the other inputs, and pays what it holds
    /// to the first output.
    pub open spec fn pad_with(self, utxo: OutPoint) -> Draft {
        Draft {
            inputs: seq![utxo] + self.inputs,
            outputs: self.outputs.update(
                0,
                (
                    self.outputs[0].0,
                    Amount((self.outputs[0].1.0 + self.amounts[utxo].0) as u64),
                ),
            ),
            ..self.take_utxo(utxo)
        }
    }

    /// Pads the first output with cardinal outputs until it is not dust.
    pub open spec fn padded_to_dust_limit(self) -> Result<Draft, Error>
        decreases self.utxos.len(),
    {
        let dust_limit = self.unused_change_addresses.last().dust();
        let first = self.outputs[0].1.0;
        if first >= dust_limit {
            Ok(self)
        } else {
            match self.cardinal(dust_limit - first, true) {
                Err(error) => Err(error),
                Ok(utxo) => if first + self.amounts[utxo].0 > u64::MAX {
                    Err(Error::Broken(Invariant::Arithmetic))
                } else {
                    proof {
                        self.lemma_cardinal_is_unspent(dust_limit - first, true);
                    }
                    self.pad_with(utxo).padded_to_dust_limit()
                },
            }
        }
    }

    /// Pads the output for the sats before the outgoing one, where there is
    /// one.
    pub open spec fn padded(self) -> Result<Draft, Error> {
        if self.outputs[0].0 == self.recipient[0] {
            Ok(self)
        } else {
            self.padded_to_dust_limit()
        }
    }

    /// Spends a cardinal output after the other inputs, and hands out what it
    /// holds to the recipients.
    pub open spec fn fund_with(self, utxo: OutPoint) -> Draft {
        let funds = self.funds() + self.amounts[utxo].0;
        Draft {
            inputs: self.inputs.push(utxo),
            outputs: self.outputs.take(self.padding_outputs) + self.shares(funds),
            current_output: self.served(funds),
            ..self.take_utxo(utxo)
        }
    }

    /// Spends cardinal outputs until they cover the deficit and their own fees.
    pub open spec fn funded_for(self, deficit: int) -> Result<Draft, Error>
        decreases self.utxos.len(),
    {
        let needed = deficit + self.input_fee();
        if deficit <= 0 {
            Ok(self)
        } else if needed > u64::MAX {
            Err(Error::ValueOverflow)
        } else {
            match self.cardinal(needed, false) {
                Err(error) => Err(error),
                Ok(utxo) => {
                    let value = self.amounts[utxo].0;
                    let existing = self.funds() - self.demand_before(self.current_output);
                    if value < self.input_fee() {
                        Err(Error::NotEnoughCardinalUtxos)
                    } else if existing + value > u64::MAX {
                        Err(Error::Broken(Invariant::Arithmetic))
                    } else {
                        proof {
                            self.lemma_cardinal_is_unspent(needed, false);
                        }
                        self.fund_with(utxo).funded_for(deficit - (value - self.input_fee()))
                    }
                },
            }
        }
    }

    /// Adds cardinal outputs as far as the recipients and the fee need them.
    pub open spec fn funded(self) -> Result<Draft, Error> {
        let demand = self.demand_before(self.paired());
        if demand > u64::MAX {
            Err(Error::Broken(Invariant::Arithmetic))
        } else if demand + self.fee() > u64::MAX {
            Err(Error::ValueOverflow)
        } else if self.funds() > u64::MAX {
            Err(Error::Broken(Invariant::Arithmetic))
        } else {
            self.funded_for(demand + self.fee() - self.funds())
        }
    }

    /// The most that the first `count` targets allow, in sats.
    pub open spec fn allowed(self, count: int) -> int
        decreases count,
    {
        if count <= 0 {
            0
        } else {
            self.allowed(count - 1) + match self.target[count - 1] {
                Target::Postage => self.max_postage.0,
                Target::Value(value) => value.0,
            }
        }
    }

    /// What the first `count` targets aim at, in sats.
    pub open spec fn aimed(self, count: int) -> int
        decreases count,
    {
        if count <= 0 {
            0
        } else {
            self.aimed(count - 1) + match self.target[count - 1] {
                Target::Postage => self.target_postage.0,
                Target::Value(value) => value.0,
            }
        }
    }

    /// Moves so many sats from the last output to a change output.
    pub open spec fn strip(self, excess: int) -> Draft {
        let last = self.outputs.last();
        Draft {
            outputs: self.outputs.drop_last().push((last.0, Amount((last.1.0 - excess) as u64))).push(
                (self.unused_change_addresses[1], Amount(excess as u64)),
            ),
            ..self
        }
    }

    /// Pays to a change output what the targets do not allow, if that is more
    /// than dust after the fee.
    pub open spec fn stripped(self) -> Result<Draft, Error> {
        let broken = Err(Error::Broken(Invariant::Arithmetic));
        let allowed = self.allowed(self.target.len() as int);
        let aimed = self.aimed(self.target.len() as int);
        let keep = self.unused_change_addresses.last().dust() + self.fee_rate.fee_at(
            self.vbytes_with_output(),
        );
        match self.sat_offset() {
            Err(error) => Err(error),
            Ok(offset) => {
                let value = total(self.outputs) - offset;
                if total(self.outputs) > u64::MAX || value < 0 {
                    broken
                } else if value < self.fee() {
                    Ok(self)
                } else if allowed > u64::MAX || aimed > u64::MAX {
                    broken
                } else if value - self.fee() <= allowed {
                    Ok(self)
                } else if value < aimed || keep > u64::MAX {
                    broken
                } else if value - aimed <= keep {
                    Ok(self)
                } else if self.outputs.last().1.0 < value - aimed {
                    broken
                } else {
                    Ok(self.strip(value - aimed))
                }
            },
        }
    }

    /// Takes the fee out of the last output.
    pub open spec fn deducted(self) -> Result<Draft, Error> {
        let last = self.outputs.last();
        match self.sat_offset() {
            Err(error) => Err(error),
            Ok(offset) => if total(self.outputs) > u64::MAX || total(self.outputs) < self.fee() {
                Err(Error::Broken(Invariant::Arithmetic))
            } else if total(self.outputs) - self.fee() <= offset {
                Err(Error::Broken(Invariant::FeeDoesNotConsumeSat))
            } else if last.1.0 < self.fee() {
                Err(Error::Broken(Invariant::LastOutputCanPayFee))
            } else {
                Ok(
                    Draft {
                        outputs: self.outputs.drop_last().push(
                            (last.0, Amount((last.1.0 - self.fee()) as u64)),
                        ),
                        ..self
                    },
                )
            },
        }
    }

    /// The outgoing sat is in an output of the wallet.
    pub open spec fn sat_in_wallet(self) -> bool {
        &&& self.amounts.contains_key(self.outgoing.outpoint)
        &&& self.outgoing.offset < self.amounts[self.outgoing.outpoint].0
    }

    /// One input, and no other, spends the output with the outgoing sat.
    pub open spec fn sat_spent_once(self) -> bool {
        exists|i: int| #[trigger]
            self.spends_sat(i) && forall|j: int| j != i ==> !self.spends_sat(j)
    }

    pub open spec fn spends_sat(self, i: int) -> bool {
        0 <= i < self.inputs.len() && self.inputs[i] == self.outgoing.outpoint
    }

    /// The first property that the output of a recipient lacks, for the
    /// recipients from `from` on: it pays the recipient, and as much as the
    /// target allows, with some slack for change that is not worth its fee.
    pub open spec fn broken_target(self, from: int) -> Option<Invariant>
        decreases self.paired() - from,
    {
        let at = self.padding_outputs + from;
        let output = self.outputs[at];
        let slack = largest_dust(self.change_addresses) + self.output_fee();
        if from < 0 || from >= self.paired() {
            None
        } else if at >= self.outputs.len() {
            Some(Invariant::Arithmetic)
        } else if output.0.script() != self.recipient[from].script() {
            Some(Invariant::OutputPaysRecipient)
        } else {
            match self.target[from] {
                Target::Postage => if self.max_postage.0 + self.output_fee() > u64::MAX {
                    Some(Invariant::Arithmetic)
                } else if output.1.0 > self.max_postage.0 + self.output_fee() {
                    Some(Invariant::ExcessPostageIsStripped)
                } else {
                    self.broken_target(from + 1)
                },
                Target::Value(value) => if output.1.0 < value.0 || slack > u64::MAX {
                    Some(Invariant::Arithmetic)
                } else if output.1.0 - value.0 > slack {
                    Some(Invariant::OutputEqualsTargetValue)
                } else {
                    self.broken_target(from + 1)
                },
            }
        }
    }

    /// An output is that of a recipient, or pays to the address for alignment or
    /// to a change address.
    pub open spec fn recognized(self, i: int) -> bool {
        let script = self.outputs[i].0.script();
        ||| self.padding_outputs <= i < self.padding_outputs + self.recipient.len()
        ||| self.alignment matches Some(address) && address.script() == script
        ||| exists|j: int|
            0 <= j < self.change_addresses.len() && (#[trigger] self.change_addresses[j]).script()
                == script
    }

    /// The first property that the finished draft should have, and lacks.
    pub open spec fn broken(self) -> Option<Invariant> {
        let first_script = self.recipient[0].script();
        if !self.sat_in_wallet() {
            Some(Invariant::SatIsContainedInUtxos)
        } else if !self.sat_spent_once() {
            Some(Invariant::InputsSpendSat)
        } else {
            match self.sat_offset() {
                Err(_) => Some(Invariant::Arithmetic),
                Ok(offset) => match output_at(self.outputs, offset, 0) {
                    None => Some(Invariant::SatIsFoundInOutputs),
                    Some(i) => if total(self.outputs.take(i + 1)) > u64::MAX {
                        Some(Invariant::Arithmetic)
                    } else if self.outputs[i].0.script() != first_script {
                        Some(Invariant::SatIsSentToFirstRecipient)
                    } else if !self.recipients_paid_once() {
                        Some(Invariant::RecipientAppearsExactlyOnce)
                    } else if !self.change_paid_at_most_once() {
                        Some(Invariant::ChangeAppearsAtMostOnce)
                    } else {
                        let before = total(
                            self.outputs.take(first_payment(self.outputs, first_script, 0)),
                        );
                        if before > u64::MAX {
                            Some(Invariant::Arithmetic)
                        } else if before != offset {
                            Some(Invariant::SatIsAtFirstPosition)
                        } else {
                            self.broken_payment()
                        }
                    },
                },
            }
        }
    }

    /// The script of each recipient is that of one output, and of no other.
    pub open spec fn recipients_paid_once(self) -> bool {
        forall|i: int|
            0 <= i < self.recipient.len() ==> paid(
                self.outputs,
                (#[trigger] self.recipient[i]).script(),
            ) && paid_at_most_once(self.outputs, self.recipient[i].script())
    }

    /// The script of each change address is that of one output at most.
    pub open spec fn change_paid_at_most_once(self) -> bool {
        forall|i: int|
            0 <= i < self.change_addresses.len() ==> paid_at_most_once(
                self.outputs,
                (#[trigger] self.change_addresses[i]).script(),
            )
    }

    /// No output is dust.
    pub open spec fn above_dust_limit(self) -> bool {
        forall|i: int|
            0 <= i < self.outputs.len() ==> (#[trigger] self.outputs[i]).1.0
                >= self.outputs[i].0.dust()
    }

    /// The first property that the finished draft should have of what it pays,
    /// and lacks.
    pub open spec fn broken_payment(self) -> Option<Invariant> {
        let spent = worth(self.amounts, self.inputs);
        match self.broken_target(0) {
            Some(lacking) => Some(lacking),
            None => if !(forall|i: int| 0 <= i < self.outputs.len() ==> #[trigger] self.recognized(i)) {
                Some(Invariant::OutputsAreChangeOrRecipient)
            } else if spent > u64::MAX || spent < total(self.outputs) {
                Some(Invariant::Arithmetic)
            } else if spent - total(self.outputs) != self.fee() {
                Some(Invariant::FeeEstimationIsCorrect)
            } else if !self.above_dust_limit() {
                Some(Invariant::OutputsAreAboveDustLimit)
            } else {
                None
            },
        }
    }

    /// The draft, if it has all the properties that it should have.
    pub open spec fn checked(self) -> Result<Draft, Error> {
        match self.broken() {
            Some(lacking) => Err(Error::Broken(lacking)),
            None => Ok(self),
        }
    }

    /// All the steps from the fresh draft to the one that is to be checked.
    pub open spec fn assembled(self) -> Result<Draft, Error> {
        match self.selected() {
            Err(error) => Err(error),
            Ok(selected) => match selected.aligned() {
                Err(error) => Err(error),
                Ok(aligned) => match aligned.padded() {
                    Err(error) => Err(error),
                    Ok(padded) => match padded.funded() {
                        Err(error) => Err(error),
                        Ok(funded) => match funded.stripped() {
                            Err(error) => Err(error),
                            Ok(stripped) => stripped.deducted(),
                        },
                    },
                },
            },
        }
    }

    /// All the steps from the fresh draft to the finished one.
    pub open spec fn finished(self) -> Result<Draft, Error> {
        match self.assembled() {
            Err(error) => Err(error),
            Ok(draft) => draft.checked(),
        }
    }

    /// What becomes of the request that the draft begins with.
    pub open spec fn outcome(self) -> Result<Draft, Error> {
        match self.refusal() {
            Some(error) => Err(error),
            None => self.finished(),
        }
    }

    /// What is chosen is an unspent output without an inscription.
    pub proof fn lemma_choice_is_unspent(self, count: int, target: int, prefer_under: bool)
        requires
            count <= self.utxos.len(),
        ensures
            self.choice(count, target, prefer_under) matches Some(utxo) ==> self.utxos.contains(
                utxo,
            ) && !self.inscribed(utxo),
        decreases count,
    {
        if count > 0 {
            self.lemma_choice_is_unspent(count - 1, target, prefer_under);
        }
    }

    pub proof fn lemma_cardinal_is_unspent(self, target: int, prefer_under: bool)
        ensures
            self.cardinal(target, prefer_under) matches Ok(utxo) ==> {
                &&& self.utxos.contains(utxo)
                &&& !self.inscribed(utxo)
                &&& self.take_utxo(utxo).utxos.len() == self.utxos.len() - 1
            },
    {
        self.lemma_choice_is_unspent(self.utxos.len() as int, target, prefer_under);
    }
}

impl Transaction {
    /// The transaction spends the inputs and pays the outputs of a draft, and
    /// can be replaced by one that pays a higher fee.
    pub open spec fn carries_out(self, draft: Draft) -> bool {
        &&& self.version == 1
        &&& self.lock_time == 0
        &&& self.input@.len() == draft.inputs.len()
        &&& forall|i: int|
            0 <= i < draft.inputs.len() ==> {
                &&& (#[trigger] self.input@[i]).previous_output == draft.inputs[i]
                &&& self.input@[i].script_sig@.len() == 0
                &&& self.input@[i].sequence == 0xffff_fffd
                &&& self.input@[i].witness@.len() == 0
            }
        &&& self.output@.len() == draft.outputs.len()
        &&& forall|i: int|
            0 <= i < draft.outputs.len() ==> {
                &&& (#[trigger] self.output@[i]).value == draft.outputs[i].1.0
                &&& self.output@[i].script_pubkey@ == draft.outputs[i].0.script()
            }
    }
}

} // verus!
