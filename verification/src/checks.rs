//! The finished transaction, and the properties that it must have.

use vstd::prelude::*;

use crate::address::script_dust_value;
use crate::builder::TransactionBuilder;
use crate::builder::ENABLE_RBF_NO_LOCKTIME;
use crate::bytes::vectors_equal;
use crate::error::Error;
use crate::error::Invariant;
use crate::fee_rate::VBytes;
use crate::model::Target;
use crate::transaction::Transaction;
use crate::transaction::TxIn;
use crate::transaction::TxOut;

verus! {

/// The number of outputs of a transaction with the given script.
fn count_payments(transaction: &Transaction, script: &Vec<u8>, Ghost(outputs): Ghost<
    Seq<(crate::address::Address, crate::amount::Amount)>,
>) -> (count: usize)
    requires
        outputs.len() == transaction.output@.len(),
        forall|i: int|
            0 <= i < outputs.len() ==> (#[trigger] transaction.output@[i]).script_pubkey@
                == outputs[i].0.script(),
    ensures
        count > 0 <==> crate::model::paid(outputs, script@),
        count <= 1 <==> crate::model::paid_at_most_once(outputs, script@),
{
    let mut count: usize = 0;
    let mut i: usize = 0;
    while i < transaction.output.len()
        invariant
            outputs.len() == transaction.output@.len(),
            forall|i: int|
                0 <= i < outputs.len() ==> (#[trigger] transaction.output@[i]).script_pubkey@
                    == outputs[i].0.script(),
            count <= i <= outputs.len(),
            count > 0 <==> exists|j: int| 0 <= j < i && #[trigger] outputs[j].0.script() == script@,
            count <= 1 <==> forall|j: int, k: int|
                0 <= j < k < i && #[trigger] outputs[j].0.script() == script@
                    ==> #[trigger] outputs[k].0.script() != script@,
        decreases outputs.len() - i,
    {
        assert(transaction.output@[i as int].script_pubkey@ == outputs[i as int].0.script());
        if vectors_equal(&transaction.output[i].script_pubkey, script) {
            count += 1;
        }
        i += 1;
    }
    count
}

impl TransactionBuilder {
    /// The transaction that spends the inputs and pays the outputs, if it has
    /// all the properties that it must have.
    pub fn build(self) -> (built: Result<Transaction, Error>)
        requires
            self@.well_formed(),
            self@.recipient.len() > 0,
        ensures
            match self@.checked() {
                Ok(draft) => built matches Ok(transaction) && transaction.carries_out(draft),
                Err(error) => built == Err::<Transaction, Error>(error),
            },
    {
        let mut input: Vec<TxIn> = Vec::new();
        let mut i: usize = 0;
        while i < self.inputs.len()
            invariant
                i == input@.len(),
                i <= self@.inputs.len(),
                forall|j: int|
                    0 <= j < i ==> {
                        &&& (#[trigger] input@[j]).previous_output == self@.inputs[j]
                        &&& input@[j].script_sig@.len() == 0
                        &&& input@[j].sequence == ENABLE_RBF_NO_LOCKTIME
                        &&& input@[j].witness@.len() == 0
                    },
            decreases self@.inputs.len() - i,
        {
            input.push(
                TxIn {
                    previous_output: self.inputs[i],
                    script_sig: Vec::new(),
                    sequence: ENABLE_RBF_NO_LOCKTIME,
                    witness: Vec::new(),
                },
            );
            i += 1;
        }
        let mut output: Vec<TxOut> = Vec::new();
        i = 0;
        while i < self.outputs.len()
            invariant
                i == output@.len(),
                i <= self@.outputs.len(),
                forall|j: int|
                    0 <= j < i ==> {
                        &&& (#[trigger] output@[j]).value == self@.outputs[j].1.0
                        &&& output@[j].script_pubkey@ == self@.outputs[j].0.script()
                        &&& self@.outputs[j].0.well_formed()
                    },
            decreases self@.outputs.len() - i,
        {
            output.push(
                TxOut {
                    value: self.outputs[i].1.0,
                    script_pubkey: self.outputs[i].0.script_pubkey(),
                },
            );
            assert(output@[i as int].value == self@.outputs[i as int].1.0);
            assert(output@[i as int].script_pubkey@ == self@.outputs[i as int].0.script());
            assert(self@.outputs[i as int].0.well_formed());
            i += 1;
        }
        let transaction = Transaction { version: 1, lock_time: 0, input, output };
        assert(forall|j: int|
            0 <= j < self@.outputs.len() ==> output@[j].script_pubkey@
                == #[trigger] self@.outputs[j].0.script() && self@.outputs[j].0.well_formed());
        match self.broken(&transaction) {
            Some(lacking) => Err(Error::Broken(lacking)),
            None => Ok(transaction),
        }
    }

    /// The first property that the transaction must have, and lacks.
    fn broken(&self, transaction: &Transaction) -> (lacking: Option<Invariant>)
        requires
            self@.well_formed(),
            self@.recipient.len() > 0,
            transaction.carries_out(self@),
            forall|i: int|
                0 <= i < self@.outputs.len() ==> (#[trigger] self@.outputs[i]).0.well_formed(),
        ensures
            lacking == self@.broken(),
    {
        match self.amounts.get(&self.outgoing.outpoint) {
            Some(amount) => {
                if self.outgoing.offset >= amount.0 {
                    return Some(Invariant::SatIsContainedInUtxos);
                }
            },
            None => {
                return Some(Invariant::SatIsContainedInUtxos);
            },
        }
        if !self.spends_sat_once(transaction) {
            return Some(Invariant::InputsSpendSat);
        }
        let sat_offset: u64 = match self.calculate_sat_offset() {
            Ok(sat_offset) => sat_offset,
            Err(_) => {
                return Some(Invariant::Arithmetic);
            },
        };
        if let Some(lacking) = self.broken_destination(transaction, sat_offset) {
            return Some(lacking);
        }
        if !self.pays_recipients_once(transaction) {
            return Some(Invariant::RecipientAppearsExactlyOnce);
        }
        if !self.pays_change_at_most_once(transaction) {
            return Some(Invariant::ChangeAppearsAtMostOnce);
        }
        if let Some(lacking) = self.broken_position(transaction, sat_offset) {
            return Some(lacking);
        }
        if let Some(lacking) = self.broken_targets(transaction) {
            return Some(lacking);
        }
        if !self.recognizes_outputs(transaction) {
            return Some(Invariant::OutputsAreChangeOrRecipient);
        }
        let fee: u64 = match self.actual_fee(transaction) {
            Some(fee) => fee,
            None => {
                return Some(Invariant::Arithmetic);
            },
        };
        if fee != self.estimate_fee().0 {
            return Some(Invariant::FeeEstimationIsCorrect);
        }
        if !self.pays_no_dust(transaction) {
            return Some(Invariant::OutputsAreAboveDustLimit);
        }
        None
    }

    /// Whether one input, and no other, spends the output with the outgoing sat.
    fn spends_sat_once(&self, transaction: &Transaction) -> (once: bool)
        requires
            transaction.carries_out(self@),
        ensures
            once == self@.sat_spent_once(),
    {
        let mut count: usize = 0;
        let ghost mut at: int = 0;
        let mut i: usize = 0;
        while i < transaction.input.len()
            invariant
                transaction.carries_out(self@),
                count <= i <= self@.inputs.len(),
                count == 0 ==> forall|j: int| j < i ==> !#[trigger] self@.spends_sat(j),
                count >= 1 ==> self@.spends_sat(at) && at < i,
                count == 1 ==> forall|j: int| j < i && j != at ==> !#[trigger] self@.spends_sat(j),
                count >= 2 ==> exists|j: int| j != at && #[trigger] self@.spends_sat(j),
            decreases self@.inputs.len() - i,
        {
            assert(transaction.input@[i as int].previous_output == self@.inputs[i as int]);
            if transaction.input[i].previous_output == self.outgoing.outpoint {
                assert(self@.spends_sat(i as int));
                if count == 0 {
                    proof {
                        at = i as int;
                    }
                }
                count += 1;
            }
            i += 1;
        }
        proof {
            assert(forall|j: int| j >= i ==> !#[trigger] self@.spends_sat(j));
            if count >= 2 {
                let other = choose|j: int| j != at && #[trigger] self@.spends_sat(j);
                assert forall|k: int| #[trigger] self@.spends_sat(k) implies exists|j: int|
                    j != k && #[trigger] self@.spends_sat(j) by {
                    if k == at {
                        assert(self@.spends_sat(other));
                    } else {
                        assert(self@.spends_sat(at));
                    }
                }
            }
        }
        count == 1
    }

    /// What is wrong with the output that the outgoing sat is in.
    fn broken_destination(&self, transaction: &Transaction, sat_offset: u64) -> (lacking: Option<
        Invariant,
    >)
        requires
            self@.recipient.len() > 0,
            transaction.carries_out(self@),
        ensures
            lacking == (match crate::model::output_at(self@.outputs, sat_offset as int, 0) {
                None => Some(Invariant::SatIsFoundInOutputs),
                Some(i) => if crate::model::total(self@.outputs.take(i + 1)) > u64::MAX {
                    Some(Invariant::Arithmetic)
                } else if self@.outputs[i].0.script() != self@.recipient[0].script() {
                    Some(Invariant::SatIsSentToFirstRecipient)
                } else {
                    None
                },
            }),
    {
        let recipient = self.recipient[0].script_pubkey();
        let mut end: u64 = 0;
        let mut i: usize = 0;
        while i < transaction.output.len()
            invariant
                self@.recipient.len() > 0,
                recipient@ == self@.recipient[0].script(),
                transaction.carries_out(self@),
                i <= self@.outputs.len(),
                end == crate::model::total(self@.outputs.take(i as int)),
                end <= sat_offset,
                crate::model::output_at(self@.outputs, sat_offset as int, 0)
                    == crate::model::output_at(self@.outputs, sat_offset as int, i as int),
            decreases self@.outputs.len() - i,
        {
            proof {
                assert(transaction.output@[i as int].value == self@.outputs[i as int].1.0);
                assert(self@.outputs.take(i + 1).drop_last() =~= self@.outputs.take(i as int));
                assert(self@.outputs.take(i + 1).last() == self@.outputs[i as int]);
            }
            end = match end.checked_add(transaction.output[i].value) {
                Some(end) => end,
                None => {
                    return Some(Invariant::Arithmetic);
                },
            };
            if end > sat_offset {
                return if vectors_equal(&transaction.output[i].script_pubkey, &recipient) {
                    None
                } else {
                    Some(Invariant::SatIsSentToFirstRecipient)
                };
            }
            i += 1;
        }
        Some(Invariant::SatIsFoundInOutputs)
    }

    /// Whether the script of each recipient is that of one output, and of no
    /// other.
    fn pays_recipients_once(&self, transaction: &Transaction) -> (once: bool)
        requires
            transaction.carries_out(self@),
        ensures
            once == self@.recipients_paid_once(),
    {
        let mut i: usize = 0;
        while i < self.recipient.len()
            invariant
                transaction.carries_out(self@),
                i <= self@.recipient.len(),
                forall|j: int|
                    0 <= j < i ==> crate::model::paid(
                        self@.outputs,
                        (#[trigger] self@.recipient[j]).script(),
                    ) && crate::model::paid_at_most_once(self@.outputs, self@.recipient[j].script()),
            decreases self@.recipient.len() - i,
        {
            let script = self.recipient[i].script_pubkey();
            if count_payments(transaction, &script, Ghost(self@.outputs)) != 1 {
                assert(script@ == self@.recipient[i as int].script());
                return false;
            }
            i += 1;
        }
        true
    }

    /// Whether the script of each change address is that of one output at most.
    fn pays_change_at_most_once(&self, transaction: &Transaction) -> (once: bool)
        requires
            transaction.carries_out(self@),
        ensures
            once == self@.change_paid_at_most_once(),
    {
        let mut i: usize = 0;
        while i < self.change_addresses.len()
            invariant
                transaction.carries_out(self@),
                i <= self@.change_addresses.len(),
                forall|j: int|
                    0 <= j < i ==> crate::model::paid_at_most_once(
                        self@.outputs,
                        (#[trigger] self@.change_addresses[j]).script(),
                    ),
            decreases self@.change_addresses.len() - i,
        {
            let script = self.change_addresses[i].script_pubkey();
            if count_payments(transaction, &script, Ghost(self@.outputs)) > 1 {
                assert(script@ == self@.change_addresses[i as int].script());
                return false;
            }
            i += 1;
        }
        true
    }

    /// What is wrong with the position of the outgoing sat in the output of the
    /// first recipient.
    fn broken_position(&self, transaction: &Transaction, sat_offset: u64) -> (lacking: Option<
        Invariant,
    >)
        requires
            self@.recipient.len() > 0,
            transaction.carries_out(self@),
            crate::model::paid(self@.outputs, self@.recipient[0].script()),
        ensures
            ({
                let first = crate::model::first_payment(
                    self@.outputs,
                    self@.recipient[0].script(),
                    0,
                );
                let before = crate::model::total(self@.outputs.take(first));
                lacking == if before > u64::MAX {
                    Some(Invariant::Arithmetic)
                } else if before != sat_offset {
                    Some(Invariant::SatIsAtFirstPosition)
                } else {
                    None
                }
            }),
    {
        let ghost script = self@.recipient[0].script();
        let ghost first = crate::model::first_payment(self@.outputs, script, 0);
        let recipient = self.recipient[0].script_pubkey();
        let mut offset: u64 = 0;
        let mut i: usize = 0;
        while i < transaction.output.len()
            invariant
                self@.recipient.len() > 0,
                script == self@.recipient[0].script(),
                recipient@ == script,
                transaction.carries_out(self@),
                i <= self@.outputs.len(),
                offset == crate::model::total(self@.outputs.take(i as int)),
                forall|j: int| 0 <= j < i ==> #[trigger] self@.outputs[j].0.script() != script,
                first == crate::model::first_payment(self@.outputs, script, 0),
                first == crate::model::first_payment(self@.outputs, script, i as int),
            decreases self@.outputs.len() - i,
        {
            proof {
                assert(transaction.output@[i as int].value == self@.outputs[i as int].1.0);
                assert(self@.outputs.take(i + 1).drop_last() =~= self@.outputs.take(i as int));
                assert(self@.outputs.take(i + 1).last() == self@.outputs[i as int]);
            }
            if vectors_equal(&transaction.output[i].script_pubkey, &recipient) {
                return if offset == sat_offset {
                    None
                } else {
                    Some(Invariant::SatIsAtFirstPosition)
                };
            }
            offset = match offset.checked_add(transaction.output[i].value) {
                Some(offset) => offset,
                None => {
                    proof {
                        crate::model::lemma_first_payment(self@.outputs, script, i + 1);
                        crate::allotment::lemma_total_grows(self@.outputs, i + 1, first);
                    }
                    return Some(Invariant::Arithmetic);
                },
            };
            i += 1;
        }
        None
    }

    /// What is wrong with the outputs of the recipients.
    fn broken_targets(&self, transaction: &Transaction) -> (lacking: Option<Invariant>)
        requires
            self@.well_formed(),
            transaction.carries_out(self@),
        ensures
            lacking == self@.broken_target(0),
    {
        let additional_output = VBytes {
            quarters: crate::model::ADDITIONAL_OUTPUT_QUARTERS as u128,
        };
        let slop: u64 = self.fee_rate.fee(additional_output).0;
        let slack: Option<u64> = self.largest_dust().checked_add(slop);
        let mut i: usize = 0;
        while i < self.recipient.len() && i < self.target.len()
            invariant
                self@.well_formed(),
                transaction.carries_out(self@),
                slop == self@.output_fee(),
                match slack {
                    Some(slack) => slack == crate::model::largest_dust(self@.change_addresses)
                        + slop,
                    None => crate::model::largest_dust(self@.change_addresses) + slop > u64::MAX,
                },
                i <= self@.paired(),
                self@.broken_target(0) == self@.broken_target(i as int),
            decreases self@.paired() - i,
        {
            if self.padding_outputs >= transaction.output.len() || i >= transaction.output.len()
                - self.padding_outputs {
                return Some(Invariant::Arithmetic);
            }
            let at: usize = self.padding_outputs + i;
            let script = self.recipient[i].script_pubkey();
            let value: u64 = transaction.output[at].value;
            proof {
                assert(transaction.output@[at as int].value == self@.outputs[at as int].1.0);
            }
            if !vectors_equal(&transaction.output[at].script_pubkey, &script) {
                return Some(Invariant::OutputPaysRecipient);
            }
            match self.target[i] {
                Target::Postage => match self.max_postage.0.checked_add(slop) {
                    Some(most) => {
                        if value > most {
                            return Some(Invariant::ExcessPostageIsStripped);
                        }
                    },
                    None => {
                        return Some(Invariant::Arithmetic);
                    },
                },
                Target::Value(wanted) => {
                    if value < wanted.0 {
                        return Some(Invariant::Arithmetic);
                    }
                    match slack {
                        Some(slack) => {
                            if value - wanted.0 > slack {
                                return Some(Invariant::OutputEqualsTargetValue);
                            }
                        },
                        None => {
                            return Some(Invariant::Arithmetic);
                        },
                    }
                },
            }
            i += 1;
        }
        None
    }

    /// The largest dust value of the change addresses, in sats.
    fn largest_dust(&self) -> (dust: u64)
        ensures
            dust == crate::model::largest_dust(self@.change_addresses),
    {
        let ghost addresses = self@.change_addresses;
        let mut dust: u64 = 0;
        let mut i: usize = 0;
        while i < self.change_addresses.len()
            invariant
                addresses == self@.change_addresses,
                i <= addresses.len(),
                dust == crate::model::largest_dust(addresses.take(i as int)),
            decreases addresses.len() - i,
        {
            let next: u64 = self.change_addresses[i].dust_value().0;
            assert(addresses.take(i + 1).drop_last() =~= addresses.take(i as int));
            if next > dust {
                dust = next;
            }
            i += 1;
        }
        assert(addresses.take(i as int) =~= addresses);
        dust
    }

    /// Whether a script is that of a change address.
    fn is_change(&self, script: &Vec<u8>) -> (change: bool)
        ensures
            change == exists|i: int|
                0 <= i < self@.change_addresses.len() && (
                #[trigger] self@.change_addresses[i]).script() == script@,
    {
        let mut i: usize = 0;
        while i < self.change_addresses.len()
            invariant
                i <= self@.change_addresses.len(),
                forall|j: int|
                    0 <= j < i ==> (#[trigger] self@.change_addresses[j]).script() != script@,
            decreases self@.change_addresses.len() - i,
        {
            if vectors_equal(&self.change_addresses[i].script_pubkey(), script) {
                assert(self@.change_addresses[i as int].script() == script@);
                return true;
            }
            i += 1;
        }
        false
    }

    /// Whether each output is that of a recipient, or pays to the address for
    /// alignment or to a change address.
    fn recognizes_outputs(&self, transaction: &Transaction) -> (all: bool)
        requires
            self@.well_formed(),
            transaction.carries_out(self@),
        ensures
            all == forall|i: int| 0 <= i < self@.outputs.len() ==> #[trigger] self@.recognized(i),
    {
        let mut i: usize = 0;
        while i < transaction.output.len()
            invariant
                self@.well_formed(),
                transaction.carries_out(self@),
                i <= self@.outputs.len(),
                forall|j: int| 0 <= j < i ==> #[trigger] self@.recognized(j),
            decreases self@.outputs.len() - i,
        {
            let script = &transaction.output[i].script_pubkey;
            assert(transaction.output@[i as int].script_pubkey@ == self@.outputs[i as int].0.script());
            if i < self.padding_outputs || i - self.padding_outputs >= self.recipient.len() {
                let aligned = match &self.alignment {
                    Some(address) => vectors_equal(&address.script_pubkey(), script),
                    None => false,
                };
                if !aligned && !self.is_change(script) {
                    assert(!self@.recognized(i as int));
                    return false;
                }
            }
            assert(self@.recognized(i as int));
            i += 1;
        }
        true
    }

    /// What the inputs hold more than the outputs.
    fn actual_fee(&self, transaction: &Transaction) -> (fee: Option<u64>)
        requires
            self@.well_formed(),
            transaction.carries_out(self@),
        ensures
            ({
                let spent = crate::model::worth(self@.amounts, self@.inputs);
                let paid = crate::model::total(self@.outputs);
                match fee {
                    Some(fee) => spent <= u64::MAX && fee == spent - paid,
                    None => spent > u64::MAX || spent < paid,
                }
            }),
    {
        let ghost inputs = self@.inputs;
        let ghost outputs = self@.outputs;
        let mut fee: u64 = 0;
        let mut i: usize = 0;
        while i < transaction.input.len()
            invariant
                self@.well_formed(),
                transaction.carries_out(self@),
                inputs == self@.inputs,
                i <= inputs.len(),
                fee == crate::model::worth(self@.amounts, inputs.take(i as int)),
            decreases inputs.len() - i,
        {
            proof {
                assert(transaction.input@[i as int].previous_output == inputs[i as int]);
                assert(self@.amounts.contains_key(inputs[i as int]));
                assert(inputs.take(i + 1).drop_last() =~= inputs.take(i as int));
            }
            let amount = self.amounts.get(&transaction.input[i].previous_output).unwrap();
            fee = match fee.checked_add(amount.0) {
                Some(fee) => fee,
                None => {
                    proof {
                        crate::model::lemma_worth_grows(self@.amounts, inputs, i + 1);
                    }
                    return None;
                },
            };
            i += 1;
        }
        assert(inputs.take(i as int) =~= inputs);
        i = 0;
        while i < transaction.output.len()
            invariant
                transaction.carries_out(self@),
                outputs == self@.outputs,
                i <= outputs.len(),
                fee == crate::model::worth(self@.amounts, self@.inputs) - crate::model::total(
                    outputs.take(i as int),
                ),
                crate::model::worth(self@.amounts, self@.inputs) <= u64::MAX,
            decreases outputs.len() - i,
        {
            proof {
                assert(transaction.output@[i as int].value == outputs[i as int].1.0);
                assert(outputs.take(i + 1).drop_last() =~= outputs.take(i as int));
            }
            if fee < transaction.output[i].value {
                proof {
                    crate::allotment::lemma_total_grows(outputs, i + 1, outputs.len() as int);
                    assert(outputs.take(outputs.len() as int) =~= outputs);
                }
                return None;
            }
            fee = fee - transaction.output[i].value;
            i += 1;
        }
        assert(outputs.take(i as int) =~= outputs);
        Some(fee)
    }

    /// Whether no output is dust.
    fn pays_no_dust(&self, transaction: &Transaction) -> (clean: bool)
        requires
            transaction.carries_out(self@),
            forall|i: int|
                0 <= i < self@.outputs.len() ==> (#[trigger] self@.outputs[i]).0.well_formed(),
        ensures
            clean == self@.above_dust_limit(),
    {
        let mut i: usize = 0;
        while i < transaction.output.len()
            invariant
                transaction.carries_out(self@),
                forall|i: int|
                    0 <= i < self@.outputs.len() ==> (#[trigger] self@.outputs[i]).0.well_formed(),
                i <= self@.outputs.len(),
                forall|j: int|
                    0 <= j < i ==> (#[trigger] self@.outputs[j]).1.0 >= self@.outputs[j].0.dust(),
            decreases self@.outputs.len() - i,
        {
            proof {
                assert(transaction.output@[i as int].value == self@.outputs[i as int].1.0);
                crate::address::lemma_script_length(self@.outputs[i as int].0);
            }
            if transaction.output[i].value < script_dust_value(
                &transaction.output[i].script_pubkey,
            ) {
                return false;
            }
            i += 1;
        }
        true
    }
}

} // verus!
