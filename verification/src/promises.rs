//! What is promised to those who make requests, in terms of what they ask with and
//! of what they get.

use vstd::prelude::*;

use crate::address::dust_of;
use crate::address::Address;
use crate::amount::Amount;
use crate::error::Error;
use crate::fee_rate::round_to_double;
use crate::fee_rate::FeeRate;
use crate::model::answers;
use crate::model::begun;
use crate::model::outcome_with_postage;
use crate::model::outcome_with_value;
use crate::model::outcome_with_values;
use crate::model::total;
use crate::model::Draft;
use crate::model::Target;
use crate::ordered::SortedMap;
use crate::outpoint::InscriptionId;
use crate::outpoint::OutPoint;
use crate::outpoint::SatPoint;
use crate::request::held;
use crate::request::is_signed_version;
use crate::request::paid;
use crate::request::pays_no_dust;
use crate::request::scripts_of;
use crate::request::scripts_to;
use crate::request::spent_by;
use crate::request::times_paid;
use crate::request::weight_once_signed;
use crate::request::Request;
use crate::transaction::Transaction;
use crate::transaction::TxIn;
use crate::transaction::TxOut;

verus! {

/// A request begins with the draft of what it asks with.
proof fn lemma_request_begins(
    request: Request,
    inscriptions: SortedMap<SatPoint, InscriptionId>,
    amounts: SortedMap<OutPoint, Amount>,
)
    requires
        inscriptions.well_formed(),
        amounts.well_formed(),
        request.inscriptions == inscriptions@,
        request.amounts == amounts@,
        request.change.len() == 2,
        forall|i: int|
            0 <= i < request.recipient.len() ==> (#[trigger] request.recipient[i]).well_formed(),
        512 * (amounts.entries().len() + request.recipient.len() + 4) <= usize::MAX,
        forall|i: int|
            0 <= i < request.recipient.len() && i < request.target.len()
                ==> #[trigger] request.target[i] != Target::Value(Amount(0)),
    ensures
        request.begins_with(
            begun(
                request.outgoing,
                inscriptions,
                amounts,
                request.recipient,
                request.alignment,
                request.change,
                request.fee_rate,
                request.max_inputs,
                request.target,
                request.target_postage,
                request.max_postage,
            ),
        ),
{
    let draft = begun(
        request.outgoing,
        inscriptions,
        amounts,
        request.recipient,
        request.alignment,
        request.change,
        request.fee_rate,
        request.max_inputs,
        request.target,
        request.target_postage,
        request.max_postage,
    );
    crate::model::lemma_begun_is_fresh(
        request.outgoing,
        inscriptions,
        amounts,
        request.recipient,
        request.alignment,
        request.change,
        request.fee_rate,
        request.max_inputs,
        request.target,
        request.target_postage,
        request.max_postage,
    );
    let entries = inscriptions.entries();
    crate::ordered::lemma_ascending_keys_are_distinct(inscriptions.keys());
    assert forall|i: int| 0 <= i < draft.inscriptions.len() implies {
        &&& request.inscriptions.contains_key((#[trigger] draft.inscriptions[i]).0)
        &&& request.inscriptions[draft.inscriptions[i].0] == draft.inscriptions[i].1
    } by {
        crate::ordered::lemma_map_holds_entry(entries, i);
    }
    assert forall|inscribed: SatPoint| #[trigger]
        request.inscriptions.contains_key(inscribed) implies exists|i: int|
        0 <= i < draft.inscriptions.len() && #[trigger] draft.inscriptions[i].0 == inscribed by {
        crate::ordered::lemma_map_holds_only_entries(entries, inscribed);
        let i = inscriptions.keys().index_of(inscribed);
        assert(draft.inscriptions[i].0 == inscribed);
    }
}

/// The answer to a request is right: a transaction meets it, an error is a reason to
/// refuse it, and it is refused only if no transaction meets it.
pub open spec fn is_right_answer(built: Result<Transaction, Error>, request: Request) -> bool {
    match built {
        Ok(transaction) => request.is_met_by(transaction),
        Err(error) => {
            &&& request.is_refused_with(error)
            &&& forall|transaction: Transaction| !#[trigger] request.is_met_by(transaction)
        },
    }
}

proof fn lemma_answer_is_right(
    built: Result<Transaction, Error>,
    request: Request,
    inscriptions: SortedMap<SatPoint, InscriptionId>,
    amounts: SortedMap<OutPoint, Amount>,
)
    requires
        inscriptions.well_formed(),
        amounts.well_formed(),
        request.inscriptions == inscriptions@,
        request.amounts == amounts@,
        request.change.len() == 2,
        forall|i: int|
            0 <= i < request.recipient.len() ==> (#[trigger] request.recipient[i]).well_formed(),
        512 * (amounts.entries().len() + request.recipient.len() + 4) <= usize::MAX,
        forall|i: int|
            0 <= i < request.recipient.len() && i < request.target.len()
                ==> #[trigger] request.target[i] != Target::Value(Amount(0)),
        answers(
            built,
            begun(
                request.outgoing,
                inscriptions,
                amounts,
                request.recipient,
                request.alignment,
                request.change,
                request.fee_rate,
                request.max_inputs,
                request.target,
                request.target_postage,
                request.max_postage,
            ).outcome(),
        ),
    ensures
        is_right_answer(built, request),
{
    let draft = begun(
        request.outgoing,
        inscriptions,
        amounts,
        request.recipient,
        request.alignment,
        request.change,
        request.fee_rate,
        request.max_inputs,
        request.target,
        request.target_postage,
        request.max_postage,
    );
    lemma_request_begins(request, inscriptions, amounts);
    request.lemma_refused(draft);
    match built {
        Ok(transaction) => request.lemma_met(draft, transaction),
        Err(_) => {
            assert forall|transaction: Transaction| !#[trigger] request.is_met_by(
                transaction,
            ) by {
                if request.is_met_by(transaction) {
                    assert forall|i: int| 0 <= i < request.recipient.len() implies (
                    #[trigger] request.recipient[i]).dust() > 0 by {
                        crate::address::lemma_script_length(request.recipient[i]);
                    }
                    request.lemma_meets(draft, transaction);
                }
            }
        },
    }
}

/// A request with postage is answered rightly, if the maximal postage is not less
/// than the target.
pub proof fn postage_requests_are_answered_rightly(
    outgoing: SatPoint,
    inscriptions: SortedMap<SatPoint, InscriptionId>,
    amounts: SortedMap<OutPoint, Amount>,
    recipient: Address,
    alignment: Option<Address>,
    change: Seq<Address>,
    fee_rate: FeeRate,
    max_inputs: Option<usize>,
    target_postage: Amount,
    max_postage: Amount,
    built: Result<Transaction, Error>,
)
    requires
        inscriptions.well_formed(),
        amounts.well_formed(),
        recipient.well_formed(),
        change.len() == 2,
        512 * (amounts.entries().len() + 5) <= usize::MAX,
        answers(
            built,
            outcome_with_postage(
                outgoing,
                inscriptions,
                amounts,
                recipient,
                alignment,
                change,
                fee_rate,
                max_inputs,
                target_postage,
                max_postage,
            ),
        ),
    ensures
        if max_postage.0 < target_postage.0 {
            built == Err::<Transaction, Error>(
                Error::MaxPostageLessThanTarget { max_postage, target_postage },
            )
        } else {
            is_right_answer(
                built,
                (Request {
                    outgoing,
                    inscriptions: inscriptions@,
                    amounts: amounts@,
                    recipient: seq![recipient],
                    alignment,
                    change,
                    fee_rate,
                    max_inputs,
                    target: seq![Target::Postage],
                    target_postage,
                    max_postage,
                }),
            )
        },
{
    if max_postage.0 >= target_postage.0 {
        let request = Request {
            outgoing,
            inscriptions: inscriptions@,
            amounts: amounts@,
            recipient: seq![recipient],
            alignment,
            change,
            fee_rate,
            max_inputs,
            target: seq![Target::Postage],
            target_postage,
            max_postage,
        };
        lemma_answer_is_right(built, request, inscriptions, amounts);
    }
}

/// A request with a value is answered rightly, if the value is not dust.
pub proof fn value_requests_are_answered_rightly(
    outgoing: SatPoint,
    inscriptions: SortedMap<SatPoint, InscriptionId>,
    amounts: SortedMap<OutPoint, Amount>,
    recipient: Address,
    alignment: Option<Address>,
    change: Seq<Address>,
    fee_rate: FeeRate,
    max_inputs: Option<usize>,
    output_value: Amount,
    built: Result<Transaction, Error>,
)
    requires
        inscriptions.well_formed(),
        amounts.well_formed(),
        recipient.well_formed(),
        change.len() == 2,
        512 * (amounts.entries().len() + 5) <= usize::MAX,
        answers(
            built,
            outcome_with_value(
                outgoing,
                inscriptions,
                amounts,
                recipient,
                alignment,
                change,
                fee_rate,
                max_inputs,
                output_value,
            ),
        ),
    ensures
        if output_value.0 < dust_of(recipient.script()) {
            built == Err::<Transaction, Error>(
                Error::Dust {
                    output_value,
                    dust_value: Amount(dust_of(recipient.script()) as u64),
                },
            )
        } else {
            is_right_answer(
                built,
                (Request {
                    outgoing,
                    inscriptions: inscriptions@,
                    amounts: amounts@,
                    recipient: seq![recipient],
                    alignment,
                    change,
                    fee_rate,
                    max_inputs,
                    target: seq![Target::Value(output_value)],
                    target_postage: Amount(0),
                    max_postage: Amount(0),
                }),
            )
        },
{
    crate::address::lemma_script_length(recipient);
    if output_value.0 >= recipient.dust() {
        let request = Request {
            outgoing,
            inscriptions: inscriptions@,
            amounts: amounts@,
            recipient: seq![recipient],
            alignment,
            change,
            fee_rate,
            max_inputs,
            target: seq![Target::Value(output_value)],
            target_postage: Amount(0),
            max_postage: Amount(0),
        };
        lemma_answer_is_right(built, request, inscriptions, amounts);
    }
}

/// The value is dust for its recipient.
pub open spec fn is_dust(recipient: Seq<Address>, values: Seq<Amount>, i: int) -> bool {
    0 <= i < recipient.len() && i < values.len() && values[i].0 < dust_of(recipient[i].script())
}

proof fn lemma_first_dust(recipient: Seq<Address>, values: Seq<Amount>, from: int)
    requires
        0 <= from,
        forall|i: int| 0 <= i < recipient.len() ==> (#[trigger] recipient[i]).well_formed(),
        forall|i: int| i < from ==> !#[trigger] is_dust(recipient, values, i),
    ensures
        match crate::model::first_dust(recipient, values, from) {
            Some(error) => exists|i: int| #[trigger]
                is_dust(recipient, values, i) && error == (Error::Dust {
                    output_value: values[i],
                    dust_value: Amount(dust_of(recipient[i].script()) as u64),
                }) && forall|j: int| j < i ==> !#[trigger] is_dust(recipient, values, j),
            None => forall|i: int| !#[trigger] is_dust(recipient, values, i),
        },
    decreases recipient.len() - from,
{
    if from < recipient.len() && from < values.len() {
        if values[from].0 < recipient[from].dust() {
            assert(is_dust(recipient, values, from));
        } else {
            assert forall|i: int| i < from + 1 implies !#[trigger] is_dust(
                recipient,
                values,
                i,
            ) by {
                if i < from {
                    assert(!is_dust(recipient, values, i));
                }
            }
            lemma_first_dust(recipient, values, from + 1);
        }
    } else {
        assert forall|i: int| !#[trigger] is_dust(recipient, values, i) by {
            if i < from {
                assert(!is_dust(recipient, values, i));
            }
        }
    }
}

/// A request with several values is answered rightly, if none of the values is dust
/// for its recipient; the first that is dust is named.
pub proof fn values_requests_are_answered_rightly(
    outgoing: SatPoint,
    inscriptions: SortedMap<SatPoint, InscriptionId>,
    amounts: SortedMap<OutPoint, Amount>,
    recipient: Seq<Address>,
    alignment: Option<Address>,
    change: Seq<Address>,
    fee_rate: FeeRate,
    output_value: Seq<Amount>,
    max_inputs: Option<usize>,
    built: Result<Transaction, Error>,
)
    requires
        inscriptions.well_formed(),
        amounts.well_formed(),
        forall|i: int| 0 <= i < recipient.len() ==> (#[trigger] recipient[i]).well_formed(),
        change.len() == 2,
        512 * (amounts.entries().len() + recipient.len() + 4) <= usize::MAX,
        answers(
            built,
            outcome_with_values(
                outgoing,
                inscriptions,
                amounts,
                recipient,
                alignment,
                change,
                fee_rate,
                output_value,
                max_inputs,
            ),
        ),
    ensures
        if exists|i: int| #[trigger] is_dust(recipient, output_value, i) {
            exists|i: int| #[trigger]
                is_dust(recipient, output_value, i) && built == Err::<Transaction, Error>(
                    Error::Dust {
                        output_value: output_value[i],
                        dust_value: Amount(dust_of(recipient[i].script()) as u64),
                    },
                ) && forall|j: int| j < i ==> !#[trigger] is_dust(recipient, output_value, j)
        } else {
            is_right_answer(
                built,
                (Request {
                    outgoing,
                    inscriptions: inscriptions@,
                    amounts: amounts@,
                    recipient,
                    alignment,
                    change,
                    fee_rate,
                    max_inputs,
                    target: Seq::new(output_value.len(), |i: int| Target::Value(output_value[i])),
                    target_postage: Amount(0),
                    max_postage: Amount(0),
                }),
            )
        },
{
    assert forall|i: int| i < 0 implies !#[trigger] is_dust(recipient, output_value, i) by {}
    lemma_first_dust(recipient, output_value, 0);
    if !(exists|i: int| #[trigger] is_dust(recipient, output_value, i)) {
        let request = Request {
            outgoing,
            inscriptions: inscriptions@,
            amounts: amounts@,
            recipient,
            alignment,
            change,
            fee_rate,
            max_inputs,
            target: Seq::new(output_value.len(), |i: int| Target::Value(output_value[i])),
            target_postage: Amount(0),
            max_postage: Amount(0),
        };
        assert(request.target =~= crate::model::value_targets(output_value));
        assert forall|i: int|
            0 <= i < request.recipient.len() && i < request.target.len() implies #[trigger] request.target[i]
            != Target::Value(Amount(0)) by {
            assert(!is_dust(recipient, output_value, i));
            crate::address::lemma_script_length(recipient[i]);
        }
        lemma_answer_is_right(built, request, inscriptions, amounts);
    }
}

/// No inscription is spent but in the given output.
pub open spec fn leaves_inscriptions_alone(
    transaction: Transaction,
    inscriptions: Map<SatPoint, InscriptionId>,
    outpoint: OutPoint,
) -> bool {
    forall|k: int, inscribed: SatPoint|
        0 <= k < transaction.input@.len() && #[trigger] inscriptions.contains_key(inscribed) && (
        #[trigger] transaction.input@[k]).previous_output == inscribed.outpoint
            ==> inscribed.outpoint == outpoint
}

/// A transaction that meets a request spends no inscription of the wallet but in the
/// output of the outgoing sat.
pub proof fn met_requests_leave_other_inscriptions_alone(
    request: Request,
    transaction: Transaction,
)
    requires
        request.is_met_by(transaction),
    ensures
        leaves_inscriptions_alone(
            transaction,
            request.inscriptions,
            request.outgoing.outpoint,
        ),
{
    let spent = spent_by(transaction);
    assert forall|k: int, inscribed: SatPoint|
        0 <= k < transaction.input@.len() && #[trigger] request.inscriptions.contains_key(
            inscribed,
        ) && (#[trigger] transaction.input@[k]).previous_output
            == inscribed.outpoint implies inscribed.outpoint == request.outgoing.outpoint by {
        assert(spent[k] == inscribed.outpoint);
        if spent[k] != request.outgoing.outpoint {
            assert(request.is_cardinal(spent[k]));
        }
    }
}

/// A transaction that meets a request pays the sats before the outgoing one in its
/// first output, to the address given for them or else to the first change address.
pub proof fn met_requests_pay_the_alignment_address(request: Request, transaction: Transaction)
    requires
        request.is_met_by(transaction),
        request.outgoing.offset > 0,
    ensures
        transaction.output@.len() > 0,
        transaction.output@[0].script_pubkey@ == request.alignment_script(),
        transaction.output@[0].value >= request.outgoing.offset,
{
    let spent = spent_by(transaction);
    let at = spent.index_of(request.outgoing.outpoint);
    crate::fulfilment::lemma_held_is_not_negative(request.amounts, spent.take(at));
}

/// What is paid to a single recipient.
proof fn lemma_one_recipient(request: Request, transaction: Transaction)
    requires
        request.is_met_by(transaction),
        request.recipient.len() == 1,
        request.target.len() == 1,
    ensures
        ({
            let at = request.recipients_from();
            let outputs = transaction.output@;
            &&& at < outputs.len() <= at + 2
            &&& outputs[at].script_pubkey@ == request.recipient[0].script()
            &&& outputs[at].value >= dust_of(request.recipient[0].script())
            &&& request.pays_recipient(0, outputs[at].value)
            &&& outputs.len() == at + 2 ==> {
                &&& outputs[at].value == request.aims_at(1)
                &&& outputs[at + 1].script_pubkey@ == request.change[1].script()
            }
        }),
{
    let at = request.recipients_from();
    let outputs = transaction.output@;
    assert(outputs[at + 0].script_pubkey@ == request.recipient[0].script());
    assert(request.pays_recipient(0, outputs[at + 0].value));
    if outputs.len() == at + 2 {
        let some = outputs.subrange(at, at + 1);
        assert(some.drop_last() =~= Seq::empty());
        assert(paid(some.drop_last()) == 0);
        assert(some.last() == outputs[at]);
    }
}

/// The weight of a transaction with a signature in each input.
proof fn lemma_weight_of_signed_version(transaction: Transaction, signed: Transaction)
    requires
        is_signed_version(signed, transaction),
        transaction.input@.len() > 0,
    ensures
        signed.weight_units() == weight_once_signed(
            transaction.input@.len(),
            scripts_of(transaction.output@),
        ),
{
    lemma_size_of_signed_inputs(signed.input@);
    lemma_size_of_outputs(signed.output@);
    assert(signed.input@[0].witness@.len() > 0);
    assert(signed.has_witness());
}

proof fn lemma_size_of_signed_inputs(inputs: Seq<TxIn>)
    requires
        forall|i: int|
            0 <= i < inputs.len() ==> {
                &&& (#[trigger] inputs[i]).script_sig@.len() == 0
                &&& inputs[i].witness@.len() == 1
                &&& inputs[i].witness@[0]@.len() == 64
            },
    ensures
        crate::transaction::inputs_size(inputs) == 41 * inputs.len(),
        crate::transaction::witnesses_size(inputs) == 66 * inputs.len(),
    decreases inputs.len(),
{
    if inputs.len() > 0 {
        let last = inputs.last();
        assert(inputs[inputs.len() - 1] == last);
        lemma_size_of_signed_inputs(inputs.drop_last());
        reveal_with_fuel(crate::transaction::items_size, 2);
        assert(last.witness@.last() == last.witness@[0]);
    }
}

proof fn lemma_size_of_outputs(outputs: Seq<TxOut>)
    ensures
        crate::transaction::outputs_size(outputs) == crate::request::size_of_outputs(
            scripts_of(outputs),
        ),
    decreases outputs.len(),
{
    if outputs.len() > 0 {
        lemma_size_of_outputs(outputs.drop_last());
        assert(scripts_of(outputs).drop_last() =~= scripts_of(outputs.drop_last()));
    }
}

/// What the inputs of a transaction that meets a request hold more than its outputs is
/// the fee at the given rate for the weight of that transaction with a signature in
/// each input.
pub proof fn met_requests_pay_the_fee_of_the_signed_transaction(
    request: Request,
    transaction: Transaction,
    signed: Transaction,
)
    requires
        request.is_met_by(transaction),
        is_signed_version(signed, transaction),
    ensures
        held(request.amounts, spent_by(transaction)) - paid(transaction.output@)
            == request.fee_rate.fee_at(round_to_double(signed.weight_units())),
{
    let spent = spent_by(transaction);
    assert(spent[spent.index_of(request.outgoing.outpoint)] == request.outgoing.outpoint);
    lemma_weight_of_signed_version(transaction, signed);
}

impl Request {
    /// Where all but the last recipient get exactly their values, and all together
    /// what the targets aim at, the last does too.
    proof fn lemma_values_add_up(self, outputs: Seq<TxOut>)
        requires
            self.pays_amounts(outputs),
            self.recipients_to() < outputs.len(),
            0 < self.recipient.len() == self.target.len(),
            forall|i: int| 0 <= i < self.target.len() ==> #[trigger] self.target[i] is Value,
        ensures
            outputs[self.recipients_to() - 1].value == self.wants(self.recipient.len() - 1),
    {
        let last = self.recipient.len() - 1;
        let all = outputs.subrange(self.recipients_from(), self.recipients_to());
        self.lemma_values_before(outputs, last);
        assert(all.drop_last() =~= outputs.subrange(
            self.recipients_from(),
            self.recipients_from() + last,
        ));
        assert(all.last() == outputs[self.recipients_to() - 1]);
        assert(self.target[last] is Value);
    }

    proof fn lemma_values_before(self, outputs: Seq<TxOut>, count: int)
        requires
            self.pays_amounts(outputs),
            self.recipients_to() <= outputs.len(),
            0 <= count < self.recipient.len() <= self.target.len(),
            forall|i: int| 0 <= i < self.target.len() ==> #[trigger] self.target[i] is Value,
        ensures
            paid(outputs.subrange(self.recipients_from(), self.recipients_from() + count))
                == self.aims_at(count),
        decreases count,
    {
        let some = outputs.subrange(self.recipients_from(), self.recipients_from() + count);
        if count > 0 {
            self.lemma_values_before(outputs, count - 1);
            assert(some.drop_last() =~= outputs.subrange(
                self.recipients_from(),
                self.recipients_from() + (count - 1),
            ));
            assert(some.last() == outputs[self.recipients_from() + (count - 1)]);
            assert(self.target[count - 1] is Value);
        }
    }
}

/// A transaction with several values spends no inscription of the wallet but in the output
/// of the outgoing sat.
pub proof fn values_requests_leave_other_inscriptions_alone(
    outgoing: SatPoint,
    inscriptions: SortedMap<SatPoint, InscriptionId>,
    amounts: SortedMap<OutPoint, Amount>,
    recipient: Seq<Address>,
    alignment: Option<Address>,
    change: Seq<Address>,
    fee_rate: FeeRate,
    output_value: Seq<Amount>,
    max_inputs: Option<usize>,
    transaction: Transaction,
)
    requires
        inscriptions.well_formed(),
        amounts.well_formed(),
        forall|i: int| 0 <= i < recipient.len() ==> (#[trigger] recipient[i]).well_formed(),
        change.len() == 2,
        512 * (amounts.entries().len() + recipient.len() + 4) <= usize::MAX,
        answers(
            Ok::<Transaction, Error>(transaction),
            outcome_with_values(
                outgoing,
                inscriptions,
                amounts,
                recipient,
                alignment,
                change,
                fee_rate,
                output_value,
                max_inputs,
            ),
        ),
    ensures
        leaves_inscriptions_alone(transaction, inscriptions@, outgoing.outpoint),
{
    values_requests_are_answered_rightly(
        outgoing,
        inscriptions,
        amounts,
        recipient,
        alignment,
        change,
        fee_rate,
        output_value,
        max_inputs,
        Ok::<Transaction, Error>(transaction),
    );
    let request = Request {
        outgoing,
        inscriptions: inscriptions@,
        amounts: amounts@,
        recipient: recipient,
        alignment,
        change,
        fee_rate,
        max_inputs,
        target: Seq::new(output_value.len(), |i: int| Target::Value(output_value[i])),
        target_postage: Amount(0),
        max_postage: Amount(0),
    };
    met_requests_leave_other_inscriptions_alone(request, transaction);
}

/// A transaction with a value pays the sats before the outgoing one to the address
/// given for them, or else to the first change address, in its first output.
pub proof fn value_requests_pay_the_alignment_address(
    outgoing: SatPoint,
    inscriptions: SortedMap<SatPoint, InscriptionId>,
    amounts: SortedMap<OutPoint, Amount>,
    recipient: Address,
    alignment: Option<Address>,
    change: Seq<Address>,
    fee_rate: FeeRate,
    max_inputs: Option<usize>,
    output_value: Amount,
    transaction: Transaction,
)
    requires
        inscriptions.well_formed(),
        amounts.well_formed(),
        recipient.well_formed(),
        change.len() == 2,
        512 * (amounts.entries().len() + 5) <= usize::MAX,
        answers(
            Ok::<Transaction, Error>(transaction),
            outcome_with_value(
                outgoing,
                inscriptions,
                amounts,
                recipient,
                alignment,
                change,
                fee_rate,
                max_inputs,
                output_value,
            ),
        ),
        outgoing.offset > 0,
    ensures
        transaction.output@.len() > 0,
        transaction.output@[0].script_pubkey@ == (match alignment {
            Some(address) => address.script(),
            None => change[0].script(),
        }),
        transaction.output@[0].value >= outgoing.offset,
{
    value_requests_are_answered_rightly(
        outgoing,
        inscriptions,
        amounts,
        recipient,
        alignment,
        change,
        fee_rate,
        max_inputs,
        output_value,
        Ok::<Transaction, Error>(transaction),
    );
    let request = Request {
        outgoing,
        inscriptions: inscriptions@,
        amounts: amounts@,
        recipient: seq![recipient],
        alignment,
        change,
        fee_rate,
        max_inputs,
        target: seq![Target::Value(output_value)],
        target_postage: Amount(0),
        max_postage: Amount(0),
    };
    met_requests_pay_the_alignment_address(request, transaction);
}

/// A transaction with several values pays the sats before the outgoing one to the address
/// given for them, or else to the first change address, in its first output.
pub proof fn values_requests_pay_the_alignment_address(
    outgoing: SatPoint,
    inscriptions: SortedMap<SatPoint, InscriptionId>,
    amounts: SortedMap<OutPoint, Amount>,
    recipient: Seq<Address>,
    alignment: Option<Address>,
    change: Seq<Address>,
    fee_rate: FeeRate,
    output_value: Seq<Amount>,
    max_inputs: Option<usize>,
    transaction: Transaction,
)
    requires
        inscriptions.well_formed(),
        amounts.well_formed(),
        forall|i: int| 0 <= i < recipient.len() ==> (#[trigger] recipient[i]).well_formed(),
        change.len() == 2,
        512 * (amounts.entries().len() + recipient.len() + 4) <= usize::MAX,
        answers(
            Ok::<Transaction, Error>(transaction),
            outcome_with_values(
                outgoing,
                inscriptions,
                amounts,
                recipient,
                alignment,
                change,
                fee_rate,
                output_value,
                max_inputs,
            ),
        ),
        outgoing.offset > 0,
    ensures
        transaction.output@.len() > 0,
        transaction.output@[0].script_pubkey@ == (match alignment {
            Some(address) => address.script(),
            None => change[0].script(),
        }),
        transaction.output@[0].value >= outgoing.offset,
{
    values_requests_are_answered_rightly(
        outgoing,
        inscriptions,
        amounts,
        recipient,
        alignment,
        change,
        fee_rate,
        output_value,
        max_inputs,
        Ok::<Transaction, Error>(transaction),
    );
    let request = Request {
        outgoing,
        inscriptions: inscriptions@,
        amounts: amounts@,
        recipient: recipient,
        alignment,
        change,
        fee_rate,
        max_inputs,
        target: Seq::new(output_value.len(), |i: int| Target::Value(output_value[i])),
        target_postage: Amount(0),
        max_postage: Amount(0),
    };
    met_requests_pay_the_alignment_address(request, transaction);
}

/// A transaction with postage pays the recipient at most the maximal postage that was
/// given, but for the fee for one more output; and where it pays change, exactly the
/// target postage that was given.
pub proof fn postage_is_as_requested(
    outgoing: SatPoint,
    inscriptions: SortedMap<SatPoint, InscriptionId>,
    amounts: SortedMap<OutPoint, Amount>,
    recipient: Address,
    alignment: Option<Address>,
    change: Seq<Address>,
    fee_rate: FeeRate,
    max_inputs: Option<usize>,
    target_postage: Amount,
    max_postage: Amount,
    transaction: Transaction,
)
    requires
        inscriptions.well_formed(),
        amounts.well_formed(),
        recipient.well_formed(),
        change.len() == 2,
        512 * (amounts.entries().len() + 5) <= usize::MAX,
        answers(
            Ok::<Transaction, Error>(transaction),
            outcome_with_postage(
                outgoing,
                inscriptions,
                amounts,
                recipient,
                alignment,
                change,
                fee_rate,
                max_inputs,
                target_postage,
                max_postage,
            ),
        ),
    ensures
        ({
            let at: int = if outgoing.offset > 0 { 1 } else { 0 };
            let outputs = transaction.output@;
            &&& at < outputs.len() <= at + 2
            &&& outputs[at].script_pubkey@ == recipient.script()
            &&& dust_of(recipient.script()) <= outputs[at].value <= max_postage.0
                + fee_rate.fee_at(4 * 43)
            &&& outputs.len() == at + 2 ==> {
                &&& outputs[at].value == target_postage.0
                &&& outputs[at + 1].script_pubkey@ == change[1].script()
            }
        }),
{
    postage_requests_are_answered_rightly(
        outgoing,
        inscriptions,
        amounts,
        recipient,
        alignment,
        change,
        fee_rate,
        max_inputs,
        target_postage,
        max_postage,
        Ok::<Transaction, Error>(transaction),
    );
    let request = Request {
        outgoing,
        inscriptions: inscriptions@,
        amounts: amounts@,
        recipient: seq![recipient],
        alignment,
        change,
        fee_rate,
        max_inputs,
        target: seq![Target::Postage],
        target_postage,
        max_postage,
    };
    lemma_one_recipient(request, transaction);
    reveal_with_fuel(Request::aims_at, 2);
}

/// A transaction with a value pays the recipient the value that was given, and no
/// more than is too little for change; and where it pays change, exactly that value.
pub proof fn value_is_as_requested(
    outgoing: SatPoint,
    inscriptions: SortedMap<SatPoint, InscriptionId>,
    amounts: SortedMap<OutPoint, Amount>,
    recipient: Address,
    alignment: Option<Address>,
    change: Seq<Address>,
    fee_rate: FeeRate,
    max_inputs: Option<usize>,
    output_value: Amount,
    transaction: Transaction,
)
    requires
        inscriptions.well_formed(),
        amounts.well_formed(),
        recipient.well_formed(),
        change.len() == 2,
        512 * (amounts.entries().len() + 5) <= usize::MAX,
        answers(
            Ok::<Transaction, Error>(transaction),
            outcome_with_value(
                outgoing,
                inscriptions,
                amounts,
                recipient,
                alignment,
                change,
                fee_rate,
                max_inputs,
                output_value,
            ),
        ),
    ensures
        ({
            let at: int = if outgoing.offset > 0 { 1 } else { 0 };
            let outputs = transaction.output@;
            let dust = if dust_of(change[0].script()) > dust_of(change[1].script()) {
                dust_of(change[0].script())
            } else {
                dust_of(change[1].script())
            };
            &&& at < outputs.len() <= at + 2
            &&& outputs[at].script_pubkey@ == recipient.script()
            &&& output_value.0 <= outputs[at].value <= output_value.0 + dust + fee_rate.fee_at(
                4 * 43,
            )
            &&& outputs.len() == at + 2 ==> {
                &&& outputs[at].value == output_value.0
                &&& outputs[at + 1].script_pubkey@ == change[1].script()
            }
        }),
{
    value_requests_are_answered_rightly(
        outgoing,
        inscriptions,
        amounts,
        recipient,
        alignment,
        change,
        fee_rate,
        max_inputs,
        output_value,
        Ok::<Transaction, Error>(transaction),
    );
    let request = Request {
        outgoing,
        inscriptions: inscriptions@,
        amounts: amounts@,
        recipient: seq![recipient],
        alignment,
        change,
        fee_rate,
        max_inputs,
        target: seq![Target::Value(output_value)],
        target_postage: Amount(0),
        max_postage: Amount(0),
    };
    lemma_one_recipient(request, transaction);
    reveal_with_fuel(Request::aims_at, 2);
}

/// What is paid to one of several recipients that ask for values.
proof fn lemma_recipient_gets_value(request: Request, transaction: Transaction, i: int)
    requires
        request.is_met_by(transaction),
        0 <= i < request.recipient.len(),
        forall|k: int| 0 <= k < request.target.len() ==> #[trigger] request.target[k] is Value,
    ensures
        ({
            let at = request.recipients_from();
            let outputs = transaction.output@;
            let value = request.target[i]->Value_0.0;
            &&& request.recipient.len() <= request.target.len()
            &&& at + request.recipient.len() <= outputs.len() <= at + request.recipient.len() + 1
            &&& outputs[at + i].script_pubkey@ == request.recipient[i].script()
            &&& outputs[at + i].value >= value
            &&& i < request.recipient.len() - 1 ==> outputs[at + i].value == value
            &&& outputs.len() > at + request.recipient.len() && request.recipient.len()
                == request.target.len() ==> outputs[at + i].value == value
        }),
{
    let outputs = transaction.output@;
    let at = request.recipients_from();
    assert(request.target[i] is Value);
    assert(request.pays_recipient(i, outputs[at + i].value));
    assert(outputs[at + i].script_pubkey@ == request.recipient[i].script());
    if outputs.len() > at + request.recipient.len() && request.recipient.len()
        == request.target.len() {
        request.lemma_values_add_up(outputs);
    }
}

/// A transaction with several values pays the recipients in order, each exactly the
/// value that was given for it, but for the last: that one gets no less, and more
/// only where there is no change.
pub proof fn values_are_as_requested(
    outgoing: SatPoint,
    inscriptions: SortedMap<SatPoint, InscriptionId>,
    amounts: SortedMap<OutPoint, Amount>,
    recipient: Seq<Address>,
    alignment: Option<Address>,
    change: Seq<Address>,
    fee_rate: FeeRate,
    output_value: Seq<Amount>,
    max_inputs: Option<usize>,
    transaction: Transaction,
    i: int,
)
    requires
        inscriptions.well_formed(),
        amounts.well_formed(),
        forall|i: int| 0 <= i < recipient.len() ==> (#[trigger] recipient[i]).well_formed(),
        change.len() == 2,
        512 * (amounts.entries().len() + recipient.len() + 4) <= usize::MAX,
        answers(
            Ok::<Transaction, Error>(transaction),
            outcome_with_values(
                outgoing,
                inscriptions,
                amounts,
                recipient,
                alignment,
                change,
                fee_rate,
                output_value,
                max_inputs,
            ),
        ),
        0 <= i < recipient.len(),
    ensures
        ({
            let at: int = if outgoing.offset > 0 { 1 } else { 0 };
            let outputs = transaction.output@;
            &&& recipient.len() <= output_value.len()
            &&& at + recipient.len() <= outputs.len() <= at + recipient.len() + 1
            &&& outputs[at + i].script_pubkey@ == recipient[i].script()
            &&& outputs[at + i].value >= output_value[i].0
            &&& i < recipient.len() - 1 ==> outputs[at + i].value == output_value[i].0
            &&& outputs.len() > at + recipient.len() && recipient.len() == output_value.len()
                ==> outputs[at + i].value == output_value[i].0
        }),
{
    values_requests_are_answered_rightly(
        outgoing,
        inscriptions,
        amounts,
        recipient,
        alignment,
        change,
        fee_rate,
        output_value,
        max_inputs,
        Ok::<Transaction, Error>(transaction),
    );
    let request = Request {
        outgoing,
        inscriptions: inscriptions@,
        amounts: amounts@,
        recipient: recipient,
        alignment,
        change,
        fee_rate,
        max_inputs,
        target: Seq::new(output_value.len(), |i: int| Target::Value(output_value[i])),
        target_postage: Amount(0),
        max_postage: Amount(0),
    };
    lemma_recipient_gets_value(request, transaction, i);
}

/// What the inputs of a transaction with a value hold more than its outputs is the
/// fee at the given rate for the weight of that transaction with a signature in each
/// input.
pub proof fn value_requests_pay_the_fee_of_the_signed_transaction(
    outgoing: SatPoint,
    inscriptions: SortedMap<SatPoint, InscriptionId>,
    amounts: SortedMap<OutPoint, Amount>,
    recipient: Address,
    alignment: Option<Address>,
    change: Seq<Address>,
    fee_rate: FeeRate,
    max_inputs: Option<usize>,
    output_value: Amount,
    transaction: Transaction,
    signed: Transaction,
)
    requires
        inscriptions.well_formed(),
        amounts.well_formed(),
        recipient.well_formed(),
        change.len() == 2,
        512 * (amounts.entries().len() + 5) <= usize::MAX,
        answers(
            Ok::<Transaction, Error>(transaction),
            outcome_with_value(
                outgoing,
                inscriptions,
                amounts,
                recipient,
                alignment,
                change,
                fee_rate,
                max_inputs,
                output_value,
            ),
        ),
        is_signed_version(signed, transaction),
    ensures
        held(amounts@, spent_by(transaction)) - paid(transaction.output@) == fee_rate.fee_at(
            round_to_double(signed.weight_units()),
        ),
{
    value_requests_are_answered_rightly(
        outgoing,
        inscriptions,
        amounts,
        recipient,
        alignment,
        change,
        fee_rate,
        max_inputs,
        output_value,
        Ok::<Transaction, Error>(transaction),
    );
    let request = Request {
        outgoing,
        inscriptions: inscriptions@,
        amounts: amounts@,
        recipient: seq![recipient],
        alignment,
        change,
        fee_rate,
        max_inputs,
        target: seq![Target::Value(output_value)],
        target_postage: Amount(0),
        max_postage: Amount(0),
    };
    met_requests_pay_the_fee_of_the_signed_transaction(request, transaction, signed);
}

/// A request with postage is refused for another inscription only where that is in the
/// output of the outgoing sat and would be sent along: it comes after that sat, or the
/// sats before that one are too few for an output. Where it is not refused, there is
/// no such inscription.
pub proof fn postage_requests_are_refused_only_for_what_goes_along(
    outgoing: SatPoint,
    inscriptions: SortedMap<SatPoint, InscriptionId>,
    amounts: SortedMap<OutPoint, Amount>,
    recipient: Address,
    alignment: Option<Address>,
    change: Seq<Address>,
    fee_rate: FeeRate,
    max_inputs: Option<usize>,
    target_postage: Amount,
    max_postage: Amount,
    built: Result<Transaction, Error>,
)
    requires
        inscriptions.well_formed(),
        amounts.well_formed(),
        recipient.well_formed(),
        change.len() == 2,
        512 * (amounts.entries().len() + 5) <= usize::MAX,
        answers(
            built,
            outcome_with_postage(
                outgoing,
                inscriptions,
                amounts,
                recipient,
                alignment,
                change,
                fee_rate,
                max_inputs,
                target_postage,
                max_postage,
            ),
        ),
    ensures
        built matches Err(
            Error::UtxoContainsAdditionalInscription {
                outgoing_satpoint,
                inscribed_satpoint,
                inscription_id,
            },
        ) ==> {
            &&& outgoing_satpoint == outgoing
            &&& inscriptions@.contains_key(inscribed_satpoint)
            &&& inscriptions@[inscribed_satpoint] == inscription_id
            &&& inscribed_satpoint.outpoint == outgoing.outpoint
            &&& inscribed_satpoint.offset != outgoing.offset
            &&& outgoing.offset < inscribed_satpoint.offset || 0 < outgoing.offset < dust_of(
                change[1].script(),
            )
        },
        built is Ok ==> forall|inscribed: SatPoint| #[trigger]
            inscriptions@.contains_key(inscribed) && inscribed.outpoint == outgoing.outpoint
                && inscribed.offset != outgoing.offset ==> inscribed.offset < outgoing.offset
                && dust_of(change[1].script()) <= outgoing.offset,
{
    postage_requests_are_answered_rightly(
        outgoing,
        inscriptions,
        amounts,
        recipient,
        alignment,
        change,
        fee_rate,
        max_inputs,
        target_postage,
        max_postage,
        built,
    );
    let request = Request {
        outgoing,
        inscriptions: inscriptions@,
        amounts: amounts@,
        recipient: seq![recipient],
        alignment,
        change,
        fee_rate,
        max_inputs,
        target: seq![Target::Postage],
        target_postage,
        max_postage,
    };
    if let Ok(transaction) = built {
        assert(request.is_met_by(transaction));
        assert forall|inscribed: SatPoint| #[trigger]
            inscriptions@.contains_key(inscribed) && inscribed.outpoint == outgoing.outpoint
                && inscribed.offset != outgoing.offset implies inscribed.offset < outgoing.offset
            && dust_of(change[1].script()) <= outgoing.offset by {
            assert(!request.would_go_along(inscribed));
        }
    }
}

/// In a transaction that meets a request, the outgoing sat is the first of the first
/// recipient's output: as many sats come before it in the inputs as in the outputs
/// before that one, and that one holds something.
pub proof fn met_requests_send_the_sat_first(request: Request, transaction: Transaction, k: int)
    requires
        request.is_met_by(transaction),
        0 <= k < transaction.input@.len(),
        transaction.input@[k].previous_output == request.outgoing.outpoint,
    ensures
        ({
            let outputs = transaction.output@;
            let from = request.recipients_from();
            &&& from < outputs.len()
            &&& outputs[from].script_pubkey@ == request.recipient[0].script()
            &&& paid(outputs.take(from)) == held(request.amounts, spent_by(transaction).take(k))
                + request.outgoing.offset
        }),
{
    let spent = spent_by(transaction);
    let outputs = transaction.output@;
    let from = request.recipients_from();
    assert(spent[k] == request.outgoing.outpoint);
    assert(spent.index_of(request.outgoing.outpoint) == k);
    assert(outputs[from + 0].script_pubkey@ == request.recipient[0].script());
    if from == 0 {
        assert(outputs.take(0) =~= Seq::empty());
        assert(spent.take(k).len() == 0) by {
            if spent.take(k).len() > 0 {
                assert(request.lacks_padding(spent.take(k).drop_first()) > 0);
            }
        }
    } else {
        assert(outputs.take(1).drop_last() =~= Seq::empty());
        assert(paid(outputs.take(1).drop_last()) == 0);
        assert(outputs.take(1).last() == outputs[0]);
    }
}

/// No two transactions that meet a request differ in what they spend or pay.
pub proof fn requests_are_met_by_one_transaction(
    request: Request,
    inscriptions: SortedMap<SatPoint, InscriptionId>,
    amounts: SortedMap<OutPoint, Amount>,
    one: Transaction,
    other: Transaction,
)
    requires
        inscriptions.well_formed(),
        amounts.well_formed(),
        request.inscriptions == inscriptions@,
        request.amounts == amounts@,
        request.change.len() == 2,
        forall|i: int|
            0 <= i < request.recipient.len() ==> (#[trigger] request.recipient[i]).well_formed(),
        512 * (amounts.entries().len() + request.recipient.len() + 4) <= usize::MAX,
        forall|i: int|
            0 <= i < request.recipient.len() && i < request.target.len()
                ==> #[trigger] request.target[i] != Target::Value(Amount(0)),
        request.is_met_by(one),
        request.is_met_by(other),
    ensures
        spent_by(one) == spent_by(other),
        one.output@.len() == other.output@.len(),
        forall|i: int|
            0 <= i < one.output@.len() ==> {
                &&& (#[trigger] one.output@[i]).value == other.output@[i].value
                &&& one.output@[i].script_pubkey@ == other.output@[i].script_pubkey@
            },
{
    let draft = begun(
        request.outgoing,
        inscriptions,
        amounts,
        request.recipient,
        request.alignment,
        request.change,
        request.fee_rate,
        request.max_inputs,
        request.target,
        request.target_postage,
        request.max_postage,
    );
    lemma_request_begins(request, inscriptions, amounts);
    assert forall|i: int| 0 <= i < request.recipient.len() implies (
    #[trigger] request.recipient[i]).dust() > 0 by {
        crate::address::lemma_script_length(request.recipient[i]);
    }
    request.lemma_meets(draft, one);
    request.lemma_meets(draft, other);
    let finished = draft.outcome()->Ok_0;
    lemma_spends_what_is_drafted(one, finished);
    lemma_spends_what_is_drafted(other, finished);
    assert forall|i: int| 0 <= i < one.output@.len() implies {
        &&& (#[trigger] one.output@[i]).value == other.output@[i].value
        &&& one.output@[i].script_pubkey@ == other.output@[i].script_pubkey@
    } by {
        assert(other.output@[i].value == finished.outputs[i].1.0);
    }
}

proof fn lemma_spends_what_is_drafted(transaction: Transaction, draft: Draft)
    requires
        transaction.carries_out(draft),
    ensures
        spent_by(transaction) == draft.inputs,
{
    assert forall|i: int| 0 <= i < draft.inputs.len() implies spent_by(transaction)[i]
        == draft.inputs[i] by {
        assert(transaction.input@[i].previous_output == draft.inputs[i]);
    }
    assert(spent_by(transaction) =~= draft.inputs);
}

/// Selecting the outgoing sat is refused for an inscription only where that is in the
/// same output at another sat, and comes after the outgoing one, or the sats before
/// the outgoing one are too few for a change output.
pub proof fn selection_is_refused_only_for_what_goes_along(draft: Draft)
    ensures
        draft.selected() matches Err(
            Error::UtxoContainsAdditionalInscription {
                outgoing_satpoint,
                inscribed_satpoint,
                inscription_id,
            },
        ) ==> {
            &&& outgoing_satpoint == draft.outgoing
            &&& draft.inscriptions.contains((inscribed_satpoint, inscription_id))
            &&& inscribed_satpoint.outpoint == draft.outgoing.outpoint
            &&& inscribed_satpoint.offset != draft.outgoing.offset
            &&& draft.outgoing.offset < inscribed_satpoint.offset || 0 < draft.outgoing.offset
                < dust_of(draft.unused_change_addresses.last().script())
        },
{
    lemma_conflict_is_listed(draft, draft.inscriptions.len() as int);
}

proof fn lemma_conflict_is_listed(draft: Draft, count: int)
    requires
        count <= draft.inscriptions.len(),
    ensures
        draft.last_conflict(count) matches Some(entry) ==> {
            &&& draft.inscriptions.contains(entry)
            &&& draft.conflicts(entry.0)
        },
    decreases count,
{
    if count > 0 {
        lemma_conflict_is_listed(draft, count - 1);
    }
}

/// Where the other inscriptions in the output of the outgoing sat come before it, and
/// there are sats enough before it for a change output, selecting it is not refused
/// for an inscription.
pub proof fn sats_after_other_inscriptions_can_be_selected(draft: Draft)
    requires
        forall|i: int|
            0 <= i < draft.inscriptions.len() && (#[trigger] draft.inscriptions[i]).0.outpoint
                == draft.outgoing.outpoint ==> draft.inscriptions[i].0.offset
                <= draft.outgoing.offset,
        dust_of(draft.unused_change_addresses.last().script()) <= draft.outgoing.offset,
    ensures
        !(draft.selected() matches Err(Error::UtxoContainsAdditionalInscription { .. })),
{
    lemma_conflict_is_listed(draft, draft.inscriptions.len() as int);
    if let Some(entry) = draft.last_conflict(draft.inscriptions.len() as int) {
        let i = draft.inscriptions.index_of(entry);
        assert(draft.inscriptions[i] == entry);
    }
}

/// The sats before the outgoing one in the inputs are those of the inputs before the
/// first that spends its output, and those before it in that output.
pub proof fn sat_offset_counts_the_sats_before(draft: Draft, k: int)
    requires
        0 <= k < draft.inputs.len(),
        draft.inputs[k] == draft.outgoing.outpoint,
        forall|j: int| 0 <= j < k ==> #[trigger] draft.inputs[j] != draft.outgoing.outpoint,
    ensures
        ({
            let sats = held(draft.amounts, draft.inputs.take(k)) + draft.outgoing.offset;
            draft.sat_offset() == if sats <= u64::MAX {
                Ok::<int, Error>(sats)
            } else {
                Err(Error::Broken(crate::error::Invariant::Arithmetic))
            }
        }),
{
    lemma_held_before(draft.amounts, draft.inputs, draft.outgoing.outpoint, k);
}

/// Where no input spends the output of the outgoing sat, there is no counting.
pub proof fn sat_offset_needs_the_sat(draft: Draft)
    requires
        !draft.inputs.contains(draft.outgoing.outpoint),
    ensures
        draft.sat_offset() is Err,
{
}

proof fn lemma_held_before(
    amounts: Map<OutPoint, Amount>,
    inputs: Seq<OutPoint>,
    outpoint: OutPoint,
    k: int,
)
    requires
        0 <= k < inputs.len(),
        inputs[k] == outpoint,
        forall|j: int| 0 <= j < k ==> #[trigger] inputs[j] != outpoint,
    ensures
        crate::model::worth_before(amounts, inputs, outpoint) == held(amounts, inputs.take(k)),
    decreases k,
{
    if k == 0 {
        assert(inputs.take(0) =~= Seq::empty());
    } else {
        let rest = inputs.drop_first();
        assert(inputs[0] != outpoint);
        assert forall|j: int| 0 <= j < k - 1 implies #[trigger] rest[j] != outpoint by {
            assert(rest[j] == inputs[j + 1]);
        }
        lemma_held_before(amounts, rest, outpoint, k - 1);
        crate::fulfilment::lemma_held_of_parts(amounts, seq![inputs[0]], rest.take(k - 1));
        crate::fulfilment::lemma_held_by_one(amounts, inputs[0]);
        assert(inputs.take(k) =~= seq![inputs[0]] + rest.take(k - 1));
    }
}

/// A transaction that has passed the final checks spends the output of the outgoing
/// sat by one input, pays each recipient by one output and each change address by one
/// at most, pays no dust, and pays the fee for itself with a signature in each input.
pub proof fn checked_transactions_are_sound(draft: Draft, transaction: Transaction)
    requires
        draft.checked() is Ok,
        transaction.carries_out(draft),
    ensures
        draft.amounts.contains_key(draft.outgoing.outpoint),
        draft.outgoing.offset < draft.amounts[draft.outgoing.outpoint].0,
        exists|k: int|
            0 <= k < transaction.input@.len() && (
            #[trigger] transaction.input@[k]).previous_output == draft.outgoing.outpoint && forall|
                j: int,
            |
                0 <= j < transaction.input@.len() && j != k ==> (
                #[trigger] transaction.input@[j]).previous_output != draft.outgoing.outpoint,
        forall|i: int|
            0 <= i < draft.recipient.len() ==> times_paid(
                transaction.output@,
                (#[trigger] draft.recipient[i]).script(),
            ) == 1,
        forall|i: int|
            0 <= i < draft.change_addresses.len() ==> times_paid(
                transaction.output@,
                (#[trigger] draft.change_addresses[i]).script(),
            ) <= 1,
        pays_no_dust(transaction.output@),
        held(draft.amounts, spent_by(transaction)) - paid(transaction.output@)
            == draft.fee_rate.fee_at(
            round_to_double(
                weight_once_signed(transaction.input@.len(), scripts_of(transaction.output@)),
            ),
        ),
{
    let outputs = transaction.output@;
    let k = choose|k: int| #[trigger]
        draft.spends_sat(k) && forall|j: int| j != k ==> !draft.spends_sat(j);
    lemma_spends_what_is_drafted(transaction, draft);
    assert(transaction.input@[k].previous_output == draft.inputs[k]);
    assert forall|j: int| 0 <= j < transaction.input@.len() && j != k implies (
    #[trigger] transaction.input@[j]).previous_output != draft.outgoing.outpoint by {
        assert(transaction.input@[j].previous_output == draft.inputs[j]);
        assert(!draft.spends_sat(j));
    }
    assert(crate::fulfilment::pays_alike(outputs, draft.outputs));
    assert forall|i: int| 0 <= i < draft.recipient.len() implies times_paid(
        outputs,
        (#[trigger] draft.recipient[i]).script(),
    ) == 1 by {
        crate::fulfilment::lemma_times_paid(outputs, draft.outputs, draft.recipient[i].script());
    }
    assert forall|i: int| 0 <= i < draft.change_addresses.len() implies times_paid(
        outputs,
        (#[trigger] draft.change_addresses[i]).script(),
    ) <= 1 by {
        crate::fulfilment::lemma_times_paid(
            outputs,
            draft.outputs,
            draft.change_addresses[i].script(),
        );
    }
    assert forall|i: int| 0 <= i < outputs.len() implies (#[trigger] outputs[i]).value >= dust_of(
        outputs[i].script_pubkey@,
    ) by {
        assert(draft.outputs[i].1.0 >= draft.outputs[i].0.dust());
    }
    crate::fulfilment::lemma_held_is_worth(draft.amounts, draft.inputs);
    crate::fulfilment::lemma_paid_is_total(outputs, draft.outputs);
    crate::fulfilment::lemma_size_of_payments(crate::model::payees(draft.outputs));
    assert(scripts_of(outputs) =~= scripts_to(crate::model::payees(draft.outputs)));
}

/// The size that is estimated for so many inputs and for outputs to the given addresses
/// is the weight of any transaction with so many inputs, each with one signature of 64
/// bytes, and with outputs to those addresses.
pub proof fn estimated_weight_is_that_of_the_signed_transaction(
    addresses: Seq<Address>,
    signed: Transaction,
)
    requires
        is_signed_version(signed, signed),
        scripts_of(signed.output@) == scripts_to(addresses),
    ensures
        crate::model::signed_weight(signed.input@.len(), addresses) == signed.weight_units(),
{
    lemma_size_of_signed_inputs(signed.input@);
    lemma_size_of_outputs(signed.output@);
    crate::fulfilment::lemma_size_of_payments(addresses);
    assert(scripts_of(signed.output@).len() == scripts_to(addresses).len());
    if signed.input@.len() > 0 {
        assert(signed.input@[0].witness@.len() > 0);
        assert(signed.has_witness());
    }
}

/// The output in the place of a recipient pays that recipient, and no more than the
/// target allows but for what is too little for change.
pub open spec fn pays_target(draft: Draft, outputs: Seq<TxOut>, i: int) -> bool {
    let output = outputs[draft.padding_outputs + i];
    let fee = draft.fee_rate.fee_at(4 * 43);
    &&& 0 <= draft.padding_outputs + i < outputs.len()
    &&& output.script_pubkey@ == draft.recipient[i].script()
    &&& match draft.target[i] {
        Target::Postage => output.value <= draft.max_postage.0 + fee <= u64::MAX,
        Target::Value(value) => {
            &&& output.value >= value.0
            &&& forall|c: int|
                0 <= c < draft.change_addresses.len() ==> dust_of(
                    (#[trigger] draft.change_addresses[c]).script(),
                ) + fee <= u64::MAX
            &&& exists|c: int|
                0 <= c < draft.change_addresses.len() && output.value - value.0 <= dust_of(
                    (#[trigger] draft.change_addresses[c]).script(),
                ) + fee
        },
    }
}

/// The output is in the place of a recipient, or pays for alignment or change.
pub open spec fn pays_change(draft: Draft, outputs: Seq<TxOut>, i: int) -> bool {
    ||| draft.padding_outputs <= i < draft.padding_outputs + draft.recipient.len()
    ||| draft.alignment matches Some(address) && address.script() == outputs[i].script_pubkey@
    ||| exists|c: int|
        0 <= c < draft.change_addresses.len() && (#[trigger] draft.change_addresses[c]).script()
            == outputs[i].script_pubkey@
}

proof fn lemma_largest_dust(addresses: Seq<Address>)
    ensures
        forall|c: int|
            0 <= c < addresses.len() ==> dust_of((#[trigger] addresses[c]).script())
                <= crate::model::largest_dust(addresses),
        addresses.len() > 0 ==> exists|c: int|
            0 <= c < addresses.len() && dust_of((#[trigger] addresses[c]).script())
                == crate::model::largest_dust(addresses) || crate::model::largest_dust(addresses)
                == 0,
    decreases addresses.len(),
{
    if addresses.len() > 0 {
        let fewer = addresses.drop_last();
        lemma_largest_dust(fewer);
        assert forall|c: int| 0 <= c < addresses.len() implies dust_of(
            (#[trigger] addresses[c]).script(),
        ) <= crate::model::largest_dust(addresses) by {
            if c < fewer.len() {
                assert(fewer[c] == addresses[c]);
            }
        }
        if crate::model::largest_dust(addresses) == crate::model::largest_dust(fewer) {
            if crate::model::largest_dust(fewer) != 0 {
                let c = choose|c: int|
                    0 <= c < fewer.len() && dust_of((#[trigger] fewer[c]).script())
                        == crate::model::largest_dust(fewer) || crate::model::largest_dust(fewer)
                        == 0;
                assert(addresses[c] == fewer[c]);
            } else {
                assert(addresses[0].script() == addresses[0].script());
            }
        } else {
            assert(addresses[addresses.len() - 1] == addresses.last());
        }
    }
}

proof fn lemma_targets_are_paid(draft: Draft, outputs: Seq<TxOut>, from: int)
    requires
        crate::fulfilment::pays_alike(outputs, draft.outputs),
        forall|i: int| 0 <= i < draft.paired() ==> #[trigger] pays_target(draft, outputs, i),
        0 <= from,
    ensures
        draft.broken_target(from) is None,
    decreases draft.paired() - from,
{
    if from < draft.paired() {
        assert(pays_target(draft, outputs, from));
        let at = draft.padding_outputs + from;
        assert(outputs[at].value == draft.outputs[at].1.0);
        lemma_largest_dust(draft.change_addresses);
        lemma_targets_are_paid(draft, outputs, from + 1);
    }
}

/// A transaction passes the final checks if it spends the output of the outgoing sat by
/// one input; if that sat is the first of an output to the first recipient; if it pays
/// each recipient by one output in its place, with what the target allows, each change
/// address by one at most, nobody else, and no dust; and if it pays the fee for itself
/// with a signature in each input.
pub proof fn sound_transactions_pass_the_checks(
    draft: Draft,
    transaction: Transaction,
    k: int,
    at: int,
)
    requires
        transaction.carries_out(draft),
        draft.amounts.contains_key(draft.outgoing.outpoint),
        draft.outgoing.offset < draft.amounts[draft.outgoing.outpoint].0,
        0 <= k < transaction.input@.len(),
        transaction.input@[k].previous_output == draft.outgoing.outpoint,
        forall|j: int|
            0 <= j < transaction.input@.len() && j != k ==> (
            #[trigger] transaction.input@[j]).previous_output != draft.outgoing.outpoint,
        0 <= at < transaction.output@.len(),
        draft.recipient.len() > 0,
        transaction.output@[at].script_pubkey@ == draft.recipient[0].script(),
        transaction.output@[at].value > 0,
        paid(transaction.output@.take(at)) == held(
            draft.amounts,
            spent_by(transaction).take(k),
        ) + draft.outgoing.offset,
        forall|i: int|
            0 <= i < draft.recipient.len() ==> times_paid(
                transaction.output@,
                (#[trigger] draft.recipient[i]).script(),
            ) == 1,
        forall|i: int|
            0 <= i < draft.change_addresses.len() ==> times_paid(
                transaction.output@,
                (#[trigger] draft.change_addresses[i]).script(),
            ) <= 1,
        forall|i: int|
            0 <= i < draft.paired() ==> #[trigger] pays_target(draft, transaction.output@, i),
        forall|i: int|
            0 <= i < transaction.output@.len() ==> #[trigger] pays_change(
                draft,
                transaction.output@,
                i,
            ),
        pays_no_dust(transaction.output@),
        held(draft.amounts, spent_by(transaction)) <= u64::MAX,
        held(draft.amounts, spent_by(transaction)) - paid(transaction.output@)
            == draft.fee_rate.fee_at(
            round_to_double(
                weight_once_signed(transaction.input@.len(), scripts_of(transaction.output@)),
            ),
        ),
    ensures
        draft.checked() == Ok::<Draft, Error>(draft),
{
    let outputs = transaction.output@;
    let script = draft.recipient[0].script();
    lemma_spends_what_is_drafted(transaction, draft);
    assert(crate::fulfilment::pays_alike(outputs, draft.outputs));
    crate::fulfilment::lemma_held_is_worth(draft.amounts, draft.inputs);
    crate::fulfilment::lemma_paid_is_total(outputs, draft.outputs);
    crate::fulfilment::lemma_size_of_payments(crate::model::payees(draft.outputs));
    assert(scripts_of(outputs) =~= scripts_to(crate::model::payees(draft.outputs)));
    lemma_targets_are_paid(draft, outputs, 0);
    lemma_payees_are_paid(draft, outputs);
    assert(draft.sat_spent_once()) by {
        assert(transaction.input@[k].previous_output == draft.inputs[k]);
        assert(draft.spends_sat(k));
        assert forall|j: int| j != k implies !draft.spends_sat(j) by {
            if draft.spends_sat(j) {
                assert(transaction.input@[j].previous_output == draft.inputs[j]);
            }
        }
    }
    assert(total(draft.outputs.take(at)) == paid(outputs.take(at))) by {
        crate::fulfilment::lemma_pays_alike_in_part(outputs, draft.outputs, 0, at);
        assert(outputs.subrange(0, at) =~= outputs.take(at));
        assert(draft.outputs.subrange(0, at) =~= draft.outputs.take(at));
        crate::fulfilment::lemma_paid_is_total(outputs.take(at), draft.outputs.take(at));
    }
    lemma_sat_is_at(draft, at, k);
    assert(outputs[at].script_pubkey@ == draft.outputs[at].0.script());
    assert(crate::model::paid_at_most_once(draft.outputs, draft.recipient[0].script()));
    crate::laws::lemma_first_payment_is(draft.outputs, script, 0, at);
    assert forall|i: int| 0 <= i < draft.outputs.len() implies #[trigger] draft.recognized(i) by {
        assert(pays_change(draft, outputs, i));
        assert(outputs[i].script_pubkey@ == draft.outputs[i].0.script());
    }
    assert(draft.broken_payment() is None);
}

proof fn lemma_payees_are_paid(draft: Draft, outputs: Seq<TxOut>)
    requires
        crate::fulfilment::pays_alike(outputs, draft.outputs),
        forall|i: int|
            0 <= i < draft.recipient.len() ==> times_paid(
                outputs,
                (#[trigger] draft.recipient[i]).script(),
            ) == 1,
        forall|i: int|
            0 <= i < draft.change_addresses.len() ==> times_paid(
                outputs,
                (#[trigger] draft.change_addresses[i]).script(),
            ) <= 1,
        pays_no_dust(outputs),
    ensures
        draft.recipients_paid_once(),
        draft.change_paid_at_most_once(),
        draft.above_dust_limit(),
{
    assert forall|i: int| 0 <= i < draft.recipient.len() implies crate::model::paid(
        draft.outputs,
        (#[trigger] draft.recipient[i]).script(),
    ) && crate::model::paid_at_most_once(draft.outputs, draft.recipient[i].script()) by {
        crate::fulfilment::lemma_times_paid(outputs, draft.outputs, draft.recipient[i].script());
    }
    assert forall|i: int|
        0 <= i < draft.change_addresses.len() implies crate::model::paid_at_most_once(
        draft.outputs,
        (#[trigger] draft.change_addresses[i]).script(),
    ) by {
        crate::fulfilment::lemma_times_paid(
            outputs,
            draft.outputs,
            draft.change_addresses[i].script(),
        );
    }
    assert forall|i: int| 0 <= i < draft.outputs.len() implies (#[trigger] draft.outputs[i]).1.0
        >= draft.outputs[i].0.dust() by {
        assert(outputs[i].value >= dust_of(outputs[i].script_pubkey@));
    }
}

/// The outgoing sat is the first of an output.
proof fn lemma_sat_is_at(draft: Draft, at: int, k: int)
    requires
        0 <= k < draft.inputs.len(),
        draft.inputs[k] == draft.outgoing.outpoint,
        forall|j: int|
            0 <= j < draft.inputs.len() && j != k ==> #[trigger] draft.inputs[j]
                != draft.outgoing.outpoint,
        0 <= at < draft.outputs.len(),
        draft.outputs[at].1.0 > 0,
        total(draft.outputs.take(at)) == held(draft.amounts, draft.inputs.take(k))
            + draft.outgoing.offset,
        total(draft.outputs) <= u64::MAX,
    ensures
        draft.sat_offset() == Ok::<int, Error>(total(draft.outputs.take(at))),
        crate::model::output_at(draft.outputs, total(draft.outputs.take(at)), 0) == Some(at),
        total(draft.outputs.take(at + 1)) <= u64::MAX,
        total(draft.outputs.take(at)) <= u64::MAX,
{
    let sat = total(draft.outputs.take(at));
    let more = draft.outputs.take(at + 1);
    assert(more.drop_last() =~= draft.outputs.take(at));
    assert(more.last() == draft.outputs[at]);
    assert(draft.outputs.take(0) =~= Seq::empty());
    assert(draft.outputs.take(draft.outputs.len() as int) =~= draft.outputs);
    crate::allotment::lemma_total_grows(draft.outputs, at + 1, draft.outputs.len() as int);
    crate::allotment::lemma_total_is_not_negative(draft.outputs.take(at));
    sat_offset_counts_the_sats_before(draft, k);
    crate::laws::lemma_output_at(draft.outputs, sat, 0);
    if let Some(i) = crate::model::output_at(draft.outputs, sat, 0) {
        if i < at {
            crate::allotment::lemma_total_grows(draft.outputs, i + 1, at);
        } else if i > at {
            crate::allotment::lemma_total_grows(draft.outputs, at + 1, i);
        }
    }
}

/// Aligning the outgoing sat spends nothing, and moves the sats before it, if there are
/// any, out of what the recipients hold into an output of their own before them.
pub proof fn aligning_moves_the_sats_before(draft: Draft, sats: int)
    requires
        draft.ready_to_align(),
        draft.sat_offset() == Ok::<int, Error>(sats),
    ensures
        draft.aligned() matches Ok(next) ==> {
            &&& next.inputs == draft.inputs
            &&& next.utxos == draft.utxos
            &&& next.settled()
            &&& total(next.outputs) == total(draft.outputs)
            &&& if sats == 0 {
                next.outputs == draft.outputs
            } else {
                &&& next.outputs.len() == draft.outputs.len() + 1
                &&& next.outputs[0].1.0 == sats
                &&& next.outputs[0].0 == (match draft.alignment {
                    Some(address) => address,
                    None => draft.unused_change_addresses[0],
                })
            }
        },
{
    draft.lemma_aligned();
    if let Ok(next) = draft.aligned() {
        if sats != 0 {
            let rest = draft.funds() - sats;
            crate::model::lemma_worth_before_is_not_negative(
                draft.amounts,
                draft.inputs,
                draft.outgoing.outpoint,
            );
            draft.lemma_shares_fit();
            draft.lemma_total_of_shares(rest);
            assert(draft.outputs.skip(0) =~= draft.outputs);
            let first = seq![next.outputs[0]];
            assert(next.outputs =~= first + draft.shares(rest));
            crate::allotment::lemma_total_of_parts(first, draft.shares(rest));
            assert(first.drop_last() =~= Seq::empty());
            assert(total(first.drop_last()) == 0);
        }
    }
}

/// Stripping what is too much spends nothing and loses nothing: it changes nothing, or
/// moves sats from the last output to a new one for the second change address.
pub proof fn stripping_loses_nothing(draft: Draft)
    requires
        draft.payable(),
    ensures
        draft.stripped() matches Ok(next) ==> {
            let last = draft.outputs.len() - 1;
            &&& next.inputs == draft.inputs
            &&& next.utxos == draft.utxos
            &&& total(next.outputs) == total(draft.outputs)
            &&& next.outputs == draft.outputs || {
                &&& next.outputs.len() == draft.outputs.len() + 1
                &&& next.outputs[last].0 == draft.outputs[last].0
                &&& next.outputs[last].1.0 + next.outputs[last + 1].1.0
                    == draft.outputs[last].1.0
                &&& next.outputs[last + 1].0 == draft.unused_change_addresses[1]
                &&& forall|i: int|
                    0 <= i < last ==> #[trigger] next.outputs[i] == draft.outputs[i]
            }
        },
{
    if let Ok(next) = draft.stripped() {
        if next.outputs != draft.outputs {
            assert(next.outputs.drop_last().drop_last() =~= draft.outputs.drop_last());
            assert(total(next.outputs) == total(next.outputs.drop_last())
                + next.outputs.last().1.0);
            assert(total(next.outputs.drop_last()) == total(
                next.outputs.drop_last().drop_last(),
            ) + next.outputs.drop_last().last().1.0);
        }
    }
}

/// Deducting the fee spends nothing, and takes the fee for the transaction with a
/// signature in each input out of the last output.
pub proof fn deducting_takes_the_fee_out_of_the_last_output(draft: Draft)
    requires
        draft.payable(),
        draft.inputs.len() > 0,
    ensures
        draft.deducted() matches Ok(next) ==> {
            let last = draft.outputs.len() - 1;
            &&& next.inputs == draft.inputs
            &&& next.utxos == draft.utxos
            &&& next.outputs.len() == draft.outputs.len()
            &&& next.outputs[last].0 == draft.outputs[last].0
            &&& next.outputs[last].1.0 + draft.fee_rate.fee_at(
                round_to_double(
                    weight_once_signed(
                        draft.inputs.len(),
                        Seq::new(draft.outputs.len(), |i: int| draft.outputs[i].0.script()),
                    ),
                ),
            ) == draft.outputs[last].1.0
            &&& forall|i: int| 0 <= i < last ==> #[trigger] next.outputs[i] == draft.outputs[i]
        },
{
    crate::fulfilment::lemma_size_of_payments(crate::model::payees(draft.outputs));
    assert(scripts_to(crate::model::payees(draft.outputs)) =~= Seq::new(
        draft.outputs.len(),
        |i: int| draft.outputs[i].0.script(),
    ));
}

} // verus!
