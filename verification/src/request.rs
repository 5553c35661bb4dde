//! What a request asks for: which transactions meet it, and for what it can be
//! refused.
//!
//! This speaks of the request and of the transaction alone, not of how the one is
//! made into the other.

use vstd::prelude::*;

use crate::address::compact_size;
use crate::address::dust_of;
use crate::address::Address;
use crate::amount::Amount;
use crate::error::Error;
use crate::fee_rate::round_to_double;
use crate::fee_rate::FeeRate;
use crate::model::Target;
use crate::ordered::Key;
use crate::outpoint::InscriptionId;
use crate::outpoint::OutPoint;
use crate::outpoint::SatPoint;
use crate::transaction::Transaction;
use crate::transaction::TxOut;

verus! {

/// A request to send a sat out of a wallet.
pub struct Request {
    pub outgoing: SatPoint,
    pub inscriptions: Map<SatPoint, InscriptionId>,
    pub amounts: Map<OutPoint, Amount>,
    pub recipient: Seq<Address>,
    pub alignment: Option<Address>,
    pub change: Seq<Address>,
    pub fee_rate: FeeRate,
    pub max_inputs: Option<usize>,
    pub target: Seq<Target>,
    pub target_postage: Amount,
    pub max_postage: Amount,
}

/// What outputs of a wallet hold together.
pub open spec fn held(amounts: Map<OutPoint, Amount>, outpoints: Seq<OutPoint>) -> int
    decreases outpoints.len(),
{
    if outpoints.len() == 0 {
        0
    } else {
        held(amounts, outpoints.drop_last()) + amounts[outpoints.last()].0
    }
}

/// What outputs of a transaction hold together.
pub open spec fn paid(outputs: Seq<TxOut>) -> int
    decreases outputs.len(),
{
    if outputs.len() == 0 {
        0
    } else {
        paid(outputs.drop_last()) + outputs.last().value
    }
}

/// The outputs that a transaction spends.
pub open spec fn spent_by(transaction: Transaction) -> Seq<OutPoint> {
    Seq::new(transaction.input@.len(), |i: int| transaction.input@[i].previous_output)
}

/// The scripts that outputs of a transaction pay to.
pub open spec fn scripts_of(outputs: Seq<TxOut>) -> Seq<Seq<u8>> {
    Seq::new(outputs.len(), |i: int| outputs[i].script_pubkey@)
}

/// The scripts that pay to the addresses.
pub open spec fn scripts_to(addresses: Seq<Address>) -> Seq<Seq<u8>> {
    Seq::new(addresses.len(), |i: int| addresses[i].script())
}

/// The size of outputs with the given scripts: each with eight bytes for its value,
/// and the script's length before the script.
pub open spec fn size_of_outputs(scripts: Seq<Seq<u8>>) -> nat
    decreases scripts.len(),
{
    if scripts.len() == 0 {
        0
    } else {
        size_of_outputs(scripts.drop_last()) + 8 + compact_size(scripts.last().len())
            + scripts.last().len()
    }
}

/// The weight of a transaction with so many inputs and with outputs to the given
/// scripts, once each input has a witness of one signature of 64 bytes.
pub open spec fn weight_once_signed(inputs: nat, scripts: Seq<Seq<u8>>) -> nat {
    4 * (4 + compact_size(inputs) + 41 * inputs + compact_size(scripts.len()) + size_of_outputs(
        scripts,
    ) + 4) + 2 + (1 + 1 + 64) * inputs
}

/// The transaction is final at once, can be replaced, and is not signed.
pub open spec fn is_replaceable_and_unsigned(transaction: Transaction) -> bool {
    &&& transaction.version == 1
    &&& transaction.lock_time == 0
    &&& forall|i: int|
        0 <= i < transaction.input@.len() ==> {
            &&& (#[trigger] transaction.input@[i]).sequence == 0xffff_fffd
            &&& transaction.input@[i].script_sig@.len() == 0
            &&& transaction.input@[i].witness@.len() == 0
        }
}

/// The transaction is the other one with a witness of one signature of 64 bytes in
/// each input.
pub open spec fn is_signed_version(signed: Transaction, transaction: Transaction) -> bool {
    &&& signed.output@ == transaction.output@
    &&& signed.input@.len() == transaction.input@.len()
    &&& forall|i: int|
        0 <= i < signed.input@.len() ==> {
            &&& (#[trigger] signed.input@[i]).script_sig@.len() == 0
            &&& signed.input@[i].witness@.len() == 1
            &&& signed.input@[i].witness@[0]@.len() == 64
        }
}

/// No output is dust.
pub open spec fn pays_no_dust(outputs: Seq<TxOut>) -> bool {
    forall|i: int|
        0 <= i < outputs.len() ==> (#[trigger] outputs[i]).value >= dust_of(
            outputs[i].script_pubkey@,
        )
}

/// So many of the outputs have the script.
pub open spec fn times_paid(outputs: Seq<TxOut>, script: Seq<u8>) -> nat
    decreases outputs.len(),
{
    if outputs.len() == 0 {
        0
    } else {
        times_paid(outputs.drop_last(), script) + if outputs.last().script_pubkey@ == script {
            1nat
        } else {
            0nat
        }
    }
}

impl Request {
    /// What a recipient is to get at least, in sats: the value asked for, or for
    /// postage what is not dust.
    pub open spec fn wants(self, i: int) -> int {
        match self.target[i] {
            Target::Value(value) => value.0 as int,
            Target::Postage => dust_of(self.recipient[i].script()) as int,
        }
    }

    /// What the first recipients are to get at least.
    pub open spec fn wants_before(self, count: int) -> int
        decreases count,
    {
        if count <= 0 {
            0
        } else {
            self.wants_before(count - 1) + self.wants(count - 1)
        }
    }

    /// What the first targets aim at: the value asked for, or the target postage.
    pub open spec fn aims_at(self, count: int) -> int
        decreases count,
    {
        if count <= 0 {
            0
        } else {
            self.aims_at(count - 1) + match self.target[count - 1] {
                Target::Value(value) => value.0,
                Target::Postage => self.target_postage.0,
            }
        }
    }

    /// What the first targets allow: the value asked for, or the maximal postage.
    pub open spec fn allows(self, count: int) -> int
        decreases count,
    {
        if count <= 0 {
            0
        } else {
            self.allows(count - 1) + match self.target[count - 1] {
                Target::Value(value) => value.0,
                Target::Postage => self.max_postage.0,
            }
        }
    }

    /// The fee for a transaction with so many inputs and with outputs to the given
    /// scripts.
    pub open spec fn fee(self, inputs: nat, scripts: Seq<Seq<u8>>) -> int {
        self.fee_rate.fee_at(round_to_double(weight_once_signed(inputs, scripts))) as int
    }

    /// The fee for one more input of 58 virtual bytes.
    pub open spec fn fee_of_input(self) -> int {
        self.fee_rate.fee_at(4 * 58) as int
    }

    /// The fee for one more output of 43 virtual bytes.
    pub open spec fn fee_of_output(self) -> int {
        self.fee_rate.fee_at(4 * 43) as int
    }

    /// The least that an output for change is to hold.
    pub open spec fn change_dust(self) -> int {
        dust_of(self.change[1].script()) as int
    }

    /// The number of outputs before that of the first recipient: one where the
    /// outgoing sat has others before it.
    pub open spec fn recipients_from(self) -> int {
        if self.outgoing.offset > 0 {
            1
        } else {
            0
        }
    }

    pub open spec fn recipients_to(self) -> int {
        self.recipients_from() + self.recipient.len()
    }

    /// Where the sats before the outgoing one go: to the address given for them, or
    /// to the first change address.
    pub open spec fn alignment_address(self) -> Address {
        match self.alignment {
            Some(address) => address,
            None => self.change[0],
        }
    }

    pub open spec fn alignment_script(self) -> Seq<u8> {
        self.alignment_address().script()
    }

    /// The scripts of the outputs without change.
    pub open spec fn scripts_before_change(self) -> Seq<Seq<u8>> {
        if self.outgoing.offset > 0 {
            seq![self.alignment_script()] + scripts_to(self.recipient)
        } else {
            scripts_to(self.recipient)
        }
    }

    /// An output of the wallet that holds no inscription, and not the outgoing sat.
    pub open spec fn is_cardinal(self, outpoint: OutPoint) -> bool {
        &&& self.amounts.contains_key(outpoint)
        &&& outpoint != self.outgoing.outpoint
        &&& forall|inscribed: SatPoint| #[trigger]
            self.inscriptions.contains_key(inscribed) ==> inscribed.outpoint != outpoint
    }

    /// A cardinal that is not used yet.
    pub open spec fn is_free(self, outpoint: OutPoint, used: Seq<OutPoint>) -> bool {
        self.is_cardinal(outpoint) && !used.contains(outpoint)
    }

    /// A free cardinal that holds something, but no more than wanted.
    pub open spec fn is_free_within(
        self,
        outpoint: OutPoint,
        used: Seq<OutPoint>,
        wanted: int,
    ) -> bool {
        self.is_free(outpoint, used) && 0 < self.amounts[outpoint].0 <= wanted
    }

    /// No empty free cardinal comes after it in order.
    pub open spec fn follows_empty_ones(self, outpoint: OutPoint, used: Seq<OutPoint>) -> bool {
        forall|empty: OutPoint| #[trigger]
            self.is_free(empty, used) && self.amounts[empty].0 == 0 ==> empty == outpoint
                || empty.before(outpoint)
    }

    /// Of the free cardinals it is the largest that holds something, but no more than
    /// wanted. Where there is no such, it is the smallest of those that follow the
    /// empty ones, or, where none does, the last empty one. Of equal ones it is the
    /// first in order.
    pub open spec fn is_best_under(
        self,
        best: OutPoint,
        used: Seq<OutPoint>,
        wanted: int,
    ) -> bool {
        &&& self.is_free(best, used)
        &&& if exists|other: OutPoint| #[trigger] self.is_free_within(other, used, wanted) {
            &&& self.is_free_within(best, used, wanted)
            &&& forall|other: OutPoint| #[trigger]
                self.is_free_within(other, used, wanted) && other != best ==> {
                    ||| self.amounts[other].0 < self.amounts[best].0
                    ||| self.amounts[other].0 == self.amounts[best].0 && best.before(other)
                }
        } else {
            &&& self.follows_empty_ones(best, used)
            &&& forall|other: OutPoint| #[trigger]
                self.is_free(other, used) && other != best && self.amounts[other].0 > 0
                    && self.follows_empty_ones(other, used) ==> {
                    &&& self.amounts[best].0 > 0
                    &&& {
                        ||| self.amounts[best].0 < self.amounts[other].0
                        ||| self.amounts[other].0 == self.amounts[best].0 && best.before(other)
                    }
                }
        }
    }

    /// Of the free cardinals that hold something it is the smallest that holds no less
    /// than wanted, or, where all hold less, the largest; of equal ones the first in
    /// order.
    pub open spec fn is_best_over(
        self,
        best: OutPoint,
        used: Seq<OutPoint>,
        wanted: int,
    ) -> bool {
        &&& self.is_free(best, used)
        &&& self.amounts[best].0 > 0
        &&& forall|other: OutPoint| #[trigger]
            self.is_free(other, used) ==> {
                let value = self.amounts[best].0;
                let others = self.amounts[other].0;
                &&& value >= wanted ==> others < wanted || value <= others
                &&& value < wanted ==> others <= value
                &&& others == value && other != best ==> best.before(other)
            }
    }

    /// What the sats before the outgoing one lack so that they are not dust, with
    /// the given outputs spent before them.
    pub open spec fn lacks_padding(self, pads: Seq<OutPoint>) -> int {
        if self.outgoing.offset > 0 {
            self.change_dust() - self.outgoing.offset - held(self.amounts, pads)
        } else {
            0
        }
    }

    /// Each output was spent as padding because padding was lacking, and was the
    /// best for it: each of them before those that were there already.
    pub open spec fn pads_are_chosen(self, pads: Seq<OutPoint>) -> bool
        decreases pads.len(),
    {
        pads.len() > 0 ==> {
            let others = pads.drop_first();
            &&& self.pads_are_chosen(others)
            &&& self.lacks_padding(others) > 0
            &&& self.is_best_under(pads[0], others, self.lacks_padding(others))
        }
    }

    /// What is lacking for the recipients and for the fee, with the given outputs
    /// spent before and after that of the outgoing sat.
    pub open spec fn lacks_funds(self, pads: Seq<OutPoint>, funds: Seq<OutPoint>) -> int {
        self.wants_before(self.recipient.len() as int) + self.fee(
            pads.len() + 1,
            self.scripts_before_change(),
        ) + funds.len() * self.fee_of_input() - (self.amounts[self.outgoing.outpoint].0
            - self.outgoing.offset) - held(self.amounts, funds)
    }

    /// Each output was spent because funds were lacking, was the best for it, and is
    /// worth its fee: each of them after those that were there already.
    pub open spec fn funds_are_chosen(self, pads: Seq<OutPoint>, funds: Seq<OutPoint>) -> bool
        decreases funds.len(),
    {
        funds.len() > 0 ==> {
            let others = funds.drop_last();
            &&& self.funds_are_chosen(pads, others)
            &&& self.lacks_funds(pads, others) > 0
            &&& self.is_best_over(
                funds.last(),
                pads + others,
                self.lacks_funds(pads, others) + self.fee_of_input(),
            )
            &&& self.amounts[funds.last()].0 >= self.fee_of_input()
        }
    }

    /// No address is given twice where it must not be, and each recipient has a
    /// target.
    pub open spec fn is_sensible(self) -> bool {
        &&& forall|i: int|
            0 <= i < self.recipient.len() ==> #[trigger] self.recipient[i] != self.change[0]
                && self.recipient[i] != self.change[1]
        &&& self.change[0] != self.change[1]
        &&& 0 < self.recipient.len() <= self.target.len()
    }

    /// The inscription would be sent along with the outgoing sat, or with what pads
    /// the sats before it: it is in the same output, at another sat, and comes after
    /// the outgoing sat, or there are sats before that one, but too few.
    pub open spec fn would_go_along(self, inscribed: SatPoint) -> bool {
        &&& self.inscriptions.contains_key(inscribed)
        &&& inscribed.outpoint == self.outgoing.outpoint
        &&& inscribed.offset != self.outgoing.offset
        &&& self.outgoing.offset < inscribed.offset || 0 < self.outgoing.offset
            < self.change_dust()
    }

    /// The outgoing sat is in the wallet.
    pub open spec fn has_sat(self) -> bool {
        &&& self.amounts.contains_key(self.outgoing.outpoint)
        &&& self.outgoing.offset < self.amounts[self.outgoing.outpoint].0
    }

    /// The output of the outgoing sat is spent, once, and besides it only cardinals,
    /// each once, and no more inputs than allowed.
    pub open spec fn spends_properly(self, spent: Seq<OutPoint>) -> bool {
        &&& spent.contains(self.outgoing.outpoint)
        &&& spent.no_duplicates()
        &&& forall|i: int|
            0 <= i < spent.len() && #[trigger] spent[i] != self.outgoing.outpoint
                ==> self.is_cardinal(spent[i])
        &&& self.max_inputs matches Some(max_inputs) ==> spent.len() <= max_inputs
        &&& held(self.amounts, spent) <= u64::MAX
    }

    /// The outputs pay first the sats before the outgoing one, where there are any,
    /// then the recipients in order, and last perhaps change.
    pub open spec fn pays_in_order(self, outputs: Seq<TxOut>) -> bool {
        let from = self.recipients_from();
        let to = self.recipients_to();
        &&& to <= outputs.len() <= to + 1
        &&& from == 1 ==> outputs[0].script_pubkey@ == self.alignment_script()
        &&& forall|i: int|
            0 <= i < self.recipient.len() ==> (#[trigger] outputs[from + i]).script_pubkey@
                == self.recipient[i].script()
        &&& outputs.len() > to ==> outputs[to].script_pubkey@ == self.change[1].script()
    }

    /// Each recipient is paid once, and each change address at most once.
    pub open spec fn pays_each_once(self, outputs: Seq<TxOut>) -> bool {
        &&& forall|i: int|
            0 <= i < self.recipient.len() ==> times_paid(
                outputs,
                (#[trigger] self.recipient[i]).script(),
            ) == 1
        &&& times_paid(outputs, self.change[0].script()) <= 1
        &&& times_paid(outputs, self.change[1].script()) <= 1
    }

    /// What a recipient gets more than it asked for is too little for change.
    pub open spec fn pays_recipient(self, i: int, value: u64) -> bool {
        match self.target[i] {
            Target::Value(asked) => {
                let slack = self.fee_of_output() + if dust_of(self.change[0].script())
                    > dust_of(self.change[1].script()) {
                    dust_of(self.change[0].script())
                } else {
                    dust_of(self.change[1].script())
                };
                asked.0 <= value <= asked.0 + slack && slack <= u64::MAX
            },
            Target::Postage => value <= self.max_postage.0 + self.fee_of_output()
                && self.max_postage.0 + self.fee_of_output() <= u64::MAX,
        }
    }

    /// Each recipient gets what it is to get, and all but the last no more. Where
    /// there is change, they get together exactly what the targets aim at.
    pub open spec fn pays_amounts(self, outputs: Seq<TxOut>) -> bool {
        let from = self.recipients_from();
        let to = self.recipients_to();
        &&& forall|i: int|
            0 <= i < self.recipient.len() ==> self.pays_recipient(
                i,
                (#[trigger] outputs[from + i]).value,
            )
        &&& forall|i: int|
            0 <= i < self.recipient.len() - 1 ==> (#[trigger] outputs[from + i]).value
                == self.wants(i)
        &&& outputs.len() > to ==> paid(outputs.subrange(from, to)) == self.aims_at(
            self.target.len() as int,
        )
    }

    /// There is a change output just where there is more than the targets allow, and
    /// what is more than they aim at is worth an output: it is not dust after the fee.
    pub open spec fn gives_change_rightly(
        self,
        pads: Seq<OutPoint>,
        spent: Seq<OutPoint>,
        outputs: Seq<TxOut>,
    ) -> bool {
        let available = held(self.amounts, spent) - held(self.amounts, pads)
            - self.outgoing.offset;
        let allowed = self.allows(self.target.len() as int);
        let aim = self.aims_at(self.target.len() as int);
        let size = round_to_double(
            weight_once_signed(spent.len(), self.scripts_before_change()),
        );
        let keep = self.change_dust() + self.fee_rate.fee_at(round_to_double(size + 4 * 43));
        &&& outputs.len() > self.recipients_to() <==> available - self.fee_rate.fee_at(size)
            > allowed && available - aim > keep
        &&& allowed <= u64::MAX
        &&& aim <= u64::MAX
        &&& available - self.fee_rate.fee_at(size) > allowed ==> aim <= available && keep
            <= u64::MAX
    }

    /// What the inputs hold more than the outputs is the fee for the transaction.
    pub open spec fn pays_fee(self, spent: Seq<OutPoint>, outputs: Seq<TxOut>) -> bool {
        held(self.amounts, spent) - paid(outputs) == self.fee(spent.len(), scripts_of(outputs))
    }

    /// The transaction does what the request asks for.
    pub open spec fn is_met_by(self, transaction: Transaction) -> bool {
        let spent = spent_by(transaction);
        let outputs = transaction.output@;
        let at = spent.index_of(self.outgoing.outpoint);
        let pads = spent.take(at);
        let funds = spent.skip(at + 1);
        &&& self.is_sensible()
        &&& self.has_sat()
        &&& forall|inscribed: SatPoint| !#[trigger] self.would_go_along(inscribed)
        &&& is_replaceable_and_unsigned(transaction)
        &&& self.spends_properly(spent)
        &&& self.pads_are_chosen(pads)
        &&& self.lacks_padding(pads) <= 0
        &&& self.funds_are_chosen(pads, funds)
        &&& self.lacks_funds(pads, funds) <= 0
        &&& self.pays_in_order(outputs)
        &&& self.outgoing.offset > 0 ==> outputs[0].value == held(self.amounts, pads)
            + self.outgoing.offset
        &&& self.pays_each_once(outputs)
        &&& self.pays_amounts(outputs)
        &&& self.gives_change_rightly(pads, spent, outputs)
        &&& self.pays_fee(spent, outputs)
        &&& pays_no_dust(outputs)
    }
}

impl Request {
    /// The recipient is a change address as well.
    pub open spec fn is_change_too(self, i: int) -> bool {
        &&& 0 <= i < self.recipient.len()
        &&& self.recipient[i] == self.change[0] || self.recipient[i] == self.change[1]
    }

    /// No recipient is a change address, these are two, and some input is allowed.
    pub open spec fn can_begin(self) -> bool {
        &&& forall|i: int| !#[trigger] self.is_change_too(i)
        &&& self.change[0] != self.change[1]
        &&& self.max_inputs != Some(0usize)
    }

    /// No other inscription would be sent along with the outgoing sat.
    pub open spec fn sends_sat_alone(self) -> bool {
        forall|inscribed: SatPoint| !#[trigger] self.would_go_along(inscribed)
    }

    /// There are as many targets as recipients, at least, and one at least.
    pub open spec fn has_targets(self) -> bool {
        0 < self.recipient.len() <= self.target.len()
    }

    /// The sats before the outgoing one go to the first recipient too, so that they
    /// need no padding.
    pub open spec fn pads_nothing(self) -> bool {
        self.alignment_address() == self.recipient[0]
    }

    /// The chosen outputs are all the padding that is needed.
    pub open spec fn is_padded(self, pads: Seq<OutPoint>) -> bool {
        &&& self.pads_are_chosen(pads)
        &&& if self.pads_nothing() {
            pads.len() == 0
        } else {
            self.lacks_padding(pads) <= 0
        }
    }

    /// With the chosen outputs spent, padding is lacking still.
    pub open spec fn needs_padding(self, pads: Seq<OutPoint>) -> bool {
        &&& self.pads_are_chosen(pads)
        &&& !self.pads_nothing()
        &&& self.lacks_padding(pads) > 0
    }

    /// What the recipients want, and the fee with the padding.
    pub open spec fn wants_with_fee(self, pads: Seq<OutPoint>) -> int {
        self.wants_before(self.recipient.len() as int) + self.fee(
            pads.len() + 1,
            self.scripts_before_change(),
        )
    }

    /// With the chosen outputs spent, funds are lacking still.
    pub open spec fn needs_funds(self, pads: Seq<OutPoint>, funds: Seq<OutPoint>) -> bool {
        &&& self.is_padded(pads)
        &&& self.funds_are_chosen(pads, funds)
        &&& self.lacks_funds(pads, funds) > 0
        &&& self.wants_with_fee(pads) <= u64::MAX
        &&& self.lacks_funds(pads, funds) + self.fee_of_input() <= u64::MAX
    }

    /// With the chosen outputs spent, more is needed than an amount can hold.
    pub open spec fn needs_too_much(self, pads: Seq<OutPoint>, funds: Seq<OutPoint>) -> bool {
        &&& self.is_padded(pads)
        &&& self.funds_are_chosen(pads, funds)
        &&& self.wants_before(self.recipient.len() as int) <= u64::MAX
        &&& if funds.len() == 0 && self.wants_with_fee(pads) > u64::MAX {
            true
        } else {
            &&& self.wants_with_fee(pads) <= u64::MAX
            &&& self.lacks_funds(pads, funds) > 0
            &&& self.lacks_funds(pads, funds) + self.fee_of_input() > u64::MAX
        }
    }

    /// So many inputs are allowed, and no more.
    pub open spec fn allows_no_more_than(self, inputs: nat) -> bool {
        self.max_inputs matches Some(max_inputs) && max_inputs == inputs
    }

    /// What the wallet holds can be counted.
    pub open spec fn wallet_is_countable(self) -> bool {
        forall|outpoints: Seq<OutPoint>|
            outpoints.no_duplicates() && (forall|i: int|
                0 <= i < outpoints.len() ==> self.amounts.contains_key(#[trigger] outpoints[i]))
                ==> #[trigger] held(self.amounts, outpoints) <= u64::MAX
    }

    /// The request is to be refused with the error.
    pub open spec fn has_reason_for(self, error: Error) -> bool {
        match error {
            Error::DuplicateAddress(address) => {
                ||| exists|i: int| #[trigger]
                    self.is_change_too(i) && self.recipient[i] == address && forall|j: int|
                        j < i ==> !#[trigger] self.is_change_too(j)
                ||| self.change[0] == address && self.change[1] == address && forall|i: int|
                    !#[trigger] self.is_change_too(i)
            },
            Error::TooManyInputs(max_inputs) => if max_inputs == 0 {
                &&& self.max_inputs == Some(max_inputs)
                &&& forall|i: int| !#[trigger] self.is_change_too(i)
                &&& self.change[0] != self.change[1]
            } else {
                &&& self.max_inputs == Some(max_inputs)
                &&& self.can_begin()
                &&& self.sends_sat_alone()
                &&& self.has_sat()
                &&& self.has_targets()
                &&& {
                    ||| exists|pads: Seq<OutPoint>| #[trigger]
                        self.needs_padding(pads) && self.allows_no_more_than(pads.len() + 1)
                    ||| exists|pads: Seq<OutPoint>, funds: Seq<OutPoint>| #[trigger]
                        self.needs_funds(pads, funds) && self.allows_no_more_than(
                            pads.len() + 1 + funds.len(),
                        )
                }
            },
            Error::UtxoContainsAdditionalInscription {
                outgoing_satpoint,
                inscribed_satpoint,
                inscription_id,
            } => {
                &&& self.can_begin()
                &&& outgoing_satpoint == self.outgoing
                &&& self.would_go_along(inscribed_satpoint)
                &&& self.inscriptions[inscribed_satpoint] == inscription_id
                &&& forall|other: SatPoint| #[trigger]
                    self.would_go_along(other) ==> other == inscribed_satpoint || other.before(
                        inscribed_satpoint,
                    )
            },
            Error::NotInWallet(satpoint) => {
                &&& self.can_begin()
                &&& self.sends_sat_alone()
                &&& satpoint == self.outgoing
                &&& !self.amounts.contains_key(self.outgoing.outpoint)
            },
            Error::OutOfRange(satpoint, maximum) => {
                &&& self.can_begin()
                &&& self.sends_sat_alone()
                &&& satpoint == self.outgoing
                &&& self.amounts.contains_key(self.outgoing.outpoint)
                &&& maximum + 1 == self.amounts[self.outgoing.outpoint].0 <= self.outgoing.offset
            },
            Error::NotEnoughCardinalUtxos => {
                &&& self.can_begin()
                &&& self.sends_sat_alone()
                &&& self.has_sat()
                &&& self.has_targets()
                &&& {
                    ||| exists|pads: Seq<OutPoint>| #[trigger]
                        self.needs_padding(pads) && !self.allows_no_more_than(pads.len() + 1)
                            && forall|outpoint: OutPoint| !#[trigger] self.is_free(outpoint, pads)
                    ||| exists|pads: Seq<OutPoint>, funds: Seq<OutPoint>| #[trigger]
                        self.needs_funds(pads, funds) && !self.allows_no_more_than(
                            pads.len() + 1 + funds.len(),
                        ) && forall|outpoint: OutPoint| #[trigger]
                            self.is_free(outpoint, pads + funds) ==> self.amounts[outpoint].0 == 0
                                || self.amounts[outpoint].0 < self.fee_of_input()
                }
            },
            Error::ValueOverflow => {
                &&& self.can_begin()
                &&& self.sends_sat_alone()
                &&& self.has_sat()
                &&& self.has_targets()
                &&& exists|pads: Seq<OutPoint>, funds: Seq<OutPoint>| #[trigger]
                    self.needs_too_much(pads, funds)
            },
            Error::Dust { .. } => false,
            Error::MaxPostageLessThanTarget { .. } => false,
            Error::Broken(_) => false,
        }
    }

    /// The request is refused with the error for a reason. That a property is lacking
    /// is a reason only where the outgoing sat can be sent, and, where what the wallet
    /// holds can be counted, only where there is no other reason.
    pub open spec fn is_refused_with(self, error: Error) -> bool {
        match error {
            Error::Broken(_) => {
                &&& self.can_begin()
                &&& self.sends_sat_alone()
                &&& self.amounts.contains_key(self.outgoing.outpoint)
                &&& self.wallet_is_countable() ==> forall|other: Error|
                    !#[trigger] self.has_reason_for(other)
            },
            error => self.has_reason_for(error),
        }
    }
}

} // verus!
