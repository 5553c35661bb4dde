//! What holds of every transaction that is built.

use vstd::prelude::*;

use crate::address::Address;
use crate::allotment::lemma_total_of_parts;
use crate::allotment::lemma_total_of_update;
use crate::allotment::lemma_total_split;
use crate::amount::Amount;
use crate::error::Error;
use crate::fee_rate::FeeRate;
use crate::model::answers;
use crate::model::begun;
use crate::model::outcome_with_value;
use crate::model::outcome_with_values;
use crate::model::total;
use crate::model::worth;
use crate::model::worth_before;
use crate::model::Draft;
use crate::model::Target;
use crate::ordered::ascending;
use crate::ordered::lemma_ascending_keys_are_distinct;
use crate::ordered::lemma_map_holds_only_entries;
use crate::ordered::lemma_new_key_is_one_more_entry;
use crate::ordered::Key;
use crate::ordered::SortedMap;
use crate::outpoint::InscriptionId;
use crate::outpoint::OutPoint;
use crate::outpoint::SatPoint;
use crate::transaction::Transaction;

verus! {

/// What the inputs hold with one more before them.
proof fn lemma_worth_with_first(amounts: Map<OutPoint, Amount>, first: OutPoint, rest: Seq<OutPoint>)
    ensures
        worth(amounts, seq![first] + rest) == amounts[first].0 + worth(amounts, rest),
    decreases rest.len(),
{
    let all = seq![first] + rest;
    if rest.len() == 0 {
        assert(all.drop_last() =~= Seq::empty());
        assert(worth(amounts, all.drop_last()) == 0);
    } else {
        assert(all.drop_last() =~= seq![first] + rest.drop_last());
        lemma_worth_with_first(amounts, first, rest.drop_last());
    }
}

/// What is before an input does not change with what comes after it.
proof fn lemma_worth_before_with_last(
    amounts: Map<OutPoint, Amount>,
    inputs: Seq<OutPoint>,
    last: OutPoint,
    outpoint: OutPoint,
)
    requires
        inputs.contains(outpoint),
    ensures
        worth_before(amounts, inputs.push(last), outpoint) == worth_before(
            amounts,
            inputs,
            outpoint,
        ),
    decreases inputs.len(),
{
    if inputs[0] != outpoint {
        let at = inputs.index_of(outpoint);
        assert(inputs.drop_first()[at - 1] == outpoint);
        assert(inputs.push(last).drop_first() =~= inputs.drop_first().push(last));
        lemma_worth_before_with_last(amounts, inputs.drop_first(), last, outpoint);
    }
}

impl Draft {
    /// The inputs hold what the outputs hold.
    pub open spec fn balanced(self) -> bool {
        worth(self.amounts, self.inputs) == total(self.outputs)
    }

    /// The output with the outgoing sat is spent, no output is spent twice, none
    /// that is spent counts as unspent, no inscription is spent but in the output
    /// with the outgoing sat, and there are no more inputs than allowed.
    pub open spec fn spends_properly(self) -> bool {
        &&& self.sat_in_wallet()
        &&& self.inputs.contains(self.outgoing.outpoint)
        &&& self.inputs.no_duplicates()
        &&& forall|i: int|
            0 <= i < self.inputs.len() ==> !self.utxos.contains(#[trigger] self.inputs[i])
        &&& forall|i: int|
            0 <= i < self.inputs.len() && #[trigger] self.inputs[i] != self.outgoing.outpoint
                ==> !self.inscribed(self.inputs[i])
        &&& self.max_inputs matches Some(max_inputs) ==> self.inputs.len() <= max_inputs
    }

    /// The outgoing sat is the first of the output after the padding, which pays
    /// the first recipient.
    pub open spec fn aligns_sat(self) -> bool {
        &&& 0 <= self.padding_outputs < self.outputs.len()
        &&& self.outputs[self.padding_outputs].0 == self.recipient[0]
        &&& self.sat_offset() == Ok::<int, Error>(
            total(self.outputs.take(self.padding_outputs)),
        )
    }

    /// What a draft has from the alignment of the outgoing sat on.
    pub open spec fn sound(self) -> bool {
        &&& self.settled()
        &&& self.balanced()
        &&& self.spends_properly()
        &&& self.aligns_sat()
    }

    /// Another draft of the same request, from the same wallet.
    pub open spec fn same_origin(self, other: Draft) -> bool {
        &&& self.same_request(other)
        &&& self.amounts == other.amounts
        &&& self.change_addresses == other.change_addresses
        &&& self.fee_rate == other.fee_rate
        &&& self.max_inputs == other.max_inputs
        &&& self.inscriptions == other.inscriptions
        &&& self.outgoing == other.outgoing
        &&& self.alignment == other.alignment
        &&& self.unused_change_addresses == other.unused_change_addresses
        &&& self.target_postage == other.target_postage
        &&& self.max_postage == other.max_postage
    }

    pub proof fn lemma_selected_is_proper(self)
        requires
            self.fresh(),
            self.max_inputs != Some(0usize),
        ensures
            self.selected() matches Ok(draft) ==> {
                &&& draft.spends_properly()
                &&& self.same_origin(draft)
                &&& self.matched() ==> draft.balanced()
            },
    {
        self.lemma_selected();
        if self.selected() is Ok {
            let draft = self.selected()->Ok_0;
            let outpoint = self.outgoing.outpoint;
            crate::ordered::lemma_without(self.utxos, outpoint);
            assert(draft.inputs[0] == outpoint);
            assert(draft.inputs.drop_last() =~= Seq::empty());
            assert(worth(draft.amounts, draft.inputs.drop_last()) == 0);
            assert(draft.outputs.skip(0) =~= draft.outputs);
        }
    }

    pub proof fn lemma_aligned_is_sound(self)
        requires
            self.ready_to_align(),
            self.spends_properly(),
            self.matched() ==> self.balanced(),
        ensures
            self.aligned() matches Ok(draft) ==> draft.sound() && self.same_origin(draft),
    {
        self.lemma_aligned();
        if self.aligned() is Ok {
            let draft = self.aligned()->Ok_0;
            let offset = self.sat_offset()->Ok_0;
            assert(self.outputs.skip(0) =~= self.outputs);
            if offset == 0 {
                assert(self.outputs.take(0) =~= Seq::empty());
            } else {
                let rest = self.funds() - offset;
                let padding = seq![(self.alignment_address(), Amount(offset as u64))];
                self.lemma_shares_fit();
                lemma_total_of_parts(padding, self.shares(rest));
                crate::model::lemma_worth_before_is_not_negative(
                    self.amounts,
                    self.inputs,
                    self.outgoing.outpoint,
                );
                self.lemma_total_of_shares(rest);
                assert(padding.drop_last() =~= Seq::empty());
                assert(total(padding.drop_last()) == 0);
                assert(total(padding) == offset);
                assert(draft.outputs.take(1) =~= padding);
                assert(draft.outputs.skip(1) =~= self.shares(rest));
                assert(draft.outputs[1] == self.shares(rest)[0]);
            }
        }
    }

    /// Another input that is not yet spent and holds no inscription.
    proof fn lemma_spending_a_cardinal_is_proper(self, target: int, prefer_under: bool, next: Draft)
        requires
            self.well_formed(),
            self.spends_properly(),
            self.cardinal(target, prefer_under) matches Ok(utxo) && {
                &&& self.same_origin(next)
                &&& next.utxos == self.take_utxo(utxo).utxos
                &&& next.inputs == seq![utxo] + self.inputs || next.inputs == self.inputs.push(utxo)
            },
        ensures
            next.spends_properly(),
            self.cardinal(target, prefer_under)->Ok_0 != self.outgoing.outpoint,
    {
        let utxo = self.cardinal(target, prefer_under)->Ok_0;
        self.lemma_cardinal_is_unspent(target, prefer_under);
        crate::ordered::lemma_without(self.utxos, utxo);
        assert forall|i: int| 0 <= i < self.inputs.len() implies #[trigger] self.inputs[i]
            != utxo by {
            assert(!self.utxos.contains(self.inputs[i]));
        }
        let at = self.inputs.index_of(self.outgoing.outpoint);
        assert(self.inputs[at] == self.outgoing.outpoint);
        if next.inputs == seq![utxo] + self.inputs {
            assert(next.inputs[at + 1] == self.outgoing.outpoint);
            assert forall|i: int, j: int| 0 <= i < j < next.inputs.len() implies next.inputs[i]
                != next.inputs[j] by {
                assert(next.inputs[j] == self.inputs[j - 1]);
                if i > 0 {
                    assert(next.inputs[i] == self.inputs[i - 1]);
                }
            }
            assert forall|i: int| 0 <= i < next.inputs.len() implies !next.utxos.contains(
                #[trigger] next.inputs[i],
            ) && (next.inputs[i] != next.outgoing.outpoint ==> !next.inscribed(
                next.inputs[i],
            )) by {
                if i > 0 {
                    assert(next.inputs[i] == self.inputs[i - 1]);
                }
            }
        } else {
            assert(next.inputs[at] == self.outgoing.outpoint);
            assert forall|i: int| 0 <= i < next.inputs.len() implies !next.utxos.contains(
                #[trigger] next.inputs[i],
            ) && (next.inputs[i] != next.outgoing.outpoint ==> !next.inscribed(
                next.inputs[i],
            )) by {
                if i < self.inputs.len() {
                    assert(next.inputs[i] == self.inputs[i]);
                }
            }
        }
    }

    pub proof fn lemma_pad_with_is_sound(self, target: int)
        requires
            self.sound(),
            self.padding_outputs == 1,
            self.cardinal(target, true) matches Ok(utxo) && self.outputs[0].1.0
                + self.amounts[utxo].0 <= u64::MAX,
        ensures
            self.pad_with(self.cardinal(target, true)->Ok_0).sound(),
    {
        let utxo = self.cardinal(target, true)->Ok_0;
        let draft = self.pad_with(utxo);
        let new = (self.outputs[0].0, Amount((self.outputs[0].1.0 + self.amounts[utxo].0) as u64));
        self.lemma_cardinal_is_unspent(target, true);
        self.lemma_pad_with(utxo);
        self.lemma_spending_a_cardinal_is_proper(target, true, draft);
        lemma_worth_with_first(self.amounts, utxo, self.inputs);
        lemma_total_of_update(self.outputs, 0, new);
        assert(draft.outputs.take(1) =~= self.outputs.take(1).update(0, new));
        lemma_total_of_update(self.outputs.take(1), 0, new);
        assert(self.outputs.take(1).drop_last() =~= Seq::empty());
        assert(total(self.outputs.take(1).drop_last()) == 0);
        assert(draft.inputs.drop_first() =~= self.inputs);
        assert(draft.inputs[0] == utxo);
    }

    pub proof fn lemma_padded_is_sound(self)
        requires
            self.sound(),
            self.padding_outputs == 1,
        ensures
            self.padded_to_dust_limit() matches Ok(draft) ==> draft.sound() && self.same_origin(
                draft,
            ) && draft.padding_outputs == 1,
        decreases self.utxos.len(),
    {
        let dust_limit = self.unused_change_addresses.last().dust();
        let first = self.outputs[0].1.0;
        if first < dust_limit {
            let target = dust_limit - first;
            self.lemma_cardinal_is_unspent(target, true);
            if let Ok(utxo) = self.cardinal(target, true) {
                if first + self.amounts[utxo].0 <= u64::MAX {
                    self.lemma_pad_with_is_sound(target);
                    self.pad_with(utxo).lemma_padded_is_sound();
                }
            }
        }
    }

    pub proof fn lemma_fund_with_is_sound(self, target: int)
        requires
            self.sound(),
            self.cardinal(target, false) matches Ok(utxo) && self.funds() - self.demand_before(
                self.current_output,
            ) + self.amounts[utxo].0 <= u64::MAX,
        ensures
            self.fund_with(self.cardinal(target, false)->Ok_0).sound(),
    {
        let utxo = self.cardinal(target, false)->Ok_0;
        let draft = self.fund_with(utxo);
        let pad = self.padding_outputs;
        self.lemma_cardinal_is_unspent(target, false);
        self.lemma_fund_with(utxo);
        self.lemma_spending_a_cardinal_is_proper(target, false, draft);
        lemma_total_split(self.outputs, pad);
        lemma_total_split(draft.outputs, pad);
        assert(draft.outputs.take(pad) =~= self.outputs.take(pad));
        assert(draft.inputs.drop_last() =~= self.inputs);
        lemma_worth_before_with_last(self.amounts, self.inputs, utxo, self.outgoing.outpoint);
        assert(draft.outputs[pad] == draft.outputs.skip(pad)[0]);
    }

    pub proof fn lemma_funded_is_sound(self, deficit: int)
        requires
            self.sound(),
        ensures
            self.funded_for(deficit) matches Ok(draft) ==> draft.sound() && self.same_origin(draft)
                && draft.padding_outputs == self.padding_outputs,
        decreases self.utxos.len(),
    {
        let needed = deficit + self.input_fee();
        if deficit > 0 && needed <= u64::MAX {
            self.lemma_cardinal_is_unspent(needed, false);
            if let Ok(utxo) = self.cardinal(needed, false) {
                let value = self.amounts[utxo].0;
                let existing = self.funds() - self.demand_before(self.current_output);
                if value >= self.input_fee() && existing + value <= u64::MAX {
                    self.lemma_fund_with_is_sound(needed);
                    self.fund_with(utxo).lemma_funded_is_sound(deficit - (value - self.input_fee()));
                }
            }
        }
    }

    /// The outputs pay the recipients in order, after at most one output that
    /// aligns the outgoing sat, and before at most one change output.
    pub open spec fn pays_in_order(self) -> bool {
        let pad = self.padding_outputs;
        let end = pad + self.recipient.len();
        &&& 0 <= pad <= 1
        &&& end <= self.outputs.len() <= end + 1
        &&& pad == 1 ==> self.outputs[0].0 == self.alignment_address()
        &&& forall|i: int|
            0 <= i < self.recipient.len() ==> (#[trigger] self.outputs[pad + i]).0
                == self.recipient[i]
        &&& end < self.outputs.len() ==> self.outputs[end].0 == self.unused_change_addresses[1]
    }

    /// The recipients together get exactly what the targets aim at.
    pub open spec fn meets_targets(self) -> bool {
        let end = self.padding_outputs + self.recipient.len();
        total(self.outputs.take(end)) - total(self.outputs.take(self.padding_outputs))
            == self.aimed(self.target.len() as int)
    }

    pub proof fn lemma_aligned_pays_in_order(self)
        requires
            self.ready_to_align(),
        ensures
            self.aligned() matches Ok(draft) ==> {
                draft.padding_outputs == 1 ==> draft.outputs[0].0 == draft.alignment_address()
            },
    {
    }

    proof fn lemma_padding_keeps_address(self)
        requires
            self.settled(),
            self.padding_outputs == 1,
        ensures
            self.padded_to_dust_limit() matches Ok(draft) ==> draft.outputs[0].0
                == self.outputs[0].0,
        decreases self.utxos.len(),
    {
        let dust_limit = self.unused_change_addresses.last().dust();
        let first = self.outputs[0].1.0;
        if first < dust_limit {
            let target = dust_limit - first;
            self.lemma_cardinal_is_unspent(target, true);
            if let Ok(utxo) = self.cardinal(target, true) {
                if first + self.amounts[utxo].0 <= u64::MAX {
                    self.lemma_pad_with(utxo);
                    self.pad_with(utxo).lemma_padding_keeps_address();
                }
            }
        }
    }

    proof fn lemma_funding_keeps_padding(self, deficit: int)
        requires
            self.settled(),
        ensures
            self.funded_for(deficit) matches Ok(draft) ==> {
                self.padding_outputs == 1 ==> draft.outputs[0] == self.outputs[0]
            },
        decreases self.utxos.len(),
    {
        let needed = deficit + self.input_fee();
        if deficit > 0 && needed <= u64::MAX {
            self.lemma_cardinal_is_unspent(needed, false);
            if let Ok(utxo) = self.cardinal(needed, false) {
                let value = self.amounts[utxo].0;
                let existing = self.funds() - self.demand_before(self.current_output);
                if value >= self.input_fee() && existing + value <= u64::MAX {
                    self.lemma_fund_with(utxo);
                    self.fund_with(utxo).lemma_funding_keeps_padding(
                        deficit - (value - self.input_fee()),
                    );
                }
            }
        }
    }

    pub proof fn lemma_settled_pays_in_order(self)
        requires
            self.settled(),
            self.padding_outputs == 1 ==> self.outputs[0].0 == self.alignment_address(),
        ensures
            self.pays_in_order(),
            self.outputs.len() == self.padding_outputs + self.recipient.len(),
    {
        let pad = self.padding_outputs;
        assert forall|i: int| 0 <= i < self.recipient.len() implies (#[trigger] self.outputs[pad
            + i]).0 == self.recipient[i] by {
            assert(self.outputs[pad + i] == self.outputs.skip(pad)[i]);
        }
    }

    /// No recipient but the last gets more than it is to be sent.
    pub open spec fn favours_none_but_the_last(self) -> bool {
        forall|i: int|
            0 <= i < self.recipient.len() - 1 ==> (#[trigger] self.outputs[self.padding_outputs
                + i]).1.0 <= self.demand(i)
    }

    pub proof fn lemma_settled_favours_none(self)
        requires
            self.settled(),
        ensures
            self.favours_none_but_the_last(),
    {
        let pad = self.padding_outputs;
        self.lemma_shares_fit();
        assert forall|i: int| 0 <= i < self.recipient.len() - 1 implies (
        #[trigger] self.outputs[pad + i]).1.0 <= self.demand(i) by {
            assert(self.outputs[pad + i] == self.outputs.skip(pad)[i]);
            assert(0 <= self.share(self.funds(), i) <= u64::MAX);
        }
    }

    pub proof fn lemma_stripped_is_sound(self)
        requires
            self.sound(),
            self.favours_none_but_the_last(),
            self.pays_in_order(),
            self.outputs.len() == self.padding_outputs + self.recipient.len(),
        ensures
            self.stripped() matches Ok(draft) ==> {
                &&& self.same_origin(draft)
                &&& draft.payable()
                &&& draft.balanced()
                &&& draft.spends_properly()
                &&& draft.aligns_sat()
                &&& draft.pays_in_order()
                &&& draft.favours_none_but_the_last()
                &&& draft.outputs.len() > draft.padding_outputs + draft.recipient.len()
                    ==> draft.meets_targets()
            },
    {
        if self.stripped() is Ok && self.stripped()->Ok_0 != self {
            let draft = self.stripped()->Ok_0;
            let offset = self.sat_offset()->Ok_0;
            let aimed = self.aimed(self.target.len() as int);
            let excess = total(self.outputs) - offset - aimed;
            let pad = self.padding_outputs;
            let end = self.outputs.len() as int;
            assert(draft == self.strip(excess));
            assert(draft.outputs.drop_last().drop_last() =~= self.outputs.drop_last());
            assert(draft.outputs.drop_last().last().1.0 == self.outputs.last().1.0 - excess);
            assert(draft.outputs.last().1.0 == excess);
            assert(total(draft.outputs.drop_last()) == total(self.outputs) - excess);
            assert(draft.outputs.take(end) =~= draft.outputs.drop_last());
            assert(draft.outputs.take(pad) =~= self.outputs.take(pad));
            self.lemma_same_aim(draft, self.target.len() as int);
            self.lemma_same_request(draft, 0);
            assert forall|i: int| 0 <= i < draft.recipient.len() implies (
            #[trigger] draft.outputs[pad + i]).0 == draft.recipient[i] by {
                assert(self.outputs[pad + i].0 == self.recipient[i]);
            }
            assert(draft.outputs[pad + 0].0 == draft.recipient[0]);
            assert forall|i: int| 0 <= i < draft.recipient.len() - 1 implies (
            #[trigger] draft.outputs[pad + i]).1.0 <= draft.demand(i) by {
                assert(self.outputs[pad + i].1.0 <= self.demand(i));
            }
        }
    }

    pub proof fn lemma_deducted_is_sound(self)
        requires
            self.payable(),
            self.balanced(),
            self.spends_properly(),
            self.aligns_sat(),
            self.pays_in_order(),
            self.favours_none_but_the_last(),
            self.outputs.len() > self.padding_outputs + self.recipient.len()
                ==> self.meets_targets(),
        ensures
            self.deducted() matches Ok(draft) ==> {
                &&& self.same_origin(draft)
                &&& draft.payable()
                &&& worth(draft.amounts, draft.inputs) - total(draft.outputs) == draft.fee()
                &&& draft.spends_properly()
                &&& draft.aligns_sat()
                &&& draft.pays_in_order()
                &&& draft.favours_none_but_the_last()
                &&& total(draft.outputs) > total(draft.outputs.take(draft.padding_outputs))
                &&& draft.outputs.len() > draft.padding_outputs + draft.recipient.len()
                    ==> draft.meets_targets()
            },
    {
        if self.deducted() is Ok {
            let draft = self.deducted()->Ok_0;
            let pad = self.padding_outputs;
            let end = pad + self.recipient.len();
            let last = self.outputs.len() - 1;
            let new = (self.outputs.last().0, Amount((self.outputs.last().1.0 - self.fee()) as u64));
            assert(crate::model::payees(draft.outputs) =~= crate::model::payees(self.outputs));
            assert(draft.outputs =~= self.outputs.update(last, new));
            lemma_total_of_update(self.outputs, last, new);
            assert(draft.outputs.take(pad) =~= self.outputs.take(pad));
            if end <= last {
                assert(draft.outputs.take(end) =~= self.outputs.take(end));
            }
            self.lemma_same_aim(draft, self.target.len() as int);
            self.lemma_same_request(draft, 0);
            assert forall|i: int| 0 <= i < draft.recipient.len() implies (
            #[trigger] draft.outputs[pad + i]).0 == draft.recipient[i] by {
                assert(self.outputs[pad + i].0 == self.recipient[i]);
            }
            assert forall|i: int| 0 <= i < draft.recipient.len() - 1 implies (
            #[trigger] draft.outputs[pad + i]).1.0 <= draft.demand(i) by {
                assert(self.outputs[pad + i].1.0 <= self.demand(i));
            }
        }
    }

    pub proof fn lemma_assembled(self)
        requires
            self.fresh(),
            self.max_inputs != Some(0usize),
        ensures
            self.assembled() matches Ok(draft) ==> {
                &&& self.same_origin(draft)
                &&& draft.payable()
                &&& worth(draft.amounts, draft.inputs) - total(draft.outputs) == draft.fee()
                &&& draft.spends_properly()
                &&& draft.aligns_sat()
                &&& draft.pays_in_order()
                &&& draft.favours_none_but_the_last()
                &&& draft.padding_outputs == if self.outgoing.offset == 0 {
                    0int
                } else {
                    1
                }
                &&& total(draft.outputs) > total(draft.outputs.take(draft.padding_outputs))
                &&& draft.outputs.len() > draft.padding_outputs + draft.recipient.len()
                    ==> draft.meets_targets()
            },
    {
        if self.assembled() is Ok {
            let selected = self.selected()->Ok_0;
            let aligned = selected.aligned()->Ok_0;
            let padded = aligned.padded()->Ok_0;
            let funded = padded.funded()->Ok_0;
            let stripped = funded.stripped()->Ok_0;
            self.lemma_selected();
            self.lemma_selected_is_proper();
            assert(selected.inputs[0] == self.outgoing.outpoint);
            assert(selected.sat_offset() == Ok::<int, Error>(self.outgoing.offset as int));
            selected.lemma_aligned();
            selected.lemma_aligned_is_sound();
            selected.lemma_aligned_pays_in_order();
            if aligned.outputs[0].0 != aligned.recipient[0] {
                aligned.lemma_padded_is_sound();
                aligned.lemma_padding_keeps_address();
            }
            let deficit = padded.demand_before(padded.paired()) + padded.fee() - padded.funds();
            padded.lemma_funded_is_sound(deficit);
            padded.lemma_funding_keeps_padding(deficit);
            funded.lemma_settled_pays_in_order();
            funded.lemma_settled_favours_none();
            funded.lemma_stripped_is_sound();
            stripped.lemma_deducted_is_sound();
        }
    }
}

/// The fee that is paid, which is what the inputs hold more than the outputs, is
/// the fee at the given rate for the signed transaction.
pub proof fn fee_is_paid_exactly(request: Draft)
    requires
        request.fresh(),
        request.refusal() is None,
    ensures
        request.assembled() matches Ok(draft) ==> worth(draft.amounts, draft.inputs) - total(
            draft.outputs,
        ) == request.fee_rate.fee_at(draft.vbytes()),
{
    request.lemma_assembled();
}

/// The output with the outgoing sat is spent, once; no output is spent twice; of
/// the other inputs none holds an inscription; and there are no more inputs than
/// allowed.
pub proof fn only_the_outgoing_sat_and_cardinals_are_spent(request: Draft)
    requires
        request.fresh(),
        request.refusal() is None,
    ensures
        request.assembled() matches Ok(draft) ==> {
            &&& draft.inputs.contains(request.outgoing.outpoint)
            &&& draft.inputs.no_duplicates()
            &&& forall|i: int|
                0 <= i < draft.inputs.len() ==> request.amounts.contains_key(
                    #[trigger] draft.inputs[i],
                )
            &&& forall|i: int|
                0 <= i < draft.inputs.len() && #[trigger] draft.inputs[i]
                    != request.outgoing.outpoint ==> !request.inscribed(draft.inputs[i])
            &&& request.max_inputs matches Some(max_inputs) ==> draft.inputs.len() <= max_inputs
        },
{
    request.lemma_assembled();
    if let Ok(draft) = request.assembled() {
        assert forall|i: int|
            0 <= i < draft.inputs.len() && #[trigger] draft.inputs[i]
                != request.outgoing.outpoint implies !request.inscribed(draft.inputs[i]) by {
            assert(!draft.inscribed(draft.inputs[i]));
        }
    }
}

pub proof fn lemma_no_conflict(draft: Draft, count: int)
    requires
        0 <= count <= draft.inscriptions.len(),
        draft.last_conflict(count) is None,
    ensures
        forall|i: int| 0 <= i < count ==> !draft.conflicts((#[trigger] draft.inscriptions[i]).0),
    decreases count,
{
    if count > 0 {
        lemma_no_conflict(draft, count - 1);
    }
}

/// No inscription is sent along with the outgoing sat: where another is in the
/// same output of the wallet, it comes before that sat, and so many sats come
/// before that sat that they need no padding.
pub proof fn no_other_inscription_is_sent_along(request: Draft, i: int)
    requires
        request.assembled() is Ok,
        0 <= i < request.inscriptions.len(),
        request.inscriptions[i].0.outpoint == request.outgoing.outpoint,
        request.inscriptions[i].0.offset != request.outgoing.offset,
    ensures
        request.inscriptions[i].0.offset < request.outgoing.offset,
        request.unused_change_addresses.last().dust() <= request.outgoing.offset,
{
    lemma_no_conflict(request, request.inscriptions.len() as int);
    assert(!request.conflicts(request.inscriptions[i].0));
}

/// The outputs pay the recipients in order, before at most one change output. An
/// output for the sats before the outgoing one comes first, just where the outgoing
/// sat is not the first in its output of the wallet.
pub proof fn outputs_are_in_order(request: Draft)
    requires
        request.fresh(),
        request.refusal() is None,
    ensures
        request.assembled() matches Ok(draft) ==> {
            &&& draft.pays_in_order()
            &&& request.same_origin(draft)
            &&& draft.padding_outputs == 1 <==> request.outgoing.offset > 0
        },
{
    request.lemma_assembled();
}

/// Where there is a change output, the recipients together get exactly what the
/// targets aim at; a single recipient gets exactly the value asked for, or the
/// target postage.
pub proof fn change_leaves_exactly_the_targets(request: Draft)
    requires
        request.fresh(),
        request.refusal() is None,
    ensures
        request.assembled() matches Ok(draft) ==> {
            draft.outputs.len() > draft.padding_outputs + request.recipient.len() ==> {
                &&& draft.meets_targets()
                &&& request.recipient.len() == 1 && request.target.len() == 1
                    ==> draft.outputs[draft.padding_outputs].1 == (match request.target[0] {
                    Target::Postage => request.target_postage,
                    Target::Value(value) => value,
                })
            }
        },
{
    request.lemma_assembled();
    if let Ok(draft) = request.assembled() {
        let pad = draft.padding_outputs;
        if request.recipient.len() == 1 && draft.outputs.len() > pad + 1 {
            assert(draft.outputs.take(pad + 1).drop_last() =~= draft.outputs.take(pad));
            assert(draft.outputs.take(pad + 1).last() == draft.outputs[pad]);
            reveal_with_fuel(Draft::aimed, 2);
        }
    }
}

pub proof fn lemma_output_at(
    outputs: Seq<(Address, Amount)>,
    sat: int,
    from: int,
)
    requires
        0 <= from <= outputs.len(),
        total(outputs.take(from)) <= sat,
    ensures
        match crate::model::output_at(outputs, sat, from) {
            Some(i) => from <= i < outputs.len() && total(outputs.take(i)) <= sat < total(
                outputs.take(i + 1),
            ),
            None => total(outputs) <= sat,
        },
    decreases outputs.len() - from,
{
    if from < outputs.len() {
        if total(outputs.take(from + 1)) <= sat {
            lemma_output_at(outputs, sat, from + 1);
        }
    } else {
        assert(outputs.take(from) =~= outputs);
    }
}

pub proof fn lemma_first_payment_is(
    outputs: Seq<(Address, Amount)>,
    script: Seq<u8>,
    from: int,
    at: int,
)
    requires
        0 <= from <= at < outputs.len(),
        outputs[at].0.script() == script,
        crate::model::paid_at_most_once(outputs, script),
    ensures
        crate::model::first_payment(outputs, script, from) == at,
    decreases at - from,
{
    if from < at {
        assert(outputs[from].0.script() != script);
        lemma_first_payment_is(outputs, script, from + 1, at);
    }
}

/// In a finished transaction the outgoing sat is the first sat of the output to
/// the first recipient.
pub proof fn outgoing_sat_is_first_of_first_recipient(request: Draft)
    requires
        request.fresh(),
    ensures
        request.outcome() matches Ok(draft) ==> {
            let pad = draft.padding_outputs;
            &&& draft.outputs[pad].0 == request.recipient[0]
            &&& draft.sat_offset() == Ok::<int, Error>(
                total(draft.outputs.take(pad)),
            )
            &&& draft.outputs[pad].1.0 > 0
        },
{
    if let Ok(draft) = request.outcome() {
        request.lemma_assembled();
        let pad = draft.padding_outputs;
        let offset = draft.sat_offset()->Ok_0;
        let script = draft.recipient[0].script();
        let i = crate::model::output_at(draft.outputs, offset, 0)->Some_0;
        assert(draft.outputs.take(0) =~= Seq::empty());
        crate::allotment::lemma_total_is_not_negative(draft.outputs.take(pad));
        lemma_output_at(draft.outputs, offset, 0);
        assert(crate::model::paid_at_most_once(draft.outputs, draft.recipient[0].script()));
        assert(draft.outputs[pad].0.script() == script);
        assert(draft.outputs[i].0.script() == script);
        assert(i == pad);
        assert(draft.outputs.take(pad + 1).drop_last() =~= draft.outputs.take(pad));
        assert(draft.outputs.take(pad + 1).last() == draft.outputs[pad]);
    }
}

pub proof fn lemma_target_is_met(draft: Draft, from: int, i: int)
    requires
        0 <= from <= i < draft.paired(),
        draft.broken_target(from) is None,
    ensures
        ({
            let held = draft.outputs[draft.padding_outputs + i].1.0;
            match draft.target[i] {
                Target::Postage => held <= draft.max_postage.0 + draft.output_fee() <= u64::MAX,
                Target::Value(value) => {
                    let slack = crate::model::largest_dust(draft.change_addresses)
                        + draft.output_fee();
                    value.0 <= held <= value.0 + slack && slack <= u64::MAX
                },
            }
        }),
    decreases i - from,
{
    if from < i {
        lemma_target_is_met(draft, from + 1, i);
    }
}

/// In a finished transaction the output of a recipient holds at most the maximal
/// postage, or the value asked for, but for what is not worth a change output:
/// the fee for one, and for a value its dust limit too. Only the last recipient
/// can get more than it is to be sent: each of the others gets exactly the value
/// asked for, or for postage its dust limit.
pub proof fn recipients_get_what_they_are_to_get(request: Draft, i: int)
    requires
        request.fresh(),
        0 <= i < request.paired(),
    ensures
        request.outcome() matches Ok(draft) ==> {
            let held = draft.outputs[draft.padding_outputs + i].1.0;
            &&& draft.outputs[draft.padding_outputs + i].0 == request.recipient[i]
            &&& match request.target[i] {
                Target::Postage => held <= request.max_postage.0
                    + request.output_fee(),
                Target::Value(value) => value.0 <= held <= value.0
                    + crate::model::largest_dust(request.change_addresses) + request.output_fee(),
            }
            &&& i < request.recipient.len() - 1 ==> match request.target[i] {
                Target::Postage => held == request.recipient[i].dust(),
                Target::Value(value) => held == value.0,
            }
        },
{
    if let Ok(draft) = request.outcome() {
        request.lemma_assembled();
        lemma_target_is_met(draft, 0, i);
        let output = draft.outputs[draft.padding_outputs + i];
        assert(output.1.0 >= output.0.dust());
        if i < request.recipient.len() - 1 {
            assert(output.1.0 <= draft.demand(i));
        }
    }
}

/// Outputs that hold the values asked for hold together what the targets aim at.
proof fn lemma_exact_values_meet_the_aim(draft: Draft, count: int)
    requires
        0 <= draft.padding_outputs,
        0 <= count <= draft.target.len(),
        draft.padding_outputs + count <= draft.outputs.len(),
        forall|i: int|
            0 <= i < count ==> (#[trigger] draft.target[i] matches Target::Value(
                value,
            ) && draft.outputs[draft.padding_outputs + i].1 == value),
    ensures
        total(draft.outputs.take(draft.padding_outputs + count)) - total(
            draft.outputs.take(draft.padding_outputs),
        ) == draft.aimed(count),
    decreases count,
{
    if count > 0 {
        lemma_exact_values_meet_the_aim(draft, count - 1);
        let held = draft.outputs.take(draft.padding_outputs + count);
        assert(held.drop_last() =~= draft.outputs.take(draft.padding_outputs + count - 1));
        assert(held.last() == draft.outputs[draft.padding_outputs + (count - 1)]);
        assert(draft.target[count - 1] is Value);
    }
}

/// Where values are asked for, and there is a change output, each recipient gets
/// exactly its value.
pub proof fn change_leaves_exactly_the_values(request: Draft, values: Seq<Amount>, i: int)
    requires
        request.fresh(),
        request.target == crate::model::value_targets(values),
        request.recipient.len() == values.len(),
        0 <= i < values.len(),
    ensures
        request.outcome() matches Ok(draft) ==> {
            draft.outputs.len() > draft.padding_outputs + request.recipient.len()
                ==> draft.outputs[draft.padding_outputs + i].1 == values[i]
        },
{
    if let Ok(draft) = request.outcome() {
        request.lemma_assembled();
        let pad = draft.padding_outputs;
        let last = request.recipient.len() - 1;
        if draft.outputs.len() > pad + request.recipient.len() {
            assert forall|k: int| 0 <= k < last implies (
            #[trigger] request.target[k] matches Target::Value(value)
                && draft.outputs[pad + k].1 == value) by {
                recipients_get_what_they_are_to_get(request, k);
            }
            lemma_exact_values_meet_the_aim(draft, last);
            let held = draft.outputs.take(pad + last + 1);
            assert(held.drop_last() =~= draft.outputs.take(pad + last));
            assert(held.last() == draft.outputs[pad + last]);
            assert(draft.target[last] == Target::Value(values[last]));
            if i < last {
                recipients_get_what_they_are_to_get(request, i);
            }
        }
    }
}

/// In a finished transaction each recipient is paid by one output, each change
/// address by one at most, and no output is dust.
pub proof fn outputs_are_clean(request: Draft)
    requires
        request.fresh(),
    ensures
        request.outcome() matches Ok(draft) ==> {
            &&& draft.recipients_paid_once()
            &&& draft.change_paid_at_most_once()
            &&& draft.above_dust_limit()
        },
{
}

proof fn lemma_targets_pay_recipients(draft: Draft, from: int)
    requires
        draft.pays_in_order(),
        0 <= from,
    ensures
        draft.broken_target(from) != Some(crate::error::Invariant::OutputPaysRecipient),
    decreases draft.paired() - from,
{
    if from < draft.paired() {
        assert(draft.outputs[draft.padding_outputs + from].0 == draft.recipient[from]);
        lemma_targets_pay_recipients(draft, from + 1);
    }
}

/// Of the properties that are checked in the end, these hold of every draft that
/// the steps make: the outgoing sat is in the wallet, is spent once, is found in
/// the outputs, and is at the first position of the first recipient's output;
/// the outputs in the recipients' places pay the recipients, and the others are
/// change or alignment; and the fee is as estimated.
pub proof fn these_checks_never_fail(request: Draft)
    requires
        request.fresh(),
        request.refusal() is None,
        request.change_addresses == request.unused_change_addresses,
    ensures
        request.assembled() matches Ok(draft) ==> {
            &&& draft.broken() != Some(crate::error::Invariant::SatIsContainedInUtxos)
            &&& draft.broken() != Some(crate::error::Invariant::InputsSpendSat)
            &&& draft.broken() != Some(crate::error::Invariant::SatIsFoundInOutputs)
            &&& draft.broken() != Some(crate::error::Invariant::SatIsAtFirstPosition)
            &&& draft.broken() != Some(crate::error::Invariant::OutputPaysRecipient)
            &&& draft.broken() != Some(crate::error::Invariant::OutputsAreChangeOrRecipient)
            &&& draft.broken() != Some(crate::error::Invariant::FeeEstimationIsCorrect)
        },
{
    request.lemma_assembled();
    if let Ok(draft) = request.assembled() {
        lemma_sat_is_spent_once(draft);
        lemma_sat_is_in_place(draft);
        lemma_targets_pay_recipients(draft, 0);
        lemma_broken_target_is_of_targets(draft, 0);
        lemma_outputs_are_recognized(draft);
    }
}

pub proof fn lemma_sat_is_spent_once(draft: Draft)
    requires
        draft.spends_properly(),
    ensures
        draft.sat_spent_once(),
{
    let at = draft.inputs.index_of(draft.outgoing.outpoint);
    assert(draft.inputs[at] == draft.outgoing.outpoint);
    assert(draft.spends_sat(at));
    assert forall|j: int| j != at implies !draft.spends_sat(j) by {
        if draft.spends_sat(j) {
            assert(draft.inputs[j] == draft.inputs[at]);
        }
    }
}

/// The outgoing sat is found in the outputs, and where each recipient is paid
/// once, it is the first of the first recipient's output.
pub proof fn lemma_sat_is_in_place(draft: Draft)
    requires
        draft.aligns_sat(),
        draft.recipient.len() > 0,
        total(draft.outputs) > total(draft.outputs.take(draft.padding_outputs)),
    ensures
        draft.sat_offset() matches Ok(offset) && {
            &&& crate::model::output_at(draft.outputs, offset, 0) is Some
            &&& draft.recipients_paid_once() ==> total(
                draft.outputs.take(
                    crate::model::first_payment(draft.outputs, draft.recipient[0].script(), 0),
                ),
            ) == offset
        },
{
    let pad = draft.padding_outputs;
    let offset = draft.sat_offset()->Ok_0;
    let script = draft.recipient[0].script();
    assert(draft.outputs.take(0) =~= Seq::empty());
    crate::allotment::lemma_total_is_not_negative(draft.outputs.take(pad));
    lemma_output_at(draft.outputs, offset, 0);
    if draft.recipients_paid_once() {
        assert(crate::model::paid_at_most_once(draft.outputs, draft.recipient[0].script()));
        lemma_first_payment_is(draft.outputs, script, 0, pad);
    }
}

pub proof fn lemma_outputs_are_recognized(draft: Draft)
    requires
        draft.pays_in_order(),
        draft.change_addresses == draft.unused_change_addresses,
        draft.change_addresses.len() == 2,
    ensures
        forall|i: int| 0 <= i < draft.outputs.len() ==> #[trigger] draft.recognized(i),
{
    let pad = draft.padding_outputs;
    assert forall|i: int| 0 <= i < draft.outputs.len() implies #[trigger] draft.recognized(i) by {
        if i < pad {
            assert(draft.outputs[i].0 == draft.alignment_address());
            if draft.alignment is None {
                assert(draft.change_addresses[0].script() == draft.outputs[i].0.script());
            }
        } else if i >= pad + draft.recipient.len() {
            assert(draft.change_addresses[1].script() == draft.outputs[i].0.script());
        }
    }
}

proof fn lemma_broken_target_is_of_targets(draft: Draft, from: int)
    ensures
        draft.broken_target(from) matches Some(lacking) ==> {
            ||| lacking == crate::error::Invariant::Arithmetic
            ||| lacking == crate::error::Invariant::OutputPaysRecipient
            ||| lacking == crate::error::Invariant::ExcessPostageIsStripped
            ||| lacking == crate::error::Invariant::OutputEqualsTargetValue
        },
    decreases draft.paired() - from,
{
    if 0 <= from < draft.paired() {
        lemma_broken_target_is_of_targets(draft, from + 1);
    }
}

/// The output is one of the first `count` unspent ones, and holds no inscription.
pub open spec fn available(draft: Draft, count: int, utxo: OutPoint) -> bool {
    draft.utxos.take(count).contains(utxo) && !draft.inscribed(utxo)
}

/// `best` is the largest of the outputs that do not hold more than the target,
/// or, where all hold more, the smallest; of those that hold the same, the first
/// in order.
pub open spec fn best_under(draft: Draft, count: int, target: int, best: OutPoint) -> bool {
    let held = draft.amounts[best].0;
    &&& available(draft, count, best)
    &&& forall|utxo: OutPoint| #[trigger]
        available(draft, count, utxo) ==> {
            let other = draft.amounts[utxo].0;
            &&& held <= target && other <= target ==> other <= held
            &&& held > target ==> held <= other
            &&& other == held && utxo != best ==> best.before(utxo)
        }
}

/// `best` is the smallest of the outputs that do not hold less than the target,
/// or, where all hold less, the largest; of those that hold the same, the first
/// in order.
pub open spec fn best_over(draft: Draft, count: int, target: int, best: OutPoint) -> bool {
    let held = draft.amounts[best].0;
    &&& available(draft, count, best)
    &&& forall|utxo: OutPoint| #[trigger]
        available(draft, count, utxo) ==> {
            let other = draft.amounts[utxo].0;
            &&& held >= target && other >= target ==> held <= other
            &&& held < target ==> other <= held
            &&& other == held && utxo != best ==> best.before(utxo)
        }
}

pub proof fn lemma_available(draft: Draft, count: int, utxo: OutPoint)
    requires
        0 < count <= draft.utxos.len(),
    ensures
        available(draft, count, utxo) == (available(draft, count - 1, utxo) || (utxo
            == draft.utxos[count - 1] && !draft.inscribed(utxo))),
{
    let fewer = draft.utxos.take(count - 1);
    let more = draft.utxos.take(count);
    assert(more =~= fewer.push(draft.utxos[count - 1]));
    if fewer.contains(utxo) {
        assert(more[fewer.index_of(utxo)] == utxo);
    }
    if more.contains(utxo) && utxo != draft.utxos[count - 1] {
        assert(fewer[more.index_of(utxo)] == utxo);
    }
    if utxo == draft.utxos[count - 1] {
        assert(more[count - 1] == utxo);
    }
}

/// An output among the first `count` unspent ones comes before the next.
pub proof fn lemma_available_comes_before(draft: Draft, count: int, utxo: OutPoint)
    requires
        ascending(draft.utxos),
        0 <= count < draft.utxos.len(),
        available(draft, count, utxo),
    ensures
        utxo.before(draft.utxos[count]),
{
    let at = draft.utxos.take(count).index_of(utxo);
    assert(draft.utxos[at] == utxo);
    assert(draft.utxos[at].before(draft.utxos[count]));
}

proof fn lemma_choice_under(draft: Draft, count: int, target: int)
    requires
        ascending(draft.utxos),
        0 <= count <= draft.utxos.len(),
        forall|utxo: OutPoint| #[trigger]
            available(draft, draft.utxos.len() as int, utxo) ==> draft.amounts[utxo].0 > 0,
    ensures
        match draft.choice(count, target, true) {
            Some(best) => best_under(draft, count, target, best),
            None => forall|utxo: OutPoint| !#[trigger] available(draft, count, utxo),
        },
    decreases count,
{
    if count > 0 {
        lemma_choice_under(draft, count - 1, target);
        assert forall|utxo: OutPoint| #[trigger]
            available(draft, count, utxo) implies draft.amounts[utxo].0 > 0 && (available(
            draft,
            count - 1,
            utxo,
        ) || utxo == draft.utxos[count - 1]) by {
            lemma_available(draft, count, utxo);
            let at = draft.utxos.take(count).index_of(utxo);
            assert(draft.utxos.take(draft.utxos.len() as int)[at] == utxo);
            assert(available(draft, draft.utxos.len() as int, utxo));
        }
        lemma_available(draft, count, draft.utxos[count - 1]);
        if let Some(best) = draft.choice(count - 1, target, true) {
            lemma_available(draft, count, best);
            lemma_available_comes_before(draft, count - 1, best);
            assert(available(draft, count, best));
        }
    }
}

proof fn lemma_choice_over(draft: Draft, count: int, target: int)
    requires
        ascending(draft.utxos),
        0 <= count <= draft.utxos.len(),
        target > 0,
    ensures
        match draft.choice(count, target, false) {
            Some(best) => best_over(draft, count, target, best) && draft.amounts[best].0 > 0,
            None => forall|utxo: OutPoint| #[trigger]
                available(draft, count, utxo) ==> draft.amounts[utxo].0 == 0,
        },
    decreases count,
{
    if count > 0 {
        lemma_choice_over(draft, count - 1, target);
        assert forall|utxo: OutPoint| #[trigger] available(draft, count, utxo) implies available(
            draft,
            count - 1,
            utxo,
        ) || utxo == draft.utxos[count - 1] by {
            lemma_available(draft, count, utxo);
        }
        lemma_available(draft, count, draft.utxos[count - 1]);
        if let Some(best) = draft.choice(count - 1, target, false) {
            lemma_available(draft, count, best);
            lemma_available_comes_before(draft, count - 1, best);
        }
    }
}

/// Where smaller outputs are preferred, the largest cardinal output that does not
/// hold more than the target is selected, or, where all hold more, the smallest;
/// of those that hold the same, the first in order; none only where there is none.
/// This is of wallets in which no cardinal output
/// is empty.
pub proof fn selection_prefers_largest_under(draft: Draft, target: int)
    requires
        ascending(draft.utxos),
        forall|utxo: OutPoint| #[trigger]
            available(draft, draft.utxos.len() as int, utxo) ==> draft.amounts[utxo].0 > 0,
        draft.max_inputs != Some(draft.inputs.len() as usize),
    ensures
        match draft.cardinal(target, true) {
            Ok(best) => best_under(draft, draft.utxos.len() as int, target, best),
            Err(error) => error == Error::NotEnoughCardinalUtxos && forall|
                utxo: OutPoint,
            | !#[trigger] available(draft, draft.utxos.len() as int, utxo),
        },
{
    lemma_choice_under(draft, draft.utxos.len() as int, target);
}

/// Where bigger outputs are preferred, the smallest cardinal output that does not
/// hold less than the target is selected, or, where all hold less, the largest;
/// of those that hold the same, the first in order; none only where all are empty. This is of targets above zero.
pub proof fn selection_prefers_smallest_over(draft: Draft, target: int)
    requires
        ascending(draft.utxos),
        target > 0,
        draft.max_inputs != Some(draft.inputs.len() as usize),
    ensures
        match draft.cardinal(target, false) {
            Ok(best) => best_over(draft, draft.utxos.len() as int, target, best)
                && draft.amounts[best].0 > 0,
            Err(error) => error == Error::NotEnoughCardinalUtxos && forall|
                utxo: OutPoint,
            | #[trigger]
                available(draft, draft.utxos.len() as int, utxo) ==> draft.amounts[utxo].0 == 0,
        },
{
    lemma_choice_over(draft, draft.utxos.len() as int, target);
}

/// What a draft has is handed out to the recipients in order: each gets what it is to
/// be sent, the value asked for or for postage its dust limit, before the next gets
/// anything, and only the last gets more. So many as are counted have all of it.
pub proof fn funds_are_handed_out_in_order(draft: Draft, i: int, j: int)
    requires
        draft.settled(),
        0 <= i < j < draft.recipient.len(),
    ensures
        ({
            let pad = draft.padding_outputs;
            let sent = draft.outputs[pad + i].1.0;
            let demand = match draft.target[i] {
                Target::Value(value) => value.0 as nat,
                Target::Postage => crate::address::dust_of(draft.recipient[i].script()),
            };
            &&& draft.outputs.len() == pad + draft.recipient.len()
            &&& draft.outputs[pad + i].0 == draft.recipient[i]
            &&& draft.outputs[pad + j].0 == draft.recipient[j]
            &&& sent <= demand
            &&& sent < demand ==> draft.outputs[pad + j].1.0 == 0
            &&& i < draft.current_output <==> sent == demand && forall|k: int|
                0 <= k < i ==> (#[trigger] draft.outputs[pad + k]).1.0 == draft.demand(k)
            &&& draft.current_output < draft.recipient.len()
        }),
{
    let pad = draft.padding_outputs;
    let funds = draft.funds();
    draft.lemma_shares_fit();
    draft.lemma_served(funds);
    assert forall|k: int| 0 <= k < draft.recipient.len() implies (
    #[trigger] draft.outputs[pad + k]).0 == draft.recipient[k] && draft.outputs[pad + k].1.0
        == draft.share(funds, k) by {
        assert(draft.outputs[pad + k] == draft.outputs.skip(pad)[k]);
        assert(0 <= draft.share(funds, k) <= u64::MAX);
    }
    assert(draft.outputs[pad + i].0 == draft.recipient[i]);
    assert(draft.outputs[pad + j].0 == draft.recipient[j]);
    assert(draft.demand(i) > 0);
    draft.lemma_demand_grows(0, i);
    draft.lemma_demand_grows(i + 1, j);
    assert(draft.demand_before(i + 1) == draft.demand_before(i) + draft.demand(i));
    let served = draft.current_output;
    if i < served {
        draft.lemma_demand_grows(i + 1, served);
        assert forall|k: int| 0 <= k < i implies (#[trigger] draft.outputs[pad + k]).1.0
            == draft.demand(k) by {
            assert(draft.demand(k) > 0);
            draft.lemma_demand_grows(0, k);
            draft.lemma_demand_grows(k + 1, served);
            assert(draft.demand_before(k + 1) == draft.demand_before(k) + draft.demand(k));
        }
    } else {
        draft.lemma_demand_grows(served + 1, i + 1);
    }
}

/// Where bigger outputs are preferred, but nothing is wanted, none is selected.
pub proof fn selection_of_nothing_selects_none(draft: Draft)
    requires
        draft.max_inputs != Some(draft.inputs.len() as usize),
    ensures
        draft.cardinal(0, false) == Err::<OutPoint, Error>(Error::NotEnoughCardinalUtxos),
{
    lemma_choice_of_nothing(draft, draft.utxos.len() as int);
}

proof fn lemma_choice_of_nothing(draft: Draft, count: int)
    ensures
        draft.choice(count, 0, false) is None,
    decreases count,
{
    if count > 0 {
        lemma_choice_of_nothing(draft, count - 1);
    }
}

/// When as many inputs are spent as are allowed, none is selected, and the limit is
/// named; before that, the limit has no influence.
pub proof fn selection_keeps_to_the_limit(draft: Draft, target: int, prefer_under: bool)
    requires
        draft.inputs.len() <= usize::MAX,
    ensures
        draft.cardinal(target, prefer_under) matches Err(Error::TooManyInputs(max_inputs))
            <==> draft.max_inputs == Some(draft.inputs.len() as usize),
        draft.cardinal(target, prefer_under) matches Err(Error::TooManyInputs(max_inputs))
            ==> max_inputs == draft.inputs.len(),
{
}

/// A request with one recipient and one value has the same outcome whether it is
/// made as a request with a value or with several values.
pub proof fn one_of_several_values_is_one_value(
    outgoing: SatPoint,
    inscriptions: SortedMap<SatPoint, InscriptionId>,
    amounts: SortedMap<OutPoint, Amount>,
    recipient: Address,
    alignment: Option<Address>,
    change: Seq<Address>,
    fee_rate: FeeRate,
    max_inputs: Option<usize>,
    output_value: Amount,
)
    ensures
        outcome_with_values(
            outgoing,
            inscriptions,
            amounts,
            seq![recipient],
            alignment,
            change,
            fee_rate,
            seq![output_value],
            max_inputs,
        ) == outcome_with_value(
            outgoing,
            inscriptions,
            amounts,
            recipient,
            alignment,
            change,
            fee_rate,
            max_inputs,
            output_value,
        ),
{
    let recipients = seq![recipient];
    let values = seq![output_value];
    reveal_with_fuel(crate::model::first_dust, 2);
    assert(recipients[0] == recipient && values[0] == output_value);
    assert(crate::model::value_targets(values) =~= seq![
        Target::Value(output_value),
    ]);
}

/// A limit to the inputs changes nothing but that a transaction with more inputs is
/// refused: where a request without a limit has a transaction, it has the same one
/// under a limit that its inputs keep to, and is refused under a lower one. Where
/// it has none, it has none under a limit either, for the same reason or for the
/// limit.
pub proof fn a_limit_only_refuses_more_inputs(request: Draft, max_inputs: usize)
    requires
        request.fresh(),
        request.max_inputs is None,
        max_inputs >= 1,
    ensures
        ({
            let limited = (Draft { max_inputs: Some(max_inputs), ..request }).outcome();
            let refused = Err::<Draft, Error>(Error::TooManyInputs(max_inputs));
            match request.outcome() {
                Ok(draft) => if draft.inputs.len() <= max_inputs {
                    &&& limited == Ok::<Draft, Error>(
                        Draft { max_inputs: Some(max_inputs), ..draft },
                    )
                    &&& forall|built: Result<Transaction, Error>| #[trigger]
                        answers(built, request.outcome()) == answers(built, limited)
                } else {
                    limited == refused
                },
                Err(error) => limited == Err::<Draft, Error>(error) || limited == refused,
            }
        }),
{
    request.lemma_limited_outcome(max_inputs);
    let limited = request.limited(max_inputs).outcome();
    if let Ok(draft) = request.outcome() {
        if draft.inputs.len() <= max_inputs {
            assert forall|built: Result<Transaction, Error>| #[trigger]
                answers(built, request.outcome()) == answers(built, limited) by {
                if let Ok(transaction) = built {
                    lemma_carries_out_alike(transaction, draft, limited->Ok_0);
                }
            }
        }
    }
}

/// A transaction carries out any draft with the same inputs and outputs.
proof fn lemma_carries_out_alike(transaction: Transaction, draft: Draft, other: Draft)
    requires
        draft.inputs == other.inputs,
        draft.outputs == other.outputs,
    ensures
        transaction.carries_out(draft) == transaction.carries_out(other),
{
}

/// An output of the wallet that holds an inscription, and is not the one with the
/// outgoing sat, has no influence: with it, a request has the same transaction, or
/// is refused for the same reason, as without it.
pub proof fn an_inscribed_output_has_no_influence(
    outgoing: SatPoint,
    inscriptions: SortedMap<SatPoint, InscriptionId>,
    amounts: SortedMap<OutPoint, Amount>,
    recipient: Seq<Address>,
    alignment: Option<Address>,
    change: Seq<Address>,
    fee_rate: FeeRate,
    max_inputs: Option<usize>,
    target: Seq<Target>,
    target_postage: Amount,
    max_postage: Amount,
    more_inscriptions: SortedMap<SatPoint, InscriptionId>,
    more_amounts: SortedMap<OutPoint, Amount>,
    added: SatPoint,
    inscription_id: InscriptionId,
    amount: Amount,
)
    requires
        inscriptions.well_formed(),
        amounts.well_formed(),
        more_inscriptions.well_formed(),
        more_amounts.well_formed(),
        added.outpoint != outgoing.outpoint,
        !amounts@.contains_key(added.outpoint),
        more_amounts@ == amounts@.insert(added.outpoint, amount),
        !inscriptions@.contains_key(added),
        more_inscriptions@ == inscriptions@.insert(added, inscription_id),
    ensures
        ({
            let without = begun(
                outgoing,
                inscriptions,
                amounts,
                recipient,
                alignment,
                change,
                fee_rate,
                max_inputs,
                target,
                target_postage,
                max_postage,
            ).outcome();
            let with = begun(
                outgoing,
                more_inscriptions,
                more_amounts,
                recipient,
                alignment,
                change,
                fee_rate,
                max_inputs,
                target,
                target_postage,
                max_postage,
            ).outcome();
            &&& match without {
                Ok(draft) => with matches Ok(other) && other.inputs == draft.inputs
                    && other.outputs == draft.outputs,
                Err(error) => with == Err::<Draft, Error>(error),
            }
            &&& forall|built: Result<Transaction, Error>| #[trigger]
                answers(built, without) == answers(built, with)
        }),
{
    let request = begun(
        outgoing,
        inscriptions,
        amounts,
        recipient,
        alignment,
        change,
        fee_rate,
        max_inputs,
        target,
        target_postage,
        max_postage,
    );
    let other = begun(
        outgoing,
        more_inscriptions,
        more_amounts,
        recipient,
        alignment,
        change,
        fee_rate,
        max_inputs,
        target,
        target_postage,
        max_postage,
    );
    let u = added.outpoint;
    let i = lemma_new_key_is_one_more_entry(amounts.entries(), more_amounts.entries(), u, amount);
    let at = lemma_new_key_is_one_more_entry(
        inscriptions.entries(),
        more_inscriptions.entries(),
        added,
        inscription_id,
    );
    lemma_ascending_keys_are_distinct(amounts.keys());
    lemma_ascending_keys_are_distinct(more_amounts.keys());
    assert(other.utxos[i] == u);
    assert(other.utxos.index_of(u) == i);
    assert(other.utxos.remove(i) =~= request.utxos);
    assert forall|outpoint: OutPoint| request.amounts.contains_key(outpoint)
        == #[trigger] request.utxos.contains(outpoint) by {
        lemma_map_holds_only_entries(amounts.entries(), outpoint);
    }
    assert forall|k: int| 0 <= k < request.utxos.len() implies request.amounts.contains_key(
        #[trigger] request.utxos[k],
    ) by {
        assert(request.utxos.contains(request.utxos[k]));
    }
    lemma_one_more_inscription(request, other, at);
    request.lemma_outcome_passes_over(other, u, at);
    assert forall|built: Result<Transaction, Error>| #[trigger]
        answers(built, request.outcome()) == answers(built, other.outcome()) by {
        if let Ok(draft) = request.outcome() {
            if let Ok(transaction) = built {
                lemma_carries_out_alike(transaction, draft, other.outcome()->Ok_0);
            }
        }
    }
}

/// One more inscription inscribes its output, and no other.
proof fn lemma_one_more_inscription(draft: Draft, other: Draft, at: int)
    requires
        0 <= at < other.inscriptions.len(),
        draft.inscriptions == other.inscriptions.remove(at),
    ensures
        other.inscribed(other.inscriptions[at].0.outpoint),
        forall|outpoint: OutPoint|
            outpoint != other.inscriptions[at].0.outpoint ==> #[trigger] draft.inscribed(outpoint)
                == other.inscribed(outpoint),
{
    assert forall|outpoint: OutPoint|
        outpoint != other.inscriptions[at].0.outpoint implies #[trigger] draft.inscribed(outpoint)
        == other.inscribed(outpoint) by {
        if draft.inscribed(outpoint) {
            let i = choose|i: int|
                0 <= i < draft.inscriptions.len() && (#[trigger] draft.inscriptions[i]).0.outpoint
                    == outpoint;
            let j = if i < at { i } else { i + 1 };
            assert(other.inscriptions[j].0.outpoint == outpoint);
        }
        if other.inscribed(outpoint) {
            let j = choose|j: int|
                0 <= j < other.inscriptions.len() && (#[trigger] other.inscriptions[j]).0.outpoint
                    == outpoint;
            let i = if j < at { j } else { j - 1 };
            assert(draft.inscriptions[i].0.outpoint == outpoint);
        }
    }
}

} // verus!
