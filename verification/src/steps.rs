//! What the steps of the construction keep.

use vstd::prelude::*;

use crate::model::Draft;

verus! {

impl Draft {
    /// Handing out what the output of the outgoing sat holds makes the draft
    /// ready to align.
    pub proof fn lemma_selected(self)
        requires
            self.fresh(),
        ensures
            self.selected() matches Ok(draft) ==> {
                &&& draft.ready_to_align()
                &&& draft.inputs == seq![self.outgoing.outpoint]
                &&& self.matched() ==> draft.funds() == self.amounts[self.outgoing.outpoint].0
            },
    {
        if self.selected() is Ok {
            let outpoint = self.outgoing.outpoint;
            let amount = self.amounts[outpoint].0 as int;
            let draft = self.selected()->Ok_0;
            assert(draft.inputs =~= seq![outpoint]);
            assert(draft.outputs =~= self.shares(amount));
            crate::ordered::lemma_without(self.utxos, outpoint);
            assert forall|i: int| 0 <= i < draft.utxos.len() implies draft.amounts.contains_key(
                #[trigger] draft.utxos[i],
            ) by {
                assert(draft.utxos.contains(draft.utxos[i]));
                let j = self.utxos.index_of(draft.utxos[i]);
                assert(self.utxos[j] == draft.utxos[i]);
            }
            assert forall|i: int| 0 <= i < draft.paired() implies 0 < #[trigger] draft.demand(i)
                <= u64::MAX by {
                assert(draft.demand(i) == self.demand(i));
            }
            if self.recipient.len() > 0 {
                self.lemma_served(amount);
            }
            assert(draft.well_formed());
            if self.matched() {
                self.lemma_demand_grows(0, self.recipient.len() - 1);
                self.lemma_total_of_shares(amount);
                assert(draft.outputs.skip(0) =~= draft.outputs);
                self.lemma_same_request(draft, amount);
            }
        }
    }

    /// Another draft of the same request.
    pub open spec fn same_request(self, other: Draft) -> bool {
        &&& self.recipient == other.recipient
        &&& self.target == other.target
    }

    /// Drafts of the same request hand out funds alike.
    pub proof fn lemma_same_request(self, other: Draft, funds: int)
        requires
            self.same_request(other),
        ensures
            self.paired() == other.paired(),
            forall|i: int| self.demand(i) == #[trigger] other.demand(i),
            forall|i: int| self.demand_before(i) == #[trigger] other.demand_before(i),
            forall|i: int| self.share(funds, i) == #[trigger] other.share(funds, i),
            self.shares(funds) == other.shares(funds),
            self.served(funds) == other.served(funds),
    {
        assert forall|i: int| self.demand_before(i) == #[trigger] other.demand_before(i) by {
            self.lemma_same_demand(other, i);
        }
        assert(self.shares(funds) =~= other.shares(funds));
        self.lemma_same_served(other, funds, 0);
    }

    proof fn lemma_same_demand(self, other: Draft, i: int)
        requires
            self.same_request(other),
        ensures
            self.demand_before(i) == other.demand_before(i),
        decreases i,
    {
        if i > 0 {
            self.lemma_same_demand(other, i - 1);
        }
    }

    proof fn lemma_same_served(self, other: Draft, funds: int, from: int)
        requires
            self.same_request(other),
        ensures
            self.served_from(funds, from) == other.served_from(funds, from),
        decreases self.paired() - from,
    {
        self.lemma_same_demand(other, from + 1);
        if from < self.paired() {
            self.lemma_same_served(other, funds, from + 1);
        }
    }

    /// Aligning the outgoing sat settles the draft.
    pub proof fn lemma_aligned(self)
        requires
            self.ready_to_align(),
        ensures
            self.aligned() matches Ok(draft) ==> {
                &&& draft.settled()
                &&& self.settled()
                &&& draft.outputs[0].0 != self.recipient[0] ==> draft.padding_outputs == 1
            },
    {
        if self.aligned() is Ok {
            let offset = self.sat_offset()->Ok_0;
            let draft = self.aligned()->Ok_0;
            assert(self.settled());
            if offset != 0 {
                let rest = self.funds() - offset;
                crate::model::lemma_worth_before_is_not_negative(
                    self.amounts,
                    self.inputs,
                    self.outgoing.outpoint,
                );
                self.lemma_shares_fit();
                self.lemma_served(rest);
                self.lemma_total_of_shares(rest);
                self.lemma_same_request(draft, rest);
                assert(draft.outputs.skip(1) =~= self.shares(rest));
                assert(draft.well_formed());
            } else {
                assert(self.outputs.skip(0) =~= self.outputs);
            }
        }
    }

    /// Taking an unspent output leaves the others.
    pub proof fn lemma_take_utxo(self, utxo: crate::outpoint::OutPoint)
        requires
            self.well_formed(),
            self.utxos.contains(utxo),
        ensures
            self.amounts.contains_key(utxo),
            self.take_utxo(utxo).utxos.no_duplicates(),
            self.take_utxo(utxo).utxos.len() == self.utxos.len() - 1,
            forall|i: int|
                0 <= i < self.take_utxo(utxo).utxos.len() ==> self.amounts.contains_key(
                    #[trigger] self.take_utxo(utxo).utxos[i],
                ),
    {
        let at = self.utxos.index_of(utxo);
        assert(self.utxos[at] == utxo);
        crate::ordered::lemma_without(self.utxos, utxo);
        let rest = self.take_utxo(utxo).utxos;
        assert forall|i: int| 0 <= i < rest.len() implies self.amounts.contains_key(
            #[trigger] rest[i],
        ) by {
            assert(rest.contains(rest[i]));
            let j = self.utxos.index_of(rest[i]);
            assert(self.utxos[j] == rest[i]);
        }
    }

    /// Padding the first output keeps the draft settled.
    pub proof fn lemma_pad_with(self, utxo: crate::outpoint::OutPoint)
        requires
            self.settled(),
            self.padding_outputs == 1,
            self.utxos.contains(utxo),
            self.outputs[0].1.0 + self.amounts[utxo].0 <= u64::MAX,
        ensures
            self.pad_with(utxo).settled(),
            self.pad_with(utxo).funds() == self.funds(),
    {
        let draft = self.pad_with(utxo);
        self.lemma_take_utxo(utxo);
        self.lemma_same_request(draft, self.funds());
        assert(draft.outputs.skip(1) =~= self.outputs.skip(1));
        assert(draft.well_formed());
    }

    /// Handing out what a cardinal output holds keeps the draft settled.
    pub proof fn lemma_fund_with(self, utxo: crate::outpoint::OutPoint)
        requires
            self.settled(),
            self.utxos.contains(utxo),
            self.funds() - self.demand_before(self.current_output) + self.amounts[utxo].0
                <= u64::MAX,
        ensures
            self.fund_with(utxo).settled(),
            self.fund_with(utxo).funds() == self.funds() + self.amounts[utxo].0,
    {
        let draft = self.fund_with(utxo);
        let funds = self.funds() + self.amounts[utxo].0;
        let last = self.recipient.len() - 1;
        self.lemma_take_utxo(utxo);
        self.lemma_shares_fit();
        self.lemma_served(self.funds());
        self.lemma_served(funds);
        self.lemma_demand_grows(self.current_output, last);
        self.lemma_total_of_shares(funds);
        self.lemma_same_request(draft, funds);
        assert(draft.outputs.skip(self.padding_outputs) =~= self.shares(funds));
        assert(draft.well_formed());
    }

    /// Drafts with the same targets aim at and allow the same.
    pub proof fn lemma_same_aim(self, other: Draft, count: int)
        requires
            self.target == other.target,
            self.target_postage == other.target_postage,
            self.max_postage == other.max_postage,
        ensures
            self.aimed(count) == other.aimed(count),
            self.allowed(count) == other.allowed(count),
        decreases count,
    {
        if count > 0 {
            self.lemma_same_aim(other, count - 1);
        }
    }

    /// More targets allow no less, and aim at no less.
    pub proof fn lemma_limits_grow(self, i: int, j: int)
        requires
            0 <= i <= j,
        ensures
            0 <= self.allowed(i) <= self.allowed(j),
            0 <= self.aimed(i) <= self.aimed(j),
        decreases j,
    {
        if j > 0 {
            if i < j {
                self.lemma_limits_grow(i, j - 1);
            } else {
                self.lemma_limits_grow(i - 1, j - 1);
            }
        }
    }
}

} // verus!
