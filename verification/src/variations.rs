//! What becomes of a request when it is made with another wallet or limit.

use vstd::prelude::*;

use crate::amount::Amount;
use crate::error::Error;
use crate::model::worth;
use crate::model::worth_before;
use crate::model::Draft;
use crate::outpoint::OutPoint;

verus! {

/// Wallets that agree on the inputs agree on what they hold.
proof fn lemma_same_worth(a: Map<OutPoint, Amount>, b: Map<OutPoint, Amount>, inputs: Seq<OutPoint>)
    requires
        forall|i: int| 0 <= i < inputs.len() ==> a[#[trigger] inputs[i]] == b[inputs[i]],
    ensures
        worth(a, inputs) == worth(b, inputs),
    decreases inputs.len(),
{
    if inputs.len() > 0 {
        assert(inputs[inputs.len() - 1] == inputs.last());
        lemma_same_worth(a, b, inputs.drop_last());
    }
}

proof fn lemma_same_worth_before(
    a: Map<OutPoint, Amount>,
    b: Map<OutPoint, Amount>,
    inputs: Seq<OutPoint>,
    outpoint: OutPoint,
)
    requires
        forall|i: int| 0 <= i < inputs.len() ==> a[#[trigger] inputs[i]] == b[inputs[i]],
    ensures
        worth_before(a, inputs, outpoint) == worth_before(b, inputs, outpoint),
    decreases inputs.len(),
{
    if inputs.len() > 0 && inputs[0] != outpoint {
        assert forall|i: int| 0 <= i < inputs.drop_first().len() implies a[#[trigger] inputs.drop_first()[i]]
            == b[inputs.drop_first()[i]] by {
            assert(inputs.drop_first()[i] == inputs[i + 1]);
        }
        lemma_same_worth_before(a, b, inputs.drop_first(), outpoint);
    }
}

/// The drafts are alike, or the errors are the same.
pub open spec fn agree(a: Result<Draft, Error>, b: Result<Draft, Error>) -> bool {
    match a {
        Ok(draft) => b matches Ok(other) && draft.alike(other),
        Err(error) => b == Err::<Draft, Error>(error),
    }
}

impl Draft {
    /// Another draft with the same inputs and outputs, of the same request but
    /// perhaps with more in its wallet or with another limit to the inputs.
    pub open spec fn alike(self, other: Draft) -> bool {
        &&& self.same_request(other)
        &&& self.change_addresses == other.change_addresses
        &&& self.fee_rate == other.fee_rate
        &&& self.inputs == other.inputs
        &&& self.outgoing == other.outgoing
        &&& self.outputs == other.outputs
        &&& self.alignment == other.alignment
        &&& self.unused_change_addresses == other.unused_change_addresses
        &&& self.target_postage == other.target_postage
        &&& self.max_postage == other.max_postage
        &&& self.current_output == other.current_output
        &&& self.padding_outputs == other.padding_outputs
        &&& forall|outpoint: OutPoint| #[trigger]
            self.amounts.contains_key(outpoint) ==> other.amounts.contains_key(outpoint)
                && other.amounts[outpoint] == self.amounts[outpoint]
        &&& other.amounts.contains_key(self.outgoing.outpoint) ==> self.amounts.contains_key(
            self.outgoing.outpoint,
        )
        &&& forall|i: int|
            0 <= i < self.inputs.len() ==> self.amounts.contains_key(#[trigger] self.inputs[i])
    }

    /// The next draft has the same wallet, and the same outputs of it are unspent.
    pub open spec fn keeps_wallet(self, next: Draft) -> bool {
        &&& self.amounts == next.amounts
        &&& self.inscriptions == next.inscriptions
        &&& self.utxos == next.utxos
        &&& self.max_inputs == next.max_inputs
    }

    proof fn lemma_same_inscriptions(self, other: Draft, outpoint: OutPoint)
        requires
            self.inscriptions == other.inscriptions,
        ensures
            self.inscribed(outpoint) == other.inscribed(outpoint),
    {
    }

    proof fn lemma_alike(self, other: Draft)
        requires
            self.alike(other),
        ensures
            worth(self.amounts, self.inputs) == worth(other.amounts, other.inputs),
            self.sat_offset() == other.sat_offset(),
            self.funds() == other.funds(),
            self.vbytes() == other.vbytes(),
            self.fee() == other.fee(),
            self.paired() == other.paired(),
    {
        lemma_same_worth(self.amounts, other.amounts, self.inputs);
        lemma_same_worth_before(
            self.amounts,
            other.amounts,
            self.inputs,
            self.outgoing.outpoint,
        );
    }

    proof fn lemma_alike_aligned(self, other: Draft)
        requires
            self.alike(other),
        ensures
            agree(self.aligned(), other.aligned()),
            self.aligned() matches Ok(next) ==> self.keeps_wallet(next),
            other.aligned() matches Ok(next) ==> other.keeps_wallet(next),
    {
        self.lemma_alike(other);
        if let Ok(offset) = self.sat_offset() {
            self.lemma_same_request(other, self.funds() - offset);
        }
    }

    proof fn lemma_alike_stripped(self, other: Draft)
        requires
            self.alike(other),
        ensures
            agree(self.stripped(), other.stripped()),
            self.stripped() matches Ok(next) ==> self.keeps_wallet(next),
            other.stripped() matches Ok(next) ==> other.keeps_wallet(next),
    {
        self.lemma_alike(other);
        self.lemma_same_aim(other, self.target.len() as int);
    }

    proof fn lemma_alike_deducted(self, other: Draft)
        requires
            self.alike(other),
        ensures
            agree(self.deducted(), other.deducted()),
            self.deducted() matches Ok(next) ==> self.keeps_wallet(next),
            other.deducted() matches Ok(next) ==> other.keeps_wallet(next),
    {
        self.lemma_alike(other);
    }

    proof fn lemma_alike_broken_target(self, other: Draft, from: int)
        requires
            self.alike(other),
        ensures
            self.broken_target(from) == other.broken_target(from),
        decreases self.paired() - from,
    {
        if 0 <= from < self.paired() {
            self.lemma_alike_broken_target(other, from + 1);
        }
    }

    proof fn lemma_alike_payment(self, other: Draft)
        requires
            self.alike(other),
        ensures
            self.broken_payment() == other.broken_payment(),
    {
        self.lemma_alike(other);
        self.lemma_alike_broken_target(other, 0);
        assert forall|i: int| #[trigger] self.recognized(i) == other.recognized(i) by {}
        assert forall|i: int| self.recognized(i) == #[trigger] other.recognized(i) by {}
        assert(self.above_dust_limit() == other.above_dust_limit());
    }

    proof fn lemma_alike_checked(self, other: Draft)
        requires
            self.alike(other),
        ensures
            agree(self.checked(), other.checked()),
    {
        self.lemma_alike(other);
        self.lemma_alike_payment(other);
        assert(self.sat_in_wallet() == other.sat_in_wallet());
        assert forall|i: int| #[trigger] self.spends_sat(i) == other.spends_sat(i) by {}
        assert forall|i: int| self.spends_sat(i) == #[trigger] other.spends_sat(i) by {}
        assert(self.sat_spent_once() == other.sat_spent_once());
        assert(self.recipients_paid_once() == other.recipients_paid_once());
        assert(self.change_paid_at_most_once() == other.change_paid_at_most_once());
    }

    /// What becomes of a draft that is funded.
    #[verifier::opaque]
    spec fn completed_from_funded(self) -> Result<Draft, Error> {
        match self.stripped() {
            Err(error) => Err(error),
            Ok(stripped) => match stripped.deducted() {
                Err(error) => Err(error),
                Ok(deducted) => deducted.checked(),
            },
        }
    }

    /// What becomes of a draft whose alignment output is padded.
    #[verifier::opaque]
    spec fn completed_from_padded(self) -> Result<Draft, Error> {
        match self.funded() {
            Err(error) => Err(error),
            Ok(funded) => funded.completed_from_funded(),
        }
    }

    /// What becomes of a draft with the outgoing sat selected.
    #[verifier::opaque]
    spec fn completed_from_selected(self) -> Result<Draft, Error> {
        match self.aligned() {
            Err(error) => Err(error),
            Ok(aligned) => match aligned.padded() {
                Err(error) => Err(error),
                Ok(padded) => padded.completed_from_padded(),
            },
        }
    }

    proof fn lemma_finished_in_parts(self)
        ensures
            self.finished() == match self.selected() {
                Err(error) => Err(error),
                Ok(selected) => selected.completed_from_selected(),
            },
    {
        reveal(Draft::completed_from_funded);
        reveal(Draft::completed_from_padded);
        reveal(Draft::completed_from_selected);
    }

    proof fn lemma_alike_refusal(self, other: Draft, from: int)
        requires
            self.alike(other),
        ensures
            self.recipient_in_change(from) == other.recipient_in_change(from),
        decreases self.recipient.len() - from,
    {
        if 0 <= from < self.recipient.len() {
            self.lemma_alike_refusal(other, from + 1);
        }
    }
}

/// The result with a limit to the inputs is that without one, as long as the
/// inputs keep to the limit. One that is refused without it may be refused for
/// the limit instead.
pub open spec fn limits(
    max_inputs: usize,
    unlimited: Result<Draft, Error>,
    limited: Result<Draft, Error>,
) -> bool {
    let refused = Err::<Draft, Error>(Error::TooManyInputs(max_inputs));
    match unlimited {
        Ok(draft) => limited == if draft.inputs.len() <= max_inputs {
            Ok(draft.limited(max_inputs))
        } else {
            refused
        },
        Err(error) => limited == Err::<Draft, Error>(error) || limited == refused,
    }
}

impl Draft {
    /// The draft with a limit to the inputs.
    pub open spec fn limited(self, max_inputs: usize) -> Draft {
        Draft { max_inputs: Some(max_inputs), ..self }
    }

    /// Each input and each unspent output is in the wallet.
    pub open spec fn accounts_for_wallet(self) -> bool {
        &&& forall|i: int|
            0 <= i < self.inputs.len() ==> self.amounts.contains_key(#[trigger] self.inputs[i])
        &&& forall|i: int|
            0 <= i < self.utxos.len() ==> self.amounts.contains_key(#[trigger] self.utxos[i])
        &&& self.utxos.no_duplicates()
    }

    /// There are not too many inputs to count, now and when all is spent.
    pub open spec fn countable(self) -> bool {
        self.inputs.len() + self.utxos.len() <= usize::MAX
    }

    /// Spending an unspent output keeps account of the wallet.
    proof fn lemma_spending_keeps_account(self, utxo: OutPoint, next: Draft)
        requires
            self.accounts_for_wallet(),
            self.utxos.contains(utxo),
            next.amounts == self.amounts,
            next.utxos == self.take_utxo(utxo).utxos,
            next.inputs == seq![utxo] + self.inputs || next.inputs == self.inputs.push(utxo),
        ensures
            next.accounts_for_wallet(),
            self.countable() ==> next.countable(),
    {
        let at = self.utxos.index_of(utxo);
        assert(self.amounts.contains_key(self.utxos[at]));
        crate::ordered::lemma_without(self.utxos, utxo);
        assert forall|i: int| 0 <= i < next.utxos.len() implies next.amounts.contains_key(
            #[trigger] next.utxos[i],
        ) by {
            assert(next.utxos.contains(next.utxos[i]));
            let j = self.utxos.index_of(next.utxos[i]);
            assert(self.amounts.contains_key(self.utxos[j]));
        }
        assert forall|i: int| 0 <= i < next.inputs.len() implies next.amounts.contains_key(
            #[trigger] next.inputs[i],
        ) by {
            if next.inputs == seq![utxo] + self.inputs {
                if i > 0 {
                    assert(next.inputs[i] == self.inputs[i - 1]);
                }
            } else if i < self.inputs.len() {
                assert(next.inputs[i] == self.inputs[i]);
            }
        }
    }

    proof fn lemma_limited_is_alike(self, max_inputs: usize)
        requires
            self.accounts_for_wallet(),
        ensures
            self.alike(self.limited(max_inputs)),
    {
    }

    proof fn lemma_limited_choice(
        self,
        max_inputs: usize,
        count: int,
        target: int,
        prefer_under: bool,
    )
        ensures
            self.limited(max_inputs).choice(count, target, prefer_under) == self.choice(
                count,
                target,
                prefer_under,
            ),
        decreases count,
    {
        if count > 0 {
            self.lemma_limited_choice(max_inputs, count - 1, target, prefer_under);
            self.lemma_same_inscriptions(self.limited(max_inputs), self.utxos[count - 1]);
        }
    }

    /// The limit only refuses to select an output when there are so many inputs.
    proof fn lemma_limited_cardinal(self, max_inputs: usize, target: int, prefer_under: bool)
        requires
            self.accounts_for_wallet(),
            self.countable(),
            self.max_inputs is None,
        ensures
            self.limited(max_inputs).cardinal(target, prefer_under) == if self.inputs.len()
                == max_inputs {
                Err(Error::TooManyInputs(max_inputs))
            } else {
                self.cardinal(target, prefer_under)
            },
    {
        self.lemma_limited_choice(max_inputs, self.utxos.len() as int, target, prefer_under);
    }

    proof fn lemma_limited_conflict(self, max_inputs: usize, count: int)
        ensures
            self.limited(max_inputs).last_conflict(count) == self.last_conflict(count),
        decreases count,
    {
        if count > 0 {
            self.lemma_limited_conflict(max_inputs, count - 1);
        }
    }

    proof fn lemma_limited_selected(self, max_inputs: usize)
        requires
            self.fresh(),
            self.max_inputs is None,
            max_inputs >= 1,
        ensures
            limits(max_inputs, self.selected(), self.limited(max_inputs).selected()),
            self.selected() matches Ok(next) ==> {
                &&& next.accounts_for_wallet()
                &&& next.countable()
                &&& next.max_inputs is None
                &&& next.inputs.len() == 1
            },
    {
        let other = self.limited(max_inputs);
        let amount = self.amounts[self.outgoing.outpoint].0 as int;
        self.lemma_limited_conflict(max_inputs, self.inscriptions.len() as int);
        self.lemma_same_request(other, amount);
        if let Ok(next) = self.selected() {
            assert(self.utxos.contains(self.outgoing.outpoint));
            self.lemma_spending_keeps_account(self.outgoing.outpoint, next);
            assert(other.selected()->Ok_0 =~= next.limited(max_inputs));
        }
    }

    proof fn lemma_limited_padding(self, max_inputs: usize)
        requires
            self.accounts_for_wallet(),
            self.countable(),
            self.max_inputs is None,
        ensures
            self.padded_to_dust_limit() matches Ok(next) ==> {
                &&& next.accounts_for_wallet()
                &&& next.countable()
                &&& next.max_inputs is None
                &&& next.inputs.len() >= self.inputs.len()
            },
            self.inputs.len() <= max_inputs ==> limits(
                max_inputs,
                self.padded_to_dust_limit(),
                self.limited(max_inputs).padded_to_dust_limit(),
            ),
        decreases self.utxos.len(),
    {
        let other = self.limited(max_inputs);
        let dust_limit = self.unused_change_addresses.last().dust();
        let first = self.outputs[0].1.0;
        if first < dust_limit {
            let target = dust_limit - first;
            self.lemma_cardinal_is_unspent(target, true);
            self.lemma_limited_cardinal(max_inputs, target, true);
            if let Ok(utxo) = self.cardinal(target, true) {
                if first + self.amounts[utxo].0 <= u64::MAX {
                    let next = self.pad_with(utxo);
                    self.lemma_spending_keeps_account(utxo, next);
                    next.lemma_limited_padding(max_inputs);
                    assert(other.pad_with(utxo) =~= next.limited(max_inputs));
                }
            }
        }
    }

    proof fn lemma_limited_funding(self, max_inputs: usize, deficit: int)
        requires
            self.accounts_for_wallet(),
            self.countable(),
            self.max_inputs is None,
        ensures
            self.funded_for(deficit) matches Ok(next) ==> {
                &&& next.accounts_for_wallet()
                &&& next.countable()
                &&& next.max_inputs is None
                &&& next.inputs.len() >= self.inputs.len()
            },
            self.inputs.len() <= max_inputs ==> limits(
                max_inputs,
                self.funded_for(deficit),
                self.limited(max_inputs).funded_for(deficit),
            ),
        decreases self.utxos.len(),
    {
        let other = self.limited(max_inputs);
        let needed = deficit + self.input_fee();
        self.lemma_limited_is_alike(max_inputs);
        self.lemma_alike(other);
        if deficit > 0 && needed <= u64::MAX {
            self.lemma_cardinal_is_unspent(needed, false);
            self.lemma_limited_cardinal(max_inputs, needed, false);
            if let Ok(utxo) = self.cardinal(needed, false) {
                let value = self.amounts[utxo].0;
                let existing = self.funds() - self.demand_before(self.current_output);
                self.lemma_same_request(other, self.funds() + value);
                assert(other.demand_before(self.current_output) == self.demand_before(
                    self.current_output,
                ));
                if value >= self.input_fee() && existing + value <= u64::MAX {
                    let next = self.fund_with(utxo);
                    self.lemma_spending_keeps_account(utxo, next);
                    next.lemma_limited_funding(max_inputs, deficit - (value - self.input_fee()));
                    assert(other.fund_with(utxo) =~= next.limited(max_inputs));
                }
            }
        }
    }

    proof fn lemma_limited_steps(self, max_inputs: usize)
        requires
            self.accounts_for_wallet(),
            self.countable(),
            self.max_inputs is None,
            self.inputs.len() <= max_inputs,
        ensures
            limits(max_inputs, self.aligned(), self.limited(max_inputs).aligned()),
            limits(max_inputs, self.padded(), self.limited(max_inputs).padded()),
            limits(max_inputs, self.funded(), self.limited(max_inputs).funded()),
            limits(max_inputs, self.stripped(), self.limited(max_inputs).stripped()),
            limits(max_inputs, self.deducted(), self.limited(max_inputs).deducted()),
            limits(max_inputs, self.checked(), self.limited(max_inputs).checked()),
    {
        let other = self.limited(max_inputs);
        self.lemma_limited_is_alike(max_inputs);
        self.lemma_alike(other);
        self.lemma_alike_aligned(other);
        self.lemma_alike_stripped(other);
        self.lemma_alike_deducted(other);
        self.lemma_alike_checked(other);
        self.lemma_limited_padding(max_inputs);
        self.lemma_same_request(other, 0);
        assert(other.demand_before(self.paired()) == self.demand_before(self.paired()));
        self.lemma_limited_funding(
            max_inputs,
            self.demand_before(self.paired()) + self.fee() - self.funds(),
        );
        if let Ok(next) = self.aligned() {
            assert(other.aligned()->Ok_0 =~= next.limited(max_inputs));
        }
        if let Ok(next) = self.stripped() {
            assert(other.stripped()->Ok_0 =~= next.limited(max_inputs));
        }
        if let Ok(next) = self.deducted() {
            assert(other.deducted()->Ok_0 =~= next.limited(max_inputs));
        }
    }

    proof fn lemma_limited_from_funded(self, max_inputs: usize)
        requires
            self.accounts_for_wallet(),
            self.countable(),
            self.max_inputs is None,
        ensures
            self.completed_from_funded() matches Ok(draft) ==> draft.inputs == self.inputs,
            self.inputs.len() <= max_inputs ==> limits(
                max_inputs,
                self.completed_from_funded(),
                self.limited(max_inputs).completed_from_funded(),
            ),
    {
        reveal(Draft::completed_from_funded);
        if self.inputs.len() <= max_inputs {
            self.lemma_limited_steps(max_inputs);
            if let Ok(stripped) = self.stripped() {
                stripped.lemma_limited_steps(max_inputs);
                if let Ok(deducted) = stripped.deducted() {
                    deducted.lemma_limited_steps(max_inputs);
                }
            }
        }
    }

    proof fn lemma_limited_from_padded(self, max_inputs: usize)
        requires
            self.accounts_for_wallet(),
            self.countable(),
            self.max_inputs is None,
        ensures
            self.completed_from_padded() matches Ok(draft) ==> draft.inputs.len()
                >= self.inputs.len(),
            self.inputs.len() <= max_inputs ==> limits(
                max_inputs,
                self.completed_from_padded(),
                self.limited(max_inputs).completed_from_padded(),
            ),
    {
        reveal(Draft::completed_from_padded);
        let deficit = self.demand_before(self.paired()) + self.fee() - self.funds();
        self.lemma_limited_funding(max_inputs, deficit);
        if self.inputs.len() <= max_inputs {
            self.lemma_limited_steps(max_inputs);
        }
        if let Ok(funded) = self.funded() {
            funded.lemma_limited_from_funded(max_inputs);
        }
    }

    proof fn lemma_limited_from_selected(self, max_inputs: usize)
        requires
            self.accounts_for_wallet(),
            self.countable(),
            self.max_inputs is None,
            self.inputs.len() <= max_inputs,
        ensures
            limits(
                max_inputs,
                self.completed_from_selected(),
                self.limited(max_inputs).completed_from_selected(),
            ),
    {
        reveal(Draft::completed_from_selected);
        self.lemma_limited_steps(max_inputs);
        if let Ok(aligned) = self.aligned() {
            aligned.lemma_limited_steps(max_inputs);
            aligned.lemma_limited_padding(max_inputs);
            if let Ok(padded) = aligned.padded() {
                padded.lemma_limited_from_padded(max_inputs);
            }
        }
    }

    /// A limit to the inputs changes nothing but that more inputs are refused.
    pub proof fn lemma_limited_outcome(self, max_inputs: usize)
        requires
            self.fresh(),
            self.max_inputs is None,
            max_inputs >= 1,
        ensures
            limits(max_inputs, self.outcome(), self.limited(max_inputs).outcome()),
    {
        let other = self.limited(max_inputs);
        self.lemma_limited_is_alike(max_inputs);
        self.lemma_alike_refusal(other, 0);
        self.lemma_limited_selected(max_inputs);
        self.lemma_finished_in_parts();
        other.lemma_finished_in_parts();
        if let Ok(selected) = self.selected() {
            selected.lemma_limited_from_selected(max_inputs);
        }
    }
}

impl Draft {
    /// Another draft that is alike, but has one more unspent output, which holds an
    /// inscription.
    pub open spec fn lacks_inscribed(self, other: Draft, added: OutPoint) -> bool {
        &&& self.alike(other)
        &&& self.accounts_for_wallet()
        &&& self.max_inputs == other.max_inputs
        &&& !self.amounts.contains_key(added)
        &&& other.utxos.no_duplicates()
        &&& other.utxos.contains(added)
        &&& self.utxos == crate::ordered::without(other.utxos, added)
        &&& other.inscribed(added)
        &&& forall|outpoint: OutPoint|
            outpoint != added ==> #[trigger] self.inscribed(outpoint) == other.inscribed(outpoint)
    }

    /// An output with an inscription is passed over.
    proof fn lemma_choice_passes_over(
        self,
        other: Draft,
        added: OutPoint,
        count: int,
        target: int,
        prefer_under: bool,
    )
        requires
            self.lacks_inscribed(other, added),
            0 <= count <= self.utxos.len(),
        ensures
            ({
                let at = other.utxos.index_of(added);
                let best = self.choice(count, target, prefer_under);
                &&& count <= at ==> other.choice(count, target, prefer_under) == best
                &&& count >= at ==> other.choice(count + 1, target, prefer_under) == best
            }),
        decreases count,
    {
        let at = other.utxos.index_of(added);
        assert(other.utxos[at] == added);
        if count > 0 {
            self.lemma_choice_passes_over(other, added, count - 1, target, prefer_under);
            self.lemma_choice_is_unspent(count - 1, target, prefer_under);
            let best = self.choice(count - 1, target, prefer_under);
            let utxo = self.utxos[count - 1];
            assert(self.amounts.contains_key(utxo));
            assert(self.inscribed(utxo) == other.inscribed(utxo));
            if let Some(best) = best {
                let i = self.utxos.index_of(best);
                assert(self.amounts.contains_key(self.utxos[i]));
            }
            assert(self.value_of(best) == other.value_of(best));
            if count <= at {
                assert(other.utxos[count - 1] == utxo);
            }
            if count > at {
                assert(other.utxos[count] == utxo);
            }
        }
    }

    proof fn lemma_cardinal_passes_over(
        self,
        other: Draft,
        added: OutPoint,
        target: int,
        prefer_under: bool,
    )
        requires
            self.lacks_inscribed(other, added),
        ensures
            other.cardinal(target, prefer_under) == self.cardinal(target, prefer_under),
            self.cardinal(target, prefer_under) matches Ok(utxo) ==> {
                &&& utxo != added
                &&& self.utxos.contains(utxo)
                &&& self.amounts[utxo] == other.amounts[utxo]
            },
    {
        self.lemma_choice_passes_over(
            other,
            added,
            self.utxos.len() as int,
            target,
            prefer_under,
        );
        self.lemma_cardinal_is_unspent(target, prefer_under);
        if let Ok(utxo) = self.cardinal(target, prefer_under) {
            let i = self.utxos.index_of(utxo);
            assert(self.amounts.contains_key(self.utxos[i]));
        }
    }

    /// Spending another output leaves the added one unspent.
    proof fn lemma_spending_passes_over(
        self,
        other: Draft,
        added: OutPoint,
        utxo: OutPoint,
        next: Draft,
        other_next: Draft,
    )
        requires
            self.lacks_inscribed(other, added),
            self.utxos.contains(utxo),
            next.amounts == self.amounts,
            next.inscriptions == self.inscriptions,
            next.max_inputs == self.max_inputs,
            next.utxos == self.take_utxo(utxo).utxos,
            next.inputs == seq![utxo] + self.inputs || next.inputs == self.inputs.push(utxo),
            other_next == (Draft {
                amounts: other.amounts,
                inscriptions: other.inscriptions,
                utxos: other.take_utxo(utxo).utxos,
                ..next
            }),
            next.outgoing == self.outgoing,
        ensures
            next.lacks_inscribed(other_next, added),
    {
        let i = self.utxos.index_of(utxo);
        assert(self.amounts.contains_key(self.utxos[i]));
        self.lemma_spending_keeps_account(utxo, next);
        crate::ordered::lemma_without(other.utxos, utxo);
        crate::ordered::lemma_without_two(other.utxos, utxo, added);
        self.lemma_same_inscriptions(next, added);
        other.lemma_same_inscriptions(other_next, added);
        assert forall|outpoint: OutPoint|
            outpoint != added implies #[trigger] next.inscribed(outpoint) == other_next.inscribed(
            outpoint,
        ) by {
            self.lemma_same_inscriptions(next, outpoint);
            other.lemma_same_inscriptions(other_next, outpoint);
            assert(self.inscribed(outpoint) == other.inscribed(outpoint));
        }
    }

    proof fn lemma_padding_passes_over(self, other: Draft, added: OutPoint)
        requires
            self.lacks_inscribed(other, added),
        ensures
            match self.padded_to_dust_limit() {
                Ok(next) => other.padded_to_dust_limit() matches Ok(other_next)
                    && next.lacks_inscribed(other_next, added),
                Err(error) => other.padded_to_dust_limit() == Err::<Draft, Error>(error),
            },
        decreases self.utxos.len(),
    {
        let dust_limit = self.unused_change_addresses.last().dust();
        let first = self.outputs[0].1.0;
        if first < dust_limit {
            let target = dust_limit - first;
            self.lemma_cardinal_is_unspent(target, true);
            other.lemma_cardinal_is_unspent(target, true);
            self.lemma_cardinal_passes_over(other, added, target, true);
            if let Ok(utxo) = self.cardinal(target, true) {
                if first + self.amounts[utxo].0 <= u64::MAX {
                    let next = self.pad_with(utxo);
                    let other_next = other.pad_with(utxo);
                    self.lemma_spending_passes_over(other, added, utxo, next, other_next);
                    next.lemma_padding_passes_over(other_next, added);
                }
            }
        }
    }

    proof fn lemma_funding_passes_over(self, other: Draft, added: OutPoint, deficit: int)
        requires
            self.lacks_inscribed(other, added),
        ensures
            match self.funded_for(deficit) {
                Ok(next) => other.funded_for(deficit) matches Ok(other_next)
                    && next.lacks_inscribed(other_next, added),
                Err(error) => other.funded_for(deficit) == Err::<Draft, Error>(error),
            },
        decreases self.utxos.len(),
    {
        let needed = deficit + self.input_fee();
        self.lemma_alike(other);
        if deficit > 0 && needed <= u64::MAX {
            self.lemma_cardinal_is_unspent(needed, false);
            other.lemma_cardinal_is_unspent(needed, false);
            self.lemma_cardinal_passes_over(other, added, needed, false);
            if let Ok(utxo) = self.cardinal(needed, false) {
                let value = self.amounts[utxo].0;
                let existing = self.funds() - self.demand_before(self.current_output);
                self.lemma_same_request(other, self.funds() + value);
                assert(other.demand_before(self.current_output) == self.demand_before(
                    self.current_output,
                ));
                if value >= self.input_fee() && existing + value <= u64::MAX {
                    let next = self.fund_with(utxo);
                    let other_next = other.fund_with(utxo);
                    self.lemma_spending_passes_over(other, added, utxo, next, other_next);
                    next.lemma_funding_passes_over(
                        other_next,
                        added,
                        deficit - (value - self.input_fee()),
                    );
                }
            }
        }
    }

    /// An inscription on another output does not conflict with the outgoing sat.
    proof fn lemma_conflict_passes_over(self, other: Draft, at: int, count: int)
        requires
            self.outgoing == other.outgoing,
            self.unused_change_addresses == other.unused_change_addresses,
            0 <= at < other.inscriptions.len(),
            self.inscriptions == other.inscriptions.remove(at),
            other.inscriptions[at].0.outpoint != other.outgoing.outpoint,
            0 <= count <= self.inscriptions.len(),
        ensures
            count <= at ==> other.last_conflict(count) == self.last_conflict(count),
            count >= at ==> other.last_conflict(count + 1) == self.last_conflict(count),
        decreases count,
    {
        if count > 0 {
            self.lemma_conflict_passes_over(other, at, count - 1);
        }
    }

    proof fn lemma_selected_passes_over(self, other: Draft, added: OutPoint, at: int)
        requires
            self.lacks_inscribed(other, added),
            self.outgoing.outpoint != added,
            forall|outpoint: OutPoint| #[trigger]
                self.amounts.contains_key(outpoint) ==> self.utxos.contains(outpoint),
            0 <= at < other.inscriptions.len(),
            self.inscriptions == other.inscriptions.remove(at),
            other.inscriptions[at].0.outpoint == added,
        ensures
            match self.selected() {
                Ok(next) => other.selected() matches Ok(other_next) && next.lacks_inscribed(
                    other_next,
                    added,
                ),
                Err(error) => other.selected() == Err::<Draft, Error>(error),
            },
    {
        let outpoint = self.outgoing.outpoint;
        self.lemma_conflict_passes_over(other, at, self.inscriptions.len() as int);
        self.lemma_same_request(other, self.amounts[outpoint].0 as int);
        if let Ok(next) = self.selected() {
            let other_next = other.selected()->Ok_0;
            self.lemma_spending_passes_over(other, added, outpoint, next, other_next);
        }
    }

    /// A step that keeps the wallet leaves the added output unspent.
    proof fn lemma_step_passes_over(
        self,
        other: Draft,
        added: OutPoint,
        next: Draft,
        other_next: Draft,
    )
        requires
            self.lacks_inscribed(other, added),
            next.alike(other_next),
            self.keeps_wallet(next),
            other.keeps_wallet(other_next),
        ensures
            next.lacks_inscribed(other_next, added),
    {
        self.lemma_same_inscriptions(next, added);
        other.lemma_same_inscriptions(other_next, added);
        assert forall|outpoint: OutPoint|
            outpoint != added implies #[trigger] next.inscribed(outpoint) == other_next.inscribed(
            outpoint,
        ) by {
            self.lemma_same_inscriptions(next, outpoint);
            other.lemma_same_inscriptions(other_next, outpoint);
            assert(self.inscribed(outpoint) == other.inscribed(outpoint));
        }
    }

    proof fn lemma_passes_over_from_funded(self, other: Draft, added: OutPoint)
        requires
            self.lacks_inscribed(other, added),
        ensures
            agree(self.completed_from_funded(), other.completed_from_funded()),
    {
        reveal(Draft::completed_from_funded);
        self.lemma_alike_stripped(other);
        if let Ok(stripped) = self.stripped() {
            let other_stripped = other.stripped()->Ok_0;
            stripped.lemma_alike_deducted(other_stripped);
            if let Ok(deducted) = stripped.deducted() {
                deducted.lemma_alike_checked(other_stripped.deducted()->Ok_0);
            }
        }
    }

    proof fn lemma_passes_over_from_padded(self, other: Draft, added: OutPoint)
        requires
            self.lacks_inscribed(other, added),
        ensures
            agree(self.completed_from_padded(), other.completed_from_padded()),
    {
        reveal(Draft::completed_from_padded);
        self.lemma_alike(other);
        self.lemma_same_request(other, 0);
        assert(other.demand_before(self.paired()) == self.demand_before(self.paired()));
        self.lemma_funding_passes_over(
            other,
            added,
            self.demand_before(self.paired()) + self.fee() - self.funds(),
        );
        if let Ok(funded) = self.funded() {
            funded.lemma_passes_over_from_funded(other.funded()->Ok_0, added);
        }
    }

    proof fn lemma_passes_over_from_selected(self, other: Draft, added: OutPoint)
        requires
            self.lacks_inscribed(other, added),
        ensures
            agree(self.completed_from_selected(), other.completed_from_selected()),
    {
        reveal(Draft::completed_from_selected);
        self.lemma_alike_aligned(other);
        if let Ok(aligned) = self.aligned() {
            let other_aligned = other.aligned()->Ok_0;
            self.lemma_step_passes_over(other, added, aligned, other_aligned);
            aligned.lemma_padding_passes_over(other_aligned, added);
            if let Ok(padded) = aligned.padded() {
                padded.lemma_passes_over_from_padded(other_aligned.padded()->Ok_0, added);
            }
        }
    }

    /// With one more output in the wallet, that holds an inscription, a request has
    /// the same outcome.
    pub proof fn lemma_outcome_passes_over(self, other: Draft, added: OutPoint, at: int)
        requires
            self.lacks_inscribed(other, added),
            self.outgoing.outpoint != added,
            forall|outpoint: OutPoint| #[trigger]
                self.amounts.contains_key(outpoint) ==> self.utxos.contains(outpoint),
            0 <= at < other.inscriptions.len(),
            self.inscriptions == other.inscriptions.remove(at),
            other.inscriptions[at].0.outpoint == added,
        ensures
            agree(self.outcome(), other.outcome()),
    {
        self.lemma_alike_refusal(other, 0);
        self.lemma_selected_passes_over(other, added, at);
        self.lemma_finished_in_parts();
        other.lemma_finished_in_parts();
        if let Ok(selected) = self.selected() {
            selected.lemma_passes_over_from_selected(other.selected()->Ok_0, added);
        }
    }
}

} // verus!
