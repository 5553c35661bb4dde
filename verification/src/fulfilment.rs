//! That the construction meets the requests that can be met, and no others.

use vstd::prelude::*;

use crate::address::dust_of;
use crate::address::Address;
use crate::amount::Amount;
use crate::error::Error;
use crate::error::Invariant;
use crate::fee_rate::round_to_double;
use crate::laws::available;
use crate::model::total;
use crate::model::Draft;
use crate::ordered::ascending;
use crate::ordered::Key;
use crate::outpoint::OutPoint;
use crate::outpoint::SatPoint;
use crate::request::held;
use crate::request::is_replaceable_and_unsigned;
use crate::request::paid;
use crate::request::pays_no_dust;
use crate::request::scripts_of;
use crate::request::scripts_to;
use crate::request::size_of_outputs;
use crate::request::spent_by;
use crate::request::times_paid;
use crate::request::weight_once_signed;
use crate::request::Request;
use crate::transaction::Transaction;
use crate::transaction::TxOut;

verus! {

/// Without one of them, keys in ascending order stay so.
proof fn lemma_ascending_without<K: Key>(keys: Seq<K>, key: K)
    requires
        ascending(keys),
    ensures
        ascending(crate::ordered::without(keys, key)),
{
    if keys.contains(key) {
        let at = keys.index_of(key);
        let rest = keys.remove(at);
        assert forall|i: int, j: int| 0 <= i < j < rest.len() implies #[trigger] rest[i].before(
            #[trigger] rest[j],
        ) by {
            let a = if i < at { i } else { i + 1 };
            let b = if j < at { j } else { j + 1 };
            assert(keys[a].before(keys[b]));
        }
    }
}

pub proof fn lemma_held_of_parts(amounts: Map<OutPoint, Amount>, a: Seq<OutPoint>, b: Seq<OutPoint>)
    ensures
        held(amounts, a + b) == held(amounts, a) + held(amounts, b),
    decreases b.len(),
{
    if b.len() == 0 {
        assert(a + b =~= a);
    } else {
        assert((a + b).drop_last() =~= a + b.drop_last());
        lemma_held_of_parts(amounts, a, b.drop_last());
    }
}

pub proof fn lemma_held_is_not_negative(amounts: Map<OutPoint, Amount>, outpoints: Seq<OutPoint>)
    ensures
        held(amounts, outpoints) >= 0,
    decreases outpoints.len(),
{
    if outpoints.len() > 0 {
        lemma_held_is_not_negative(amounts, outpoints.drop_last());
    }
}

pub proof fn lemma_held_by_one(amounts: Map<OutPoint, Amount>, outpoint: OutPoint)
    ensures
        held(amounts, seq![outpoint]) == amounts[outpoint].0,
{
    assert(seq![outpoint].drop_last() =~= Seq::empty());
    assert(held(amounts, seq![outpoint].drop_last()) == 0);
}

impl Request {
    /// The draft is one of this request.
    pub open spec fn describes(self, draft: Draft) -> bool {
        &&& draft.outgoing == self.outgoing
        &&& draft.amounts == self.amounts
        &&& draft.recipient == self.recipient
        &&& draft.alignment == self.alignment
        &&& draft.change_addresses == self.change
        &&& draft.unused_change_addresses == self.change
        &&& self.change.len() == 2
        &&& draft.fee_rate == self.fee_rate
        &&& draft.max_inputs == self.max_inputs
        &&& draft.target == self.target
        &&& draft.target_postage == self.target_postage
        &&& draft.max_postage == self.max_postage
        &&& ascending(crate::ordered::keys_of(draft.inscriptions))
        &&& forall|i: int|
            0 <= i < draft.inscriptions.len() ==> {
                &&& self.inscriptions.contains_key((#[trigger] draft.inscriptions[i]).0)
                &&& self.inscriptions[draft.inscriptions[i].0] == draft.inscriptions[i].1
            }
        &&& forall|inscribed: SatPoint| #[trigger]
            self.inscriptions.contains_key(inscribed) ==> exists|i: int|
                0 <= i < draft.inscriptions.len() && #[trigger] draft.inscriptions[i].0
                    == inscribed
    }

    /// The unspent outputs of the draft are those of the wallet without that of the
    /// outgoing sat and the given ones.
    pub open spec fn has_used(self, draft: Draft, used: Seq<OutPoint>) -> bool {
        &&& ascending(draft.utxos)
        &&& forall|outpoint: OutPoint| #[trigger]
            draft.utxos.contains(outpoint) <==> {
                &&& self.amounts.contains_key(outpoint)
                &&& outpoint != self.outgoing.outpoint
                &&& !used.contains(outpoint)
            }
    }

    proof fn lemma_describes_next(self, draft: Draft, next: Draft)
        requires
            self.describes(draft),
            draft.same_origin(next),
        ensures
            self.describes(next),
    {
    }

    proof fn lemma_cardinals(self, draft: Draft, outpoint: OutPoint)
        requires
            self.describes(draft),
        ensures
            self.is_cardinal(outpoint) <==> self.amounts.contains_key(outpoint) && outpoint
                != self.outgoing.outpoint && !draft.inscribed(outpoint),
    {
        if draft.inscribed(outpoint) {
            let i = choose|i: int|
                0 <= i < draft.inscriptions.len() && (#[trigger] draft.inscriptions[i]).0.outpoint
                    == outpoint;
            assert(self.inscriptions.contains_key(draft.inscriptions[i].0));
        }
        if !self.is_cardinal(outpoint) && self.amounts.contains_key(outpoint) && outpoint
            != self.outgoing.outpoint {
            let inscribed = choose|inscribed: SatPoint| #[trigger]
                self.inscriptions.contains_key(inscribed) && inscribed.outpoint == outpoint;
            let i = choose|i: int|
                0 <= i < draft.inscriptions.len() && #[trigger] draft.inscriptions[i].0
                    == inscribed;
            assert(draft.inscriptions[i].0.outpoint == outpoint);
        }
    }

    /// What is available in a draft are the free cardinals.
    proof fn lemma_free(self, draft: Draft, used: Seq<OutPoint>)
        requires
            self.describes(draft),
            self.has_used(draft, used),
        ensures
            forall|outpoint: OutPoint| #[trigger]
                available(draft, draft.utxos.len() as int, outpoint) == self.is_free(
                    outpoint,
                    used,
                ),
            forall|outpoint: OutPoint| #[trigger]
                self.is_free(outpoint, used) == available(
                    draft,
                    draft.utxos.len() as int,
                    outpoint,
                ),
    {
        assert(draft.utxos.take(draft.utxos.len() as int) =~= draft.utxos);
        assert forall|outpoint: OutPoint| #[trigger]
            available(draft, draft.utxos.len() as int, outpoint) == self.is_free(
                outpoint,
                used,
            ) by {
            self.lemma_cardinals(draft, outpoint);
        }
        assert forall|outpoint: OutPoint| #[trigger]
            self.is_free(outpoint, used) == available(
                draft,
                draft.utxos.len() as int,
                outpoint,
            ) by {
            self.lemma_cardinals(draft, outpoint);
        }
    }

    proof fn lemma_best_under_is_one(
        self,
        a: OutPoint,
        b: OutPoint,
        used: Seq<OutPoint>,
        wanted: int,
    )
        requires
            self.is_best_under(a, used, wanted),
            self.is_best_under(b, used, wanted),
        ensures
            a == b,
    {
        assert(self.is_free(a, used) && self.is_free(b, used));
        if a != b && a.before(b) {
            OutPoint::lemma_asymmetric(a, b);
        }
        if exists|other: OutPoint| #[trigger] self.is_free_within(other, used, wanted) {
            assert(self.is_free_within(a, used, wanted) && self.is_free_within(b, used, wanted));
        } else {
            assert(self.follows_empty_ones(a, used) && self.follows_empty_ones(b, used));
        }
    }

    proof fn lemma_best_over_is_one(
        self,
        a: OutPoint,
        b: OutPoint,
        used: Seq<OutPoint>,
        wanted: int,
    )
        requires
            self.is_best_over(a, used, wanted),
            self.is_best_over(b, used, wanted),
        ensures
            a == b,
    {
        assert(self.is_free(a, used) && self.is_free(b, used));
        if a != b && a.before(b) {
            OutPoint::lemma_asymmetric(a, b);
        }
    }

    /// Of the first `count` unspent outputs, the best one under the wanted value is
    /// preferred.
    proof fn lemma_choice_under(self, draft: Draft, count: int, wanted: int)
        requires
            self.amounts == draft.amounts,
            ascending(draft.utxos),
            0 <= count <= draft.utxos.len(),
            wanted >= 0,
        ensures
            match draft.choice(count, wanted, true) {
                Some(best) => self.is_best_among(draft, count, wanted, best),
                None => forall|other: OutPoint| !#[trigger] available(draft, count, other),
            },
        decreases count,
    {
        if count > 0 {
            let next = draft.utxos[count - 1];
            self.lemma_choice_under(draft, count - 1, wanted);
            crate::laws::lemma_available(draft, count, next);
            assert forall|other: OutPoint| #[trigger] available(draft, count, other) implies {
                ||| available(draft, count - 1, other) && other.before(next) && other != next
                ||| other == next
            } by {
                crate::laws::lemma_available(draft, count, other);
                if available(draft, count - 1, other) {
                    crate::laws::lemma_available_comes_before(draft, count - 1, other);
                    OutPoint::lemma_asymmetric(other, next);
                }
            }
            assert forall|other: OutPoint| #[trigger]
                available(draft, count - 1, other) implies available(draft, count, other) by {
                crate::laws::lemma_available(draft, count, other);
            }
            if !draft.inscribed(next) {
                self.lemma_next_under(draft, count, wanted);
            } else {
                assert forall|other: OutPoint| #[trigger] available(draft, count, other) ==
                    available(draft, count - 1, other) by {
                    crate::laws::lemma_available(draft, count, other);
                }
                if let Some(best) = draft.choice(count, wanted, true) {
                    self.lemma_same_among(draft, count, wanted, best);
                }
            }
        } else {
            assert(draft.utxos.take(0) =~= Seq::empty());
        }
    }

    /// A smaller output is preferred; see `is_best_under`.
    spec fn is_best_among(self, draft: Draft, count: int, wanted: int, best: OutPoint) -> bool {
        &&& available(draft, count, best)
        &&& if exists|other: OutPoint| #[trigger] self.is_within(draft, count, other, wanted) {
            &&& self.is_within(draft, count, best, wanted)
            &&& forall|other: OutPoint| #[trigger]
                self.is_within(draft, count, other, wanted) && other != best ==> {
                    ||| self.amounts[other].0 < self.amounts[best].0
                    ||| self.amounts[other].0 == self.amounts[best].0 && best.before(other)
                }
        } else {
            &&& self.is_after_empty_ones(draft, count, best)
            &&& forall|other: OutPoint| #[trigger]
                available(draft, count, other) && other != best && self.amounts[other].0 > 0
                    && self.is_after_empty_ones(draft, count, other) ==> {
                    &&& self.amounts[best].0 > 0
                    &&& {
                        ||| self.amounts[best].0 < self.amounts[other].0
                        ||| self.amounts[other].0 == self.amounts[best].0 && best.before(other)
                    }
                }
        }
    }

    spec fn is_within(self, draft: Draft, count: int, outpoint: OutPoint, wanted: int) -> bool {
        available(draft, count, outpoint) && 0 < self.amounts[outpoint].0 <= wanted
    }

    spec fn is_after_empty_ones(self, draft: Draft, count: int, outpoint: OutPoint) -> bool {
        forall|empty: OutPoint| #[trigger]
            available(draft, count, empty) && self.amounts[empty].0 == 0 ==> empty == outpoint
                || empty.before(outpoint)
    }

    proof fn lemma_same_among(self, draft: Draft, count: int, wanted: int, best: OutPoint)
        requires
            forall|other: OutPoint| #[trigger]
                available(draft, count, other) == available(draft, count - 1, other),
            self.is_best_among(draft, count - 1, wanted, best),
        ensures
            self.is_best_among(draft, count, wanted, best),
    {
        assert forall|other: OutPoint| #[trigger] self.is_within(draft, count, other, wanted)
            == self.is_within(draft, count - 1, other, wanted) by {
            assert(available(draft, count, other) == available(draft, count - 1, other));
        }
        assert forall|other: OutPoint| #[trigger] self.is_within(draft, count - 1, other, wanted)
            == self.is_within(draft, count, other, wanted) by {
            assert(available(draft, count, other) == available(draft, count - 1, other));
        }
        assert forall|other: OutPoint| #[trigger] self.is_after_empty_ones(draft, count, other)
            == self.is_after_empty_ones(draft, count - 1, other) by {
            assert forall|empty: OutPoint| #[trigger] available(draft, count - 1, empty)
                == available(draft, count, empty) by {
                assert(available(draft, count, empty) == available(draft, count - 1, empty));
            }
        }
        assert(available(draft, count, best) == available(draft, count - 1, best));
        if exists|other: OutPoint| #[trigger] self.is_within(draft, count, other, wanted) {
            let other = choose|other: OutPoint| #[trigger]
                self.is_within(draft, count, other, wanted);
            assert(self.is_within(draft, count - 1, other, wanted));
        }
        if exists|other: OutPoint| #[trigger] self.is_within(draft, count - 1, other, wanted) {
            let other = choose|other: OutPoint| #[trigger]
                self.is_within(draft, count - 1, other, wanted);
            assert(self.is_within(draft, count, other, wanted));
        }
    }

    /// One more output that is available.
    proof fn lemma_next_under(self, draft: Draft, count: int, wanted: int)
        requires
            self.amounts == draft.amounts,
            0 < count <= draft.utxos.len(),
            wanted >= 0,
            match draft.choice(count - 1, wanted, true) {
                Some(best) => self.is_best_among(draft, count - 1, wanted, best),
                None => forall|other: OutPoint| !#[trigger] available(draft, count - 1, other),
            },
            !draft.inscribed(draft.utxos[count - 1]),
            available(draft, count, draft.utxos[count - 1]),
            forall|other: OutPoint| #[trigger]
                available(draft, count, other) ==> {
                    ||| available(draft, count - 1, other) && other.before(draft.utxos[count - 1])
                        && other != draft.utxos[count - 1]
                    ||| other == draft.utxos[count - 1]
                },
            forall|other: OutPoint| #[trigger]
                available(draft, count - 1, other) ==> available(draft, count, other),
        ensures
            draft.choice(count, wanted, true) matches Some(best) && self.is_best_among(
                draft,
                count,
                wanted,
                best,
            ),
    {
        let next = draft.utxos[count - 1];
        let value = self.amounts[next].0;
        let old = draft.choice(count - 1, wanted, true);
        let best = draft.choice(count, wanted, true)->Some_0;
        assert(self.is_after_empty_ones(draft, count, next));
        assert(self.is_within(draft, count, next, wanted) == (0 < value <= wanted));
        assert forall|other: OutPoint| #[trigger]
            self.is_within(draft, count, other, wanted) implies other == next || self.is_within(
            draft,
            count - 1,
            other,
            wanted,
        ) by {
            assert(available(draft, count, other));
        }
        assert forall|other: OutPoint| #[trigger]
            self.is_within(draft, count - 1, other, wanted) implies self.is_within(
            draft,
            count,
            other,
            wanted,
        ) by {
            assert(available(draft, count - 1, other));
        }
        assert forall|other: OutPoint| #[trigger]
            self.is_after_empty_ones(draft, count, other) && other
                != next implies self.is_after_empty_ones(draft, count - 1, other) by {
            assert forall|empty: OutPoint| #[trigger]
                available(draft, count - 1, empty) && self.amounts[empty].0 == 0 implies empty
                == other || empty.before(other) by {
                assert(available(draft, count, empty));
            }
        }
        if let Some(old) = old {
            assert(available(draft, count - 1, old));
            assert(available(draft, count, old));
            if self.is_within(draft, count - 1, old, wanted) {
                assert(self.is_within(draft, count, old, wanted));
            } else if 0 < value <= wanted {
                assert(!exists|other: OutPoint| #[trigger]
                    self.is_within(draft, count - 1, other, wanted));
                assert(best == next);
            } else {
                assert(!exists|other: OutPoint| #[trigger]
                    self.is_within(draft, count - 1, other, wanted));
                assert(!exists|other: OutPoint| #[trigger]
                    self.is_within(draft, count, other, wanted));
                if value == 0 {
                    assert(best == next);
                    assert forall|other: OutPoint| #[trigger]
                        available(draft, count, other) && other != best && self.amounts[other].0
                            > 0 implies !self.is_after_empty_ones(draft, count, other) by {
                        if self.is_after_empty_ones(draft, count, other) {
                            assert(available(draft, count, next));
                            OutPoint::lemma_asymmetric(other, next);
                        }
                    }
                } else if self.amounts[old].0 == 0 {
                    assert(best == next);
                    assert forall|other: OutPoint| #[trigger]
                        available(draft, count, other) && other != best && self.amounts[other].0
                            > 0 implies !self.is_after_empty_ones(draft, count, other) by {
                        if self.is_after_empty_ones(draft, count, other) {
                            assert(self.is_after_empty_ones(draft, count - 1, other));
                            assert(available(draft, count - 1, other));
                        }
                    }
                } else {
                    assert(self.is_after_empty_ones(draft, count - 1, old));
                    assert(self.is_after_empty_ones(draft, count, old)) by {
                        assert forall|empty: OutPoint| #[trigger]
                            available(draft, count, empty) && self.amounts[empty].0
                                == 0 implies empty == old || empty.before(old) by {
                            assert(available(draft, count - 1, empty));
                        }
                    }
                    assert forall|other: OutPoint| #[trigger]
                        available(draft, count, other) && other != best && self.amounts[other].0
                            > 0 && self.is_after_empty_ones(draft, count, other) implies {
                        &&& self.amounts[best].0 > 0
                        &&& {
                            ||| self.amounts[best].0 < self.amounts[other].0
                            ||| self.amounts[other].0 == self.amounts[best].0 && best.before(other)
                        }
                    } by {
                        if other != next {
                            assert(available(draft, count - 1, other));
                            assert(self.is_after_empty_ones(draft, count - 1, other));
                        }
                    }
                }
            }
        } else {
            assert(best == next);
        }
    }

    /// Where a smaller output is preferred, the best one under the wanted value is
    /// selected; none only where there is none, or where no more inputs are allowed.
    pub proof fn lemma_cardinal_under(self, draft: Draft, used: Seq<OutPoint>, wanted: int)
        requires
            self.describes(draft),
            self.has_used(draft, used),
            draft.inputs.len() <= usize::MAX,
            wanted >= 0,
        ensures
            match draft.cardinal(wanted, true) {
                Ok(utxo) => {
                    &&& self.is_best_under(utxo, used, wanted)
                    &&& self.max_inputs != Some(draft.inputs.len() as usize)
                },
                Err(Error::TooManyInputs(max_inputs)) => self.max_inputs == Some(max_inputs)
                    && max_inputs == draft.inputs.len(),
                Err(error) => {
                    &&& error == Error::NotEnoughCardinalUtxos
                    &&& forall|outpoint: OutPoint| !#[trigger] self.is_free(outpoint, used)
                    &&& self.max_inputs != Some(draft.inputs.len() as usize)
                },
            },
    {
        let count = draft.utxos.len() as int;
        self.lemma_free(draft, used);
        if self.max_inputs != Some(draft.inputs.len() as usize) {
            self.lemma_choice_under(draft, count, wanted);
            if let Some(best) = draft.choice(count, wanted, true) {
                self.lemma_best_among_is_best(draft, used, wanted, best);
            } else {
                assert forall|outpoint: OutPoint| !#[trigger] self.is_free(outpoint, used) by {
                    assert(!available(draft, count, outpoint));
                }
            }
        }
    }

    proof fn lemma_best_among_is_best(
        self,
        draft: Draft,
        used: Seq<OutPoint>,
        wanted: int,
        best: OutPoint,
    )
        requires
            self.is_best_among(draft, draft.utxos.len() as int, wanted, best),
            forall|outpoint: OutPoint| #[trigger]
                available(draft, draft.utxos.len() as int, outpoint) == self.is_free(
                    outpoint,
                    used,
                ),
            forall|outpoint: OutPoint| #[trigger]
                self.is_free(outpoint, used) == available(
                    draft,
                    draft.utxos.len() as int,
                    outpoint,
                ),
        ensures
            self.is_best_under(best, used, wanted),
    {
        let count = draft.utxos.len() as int;
        assert forall|other: OutPoint| #[trigger] self.is_free_within(other, used, wanted)
            == self.is_within(draft, count, other, wanted) by {
            assert(self.is_free(other, used) == available(draft, count, other));
        }
        assert forall|other: OutPoint| #[trigger] self.is_within(draft, count, other, wanted)
            == self.is_free_within(other, used, wanted) by {
            assert(self.is_free(other, used) == available(draft, count, other));
        }
        assert forall|other: OutPoint| #[trigger] self.follows_empty_ones(other, used)
            == self.is_after_empty_ones(draft, count, other) by {}
        assert(available(draft, count, best));
        if exists|other: OutPoint| #[trigger] self.is_within(draft, count, other, wanted) {
            let other = choose|other: OutPoint| #[trigger]
                self.is_within(draft, count, other, wanted);
            assert(self.is_free_within(other, used, wanted));
        }
    }

    /// Where a bigger output is preferred, the best one over the wanted value is
    /// selected; none only where all are empty, or where no more inputs are allowed.
    pub proof fn lemma_cardinal_over(self, draft: Draft, used: Seq<OutPoint>, wanted: int)
        requires
            self.describes(draft),
            self.has_used(draft, used),
            draft.inputs.len() <= usize::MAX,
            wanted > 0,
        ensures
            match draft.cardinal(wanted, false) {
                Ok(utxo) => {
                    &&& self.is_best_over(utxo, used, wanted)
                    &&& self.max_inputs != Some(draft.inputs.len() as usize)
                },
                Err(Error::TooManyInputs(max_inputs)) => self.max_inputs == Some(max_inputs)
                    && max_inputs == draft.inputs.len(),
                Err(error) => {
                    &&& error == Error::NotEnoughCardinalUtxos
                    &&& forall|outpoint: OutPoint| #[trigger]
                        self.is_free(outpoint, used) ==> self.amounts[outpoint].0 == 0
                    &&& self.max_inputs != Some(draft.inputs.len() as usize)
                },
            },
    {
        let count = draft.utxos.len() as int;
        self.lemma_free(draft, used);
        if self.max_inputs != Some(draft.inputs.len() as usize) {
            crate::laws::selection_prefers_smallest_over(draft, wanted);
            if let Ok(utxo) = draft.cardinal(wanted, false) {
                assert(available(draft, count, utxo));
                assert forall|other: OutPoint| #[trigger] self.is_free(other, used) implies {
                    let value = self.amounts[utxo].0;
                    let others = self.amounts[other].0;
                    &&& value >= wanted ==> others < wanted || value <= others
                    &&& value < wanted ==> others <= value
                    &&& others == value && other != utxo ==> utxo.before(other)
                } by {
                    assert(available(draft, count, other));
                }
            } else {
                assert forall|outpoint: OutPoint| #[trigger] self.is_free(
                    outpoint,
                    used,
                ) implies self.amounts[outpoint].0 == 0 by {
                    assert(available(draft, count, outpoint));
                }
            }
        }
    }
}

/// The size of outputs to addresses is that of outputs with their scripts.
pub proof fn lemma_size_of_payments(addresses: Seq<Address>)
    ensures
        crate::model::payments_size(addresses) == size_of_outputs(scripts_to(addresses)),
    decreases addresses.len(),
{
    if addresses.len() > 0 {
        lemma_size_of_payments(addresses.drop_last());
        assert(scripts_to(addresses).drop_last() =~= scripts_to(addresses.drop_last()));
    }
}

impl Request {
    /// The construction has come to a draft that spends the given outputs before and
    /// after that of the outgoing sat.
    pub open spec fn reached(self, draft: Draft, pads: Seq<OutPoint>, funds: Seq<OutPoint>) -> bool {
        &&& self.describes(draft)
        &&& draft.sound()
        &&& self.has_used(draft, pads + funds)
        &&& draft.inputs == pads.push(self.outgoing.outpoint) + funds
        &&& self.pads_are_chosen(pads)
        &&& self.funds_are_chosen(pads, funds)
        &&& draft.padding_outputs == self.recipients_from()
        &&& self.outgoing.offset > 0 ==> {
            &&& draft.outputs[0].0 == draft.alignment_address()
            &&& draft.outputs[0].1.0 == held(self.amounts, pads) + self.outgoing.offset
        }
        &&& self.outgoing.offset == 0 ==> pads.len() == 0
        &&& draft.funds() == self.amounts[self.outgoing.outpoint].0 - self.outgoing.offset + held(
            self.amounts,
            funds,
        )
    }

    proof fn lemma_wants(self, draft: Draft, count: int)
        requires
            self.describes(draft),
        ensures
            self.wants_before(count) == draft.demand_before(count),
            self.aims_at(count) == draft.aimed(count),
            self.allows(count) == draft.allowed(count),
        decreases count,
    {
        if count > 0 {
            self.lemma_wants(draft, count - 1);
        }
    }

    /// The fee of a draft is that for its inputs and for the scripts that it pays.
    proof fn lemma_fee(self, draft: Draft)
        requires
            self.describes(draft),
            draft.inputs.len() > 0,
        ensures
            draft.fee() == self.fee(
                draft.inputs.len(),
                scripts_to(crate::model::payees(draft.outputs)),
            ),
            draft.vbytes() == round_to_double(
                weight_once_signed(
                    draft.inputs.len(),
                    scripts_to(crate::model::payees(draft.outputs)),
                ),
            ),
            draft.input_fee() == self.fee_of_input(),
            draft.output_fee() == self.fee_of_output(),
    {
        lemma_size_of_payments(crate::model::payees(draft.outputs));
    }

    /// The draft pays the scripts of the request without change.
    proof fn lemma_scripts(self, draft: Draft, pads: Seq<OutPoint>, funds: Seq<OutPoint>)
        requires
            self.reached(draft, pads, funds),
        ensures
            scripts_to(crate::model::payees(draft.outputs)) == self.scripts_before_change(),
            draft.pays_in_order(),
            draft.outputs.len() == self.recipients_to(),
    {
        draft.lemma_settled_pays_in_order();
        let scripts = scripts_to(crate::model::payees(draft.outputs));
        assert forall|i: int| 0 <= i < scripts.len() implies #[trigger] scripts[i]
            == self.scripts_before_change()[i] by {
            if i >= draft.padding_outputs {
                let k = i - draft.padding_outputs;
                assert(draft.outputs[draft.padding_outputs + k].0 == draft.recipient[k]);
            }
        }
        assert(scripts =~= self.scripts_before_change());
    }

    /// With the outgoing sat selected and aligned, nothing else is spent yet.
    proof fn lemma_aligned_is_reached(self, draft: Draft)
        requires
            self.describes(draft),
            draft.fresh(),
            ascending(draft.utxos),
            self.max_inputs != Some(0usize),
        ensures
            draft.selected() matches Ok(selected) ==> {
                selected.aligned() matches Ok(aligned) ==> self.reached(
                    aligned,
                    Seq::empty(),
                    Seq::empty(),
                )
            },
    {
        if let Ok(selected) = draft.selected() {
            if let Ok(aligned) = selected.aligned() {
                let none = Seq::<OutPoint>::empty();
                let outpoint = self.outgoing.outpoint;
                let offset = self.outgoing.offset as int;
                draft.lemma_selected();
                draft.lemma_selected_is_proper();
                selected.lemma_aligned();
                selected.lemma_aligned_is_sound();
                selected.lemma_aligned_pays_in_order();
                crate::ordered::lemma_without(draft.utxos, outpoint);
                lemma_ascending_without(draft.utxos, outpoint);
                assert forall|other: OutPoint| #[trigger] aligned.utxos.contains(other) <==> {
                    &&& self.amounts.contains_key(other)
                    &&& other != outpoint
                    &&& !(none + none).contains(other)
                } by {
                    if draft.utxos.contains(other) {
                        let i = draft.utxos.index_of(other);
                        assert(draft.amounts.contains_key(draft.utxos[i]));
                    }
                }
                assert(selected.inputs[0] == outpoint);
                assert(selected.sat_offset() == Ok::<int, Error>(offset));
                assert(none.push(outpoint) + none =~= seq![outpoint]);
                if offset > 0 {
                    let rest = selected.funds() - offset;
                    selected.lemma_shares_fit();
                    selected.lemma_total_of_shares(rest);
                    assert(aligned.outputs.skip(1) =~= selected.shares(rest));
                }
            }
        }
    }

    /// Another output that pads, and is the best for it.
    proof fn lemma_pad_is_reached(self, draft: Draft, pads: Seq<OutPoint>, utxo: OutPoint)
        requires
            self.reached(draft, pads, Seq::empty()),
            self.outgoing.offset > 0,
            self.lacks_padding(pads) > 0,
            draft.cardinal(self.lacks_padding(pads), true) == Ok::<OutPoint, Error>(utxo),
            draft.outputs[0].1.0 + draft.amounts[utxo].0 <= u64::MAX,
        ensures
            self.reached(draft.pad_with(utxo), seq![utxo] + pads, Seq::empty()),
    {
        let none = Seq::<OutPoint>::empty();
        let wanted = self.lacks_padding(pads);
        let next = draft.pad_with(utxo);
        let more = seq![utxo] + pads;
        assert(pads + none =~= pads);
        assert(more + none =~= more);
        self.lemma_cardinal_under(draft, pads, wanted);
        draft.lemma_cardinal_is_unspent(wanted, true);
        draft.lemma_pad_with_is_sound(wanted);
        draft.lemma_pad_with(utxo);
        self.lemma_used(draft, pads, utxo, next, more);
        assert(more.drop_first() =~= pads);
        assert(more[0] == utxo);
        assert(next.inputs =~= more.push(self.outgoing.outpoint) + none);
        lemma_held_of_parts(self.amounts, seq![utxo], pads);
        lemma_held_by_one(self.amounts, utxo);
        assert(next.outputs[0].0 == draft.outputs[0].0);
        assert(next.outputs[0].1.0 == draft.outputs[0].1.0 + draft.amounts[utxo].0);
        assert(held(self.amounts, more) == draft.amounts[utxo].0 + held(self.amounts, pads));
        self.lemma_describes_next(draft, next);
        assert(self.has_used(next, more + none));
        assert(self.pads_are_chosen(more));
        assert(self.funds_are_chosen(more, none));
        assert(next.funds() == draft.funds());
    }

    /// What is used grows by what is taken out of the unspent outputs.
    proof fn lemma_used(
        self,
        draft: Draft,
        used: Seq<OutPoint>,
        utxo: OutPoint,
        next: Draft,
        more: Seq<OutPoint>,
    )
        requires
            self.has_used(draft, used),
            draft.utxos.no_duplicates(),
            next.utxos == crate::ordered::without(draft.utxos, utxo),
            more == seq![utxo] + used || more == used.push(utxo),
        ensures
            self.has_used(next, more),
    {
        crate::ordered::lemma_without(draft.utxos, utxo);
        lemma_ascending_without(draft.utxos, utxo);
        assert forall|outpoint: OutPoint| #[trigger] more.contains(outpoint) <==> used.contains(
            outpoint,
        ) || outpoint == utxo by {
            if more == seq![utxo] + used {
                assert(more[0] == utxo);
                if used.contains(outpoint) {
                    assert(more[used.index_of(outpoint) + 1] == outpoint);
                }
                if more.contains(outpoint) && outpoint != utxo {
                    assert(used[more.index_of(outpoint) - 1] == outpoint);
                }
            } else {
                assert(more[used.len() as int] == utxo);
                if used.contains(outpoint) {
                    assert(more[used.index_of(outpoint)] == outpoint);
                }
                if more.contains(outpoint) && outpoint != utxo {
                    assert(used[more.index_of(outpoint)] == outpoint);
                }
            }
        }
    }

    /// Another output that funds, and is the best for it.
    proof fn lemma_fund_is_reached(
        self,
        draft: Draft,
        pads: Seq<OutPoint>,
        funds: Seq<OutPoint>,
        utxo: OutPoint,
    )
        requires
            self.reached(draft, pads, funds),
            self.lacks_funds(pads, funds) > 0,
            draft.cardinal(self.lacks_funds(pads, funds) + self.fee_of_input(), false) == Ok::<
                OutPoint,
                Error,
            >(utxo),
            draft.amounts[utxo].0 >= self.fee_of_input(),
            draft.funds() - draft.demand_before(draft.current_output) + draft.amounts[utxo].0
                <= u64::MAX,
        ensures
            self.reached(draft.fund_with(utxo), pads, funds.push(utxo)),
            self.lacks_funds(pads, funds.push(utxo)) == self.lacks_funds(pads, funds) - (
            draft.amounts[utxo].0 - self.fee_of_input()),
    {
        let wanted = self.lacks_funds(pads, funds) + self.fee_of_input();
        let next = draft.fund_with(utxo);
        let more = funds.push(utxo);
        self.lemma_cardinal_over(draft, pads + funds, wanted);
        draft.lemma_cardinal_is_unspent(wanted, false);
        draft.lemma_fund_with_is_sound(wanted);
        draft.lemma_fund_with(utxo);
        assert((pads + funds).push(utxo) =~= pads + more);
        self.lemma_used(draft, pads + funds, utxo, next, pads + more);
        assert(more.drop_last() =~= funds);
        assert(next.inputs =~= pads.push(self.outgoing.outpoint) + more);
        if self.outgoing.offset > 0 {
            assert(next.outputs[0] == draft.outputs.take(1)[0]);
        }
        let fee = self.fee_of_input();
        let count = funds.len() as int;
        assert((count + 1) * fee == count * fee + fee) by (nonlinear_arith);
        assert(held(self.amounts, more) == held(self.amounts, funds) + draft.amounts[utxo].0);
        self.lemma_describes_next(draft, next);
        assert(self.has_used(next, pads + more));
        assert(self.funds_are_chosen(pads, more));
        assert(next.funds() == draft.funds() + draft.amounts[utxo].0);
    }

    /// What is spent and one more output hold no more than can be counted.
    proof fn lemma_counted(
        self,
        draft: Draft,
        pads: Seq<OutPoint>,
        funds: Seq<OutPoint>,
        utxo: OutPoint,
    )
        requires
            self.reached(draft, pads, funds),
            self.wallet_is_countable(),
            draft.utxos.contains(utxo),
        ensures
            held(self.amounts, pads) + self.amounts[self.outgoing.outpoint].0 + held(
                self.amounts,
                funds,
            ) + self.amounts[utxo].0 <= u64::MAX,
    {
        let more = draft.inputs.push(utxo);
        assert forall|i: int| 0 <= i < draft.inputs.len() implies #[trigger] draft.inputs[i]
            != utxo by {
            assert(!draft.utxos.contains(draft.inputs[i]));
        }
        assert forall|i: int| 0 <= i < more.len() implies self.amounts.contains_key(
            #[trigger] more[i],
        ) by {
            if i < draft.inputs.len() {
                assert(draft.amounts.contains_key(draft.inputs[i]));
            } else {
                let j = draft.utxos.index_of(utxo);
                assert(draft.amounts.contains_key(draft.utxos[j]));
            }
        }
        assert forall|i: int, j: int| 0 <= i < j < more.len() implies more[i] != more[j] by {
            if j < draft.inputs.len() {
                assert(draft.inputs[i] != draft.inputs[j]);
            } else {
                assert(draft.inputs[i] != utxo);
            }
        }
        assert(held(self.amounts, more) <= u64::MAX);
        assert(more.drop_last() =~= draft.inputs);
        self.lemma_inputs_in_parts(draft.inputs, pads, funds);
    }

    /// Padding goes on until nothing is lacking.
    proof fn lemma_padding(self, draft: Draft, pads: Seq<OutPoint>) -> (all: Seq<OutPoint>)
        requires
            self.reached(draft, pads, Seq::empty()),
            self.outgoing.offset > 0,
        ensures
            self.pads_are_chosen(all),
            match draft.padded_to_dust_limit() {
                Ok(next) => self.reached(next, all, Seq::empty()) && self.lacks_padding(all) <= 0,
                Err(error) => self.lacks_padding(all) > 0 && match error {
                    Error::TooManyInputs(max_inputs) => self.max_inputs == Some(max_inputs)
                        && max_inputs == all.len() + 1,
                    Error::NotEnoughCardinalUtxos => !self.allows_no_more_than(all.len() + 1)
                        && forall|outpoint: OutPoint| !#[trigger] self.is_free(outpoint, all),
                    error => error == Error::Broken(Invariant::Arithmetic)
                        && !self.wallet_is_countable(),
                },
            },
        decreases draft.utxos.len(),
    {
        let none = Seq::<OutPoint>::empty();
        let wanted = self.lacks_padding(pads);
        assert(pads + none =~= pads);
        assert(pads.push(self.outgoing.outpoint) + none =~= pads.push(self.outgoing.outpoint));
        if wanted > 0 {
            self.lemma_cardinal_under(draft, pads, wanted);
            draft.lemma_cardinal_is_unspent(wanted, true);
            if let Ok(utxo) = draft.cardinal(wanted, true) {
                if draft.outputs[0].1.0 + draft.amounts[utxo].0 <= u64::MAX {
                    self.lemma_pad_is_reached(draft, pads, utxo);
                    self.lemma_padding(draft.pad_with(utxo), seq![utxo] + pads)
                } else {
                    if self.wallet_is_countable() {
                        self.lemma_counted(draft, pads, none, utxo);
                    }
                    pads
                }
            } else {
                pads
            }
        } else {
            pads
        }
    }

    /// Funding goes on until nothing is lacking.
    proof fn lemma_funding(self, draft: Draft, pads: Seq<OutPoint>, funds: Seq<OutPoint>) -> (all:
        Seq<OutPoint>)
        requires
            self.reached(draft, pads, funds),
        ensures
            self.funds_are_chosen(pads, all),
            match draft.funded_for(self.lacks_funds(pads, funds)) {
                Ok(next) => self.reached(next, pads, all) && self.lacks_funds(pads, all) <= 0,
                Err(error) => self.lacks_funds(pads, all) > 0 && match error {
                    Error::TooManyInputs(max_inputs) => {
                        &&& self.max_inputs == Some(max_inputs)
                        &&& max_inputs == pads.len() + 1 + all.len()
                        &&& self.lacks_funds(pads, all) + self.fee_of_input() <= u64::MAX
                    },
                    Error::NotEnoughCardinalUtxos => {
                        &&& !self.allows_no_more_than(pads.len() + 1 + all.len())
                        &&& self.lacks_funds(pads, all) + self.fee_of_input() <= u64::MAX
                        &&& forall|outpoint: OutPoint| #[trigger]
                            self.is_free(outpoint, pads + all) ==> self.amounts[outpoint].0 == 0
                                || self.amounts[outpoint].0 < self.fee_of_input()
                    },
                    Error::ValueOverflow => self.lacks_funds(pads, all) + self.fee_of_input()
                        > u64::MAX,
                    error => error == Error::Broken(Invariant::Arithmetic)
                        && !self.wallet_is_countable(),
                },
            },
        decreases draft.utxos.len(),
    {
        let deficit = self.lacks_funds(pads, funds);
        let needed = deficit + self.fee_of_input();
        self.lemma_fee(draft);
        if deficit > 0 && needed <= u64::MAX {
            self.lemma_cardinal_over(draft, pads + funds, needed);
            draft.lemma_cardinal_is_unspent(needed, false);
            if let Ok(utxo) = draft.cardinal(needed, false) {
                let value = draft.amounts[utxo].0;
                let existing = draft.funds() - draft.demand_before(draft.current_output);
                if value >= draft.input_fee() && existing + value <= u64::MAX {
                    self.lemma_fund_is_reached(draft, pads, funds, utxo);
                    self.lemma_funding(draft.fund_with(utxo), pads, funds.push(utxo))
                } else {
                    if self.wallet_is_countable() {
                        self.lemma_counted(draft, pads, funds, utxo);
                        lemma_held_is_not_negative(self.amounts, pads);
                        draft.lemma_shares_fit();
                        draft.lemma_served(draft.funds());
                        draft.lemma_demand_grows(0, draft.current_output);
                    }
                    funds
                }
            } else {
                funds
            }
        } else {
            funds
        }
    }
}

/// What the inputs hold, in either way of counting.
pub proof fn lemma_held_is_worth(amounts: Map<OutPoint, Amount>, outpoints: Seq<OutPoint>)
    ensures
        held(amounts, outpoints) == crate::model::worth(amounts, outpoints),
    decreases outpoints.len(),
{
    if outpoints.len() > 0 {
        lemma_held_is_worth(amounts, outpoints.drop_last());
    }
}

/// The outputs of a transaction are those of a draft.
pub open spec fn pays_alike(outputs: Seq<TxOut>, drafted: Seq<(Address, Amount)>) -> bool {
    &&& outputs.len() == drafted.len()
    &&& forall|i: int|
        0 <= i < outputs.len() ==> {
            &&& (#[trigger] outputs[i]).value == drafted[i].1.0
            &&& outputs[i].script_pubkey@ == drafted[i].0.script()
        }
}

pub proof fn lemma_pays_alike_in_part(
    outputs: Seq<TxOut>,
    drafted: Seq<(Address, Amount)>,
    from: int,
    to: int,
)
    requires
        pays_alike(outputs, drafted),
        0 <= from <= to <= outputs.len(),
    ensures
        pays_alike(outputs.subrange(from, to), drafted.subrange(from, to)),
{
    assert forall|i: int| 0 <= i < to - from implies {
        &&& (#[trigger] outputs.subrange(from, to)[i]).value == drafted.subrange(from, to)[i].1.0
        &&& outputs.subrange(from, to)[i].script_pubkey@ == drafted.subrange(
            from,
            to,
        )[i].0.script()
    } by {
        assert(outputs[from + i].value == drafted[from + i].1.0);
    }
}

/// What the outputs hold, in either way of counting.
pub proof fn lemma_paid_is_total(outputs: Seq<TxOut>, drafted: Seq<(Address, Amount)>)
    requires
        pays_alike(outputs, drafted),
    ensures
        paid(outputs) == total(drafted),
    decreases outputs.len(),
{
    if outputs.len() > 0 {
        let last = outputs.len() - 1;
        lemma_pays_alike_in_part(outputs, drafted, 0, last);
        assert(outputs.drop_last() =~= outputs.subrange(0, last));
        assert(drafted.drop_last() =~= drafted.subrange(0, last));
        assert(outputs[last].value == drafted[last].1.0);
        lemma_paid_is_total(outputs.drop_last(), drafted.drop_last());
    }
}

/// How often a script is paid, in either way of counting.
pub proof fn lemma_times_paid(outputs: Seq<TxOut>, drafted: Seq<(Address, Amount)>, script: Seq<u8>)
    requires
        pays_alike(outputs, drafted),
    ensures
        times_paid(outputs, script) >= 1 <==> crate::model::paid(drafted, script),
        times_paid(outputs, script) <= 1 <==> crate::model::paid_at_most_once(drafted, script),
    decreases outputs.len(),
{
    if outputs.len() > 0 {
        let last = outputs.len() - 1;
        let fewer = drafted.drop_last();
        lemma_pays_alike_in_part(outputs, drafted, 0, last);
        assert(outputs.drop_last() =~= outputs.subrange(0, last));
        assert(fewer =~= drafted.subrange(0, last));
        assert(outputs[last].script_pubkey@ == drafted[last].0.script());
        lemma_times_paid(outputs.drop_last(), fewer, script);
        if crate::model::paid(fewer, script) {
            let i = choose|i: int|
                0 <= i < fewer.len() && #[trigger] fewer[i].0.script() == script;
            assert(drafted[i].0.script() == script);
            assert(crate::model::paid(drafted, script));
            if drafted[last].0.script() == script {
                assert(!crate::model::paid_at_most_once(drafted, script));
            }
        }
        if crate::model::paid(drafted, script) && drafted[last].0.script() != script {
            let i = choose|i: int|
                0 <= i < drafted.len() && #[trigger] drafted[i].0.script() == script;
            assert(fewer[i].0.script() == script);
        }
        if crate::model::paid_at_most_once(drafted, script) {
            assert forall|i: int, j: int|
                0 <= i < j < fewer.len() && #[trigger] fewer[i].0.script()
                    == script implies #[trigger] fewer[j].0.script() != script by {
                assert(drafted[i].0.script() == script);
                assert(drafted[j].0.script() != script);
            }
        }
        if !crate::model::paid_at_most_once(fewer, script) {
            let (i, j) = choose|i: int, j: int|
                0 <= i < j < fewer.len() && #[trigger] fewer[i].0.script() == script
                    && #[trigger] fewer[j].0.script() == script;
            assert(drafted[i].0.script() == script && drafted[j].0.script() == script);
            assert(!crate::model::paid_at_most_once(drafted, script));
        }
        if crate::model::paid_at_most_once(fewer, script) && !(drafted[last].0.script() == script
            && crate::model::paid(fewer, script)) {
            assert forall|i: int, j: int|
                0 <= i < j < drafted.len() && #[trigger] drafted[i].0.script()
                    == script implies #[trigger] drafted[j].0.script() != script by {
                assert(fewer[i].0.script() == script);
                if j < last {
                    assert(fewer[j].0.script() != script);
                }
            }
        }
    }
}

impl Draft {
    /// The steps until the recipients and the fee are funded.
    #[verifier::opaque]
    spec fn until_funded(self) -> Result<Draft, Error> {
        match self.selected() {
            Err(error) => Err(error),
            Ok(selected) => match selected.aligned() {
                Err(error) => Err(error),
                Ok(aligned) => match aligned.padded() {
                    Err(error) => Err(error),
                    Ok(padded) => padded.funded(),
                },
            },
        }
    }

    proof fn lemma_assembled_in_parts(self)
        ensures
            self.assembled() == match self.until_funded() {
                Err(error) => Err(error),
                Ok(funded) => match funded.stripped() {
                    Err(error) => Err(error),
                    Ok(stripped) => stripped.deducted(),
                },
            },
    {
        reveal(Draft::until_funded);
    }
}

impl Request {
    /// The draft is the one that the request begins with.
    pub open spec fn begins_with(self, draft: Draft) -> bool {
        &&& self.describes(draft)
        &&& draft.fresh()
        &&& ascending(draft.utxos)
    }

    /// The padded draft, and what pads it.
    proof fn lemma_padded(self, aligned: Draft) -> (pads: Seq<OutPoint>)
        requires
            self.reached(aligned, Seq::empty(), Seq::empty()),
        ensures
            self.pads_are_chosen(pads),
            match aligned.padded() {
                Ok(padded) => self.reached(padded, pads, Seq::empty()) && self.is_padded(pads),
                Err(error) => self.needs_padding(pads) && match error {
                    Error::TooManyInputs(max_inputs) => self.max_inputs == Some(max_inputs)
                        && max_inputs == pads.len() + 1,
                    Error::NotEnoughCardinalUtxos => !self.allows_no_more_than(pads.len() + 1)
                        && forall|outpoint: OutPoint| !#[trigger] self.is_free(outpoint, pads),
                    error => error == Error::Broken(Invariant::Arithmetic)
                        && !self.wallet_is_countable(),
                },
            },
    {
        let none = Seq::<OutPoint>::empty();
        if aligned.outputs[0].0 == aligned.recipient[0] {
            none
        } else {
            aligned.lemma_settled_pays_in_order();
            if self.outgoing.offset == 0 {
                assert(aligned.outputs[aligned.padding_outputs + 0].0 == aligned.recipient[0]);
            }
            self.lemma_padding(aligned, none)
        }
    }

    /// The funded draft, and what funds it.
    proof fn lemma_funded(self, padded: Draft, pads: Seq<OutPoint>) -> (funds: Seq<OutPoint>)
        requires
            self.reached(padded, pads, Seq::empty()),
            self.is_padded(pads),
        ensures
            self.funds_are_chosen(pads, funds),
            match padded.funded() {
                Ok(funded) => {
                    &&& self.reached(funded, pads, funds)
                    &&& self.lacks_funds(pads, funds) <= 0
                    &&& self.wants_with_fee(pads) <= u64::MAX
                },
                Err(error) => match error {
                    Error::TooManyInputs(max_inputs) => {
                        &&& self.max_inputs == Some(max_inputs)
                        &&& max_inputs == pads.len() + 1 + funds.len()
                        &&& self.needs_funds(pads, funds)
                    },
                    Error::NotEnoughCardinalUtxos => {
                        &&& self.needs_funds(pads, funds)
                        &&& !self.allows_no_more_than(pads.len() + 1 + funds.len())
                        &&& forall|outpoint: OutPoint| #[trigger]
                            self.is_free(outpoint, pads + funds) ==> self.amounts[outpoint].0 == 0
                                || self.amounts[outpoint].0 < self.fee_of_input()
                    },
                    Error::ValueOverflow => self.needs_too_much(pads, funds),
                    error => {
                        &&& error == Error::Broken(Invariant::Arithmetic)
                        &&& self.wallet_is_countable() ==> self.wants_before(
                            self.recipient.len() as int,
                        ) > u64::MAX
                    },
                },
            },
    {
        let none = Seq::<OutPoint>::empty();
        self.lemma_fee(padded);
        self.lemma_scripts(padded, pads, none);
        self.lemma_wants(padded, self.recipient.len() as int);
        assert(pads.push(self.outgoing.outpoint) + none =~= pads.push(self.outgoing.outpoint));
        assert(none.len() * self.fee_of_input() == 0) by (nonlinear_arith)
            requires
                none.len() == 0,
        ;
        assert(self.lacks_funds(pads, none) == padded.demand_before(padded.paired())
            + padded.fee() - padded.funds());
        assert(self.wants_with_fee(pads) == padded.demand_before(padded.paired())
            + padded.fee());
        if self.wallet_is_countable() {
            assert(padded.funds() <= u64::MAX);
        }
        if self.wants_with_fee(pads) > u64::MAX {
            none
        } else {
            self.lemma_funding(padded, pads, none)
        }
    }

    /// The course of the construction until the recipients are funded.
    proof fn lemma_course(self, draft: Draft) -> (course: (Seq<OutPoint>, Seq<OutPoint>))
        requires
            self.begins_with(draft),
            self.max_inputs != Some(0usize),
            draft.until_funded() is Ok,
        ensures
            self.reached(draft.until_funded()->Ok_0, course.0, course.1),
            self.is_padded(course.0),
            self.lacks_funds(course.0, course.1) <= 0,
    {
        reveal(Draft::until_funded);
        self.lemma_aligned_is_reached(draft);
        let aligned = draft.selected()->Ok_0.aligned()->Ok_0;
        let pads = self.lemma_padded(aligned);
        let funds = self.lemma_funded(aligned.padded()->Ok_0, pads);
        (pads, funds)
    }
}

impl Request {
    /// The inputs before and after that of the outgoing sat.
    proof fn lemma_inputs_in_parts(
        self,
        spent: Seq<OutPoint>,
        pads: Seq<OutPoint>,
        funds: Seq<OutPoint>,
    )
        requires
            spent == pads.push(self.outgoing.outpoint) + funds,
            spent.no_duplicates(),
        ensures
            spent.contains(self.outgoing.outpoint),
            spent.index_of(self.outgoing.outpoint) == pads.len(),
            spent.take(pads.len() as int) == pads,
            spent.skip(pads.len() as int + 1) == funds,
            held(self.amounts, spent) == held(self.amounts, pads)
                + self.amounts[self.outgoing.outpoint].0 + held(self.amounts, funds),
    {
        assert(spent[pads.len() as int] == self.outgoing.outpoint);
        assert(spent.take(pads.len() as int) =~= pads);
        assert(spent.skip(pads.len() as int + 1) =~= funds);
        lemma_held_of_parts(self.amounts, pads.push(self.outgoing.outpoint), funds);
        assert(pads.push(self.outgoing.outpoint).drop_last() =~= pads);
    }

    proof fn lemma_met_inputs(self, draft: Draft)
        requires
            self.describes(draft),
            draft.spends_properly(),
            draft.payable(),
            crate::model::worth(draft.amounts, draft.inputs) <= u64::MAX,
        ensures
            self.spends_properly(draft.inputs),
            self.has_sat(),
    {
        lemma_held_is_worth(self.amounts, draft.inputs);
        assert forall|i: int|
            0 <= i < draft.inputs.len() && #[trigger] draft.inputs[i]
                != self.outgoing.outpoint implies self.is_cardinal(draft.inputs[i]) by {
            self.lemma_cardinals(draft, draft.inputs[i]);
            assert(draft.amounts.contains_key(draft.inputs[i]));
        }
    }

    proof fn lemma_met_order(self, draft: Draft, outputs: Seq<TxOut>)
        requires
            self.describes(draft),
            draft.pays_in_order(),
            draft.padding_outputs == self.recipients_from(),
            pays_alike(outputs, draft.outputs),
            draft.recipients_paid_once(),
            draft.change_paid_at_most_once(),
            draft.above_dust_limit(),
        ensures
            self.pays_in_order(outputs),
            self.pays_each_once(outputs),
            pays_no_dust(outputs),
    {
        let from = self.recipients_from();
        assert forall|i: int| 0 <= i < self.recipient.len() implies (
        #[trigger] outputs[from + i]).script_pubkey@ == self.recipient[i].script() by {
            assert(draft.outputs[from + i].0 == draft.recipient[i]);
        }
        if from == 1 {
            assert(outputs[0].script_pubkey@ == draft.outputs[0].0.script());
        }
        if outputs.len() > self.recipients_to() {
            let to = self.recipients_to();
            assert(outputs[to].script_pubkey@ == draft.outputs[to].0.script());
        }
        assert forall|i: int| 0 <= i < self.recipient.len() implies times_paid(
            outputs,
            (#[trigger] self.recipient[i]).script(),
        ) == 1 by {
            lemma_times_paid(outputs, draft.outputs, draft.recipient[i].script());
        }
        assert(crate::model::paid_at_most_once(draft.outputs, draft.change_addresses[0].script()));
        assert(crate::model::paid_at_most_once(draft.outputs, draft.change_addresses[1].script()));
        lemma_times_paid(outputs, draft.outputs, self.change[0].script());
        lemma_times_paid(outputs, draft.outputs, self.change[1].script());
        assert forall|i: int| 0 <= i < outputs.len() implies (#[trigger] outputs[i]).value
            >= dust_of(outputs[i].script_pubkey@) by {
            assert(draft.outputs[i].1.0 >= draft.outputs[i].0.dust());
        }
    }

    proof fn lemma_slack(self)
        requires
            self.change.len() == 2,
        ensures
            crate::model::largest_dust(self.change) == if self.change[0].dust()
                > self.change[1].dust() {
                self.change[0].dust()
            } else {
                self.change[1].dust()
            },
    {
        reveal_with_fuel(crate::model::largest_dust, 3);
        assert(self.change.drop_last()[0] == self.change[0]);
        assert(self.change.drop_last().last() == self.change[0]);
    }

    proof fn lemma_met_amounts(self, draft: Draft, outputs: Seq<TxOut>)
        requires
            self.describes(draft),
            draft.pays_in_order(),
            draft.favours_none_but_the_last(),
            draft.padding_outputs == self.recipients_from(),
            draft.matched(),
            pays_alike(outputs, draft.outputs),
            draft.broken_target(0) is None,
            draft.above_dust_limit(),
            draft.outputs.len() > self.recipients_to() ==> draft.meets_targets(),
        ensures
            self.pays_amounts(outputs),
    {
        let from = self.recipients_from();
        let to = self.recipients_to();
        self.lemma_slack();
        assert forall|i: int| 0 <= i < self.recipient.len() implies self.pays_recipient(
            i,
            (#[trigger] outputs[from + i]).value,
        ) by {
            crate::laws::lemma_target_is_met(draft, 0, i);
            assert(outputs[from + i].value == draft.outputs[from + i].1.0);
        }
        assert forall|i: int| 0 <= i < self.recipient.len() - 1 implies (
        #[trigger] outputs[from + i]).value == self.wants(i) by {
            crate::laws::lemma_target_is_met(draft, 0, i);
            assert(draft.outputs[from + i].0 == draft.recipient[i]);
            assert(draft.outputs[from + i].1.0 <= draft.demand(i));
            assert(draft.outputs[from + i].1.0 >= draft.outputs[from + i].0.dust());
        }
        if outputs.len() > to {
            lemma_pays_alike_in_part(outputs, draft.outputs, from, to);
            lemma_paid_is_total(outputs.subrange(from, to), draft.outputs.subrange(from, to));
            crate::allotment::lemma_total_split(draft.outputs.take(to), from);
            assert(draft.outputs.take(to).take(from) =~= draft.outputs.take(from));
            assert(draft.outputs.take(to).skip(from) =~= draft.outputs.subrange(from, to));
            self.lemma_wants(draft, self.target.len() as int);
        }
    }

    /// There is a change output just where there should be one.
    proof fn lemma_met_change(
        self,
        funded: Draft,
        pads: Seq<OutPoint>,
        funds: Seq<OutPoint>,
        outputs: Seq<TxOut>,
    )
        requires
            self.reached(funded, pads, funds),
            funded.stripped() matches Ok(stripped) && stripped.deducted() matches Ok(deducted)
                && outputs.len() == deducted.outputs.len(),
        ensures
            self.gives_change_rightly(pads, funded.inputs, outputs),
    {
        let stripped = funded.stripped()->Ok_0;
        self.lemma_fee(funded);
        self.lemma_scripts(funded, pads, funds);
        self.lemma_wants(funded, self.target.len() as int);
        self.lemma_funded_totals(funded, pads, funds);
    }
}

/// What the final checks have found.
proof fn lemma_checked(draft: Draft)
    requires
        draft.checked() is Ok,
    ensures
        draft.checked() == Ok::<Draft, Error>(draft),
        draft.recipients_paid_once(),
        draft.change_paid_at_most_once(),
        draft.above_dust_limit(),
        draft.broken_target(0) is None,
        crate::model::worth(draft.amounts, draft.inputs) <= u64::MAX,
{
}

impl Request {
    proof fn lemma_sensible(self, draft: Draft)
        requires
            self.describes(draft),
            draft.refusal() is None,
        ensures
            forall|i: int|
                0 <= i < self.recipient.len() ==> #[trigger] self.recipient[i] != self.change[0]
                    && self.recipient[i] != self.change[1],
            self.change[0] != self.change[1],
            self.max_inputs != Some(0usize),
    {
        self.lemma_no_recipient_in_change(draft, 0);
    }

    proof fn lemma_no_recipient_in_change(self, draft: Draft, from: int)
        requires
            self.describes(draft),
            draft.recipient_in_change(from) is None,
            0 <= from,
        ensures
            forall|i: int|
                from <= i < self.recipient.len() ==> #[trigger] self.recipient[i] != self.change[0]
                    && self.recipient[i] != self.change[1],
        decreases self.recipient.len() - from,
    {
        if from < self.recipient.len() {
            self.lemma_no_recipient_in_change(draft, from + 1);
            assert(self.change[0] == draft.unused_change_addresses[0]);
            assert(self.change[1] == draft.unused_change_addresses[1]);
        }
    }

    proof fn lemma_none_goes_along(self, draft: Draft)
        requires
            self.describes(draft),
            draft.last_conflict(draft.inscriptions.len() as int) is None,
        ensures
            forall|inscribed: SatPoint| !#[trigger] self.would_go_along(inscribed),
    {
        crate::laws::lemma_no_conflict(draft, draft.inscriptions.len() as int);
        assert forall|inscribed: SatPoint| !#[trigger] self.would_go_along(inscribed) by {
            if self.inscriptions.contains_key(inscribed) {
                let i = choose|i: int|
                    0 <= i < draft.inscriptions.len() && #[trigger] draft.inscriptions[i].0
                        == inscribed;
                assert(!draft.conflicts(draft.inscriptions[i].0));
            }
        }
    }

    /// What is built meets the request.
    pub proof fn lemma_met(self, draft: Draft, transaction: Transaction)
        requires
            self.begins_with(draft),
            draft.outcome() matches Ok(finished) && transaction.carries_out(finished),
        ensures
            self.is_met_by(transaction),
    {
        let finished = draft.outcome()->Ok_0;
        let outputs = transaction.output@;
        self.lemma_sensible(draft);
        draft.lemma_assembled_in_parts();
        draft.lemma_assembled();
        let funded = draft.until_funded()->Ok_0;
        let (pads, funds) = self.lemma_course(draft);
        let assembled = draft.assembled()->Ok_0;
        lemma_checked(assembled);
        assert(finished == assembled);
        self.lemma_describes_next(draft, finished);
        self.lemma_tail_keeps_inputs(funded);
        assert(finished.inputs == funded.inputs);
        assert(spent_by(transaction) =~= finished.inputs);
        assert(pays_alike(outputs, finished.outputs));
        self.lemma_inputs_in_parts(finished.inputs, pads, funds);
        self.lemma_met_inputs(finished);
        self.lemma_met_order(finished, outputs);
        self.lemma_met_amounts(finished, outputs);
        self.lemma_met_change(funded, pads, funds, outputs);
        self.lemma_selection_found_no_conflict(draft);
        self.lemma_none_goes_along(draft);
        lemma_held_is_worth(self.amounts, finished.inputs);
        lemma_paid_is_total(outputs, finished.outputs);
        self.lemma_fee(finished);
        assert(scripts_of(outputs) =~= scripts_to(crate::model::payees(finished.outputs)));
        assert(is_replaceable_and_unsigned(transaction)) by {
            assert forall|i: int| 0 <= i < transaction.input@.len() implies {
                &&& (#[trigger] transaction.input@[i]).sequence == 0xffff_fffd
                &&& transaction.input@[i].script_sig@.len() == 0
                &&& transaction.input@[i].witness@.len() == 0
            } by {
                assert(transaction.input@[i].previous_output == finished.inputs[i]);
            }
        }
        if self.lacks_padding(pads) > 0 {
            self.lemma_alignment_is_not_recipient(outputs);
        }
        if self.outgoing.offset > 0 {
            assert(outputs[0].value == finished.outputs[0].1.0);
            assert(finished.outputs[0] == funded.outputs[0]);
        }
    }

    /// Where each recipient is paid once, the sats before the outgoing one go to
    /// another address.
    proof fn lemma_alignment_is_not_recipient(self, outputs: Seq<TxOut>)
        requires
            self.pays_in_order(outputs),
            self.pays_each_once(outputs),
            self.recipient.len() > 0,
            self.outgoing.offset > 0,
        ensures
            self.alignment_script() != self.recipient[0].script(),
    {
        let script = self.recipient[0].script();
        assert(outputs[self.recipients_from() + 0].script_pubkey@ == script);
        if self.alignment_script() == script {
            lemma_paid_twice(outputs, 0, 1, script);
            assert(times_paid(outputs, self.recipient[0].script()) == 1);
        }
    }

    /// The last steps spend nothing more, and leave the first of several outputs.
    proof fn lemma_tail_keeps_inputs(self, funded: Draft)
        requires
            funded.stripped() matches Ok(stripped) && stripped.deducted() is Ok,
        ensures
            ({
                let finished = funded.stripped()->Ok_0.deducted()->Ok_0;
                &&& finished.inputs == funded.inputs
                &&& funded.outputs.len() > 1 ==> finished.outputs[0] == funded.outputs[0]
                &&& finished.padding_outputs == funded.padding_outputs
                &&& funded.same_origin(finished)
            }),
    {
    }

    proof fn lemma_selection_found_no_conflict(self, draft: Draft)
        requires
            draft.until_funded() is Ok,
        ensures
            draft.last_conflict(draft.inscriptions.len() as int) is None,
    {
        reveal(Draft::until_funded);
    }
}

/// A script that two outputs have is paid more than once.
proof fn lemma_paid_twice(outputs: Seq<TxOut>, i: int, j: int, script: Seq<u8>)
    requires
        0 <= i < j < outputs.len(),
        outputs[i].script_pubkey@ == script,
        outputs[j].script_pubkey@ == script,
    ensures
        times_paid(outputs, script) >= 2,
    decreases outputs.len(),
{
    if j < outputs.len() - 1 {
        lemma_paid_twice(outputs.drop_last(), i, j, script);
    } else {
        lemma_paid_at_all(outputs.drop_last(), i, script);
    }
}

proof fn lemma_paid_at_all(outputs: Seq<TxOut>, i: int, script: Seq<u8>)
    requires
        0 <= i < outputs.len(),
        outputs[i].script_pubkey@ == script,
    ensures
        times_paid(outputs, script) >= 1,
    decreases outputs.len(),
{
    if i < outputs.len() - 1 {
        lemma_paid_at_all(outputs.drop_last(), i, script);
    }
}

impl Request {
    proof fn lemma_first_recipient_in_change(self, draft: Draft, from: int)
        requires
            self.describes(draft),
            0 <= from,
            forall|i: int| i < from ==> !#[trigger] self.is_change_too(i),
        ensures
            match draft.recipient_in_change(from) {
                Some(address) => exists|i: int| #[trigger]
                    self.is_change_too(i) && self.recipient[i] == address && forall|j: int|
                        j < i ==> !#[trigger] self.is_change_too(j),
                None => forall|i: int| !#[trigger] self.is_change_too(i),
            },
        decreases self.recipient.len() - from,
    {
        if from < self.recipient.len() {
            assert(self.change[0] == draft.unused_change_addresses[0]);
            assert(self.change[1] == draft.unused_change_addresses[1]);
            assert(self.is_change_too(from) == draft.unused_change_addresses.contains(
                self.recipient[from],
            ));
            if !self.is_change_too(from) {
                assert forall|i: int| i < from + 1 implies !#[trigger] self.is_change_too(i) by {
                    if i < from {
                        assert(!self.is_change_too(i));
                    }
                }
                self.lemma_first_recipient_in_change(draft, from + 1);
            }
        }
    }

    proof fn lemma_refusal(self, draft: Draft)
        requires
            self.describes(draft),
        ensures
            match draft.refusal() {
                Some(error) => self.is_refused_with(error),
                None => self.can_begin(),
            },
    {
        assert forall|i: int| i < 0 implies !#[trigger] self.is_change_too(i) by {}
        self.lemma_first_recipient_in_change(draft, 0);
    }

    proof fn lemma_last_conflict(self, draft: Draft, count: int)
        requires
            self.describes(draft),
            0 <= count <= draft.inscriptions.len(),
        ensures
            match draft.last_conflict(count) {
                Some((inscribed, id)) => {
                    &&& self.would_go_along(inscribed)
                    &&& self.inscriptions[inscribed] == id
                    &&& forall|i: int|
                        0 <= i < count && self.would_go_along(
                            (#[trigger] draft.inscriptions[i]).0,
                        ) ==> draft.inscriptions[i].0 == inscribed
                            || draft.inscriptions[i].0.before(inscribed)
                },
                None => true,
            },
        decreases count,
    {
        if count > 0 {
            self.lemma_last_conflict(draft, count - 1);
            let last = draft.inscriptions[count - 1];
            assert(self.inscriptions.contains_key(last.0));
            assert(self.would_go_along(last.0) == draft.conflicts(last.0));
            if draft.conflicts(last.0) {
                let keys = crate::ordered::keys_of(draft.inscriptions);
                assert forall|i: int|
                    0 <= i < count && self.would_go_along(
                        (#[trigger] draft.inscriptions[i]).0,
                    ) implies draft.inscriptions[i].0 == last.0
                    || draft.inscriptions[i].0.before(last.0) by {
                    if i < count - 1 {
                        assert(keys[i].before(keys[count - 1]));
                    }
                }
            }
        }
    }

    /// Selecting the outgoing sat is refused only for a reason.
    proof fn lemma_selected_or_refused(self, draft: Draft)
        requires
            self.describes(draft),
            self.can_begin(),
        ensures
            match draft.selected() {
                Ok(_) => self.sends_sat_alone() && self.has_sat(),
                Err(error) => self.is_refused_with(error),
            },
    {
        let count = draft.inscriptions.len() as int;
        self.lemma_last_conflict(draft, count);
        if let Some((inscribed, id)) = draft.last_conflict(count) {
            assert forall|other: SatPoint| #[trigger] self.would_go_along(other) implies other
                == inscribed || other.before(inscribed) by {
                let i = choose|i: int|
                    0 <= i < draft.inscriptions.len() && #[trigger] draft.inscriptions[i].0
                        == other;
                assert(self.would_go_along(draft.inscriptions[i].0));
            }
        } else {
            self.lemma_none_goes_along(draft);
            if self.amounts.contains_key(self.outgoing.outpoint)
                && self.amounts[self.outgoing.outpoint].0 == 0 {
                assert forall|other: Error| !#[trigger] self.has_reason_for(other) by {
                    self.lemma_early_reasons(other);
                }
            }
        }
    }

    /// Where the outgoing sat is to be sent, the only reasons are lacking outputs.
    proof fn lemma_early_reasons(self, error: Error)
        requires
            self.can_begin(),
            self.sends_sat_alone(),
            self.amounts.contains_key(self.outgoing.outpoint),
            self.has_sat() || self.amounts[self.outgoing.outpoint].0 == 0,
        ensures
            self.has_reason_for(error) ==> self.has_sat() && self.has_targets() && (
            error is TooManyInputs || error is NotEnoughCardinalUtxos || error is ValueOverflow),
    {
    }

    proof fn lemma_pads_are_one_chain(self, a: Seq<OutPoint>, b: Seq<OutPoint>)
        requires
            self.pads_are_chosen(a),
            self.pads_are_chosen(b),
            a.len() <= b.len(),
        ensures
            a == b.skip(b.len() - a.len()),
        decreases b.len(),
    {
        if b.len() == 0 {
            assert(a =~= b.skip(0));
        } else if a.len() == b.len() {
            self.lemma_pads_are_one_chain(a.drop_first(), b.drop_first());
            assert(b.drop_first().skip(0) =~= b.drop_first());
            self.lemma_best_under_is_one(
                a[0],
                b[0],
                b.drop_first(),
                self.lacks_padding(b.drop_first()),
            );
            assert(a =~= seq![a[0]] + a.drop_first());
            assert(b =~= seq![b[0]] + b.drop_first());
            assert(b.skip(0) =~= b);
        } else {
            self.lemma_pads_are_one_chain(a, b.drop_first());
            assert(b.drop_first().skip(b.len() - 1 - a.len()) =~= b.skip(b.len() - a.len()));
        }
    }

    proof fn lemma_funds_are_one_chain(
        self,
        pads: Seq<OutPoint>,
        a: Seq<OutPoint>,
        b: Seq<OutPoint>,
    )
        requires
            self.funds_are_chosen(pads, a),
            self.funds_are_chosen(pads, b),
            a.len() <= b.len(),
        ensures
            a == b.take(a.len() as int),
        decreases b.len(),
    {
        if b.len() == 0 {
            assert(a =~= b.take(0));
        } else if a.len() == b.len() {
            self.lemma_funds_are_one_chain(pads, a.drop_last(), b.drop_last());
            assert(b.drop_last().take(b.len() - 1) =~= b.drop_last());
            self.lemma_best_over_is_one(
                a.last(),
                b.last(),
                pads + b.drop_last(),
                self.lacks_funds(pads, b.drop_last()) + self.fee_of_input(),
            );
            assert(a =~= b.take(a.len() as int));
        } else {
            self.lemma_funds_are_one_chain(pads, a, b.drop_last());
            assert(b.drop_last().take(a.len() as int) =~= b.take(a.len() as int));
        }
    }

    /// Once there is enough padding, no lack of padding is a reason.
    proof fn lemma_padding_is_no_reason(self, pads: Seq<OutPoint>, other: Seq<OutPoint>)
        requires
            self.is_padded(pads),
            self.needs_padding(other),
        ensures
            other.len() < pads.len(),
            exists|outpoint: OutPoint| #[trigger] self.is_free(outpoint, other),
    {
        if other.len() >= pads.len() {
            self.lemma_pads_are_one_chain(pads, other);
            let k = other.len() - pads.len();
            if k == 0 {
                assert(other.skip(0) =~= other);
            } else {
                self.lemma_last_pads(other, k - 1);
                assert(other.skip(k - 1).drop_first() =~= other.skip(k));
            }
        } else {
            self.lemma_pads_are_one_chain(other, pads);
            let k = pads.len() - other.len() - 1;
            self.lemma_last_pads(pads, k);
            assert(pads.skip(k).drop_first() =~= other);
            assert(self.is_free(pads.skip(k)[0], other));
        }
    }

    /// There is one way to pad.
    proof fn lemma_padding_is_one(self, a: Seq<OutPoint>, b: Seq<OutPoint>)
        requires
            self.is_padded(a),
            self.is_padded(b),
        ensures
            a == b,
    {
        if self.pads_nothing() {
            assert(a =~= b);
        } else if a.len() <= b.len() {
            self.lemma_longer_padding(a, b);
        } else {
            self.lemma_longer_padding(b, a);
        }
    }

    proof fn lemma_longer_padding(self, a: Seq<OutPoint>, b: Seq<OutPoint>)
        requires
            self.pads_are_chosen(a),
            self.pads_are_chosen(b),
            self.lacks_padding(a) <= 0,
            a.len() <= b.len(),
        ensures
            a == b,
    {
        self.lemma_pads_are_one_chain(a, b);
        let k = b.len() - a.len();
        if k == 0 {
            assert(b.skip(0) =~= b);
        } else {
            self.lemma_last_pads(b, k - 1);
            assert(b.skip(k - 1).drop_first() =~= b.skip(k));
        }
    }

    /// Once there is enough funding, no lack of funds is a reason.
    proof fn lemma_funding_is_no_reason(
        self,
        pads: Seq<OutPoint>,
        funds: Seq<OutPoint>,
        other: Seq<OutPoint>,
    )
        requires
            self.funds_are_chosen(pads, funds),
            self.lacks_funds(pads, funds) <= 0,
            self.funds_are_chosen(pads, other),
            self.lacks_funds(pads, other) > 0,
            held(self.amounts, funds) <= u64::MAX,
        ensures
            other.len() < funds.len(),
            self.lacks_funds(pads, other) + self.fee_of_input() <= u64::MAX,
            exists|outpoint: OutPoint| #[trigger]
                self.is_free(outpoint, pads + other) && self.amounts[outpoint].0 > 0
                    && self.amounts[outpoint].0 >= self.fee_of_input(),
    {
        if other.len() >= funds.len() {
            self.lemma_funds_are_one_chain(pads, funds, other);
            let k = funds.len() as int;
            if k < other.len() {
                self.lemma_first_funds(pads, other, k + 1);
                assert(other.take(k + 1).drop_last() =~= funds);
            } else {
                assert(other.take(k) =~= other);
            }
        } else {
            self.lemma_funds_are_one_chain(pads, other, funds);
            let k = other.len() as int;
            let n = funds.len() as int;
            let fee = self.fee_of_input();
            self.lemma_first_funds(pads, funds, k + 1);
            let more = funds.take(k + 1);
            assert(more.drop_last() =~= other);
            assert(self.is_free(more.last(), pads + other));
            lemma_held_by_some(self.amounts, funds, k);
            assert(n * fee - k * fee >= fee) by (nonlinear_arith)
                requires
                    n >= k + 1,
                    fee >= 0,
            ;
        }
    }

    /// Where enough is spent, nothing that is lacking is a reason.
    proof fn lemma_nothing_is_lacking(
        self,
        draft: Draft,
        pads: Seq<OutPoint>,
        funds: Seq<OutPoint>,
        error: Error,
    )
        requires
            self.can_begin(),
            self.sends_sat_alone(),
            self.has_sat(),
            self.reached(draft, pads, funds),
            self.is_padded(pads),
            self.lacks_funds(pads, funds) <= 0 && self.wants_with_fee(pads) <= u64::MAX
                || self.wants_before(self.recipient.len() as int) > u64::MAX,
            held(self.amounts, funds) <= u64::MAX,
        ensures
            !self.has_reason_for(error),
    {
        self.lemma_early_reasons(error);
        assert forall|other: Seq<OutPoint>| #[trigger] self.needs_padding(other) implies other.len()
            < pads.len() && exists|outpoint: OutPoint| #[trigger] self.is_free(
            outpoint,
            other,
        ) by {
            self.lemma_padding_is_no_reason(pads, other);
        }
        assert forall|p: Seq<OutPoint>, f: Seq<OutPoint>| #[trigger]
            self.needs_funds(p, f) implies p == pads && f.len() < funds.len() && exists|
            outpoint: OutPoint,
        | #[trigger]
            self.is_free(outpoint, p + f) && self.amounts[outpoint].0 > 0
                && self.amounts[outpoint].0 >= self.fee_of_input() by {
            self.lemma_padding_is_one(p, pads);
            self.lemma_funding_is_no_reason(pads, funds, f);
        }
        assert forall|p: Seq<OutPoint>, f: Seq<OutPoint>| !#[trigger] self.needs_too_much(p, f) by {
            if self.needs_too_much(p, f) {
                self.lemma_padding_is_one(p, pads);
                if self.lacks_funds(pads, f) > 0 {
                    self.lemma_funding_is_no_reason(pads, funds, f);
                }
            }
        }
    }

    /// The construction until the recipients are funded is refused only for a
    /// reason.
    proof fn lemma_funded_or_refused(self, draft: Draft)
        requires
            self.begins_with(draft),
            self.can_begin(),
        ensures
            match draft.until_funded() {
                Err(error) => self.is_refused_with(error),
                Ok(_) => self.is_refused_with(Error::Broken(Invariant::Arithmetic)),
            },
    {
        reveal(Draft::until_funded);
        let none = Seq::<OutPoint>::empty();
        self.lemma_selected_or_refused(draft);
        self.lemma_aligned_is_reached(draft);
        if let Ok(selected) = draft.selected() {
            if let Ok(aligned) = selected.aligned() {
                self.lemma_padded_or_refused(draft, aligned);
            } else {
                selected.lemma_sat_offset_error();
                assert(selected.aligned()->Err_0 is Broken);
                assert(!self.has_targets()) by {
                    if self.has_targets() {
                        self.lemma_selected_follows(draft);
                    }
                }
                assert forall|other: Error| !#[trigger] self.has_reason_for(other) by {
                    self.lemma_early_reasons(other);
                }
            }
        }
    }

    proof fn lemma_padded_or_refused(self, draft: Draft, aligned: Draft)
        requires
            self.can_begin(),
            self.sends_sat_alone(),
            self.has_sat(),
            self.reached(aligned, Seq::empty(), Seq::empty()),
        ensures
            match aligned.padded() {
                Err(error) => self.is_refused_with(error),
                Ok(padded) => match padded.funded() {
                    Err(error) => self.is_refused_with(error),
                    Ok(_) => self.is_refused_with(Error::Broken(Invariant::Arithmetic)),
                },
            },
    {
        let none = Seq::<OutPoint>::empty();
        let pads = self.lemma_padded(aligned);
        if let Ok(padded) = aligned.padded() {
            let funds = self.lemma_funded(padded, pads);
            match padded.funded() {
                Ok(funded) => {
                    if self.wallet_is_countable() {
                        self.lemma_spent_is_counted(funded, pads, funds);
                        assert forall|other: Error| !#[trigger] self.has_reason_for(other) by {
                            self.lemma_nothing_is_lacking(funded, pads, funds, other);
                        }
                    }
                },
                Err(error) => {
                    if error is Broken {
                        if self.wallet_is_countable() {
                            assert(held(self.amounts, none) == 0);
                            assert forall|other: Error| !#[trigger] self.has_reason_for(other) by {
                                self.lemma_nothing_is_lacking(padded, pads, none, other);
                            }
                        }
                    }
                },
            }
        }
    }

    proof fn lemma_spent_is_counted(
        self,
        draft: Draft,
        pads: Seq<OutPoint>,
        funds: Seq<OutPoint>,
    )
        requires
            self.reached(draft, pads, funds),
            self.wallet_is_countable(),
        ensures
            held(self.amounts, funds) <= u64::MAX,
    {
        assert forall|i: int| 0 <= i < draft.inputs.len() implies self.amounts.contains_key(
            #[trigger] draft.inputs[i],
        ) by {
            assert(draft.amounts.contains_key(draft.inputs[i]));
        }
        assert(held(self.amounts, draft.inputs) <= u64::MAX);
        self.lemma_inputs_in_parts(draft.inputs, pads, funds);
        lemma_held_is_not_negative(self.amounts, pads);
    }

    /// A request is refused only for a reason.
    pub proof fn lemma_refused(self, draft: Draft)
        requires
            self.begins_with(draft),
        ensures
            draft.outcome() matches Err(error) ==> self.is_refused_with(error),
    {
        self.lemma_refusal(draft);
        if draft.refusal() is None {
            self.lemma_funded_or_refused(draft);
            draft.lemma_assembled_in_parts();
            if let Ok(funded) = draft.until_funded() {
                if let Ok(stripped) = funded.stripped() {
                    assert(stripped.deducted() is Err ==> stripped.deducted()->Err_0 is Broken) by {
                        stripped.lemma_sat_offset_error();
                    }
                } else {
                    funded.lemma_sat_offset_error();
                    assert(funded.stripped()->Err_0 is Broken);
                }
            }
        }
    }
}

impl Draft {
    proof fn lemma_sat_offset_error(self)
        ensures
            self.sat_offset() matches Err(error) ==> error is Broken,
    {
    }
}

proof fn lemma_held_by_some(amounts: Map<OutPoint, Amount>, outpoints: Seq<OutPoint>, k: int)
    requires
        0 <= k <= outpoints.len(),
    ensures
        held(amounts, outpoints) == held(amounts, outpoints.take(k)) + held(
            amounts,
            outpoints.skip(k),
        ),
        0 <= held(amounts, outpoints.take(k)),
        0 <= held(amounts, outpoints.skip(k)),
{
    assert(outpoints =~= outpoints.take(k) + outpoints.skip(k));
    lemma_held_of_parts(amounts, outpoints.take(k), outpoints.skip(k));
    lemma_held_is_not_negative(amounts, outpoints.take(k));
    lemma_held_is_not_negative(amounts, outpoints.skip(k));
}

impl Request {
    proof fn lemma_last_pads(self, all: Seq<OutPoint>, k: int)
        requires
            self.pads_are_chosen(all),
            0 <= k <= all.len(),
        ensures
            self.pads_are_chosen(all.skip(k)),
        decreases k,
    {
        if k == 0 {
            assert(all.skip(0) =~= all);
        } else {
            self.lemma_last_pads(all.drop_first(), k - 1);
            assert(all.drop_first().skip(k - 1) =~= all.skip(k));
        }
    }

    proof fn lemma_first_funds(self, pads: Seq<OutPoint>, all: Seq<OutPoint>, k: int)
        requires
            self.funds_are_chosen(pads, all),
            0 <= k <= all.len(),
        ensures
            self.funds_are_chosen(pads, all.take(k)),
        decreases all.len(),
    {
        if k == all.len() {
            assert(all.take(k) =~= all);
        } else {
            self.lemma_first_funds(pads, all.drop_last(), k);
            assert(all.drop_last().take(k) =~= all.take(k));
        }
    }

    /// The padding that can be chosen is chosen.
    proof fn lemma_padding_follows(self, draft: Draft, pads: Seq<OutPoint>, all: Seq<OutPoint>)
        requires
            self.reached(draft, pads, Seq::empty()),
            self.outgoing.offset > 0,
            self.pads_are_chosen(all),
            self.lacks_padding(all) <= 0,
            pads.len() <= all.len(),
            pads == all.skip(all.len() - pads.len()),
            self.max_inputs matches Some(max_inputs) ==> all.len() + 1 <= max_inputs,
            held(self.amounts, all) + self.outgoing.offset <= u64::MAX,
        ensures
            draft.padded_to_dust_limit() matches Ok(next) && self.reached(next, all, Seq::empty()),
        decreases all.len() - pads.len(),
    {
        let none = Seq::<OutPoint>::empty();
        let o = self.outgoing.outpoint;
        assert(pads + none =~= pads);
        assert(pads.push(o) + none =~= pads.push(o));
        if pads.len() == all.len() {
            assert(all.skip(0) =~= all);
        } else {
            let k = all.len() - pads.len() - 1;
            let more = all.skip(k);
            let utxo = all[k];
            let wanted = self.lacks_padding(pads);
            self.lemma_last_pads(all, k);
            assert(more.drop_first() =~= pads);
            assert(more[0] == utxo);
            assert(self.is_best_under(utxo, pads, wanted));
            self.lemma_cardinal_under(draft, pads, wanted);
            draft.lemma_cardinal_is_unspent(wanted, true);
            assert(self.is_free(utxo, pads));
            let selected = draft.cardinal(wanted, true)->Ok_0;
            self.lemma_best_under_is_one(selected, utxo, pads, wanted);
            assert(more =~= seq![utxo] + pads);
            lemma_held_by_some(self.amounts, all, k);
            lemma_held_of_parts(self.amounts, seq![utxo], pads);
            lemma_held_by_one(self.amounts, utxo);
            self.lemma_pad_is_reached(draft, pads, utxo);
            self.lemma_padding_follows(draft.pad_with(utxo), more, all);
        }
    }

    /// The funding that can be chosen is chosen.
    proof fn lemma_funding_follows(
        self,
        draft: Draft,
        pads: Seq<OutPoint>,
        funds: Seq<OutPoint>,
        all: Seq<OutPoint>,
    )
        requires
            self.reached(draft, pads, funds),
            self.funds_are_chosen(pads, all),
            self.lacks_funds(pads, all) <= 0,
            funds.len() <= all.len(),
            funds == all.take(funds.len() as int),
            self.max_inputs matches Some(max_inputs) ==> pads.len() + 1 + all.len() <= max_inputs,
            self.amounts[self.outgoing.outpoint].0 - self.outgoing.offset + held(self.amounts, all)
                <= u64::MAX,
            self.outgoing.offset <= self.amounts[self.outgoing.outpoint].0,
        ensures
            draft.funded_for(self.lacks_funds(pads, funds)) matches Ok(next) && self.reached(
                next,
                pads,
                all,
            ),
        decreases all.len() - funds.len(),
    {
        self.lemma_fee(draft);
        if funds.len() == all.len() {
            assert(all.take(all.len() as int) =~= all);
        } else {
            let k = funds.len() as int;
            let more = all.take(k + 1);
            let utxo = all[k];
            let deficit = self.lacks_funds(pads, funds);
            let fee = self.fee_of_input();
            let wanted = deficit + fee;
            self.lemma_first_funds(pads, all, k + 1);
            assert(more.drop_last() =~= funds);
            assert(more.last() == utxo);
            assert(self.is_best_over(utxo, pads + funds, wanted));
            lemma_held_by_some(self.amounts, all, k);
            lemma_held_by_some(self.amounts, all, k + 1);
            let n = all.len() as int;
            assert(n * fee - k * fee >= fee) by (nonlinear_arith)
                requires
                    n >= k + 1,
                    fee >= 0,
            ;
            assert(wanted <= u64::MAX);
            self.lemma_cardinal_over(draft, pads + funds, wanted);
            draft.lemma_cardinal_is_unspent(wanted, false);
            assert(self.is_free(utxo, pads + funds));
            let selected = draft.cardinal(wanted, false)->Ok_0;
            self.lemma_best_over_is_one(selected, utxo, pads + funds, wanted);
            draft.lemma_served(draft.funds());
            draft.lemma_shares_fit();
            draft.lemma_demand_grows(0, draft.current_output);
            assert(more =~= funds.push(utxo));
            self.lemma_fund_is_reached(draft, pads, funds, utxo);
            self.lemma_funding_follows(draft.fund_with(utxo), pads, more, all);
        }
    }
}

impl Request {
    /// What can be chosen until the recipients are funded is chosen.
    proof fn lemma_until_funded_follows(
        self,
        draft: Draft,
        pads: Seq<OutPoint>,
        funds: Seq<OutPoint>,
    )
        requires
            self.begins_with(draft),
            self.can_begin(),
            self.sends_sat_alone(),
            self.has_sat(),
            0 < self.recipient.len() <= self.target.len(),
            self.outgoing.offset > 0 ==> self.alignment_script() != self.recipient[0].script(),
            self.pads_are_chosen(pads),
            self.lacks_padding(pads) <= 0,
            self.funds_are_chosen(pads, funds),
            self.lacks_funds(pads, funds) <= 0,
            self.max_inputs matches Some(max_inputs) ==> pads.len() + 1 + funds.len()
                <= max_inputs,
            held(self.amounts, pads) + self.amounts[self.outgoing.outpoint].0 + held(
                self.amounts,
                funds,
            ) <= u64::MAX,
        ensures
            draft.until_funded() matches Ok(funded) && self.reached(funded, pads, funds),
    {
        let none = Seq::<OutPoint>::empty();
        let o = self.outgoing.outpoint;
        let offset = self.outgoing.offset as int;
        lemma_held_is_not_negative(self.amounts, pads);
        lemma_held_is_not_negative(self.amounts, funds);
        self.lemma_selected_follows(draft);
        let selected = draft.selected()->Ok_0;
        let aligned = selected.aligned()->Ok_0;
        self.lemma_aligned_is_reached(draft);
        assert(aligned.padded() matches Ok(padded) && self.reached(padded, pads, none)) by {
            if offset == 0 {
                assert(pads =~= none) by {
                    if pads.len() > 0 {
                        assert(self.lacks_padding(pads.drop_first()) > 0);
                    }
                }
                aligned.lemma_settled_pays_in_order();
                assert(aligned.outputs[aligned.padding_outputs + 0].0 == aligned.recipient[0]);
            } else {
                assert(aligned.alignment_address().script() == self.alignment_script());
                assert(pads.skip(pads.len() as int) =~= none);
                self.lemma_padding_follows(aligned, none, pads);
            }
        }
        let padded = aligned.padded()->Ok_0;
        assert(padded.funded() matches Ok(funded) && self.reached(funded, pads, funds)) by {
            self.lemma_fee(padded);
            self.lemma_scripts(padded, pads, none);
            self.lemma_wants(padded, self.recipient.len() as int);
            assert(pads.push(o) + none =~= pads.push(o));
            let fee = self.fee_of_input();
            assert(none.len() * fee == 0) by (nonlinear_arith)
                requires
                    none.len() == 0,
            ;
            let count = funds.len() as int;
            assert(count * fee >= 0) by (nonlinear_arith)
                requires
                    count >= 0,
                    fee >= 0,
            ;
            assert(self.lacks_funds(pads, none) == padded.demand_before(padded.paired())
                + padded.fee() - padded.funds());
            assert(funds.take(0) =~= none);
            self.lemma_funding_follows(padded, pads, none, funds);
        }
        reveal(Draft::until_funded);
    }

    /// The outgoing sat is selected and aligned where it can be.
    proof fn lemma_selected_follows(self, draft: Draft)
        requires
            self.begins_with(draft),
            self.can_begin(),
            self.sends_sat_alone(),
            self.has_sat(),
            0 < self.recipient.len() <= self.target.len(),
        ensures
            draft.selected() matches Ok(selected) && selected.aligned() is Ok,
    {
        self.lemma_last_conflict(draft, draft.inscriptions.len() as int);
        assert(draft.selected() is Ok);
        let selected = draft.selected()->Ok_0;
        draft.lemma_selected();
        assert(selected.inputs[0] == self.outgoing.outpoint);
        assert(selected.sat_offset() == Ok::<int, Error>(self.outgoing.offset as int));
        assert(selected.outputs.skip(0) =~= selected.outputs);
        assert(selected.outputs[0].0 == selected.recipient[0]);
    }

    /// What the recipients hold once they are funded.
    proof fn lemma_funded_shares(self, funded: Draft, pads: Seq<OutPoint>, funds: Seq<OutPoint>)
        requires
            self.reached(funded, pads, funds),
            self.lacks_funds(pads, funds) <= 0,
        ensures
            ({
                let from = self.recipients_from();
                let last = self.recipient.len() - 1;
                &&& forall|i: int|
                    0 <= i < last ==> (#[trigger] funded.outputs[from + i]).1.0 == self.wants(i)
                &&& funded.outputs[from + last].1.0 == funded.funds() - self.wants_before(last)
                &&& 0 <= self.wants_before(last) <= funded.funds()
            }),
    {
        let from = self.recipients_from();
        let last = self.recipient.len() - 1;
        let all = funded.funds();
        funded.lemma_shares_fit();
        self.lemma_wants(funded, last);
        self.lemma_wants(funded, last + 1);
        let fee = self.fee_of_input();
        let count = funds.len() as int;
        assert(count * fee >= 0) by (nonlinear_arith)
            requires
                count >= 0,
                fee >= 0,
        ;
        assert(funded.demand(last) > 0);
        assert forall|i: int| 0 <= i <= last implies #[trigger] funded.demand_before(i)
            >= 0 && funded.demand_before(i) <= funded.demand_before(last) by {
            funded.lemma_demand_grows(i, last);
        }
        assert forall|i: int| 0 <= i < last implies (#[trigger] funded.outputs[from + i]).1.0
            == self.wants(i) by {
            assert(funded.outputs[from + i] == funded.outputs.skip(from)[i]);
            assert(0 <= funded.share(all, i) <= u64::MAX);
            funded.lemma_demand_grows(i + 1, last);
            assert(funded.demand_before(i + 1) == funded.demand_before(i) + funded.demand(i));
        }
        assert(funded.outputs[from + last] == funded.outputs.skip(from)[last]);
        assert(0 <= funded.share(all, last) <= u64::MAX);
        funded.lemma_demand_grows(0, last);
    }
}

proof fn lemma_paid_of_parts(a: Seq<TxOut>, b: Seq<TxOut>)
    ensures
        paid(a + b) == paid(a) + paid(b),
    decreases b.len(),
{
    if b.len() == 0 {
        assert(a + b =~= a);
    } else {
        assert((a + b).drop_last() =~= a + b.drop_last());
        lemma_paid_of_parts(a, b.drop_last());
    }
}

impl Request {
    /// What a transaction pays to all recipients but the last.
    proof fn lemma_paid_before_last(self, outputs: Seq<TxOut>, count: int)
        requires
            self.pays_amounts(outputs),
            self.recipients_to() <= outputs.len(),
            0 <= count < self.recipient.len(),
        ensures
            paid(outputs.take(self.recipients_from() + count)) == paid(
                outputs.take(self.recipients_from()),
            ) + self.wants_before(count),
        decreases count,
    {
        if count > 0 {
            let some = outputs.take(self.recipients_from() + count);
            self.lemma_paid_before_last(outputs, count - 1);
            assert(some.drop_last() =~= outputs.take(self.recipients_from() + (count - 1)));
            assert(some.last() == outputs[self.recipients_from() + (count - 1)]);
        }
    }

    /// What a transaction that meets the request pays to the last recipient, and
    /// what as change.
    proof fn lemma_last_values(
        self,
        pads: Seq<OutPoint>,
        spent: Seq<OutPoint>,
        outputs: Seq<TxOut>,
    )
        requires
            self.pays_amounts(outputs),
            self.pays_in_order(outputs),
            self.pays_fee(spent, outputs),
            self.recipient.len() > 0,
            self.outgoing.offset > 0 ==> outputs[0].value == held(self.amounts, pads)
                + self.outgoing.offset,
            self.outgoing.offset == 0 ==> pads.len() == 0,
        ensures
            ({
                let to = self.recipients_to();
                let available = held(self.amounts, spent) - held(self.amounts, pads)
                    - self.outgoing.offset;
                let rest = available - self.wants_before(self.recipient.len() - 1) - self.fee(
                    spent.len(),
                    scripts_of(outputs),
                );
                let aim = self.aims_at(self.target.len() as int);
                if outputs.len() == to {
                    outputs[to - 1].value == rest
                } else {
                    &&& outputs[to - 1].value == aim - self.wants_before(self.recipient.len() - 1)
                    &&& outputs[to].value == available - aim - self.fee(
                        spent.len(),
                        scripts_of(outputs),
                    )
                }
            }),
    {
        let from = self.recipients_from();
        let to = self.recipients_to();
        let last = self.recipient.len() - 1;
        self.lemma_paid_before_last(outputs, last);
        assert(paid(outputs.take(from)) == held(self.amounts, pads) + self.outgoing.offset) by {
            if from == 0 {
                assert(outputs.take(0) =~= Seq::empty());
            } else {
                assert(outputs.take(1).drop_last() =~= Seq::empty());
                assert(paid(outputs.take(1).drop_last()) == 0);
                assert(outputs.take(1).last() == outputs[0]);
            }
        }
        let paid_out = outputs.take(to);
        assert(paid_out.drop_last() =~= outputs.take(from + last));
        assert(paid_out.last() == outputs[to - 1]);
        if outputs.len() == to {
            assert(paid_out =~= outputs);
        } else {
            assert(outputs.drop_last() =~= paid_out);
            assert(outputs.last() == outputs[to]);
            assert(paid_out =~= outputs.take(from) + outputs.subrange(from, to));
            lemma_paid_of_parts(outputs.take(from), outputs.subrange(from, to));
        }
    }
}

impl Request {
    /// What a funded draft holds, and where the outgoing sat is in it.
    proof fn lemma_funded_totals(self, funded: Draft, pads: Seq<OutPoint>, funds: Seq<OutPoint>)
        requires
            self.reached(funded, pads, funds),
        ensures
            total(funded.outputs) == held(self.amounts, funded.inputs),
            funded.funds() == held(self.amounts, funded.inputs) - held(self.amounts, pads)
                - self.outgoing.offset,
            funded.sat_offset() == Ok::<int, Error>(
                held(self.amounts, pads) + self.outgoing.offset,
            ),
    {
        let from = self.recipients_from();
        lemma_held_is_worth(self.amounts, funded.inputs);
        if from == 0 {
            assert(funded.outputs.take(0) =~= Seq::empty());
            assert(held(self.amounts, pads) == 0);
        } else {
            assert(funded.outputs.take(1).drop_last() =~= Seq::empty());
            assert(total(funded.outputs.take(1).drop_last()) == 0);
            assert(funded.outputs.take(1).last() == funded.outputs[0]);
        }
        crate::allotment::lemma_total_split(funded.outputs, from);
    }

    /// Where there is no change, the last steps take the fee out of the last
    /// recipient's output.
    proof fn lemma_tail_without_change(
        self,
        funded: Draft,
        pads: Seq<OutPoint>,
        funds: Seq<OutPoint>,
        outputs: Seq<TxOut>,
    )
        requires
            self.reached(funded, pads, funds),
            self.lacks_funds(pads, funds) <= 0,
            self.recipient.len() > 0,
            self.pays_in_order(outputs),
            self.pays_amounts(outputs),
            self.gives_change_rightly(pads, funded.inputs, outputs),
            self.pays_fee(funded.inputs, outputs),
            pays_no_dust(outputs),
            self.recipient[0].dust() > 0,
            self.outgoing.offset > 0 ==> outputs[0].value == held(self.amounts, pads)
                + self.outgoing.offset,
            held(self.amounts, funded.inputs) <= u64::MAX,
            outputs.len() == self.recipients_to(),
        ensures
            funded.stripped() == Ok::<Draft, Error>(funded),
            funded.deducted() matches Ok(deducted) && pays_alike(outputs, deducted.outputs),
    {
        let to = self.recipients_to();
        self.lemma_fee(funded);
        self.lemma_scripts(funded, pads, funds);
        self.lemma_wants(funded, self.target.len() as int);
        self.lemma_funded_shares(funded, pads, funds);
        self.lemma_last_values(pads, funded.inputs, outputs);
        self.lemma_funded_totals(funded, pads, funds);
        self.lemma_scripts_in_order(outputs);
        self.lemma_first_value_is_positive(outputs);
        assert(funded.funds() > funded.fee());
        assert(funded.stripped() == Ok::<Draft, Error>(funded));
        assert(funded.deducted() is Ok);
        let deducted = funded.deducted()->Ok_0;
        assert(deducted.outputs =~= funded.outputs.update(
            to - 1,
            (
                funded.outputs[to - 1].0,
                Amount((funded.outputs[to - 1].1.0 - funded.fee()) as u64),
            ),
        ));
        self.lemma_outputs_alike(funded, outputs, deducted.outputs);
    }

    /// Where there is change, the last steps take it out of the last recipient's
    /// output, and the fee out of it.
    proof fn lemma_tail_with_change(
        self,
        funded: Draft,
        pads: Seq<OutPoint>,
        funds: Seq<OutPoint>,
        outputs: Seq<TxOut>,
    )
        requires
            self.reached(funded, pads, funds),
            self.lacks_funds(pads, funds) <= 0,
            self.recipient.len() > 0,
            self.pays_in_order(outputs),
            self.pays_amounts(outputs),
            self.gives_change_rightly(pads, funded.inputs, outputs),
            self.pays_fee(funded.inputs, outputs),
            pays_no_dust(outputs),
            self.recipient[0].dust() > 0,
            self.outgoing.offset > 0 ==> outputs[0].value == held(self.amounts, pads)
                + self.outgoing.offset,
            held(self.amounts, funded.inputs) <= u64::MAX,
            outputs.len() > self.recipients_to(),
        ensures
            funded.stripped() matches Ok(stripped) && stripped.deducted() matches Ok(deducted)
                && pays_alike(outputs, deducted.outputs),
    {
        let to = self.recipients_to();
        let last = self.recipient.len() - 1;
        let aim = self.aims_at(self.target.len() as int);
        let available = funded.funds();
        let stripped = funded.strip(available - aim);
        self.lemma_fee(funded);
        self.lemma_scripts(funded, pads, funds);
        self.lemma_wants(funded, self.target.len() as int);
        self.lemma_funded_shares(funded, pads, funds);
        self.lemma_last_values(pads, funded.inputs, outputs);
        self.lemma_funded_totals(funded, pads, funds);
        self.lemma_first_value_is_positive(outputs);
        funded.lemma_limits_grow(0, self.target.len() as int);
        lemma_held_is_not_negative(self.amounts, pads);
        assert(funded.stripped() == Ok::<Draft, Error>(stripped));
        self.lemma_change_pays_fee(funded, stripped, outputs, available - aim);
        assert(aim > 0);
        let deducted = stripped.deducted()->Ok_0;
        assert(deducted.outputs[to].1.0 == outputs[to].value);
        self.lemma_outputs_alike(funded, outputs, deducted.outputs);
    }

    /// A change output that can pay the fee does.
    proof fn lemma_change_pays_fee(
        self,
        funded: Draft,
        stripped: Draft,
        outputs: Seq<TxOut>,
        excess: int,
    )
        requires
            self.describes(funded),
            funded.inputs.len() > 0,
            scripts_to(crate::model::payees(funded.outputs)) == self.scripts_before_change(),
            funded.outputs.len() == self.recipients_to(),
            self.recipient.len() > 0,
            self.pays_in_order(outputs),
            outputs.len() == self.recipients_to() + 1,
            stripped == funded.strip(excess),
            0 <= excess <= funded.outputs.last().1.0,
            total(funded.outputs) <= u64::MAX,
            funded.sat_offset() is Ok,
            funded.sat_offset()->Ok_0 >= 0,
            self.fee(funded.inputs.len(), scripts_of(outputs)) <= excess,
            total(funded.outputs) - self.fee(funded.inputs.len(), scripts_of(outputs))
                > funded.sat_offset()->Ok_0,
        ensures
            stripped.deducted() matches Ok(deducted) && {
                let to = self.recipients_to();
                &&& deducted.outputs.len() == to + 1
                &&& deducted.outputs[to].0 == self.change[1]
                &&& deducted.outputs[to].1.0 == excess - self.fee(
                    funded.inputs.len(),
                    scripts_of(outputs),
                )
                &&& deducted.outputs[to - 1].0 == funded.outputs[to - 1].0
                &&& deducted.outputs[to - 1].1.0 == funded.outputs[to - 1].1.0 - excess
                &&& forall|i: int|
                    0 <= i < to - 1 ==> #[trigger] deducted.outputs[i] == funded.outputs[i]
            },
    {
        self.lemma_describes_next(funded, stripped);
        self.lemma_fee(stripped);
        self.lemma_stripped_scripts(funded, stripped, outputs);
        assert(stripped.outputs.drop_last().drop_last() =~= funded.outputs.drop_last());
        assert(stripped.outputs.drop_last().last().1.0 == funded.outputs.last().1.0 - excess);
        assert(stripped.outputs.last().1.0 == excess);
        assert(total(stripped.outputs.drop_last()) == total(funded.outputs) - excess);
        assert(total(stripped.outputs) == total(funded.outputs));
        assert(stripped.sat_offset() == funded.sat_offset());
        assert(stripped.fee() == self.fee(funded.inputs.len(), scripts_of(outputs)));
        assert(stripped.deducted() is Ok);
        let deducted = stripped.deducted()->Ok_0;
        let to = self.recipients_to();
        assert(deducted.outputs =~= stripped.outputs.update(
            to,
            (stripped.outputs[to].0, Amount((excess - stripped.fee()) as u64)),
        ));
        assert(stripped.outputs[to].0 == self.change[1]);
        assert(stripped.outputs[to - 1].1.0 == funded.outputs[to - 1].1.0 - excess);
        assert forall|i: int| 0 <= i < to - 1 implies #[trigger] deducted.outputs[i]
            == funded.outputs[i] by {
            assert(stripped.outputs[i] == funded.outputs[i]);
        }
    }

    /// The last steps make the outputs of a transaction that meets the request.
    proof fn lemma_tail_follows(
        self,
        funded: Draft,
        pads: Seq<OutPoint>,
        funds: Seq<OutPoint>,
        outputs: Seq<TxOut>,
    )
        requires
            self.reached(funded, pads, funds),
            self.lacks_funds(pads, funds) <= 0,
            self.recipient.len() > 0,
            self.pays_in_order(outputs),
            self.pays_amounts(outputs),
            self.gives_change_rightly(pads, funded.inputs, outputs),
            self.pays_fee(funded.inputs, outputs),
            pays_no_dust(outputs),
            self.recipient[0].dust() > 0,
            self.outgoing.offset > 0 ==> outputs[0].value == held(self.amounts, pads)
                + self.outgoing.offset,
            held(self.amounts, funded.inputs) <= u64::MAX,
        ensures
            funded.stripped() matches Ok(stripped) && stripped.deducted() matches Ok(deducted)
                && pays_alike(outputs, deducted.outputs),
    {
        if outputs.len() == self.recipients_to() {
            self.lemma_tail_without_change(funded, pads, funds, outputs);
        } else {
            self.lemma_tail_with_change(funded, pads, funds, outputs);
        }
    }

    /// The first recipient gets something, so that more than the fee is available.
    proof fn lemma_first_value_is_positive(self, outputs: Seq<TxOut>)
        requires
            self.pays_in_order(outputs),
            self.pays_amounts(outputs),
            pays_no_dust(outputs),
            self.recipient.len() > 0,
            self.recipient[0].dust() > 0,
        ensures
            outputs[self.recipients_from()].value > 0,
            outputs[self.recipients_to() - 1].value + self.wants_before(self.recipient.len() - 1)
                > 0,
    {
        let from = self.recipients_from();
        assert(outputs[from + 0].value >= dust_of(outputs[from + 0].script_pubkey@));
        if self.recipient.len() > 1 {
            self.lemma_paid_before_last(outputs, self.recipient.len() - 1);
            assert(outputs[from + 0].value == self.wants(0));
            self.lemma_wants_something(outputs, self.recipient.len() - 1);
        }
    }

    proof fn lemma_wants_something(self, outputs: Seq<TxOut>, count: int)
        requires
            self.pays_amounts(outputs),
            self.wants(0) > 0,
            1 <= count < self.recipient.len(),
        ensures
            self.wants_before(count) > 0,
        decreases count,
    {
        if count > 1 {
            self.lemma_wants_something(outputs, count - 1);
            assert(outputs[self.recipients_from() + (count - 1)].value == self.wants(count - 1));
        } else {
            assert(self.wants_before(0) == 0);
        }
    }

    proof fn lemma_scripts_in_order(self, outputs: Seq<TxOut>)
        requires
            self.pays_in_order(outputs),
        ensures
            scripts_of(outputs).take(self.recipients_to()) == self.scripts_before_change(),
            outputs.len() == self.recipients_to() ==> scripts_of(outputs)
                == self.scripts_before_change(),
    {
        let from = self.recipients_from();
        let some = scripts_of(outputs).take(self.recipients_to());
        assert forall|i: int| 0 <= i < some.len() implies #[trigger] some[i]
            == self.scripts_before_change()[i] by {
            if i >= from {
                assert(outputs[from + (i - from)].script_pubkey@ == self.recipient[i
                    - from].script());
            }
        }
        assert(some =~= self.scripts_before_change());
        if outputs.len() == self.recipients_to() {
            assert(some =~= scripts_of(outputs));
        }
    }

    proof fn lemma_stripped_scripts(self, funded: Draft, stripped: Draft, outputs: Seq<TxOut>)
        requires
            self.describes(funded),
            scripts_to(crate::model::payees(funded.outputs)) == self.scripts_before_change(),
            self.pays_in_order(outputs),
            outputs.len() == self.recipients_to() + 1,
            funded.outputs.len() == self.recipients_to(),
            self.recipients_to() > 0,
            stripped.outputs.len() == outputs.len(),
            forall|i: int|
                0 <= i < funded.outputs.len() ==> (#[trigger] stripped.outputs[i]).0
                    == funded.outputs[i].0,
            stripped.outputs.last().0 == self.change[1],
        ensures
            scripts_to(crate::model::payees(stripped.outputs)) == scripts_of(outputs),
    {
        let to = self.recipients_to();
        let drafted = scripts_to(crate::model::payees(stripped.outputs));
        self.lemma_scripts_in_order(outputs);
        assert forall|i: int| 0 <= i < drafted.len() implies #[trigger] drafted[i] == scripts_of(
            outputs,
        )[i] by {
            if i < to {
                assert(stripped.outputs[i].0 == funded.outputs[i].0);
                assert(scripts_of(outputs).take(to)[i] == self.scripts_before_change()[i]);
                assert(scripts_to(crate::model::payees(funded.outputs))[i]
                    == funded.outputs[i].0.script());
            }
        }
        assert(drafted =~= scripts_of(outputs));
    }

    /// Outputs that agree with the funded ones but in the last values.
    proof fn lemma_outputs_alike(
        self,
        funded: Draft,
        outputs: Seq<TxOut>,
        drafted: Seq<(Address, Amount)>,
    )
        requires
            self.describes(funded),
            self.recipient.len() > 0,
            self.pays_in_order(outputs),
            self.pays_amounts(outputs),
            funded.outputs.len() == self.recipients_to(),
            scripts_to(crate::model::payees(funded.outputs)) == self.scripts_before_change(),
            forall|i: int|
                0 <= i < self.recipient.len() - 1 ==> (
                #[trigger] funded.outputs[self.recipients_from() + i]).1.0 == self.wants(i),
            self.outgoing.offset > 0 ==> outputs[0].value == funded.outputs[0].1.0,
            outputs.len() == drafted.len(),
            forall|i: int|
                0 <= i < self.recipients_to() ==> (#[trigger] drafted[i]).0 == funded.outputs[i].0,
            forall|i: int|
                0 <= i < self.recipients_to() - 1 ==> (#[trigger] drafted[i]).1
                    == funded.outputs[i].1,
            drafted[self.recipients_to() - 1].1.0 == outputs[self.recipients_to() - 1].value,
            outputs.len() > self.recipients_to() ==> drafted[self.recipients_to()].0
                == self.change[1] && drafted[self.recipients_to()].1.0
                == outputs[self.recipients_to()].value,
        ensures
            pays_alike(outputs, drafted),
    {
        let from = self.recipients_from();
        let to = self.recipients_to();
        self.lemma_scripts_in_order(outputs);
        assert forall|i: int| 0 <= i < outputs.len() implies {
            &&& (#[trigger] outputs[i]).value == drafted[i].1.0
            &&& outputs[i].script_pubkey@ == drafted[i].0.script()
        } by {
            if i < to {
                assert(scripts_of(outputs).take(to)[i] == self.scripts_before_change()[i]);
                assert(scripts_to(crate::model::payees(funded.outputs))[i]
                    == funded.outputs[i].0.script());
                assert(drafted[i].0 == funded.outputs[i].0);
                if i < to - 1 {
                    assert(drafted[i].1 == funded.outputs[i].1);
                    if i >= from {
                        assert(outputs[from + (i - from)].value == self.wants(i - from));
                        assert(funded.outputs[from + (i - from)].1.0 == self.wants(i - from));
                    }
                }
            }
        }
    }
}

impl Request {
    proof fn lemma_targets_pass(self, draft: Draft, outputs: Seq<TxOut>, from: int)
        requires
            self.describes(draft),
            draft.padding_outputs == self.recipients_from(),
            pays_alike(outputs, draft.outputs),
            self.pays_in_order(outputs),
            self.pays_amounts(outputs),
            0 <= from,
        ensures
            draft.broken_target(from) is None,
        decreases draft.paired() - from,
    {
        if from < draft.paired() {
            self.lemma_slack();
            let at = self.recipients_from() + from;
            assert(outputs[self.recipients_from() + from].value == draft.outputs[at].1.0);
            assert(self.pays_recipient(from, outputs[self.recipients_from() + from].value));
            assert(outputs[self.recipients_from() + from].script_pubkey@
                == self.recipient[from].script());
            self.lemma_targets_pass(draft, outputs, from + 1);
        }
    }

    proof fn lemma_payees_pass(self, draft: Draft, outputs: Seq<TxOut>)
        requires
            self.describes(draft),
            pays_alike(outputs, draft.outputs),
            self.pays_each_once(outputs),
            pays_no_dust(outputs),
        ensures
            draft.recipients_paid_once(),
            draft.change_paid_at_most_once(),
            draft.above_dust_limit(),
    {
        assert forall|i: int| 0 <= i < draft.recipient.len() implies crate::model::paid(
            draft.outputs,
            (#[trigger] draft.recipient[i]).script(),
        ) && crate::model::paid_at_most_once(draft.outputs, draft.recipient[i].script()) by {
            assert(times_paid(outputs, self.recipient[i].script()) == 1);
            lemma_times_paid(outputs, draft.outputs, self.recipient[i].script());
        }
        assert forall|i: int|
            0 <= i < draft.change_addresses.len() implies crate::model::paid_at_most_once(
            draft.outputs,
            (#[trigger] draft.change_addresses[i]).script(),
        ) by {
            lemma_times_paid(outputs, draft.outputs, self.change[i].script());
        }
        assert forall|i: int| 0 <= i < draft.outputs.len() implies (
        #[trigger] draft.outputs[i]).1.0 >= draft.outputs[i].0.dust() by {
            assert(outputs[i].value >= dust_of(outputs[i].script_pubkey@));
        }
    }

    /// The outgoing sat is in the output of the first recipient.
    proof fn lemma_sat_passes(self, draft: Draft)
        requires
            draft.aligns_sat(),
            draft.recipient.len() > 0,
            draft.outputs[draft.padding_outputs].1.0 > 0,
            total(draft.outputs) <= u64::MAX,
        ensures
            draft.sat_offset() matches Ok(offset) && crate::model::output_at(
                draft.outputs,
                offset,
                0,
            ) == Some(draft.padding_outputs) && total(
                draft.outputs.take(draft.padding_outputs + 1),
            ) <= u64::MAX,
    {
        let pad = draft.padding_outputs;
        let offset = draft.sat_offset()->Ok_0;
        let more = draft.outputs.take(pad + 1);
        assert(more.drop_last() =~= draft.outputs.take(pad));
        assert(more.last() == draft.outputs[pad]);
        assert(draft.outputs.take(0) =~= Seq::empty());
        assert(draft.outputs.take(draft.outputs.len() as int) =~= draft.outputs);
        crate::allotment::lemma_total_grows(draft.outputs, pad + 1, draft.outputs.len() as int);
        crate::allotment::lemma_total_is_not_negative(draft.outputs.take(pad));
        crate::laws::lemma_output_at(draft.outputs, offset, 0);
        if let Some(i) = crate::model::output_at(draft.outputs, offset, 0) {
            if i < pad {
                crate::allotment::lemma_total_grows(draft.outputs, i + 1, pad);
            } else if i > pad {
                crate::allotment::lemma_total_grows(draft.outputs, pad + 1, i);
            }
        }
    }

    /// A draft whose transaction meets the request passes the final checks.
    proof fn lemma_checks_pass(self, draft: Draft, outputs: Seq<TxOut>)
        requires
            self.describes(draft),
            draft.padding_outputs == self.recipients_from(),
            draft.payable(),
            draft.spends_properly(),
            draft.aligns_sat(),
            draft.pays_in_order(),
            crate::model::worth(draft.amounts, draft.inputs) - total(draft.outputs)
                == draft.fee(),
            crate::model::worth(draft.amounts, draft.inputs) <= u64::MAX,
            pays_alike(outputs, draft.outputs),
            self.pays_in_order(outputs),
            self.pays_amounts(outputs),
            self.pays_each_once(outputs),
            pays_no_dust(outputs),
            outputs[self.recipients_from()].value > 0,
            total(draft.outputs) > total(draft.outputs.take(draft.padding_outputs)),
        ensures
            draft.checked() == Ok::<Draft, Error>(draft),
    {
        assert(outputs[self.recipients_from()].value
            == draft.outputs[draft.padding_outputs].1.0);
        self.lemma_payees_pass(draft, outputs);
        self.lemma_targets_pass(draft, outputs, 0);
        self.lemma_sat_passes(draft);
        crate::laws::lemma_sat_is_spent_once(draft);
        crate::laws::lemma_sat_is_in_place(draft);
        crate::laws::lemma_outputs_are_recognized(draft);
        assert(draft.broken_payment() is None);
        assert(draft.broken() is None);
    }

    /// The request is not refused before anything is spent.
    proof fn lemma_begins(self, draft: Draft, transaction: Transaction)
        requires
            self.describes(draft),
            self.is_met_by(transaction),
        ensures
            draft.refusal() is None,
            self.can_begin(),
    {
        assert forall|i: int| !#[trigger] self.is_change_too(i) by {}
        let spent = spent_by(transaction);
        assert(spent[spent.index_of(self.outgoing.outpoint)] == self.outgoing.outpoint);
        self.lemma_refusal(draft);
        if let Some(error) = draft.refusal() {
            assert(error is DuplicateAddress || error is TooManyInputs);
        }
    }

    /// A request that can be met is met.
    pub proof fn lemma_meets(self, draft: Draft, transaction: Transaction)
        requires
            self.begins_with(draft),
            self.is_met_by(transaction),
            forall|i: int|
                0 <= i < self.recipient.len() ==> (#[trigger] self.recipient[i]).dust() > 0,
        ensures
            draft.outcome() matches Ok(finished) && transaction.carries_out(finished),
    {
        let spent = spent_by(transaction);
        let outputs = transaction.output@;
        let at = spent.index_of(self.outgoing.outpoint);
        let pads = spent.take(at);
        let funds = spent.skip(at + 1);
        assert(spent[at] == self.outgoing.outpoint);
        assert(spent =~= pads.push(self.outgoing.outpoint) + funds);
        self.lemma_inputs_in_parts(spent, pads, funds);
        self.lemma_begins(draft, transaction);
        if self.outgoing.offset > 0 {
            self.lemma_alignment_is_not_recipient(outputs);
        }
        assert(self.recipient[0].dust() > 0);
        self.lemma_until_funded_follows(draft, pads, funds);
        let funded = draft.until_funded()->Ok_0;
        assert(funded.inputs == spent);
        self.lemma_tail_follows(funded, pads, funds, outputs);
        self.lemma_tail_keeps_inputs(funded);
        draft.lemma_assembled_in_parts();
        draft.lemma_assembled();
        let finished = draft.assembled()->Ok_0;
        self.lemma_describes_next(draft, finished);
        lemma_held_is_worth(self.amounts, spent);
        self.lemma_first_value_is_positive(outputs);
        self.lemma_checks_pass(finished, outputs);
        assert(draft.outcome() == Ok::<Draft, Error>(finished));
        assert forall|i: int| 0 <= i < finished.inputs.len() implies {
            &&& (#[trigger] transaction.input@[i]).previous_output == finished.inputs[i]
            &&& transaction.input@[i].script_sig@.len() == 0
            &&& transaction.input@[i].sequence == 0xffff_fffd
            &&& transaction.input@[i].witness@.len() == 0
        } by {
            assert(spent[i] == transaction.input@[i].previous_output);
        }
    }
}

} // verus!
