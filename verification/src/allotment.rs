//! How funds are handed out to the recipients.

use vstd::prelude::*;

use crate::address::Address;
use crate::amount::Amount;
use crate::model::total;
use crate::model::Draft;

verus! {

/// Two runs of outputs hold together what each holds.
pub proof fn lemma_total_of_parts(a: Seq<(Address, Amount)>, b: Seq<(Address, Amount)>)
    ensures
        total(a + b) == total(a) + total(b),
    decreases b.len(),
{
    if b.len() == 0 {
        assert(a + b =~= a);
    } else {
        assert((a + b).drop_last() =~= a + b.drop_last());
        lemma_total_of_parts(a, b.drop_last());
    }
}

/// What outputs hold is what the first so many and the rest hold.
pub proof fn lemma_total_split(outputs: Seq<(Address, Amount)>, at: int)
    requires
        0 <= at <= outputs.len(),
    ensures
        total(outputs) == total(outputs.take(at)) + total(outputs.skip(at)),
{
    assert(outputs =~= outputs.take(at) + outputs.skip(at));
    lemma_total_of_parts(outputs.take(at), outputs.skip(at));
}

pub proof fn lemma_total_is_not_negative(outputs: Seq<(Address, Amount)>)
    ensures
        total(outputs) >= 0,
    decreases outputs.len(),
{
    if outputs.len() > 0 {
        lemma_total_is_not_negative(outputs.drop_last());
    }
}

/// More of the outputs hold no less.
pub proof fn lemma_total_grows(outputs: Seq<(Address, Amount)>, i: int, j: int)
    requires
        0 <= i <= j <= outputs.len(),
    ensures
        total(outputs.take(i)) <= total(outputs.take(j)),
{
    lemma_total_split(outputs.take(j), i);
    lemma_total_is_not_negative(outputs.take(j).skip(i));
    assert(outputs.take(j).take(i) =~= outputs.take(i));
}

/// Outputs with one of them changed hold the difference more or less.
pub proof fn lemma_total_of_update(outputs: Seq<(Address, Amount)>, i: int, new: (Address, Amount))
    requires
        0 <= i < outputs.len(),
    ensures
        total(outputs.update(i, new)) == total(outputs) - outputs[i].1.0 + new.1.0,
    decreases outputs.len(),
{
    let after = outputs.update(i, new);
    if i == outputs.len() - 1 {
        assert(after.drop_last() =~= outputs.drop_last());
    } else {
        assert(after.drop_last() =~= outputs.drop_last().update(i, new));
        lemma_total_of_update(outputs.drop_last(), i, new);
    }
}

impl Draft {
    pub proof fn lemma_demand_grows(self, i: int, j: int)
        requires
            0 <= i <= j <= self.paired(),
            forall|k: int| 0 <= k < self.paired() ==> 0 < #[trigger] self.demand(k) <= u64::MAX,
        ensures
            0 <= self.demand_before(i) <= self.demand_before(j),
            i < j ==> self.demand_before(i) < self.demand_before(j),
        decreases j,
    {
        if j > 0 {
            assert(self.demand(j - 1) > 0);
            if i < j {
                self.lemma_demand_grows(i, j - 1);
            } else {
                self.lemma_demand_grows(i - 1, j - 1);
            }
        }
    }

    proof fn lemma_served_from(self, funds: int, from: int, c: int)
        requires
            forall|k: int| 0 <= k < self.paired() ==> 0 < #[trigger] self.demand(k) <= u64::MAX,
            0 <= from <= c <= self.paired(),
            c < self.recipient.len(),
            self.demand_before(c) <= funds,
            c == self.paired() || c == self.recipient.len() - 1 || funds < self.demand_before(
                c + 1,
            ),
        ensures
            self.served_from(funds, from) == c,
        decreases c - from,
    {
        if from < c {
            self.lemma_demand_grows(from + 1, c);
            self.lemma_served_from(funds, from + 1, c);
        }
    }

    /// So many recipients are served as can be, but for the last.
    pub proof fn lemma_served_is(self, funds: int, c: int)
        requires
            forall|k: int| 0 <= k < self.paired() ==> 0 < #[trigger] self.demand(k) <= u64::MAX,
            0 <= c <= self.paired(),
            c < self.recipient.len(),
            self.demand_before(c) <= funds,
            c == self.paired() || c == self.recipient.len() - 1 || funds < self.demand_before(
                c + 1,
            ),
        ensures
            self.served(funds) == c,
    {
        self.lemma_served_from(funds, 0, c);
    }

    proof fn lemma_served_from_bounds(self, funds: int, from: int)
        requires
            0 <= from <= self.paired(),
            from < self.recipient.len(),
            self.demand_before(from) <= funds,
        ensures
            ({
                let c = self.served_from(funds, from);
                &&& from <= c <= self.paired()
                &&& c < self.recipient.len()
                &&& self.demand_before(c) <= funds
                &&& c == self.paired() || c == self.recipient.len() - 1 || funds
                    < self.demand_before(c + 1)
            }),
        decreases self.paired() - from,
    {
        if !(from >= self.paired() || from >= self.recipient.len() - 1 || funds
            < self.demand_before(from + 1)) {
            self.lemma_served_from_bounds(funds, from + 1);
        }
    }

    pub proof fn lemma_served(self, funds: int)
        requires
            self.recipient.len() > 0,
            funds >= 0,
        ensures
            ({
                let c = self.served(funds);
                &&& 0 <= c <= self.paired()
                &&& c < self.recipient.len()
                &&& self.demand_before(c) <= funds
                &&& c == self.paired() || c == self.recipient.len() - 1 || funds
                    < self.demand_before(c + 1)
            }),
    {
        self.lemma_served_from_bounds(funds, 0);
    }

    /// The funds are within the range in which it is the given recipient that
    /// gets more or less of them.
    pub open spec fn reaches(self, funds: int, c: int) -> bool {
        &&& 0 <= c < self.paired()
        &&& self.demand_before(c) <= funds
        &&& c == self.recipient.len() - 1 || funds <= self.demand_before(c + 1)
    }

    /// Within that range the shares differ only in what that recipient gets.
    pub proof fn lemma_shares_differ_at(self, f: int, g: int, c: int)
        requires
            forall|k: int| 0 <= k < self.paired() ==> 0 < #[trigger] self.demand(k) <= u64::MAX,
            self.reaches(f, c),
            self.reaches(g, c),
        ensures
            self.share(f, c) == f - self.demand_before(c),
            self.shares(g) == self.shares(f).update(
                c,
                (self.recipient[c], Amount((g - self.demand_before(c)) as u64)),
            ),
    {
        assert(self.demand(c) > 0);
        assert(self.demand_before(c + 1) == self.demand_before(c) + self.demand(c));
        self.lemma_demand_grows(0, c);
        let updated = self.shares(f).update(
            c,
            (self.recipient[c], Amount((g - self.demand_before(c)) as u64)),
        );
        assert forall|i: int| 0 <= i < self.paired() implies #[trigger] self.shares(g)[i]
            == updated[i] by {
            assert(self.demand(i) > 0);
            assert(self.demand_before(i + 1) == self.demand_before(i) + self.demand(i));
            if i < c {
                self.lemma_demand_grows(i + 1, c);
                assert(self.share(f, i) == self.demand(i));
                assert(self.share(g, i) == self.demand(i));
            } else if i > c {
                self.lemma_demand_grows(c + 1, i);
                assert(self.share(f, i) == 0);
                assert(self.share(g, i) == 0);
            }
        }
        assert(self.shares(g) =~= updated);
    }

    /// The first so many recipients, without the last, get the funds as far as
    /// they are to be sent them.
    proof fn lemma_total_of_first_shares(self, funds: int, k: int)
        requires
            forall|i: int| 0 <= i < self.paired() ==> 0 < #[trigger] self.demand(i) <= u64::MAX,
            0 <= k <= self.paired(),
            k < self.recipient.len(),
            funds >= 0,
        ensures
            total(self.shares(funds).take(k)) == if funds < self.demand_before(k) {
                funds
            } else {
                self.demand_before(k)
            },
        decreases k,
    {
        let first = self.shares(funds).take(k);
        if k > 0 {
            self.lemma_total_of_first_shares(funds, k - 1);
            assert(first.drop_last() =~= self.shares(funds).take(k - 1));
            assert(0 < self.demand(k - 1) <= u64::MAX);
            self.lemma_demand_grows(0, k - 1);
            assert(first.last() == self.shares(funds)[k - 1]);
        }
    }

    /// The recipients get the funds, all of them.
    pub proof fn lemma_total_of_shares(self, funds: int)
        requires
            forall|i: int| 0 <= i < self.paired() ==> 0 < #[trigger] self.demand(i) <= u64::MAX,
            self.matched(),
            funds >= 0,
            funds - self.demand_before(self.recipient.len() - 1) <= u64::MAX,
        ensures
            total(self.shares(funds)) == funds,
    {
        let last = self.recipient.len() - 1;
        let shares = self.shares(funds);
        self.lemma_total_of_first_shares(funds, last);
        assert(shares.drop_last() =~= shares.take(last));
        assert(shares.last() == shares[last]);
        self.lemma_demand_grows(0, last);
    }

    /// What each recipient gets fits in an amount.
    pub proof fn lemma_shares_fit(self)
        requires
            self.settled(),
        ensures
            0 <= self.funds(),
            self.funds() - self.demand_before(self.recipient.len() - 1) <= u64::MAX,
            forall|i: int|
                0 <= i < self.paired() ==> 0 <= #[trigger] self.share(self.funds(), i) <= u64::MAX,
    {
        let funds = self.funds();
        let last = self.recipient.len() - 1;
        let shares = self.shares(funds);
        lemma_total_is_not_negative(self.outputs.skip(self.padding_outputs));
        self.lemma_total_of_first_shares(funds, last);
        assert(shares.drop_last() =~= shares.take(last));
        assert(shares.last() == shares[last]);
        self.lemma_demand_grows(0, last);
        assert forall|i: int| 0 <= i < self.paired() implies 0 <= #[trigger] self.share(funds, i)
            <= u64::MAX by {
            assert(0 < self.demand(i) <= u64::MAX);
            self.lemma_demand_grows(0, i);
        }
    }
}

} // verus!
