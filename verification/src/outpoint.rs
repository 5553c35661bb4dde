//! Transaction outputs, the sats in them, and the inscriptions on those.

use vstd::prelude::*;

use crate::bytes::arrays_equal;
use crate::bytes::locate_array;
use crate::ordered::Key;
use crate::ordered::Position;

verus! {

/// The id of a transaction, in the byte order of the hash.
#[derive(Clone, Copy, Eq, Debug)]
pub struct Txid(pub [u8; 32]);

impl PartialEq for Txid {
    fn eq(&self, other: &Self) -> (equal: bool) {
        arrays_equal(&self.0, &other.0)
    }
}

impl vstd::std_specs::cmp::PartialEqSpecImpl for Txid {
    open spec fn obeys_eq_spec() -> bool {
        true
    }

    open spec fn eq_spec(&self, other: &Self) -> bool {
        *self == *other
    }
}

/// An output of a transaction.
#[derive(Clone, Copy, Eq, Debug)]
pub struct OutPoint {
    pub txid: Txid,
    pub vout: u32,
}

impl PartialEq for OutPoint {
    fn eq(&self, other: &Self) -> (equal: bool) {
        self.txid == other.txid && self.vout == other.vout
    }
}

impl vstd::std_specs::cmp::PartialEqSpecImpl for OutPoint {
    open spec fn obeys_eq_spec() -> bool {
        true
    }

    open spec fn eq_spec(&self, other: &Self) -> bool {
        *self == *other
    }
}

impl OutPoint {
    /// The output that no transaction has.
    pub fn null() -> (outpoint: OutPoint)
        ensures
            forall|i: int| 0 <= i < 32 ==> outpoint.txid.0[i] == 0,
            outpoint.vout == u32::MAX,
    {
        OutPoint { txid: Txid([0; 32]), vout: u32::MAX }
    }
}

/// Outputs are ordered by the bytes of the transaction's id, then by index.
impl Key for OutPoint {
    open spec fn before(self, other: Self) -> bool {
        ||| crate::bytes::lexicographically_before(self.txid.0, other.txid.0)
        ||| self.txid == other.txid && self.vout < other.vout
    }

    proof fn lemma_asymmetric(a: Self, b: Self) {
        if crate::bytes::lexicographically_before(a.txid.0, b.txid.0) {
            crate::bytes::lemma_order_is_asymmetric(a.txid.0, b.txid.0);
        } else if crate::bytes::lexicographically_before(b.txid.0, a.txid.0) {
            crate::bytes::lemma_order_is_asymmetric(b.txid.0, a.txid.0);
        }
    }

    proof fn lemma_transitive(a: Self, b: Self, c: Self) {
        if crate::bytes::lexicographically_before(a.txid.0, b.txid.0)
            && crate::bytes::lexicographically_before(b.txid.0, c.txid.0) {
            crate::bytes::lemma_order_is_transitive(a.txid.0, b.txid.0, c.txid.0);
        }
    }

    fn locate(&self, other: &Self) -> (position: Position) {
        match locate_array(&self.txid.0, &other.txid.0) {
            Position::Before => Position::Before,
            Position::After => Position::After,
            Position::Same => if self.vout < other.vout {
                Position::Before
            } else if self.vout == other.vout {
                Position::Same
            } else {
                Position::After
            },
        }
    }
}

/// The sat at an offset in an output.
#[derive(Clone, Copy, PartialEq, Eq, Debug)]
pub struct SatPoint {
    pub outpoint: OutPoint,
    pub offset: u64,
}

/// Sats are ordered by their output, then by offset.
impl Key for SatPoint {
    open spec fn before(self, other: Self) -> bool {
        ||| self.outpoint.before(other.outpoint)
        ||| self.outpoint == other.outpoint && self.offset < other.offset
    }

    proof fn lemma_asymmetric(a: Self, b: Self) {
        if a.outpoint.before(b.outpoint) {
            OutPoint::lemma_asymmetric(a.outpoint, b.outpoint);
        } else if b.outpoint.before(a.outpoint) {
            OutPoint::lemma_asymmetric(b.outpoint, a.outpoint);
        }
    }

    proof fn lemma_transitive(a: Self, b: Self, c: Self) {
        if a.outpoint.before(b.outpoint) && b.outpoint.before(c.outpoint) {
            OutPoint::lemma_transitive(a.outpoint, b.outpoint, c.outpoint);
        }
    }

    fn locate(&self, other: &Self) -> (position: Position) {
        match self.outpoint.locate(&other.outpoint) {
            Position::Before => Position::Before,
            Position::After => Position::After,
            Position::Same => if self.offset < other.offset {
                Position::Before
            } else if self.offset == other.offset {
                Position::Same
            } else {
                Position::After
            },
        }
    }
}

/// The id of an inscription: the transaction that reveals it, and its index
/// there.
#[derive(Clone, Copy, PartialEq, Eq, Debug)]
pub struct InscriptionId {
    pub txid: Txid,
    pub index: u32,
}

/// Outputs of different transactions are in the order of the first byte in which the ids
/// differ.
pub proof fn outputs_are_ordered_by_transaction(a: OutPoint, b: OutPoint, i: int)
    requires
        0 <= i < 32,
        a.txid.0[i] != b.txid.0[i],
        forall|j: int| 0 <= j < i ==> a.txid.0[j] == b.txid.0[j],
    ensures
        a.before(b) <==> a.txid.0[i] < b.txid.0[i],
{
    assert(crate::bytes::first_difference(a.txid.0, b.txid.0, i));
    if a.before(b) {
        let k = choose|k: int| #[trigger]
            crate::bytes::first_difference(a.txid.0, b.txid.0, k) && a.txid.0[k] < b.txid.0[k];
        assert(k == i);
    }
}

/// Outputs of one transaction are in the order of their numbers.
pub proof fn outputs_of_a_transaction_are_ordered_by_number(a: OutPoint, b: OutPoint)
    requires
        a.txid == b.txid,
    ensures
        a.before(b) <==> a.vout < b.vout,
{
}

/// Sats are in the order of their outputs, and those of one output in the order of their
/// offsets.
pub proof fn sats_are_ordered_by_output_and_offset(a: SatPoint, b: SatPoint)
    ensures
        a.outpoint != b.outpoint ==> (a.before(b) <==> a.outpoint.before(b.outpoint)),
        a.outpoint == b.outpoint ==> (a.before(b) <==> a.offset < b.offset),
{
    if a.outpoint == b.outpoint && a.outpoint.before(b.outpoint) {
        OutPoint::lemma_asymmetric(a.outpoint, b.outpoint);
    }
}

} // verus!
