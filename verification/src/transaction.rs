//! Transactions and their weight.

use vstd::prelude::*;

use crate::outpoint::OutPoint;

verus! {

/// An output of a transaction.
#[derive(PartialEq, Eq, Debug)]
pub struct TxOut {
    pub value: u64,
    pub script_pubkey: Vec<u8>,
}

/// An input of a transaction.
#[derive(PartialEq, Eq, Debug)]
pub struct TxIn {
    pub previous_output: OutPoint,
    pub script_sig: Vec<u8>,
    pub sequence: u32,
    pub witness: Vec<Vec<u8>>,
}

/// A transaction.
#[derive(PartialEq, Eq, Debug)]
pub struct Transaction {
    pub version: i32,
    pub lock_time: u32,
    pub input: Vec<TxIn>,
    pub output: Vec<TxOut>,
}

/// The size of a run of bytes with its length before it.
pub open spec fn prefixed_size(length: nat) -> nat {
    crate::address::compact_size(length) + length
}

/// The size of the outputs of a transaction.
pub open spec fn outputs_size(outputs: Seq<TxOut>) -> nat
    decreases outputs.len(),
{
    if outputs.len() == 0 {
        0
    } else {
        outputs_size(outputs.drop_last()) + 8 + prefixed_size(outputs.last().script_pubkey@.len())
    }
}

/// The size of the inputs of a transaction, without their witnesses.
pub open spec fn inputs_size(inputs: Seq<TxIn>) -> nat
    decreases inputs.len(),
{
    if inputs.len() == 0 {
        0
    } else {
        inputs_size(inputs.drop_last()) + 40 + prefixed_size(inputs.last().script_sig@.len())
    }
}

/// The size of the items of a witness.
pub open spec fn items_size(items: Seq<Vec<u8>>) -> nat
    decreases items.len(),
{
    if items.len() == 0 {
        0
    } else {
        items_size(items.drop_last()) + prefixed_size(items.last()@.len())
    }
}

/// The size of the witnesses of the inputs of a transaction.
pub open spec fn witnesses_size(inputs: Seq<TxIn>) -> nat
    decreases inputs.len(),
{
    if inputs.len() == 0 {
        0
    } else {
        witnesses_size(inputs.drop_last()) + crate::address::compact_size(
            inputs.last().witness@.len(),
        ) + items_size(inputs.last().witness@)
    }
}

impl Transaction {
    /// Some input has a witness.
    pub open spec fn has_witness(self) -> bool {
        exists|i: int| 0 <= i < self.input@.len() && (#[trigger] self.input@[i]).witness@.len() > 0
    }

    /// Four times the size of the transaction without its witnesses, and the
    /// size of the witnesses with two bytes that mark them.
    pub open spec fn weight_units(self) -> nat {
        4 * (8 + crate::address::compact_size(self.input@.len()) + crate::address::compact_size(
            self.output@.len(),
        ) + inputs_size(self.input@) + outputs_size(self.output@)) + if self.has_witness() {
            2 + witnesses_size(self.input@)
        } else {
            0
        }
    }

    pub fn weight(&self) -> (weight: usize)
        requires
            self.weight_units() + self.input@.len() <= usize::MAX,
        ensures
            weight == self.weight_units(),
    {
        transaction_weight(self)
    }
}

/// Calls `bitcoin::Transaction::weight`: four times the size of the transaction
/// without its witnesses, and, where an input has a witness, the size of the
/// witnesses and of the two bytes that mark them.
#[verifier::external_body]
fn transaction_weight(transaction: &Transaction) -> (weight: usize)
    requires
        transaction.weight_units() + transaction.input@.len() <= usize::MAX,
    ensures
        weight == transaction.weight_units(),
{
    let input = transaction.input.iter().map(|i| bitcoin::TxIn {
        previous_output: bitcoin::OutPoint {
            txid: bitcoin::hashes::Hash::from_inner(i.previous_output.txid.0),
            vout: i.previous_output.vout,
        },
        script_sig: bitcoin::Script::from(i.script_sig.clone()),
        sequence: bitcoin::Sequence(i.sequence),
        witness: bitcoin::Witness::from_vec(i.witness.clone()),
    }).collect();
    let output = transaction.output.iter().map(|o| bitcoin::TxOut {
        value: o.value,
        script_pubkey: bitcoin::Script::from(o.script_pubkey.clone()),
    }).collect();
    let lock_time = bitcoin::PackedLockTime(transaction.lock_time);
    bitcoin::Transaction { version: transaction.version, lock_time, input, output }.weight()
}

} // verus!
