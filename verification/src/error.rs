//! Why a transaction cannot be built.

use vstd::prelude::*;

use crate::address::Address;
use crate::amount::Amount;
use crate::outpoint::InscriptionId;
use crate::outpoint::SatPoint;

verus! {

/// Why a transaction is not built.
#[derive(Clone, Copy, PartialEq, Eq, Debug)]
pub enum Error {
    DuplicateAddress(Address),
    Dust { output_value: Amount, dust_value: Amount },
    MaxPostageLessThanTarget { max_postage: Amount, target_postage: Amount },
    NotEnoughCardinalUtxos,
    NotInWallet(SatPoint),
    OutOfRange(SatPoint, u64),
    TooManyInputs(usize),
    UtxoContainsAdditionalInscription {
        outgoing_satpoint: SatPoint,
        inscribed_satpoint: SatPoint,
        inscription_id: InscriptionId,
    },
    ValueOverflow,
    /// The transaction under construction lacks a property that it should have.
    Broken(Invariant),
}

/// A property that a transaction under construction should have. That one is
/// lacking is no refusal of the request: it is a fault of the construction, or of
/// a request that makes no sense, such as one with a recipient given twice.
#[derive(Clone, Copy, PartialEq, Eq, Debug, Structural)]
pub enum Invariant {
    /// An amount or a position leaves the range of its type.
    Arithmetic,
    SatIsInInputs,
    SameNumberOfOutputsAsRecipients,
    FirstOutputIsRecipient,
    FeeDoesNotConsumeSat,
    LastOutputCanPayFee,
    SatIsContainedInUtxos,
    InputsSpendSat,
    SatIsSentToFirstRecipient,
    SatIsFoundInOutputs,
    RecipientAppearsExactlyOnce,
    ChangeAppearsAtMostOnce,
    SatIsAtFirstPosition,
    OutputPaysRecipient,
    ExcessPostageIsStripped,
    OutputEqualsTargetValue,
    OutputsAreChangeOrRecipient,
    FeeEstimationIsCorrect,
    OutputsAreAboveDustLimit,
}

} // verus!
