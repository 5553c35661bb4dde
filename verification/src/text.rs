//! Errors in words.

use vstd::prelude::*;

use crate::address::address_text;
use crate::amount::Amount;
use crate::error::Error;
use crate::error::Invariant;
use crate::outpoint::InscriptionId;
use crate::outpoint::SatPoint;
use crate::outpoint::Txid;

verus! {

pub open spec fn digit(d: nat) -> char {
    (48 + d) as char
}

/// A number in decimal digits.
pub open spec fn decimal(n: nat) -> Seq<char>
    decreases n,
{
    if n < 10 {
        seq![digit(n)]
    } else {
        decimal(n / 10).push(digit(n % 10))
    }
}

/// The last so many decimal digits of a number.
pub open spec fn padded_decimal(n: nat, width: nat) -> Seq<char>
    decreases width,
{
    if width == 0 {
        Seq::empty()
    } else {
        padded_decimal(n / 10, (width - 1) as nat).push(digit(n % 10))
    }
}

/// So many decimal digits of a number, without zeros at the end.
pub open spec fn trimmed_decimal(n: nat, width: nat) -> Seq<char>
    decreases width,
{
    if width == 0 || n % 10 != 0 {
        padded_decimal(n, width)
    } else {
        trimmed_decimal(n / 10, (width - 1) as nat)
    }
}

/// An amount in bitcoin.
pub open spec fn amount_in_bitcoin(sats: nat) -> Seq<char> {
    decimal(sats / 100_000_000) + if sats % 100_000_000 == 0 {
        Seq::empty()
    } else {
        seq!['.'] + trimmed_decimal(sats % 100_000_000, 8)
    } + " BTC"@
}

pub open spec fn hex_digit(d: nat) -> char {
    if d < 10 {
        digit(d)
    } else {
        (87 + d) as char
    }
}

/// Bytes in hexadecimal digits, from the last byte to the first.
pub open spec fn reversed_hex(bytes: Seq<u8>) -> Seq<char> {
    Seq::new(
        2 * bytes.len(),
        |i: int|
            {
                let byte = bytes[bytes.len() - 1 - i / 2];
                hex_digit(
                    if i % 2 == 0 {
                        byte as nat / 16
                    } else {
                        byte as nat % 16
                    },
                )
            },
    )
}

impl SatPoint {
    /// The transaction's id, the number of the output, and the offset.
    pub open spec fn text(self) -> Seq<char> {
        reversed_hex(self.outpoint.txid.0@) + ":"@ + decimal(self.outpoint.vout as nat) + ":"@
            + decimal(self.offset as nat)
    }
}

impl InscriptionId {
    /// The transaction's id, and the index.
    pub open spec fn text(self) -> Seq<char> {
        reversed_hex(self.txid.0@) + "i"@ + decimal(self.index as nat)
    }
}

impl Invariant {
    pub open spec fn text(self) -> Seq<char> {
        match self {
            Invariant::Arithmetic => "invariant: amounts and positions are in range"@,
            Invariant::SatIsInInputs => "invariant: outgoing sat is found in inputs"@,
            Invariant::SameNumberOfOutputsAsRecipients => "invariant: same number of outputs as recipients"@,
            Invariant::FirstOutputIsRecipient => "invariant: first output is recipient"@,
            Invariant::FeeDoesNotConsumeSat => "invariant: deducting fee does not consume sat"@,
            Invariant::LastOutputCanPayFee => "invariant: last output can pay fee"@,
            Invariant::SatIsContainedInUtxos => "invariant: outgoing sat is contained in utxos"@,
            Invariant::InputsSpendSat => "invariant: inputs spend outgoing sat"@,
            Invariant::SatIsSentToFirstRecipient => "invariant: outgoing sat is sent to first recipient"@,
            Invariant::SatIsFoundInOutputs => "invariant: outgoing sat is found in outputs"@,
            Invariant::RecipientAppearsExactlyOnce => "invariant: recipient address appears exactly once in outputs"@,
            Invariant::ChangeAppearsAtMostOnce => "invariant: change addresses appear at most once in outputs"@,
            Invariant::SatIsAtFirstPosition => "invariant: sat is at first position in first recipient output"@,
            Invariant::OutputPaysRecipient => "invariant: output pays recipient"@,
            Invariant::ExcessPostageIsStripped => "invariant: excess postage is stripped"@,
            Invariant::OutputEqualsTargetValue => "invariant: output equals target value"@,
            Invariant::OutputsAreChangeOrRecipient => "invariant: all outputs are either change or recipient"@,
            Invariant::FeeEstimationIsCorrect => "invariant: fee estimation is correct"@,
            Invariant::OutputsAreAboveDustLimit => "invariant: all outputs are above dust limit"@,
        }
    }

    /// The property in words.
    pub fn message(&self) -> (message: String)
        ensures
            message@ == self.text(),
    {
        let text: &str = match self {
            Invariant::Arithmetic => "invariant: amounts and positions are in range",
            Invariant::SatIsInInputs => "invariant: outgoing sat is found in inputs",
            Invariant::SameNumberOfOutputsAsRecipients => "invariant: same number of outputs as recipients",
            Invariant::FirstOutputIsRecipient => "invariant: first output is recipient",
            Invariant::FeeDoesNotConsumeSat => "invariant: deducting fee does not consume sat",
            Invariant::LastOutputCanPayFee => "invariant: last output can pay fee",
            Invariant::SatIsContainedInUtxos => "invariant: outgoing sat is contained in utxos",
            Invariant::InputsSpendSat => "invariant: inputs spend outgoing sat",
            Invariant::SatIsSentToFirstRecipient => "invariant: outgoing sat is sent to first recipient",
            Invariant::SatIsFoundInOutputs => "invariant: outgoing sat is found in outputs",
            Invariant::RecipientAppearsExactlyOnce => "invariant: recipient address appears exactly once in outputs",
            Invariant::ChangeAppearsAtMostOnce => "invariant: change addresses appear at most once in outputs",
            Invariant::SatIsAtFirstPosition => "invariant: sat is at first position in first recipient output",
            Invariant::OutputPaysRecipient => "invariant: output pays recipient",
            Invariant::ExcessPostageIsStripped => "invariant: excess postage is stripped",
            Invariant::OutputEqualsTargetValue => "invariant: output equals target value",
            Invariant::OutputsAreChangeOrRecipient => "invariant: all outputs are either change or recipient",
            Invariant::FeeEstimationIsCorrect => "invariant: fee estimation is correct",
            Invariant::OutputsAreAboveDustLimit => "invariant: all outputs are above dust limit",
        };
        text.to_owned()
    }
}

impl Error {
    pub open spec fn text(self) -> Seq<char> {
        match self {
            Error::Dust { output_value, dust_value } => "output value is below dust value: "@
                + amount_in_bitcoin(output_value.0 as nat) + " < "@ + amount_in_bitcoin(
                dust_value.0 as nat,
            ),
            Error::MaxPostageLessThanTarget { max_postage, target_postage } => "max postage "@
                + decimal(max_postage.0 as nat) + " sats is less than target postage "@ + decimal(
                target_postage.0 as nat,
            ) + " sats"@,
            Error::NotInWallet(outgoing_satpoint) => "outgoing satpoint "@
                + outgoing_satpoint.text() + " not in wallet"@,
            Error::OutOfRange(outgoing_satpoint, maximum) => "outgoing satpoint "@
                + outgoing_satpoint.text() + " offset higher than maximum "@ + decimal(
                maximum as nat,
            ),
            Error::TooManyInputs(max_inputs) => "--max-inputs ("@ + decimal(max_inputs as nat)
                + ") exceeded"@,
            Error::NotEnoughCardinalUtxos =>
            "wallet does not contain enough cardinal UTXOs, please add additional funds to wallet."@,
            Error::UtxoContainsAdditionalInscription {
                outgoing_satpoint,
                inscribed_satpoint,
                inscription_id,
            } => "cannot send "@ + outgoing_satpoint.text()
                + " without also sending inscription "@ + inscription_id.text() + " at "@
                + inscribed_satpoint.text(),
            Error::ValueOverflow => "arithmetic overflow calculating value"@,
            Error::DuplicateAddress(address) => "duplicate input address: "@ + crate::address::displayed_address(
                address.script(),
                address.network.number(),
            ),
            Error::Broken(lacking) => lacking.text(),
        }
    }

    /// The error in words.
    pub fn message(&self) -> (message: String)
        ensures
            message@ == self.text(),
    {
        match self {
            Error::Dust { output_value, dust_value } => {
                let mut text = "output value is below dust value: ".to_owned();
                text.append(amount_text(output_value).as_str());
                text.append(" < ");
                text.append(amount_text(dust_value).as_str());
                text
            },
            Error::MaxPostageLessThanTarget { max_postage, target_postage } => {
                let mut text = "max postage ".to_owned();
                append_decimal(&mut text, max_postage.0);
                text.append(" sats is less than target postage ");
                append_decimal(&mut text, target_postage.0);
                text.append(" sats");
                text
            },
            Error::NotInWallet(outgoing_satpoint) => {
                let mut text = "outgoing satpoint ".to_owned();
                append_satpoint(&mut text, outgoing_satpoint);
                text.append(" not in wallet");
                text
            },
            Error::OutOfRange(outgoing_satpoint, maximum) => {
                let mut text = "outgoing satpoint ".to_owned();
                append_satpoint(&mut text, outgoing_satpoint);
                text.append(" offset higher than maximum ");
                append_decimal(&mut text, *maximum);
                text
            },
            Error::TooManyInputs(max_inputs) => {
                let mut text = "--max-inputs (".to_owned();
                append_decimal(&mut text, *max_inputs as u64);
                text.append(") exceeded");
                text
            },
            Error::NotEnoughCardinalUtxos => {
                "wallet does not contain enough cardinal UTXOs, please add additional funds to wallet.".to_owned()
            },
            Error::UtxoContainsAdditionalInscription {
                outgoing_satpoint,
                inscribed_satpoint,
                inscription_id,
            } => {
                let mut text = "cannot send ".to_owned();
                append_satpoint(&mut text, outgoing_satpoint);
                text.append(" without also sending inscription ");
                text.append(txid_text(&inscription_id.txid).as_str());
                text.append("i");
                append_decimal(&mut text, inscription_id.index as u64);
                text.append(" at ");
                append_satpoint(&mut text, inscribed_satpoint);
                assert(text@ =~= self.text());
                text
            },
            Error::ValueOverflow => "arithmetic overflow calculating value".to_owned(),
            Error::DuplicateAddress(address) => {
                address.check_well_formed();
                duplicate_address_message(address_text(address).as_str())
            },
            Error::Broken(lacking) => lacking.message(),
        }
    }
}

/// That an address with the given text is given twice.
pub fn duplicate_address_message(address: &str) -> (message: String)
    ensures
        message@ == "duplicate input address: "@ + address@,
{
    let mut text = "duplicate input address: ".to_owned();
    text.append(address);
    text
}

fn append_digit(text: &mut String, d: u64)
    requires
        d < 10,
    ensures
        final(text)@ == old(text)@.push(digit(d as nat)),
{
    proof {
        reveal_strlit("0");
        reveal_strlit("1");
        reveal_strlit("2");
        reveal_strlit("3");
        reveal_strlit("4");
        reveal_strlit("5");
        reveal_strlit("6");
        reveal_strlit("7");
        reveal_strlit("8");
        reveal_strlit("9");
    }
    let character: &str = if d == 0 {
        "0"
    } else if d == 1 {
        "1"
    } else if d == 2 {
        "2"
    } else if d == 3 {
        "3"
    } else if d == 4 {
        "4"
    } else if d == 5 {
        "5"
    } else if d == 6 {
        "6"
    } else if d == 7 {
        "7"
    } else if d == 8 {
        "8"
    } else {
        "9"
    };
    text.append(character);
    assert(text@ =~= old(text)@.push(digit(d as nat)));
}

fn append_decimal(text: &mut String, n: u64)
    ensures
        final(text)@ == old(text)@ + decimal(n as nat),
    decreases n,
{
    if n >= 10 {
        append_decimal(text, n / 10);
    }
    append_digit(text, n % 10);
    assert(text@ =~= old(text)@ + decimal(n as nat));
}

fn append_satpoint(text: &mut String, satpoint: &SatPoint)
    ensures
        final(text)@ == old(text)@ + satpoint.text(),
{
    text.append(txid_text(&satpoint.outpoint.txid).as_str());
    text.append(":");
    append_decimal(text, satpoint.outpoint.vout as u64);
    text.append(":");
    append_decimal(text, satpoint.offset);
    assert(text@ =~= old(text)@ + satpoint.text());
}

/// Calls `bitcoin::Amount`'s `Display`: the amount in bitcoin, with as many
/// decimals as it needs, and the name of the denomination.
#[verifier::external_body]
fn amount_text(amount: &Amount) -> (text: String)
    ensures
        text@ == amount_in_bitcoin(amount.0 as nat),
{
    bitcoin::Amount::from_sat(amount.0).to_string()
}

/// Calls `bitcoin::Txid`'s `Display`: the hash in lower case hexadecimal digits,
/// from its last byte to its first.
#[verifier::external_body]
fn txid_text(txid: &Txid) -> (text: String)
    ensures
        text@ == reversed_hex(txid.0@),
{
    let txid: bitcoin::Txid = bitcoin::hashes::Hash::from_inner(txid.0);
    txid.to_string()
}

/// The number that decimal digits stand for.
pub open spec fn number(digits: Seq<char>) -> int
    decreases digits.len(),
{
    if digits.len() == 0 {
        0
    } else {
        10 * number(digits.drop_last()) + (digits.last() as int - '0' as int)
    }
}

/// A number in decimal digits can be read: it has digits only, none to spare at the
/// front, and stands for the number.
pub proof fn decimal_can_be_read(n: nat)
    ensures
        number(decimal(n)) == n,
        forall|i: int| 0 <= i < decimal(n).len() ==> '0' <= #[trigger] decimal(n)[i] <= '9',
        n > 0 ==> decimal(n)[0] != '0',
        decimal(n).len() > 0,
        n < 10 ==> decimal(n).len() == 1,
    decreases n,
{
    let digits = decimal(n);
    if n < 10 {
        assert(digits.drop_last() =~= Seq::empty());
        assert(number(digits.drop_last()) == 0);
    } else {
        decimal_can_be_read(n / 10);
        assert(digits.drop_last() =~= decimal(n / 10));
    }
}

/// The text is that of the sat: the transaction's id, then the numbers of the output and
/// of the sat in it.
pub open spec fn is_text_of(text: Seq<char>, satpoint: SatPoint) -> bool {
    exists|vout: Seq<char>, offset: Seq<char>|
        text == #[trigger] (reversed_hex(satpoint.outpoint.txid.0@) + ":"@ + vout + ":"@ + offset)
            && number(vout) == satpoint.outpoint.vout && number(offset) == satpoint.offset
}

proof fn lemma_text_of_satpoint(satpoint: SatPoint)
    ensures
        is_text_of(satpoint.text(), satpoint),
{
    let vout = decimal(satpoint.outpoint.vout as nat);
    let offset = decimal(satpoint.offset as nat);
    decimal_can_be_read(satpoint.outpoint.vout as nat);
    decimal_can_be_read(satpoint.offset as nat);
    assert(satpoint.text() == reversed_hex(satpoint.outpoint.txid.0@) + ":"@ + vout + ":"@
        + offset);
}

/// The message of an error says what is wrong, and names the numbers, amounts, sats and
/// inscriptions that it is about.
pub proof fn messages_say_what_is_wrong(error: Error)
    ensures
        match error {
            Error::TooManyInputs(max_inputs) => exists|limit: Seq<char>|
                error.text() == #[trigger] ("--max-inputs ("@ + limit + ") exceeded"@) && number(
                    limit,
                ) == max_inputs,
            Error::MaxPostageLessThanTarget { max_postage, target_postage } => exists|
                max: Seq<char>,
                target: Seq<char>,
            |
                error.text() == #[trigger] ("max postage "@ + max
                    + " sats is less than target postage "@ + target + " sats"@) && number(max)
                    == max_postage.0 && number(target) == target_postage.0,
            Error::Dust { output_value, dust_value } => error.text()
                == "output value is below dust value: "@ + amount_in_bitcoin(
                output_value.0 as nat,
            ) + " < "@ + amount_in_bitcoin(dust_value.0 as nat),
            Error::NotInWallet(satpoint) => exists|sat: Seq<char>|
                error.text() == #[trigger] ("outgoing satpoint "@ + sat + " not in wallet"@)
                    && is_text_of(sat, satpoint),
            Error::OutOfRange(satpoint, maximum) => exists|sat: Seq<char>, last: Seq<char>|
                error.text() == #[trigger] ("outgoing satpoint "@ + sat
                    + " offset higher than maximum "@ + last) && is_text_of(sat, satpoint)
                    && number(last) == maximum,
            Error::UtxoContainsAdditionalInscription {
                outgoing_satpoint,
                inscribed_satpoint,
                inscription_id,
            } => exists|outgoing: Seq<char>, index: Seq<char>, inscribed: Seq<char>|
                error.text() == #[trigger] ("cannot send "@ + outgoing
                    + " without also sending inscription "@ + (reversed_hex(
                    inscription_id.txid.0@,
                ) + "i"@ + index) + " at "@ + inscribed) && is_text_of(
                    outgoing,
                    outgoing_satpoint,
                ) && number(index) == inscription_id.index && is_text_of(
                    inscribed,
                    inscribed_satpoint,
                ),
            Error::NotEnoughCardinalUtxos => error.text()
                == "wallet does not contain enough cardinal UTXOs, please add additional funds to wallet."@,
            Error::ValueOverflow => error.text() == "arithmetic overflow calculating value"@,
            Error::DuplicateAddress(address) => error.text() == "duplicate input address: "@
                + crate::address::displayed_address(address.script(), address.network.number()),
            Error::Broken(lacking) => error.text() == lacking.text(),
        },
{
    match error {
        Error::TooManyInputs(max_inputs) => {
            let limit = decimal(max_inputs as nat);
            decimal_can_be_read(max_inputs as nat);
            assert(error.text() == "--max-inputs ("@ + limit + ") exceeded"@);
        },
        Error::MaxPostageLessThanTarget { max_postage, target_postage } => {
            let max = decimal(max_postage.0 as nat);
            let target = decimal(target_postage.0 as nat);
            decimal_can_be_read(max_postage.0 as nat);
            decimal_can_be_read(target_postage.0 as nat);
            assert(error.text() == "max postage "@ + max + " sats is less than target postage "@
                + target + " sats"@);
        },
        Error::NotInWallet(satpoint) => {
            lemma_text_of_satpoint(satpoint);
            assert(error.text() == "outgoing satpoint "@ + satpoint.text() + " not in wallet"@);
        },
        Error::OutOfRange(satpoint, maximum) => {
            let last = decimal(maximum as nat);
            lemma_text_of_satpoint(satpoint);
            decimal_can_be_read(maximum as nat);
            assert(error.text() == "outgoing satpoint "@ + satpoint.text()
                + " offset higher than maximum "@ + last);
        },
        Error::UtxoContainsAdditionalInscription {
            outgoing_satpoint,
            inscribed_satpoint,
            inscription_id,
        } => {
            let index = decimal(inscription_id.index as nat);
            lemma_text_of_satpoint(outgoing_satpoint);
            lemma_text_of_satpoint(inscribed_satpoint);
            decimal_can_be_read(inscription_id.index as nat);
            assert(error.text() == "cannot send "@ + outgoing_satpoint.text()
                + " without also sending inscription "@ + (reversed_hex(
                inscription_id.txid.0@,
            ) + "i"@ + index) + " at "@ + inscribed_satpoint.text());
        },
        _ => {},
    }
}

} // verus!
