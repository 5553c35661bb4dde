//! Addresses, the scripts that pay to them, and the least amounts that they
//! should be paid.

use vstd::prelude::*;

use crate::amount::Amount;
use crate::bytes::arrays_equal;

verus! {

/// The networks that an address can be for.
#[derive(Clone, Copy, PartialEq, Eq, Debug, Structural)]
pub enum Network {
    Bitcoin,
    Testnet,
    Signet,
    Regtest,
}

impl Network {
    pub open spec fn number(self) -> int {
        match self {
            Network::Bitcoin => 0,
            Network::Testnet => 1,
            Network::Signet => 2,
            Network::Regtest => 3,
        }
    }
}

/// A witness program of two to forty bytes, and its version.
#[derive(Clone, Copy, Eq, Debug)]
pub struct WitnessProgram {
    version: u8,
    length: u8,
    bytes: [u8; 40],
}

impl WitnessProgram {
    pub closed spec fn version(self) -> u8 {
        self.version
    }

    pub closed spec fn length(self) -> int {
        self.length as int
    }

    pub closed spec fn bytes(self) -> [u8; 40] {
        self.bytes
    }

    /// The bytes of the program.
    pub open spec fn program(self) -> Seq<u8> {
        self.bytes()@.take(self.length())
    }

    #[verifier::type_invariant]
    pub open spec fn well_formed(self) -> bool {
        &&& self.version() <= 16
        &&& 2 <= self.length() <= 40
        &&& forall|i: int| self.length() <= i < 40 ==> self.bytes()[i] == 0
    }

    /// The witness program of the given version and bytes, if there is one.
    pub fn new(version: u8, program: &[u8]) -> (witness: Option<WitnessProgram>)
        ensures
            witness is Some <==> version <= 16 && 2 <= program@.len() <= 40,
            witness matches Some(witness) ==> {
                &&& witness.version() == version
                &&& witness.program() == program@
                &&& witness.well_formed()
            },
    {
        if version > 16 || program.len() < 2 || program.len() > 40 {
            return None;
        }
        let mut bytes: [u8; 40] = [0; 40];
        let mut i: usize = 0;
        while i < program.len()
            invariant
                i <= program@.len() <= 40,
                forall|j: int| 0 <= j < i ==> bytes[j] == program@[j],
                forall|j: int| i <= j < 40 ==> bytes[j] == 0,
            decreases program@.len() - i,
        {
            bytes[i] = program[i];
            i += 1;
        }
        let witness = WitnessProgram { version, length: program.len() as u8, bytes };
        assert(witness.program() =~= program@);
        Some(witness)
    }
}

impl PartialEq for WitnessProgram {
    fn eq(&self, other: &Self) -> (equal: bool) {
        self.version == other.version && self.length == other.length && arrays_equal(
            &self.bytes,
            &other.bytes,
        )
    }
}

impl vstd::std_specs::cmp::PartialEqSpecImpl for WitnessProgram {
    open spec fn obeys_eq_spec() -> bool {
        true
    }

    open spec fn eq_spec(&self, other: &Self) -> bool {
        *self == *other
    }
}

/// What an address pays to.
#[derive(Clone, Copy, Eq, Debug)]
pub enum Payload {
    PubkeyHash([u8; 20]),
    ScriptHash([u8; 20]),
    WitnessProgram(WitnessProgram),
}

impl PartialEq for Payload {
    fn eq(&self, other: &Self) -> (equal: bool) {
        match (self, other) {
            (Payload::PubkeyHash(a), Payload::PubkeyHash(b)) => arrays_equal(a, b),
            (Payload::ScriptHash(a), Payload::ScriptHash(b)) => arrays_equal(a, b),
            (Payload::WitnessProgram(a), Payload::WitnessProgram(b)) => *a == *b,
            _ => false,
        }
    }
}

impl vstd::std_specs::cmp::PartialEqSpecImpl for Payload {
    open spec fn obeys_eq_spec() -> bool {
        true
    }

    open spec fn eq_spec(&self, other: &Self) -> bool {
        *self == *other
    }
}

/// An address on a network.
#[derive(Clone, Copy, Eq, Debug)]
pub struct Address {
    pub payload: Payload,
    pub network: Network,
}

impl PartialEq for Address {
    fn eq(&self, other: &Self) -> (equal: bool) {
        self.payload == other.payload && self.network == other.network
    }
}

impl vstd::std_specs::cmp::PartialEqSpecImpl for Address {
    open spec fn obeys_eq_spec() -> bool {
        true
    }

    open spec fn eq_spec(&self, other: &Self) -> bool {
        *self == *other
    }
}

/// The number of bytes that the length of so many items takes in a serialized
/// transaction.
pub open spec fn compact_size(n: nat) -> nat {
    if n < 0xfd {
        1
    } else if n < 0x1_0000 {
        3
    } else if n < 0x1_0000_0000 {
        5
    } else {
        9
    }
}

/// A script that pays to a witness program: its version, then a push of two to
/// forty bytes.
pub open spec fn is_witness_script(script: Seq<u8>) -> bool {
    &&& 4 <= script.len() <= 42
    &&& script[0] == 0 || 0x51 <= script[0] <= 0x60
    &&& 2 <= script[1] <= 40
    &&& script.len() == script[1] + 2
}

/// The least amount, in sats, that an output with the given script should have:
/// three sats for each byte of the output and of the input that spends it. An
/// output that returns data needs none.
pub open spec fn dust_of(script: Seq<u8>) -> nat {
    let size = compact_size(script.len()) + script.len();
    if script.len() > 0 && script[0] == 0x6a {
        0
    } else if is_witness_script(script) {
        3 * (75 + size)
    } else {
        3 * (156 + size)
    }
}

impl Address {
    pub open spec fn well_formed(self) -> bool {
        self.payload matches Payload::WitnessProgram(program) ==> program.well_formed()
    }

    /// The script that pays to the address.
    pub open spec fn script(self) -> Seq<u8> {
        match self.payload {
            Payload::PubkeyHash(hash) => seq![0x76u8, 0xa9u8, 0x14u8] + hash@ + seq![
                0x88u8,
                0xacu8,
            ],
            Payload::ScriptHash(hash) => seq![0xa9u8, 0x14u8] + hash@ + seq![0x87u8],
            Payload::WitnessProgram(witness) => seq![
                if witness.version() == 0 {
                    0u8
                } else {
                    (0x50 + witness.version()) as u8
                },
                witness.length() as u8,
            ] + witness.program(),
        }
    }

    /// The least amount, in sats, that an output to the address should have.
    pub open spec fn dust(self) -> nat {
        dust_of(self.script())
    }

    /// Every address is well-formed.
    pub fn check_well_formed(&self)
        ensures
            self.well_formed(),
    {
        if let Payload::WitnessProgram(program) = &self.payload {
            proof {
                use_type_invariant(program);
            }
        }
    }

    pub fn script_pubkey(&self) -> (script: Vec<u8>)
        ensures
            script@ == self.script(),
            self.well_formed(),
    {
        self.check_well_formed();
        payload_script_pubkey(self)
    }

    pub fn dust_value(&self) -> (dust: Amount)
        ensures
            dust.0 == self.dust(),
            self.well_formed(),
    {
        let script = self.script_pubkey();
        proof {
            lemma_script_length(*self);
        }
        Amount(script_dust_value(&script))
    }
}

/// The script of an address is short, and its dust value is positive and small.
pub proof fn lemma_script_length(address: Address)
    requires
        address.well_formed(),
    ensures
        4 <= address.script().len() <= 42,
        0 < address.dust() <= 546,
{
}

/// Calls `bitcoin::util::address::Payload::script_pubkey`: for a public key hash,
/// the script that duplicates, hashes and compares a key and checks its
/// signature; for a script hash, the script that hashes and compares; for a
/// witness program, its version as a small number and a push of its bytes.
#[verifier::external_body]
fn payload_script_pubkey(address: &Address) -> (script: Vec<u8>)
    requires
        address.well_formed(),
    ensures
        script@ == address.script(),
{
    let payload = match address.payload {
        Payload::PubkeyHash(hash) => bitcoin::util::address::Payload::PubkeyHash(bitcoin::hashes::Hash::from_inner(hash)),
        Payload::ScriptHash(hash) => bitcoin::util::address::Payload::ScriptHash(bitcoin::hashes::Hash::from_inner(hash)),
        Payload::WitnessProgram(witness) => bitcoin::util::address::Payload::WitnessProgram {
            version: bitcoin::util::address::WitnessVersion::try_from(witness.version).unwrap(),
            program: witness.bytes[..witness.length as usize].to_vec(),
        },
    };
    payload.script_pubkey().into_bytes()
}

/// The text of the address with the given script on the given network, as
/// `bitcoin::Address` displays it.
pub uninterp spec fn displayed_address(script: Seq<u8>, network: int) -> Seq<char>;

/// Calls the `Display` of `bitcoin::Address`: a text that depends on what the
/// address pays to, which its script shows, and on the network. How the text is
/// encoded is not stated.
#[verifier::external_body]
pub(crate) fn address_text(address: &Address) -> (text: String)
    requires
        address.well_formed(),
    ensures
        text@ == displayed_address(address.script(), address.network.number()),
{
    let payload = match address.payload {
        Payload::PubkeyHash(hash) => bitcoin::util::address::Payload::PubkeyHash(bitcoin::hashes::Hash::from_inner(hash)),
        Payload::ScriptHash(hash) => bitcoin::util::address::Payload::ScriptHash(bitcoin::hashes::Hash::from_inner(hash)),
        Payload::WitnessProgram(witness) => bitcoin::util::address::Payload::WitnessProgram {
            version: bitcoin::util::address::WitnessVersion::try_from(witness.version).unwrap(),
            program: witness.bytes[..witness.length as usize].to_vec(),
        },
    };
    let network = match address.network {
        Network::Bitcoin => bitcoin::Network::Bitcoin,
        Network::Testnet => bitcoin::Network::Testnet,
        Network::Signet => bitcoin::Network::Signet,
        Network::Regtest => bitcoin::Network::Regtest,
    };
    bitcoin::Address { payload, network }.to_string()
}

/// Calls `bitcoin::Script::dust_value`: three sats for each byte of an output
/// with the script and of the input that spends it, which is smaller for a
/// witness program; nothing for a script that starts with the opcode to return.
#[verifier::external_body]
pub(crate) fn script_dust_value(script: &Vec<u8>) -> (dust: u64)
    requires
        script@.len() <= 0xffff_ffff,
    ensures
        dust == dust_of(script@),
{
    bitcoin::Script::from(script.clone()).dust_value().to_sat()
}

} // verus!
