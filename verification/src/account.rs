//! Account addresses: 32 bytes, the SHA3-256 digest of a Falcon-512 public
//! key, written as Base58 text.
use crate::bytes::{append_bytes, array_at, bytes_equal, lemma_array_eq, DecodeError};
use crate::hash::{digest, sha3_256};
use base58::{FromBase58, FromBase58Error, ToBase58};
use vstd::prelude::*;
use vstd::std_specs::cmp::PartialEqSpecImpl;
use vstd::std_specs::convert::FromSpecImpl;
use vstd::string::StrSliceExecFns;

verus! {

/// A Falcon-512 public key.
pub type PublicKey = [u8; 897];

/// A Falcon-512 secret key.
pub type SecretKey = [u8; 1281];

/// The longest text that is handed to the Base58 decoder, in characters. The
/// text of 32 bytes has at most 44.
pub const MAX_ADDRESS_TEXT: usize = 132;

/// Why a text is not Base58.
#[derive(Clone, Copy, Debug, PartialEq, Eq)]
pub enum Base58Error {
    /// A character outside the Base58 alphabet, and its byte offset.
    InvalidCharacter { character: char, index: usize },
    /// The text stands for more bytes than the decoder holds.
    InvalidLength,
}

/// Why a text is not an address.
#[derive(Clone, Copy, Debug, PartialEq, Eq)]
pub enum AddressParseError {
    /// The text is not Base58.
    Base58(Base58Error),
    /// The text does not stand for exactly 32 bytes.
    InputLength,
}

/// What `from_base58` of the `base58` crate returns for a text.
pub uninterp spec fn base58_decoded(text: Seq<char>) -> Result<Seq<u8>, Base58Error>;

/// What `to_base58` of the `base58` crate returns for a byte string.
pub uninterp spec fn base58_encoded(bytes: Seq<u8>) -> Seq<char>;

/// `FromBase58::from_base58` on a `str`. The crate's decoder holds 132 bytes
/// and is only called on texts that cannot overrun it.
#[verifier::external_body]
pub(crate) fn base58_decode(text: &str) -> (r: Result<Vec<u8>, Base58Error>)
    requires
        text@.len() <= MAX_ADDRESS_TEXT,
    ensures
        match r {
            Ok(bytes) => base58_decoded(text@) == Ok::<Seq<u8>, Base58Error>(bytes@),
            Err(e) => base58_decoded(text@) == Err::<Seq<u8>, Base58Error>(e),
        },
{
    match text.from_base58() {
        Ok(bytes) => Ok(bytes),
        Err(FromBase58Error::InvalidBase58Character(character, index)) => Err(
            Base58Error::InvalidCharacter { character, index },
        ),
        Err(FromBase58Error::InvalidBase58Length) => Err(Base58Error::InvalidLength),
    }
}

/// `ToBase58::to_base58` on the 32 bytes of an address.
#[verifier::external_body]
pub(crate) fn base58_encode(bytes: &[u8; 32]) -> (text: String)
    ensures
        text@ == base58_encoded(bytes@),
{
    bytes.to_base58()
}

/// Whether `r` is what reading `text` as an address gives: the 32 bytes
/// that the text stands for, or the reason why there are none.
pub open spec fn spec_parsed(text: Seq<char>, r: Result<Address, AddressParseError>) -> bool {
    match r {
        Ok(address) => text.len() <= MAX_ADDRESS_TEXT && base58_decoded(text) == Ok::<
            Seq<u8>,
            Base58Error,
        >(address@),
        Err(AddressParseError::Base58(e)) => text.len() <= MAX_ADDRESS_TEXT && base58_decoded(text)
            == Err::<Seq<u8>, Base58Error>(e),
        Err(AddressParseError::InputLength) => text.len() > MAX_ADDRESS_TEXT || (base58_decoded(
            text,
        ) matches Ok(bytes) && bytes.len() != 32),
    }
}

/// The identifier of an account.
#[derive(Clone, Copy, Debug, Hash)]
pub struct Address(pub [u8; 32]);

impl View for Address {
    type V = Seq<u8>;

    open spec fn view(&self) -> Seq<u8> {
        self.0@
    }
}

impl PartialEq for Address {
    fn eq(&self, other: &Self) -> (r: bool) {
        bytes_equal(&self.0, &other.0)
    }
}

impl Eq for Address {

}

impl PartialEqSpecImpl for Address {
    open spec fn obeys_eq_spec() -> bool {
        true
    }

    open spec fn eq_spec(&self, other: &Self) -> bool {
        self.0@ == other.0@
    }
}

impl From<[u8; 32]> for Address {
    fn from(value: [u8; 32]) -> (address: Self) {
        Address(value)
    }
}

impl FromSpecImpl<[u8; 32]> for Address {
    open spec fn obeys_from_spec() -> bool {
        true
    }

    open spec fn from_spec(value: [u8; 32]) -> Self {
        Address(value)
    }
}

impl Address {
    /// The address of the account that `key` controls: its SHA3-256 digest.
    pub fn from_public_key(key: &PublicKey) -> (address: Address)
        ensures
            address@ == sha3_256(key@),
    {
        Address(digest(key).0)
    }

    /// Reads an address from Base58 text. A text of more than
    /// [`MAX_ADDRESS_TEXT`] characters is too long to be one.
    pub fn try_from(value: &str) -> (r: Result<Address, AddressParseError>)
        ensures
            spec_parsed(value@, r),
    {
        if value.unicode_len() > MAX_ADDRESS_TEXT {
            return Err(AddressParseError::InputLength);
        }
        let decoded = base58_decode(value);
        Address::from_decoded(decoded)
    }

    /// The address that a decoded text stands for: its bytes if there are
    /// exactly 32 of them.
    pub fn from_decoded(decoded: Result<Vec<u8>, Base58Error>) -> (r: Result<
        Address,
        AddressParseError,
    >)
        ensures
            match decoded {
                Ok(bytes) => if bytes@.len() == 32 {
                    r matches Ok(address) && address@ == bytes@
                } else {
                    r == Err::<Address, AddressParseError>(AddressParseError::InputLength)
                },
                Err(e) => r == Err::<Address, AddressParseError>(AddressParseError::Base58(e)),
            },
    {
        match decoded {
            Err(e) => Err(AddressParseError::Base58(e)),
            Ok(bytes) => if bytes.len() == 32 {
                let array = array_at::<32>(bytes.as_slice(), 0);
                assert(bytes@.subrange(0, 32) =~= bytes@);
                Ok(Address(array))
            } else {
                Err(AddressParseError::InputLength)
            },
        }
    }

    /// The 32 bytes.
    pub fn as_bytes(&self) -> (bytes: &[u8; 32])
        ensures
            bytes@ == self@,
    {
        &self.0
    }

    /// The encoding of the address: its 32 bytes.
    pub fn encode(&self) -> (bytes: Vec<u8>)
        ensures
            bytes@ == self@,
    {
        let mut bytes: Vec<u8> = Vec::new();
        append_bytes(&mut bytes, &self.0);
        assert(bytes@ =~= self@);
        bytes
    }

    /// The address that `bytes` is the encoding of: there is one if there
    /// are exactly 32 bytes.
    pub fn from_bytes(bytes: &[u8]) -> (r: Result<Address, DecodeError>)
        ensures
            match r {
                Ok(address) => address@ == bytes@,
                Err(_) => bytes@.len() != 32,
            },
    {
        if bytes.len() == 32 {
            let array = array_at::<32>(bytes, 0);
            assert(bytes@.subrange(0, 32) =~= bytes@);
            Ok(Address(array))
        } else {
            Err(DecodeError)
        }
    }

    /// The address as Base58 text.
    pub fn to_base58(&self) -> (text: String)
        ensures
            text@ == base58_encoded(self@),
    {
        base58_encode(&self.0)
    }
}

/// Two addresses with the same bytes are the same value.
pub proof fn lemma_address_eq(a: Address, b: Address)
    requires
        a@ == b@,
    ensures
        a == b,
{
    lemma_array_eq(a.0, b.0);
}

/// Reading the encoding of an address gives that address back.
pub proof fn lemma_address_read_encoded(address: Address, r: Result<Address, DecodeError>)
    requires
        match r {
            Ok(read) => read@ == address@,
            Err(_) => address@.len() != 32,
        },
    ensures
        r == Ok::<Address, DecodeError>(address),
{
    if let Ok(read) = r {
        lemma_address_eq(read, address);
    }
}

/// An account as a wallet shows it: its address, its public key where it is
/// known, and its balance.
#[derive(Clone, Copy, Debug)]
pub struct Account {
    pub address: Address,
    pub pkey: Option<PublicKey>,
    pub balance: u64,
}

} // verus!
