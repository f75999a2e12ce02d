//! A wallet: a Falcon-512 key pair and the address that it controls.
use crate::account::{Address, PublicKey, SecretKey};
use crate::bytes::{append_bytes, array_at};
use crate::hash::sha3_256;
use pqcrypto::sign::falcon512;
use pqcrypto::traits::sign::{PublicKey as FalconPublicKey, SecretKey as FalconSecretKey};
use vstd::prelude::*;

verus! {

/// Where a wallet is kept unless another place is given.
pub const DEFAULT_CREDS_LOCATION: &'static str = "./lunaria_wallet.bin";

/// How many bytes the encoding of a wallet has.
pub const CLIENT_BYTES: usize = 2210;

/// What can be wrong with the bytes of a wallet.
#[derive(Clone, Copy, Debug, PartialEq, Eq, Structural)]
pub enum ClientError {
    /// The bytes are not the encoding of a wallet.
    DecodeError,
}

/// `falcon512::keypair` of `pqcrypto`: a new key pair. The keys are drawn
/// at random, so nothing is known of them but their widths.
#[verifier::external_body]
pub(crate) fn falcon512_keypair() -> (keys: (PublicKey, SecretKey)) {
    let (public_key, secret_key) = falcon512::keypair();
    let mut keys = ([0u8; 897], [0u8; 1281]);
    keys.0.copy_from_slice(public_key.as_bytes());
    keys.1.copy_from_slice(secret_key.as_bytes());
    keys
}

/// A key pair and its address, which is the digest of the public key.
pub struct Client {
    pk: PublicKey,
    sk: SecretKey,
    address: Address,
}

/// What a wallet holds.
pub struct ClientView {
    pub public_key: PublicKey,
    pub secret_key: SecretKey,
    pub address: Address,
}

impl View for Client {
    type V = ClientView;

    closed spec fn view(&self) -> ClientView {
        ClientView { public_key: self.pk, secret_key: self.sk, address: self.address }
    }
}

/// The encoding of a wallet: the public key, the secret key, the address.
pub open spec fn spec_encode_client(client: ClientView) -> Seq<u8> {
    client.public_key@ + client.secret_key@ + client.address@
}

/// The address is the digest of the public key.
pub open spec fn spec_valid_client(client: ClientView) -> bool {
    client.address@ == sha3_256(client.public_key@)
}

impl Client {
    #[verifier::type_invariant]
    spec fn valid(self) -> bool {
        self.address@ == sha3_256(self.pk@)
    }

    /// A wallet with a new key pair.
    pub fn new() -> (client: Client)
        ensures
            spec_valid_client(client@),
    {
        let (pk, sk) = falcon512_keypair();
        Client::from_keys(pk, sk)
    }

    /// The wallet of a key pair.
    pub fn from_keys(public_key: PublicKey, secret_key: SecretKey) -> (client: Client)
        ensures
            client@.public_key == public_key,
            client@.secret_key == secret_key,
            spec_valid_client(client@),
    {
        Client { pk: public_key, sk: secret_key, address: Address::from_public_key(&public_key) }
    }

    /// The public and the secret key.
    pub fn keypair(&self) -> (keys: (PublicKey, SecretKey))
        ensures
            keys.0 == self@.public_key,
            keys.1 == self@.secret_key,
    {
        (self.pk, self.sk)
    }

    /// The address that the key pair controls.
    pub fn address(&self) -> (address: Address)
        ensures
            address == self@.address,
            address@ == sha3_256(self@.public_key@),
    {
        proof {
            use_type_invariant(self);
        }
        self.address
    }

    /// The encoding of the wallet.
    pub fn encode(&self) -> (bytes: Vec<u8>)
        ensures
            bytes@ == spec_encode_client(self@),
            bytes@.len() == CLIENT_BYTES,
    {
        let mut bytes: Vec<u8> = Vec::new();
        append_bytes(&mut bytes, &self.pk);
        append_bytes(&mut bytes, &self.sk);
        append_bytes(&mut bytes, &self.address.0);
        assert(bytes@ =~= spec_encode_client(self@));
        bytes
    }

    /// The wallet that `bytes` is the encoding of. A wallet whose address is
    /// not the digest of its public key is refused.
    pub fn from_bytes(bytes: &[u8]) -> (r: Result<Client, ClientError>)
        ensures
            match r {
                Ok(client) => spec_valid_client(client@) && spec_encode_client(client@) == bytes@,
                Err(_) => forall|client: ClientView|
                    spec_valid_client(client) ==> #[trigger] spec_encode_client(client) != bytes@,
            },
    {
        if bytes.len() != CLIENT_BYTES {
            return Err(ClientError::DecodeError);
        }
        let pk = array_at::<897>(bytes, 0);
        let sk = array_at::<1281>(bytes, 897);
        let stored = Address(array_at::<32>(bytes, 2178));
        let address = Address::from_public_key(&pk);
        if stored != address {
            assert forall|client: ClientView| spec_valid_client(client) implies #[trigger] spec_encode_client(
                client,
            ) != bytes@ by {
                let e = spec_encode_client(client);
                if e == bytes@ {
                    assert(e.subrange(0, 897) =~= client.public_key@);
                    assert(e.subrange(2178, 2210) =~= client.address@);
                }
            }
            return Err(ClientError::DecodeError);
        }
        let client = Client { pk, sk, address };
        assert(spec_encode_client(client@) =~= bytes@);
        Ok(client)
    }
}

} // verus!
