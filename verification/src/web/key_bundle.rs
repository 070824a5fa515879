//! The key bundle of the browser client: a public key, the secret held for its owner, and
//! the owner's address; a stored bundle is read back by the same rules as the client's.
use vstd::prelude::*;
use crate::crypto::{chacha20_seeded_bytes, seeded_secret, x25519_public, x25519_public_key};
use crate::wire::{AddrView, Address};
pub use crate::client::key_bundle::{field_from_name, Field, KeyBundleFields, SecretKey, SecretView};

verus! {

/// A key bundle of the browser client as a mathematical value.
pub struct WebBundleView {
    pub public_key: Seq<u8>,
    pub secret: SecretView,
    pub address: AddrView,
}

/// Someone's public key, the secret held for them, and their address.
pub struct KeyBundle {
    pub publicKey: [u8; 32],
    pub secret: SecretKey,
    pub address: Address,
}

impl View for KeyBundle {
    type V = WebBundleView;

    open spec fn view(&self) -> WebBundleView {
        WebBundleView { public_key: self.publicKey@, secret: self.secret@, address: self.address@ }
    }
}

impl KeyBundle {
    /// Whether a secret is shared with the bundle's owner.
    pub fn isTrusting(&self) -> (r: bool)
        ensures
            r == self@.secret is Shared,
    {
        match self.secret {
            SecretKey::Shared(_) => true,
            SecretKey::Ephemeral(_) => false,
            SecretKey::Empty() => false,
        }
    }

    /// The bundle of a new key pair for `addr`, its secret drawn from the ChaCha20 generator
    /// seeded with `randNum`.
    pub fn newSelfKeySet(addr: Address, randNum: u64) -> (res: KeyBundle)
        ensures
            res@ == (WebBundleView {
                public_key: x25519_public(chacha20_seeded_bytes(randNum)),
                secret: SecretView::Ephemeral(chacha20_seeded_bytes(randNum)),
                address: addr@,
            }),
    {
        let secret = seeded_secret(randNum);
        KeyBundle {
            publicKey: x25519_public_key(&secret),
            secret: SecretKey::Ephemeral(secret),
            address: addr,
        }
    }
}

} // verus!
