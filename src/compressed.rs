//! The compressed server key: key material as the client publishes it, with its
//! seeded (compressed) bootstrapping key.
use vstd::prelude::*;

verus! {

/// A seeded LWE bootstrapping key: its compressed body of 64-bit elements.
#[derive(Clone, Debug, PartialEq)]
pub struct SeededLweBootstrapKey {
    pub container: Vec<u64>,
}

/// A seeded multi-bit LWE bootstrapping key: its compressed body of 64-bit
/// elements.
#[derive(Clone, Debug, PartialEq)]
pub struct SeededLweMultiBitBootstrapKey {
    pub container: Vec<u64>,
}

/// A seeded LWE key-switching key: its compressed body of 64-bit elements.
#[derive(Clone, Debug, PartialEq)]
pub struct SeededLweKeyswitchKey {
    pub container: Vec<u64>,
}

/// The size of the message space.
#[derive(Clone, Copy, Debug, PartialEq, Eq)]
pub struct MessageModulus(pub usize);

/// The size of the carry space.
#[derive(Clone, Copy, Debug, PartialEq, Eq)]
pub struct CarryModulus(pub usize);

/// The largest degree a ciphertext may reach before its carries are emptied.
#[derive(Clone, Copy, Debug, PartialEq, Eq)]
pub struct MaxDegree(pub usize);

/// The modulus of the ciphertexts' coefficients; 0 stands for the native 2^64.
#[derive(Clone, Copy, Debug, PartialEq, Eq)]
pub struct CiphertextModulus(pub u128);

/// The order of key switching and bootstrapping in a programmable bootstrap.
#[derive(Clone, Copy, Debug, PartialEq, Eq)]
pub enum PBSOrder {
    KeyswitchBootstrap,
    BootstrapKeyswitch,
}

/// The bootstrapping key of a compressed server key.
#[derive(Clone, Debug, PartialEq)]
pub enum ShortintCompressedBootstrappingKey {
    Classic(SeededLweBootstrapKey),
    MultiBit { seeded_bsk: SeededLweMultiBitBootstrapKey, deterministic_execution: bool },
}

/// The number of 64-bit elements in the key's body.
pub open spec fn key_elements(key: ShortintCompressedBootstrappingKey) -> nat {
    match key {
        ShortintCompressedBootstrappingKey::Classic(bsk) => bsk.container@.len(),
        ShortintCompressedBootstrappingKey::MultiBit { seeded_bsk, .. } => seeded_bsk.container@.len(),
    }
}

impl ShortintCompressedBootstrappingKey {
    /// The number of elements in the key's body.
    pub fn bootstrapping_key_size_elements(&self) -> (r: usize)
        ensures
            r == key_elements(*self),
    {
        match self {
            ShortintCompressedBootstrappingKey::Classic(bsk) => bsk.container.len(),
            ShortintCompressedBootstrappingKey::MultiBit { seeded_bsk: bsk, .. } => {
                bsk.container.len()
            },
        }
    }

    /// The size of the key's body in bytes: eight per element.
    pub fn bootstrapping_key_size_bytes(&self) -> (r: usize)
        requires
            key_elements(*self) * 8 <= usize::MAX,
        ensures
            r == key_elements(*self) * 8,
    {
        self.bootstrapping_key_size_elements() * 8
    }
}

/// A compressed server public key. The client generates it and sends it to the
/// server, which uses it to compute homomorphic circuits.
#[derive(Clone, Debug, PartialEq)]
pub struct CompressedServerKey {
    pub key_switching_key: SeededLweKeyswitchKey,
    pub bootstrapping_key: ShortintCompressedBootstrappingKey,
    pub message_modulus: MessageModulus,
    pub carry_modulus: CarryModulus,
    pub max_degree: MaxDegree,
    pub ciphertext_modulus: CiphertextModulus,
    pub pbs_order: PBSOrder,
}

} // verus!
