//! Session keys: the algorithms that they are for, and where they come from.
use rand::rngs::ThreadRng;
use rand::RngCore;
use vstd::prelude::*;

verus! {

/// A symmetric encryption algorithm.
#[derive(Clone, Copy, Debug, PartialEq, Eq, Structural)]
pub enum SymmetricKeyAlgorithm {
    Plaintext,
    IDEA,
    TripleDES,
    CAST5,
    Blowfish,
    AES128,
    AES192,
    AES256,
    Twofish,
    Camellia128,
    Camellia192,
    Camellia256,
}

/// The random number generator of the running thread.
#[verifier::external_type_specification]
#[verifier::external_body]
pub struct ExThreadRng(ThreadRng);

/// Calls `rand::RngCore::fill_bytes`, which fills octets with random ones. Claimed: it
/// leaves as many octets as it was given. Which ones is left to chance.
#[verifier::external_body]
fn random_octets(rng: &mut ThreadRng, len: usize) -> (octets: Vec<u8>)
    ensures
        octets@.len() == len,
{
    let mut octets = vec![0u8; len];
    rng.fill_bytes(&mut octets);
    octets
}

impl SymmetricKeyAlgorithm {
    /// How many octets a key of the algorithm has.
    pub open spec fn spec_key_size(self) -> usize {
        match self {
            SymmetricKeyAlgorithm::Plaintext => 0,
            SymmetricKeyAlgorithm::IDEA => 16,
            SymmetricKeyAlgorithm::TripleDES => 24,
            SymmetricKeyAlgorithm::CAST5 => 16,
            SymmetricKeyAlgorithm::Blowfish => 16,
            SymmetricKeyAlgorithm::AES128 => 16,
            SymmetricKeyAlgorithm::AES192 => 24,
            SymmetricKeyAlgorithm::AES256 => 32,
            SymmetricKeyAlgorithm::Twofish => 32,
            SymmetricKeyAlgorithm::Camellia128 => 16,
            SymmetricKeyAlgorithm::Camellia192 => 24,
            SymmetricKeyAlgorithm::Camellia256 => 32,
        }
    }

    /// How many octets a key of the algorithm has.
    #[verifier::when_used_as_spec(spec_key_size)]
    pub fn key_size(self) -> (size: usize)
        ensures
            size == self.spec_key_size(),
    {
        match self {
            SymmetricKeyAlgorithm::Plaintext => 0,
            SymmetricKeyAlgorithm::IDEA => 16,
            SymmetricKeyAlgorithm::TripleDES => 24,
            SymmetricKeyAlgorithm::CAST5 => 16,
            SymmetricKeyAlgorithm::Blowfish => 16,
            SymmetricKeyAlgorithm::AES128 => 16,
            SymmetricKeyAlgorithm::AES192 => 24,
            SymmetricKeyAlgorithm::AES256 => 32,
            SymmetricKeyAlgorithm::Twofish => 32,
            SymmetricKeyAlgorithm::Camellia128 => 16,
            SymmetricKeyAlgorithm::Camellia192 => 24,
            SymmetricKeyAlgorithm::Camellia256 => 32,
        }
    }

    /// Makes a new session key of the algorithm's size. Its octets are random.
    pub fn new_session_key(self, rng: &mut ThreadRng) -> (key: Vec<u8>)
        ensures
            key@.len() == self.key_size(),
    {
        random_octets(rng, self.key_size())
    }
}

/// Whether the octets are a session key that `new_session_key` drew from the generator as
/// it was in the state `rng`.
pub open spec fn drawn(alg: SymmetricKeyAlgorithm, rng: ThreadRng, key: Seq<u8>) -> bool {
    &&& key.len() == alg.key_size()
    &&& exists|g: &mut ThreadRng, k: Vec<u8>|
        {
            &&& #[trigger] call_ensures(SymmetricKeyAlgorithm::new_session_key, (alg, g), k)
            &&& *g == rng
            &&& k@ == key
        }
}

/// A drawn session key has the size of its algorithm, and is what `new_session_key` gave
/// for the algorithm and the generator.
pub proof fn law_drawn_key_was_given(alg: SymmetricKeyAlgorithm, rng: ThreadRng, key: Seq<u8>)
    requires
        drawn(alg, rng, key),
    ensures
        key.len() == alg.key_size(),
        exists|g: &mut ThreadRng, k: Vec<u8>|
            {
                &&& #[trigger] call_ensures(SymmetricKeyAlgorithm::new_session_key, (alg, g), k)
                &&& *g == rng
                &&& k@ == key
            },
{
}

} // verus!
