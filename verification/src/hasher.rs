//! The hash function of the virtual machine, which `miden_crypto` computes.

use miden_crypto::hash::poseidon2::Poseidon2;
use vstd::prelude::*;

use crate::felt::{Felt, Word};

verus! {

/// The representatives of a sequence of field elements.
pub open spec fn representatives(elements: Seq<Felt>) -> Seq<u64> {
    Seq::new(elements.len(), |i: int| elements[i].value)
}

/// What `Poseidon2::hash_elements` returns on the elements with these representatives.
pub uninterp spec fn poseidon2_hash_elements(elements: Seq<u64>) -> Seq<u64>;

/// What `Poseidon2::merge_in_domain` returns on two words under a domain.
pub uninterp spec fn poseidon2_merge_in_domain(
    left: Seq<u64>,
    right: Seq<u64>,
    domain: u64,
) -> Seq<u64>;

/// The digest of a sequence of field elements.
pub open spec fn hash_elements_spec(elements: Seq<Felt>) -> Word {
    Word::of(poseidon2_hash_elements(representatives(elements)))
}

/// The digest of two words under a domain.
pub open spec fn merge_in_domain_spec(left: Word, right: Word, domain: u64) -> Word {
    Word::of(poseidon2_merge_in_domain(left@, right@, domain))
}

/// Calls `miden_crypto::hash::poseidon2::Poseidon2::hash_elements`.
///
/// Believed of it: the digest depends on the elements alone, has four elements, and
/// `Felt::as_canonical_u64` hands each of them out below the field order.
#[verifier::external_body]
fn poseidon2_elements(elements: &[u64]) -> (digest: [u64; 4])
    ensures
        digest@ == poseidon2_hash_elements(elements@),
        digest@[0] < crate::felt::MODULUS,
        digest@[1] < crate::felt::MODULUS,
        digest@[2] < crate::felt::MODULUS,
        digest@[3] < crate::felt::MODULUS,
{
    let felts: Vec<miden_crypto::Felt> =
        elements.iter().map(|value| miden_crypto::Felt::new_unchecked(*value)).collect();
    Poseidon2::hash_elements(&felts).into_elements().map(|felt| felt.as_canonical_u64())
}

/// Calls `miden_crypto::hash::poseidon2::Poseidon2::merge_in_domain`.
///
/// Believed of it: the digest depends on the two words and the domain alone, has four elements,
/// and `Felt::as_canonical_u64` hands each of them out below the field order.
#[verifier::external_body]
fn poseidon2_merge(left: [u64; 4], right: [u64; 4], domain: u64) -> (digest: [u64; 4])
    ensures
        digest@ == poseidon2_merge_in_domain(left@, right@, domain),
        digest@[0] < crate::felt::MODULUS,
        digest@[1] < crate::felt::MODULUS,
        digest@[2] < crate::felt::MODULUS,
        digest@[3] < crate::felt::MODULUS,
{
    let left = miden_crypto::Word::new(left.map(miden_crypto::Felt::new_unchecked));
    let right = miden_crypto::Word::new(right.map(miden_crypto::Felt::new_unchecked));
    Poseidon2::merge_in_domain(&[left, right], miden_crypto::Felt::new_unchecked(domain))
        .into_elements()
        .map(|felt| felt.as_canonical_u64())
}

fn word_of(digest: [u64; 4]) -> (word: Word)
    ensures
        word == Word::of(digest@),
{
    Word {
        w0: Felt { value: digest[0] },
        w1: Felt { value: digest[1] },
        w2: Felt { value: digest[2] },
        w3: Felt { value: digest[3] },
    }
}

/// Hashes a sequence of field elements.
pub fn hash_elements(elements: &[Felt]) -> (digest: Word)
    ensures
        digest == hash_elements_spec(elements@),
        digest.wf(),
{
    let mut values: Vec<u64> = Vec::new();
    let mut i: usize = 0;
    while i < elements.len()
        invariant
            i <= elements.len(),
            values@ =~= representatives(elements@.take(i as int)),
        decreases elements.len() - i,
    {
        values.push(elements[i].value);
        i += 1;
    }
    assert(elements@.take(i as int) =~= elements@);
    word_of(poseidon2_elements(values.as_slice()))
}

/// Hashes two words together under a domain.
pub fn merge_in_domain(left: &Word, right: &Word, domain: u64) -> (digest: Word)
    ensures
        digest == merge_in_domain_spec(*left, *right, domain),
        digest.wf(),
{
    let l = [left.w0.value, left.w1.value, left.w2.value, left.w3.value];
    let r = [right.w0.value, right.w1.value, right.w2.value, right.w3.value];
    assert(l@ =~= left@);
    assert(r@ =~= right@);
    word_of(poseidon2_merge(l, r, domain))
}

} // verus!
