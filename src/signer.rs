//! A signer that holds no key: transactions it signs carry an all-zero
//! signature and a fixed sender.

use vstd::prelude::*;

verus! {

/// Signs for an optional chain id without a key.
#[derive(Clone, Copy, Debug)]
pub struct AbstractSigner {
    pub chain_id: Option<u64>,
}

impl AbstractSigner {
    /// A signer for `chain_id`.
    pub fn new(chain_id: Option<u64>) -> (r: Self)
        ensures
            r.chain_id == chain_id,
    {
        AbstractSigner { chain_id }
    }

    /// The sender address it signs as: twenty `0xff` bytes.
    pub fn address(&self) -> (r: [u8; 20])
        ensures
            forall|i: int| 0 <= i < 20 ==> r@[i] == 0xff,
    {
        [0xffu8; 20]
    }
}

} // verus!
