//! The master key's life cycle: a key found in the system credential store is
//! reused when it has the right length; otherwise a new one replaces it.

use vstd::prelude::*;

use crate::crypto::{generate_master_key, KEY_LEN};

verus! {

/// What to do with the master key at start-up.
pub enum MasterKeyPlan {
    /// The stored key is usable.
    Reuse([u8; KEY_LEN]),
    /// No usable key is stored: use this new one and store it.
    Replace([u8; KEY_LEN]),
}

/// Decides on the master key from what the credential store holds (`None` when
/// nothing could be read).
pub fn plan_master_key(stored: Option<Vec<u8>>) -> (plan: MasterKeyPlan)
    ensures
        (stored matches Some(b) && b@.len() == KEY_LEN) ==> (plan matches MasterKeyPlan::Reuse(k) && k@
            == stored->0@),
        !(stored matches Some(b) && b@.len() == KEY_LEN) ==> plan is Replace,
{
    match stored {
        Some(bytes) => {
            if bytes.len() == KEY_LEN {
                let mut key = [0u8; KEY_LEN];
                let mut i: usize = 0;
                while i < KEY_LEN
                    invariant
                        i <= KEY_LEN,
                        bytes@.len() == KEY_LEN,
                        forall|j: int| 0 <= j < i ==> key@[j] == bytes@[j],
                    decreases KEY_LEN - i,
                {
                    key[i] = bytes[i];
                    i += 1;
                }
                assert(key@ =~= bytes@);
                MasterKeyPlan::Reuse(key)
            } else {
                MasterKeyPlan::Replace(generate_master_key())
            }
        },
        None => MasterKeyPlan::Replace(generate_master_key()),
    }
}

} // verus!
