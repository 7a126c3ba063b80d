//! Connection pooling and sharing for a stream-multiplexed HTTP
//! client over a QUIC-family transport: destination keys derived
//! from request targets, the literal-IP fast path and ordered
//! address fallback of the backend connector, and a keyed pool that
//! establishes at most one connection per destination at a time and
//! shares its outcome with every concurrent requester.

use vstd::prelude::*;

pub mod client;
pub mod errors;
pub mod establish;
pub mod ip;
pub mod key;
pub mod pool;
pub mod uri;

verus! {

/// Compares two byte strings for equality of their contents.
pub fn bytes_eq(a: &[u8], b: &[u8]) -> (r: bool)
    ensures
        r == (a@ == b@),
{
    if a.len() != b.len() {
        proof {
            assert(a@.len() != b@.len());
        }
        return false;
    }
    let mut i: usize = 0;
    while i < a.len()
        invariant
            i <= a.len(),
            a.len() == b.len(),
            forall|j: int| 0 <= j < i ==> a@[j] == b@[j],
        decreases a.len() - i,
    {
        if a[i] != b[i] {
            return false;
        }
        i += 1;
    }
    proof {
        assert(a@ =~= b@);
    }
    true
}

} // verus!
