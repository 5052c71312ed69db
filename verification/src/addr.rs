//! Addresses and capability derivation.
//!
//! Every participant and holding account is named by an opaque address. An
//! address is either held by a keypair (so a signature can authorize spending
//! from it) or derived deterministically from a domain tag, a base entity key
//! and a seed. No private key exists for a derived address: only code that
//! recomputes the derivation can authorize movement out of accounts it holds.

use vstd::prelude::*;

verus! {

/// An opaque, globally unique address.
#[derive(Clone, Copy, Debug, PartialEq, Eq, Structural)]
pub enum Addr {
    /// An address controlled by a caller-held keypair.
    Key(u64),
    /// A program-derived address: (domain tag, base entity key, seed).
    Derived(u64, u64, u8),
}

/// A capability recomputed from a derivation: presenting it authorizes
/// spending from accounts held by the matching derived address.
#[derive(Clone, Copy, Debug, PartialEq, Eq, Structural)]
pub struct AuthorityProof {
    pub tag: u64,
    pub entity: u64,
    pub seed: u8,
}

/// What a caller presents to the custody service to move funds: either a real
/// signature over a keypair-held address, or a recomputed derivation.
#[derive(Clone, Copy, Debug, PartialEq, Eq, Structural)]
pub enum Authority {
    /// A signature by the holder of `Addr::Key(_)`.
    Signature(u64),
    /// A recomputed derivation standing for `Addr::Derived(_, _, _)`.
    Derived(AuthorityProof),
}

/// Recomputes the deterministic authority for a derived address.
pub fn derive_authority(tag: u64, entity: u64, seed: u8) -> (p: AuthorityProof)
    ensures
        p == (AuthorityProof { tag, entity, seed }),
{
    AuthorityProof { tag, entity, seed }
}

/// The derived address an authority proof stands for.
pub open spec fn derived_addr(p: AuthorityProof) -> Addr {
    Addr::Derived(p.tag, p.entity, p.seed)
}

/// Whether `a` can authorize movement out of an account held by `holder`:
/// a signature controls exactly its keypair-held address, and a derivation
/// controls exactly the derived address it recomputes.
pub open spec fn spec_controls(a: Authority, holder: Addr) -> bool {
    match a {
        Authority::Signature(k) => holder == Addr::Key(k),
        Authority::Derived(p) => holder == derived_addr(p),
    }
}

/// The custody service's verification routine: checks a presented authority
/// against the holder of the account it wants to spend from, by recomputing
/// the derivation rather than trusting any passed-in flag.
pub fn verify_authority(a: &Authority, holder: &Addr) -> (r: bool)
    ensures
        r == spec_controls(*a, *holder),
{
    match a {
        Authority::Signature(k) => *holder == Addr::Key(*k),
        Authority::Derived(p) => *holder == Addr::Derived(p.tag, p.entity, p.seed),
    }
}

} // verus!
