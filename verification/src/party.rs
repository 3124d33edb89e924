//! The party identifier: a principal, carried through the ledger as an
//! opaque token that can only be compared for identity.

use vstd::prelude::*;

use candid::Principal;

verus! {

/// `candid::Principal`, the identifier of a party. Nothing inside a value is
/// visible to the proofs: a principal is known only by its identity.
#[verifier::external_type_specification]
#[verifier::external_body]
pub struct ExPrincipal(candid::Principal);

/// Calls `PartialEq::eq` of `candid::Principal`: the `==` that is derived for
/// the type over its length and its byte buffer.
///
/// Trusted, not proved: the answer is `true` exactly when `a` and `b` are
/// the same principal.
#[verifier::external_body]
pub(crate) fn same_party(a: &Principal, b: &Principal) -> (same: bool)
    ensures
        same == (*a == *b),
{
    a == b
}

} // verus!
