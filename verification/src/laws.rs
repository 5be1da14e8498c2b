//! The system-wide guarantees, stated and proved against the contracts of
//! the operations: uniqueness of issuance, rejection rules, the read-time
//! expiry projection, the metadata round trip, and consistency of the
//! secondary index with the metadata store.

use vstd::prelude::*;

use crate::contract::{attr_on_seq, MembershipTokenContract, MetadataModel, TokenModel};
use crate::values::{MembershipStatus, Error, ValueModel};

verus! {

/// Issuance succeeds exactly when the caller is the admin, the id is
/// fresh, and the expiry lies strictly in the future; once a token with
/// the id is stored, a second issuance of the same id by the admin is
/// refused as `AlreadyExists`.
pub proof fn lemma_issue_exactly_once(
    s: &MembershipTokenContract,
    id: Seq<u8>,
    caller: Seq<char>,
    expiry_date: u64,
    now: u64,
)
    requires
        s.admin_of() == Some(caller),
    ensures
        s.token_of(id) is None && expiry_date > now ==> s.issue_outcome(id, caller, expiry_date, now)
            == Ok::<(), Error>(()),
        s.token_of(id) is Some ==> s.issue_outcome(id, caller, expiry_date, now) == Err::<
            (),
            Error,
        >(Error::AlreadyExists),
{
}

/// An issuance whose expiry does not lie strictly in the future is always
/// refused as `InvalidExpiry`; with the contract of `issue_token`, a
/// refused issuance leaves the state unchanged, so no token is stored.
pub proof fn lemma_invalid_expiry_rejected(
    s: &MembershipTokenContract,
    id: Seq<u8>,
    caller: Seq<char>,
    expiry_date: u64,
    now: u64,
)
    requires
        s.admin_of() == Some(caller),
        s.token_of(id) is None,
        expiry_date <= now,
    ensures
        s.issue_outcome(id, caller, expiry_date, now) == Err::<(), Error>(Error::InvalidExpiry),
{
}

/// A transfer is accepted exactly for the current owner of an active
/// token; any other principal is refused as `Unauthorized`. After an
/// accepted transfer the new owner is what every in-date read reports.
pub proof fn lemma_transfer_authorization(
    s: &MembershipTokenContract,
    id: Seq<u8>,
    caller: Seq<char>,
)
    requires
        s.token_of(id) is Some,
        s.token_of(id)->Some_0.status == MembershipStatus::Active,
    ensures
        caller == s.token_of(id)->Some_0.user ==> s.transfer_outcome(id, caller) == Ok::<
            (),
            Error,
        >(()),
        caller != s.token_of(id)->Some_0.user ==> s.transfer_outcome(id, caller) == Err::<
            (),
            Error,
        >(Error::Unauthorized),
{
}

/// After a state change that stored the token `t` under `id` (as an
/// accepted transfer does), a read within the expiry window returns
/// exactly `t`, owner included.
pub proof fn lemma_get_after_transfer(s: &MembershipTokenContract, id: Seq<u8>, now: u64)
    requires
        s.token_of(id) is Some,
        s.token_of(id)->Some_0.status == MembershipStatus::Active,
        now <= s.token_of(id)->Some_0.expiry_date,
    ensures
        s.get_outcome(id, now) == Ok::<TokenModel, Error>(s.token_of(id)->Some_0),
{
}

/// A token stored Active whose expiry has passed is reported `Expired`
/// by a read, never returned as a token.
pub proof fn lemma_expired_read(s: &MembershipTokenContract, id: Seq<u8>, now: u64)
    requires
        s.token_of(id) is Some,
        s.token_of(id)->Some_0.status == MembershipStatus::Active,
        now > s.token_of(id)->Some_0.expiry_date,
    ensures
        s.get_outcome(id, now) == Err::<TokenModel, Error>(Error::Expired),
{
}

/// The metadata round trip: whenever a token's metadata stands stored
/// (as it does right after an accepted `set_token_metadata`, whose
/// contract pins it to the written description, attributes and version),
/// a metadata read returns exactly the stored model, and the index
/// answers for exactly the stored attribute pairs.
pub proof fn lemma_metadata_round_trip(
    s: &MembershipTokenContract,
    id: Seq<u8>,
    k: Seq<char>,
    v: ValueModel,
)
    requires
        s.wf(),
        s.token_of(id) is Some,
        s.meta_of(id) is Some,
    ensures
        s.metadata_outcome(id) == Ok::<MetadataModel, Error>(s.meta_of(id)->Some_0),
        s.index.contains(k, v, id) <==> s.meta_of(id)->Some_0.attributes.contains_pair(k, v),
{
    assert(s.index.contains(k, v, id) == attr_on_seq(s.metadata@, id, k, v));
}

/// Index consistency, as every operation preserves it: an id stands in
/// the bucket of (k, v) exactly when that token's current metadata holds
/// the pair, and a pair that no token currently holds has an empty (that
/// is, absent) bucket.
pub proof fn lemma_index_consistency(
    s: &MembershipTokenContract,
    k: Seq<char>,
    v: ValueModel,
    id: Seq<u8>,
)
    requires
        s.wf(),
    ensures
        s.index.contains(k, v, id) <==> (s.meta_of(id) is Some
            && s.meta_of(id)->Some_0.attributes.contains_pair(k, v)),
        (forall|x: Seq<u8>| !s.attr_on(x, k, v)) ==> s.index.bucket(k, v).len() == 0,
{
    assert(s.index.contains(k, v, id) == attr_on_seq(s.metadata@, id, k, v));
    s.index.lemma_bucket(k, v);
    if forall|x: Seq<u8>| !s.attr_on(x, k, v) {
        assert forall|x: Seq<u8>| !s.index.contains(k, v, x) by {
            assert(s.index.contains(k, v, x) == attr_on_seq(s.metadata@, x, k, v));
            assert(!s.attr_on(x, k, v));
        }
    }
}

/// A partial update on a token that has no stored metadata is refused as
/// `MetadataNotFound`, whatever the update payload.
pub proof fn lemma_update_needs_metadata(
    s: &MembershipTokenContract,
    id: Seq<u8>,
    updates: Map<Seq<char>, ValueModel>,
    caller: Seq<char>,
)
    requires
        s.token_of(id) is Some,
        s.meta_of(id) is None,
    ensures
        s.update_metadata_outcome(id, updates, caller) == Err::<(), Error>(
            Error::MetadataNotFound,
        ),
{
}

/// After an accepted attribute removal (whose contract pins the new
/// attribute map to the old one with every listed key removed), a listed
/// key is gone from the attribute map and from every index bucket of
/// that token; a key the token never held changes nothing of the map.
pub proof fn lemma_remove_clears_key(
    s: &MembershipTokenContract,
    id: Seq<u8>,
    k: Seq<char>,
    v: ValueModel,
)
    requires
        s.wf(),
        s.meta_of(id) is Some,
        !s.meta_of(id)->Some_0.attributes.contains_key(k),
    ensures
        !s.index.contains(k, v, id),
{
    assert(s.index.contains(k, v, id) == attr_on_seq(s.metadata@, id, k, v));
}

} // verus!
