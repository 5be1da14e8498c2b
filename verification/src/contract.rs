//! The membership token contract state: record store, versioned metadata
//! store, append-only history log, secondary attribute index, and the
//! single admin slot, with the authorization gate applied per operation.
//!
//! The caller of each operation is passed in explicitly, together with the
//! current time; verifying the caller's credentials and reading the clock
//! belong to the host environment.

use vstd::prelude::*;

use crate::attrs::{has_key, keys_valid_map, Attributes};
use crate::index::{ids_has, ids_view, MetadataIndex};
use crate::values::{
    bytes_clone, bytes_eq, str_eq, valid_key, value_clone, MembershipStatus, MetadataValue, Error,
    ValueModel,
};

verus! {

/// The number of bytes of a token identifier.
pub const TOKEN_ID_LEN: usize = 32;

/// The primary record: an owned token with lifecycle status and expiry.
#[derive(Debug)]
pub struct MembershipToken {
    pub id: Vec<u8>,
    pub user: String,
    pub status: MembershipStatus,
    pub issue_date: u64,
    pub expiry_date: u64,
}

/// Mathematical model of a token.
pub struct TokenModel {
    pub id: Seq<u8>,
    pub user: Seq<char>,
    pub status: MembershipStatus,
    pub issue_date: u64,
    pub expiry_date: u64,
}

impl View for MembershipToken {
    type V = TokenModel;

    open spec fn view(&self) -> TokenModel {
        TokenModel {
            id: self.id@,
            user: self.user@,
            status: self.status,
            issue_date: self.issue_date,
            expiry_date: self.expiry_date,
        }
    }
}

/// Versioned metadata attached to one token.
#[derive(Debug)]
pub struct TokenMetadata {
    pub description: String,
    pub attributes: Attributes,
    pub version: u32,
    pub last_updated: u64,
    pub updated_by: String,
}

/// Mathematical model of a token's metadata.
pub struct MetadataModel {
    pub description: Seq<char>,
    pub attributes: Map<Seq<char>, ValueModel>,
    pub version: u32,
    pub last_updated: u64,
    pub updated_by: Seq<char>,
}

impl View for TokenMetadata {
    type V = MetadataModel;

    open spec fn view(&self) -> MetadataModel {
        MetadataModel {
            description: self.description@,
            attributes: self.attributes@,
            version: self.version,
            last_updated: self.last_updated,
            updated_by: self.updated_by@,
        }
    }
}

/// One immutable history entry: the delta applied by one accepted
/// metadata mutation, under the version it produced.
#[derive(Debug)]
pub struct MetadataUpdate {
    pub version: u32,
    pub timestamp: u64,
    pub updated_by: String,
    pub description: String,
    pub changes: Attributes,
}

/// Mathematical model of a history entry.
pub struct UpdateModel {
    pub version: u32,
    pub timestamp: u64,
    pub updated_by: Seq<char>,
    pub description: Seq<char>,
    pub changes: Map<Seq<char>, ValueModel>,
}

impl View for MetadataUpdate {
    type V = UpdateModel;

    open spec fn view(&self) -> UpdateModel {
        UpdateModel {
            version: self.version,
            timestamp: self.timestamp,
            updated_by: self.updated_by@,
            description: self.description@,
            changes: self.changes@,
        }
    }
}

/// The models of a history sequence, in order.
pub open spec fn updates_view(s: Seq<MetadataUpdate>) -> Seq<UpdateModel> {
    s.map_values(|u: MetadataUpdate| u@)
}

/// True when some string of `ks` reads `k`.
pub open spec fn key_listed(ks: Seq<String>, k: Seq<char>) -> bool {
    exists|i: int| 0 <= i < ks.len() && (#[trigger] ks[i])@ == k
}

// ------------------------------------------------------------------
// Association-sequence projections, shared by the contract's stores.
// ------------------------------------------------------------------

/// No two tokens of `ts` share an id.
pub open spec fn tokens_unique(ts: Seq<MembershipToken>) -> bool {
    forall|i: int, j: int|
        0 <= i < j < ts.len() ==> (#[trigger] ts[i]).id@ != (#[trigger] ts[j]).id@
}

/// A token with this id is stored.
pub open spec fn has_token_seq(ts: Seq<MembershipToken>, id: Seq<u8>) -> bool {
    exists|i: int| 0 <= i < ts.len() && (#[trigger] ts[i]).id@ == id
}

/// Position of the token with this id (meaningful when it exists).
pub open spec fn token_at_seq(ts: Seq<MembershipToken>, id: Seq<u8>) -> int {
    choose|i: int| 0 <= i < ts.len() && (#[trigger] ts[i]).id@ == id
}

/// The stored token with this id, as a model.
pub open spec fn token_of_seq(ts: Seq<MembershipToken>, id: Seq<u8>) -> Option<TokenModel> {
    if has_token_seq(ts, id) {
        Some(ts[token_at_seq(ts, id)]@)
    } else {
        None
    }
}

/// No two metadata entries share a token id.
pub open spec fn metas_unique(ms: Seq<(Vec<u8>, TokenMetadata)>) -> bool {
    forall|i: int, j: int|
        0 <= i < j < ms.len() ==> (#[trigger] ms[i]).0@ != (#[trigger] ms[j]).0@
}

/// Each stored metadata record is internally well-formed: unique valid
/// attribute keys and a version of at least 1.
pub open spec fn metas_ok(ms: Seq<(Vec<u8>, TokenMetadata)>) -> bool {
    forall|i: int|
        0 <= i < ms.len() ==> (#[trigger] ms[i]).1.attributes.wf() && ms[i].1.attributes.keys_valid()
            && ms[i].1.version >= 1
}

/// Metadata with this token id is stored.
pub open spec fn has_meta_seq(ms: Seq<(Vec<u8>, TokenMetadata)>, id: Seq<u8>) -> bool {
    exists|i: int| 0 <= i < ms.len() && (#[trigger] ms[i]).0@ == id
}

/// Position of the metadata entry with this id.
pub open spec fn meta_at_seq(ms: Seq<(Vec<u8>, TokenMetadata)>, id: Seq<u8>) -> int {
    choose|i: int| 0 <= i < ms.len() && (#[trigger] ms[i]).0@ == id
}

/// The stored metadata for this id, as a model.
pub open spec fn meta_of_seq(ms: Seq<(Vec<u8>, TokenMetadata)>, id: Seq<u8>) -> Option<
    MetadataModel,
> {
    if has_meta_seq(ms, id) {
        Some(ms[meta_at_seq(ms, id)].1@)
    } else {
        None
    }
}

/// The token with id `x` currently carries the attribute pair (k, v).
pub open spec fn attr_on_seq(
    ms: Seq<(Vec<u8>, TokenMetadata)>,
    x: Seq<u8>,
    k: Seq<char>,
    v: ValueModel,
) -> bool {
    match meta_of_seq(ms, x) {
        Some(m) => m.attributes.contains_pair(k, v),
        None => false,
    }
}

/// No two history entries share a token id.
pub open spec fn hists_unique(hs: Seq<(Vec<u8>, Vec<MetadataUpdate>)>) -> bool {
    forall|i: int, j: int|
        0 <= i < j < hs.len() ==> (#[trigger] hs[i]).0@ != (#[trigger] hs[j]).0@
}

/// The attribute maps of every recorded change are well-formed.
pub open spec fn hists_changes_wf(hs: Seq<(Vec<u8>, Vec<MetadataUpdate>)>) -> bool {
    forall|i: int, j: int|
        0 <= i < hs.len() && 0 <= j < hs[i].1@.len() ==> (#[trigger] hs[i].1@[j]).changes.wf()
}

/// A history entry with this token id is stored.
pub open spec fn has_hist_seq(hs: Seq<(Vec<u8>, Vec<MetadataUpdate>)>, id: Seq<u8>) -> bool {
    exists|i: int| 0 <= i < hs.len() && (#[trigger] hs[i]).0@ == id
}

/// Position of the history entry with this id.
pub open spec fn hist_at_seq(hs: Seq<(Vec<u8>, Vec<MetadataUpdate>)>, id: Seq<u8>) -> int {
    choose|i: int| 0 <= i < hs.len() && (#[trigger] hs[i]).0@ == id
}

/// The full ordered history for this id; empty when none exists.
pub open spec fn history_of_seq(hs: Seq<(Vec<u8>, Vec<MetadataUpdate>)>, id: Seq<u8>) -> Seq<
    UpdateModel,
> {
    if has_hist_seq(hs, id) {
        updates_view(hs[hist_at_seq(hs, id)].1@)
    } else {
        Seq::empty()
    }
}

// ------------------------------------------------------------------
// The contract state.
// ------------------------------------------------------------------

/// The whole contract state: one admin slot, the record store, the
/// metadata store, the history log, and the secondary attribute index.
pub struct MembershipTokenContract {
    pub admin: Option<String>,
    pub tokens: Vec<MembershipToken>,
    pub metadata: Vec<(Vec<u8>, TokenMetadata)>,
    pub history: Vec<(Vec<u8>, Vec<MetadataUpdate>)>,
    pub index: MetadataIndex,
}

impl MembershipTokenContract {
    /// The admin principal, if one was ever set.
    pub open spec fn admin_of(&self) -> Option<Seq<char>> {
        match self.admin {
            Some(a) => Some(a@),
            None => None,
        }
    }

    /// The stored token with this id.
    pub open spec fn token_of(&self, id: Seq<u8>) -> Option<TokenModel> {
        token_of_seq(self.tokens@, id)
    }

    /// The stored metadata for this id.
    pub open spec fn meta_of(&self, id: Seq<u8>) -> Option<MetadataModel> {
        meta_of_seq(self.metadata@, id)
    }

    /// The stored history for this id; empty when none exists.
    pub open spec fn history_of(&self, id: Seq<u8>) -> Seq<UpdateModel> {
        history_of_seq(self.history@, id)
    }

    /// The token `x` currently carries the attribute pair (k, v).
    pub open spec fn attr_on(&self, x: Seq<u8>, k: Seq<char>, v: ValueModel) -> bool {
        attr_on_seq(self.metadata@, x, k, v)
    }

    /// The core correctness property of the index: an id stands in the
    /// bucket of (k, v) exactly when that token's current metadata holds
    /// the pair (k, v).
    pub open spec fn index_consistent(&self) -> bool {
        forall|k: Seq<char>, v: ValueModel, x: Seq<u8>|
            #![trigger self.index.contains(k, v, x)]
            #![trigger attr_on_seq(self.metadata@, x, k, v)]
            self.index.contains(k, v, x) <==> attr_on_seq(self.metadata@, x, k, v)
    }

    /// Well-formedness of the whole state, index consistency included.
    pub open spec fn wf(&self) -> bool {
        &&& tokens_unique(self.tokens@)
        &&& forall|i: int|
            0 <= i < self.tokens@.len() ==> (#[trigger] self.tokens@[i]).id@.len() == TOKEN_ID_LEN
        &&& metas_unique(self.metadata@)
        &&& metas_ok(self.metadata@)
        &&& forall|i: int|
            0 <= i < self.metadata@.len() ==> has_token_seq(
                self.tokens@,
                (#[trigger] self.metadata@[i]).0@,
            )
        &&& hists_unique(self.history@)
        &&& hists_changes_wf(self.history@)
        &&& self.index.wf()
        &&& self.index_consistent()
    }

    /// The metadata version of this token can still be incremented
    /// without wrapping (a machine limit, not a rule of the design).
    pub open spec fn can_bump(&self, id: Seq<u8>) -> bool {
        match self.meta_of(id) {
            Some(m) => m.version < u32::MAX,
            None => true,
        }
    }

    /// The version the next accepted metadata mutation of `id` produces.
    pub open spec fn next_version(&self, id: Seq<u8>) -> u32
        recommends
            self.can_bump(id),
    {
        match self.meta_of(id) {
            Some(m) => (m.version + 1) as u32,
            None => 1u32,
        }
    }

    /// A fresh contract state: no admin, no tokens, no metadata, no
    /// history, an empty index.
    pub fn new() -> (r: MembershipTokenContract)
        ensures
            r.wf(),
            r.admin_of() is None,
            forall|x: Seq<u8>| r.token_of(x) is None,
            forall|x: Seq<u8>| r.meta_of(x) is None,
            forall|x: Seq<u8>| r.history_of(x) == Seq::<UpdateModel>::empty(),
    {
        MembershipTokenContract {
            admin: None,
            tokens: Vec::new(),
            metadata: Vec::new(),
            history: Vec::new(),
            index: MetadataIndex::new(),
        }
    }

    /// Position of the token with this id, if stored.
    fn find_token(&self, id: &Vec<u8>) -> (r: Option<usize>)
        requires
            tokens_unique(self.tokens@),
        ensures
            match r {
                Some(i) => i < self.tokens@.len() && self.tokens@[i as int].id@ == id@
                    && has_token_seq(self.tokens@, id@) && token_at_seq(self.tokens@, id@) == i
                    && self.token_of(id@) == Some(self.tokens@[i as int]@),
                None => !has_token_seq(self.tokens@, id@) && self.token_of(id@) is None,
            },
    {
        let mut i: usize = 0;
        while i < self.tokens.len()
            invariant
                tokens_unique(self.tokens@),
                i <= self.tokens@.len(),
                forall|j: int| 0 <= j < i ==> (#[trigger] self.tokens@[j]).id@ != id@,
            decreases self.tokens@.len() - i,
        {
            if bytes_eq(&self.tokens[i].id, id) {
                proof {
                    assert(has_token_seq(self.tokens@, id@));
                    let j = token_at_seq(self.tokens@, id@);
                    if j != i {
                        if j < i {
                            assert(self.tokens@[j].id@ != self.tokens@[i as int].id@);
                        } else {
                            assert(self.tokens@[i as int].id@ != self.tokens@[j].id@);
                        }
                    }
                }
                return Some(i);
            }
            i = i + 1;
        }
        proof {
            if has_token_seq(self.tokens@, id@) {
                let j = choose|j: int|
                    0 <= j < self.tokens@.len() && (#[trigger] self.tokens@[j]).id@ == id@;
                assert(false);
            }
        }
        None
    }

    /// Position of the metadata entry with this id, if stored.
    fn find_meta(&self, id: &Vec<u8>) -> (r: Option<usize>)
        requires
            metas_unique(self.metadata@),
        ensures
            match r {
                Some(i) => i < self.metadata@.len() && self.metadata@[i as int].0@ == id@
                    && has_meta_seq(self.metadata@, id@) && meta_at_seq(self.metadata@, id@) == i
                    && self.meta_of(id@) == Some(self.metadata@[i as int].1@),
                None => !has_meta_seq(self.metadata@, id@) && self.meta_of(id@) is None,
            },
    {
        let mut i: usize = 0;
        while i < self.metadata.len()
            invariant
                metas_unique(self.metadata@),
                i <= self.metadata@.len(),
                forall|j: int| 0 <= j < i ==> (#[trigger] self.metadata@[j]).0@ != id@,
            decreases self.metadata@.len() - i,
        {
            if bytes_eq(&self.metadata[i].0, id) {
                proof {
                    assert(has_meta_seq(self.metadata@, id@));
                    let j = meta_at_seq(self.metadata@, id@);
                    if j != i {
                        if j < i {
                            assert(self.metadata@[j].0@ != self.metadata@[i as int].0@);
                        } else {
                            assert(self.metadata@[i as int].0@ != self.metadata@[j].0@);
                        }
                    }
                }
                return Some(i);
            }
            i = i + 1;
        }
        proof {
            if has_meta_seq(self.metadata@, id@) {
                let j = choose|j: int|
                    0 <= j < self.metadata@.len() && (#[trigger] self.metadata@[j]).0@ == id@;
                assert(false);
            }
        }
        None
    }

    /// Position of the history entry with this id, if stored.
    fn find_hist(&self, id: &Vec<u8>) -> (r: Option<usize>)
        requires
            hists_unique(self.history@),
        ensures
            match r {
                Some(i) => i < self.history@.len() && self.history@[i as int].0@ == id@
                    && has_hist_seq(self.history@, id@) && hist_at_seq(self.history@, id@) == i,
                None => !has_hist_seq(self.history@, id@) && self.history_of(id@)
                    == Seq::<UpdateModel>::empty(),
            },
    {
        let mut i: usize = 0;
        while i < self.history.len()
            invariant
                hists_unique(self.history@),
                i <= self.history@.len(),
                forall|j: int| 0 <= j < i ==> (#[trigger] self.history@[j]).0@ != id@,
            decreases self.history@.len() - i,
        {
            if bytes_eq(&self.history[i].0, id) {
                proof {
                    assert(has_hist_seq(self.history@, id@));
                    let j = hist_at_seq(self.history@, id@);
                    if j != i {
                        if j < i {
                            assert(self.history@[j].0@ != self.history@[i as int].0@);
                        } else {
                            assert(self.history@[i as int].0@ != self.history@[j].0@);
                        }
                    }
                }
                return Some(i);
            }
            i = i + 1;
        }
        proof {
            if has_hist_seq(self.history@, id@) {
                let j = choose|j: int|
                    0 <= j < self.history@.len() && (#[trigger] self.history@[j]).0@ == id@;
                assert(false);
            }
        }
        None
    }

    // --------------------------------------------------------------
    // Record store.
    // --------------------------------------------------------------

    /// What `set_admin` decides, given the state.
    pub open spec fn set_admin_outcome(&self, admin: Seq<char>, caller: Seq<char>) -> Result<
        (),
        Error,
    > {
        if caller != admin {
            Err(Error::Unauthorized)
        } else {
            Ok(())
        }
    }

    /// Sets the single admin slot. The new admin's authorization is
    /// self-attested: the operation is accepted exactly when the caller
    /// is the principal being installed, and it overwrites any earlier
    /// admin unconditionally.
    pub fn set_admin(&mut self, admin: String, caller: String) -> (r: Result<(), Error>)
        requires
            old(self).wf(),
        ensures
            final(self).wf(),
            r == old(self).set_admin_outcome(admin@, caller@),
            r is Ok ==> final(self).admin_of() == Some(admin@),
            r is Err ==> *final(self) == *old(self),
            final(self).tokens@ == old(self).tokens@,
            final(self).metadata@ == old(self).metadata@,
            final(self).history@ == old(self).history@,
            final(self).index == old(self).index,
    {
        if !str_eq(&caller, &admin) {
            return Err(Error::Unauthorized);
        }
        self.admin = Some(admin);
        Ok(())
    }

    /// What `issue_token` decides, given the state: the authorization
    /// gate (admin only), the duplicate check, then the expiry check.
    pub open spec fn issue_outcome(
        &self,
        id: Seq<u8>,
        caller: Seq<char>,
        expiry_date: u64,
        now: u64,
    ) -> Result<(), Error> {
        if self.admin_of() is None {
            Err(Error::AdminNotSet)
        } else if self.admin_of() != Some(caller) {
            Err(Error::Unauthorized)
        } else if self.token_of(id) is Some {
            Err(Error::AlreadyExists)
        } else if expiry_date <= now {
            Err(Error::InvalidExpiry)
        } else {
            Ok(())
        }
    }

    /// The model of a freshly issued token.
    pub open spec fn issued_token(
        id: Seq<u8>,
        user: Seq<char>,
        issue_date: u64,
        expiry_date: u64,
    ) -> TokenModel {
        TokenModel { id, user, status: MembershipStatus::Active, issue_date, expiry_date }
    }

    /// Issues a new token: admin-only, ids unique, expiry strictly in
    /// the future; on success the token is stored Active with
    /// `issue_date = now`, and nothing else changes.
    pub fn issue_token(
        &mut self,
        id: Vec<u8>,
        user: String,
        expiry_date: u64,
        caller: String,
        now: u64,
    ) -> (r: Result<(), Error>)
        requires
            old(self).wf(),
            id@.len() == TOKEN_ID_LEN,
        ensures
            final(self).wf(),
            r == old(self).issue_outcome(id@, caller@, expiry_date, now),
            r is Ok ==> final(self).token_of(id@) == Some(
                Self::issued_token(id@, user@, now, expiry_date),
            ),
            r is Ok ==> forall|x: Seq<u8>|
                x != id@ ==> final(self).token_of(x) == old(self).token_of(x),
            r is Err ==> *final(self) == *old(self),
            final(self).metadata@ == old(self).metadata@,
            final(self).history@ == old(self).history@,
            final(self).index == old(self).index,
            final(self).admin == old(self).admin,
    {
        let admin = match &self.admin {
            Some(a) => a,
            None => {
                return Err(Error::AdminNotSet);
            },
        };
        if !str_eq(&caller, admin) {
            return Err(Error::Unauthorized);
        }
        if self.find_token(&id).is_some() {
            return Err(Error::AlreadyExists);
        }
        if expiry_date <= now {
            return Err(Error::InvalidExpiry);
        }
        let ghost ts0 = self.tokens@;
        let token = MembershipToken {
            id,
            user,
            status: MembershipStatus::Active,
            issue_date: now,
            expiry_date,
        };
        let ghost tm = token@;
        self.tokens.push(token);
        proof {
            let ts1 = self.tokens@;
            let n = ts0.len() as int;
            assert(ts1[n]@ == tm);
            assert(forall|j: int| 0 <= j < n ==> ts1[j] == ts0[j]);
            assert forall|i2: int, j2: int| 0 <= i2 < j2 < ts1.len() implies (
            #[trigger] ts1[i2]).id@ != (#[trigger] ts1[j2]).id@ by {
                if j2 < n {
                    assert(ts0[i2].id@ != ts0[j2].id@);
                } else {
                    if ts1[i2].id@ == tm.id {
                        assert(has_token_seq(ts0, tm.id));
                    }
                }
            }
            assert(has_token_seq(ts1, tm.id));
            let j = token_at_seq(ts1, tm.id);
            if j != n {
                assert(ts1[j].id@ != ts1[n].id@);
            }
            assert(self.token_of(tm.id) == Some(tm));
            assert forall|x: Seq<u8>| x != tm.id implies self.token_of(x) == old(self).token_of(
                x,
            ) by {
                if has_token_seq(ts1, x) {
                    let a = choose|a: int| 0 <= a < ts1.len() && (#[trigger] ts1[a]).id@ == x;
                    assert(a != n);
                    assert(ts0[a].id@ == x);
                    assert(has_token_seq(ts0, x));
                    let b0 = token_at_seq(ts0, x);
                    let b1 = token_at_seq(ts1, x);
                    assert(0 <= b1 < ts1.len() && ts1[b1].id@ == x);
                    assert(b1 != n);
                    assert(ts0[b1].id@ == x);
                    if b0 != b1 {
                        if b0 < b1 {
                            assert(ts0[b0].id@ != ts0[b1].id@);
                        } else {
                            assert(ts0[b1].id@ != ts0[b0].id@);
                        }
                    }
                    assert(ts1[b1] == ts0[b0]);
                } else {
                    if has_token_seq(ts0, x) {
                        let a = choose|a: int| 0 <= a < ts0.len() && (#[trigger] ts0[a]).id@ == x;
                        assert(ts1[a].id@ == x);
                        assert(false);
                    }
                }
            }
            assert forall|i2: int|
                0 <= i2 < self.metadata@.len() implies has_token_seq(
                ts1,
                (#[trigger] self.metadata@[i2]).0@,
            ) by {
                assert(has_token_seq(ts0, self.metadata@[i2].0@));
                let a = choose|a: int|
                    0 <= a < ts0.len() && (#[trigger] ts0[a]).id@ == self.metadata@[i2].0@;
                assert(ts1[a].id@ == self.metadata@[i2].0@);
            }
            assert(self.wf());
        }
        Ok(())
    }

    /// What `transfer_token` decides: existence, stored status, then the
    /// authorization gate (current owner only). The status check reads
    /// the stored status as is; expiry is evaluated only at read time,
    /// never re-derived here.
    pub open spec fn transfer_outcome(&self, id: Seq<u8>, caller: Seq<char>) -> Result<(), Error> {
        match self.token_of(id) {
            None => Err(Error::NotFound),
            Some(t) => if t.status != MembershipStatus::Active {
                Err(Error::Expired)
            } else if caller != t.user {
                Err(Error::Unauthorized)
            } else {
                Ok(())
            },
        }
    }

    /// Transfers ownership of an active token to `new_user`; id, dates
    /// and status are unchanged, and nothing else in the state moves.
    pub fn transfer_token(&mut self, id: &Vec<u8>, new_user: String, caller: String) -> (r: Result<
        (),
        Error,
    >)
        requires
            old(self).wf(),
        ensures
            final(self).wf(),
            r == old(self).transfer_outcome(id@, caller@),
            r is Ok ==> final(self).token_of(id@) == Some(
                TokenModel { user: new_user@, ..old(self).token_of(id@)->Some_0 },
            ),
            r is Ok ==> forall|x: Seq<u8>|
                x != id@ ==> final(self).token_of(x) == old(self).token_of(x),
            r is Err ==> *final(self) == *old(self),
            final(self).metadata@ == old(self).metadata@,
            final(self).history@ == old(self).history@,
            final(self).index == old(self).index,
            final(self).admin == old(self).admin,
    {
        let i = match self.find_token(id) {
            Some(i) => i,
            None => {
                return Err(Error::NotFound);
            },
        };
        if !matches!(self.tokens[i].status, MembershipStatus::Active) {
            return Err(Error::Expired);
        }
        if !str_eq(&caller, &self.tokens[i].user) {
            return Err(Error::Unauthorized);
        }
        let ghost ts0 = self.tokens@;
        let t2 = MembershipToken {
            id: bytes_clone(&self.tokens[i].id),
            user: new_user,
            status: self.tokens[i].status,
            issue_date: self.tokens[i].issue_date,
            expiry_date: self.tokens[i].expiry_date,
        };
        let ghost tm = t2@;
        self.tokens[i] = t2;
        proof {
            let ts1 = self.tokens@;
            assert(ts1[i as int]@ == tm && tm.id == id@);
            assert(forall|j: int| 0 <= j < ts1.len() && j != i ==> ts1[j] == ts0[j]);
            assert forall|j: int| 0 <= j < ts1.len() implies (#[trigger] ts1[j]).id@
                == ts0[j].id@ by {
                if j != i {
                    assert(ts1[j] == ts0[j]);
                }
            }
            assert forall|i2: int, j2: int| 0 <= i2 < j2 < ts1.len() implies (
            #[trigger] ts1[i2]).id@ != (#[trigger] ts1[j2]).id@ by {
                assert(ts0[i2].id@ != ts0[j2].id@);
            }
            assert(has_token_seq(ts1, id@));
            let j = token_at_seq(ts1, id@);
            if j != i {
                if j < i {
                    assert(ts1[j].id@ != ts1[i as int].id@);
                } else {
                    assert(ts1[i as int].id@ != ts1[j].id@);
                }
            }
            assert(self.token_of(id@) == Some(tm));
            assert forall|x: Seq<u8>| x != id@ implies self.token_of(x) == old(self).token_of(
                x,
            ) by {
                if has_token_seq(ts1, x) {
                    let b1 = token_at_seq(ts1, x);
                    assert(0 <= b1 < ts1.len() && ts1[b1].id@ == x);
                    assert(b1 != i);
                    assert(ts0[b1].id@ == x);
                    assert(has_token_seq(ts0, x));
                    let b0 = token_at_seq(ts0, x);
                    if b0 != b1 {
                        if b0 < b1 {
                            assert(ts0[b0].id@ != ts0[b1].id@);
                        } else {
                            assert(ts0[b1].id@ != ts0[b0].id@);
                        }
                    }
                    assert(ts1[b1] == ts0[b0]);
                } else {
                    if has_token_seq(ts0, x) {
                        let a = choose|a: int| 0 <= a < ts0.len() && (#[trigger] ts0[a]).id@ == x;
                        assert(ts1[a].id@ == x);
                        assert(false);
                    }
                }
            }
            assert forall|i2: int|
                0 <= i2 < self.metadata@.len() implies has_token_seq(
                ts1,
                (#[trigger] self.metadata@[i2]).0@,
            ) by {
                assert(has_token_seq(ts0, self.metadata@[i2].0@));
                let a = choose|a: int|
                    0 <= a < ts0.len() && (#[trigger] ts0[a]).id@ == self.metadata@[i2].0@;
                assert(ts1[a].id@ == self.metadata@[i2].0@);
            }
            assert(self.wf());
        }
        Ok(())
    }

    /// What `get_token` decides: existence, then the read-time status
    /// projection (a stored Active token past its expiry is reported
    /// `Expired`, and the stored status is not rewritten).
    pub open spec fn get_outcome(&self, id: Seq<u8>, now: u64) -> Result<TokenModel, Error> {
        match self.token_of(id) {
            None => Err(Error::NotFound),
            Some(t) => if t.status == MembershipStatus::Active && now > t.expiry_date {
                Err(Error::Expired)
            } else {
                Ok(t)
            },
        }
    }

    /// Reads a token, projecting its status against the current time.
    pub fn get_token(&self, id: &Vec<u8>, now: u64) -> (r: Result<MembershipToken, Error>)
        requires
            self.wf(),
        ensures
            match r {
                Ok(t) => self.get_outcome(id@, now) == Ok::<TokenModel, Error>(t@),
                Err(e) => self.get_outcome(id@, now) == Err::<TokenModel, Error>(e),
            },
    {
        let i = match self.find_token(id) {
            Some(i) => i,
            None => {
                return Err(Error::NotFound);
            },
        };
        let t = &self.tokens[i];
        if matches!(t.status, MembershipStatus::Active) && now > t.expiry_date {
            return Err(Error::Expired);
        }
        Ok(MembershipToken {
            id: bytes_clone(&t.id),
            user: t.user.clone(),
            status: t.status,
            issue_date: t.issue_date,
            expiry_date: t.expiry_date,
        })
    }

    /// Queries the secondary index: the ids of exactly those tokens
    /// whose current metadata carries the pair (key, value). Never fails.
    pub fn query_tokens_by_attribute(&self, key: &String, value: &MetadataValue) -> (r: Vec<
        Vec<u8>,
    >)
        requires
            self.wf(),
        ensures
            forall|x: Seq<u8>| ids_has(r@, x) <==> self.attr_on(x, key@, value@),
            forall|a: int, b: int| 0 <= a < b < r@.len() ==> (#[trigger] r@[a])@ != (
            #[trigger] r@[b])@,
            ids_view(r@) == self.index.bucket(key@, value@),
    {
        let r = self.index.query(key, value);
        proof {
            assert forall|a: int, b: int| 0 <= a < b < r@.len() implies (#[trigger] r@[a])@ != (
            #[trigger] r@[b])@ by {
                let bkt = self.index.bucket(key@, value@);
                assert(ids_view(r@).len() == r@.len());
                assert(ids_view(r@)[a] == r@[a]@ && ids_view(r@)[b] == r@[b]@);
                if self.index.has_bucket(key@, value@) {
                    let i = self.index.bucket_at(key@, value@);
                    assert(0 <= i < self.index.entries@.len()
                        && self.index.entries@[i].key@ == key@
                        && self.index.entries@[i].value@ == value@);
                    assert(bkt == ids_view(self.index.entries@[i].ids@));
                    assert(b < self.index.entries@[i].ids@.len());
                    assert(bkt[a] == self.index.entries@[i].ids@[a]@);
                    assert(bkt[b] == self.index.entries@[i].ids@[b]@);
                } else {
                    assert(bkt.len() == 0);
                }
            }
        }
        r
    }

    // --------------------------------------------------------------
    // Metadata reads.
    // --------------------------------------------------------------

    /// What `get_token_metadata` decides: the token must exist, then the
    /// metadata must have been set at least once.
    pub open spec fn metadata_outcome(&self, id: Seq<u8>) -> Result<MetadataModel, Error> {
        if self.token_of(id) is None {
            Err(Error::NotFound)
        } else {
            match self.meta_of(id) {
                None => Err(Error::MetadataNotFound),
                Some(m) => Ok(m),
            }
        }
    }

    /// Reads the current metadata of a token.
    pub fn get_token_metadata(&self, id: &Vec<u8>) -> (r: Result<TokenMetadata, Error>)
        requires
            self.wf(),
        ensures
            match r {
                Ok(m) => self.metadata_outcome(id@) == Ok::<MetadataModel, Error>(m@)
                    && m.attributes.wf(),
                Err(e) => self.metadata_outcome(id@) == Err::<MetadataModel, Error>(e),
            },
    {
        if self.find_token(id).is_none() {
            return Err(Error::NotFound);
        }
        let i = match self.find_meta(id) {
            Some(i) => i,
            None => {
                return Err(Error::MetadataNotFound);
            },
        };
        let m = &self.metadata[i].1;
        Ok(TokenMetadata {
            description: m.description.clone(),
            attributes: m.attributes.clone_of(),
            version: m.version,
            last_updated: m.last_updated,
            updated_by: m.updated_by.clone(),
        })
    }

    /// Reads the full ordered metadata history of a token; an empty
    /// vector when none was ever recorded. Never fails.
    pub fn get_metadata_history(&self, id: &Vec<u8>) -> (r: Vec<MetadataUpdate>)
        requires
            self.wf(),
        ensures
            updates_view(r@) == self.history_of(id@),
            forall|i: int| 0 <= i < r@.len() ==> (#[trigger] r@[i]).changes.wf(),
    {
        match self.find_hist(id) {
            Some(i) => {
                let src = &self.history[i].1;
                let mut r: Vec<MetadataUpdate> = Vec::new();
                let mut j: usize = 0;
                while j < src.len()
                    invariant
                        j <= src@.len(),
                        r@.len() == j,
                        forall|a: int|
                            0 <= a < j ==> (#[trigger] r@[a])@ == src@[a]@ && r@[a].changes.wf(),
                        forall|a: int| 0 <= a < src@.len() ==> (#[trigger] src@[a]).changes.wf(),
                    decreases src@.len() - j,
                {
                    let u = &src[j];
                    r.push(MetadataUpdate {
                        version: u.version,
                        timestamp: u.timestamp,
                        updated_by: u.updated_by.clone(),
                        description: u.description.clone(),
                        changes: u.changes.clone_of(),
                    });
                    j = j + 1;
                }
                proof {
                    assert(updates_view(r@) =~= self.history_of(id@));
                }
                r
            },
            None => {
                let r: Vec<MetadataUpdate> = Vec::new();
                proof {
                    assert(updates_view(r@) =~= self.history_of(id@));
                }
                r
            },
        }
    }

    // --------------------------------------------------------------
    // Metadata mutators.
    // --------------------------------------------------------------

    /// The model of a metadata record built from its parts.
    pub open spec fn made_meta(
        description: Seq<char>,
        attributes: Map<Seq<char>, ValueModel>,
        version: u32,
        last_updated: u64,
        updated_by: Seq<char>,
    ) -> MetadataModel {
        MetadataModel { description, attributes, version, last_updated, updated_by }
    }

    /// The model of a history record built from its parts.
    pub open spec fn made_update(
        version: u32,
        timestamp: u64,
        updated_by: Seq<char>,
        description: Seq<char>,
        changes: Map<Seq<char>, ValueModel>,
    ) -> UpdateModel {
        UpdateModel { version, timestamp, updated_by, description, changes }
    }

    /// What `set_token_metadata` decides: existence, the authorization
    /// gate (admin or current owner), then validation of every attribute.
    pub open spec fn set_metadata_outcome(
        &self,
        id: Seq<u8>,
        attrs: Map<Seq<char>, ValueModel>,
        caller: Seq<char>,
    ) -> Result<(), Error> {
        match self.token_of(id) {
            None => Err(Error::NotFound),
            Some(t) => if self.admin_of() is None {
                Err(Error::AdminNotSet)
            } else if self.admin_of() != Some(caller) && caller != t.user {
                Err(Error::Unauthorized)
            } else if !keys_valid_map(attrs) {
                Err(Error::ValidationFailed)
            } else {
                Ok(())
            },
        }
    }

    /// Creates or fully replaces a token's metadata. All validation and
    /// authorization run before any write; on success the old attribute
    /// pairs leave the index, the new ones enter it, the version is
    /// incremented (1 on first use), and a history record is appended
    /// whose change set is the full new attribute map.
    pub fn set_token_metadata(
        &mut self,
        token_id: Vec<u8>,
        description: String,
        attributes: Attributes,
        caller: String,
        now: u64,
    ) -> (r: Result<(), Error>)
        requires
            old(self).wf(),
            attributes.wf(),
            old(self).can_bump(token_id@),
        ensures
            final(self).wf(),
            r == old(self).set_metadata_outcome(token_id@, attributes@, caller@),
            r is Ok ==> final(self).meta_of(token_id@) == Some(
                Self::made_meta(
                    description@,
                    attributes@,
                    old(self).next_version(token_id@),
                    now,
                    caller@,
                ),
            ),
            r is Ok ==> forall|x: Seq<u8>|
                x != token_id@ ==> final(self).meta_of(x) == old(self).meta_of(x),
            r is Ok ==> final(self).history_of(token_id@) == old(self).history_of(token_id@).push(
                Self::made_update(
                    old(self).next_version(token_id@),
                    now,
                    caller@,
                    description@,
                    attributes@,
                ),
            ),
            r is Ok ==> forall|x: Seq<u8>|
                x != token_id@ ==> final(self).history_of(x) == old(self).history_of(x),
            final(self).tokens@ == old(self).tokens@,
            final(self).admin == old(self).admin,
            r is Err ==> *final(self) == *old(self),
    {
        let ti = match self.find_token(&token_id) {
            Some(i) => i,
            None => {
                return Err(Error::NotFound);
            },
        };
        let authorized = {
            let admin = match &self.admin {
                Some(a) => a,
                None => {
                    return Err(Error::AdminNotSet);
                },
            };
            str_eq(&caller, admin) || str_eq(&caller, &self.tokens[ti].user)
        };
        if !authorized {
            return Err(Error::Unauthorized);
        }
        if !attributes.validate() {
            return Err(Error::ValidationFailed);
        }
        let mi_opt = self.find_meta(&token_id);
        let version: u32 = match mi_opt {
            Some(mi) => {
                proof {
                    assert(old(self).meta_of(token_id@) == Some(self.metadata@[mi as int].1@));
                    assert(self.metadata@[mi as int].1.version < u32::MAX);
                }
                self.metadata[mi].1.version + 1
            },
            None => 1,
        };
        // Phase one: the pairs of the existing attribute map leave the index.
        match mi_opt {
            Some(mi) => {
                let ghost oes = self.metadata@[mi as int].1.attributes.entries@;
                let mut j: usize = 0;
                while j < self.metadata[mi].1.attributes.entries.len()
                    invariant
                        old(self).wf(),
                        mi < self.metadata@.len(),
                        self.metadata@ == old(self).metadata@,
                        self.tokens@ == old(self).tokens@,
                        self.history@ == old(self).history@,
                        self.admin == old(self).admin,
                        self.metadata@[mi as int].0@ == token_id@,
                        oes == self.metadata@[mi as int].1.attributes.entries@,
                        j <= oes.len(),
                        self.index.wf(),
                        forall|k: Seq<char>, v: ValueModel, x: Seq<u8>|
                            #[trigger] self.index.contains(k, v, x) <==> (old(self).index.contains(
                                k,
                                v,
                                x,
                            ) && !(x == token_id@ && exists|a: int|
                                0 <= a < j && (#[trigger] oes[a]).0@ == k && oes[a].1@ == v)),
                    decreases oes.len() - j,
                {
                    let kj = self.metadata[mi].1.attributes.entries[j].0.clone();
                    let vj = value_clone(&self.metadata[mi].1.attributes.entries[j].1);
                    let ghost prev = self.index;
                    self.index.remove(&kj, &vj, &token_id);
                    proof {
                        assert forall|k: Seq<char>, v: ValueModel, x: Seq<u8>|
                            #[trigger] self.index.contains(k, v, x) implies (old(
                            self,
                        ).index.contains(k, v, x) && !(x == token_id@ && exists|a: int|
                            0 <= a < j + 1 && (#[trigger] oes[a]).0@ == k && oes[a].1@ == v)) by {
                            assert(prev.contains(k, v, x) && !(k == kj@ && v == vj@ && x
                                == token_id@));
                            if x == token_id@ && exists|a: int|
                                0 <= a < j + 1 && (#[trigger] oes[a]).0@ == k && oes[a].1@ == v {
                                let a = choose|a: int|
                                    0 <= a < j + 1 && (#[trigger] oes[a]).0@ == k && oes[a].1@
                                        == v;
                                if a < j {
                                    assert(exists|a2: int|
                                        0 <= a2 < j && (#[trigger] oes[a2]).0@ == k && oes[a2].1@
                                            == v);
                                    assert(!prev.contains(k, v, x));
                                    assert(false);
                                } else {
                                    assert(k == kj@ && v == vj@);
                                    assert(false);
                                }
                            }
                        }
                        assert forall|k: Seq<char>, v: ValueModel, x: Seq<u8>|
                            (old(self).index.contains(k, v, x) && !(x == token_id@ && exists|
                                a: int,
                            |
                                0 <= a < j + 1 && (#[trigger] oes[a]).0@ == k && oes[a].1@ == v))
                            implies #[trigger] self.index.contains(k, v, x) by {
                            if x == token_id@ && exists|a: int|
                                0 <= a < j && (#[trigger] oes[a]).0@ == k && oes[a].1@ == v {
                                let a = choose|a: int|
                                    0 <= a < j && (#[trigger] oes[a]).0@ == k && oes[a].1@ == v;
                                assert(0 <= a < j + 1 && oes[a].0@ == k && oes[a].1@ == v);
                                assert(false);
                            }
                            assert(prev.contains(k, v, x));
                            if k == kj@ && v == vj@ && x == token_id@ {
                                assert(0 <= j < j + 1 && oes[j as int].0@ == k && oes[j as int].1@
                                    == v);
                                assert(false);
                            }
                        }
                    }
                    j = j + 1;
                }
                proof {
                    let ghost oa = old(self).metadata@[mi as int].1.attributes;
                    assert(oa.wf());
                    oa.lemma_pairs();
                    assert forall|k: Seq<char>, v: ValueModel, x: Seq<u8>|
                        #[trigger] self.index.contains(k, v, x) <==> (x != token_id@ && old(
                        self,
                    ).index.contains(k, v, x)) by {
                        if x == token_id@ {
                            if self.index.contains(k, v, x) {
                                assert(old(self).index.contains(k, v, x));
                                assert(attr_on_seq(old(self).metadata@, token_id@, k, v));
                                assert(oa@.contains_pair(k, v));
                                let a = choose|a: int|
                                    0 <= a < oa.entries@.len() && (#[trigger] oa.entries@[a]).0@
                                        == k && oa.entries@[a].1@ == v;
                                assert(false);
                            }
                        }
                    }
                }
            },
            None => {
                proof {
                    assert forall|k: Seq<char>, v: ValueModel, x: Seq<u8>|
                        #[trigger] self.index.contains(k, v, x) <==> (x != token_id@ && old(
                        self,
                    ).index.contains(k, v, x)) by {
                        if x == token_id@ && self.index.contains(k, v, x) {
                            assert(attr_on_seq(old(self).metadata@, token_id@, k, v));
                            assert(false);
                        }
                    }
                }
            },
        }
        // Phase two: the pairs of the new attribute map enter the index.
        let ghost mid_index = self.index;
        let mut j: usize = 0;
        while j < attributes.entries.len()
            invariant
                old(self).wf(),
                attributes.wf(),
                self.metadata@ == old(self).metadata@,
                self.tokens@ == old(self).tokens@,
                self.history@ == old(self).history@,
                self.admin == old(self).admin,
                j <= attributes.entries@.len(),
                self.index.wf(),
                forall|k: Seq<char>, v: ValueModel, x: Seq<u8>|
                    #[trigger] mid_index.contains(k, v, x) <==> (x != token_id@ && old(
                    self,
                ).index.contains(k, v, x)),
                forall|k: Seq<char>, v: ValueModel, x: Seq<u8>|
                    #[trigger] self.index.contains(k, v, x) <==> (mid_index.contains(k, v, x) || (x
                        == token_id@ && exists|a: int|
                        0 <= a < j && (#[trigger] attributes.entries@[a]).0@ == k
                            && attributes.entries@[a].1@ == v)),
            decreases attributes.entries@.len() - j,
        {
            let kj = attributes.entries[j].0.clone();
            let vj = value_clone(&attributes.entries[j].1);
            let ghost prev = self.index;
            self.index.add(&kj, &vj, &token_id);
            proof {
                assert forall|k: Seq<char>, v: ValueModel, x: Seq<u8>|
                    #[trigger] self.index.contains(k, v, x) implies (mid_index.contains(k, v, x)
                    || (x == token_id@ && exists|a: int|
                    0 <= a < j + 1 && (#[trigger] attributes.entries@[a]).0@ == k
                        && attributes.entries@[a].1@ == v)) by {
                    if prev.contains(k, v, x) {
                        if !mid_index.contains(k, v, x) {
                            let a = choose|a: int|
                                0 <= a < j && (#[trigger] attributes.entries@[a]).0@ == k
                                    && attributes.entries@[a].1@ == v;
                            assert(0 <= a < j + 1 && attributes.entries@[a].0@ == k
                                && attributes.entries@[a].1@ == v);
                        }
                    } else {
                        assert(k == kj@ && v == vj@ && x == token_id@);
                        assert(0 <= j < j + 1 && attributes.entries@[j as int].0@ == k
                            && attributes.entries@[j as int].1@ == v);
                    }
                }
                assert forall|k: Seq<char>, v: ValueModel, x: Seq<u8>|
                    (mid_index.contains(k, v, x) || (x == token_id@ && exists|a: int|
                        0 <= a < j + 1 && (#[trigger] attributes.entries@[a]).0@ == k
                            && attributes.entries@[a].1@ == v)) implies #[trigger] self.index.contains(
                    k,
                    v,
                    x,
                ) by {
                    if mid_index.contains(k, v, x) {
                        assert(prev.contains(k, v, x));
                    } else {
                        let a = choose|a: int|
                            0 <= a < j + 1 && (#[trigger] attributes.entries@[a]).0@ == k
                                && attributes.entries@[a].1@ == v;
                        if a < j {
                            assert(exists|a2: int|
                                0 <= a2 < j && (#[trigger] attributes.entries@[a2]).0@ == k
                                    && attributes.entries@[a2].1@ == v);
                            assert(prev.contains(k, v, x));
                        } else {
                            assert(k == kj@ && v == vj@);
                        }
                    }
                }
            }
            j = j + 1;
        }
        // Commit: metadata record, then the history record.
        let rec = MetadataUpdate {
            version,
            timestamp: now,
            updated_by: caller.clone(),
            description: description.clone(),
            changes: attributes.clone_of(),
        };
        let new_meta = TokenMetadata {
            description,
            attributes,
            version,
            last_updated: now,
            updated_by: caller,
        };
        let ghost nm = new_meta@;
        let ghost rm = rec@;
        self.store_meta(mi_opt, &token_id, new_meta);
        self.append_history(&token_id, rec);
        proof {
            let s1 = self;
            assert(s1.meta_of(token_id@) == Some(nm));
            assert(nm == Self::made_meta(
                description@,
                attributes@,
                old(self).next_version(token_id@),
                now,
                caller@,
            ));
            assert(rm == Self::made_update(
                old(self).next_version(token_id@),
                now,
                caller@,
                description@,
                attributes@,
            ));
            // well-formedness of the new state
            assert(tokens_unique(s1.tokens@));
            assert(metas_unique(s1.metadata@));
            assert forall|i2: int|
                0 <= i2 < s1.metadata@.len() implies (#[trigger] s1.metadata@[i2]).1.attributes.wf()
                    && s1.metadata@[i2].1.attributes.keys_valid() && s1.metadata@[i2].1.version
                    >= 1 by {
                if 0 <= i2 < old(self).metadata@.len() && s1.metadata@[i2] == old(
                    self,
                ).metadata@[i2] {
                    assert(old(self).metadata@[i2].1.attributes.wf());
                } else {
                    assert(s1.metadata@[i2].1 == new_meta);
                }
            }
            assert forall|i2: int|
                0 <= i2 < s1.metadata@.len() implies has_token_seq(
                s1.tokens@,
                (#[trigger] s1.metadata@[i2]).0@,
            ) by {
                if 0 <= i2 < old(self).metadata@.len() && s1.metadata@[i2] == old(
                    self,
                ).metadata@[i2] {
                    assert(has_token_seq(old(self).tokens@, old(self).metadata@[i2].0@));
                } else {
                    assert(s1.metadata@[i2].0@ == token_id@);
                    assert(has_token_seq(old(self).tokens@, token_id@));
                }
            }
            // index consistency against the new metadata
            assert forall|k: Seq<char>, v: ValueModel, x: Seq<u8>|
                #![trigger s1.index.contains(k, v, x)]
                #![trigger attr_on_seq(s1.metadata@, x, k, v)]
                s1.index.contains(k, v, x) <==> attr_on_seq(s1.metadata@, x, k, v) by {
                if x == token_id@ {
                    assert(s1.index.contains(k, v, x) <==> (mid_index.contains(k, v, x) || (x
                        == token_id@ && exists|a: int|
                        0 <= a < attributes.entries@.len() && (#[trigger] attributes.entries@[a]).0@
                            == k && attributes.entries@[a].1@ == v)));
                    assert(!mid_index.contains(k, v, x));
                    attributes.lemma_pairs();
                    assert(attr_on_seq(s1.metadata@, x, k, v) == nm.attributes.contains_pair(k, v));
                } else {
                    assert(s1.index.contains(k, v, x) <==> mid_index.contains(k, v, x));
                    assert(mid_index.contains(k, v, x) <==> old(self).index.contains(k, v, x));
                    assert(attr_on_seq(s1.metadata@, x, k, v) == attr_on_seq(
                        old(self).metadata@,
                        x,
                        k,
                        v,
                    ));
                }
            }
            assert(s1.wf());
        }
        Ok(())
    }

    /// What `update_token_metadata` decides: existence of the token,
    /// then of its metadata, the authorization gate (owner only), then
    /// validation of every updated attribute.
    pub open spec fn update_metadata_outcome(
        &self,
        id: Seq<u8>,
        updates: Map<Seq<char>, ValueModel>,
        caller: Seq<char>,
    ) -> Result<(), Error> {
        match self.token_of(id) {
            None => Err(Error::NotFound),
            Some(t) => if self.meta_of(id) is None {
                Err(Error::MetadataNotFound)
            } else if caller != t.user {
                Err(Error::Unauthorized)
            } else if !keys_valid_map(updates) {
                Err(Error::ValidationFailed)
            } else {
                Ok(())
            },
        }
    }

    /// Merges a partial attribute update into existing metadata. All
    /// checks run before any write; on success every replaced pair leaves
    /// the index before its replacement enters it, the version is
    /// incremented, and the appended history record carries only the
    /// update payload (delta semantics).
    pub fn update_token_metadata(
        &mut self,
        token_id: Vec<u8>,
        updates: Attributes,
        caller: String,
        now: u64,
    ) -> (r: Result<(), Error>)
        requires
            old(self).wf(),
            updates.wf(),
            old(self).can_bump(token_id@),
        ensures
            final(self).wf(),
            r == old(self).update_metadata_outcome(token_id@, updates@, caller@),
            r is Ok ==> final(self).meta_of(token_id@) == Some(
                Self::made_meta(
                    old(self).meta_of(token_id@)->Some_0.description,
                    old(self).meta_of(token_id@)->Some_0.attributes.union_prefer_right(updates@),
                    old(self).next_version(token_id@),
                    now,
                    caller@,
                ),
            ),
            r is Ok ==> forall|x: Seq<u8>|
                x != token_id@ ==> final(self).meta_of(x) == old(self).meta_of(x),
            r is Ok ==> final(self).history_of(token_id@) == old(self).history_of(token_id@).push(
                Self::made_update(
                    old(self).next_version(token_id@),
                    now,
                    caller@,
                    old(self).meta_of(token_id@)->Some_0.description,
                    updates@,
                ),
            ),
            r is Ok ==> forall|x: Seq<u8>|
                x != token_id@ ==> final(self).history_of(x) == old(self).history_of(x),
            final(self).tokens@ == old(self).tokens@,
            final(self).admin == old(self).admin,
            r is Err ==> *final(self) == *old(self),
    {
        let ti = match self.find_token(&token_id) {
            Some(i) => i,
            None => {
                return Err(Error::NotFound);
            },
        };
        let mi = match self.find_meta(&token_id) {
            Some(i) => i,
            None => {
                return Err(Error::MetadataNotFound);
            },
        };
        if !str_eq(&caller, &self.tokens[ti].user) {
            return Err(Error::Unauthorized);
        }
        if !updates.validate() {
            return Err(Error::ValidationFailed);
        }
        proof {
            assert(old(self).meta_of(token_id@) == Some(self.metadata@[mi as int].1@));
            assert(self.metadata@[mi as int].1.version < u32::MAX);
            assert(self.metadata@[mi as int].1.attributes.wf());
        }
        let ghost oldm = self.metadata@[mi as int].1@;
        let version: u32 = self.metadata[mi].1.version + 1;
        let mut attrs_cur = self.metadata[mi].1.attributes.clone_of();
        proof {
            assert forall|k: Seq<char>, v: ValueModel, x: Seq<u8>|
                #[trigger] self.index.contains(k, v, x) <==> ((x == token_id@
                    && attrs_cur@.contains_pair(k, v)) || (x != token_id@ && old(
                self,
                ).index.contains(k, v, x))) by {
                if x == token_id@ {
                    assert(self.index.contains(k, v, x) == attr_on_seq(
                        old(self).metadata@,
                        x,
                        k,
                        v,
                    ));
                }
            }
        }
        let mut j: usize = 0;
        while j < updates.entries.len()
            invariant
                old(self).wf(),
                updates.wf(),
                mi < self.metadata@.len(),
                self.metadata@ == old(self).metadata@,
                self.tokens@ == old(self).tokens@,
                self.history@ == old(self).history@,
                self.admin == old(self).admin,
                self.metadata@[mi as int].0@ == token_id@,
                oldm == self.metadata@[mi as int].1@,
                meta_of_seq(old(self).metadata@, token_id@) == Some(oldm),
                j <= updates.entries@.len(),
                attrs_cur.wf(),
                forall|k: Seq<char>|
                    #[trigger] attrs_cur@.contains_key(k) <==> ((exists|a: int|
                        0 <= a < j && (#[trigger] updates.entries@[a]).0@ == k)
                        || oldm.attributes.contains_key(k)),
                forall|k: Seq<char>, v: ValueModel|
                    #[trigger] attrs_cur@.contains_pair(k, v) <==> ((exists|a: int|
                        0 <= a < j && (#[trigger] updates.entries@[a]).0@ == k
                            && updates.entries@[a].1@ == v) || (!(exists|a: int|
                        0 <= a < j && (#[trigger] updates.entries@[a]).0@ == k)
                        && oldm.attributes.contains_pair(k, v))),
                self.index.wf(),
                forall|k: Seq<char>, v: ValueModel, x: Seq<u8>|
                    #[trigger] self.index.contains(k, v, x) <==> ((x == token_id@
                        && attrs_cur@.contains_pair(k, v)) || (x != token_id@ && old(
                    self,
                    ).index.contains(k, v, x))),
            decreases updates.entries@.len() - j,
        {
            let kj = updates.entries[j].0.clone();
            let vj = value_clone(&updates.entries[j].1);
            let ghost gk = kj@;
            let ghost gv = vj@;
            let ghost ac0 = attrs_cur@;
            let ov = match attrs_cur.get(&kj) {
                Some(v) => Some(value_clone(v)),
                None => None,
            };
            match &ov {
                Some(o) => {
                    self.index.remove(&kj, o, &token_id);
                },
                None => {},
            }
            let ghost mid2 = self.index;
            proof {
                assert forall|k: Seq<char>, v: ValueModel, x: Seq<u8>|
                    #[trigger] mid2.contains(k, v, x) <==> ((x == token_id@ && ac0.contains_pair(
                        k,
                        v,
                    ) && !(k == gk)) || (x != token_id@ && old(self).index.contains(k, v, x))) by {
                    match ov {
                        Some(o) => {
                            if x == token_id@ && ac0.contains_pair(k, v) && k == gk {
                                assert(ac0[gk] == o@ && ac0[k] == v);
                            }
                        },
                        None => {
                            if x == token_id@ && ac0.contains_pair(k, v) && k == gk {
                                assert(ac0.contains_key(gk));
                                assert(false);
                            }
                        },
                    }
                }
            }
            self.index.add(&kj, &vj, &token_id);
            attrs_cur.set(kj, vj);
            proof {
                assert(attrs_cur@ == ac0.insert(gk, gv));
                assert(gk == updates.entries@[j as int].0@ && gv == updates.entries@[j as int].1@);
                assert forall|k: Seq<char>|
                    #[trigger] attrs_cur@.contains_key(k) <==> ((exists|a: int|
                        0 <= a < j + 1 && (#[trigger] updates.entries@[a]).0@ == k)
                        || oldm.attributes.contains_key(k)) by {
                    if k == gk {
                        assert(0 <= j < j + 1 && updates.entries@[j as int].0@ == k);
                    } else {
                        assert(attrs_cur@.contains_key(k) == ac0.contains_key(k));
                        if exists|a: int| 0 <= a < j && (#[trigger] updates.entries@[a]).0@ == k {
                            let a = choose|a: int|
                                0 <= a < j && (#[trigger] updates.entries@[a]).0@ == k;
                            assert(0 <= a < j + 1 && updates.entries@[a].0@ == k);
                        }
                        if exists|a: int|
                            0 <= a < j + 1 && (#[trigger] updates.entries@[a]).0@ == k {
                            let a = choose|a: int|
                                0 <= a < j + 1 && (#[trigger] updates.entries@[a]).0@ == k;
                            assert(a != j);
                            assert(exists|a2: int|
                                0 <= a2 < j && (#[trigger] updates.entries@[a2]).0@ == k);
                        }
                    }
                }
                assert forall|k: Seq<char>, v: ValueModel|
                    #[trigger] attrs_cur@.contains_pair(k, v) <==> ((exists|a: int|
                        0 <= a < j + 1 && (#[trigger] updates.entries@[a]).0@ == k
                            && updates.entries@[a].1@ == v) || (!(exists|a: int|
                        0 <= a < j + 1 && (#[trigger] updates.entries@[a]).0@ == k)
                        && oldm.attributes.contains_pair(k, v))) by {
                    if k == gk {
                        assert(attrs_cur@.contains_pair(k, v) <==> v == gv);
                        if v == gv {
                            assert(0 <= j < j + 1 && updates.entries@[j as int].0@ == k
                                && updates.entries@[j as int].1@ == v);
                        }
                        if exists|a: int|
                            0 <= a < j + 1 && (#[trigger] updates.entries@[a]).0@ == k
                                && updates.entries@[a].1@ == v {
                            let a = choose|a: int|
                                0 <= a < j + 1 && (#[trigger] updates.entries@[a]).0@ == k
                                    && updates.entries@[a].1@ == v;
                            if a != j {
                                assert(updates.entries@[a].0@ != updates.entries@[j as int].0@);
                                assert(false);
                            }
                            assert(v == gv);
                        }
                        assert(0 <= j < j + 1 && updates.entries@[j as int].0@ == k);
                    } else {
                        assert(attrs_cur@.contains_pair(k, v) == ac0.contains_pair(k, v));
                        if exists|a: int|
                            0 <= a < j && (#[trigger] updates.entries@[a]).0@ == k
                                && updates.entries@[a].1@ == v {
                            let a = choose|a: int|
                                0 <= a < j && (#[trigger] updates.entries@[a]).0@ == k
                                    && updates.entries@[a].1@ == v;
                            assert(0 <= a < j + 1 && updates.entries@[a].0@ == k
                                && updates.entries@[a].1@ == v);
                        }
                        if exists|a: int|
                            0 <= a < j + 1 && (#[trigger] updates.entries@[a]).0@ == k
                                && updates.entries@[a].1@ == v {
                            let a = choose|a: int|
                                0 <= a < j + 1 && (#[trigger] updates.entries@[a]).0@ == k
                                    && updates.entries@[a].1@ == v;
                            assert(a != j);
                            assert(exists|a2: int|
                                0 <= a2 < j && (#[trigger] updates.entries@[a2]).0@ == k
                                    && updates.entries@[a2].1@ == v);
                        }
                        if exists|a: int| 0 <= a < j && (#[trigger] updates.entries@[a]).0@ == k {
                            let a = choose|a: int|
                                0 <= a < j && (#[trigger] updates.entries@[a]).0@ == k;
                            assert(0 <= a < j + 1 && updates.entries@[a].0@ == k);
                        }
                        if exists|a: int|
                            0 <= a < j + 1 && (#[trigger] updates.entries@[a]).0@ == k {
                            let a = choose|a: int|
                                0 <= a < j + 1 && (#[trigger] updates.entries@[a]).0@ == k;
                            assert(a != j);
                            assert(exists|a2: int|
                                0 <= a2 < j && (#[trigger] updates.entries@[a2]).0@ == k);
                        }
                    }
                }
                assert forall|k: Seq<char>, v: ValueModel, x: Seq<u8>|
                    #[trigger] self.index.contains(k, v, x) <==> ((x == token_id@
                        && attrs_cur@.contains_pair(k, v)) || (x != token_id@ && old(
                    self,
                    ).index.contains(k, v, x))) by {
                    assert(self.index.contains(k, v, x) <==> (mid2.contains(k, v, x) || (k == gk
                        && v == gv && x == token_id@)));
                    if x == token_id@ {
                        if k == gk {
                            assert(!mid2.contains(k, v, x));
                            assert(attrs_cur@.contains_pair(k, v) <==> v == gv);
                        } else {
                            assert(attrs_cur@.contains_pair(k, v) == ac0.contains_pair(k, v));
                        }
                    }
                }
            }
            j = j + 1;
        }
        // Commit: metadata record, then the history record.
        let desc = self.metadata[mi].1.description.clone();
        let rec = MetadataUpdate {
            version,
            timestamp: now,
            updated_by: caller.clone(),
            description: desc.clone(),
            changes: updates.clone_of(),
        };
        let new_meta = TokenMetadata {
            description: desc,
            attributes: attrs_cur,
            version,
            last_updated: now,
            updated_by: caller,
        };
        let ghost nm = new_meta@;
        let ghost rm = rec@;
        proof {
            updates.lemma_pairs();
            updates.lemma_view();
            let un = oldm.attributes.union_prefer_right(updates@);
            let ues = updates.entries@;
            assert forall|k: Seq<char>| #[trigger] nm.attributes.contains_key(k) implies
                un.contains_key(k) && nm.attributes[k] == un[k] by {
                let v = nm.attributes[k];
                assert(nm.attributes.contains_pair(k, v));
                if exists|a: int|
                    0 <= a < ues.len() && (#[trigger] ues[a]).0@ == k && ues[a].1@ == v {
                    assert(updates@.contains_pair(k, v));
                    assert(updates@.contains_key(k) && updates@[k] == v);
                } else {
                    assert(oldm.attributes.contains_pair(k, v));
                    if updates@.contains_key(k) {
                        assert(has_key(ues, k));
                        let a = choose|a: int| 0 <= a < ues.len() && (#[trigger] ues[a]).0@ == k;
                        assert(exists|a2: int| 0 <= a2 < ues.len() && (#[trigger] ues[a2]).0@ == k);
                        assert(!nm.attributes.contains_pair(k, v));
                        assert(false);
                    }
                }
            }
            assert forall|k: Seq<char>| #[trigger] un.contains_key(k) implies
                nm.attributes.contains_key(k) by {
                if updates@.contains_key(k) {
                    assert(has_key(ues, k));
                    let a = choose|a: int| 0 <= a < ues.len() && (#[trigger] ues[a]).0@ == k;
                    assert(exists|a2: int| 0 <= a2 < ues.len() && (#[trigger] ues[a2]).0@ == k);
                } else {
                    assert(oldm.attributes.contains_key(k));
                }
            }
            assert(nm.attributes =~= oldm.attributes.union_prefer_right(updates@));
            assert(nm == Self::made_meta(
                oldm.description,
                oldm.attributes.union_prefer_right(updates@),
                old(self).next_version(token_id@),
                now,
                caller@,
            ));
            assert(rm == Self::made_update(
                old(self).next_version(token_id@),
                now,
                caller@,
                oldm.description,
                updates@,
            ));
            assert forall|k: Seq<char>| #[trigger] new_meta.attributes@.contains_key(k) implies
                valid_key(k) by {
                if !oldm.attributes.contains_key(k) {
                    assert(updates@.contains_key(k));
                } else {
                    assert(old(self).metadata@[mi as int].1.attributes.keys_valid());
                    assert(old(self).metadata@[mi as int].1.attributes@.contains_key(k));
                }
            }
        }
        self.store_meta(Some(mi), &token_id, new_meta);
        self.append_history(&token_id, rec);
        proof {
            let s1 = self;
            assert(s1.meta_of(token_id@) == Some(nm));
            assert(tokens_unique(s1.tokens@));
            assert forall|i2: int|
                0 <= i2 < s1.metadata@.len() implies (#[trigger] s1.metadata@[i2]).1.attributes.wf()
                    && s1.metadata@[i2].1.attributes.keys_valid() && s1.metadata@[i2].1.version
                    >= 1 by {
                if 0 <= i2 < old(self).metadata@.len() && s1.metadata@[i2] == old(
                    self,
                ).metadata@[i2] {
                    assert(old(self).metadata@[i2].1.attributes.wf());
                } else {
                    assert(s1.metadata@[i2].1 == new_meta);
                }
            }
            assert forall|i2: int|
                0 <= i2 < s1.metadata@.len() implies has_token_seq(
                s1.tokens@,
                (#[trigger] s1.metadata@[i2]).0@,
            ) by {
                if 0 <= i2 < old(self).metadata@.len() && s1.metadata@[i2] == old(
                    self,
                ).metadata@[i2] {
                    assert(has_token_seq(old(self).tokens@, old(self).metadata@[i2].0@));
                } else {
                    assert(s1.metadata@[i2].0@ == token_id@);
                    assert(has_token_seq(old(self).tokens@, token_id@));
                }
            }
            assert forall|k: Seq<char>, v: ValueModel, x: Seq<u8>|
                #![trigger s1.index.contains(k, v, x)]
                #![trigger attr_on_seq(s1.metadata@, x, k, v)]
                s1.index.contains(k, v, x) <==> attr_on_seq(s1.metadata@, x, k, v) by {
                if x == token_id@ {
                    assert(attr_on_seq(s1.metadata@, x, k, v) == nm.attributes.contains_pair(k, v));
                } else {
                    assert(attr_on_seq(s1.metadata@, x, k, v) == attr_on_seq(
                        old(self).metadata@,
                        x,
                        k,
                        v,
                    ));
                }
            }
            assert(s1.wf());
        }
        Ok(())
    }

    /// What `remove_metadata_attributes` decides: existence of the token,
    /// then of its metadata, then the authorization gate (owner only).
    pub open spec fn remove_attributes_outcome(&self, id: Seq<u8>, caller: Seq<char>) -> Result<
        (),
        Error,
    > {
        match self.token_of(id) {
            None => Err(Error::NotFound),
            Some(t) => if self.meta_of(id) is None {
                Err(Error::MetadataNotFound)
            } else if caller != t.user {
                Err(Error::Unauthorized)
            } else {
                Ok(())
            },
        }
    }

    /// Deletes the listed attributes from a token's metadata and from
    /// their index buckets; keys not present are silently skipped. The
    /// version is incremented and the bookkeeping fields updated. This
    /// path appends no history record: the log keeps only set and update
    /// deltas.
    pub fn remove_metadata_attributes(
        &mut self,
        token_id: Vec<u8>,
        attribute_keys: Vec<String>,
        caller: String,
        now: u64,
    ) -> (r: Result<(), Error>)
        requires
            old(self).wf(),
            old(self).can_bump(token_id@),
        ensures
            final(self).wf(),
            r == old(self).remove_attributes_outcome(token_id@, caller@),
            r is Ok ==> final(self).meta_of(token_id@) == Some(
                Self::made_meta(
                    old(self).meta_of(token_id@)->Some_0.description,
                    old(self).meta_of(token_id@)->Some_0.attributes.remove_keys(
                        Set::new(|k: Seq<char>| key_listed(attribute_keys@, k)),
                    ),
                    old(self).next_version(token_id@),
                    now,
                    caller@,
                ),
            ),
            r is Ok ==> forall|x: Seq<u8>|
                x != token_id@ ==> final(self).meta_of(x) == old(self).meta_of(x),
            forall|x: Seq<u8>| final(self).history_of(x) == old(self).history_of(x),
            final(self).tokens@ == old(self).tokens@,
            final(self).admin == old(self).admin,
            r is Err ==> *final(self) == *old(self),
    {
        let ti = match self.find_token(&token_id) {
            Some(i) => i,
            None => {
                return Err(Error::NotFound);
            },
        };
        let mi = match self.find_meta(&token_id) {
            Some(i) => i,
            None => {
                return Err(Error::MetadataNotFound);
            },
        };
        if !str_eq(&caller, &self.tokens[ti].user) {
            return Err(Error::Unauthorized);
        }
        proof {
            assert(old(self).meta_of(token_id@) == Some(self.metadata@[mi as int].1@));
            assert(self.metadata@[mi as int].1.version < u32::MAX);
            assert(self.metadata@[mi as int].1.attributes.wf());
        }
        let ghost oldm = self.metadata@[mi as int].1@;
        let version: u32 = self.metadata[mi].1.version + 1;
        let mut attrs_cur = self.metadata[mi].1.attributes.clone_of();
        proof {
            assert forall|k: Seq<char>, v: ValueModel, x: Seq<u8>|
                #[trigger] self.index.contains(k, v, x) <==> ((x == token_id@
                    && attrs_cur@.contains_pair(k, v)) || (x != token_id@ && old(
                self,
                ).index.contains(k, v, x))) by {
                if x == token_id@ {
                    assert(self.index.contains(k, v, x) == attr_on_seq(
                        old(self).metadata@,
                        x,
                        k,
                        v,
                    ));
                }
            }
        }
        let mut j: usize = 0;
        while j < attribute_keys.len()
            invariant
                old(self).wf(),
                mi < self.metadata@.len(),
                self.metadata@ == old(self).metadata@,
                self.tokens@ == old(self).tokens@,
                self.history@ == old(self).history@,
                self.admin == old(self).admin,
                self.metadata@[mi as int].0@ == token_id@,
                oldm == self.metadata@[mi as int].1@,
                meta_of_seq(old(self).metadata@, token_id@) == Some(oldm),
                j <= attribute_keys@.len(),
                attrs_cur.wf(),
                forall|k: Seq<char>|
                    #[trigger] attrs_cur@.contains_key(k) <==> (oldm.attributes.contains_key(k)
                        && !(exists|a: int|
                        0 <= a < j && (#[trigger] attribute_keys@[a])@ == k)),
                forall|k: Seq<char>, v: ValueModel|
                    #[trigger] attrs_cur@.contains_pair(k, v) <==> (oldm.attributes.contains_pair(
                        k,
                        v,
                    ) && !(exists|a: int|
                        0 <= a < j && (#[trigger] attribute_keys@[a])@ == k)),
                self.index.wf(),
                forall|k: Seq<char>, v: ValueModel, x: Seq<u8>|
                    #[trigger] self.index.contains(k, v, x) <==> ((x == token_id@
                        && attrs_cur@.contains_pair(k, v)) || (x != token_id@ && old(
                    self,
                    ).index.contains(k, v, x))),
            decreases attribute_keys@.len() - j,
        {
            let kj = attribute_keys[j].clone();
            let ghost gk = kj@;
            let ghost ac0 = attrs_cur@;
            let ov = match attrs_cur.get(&kj) {
                Some(v) => Some(value_clone(v)),
                None => None,
            };
            match &ov {
                Some(o) => {
                    self.index.remove(&kj, o, &token_id);
                    attrs_cur.remove(&kj);
                },
                None => {},
            }
            proof {
                assert(gk == attribute_keys@[j as int]@);
                match ov {
                    Some(o) => {
                        assert(attrs_cur@ == ac0.remove(gk));
                    },
                    None => {
                        assert(!ac0.contains_key(gk));
                        assert(attrs_cur@ == ac0);
                    },
                }
                assert forall|k: Seq<char>|
                    #[trigger] attrs_cur@.contains_key(k) <==> (oldm.attributes.contains_key(k)
                        && !(exists|a: int|
                        0 <= a < j + 1 && (#[trigger] attribute_keys@[a])@ == k)) by {
                    if exists|a: int| 0 <= a < j && (#[trigger] attribute_keys@[a])@ == k {
                        let a = choose|a: int|
                            0 <= a < j && (#[trigger] attribute_keys@[a])@ == k;
                        assert(0 <= a < j + 1 && attribute_keys@[a]@ == k);
                        assert(!ac0.contains_key(k));
                        assert(!attrs_cur@.contains_key(k));
                    } else if k == gk {
                        assert(0 <= j < j + 1 && attribute_keys@[j as int]@ == k);
                        assert(!attrs_cur@.contains_key(k));
                    } else {
                        assert(attrs_cur@.contains_key(k) == ac0.contains_key(k));
                        if exists|a: int|
                            0 <= a < j + 1 && (#[trigger] attribute_keys@[a])@ == k {
                            let a = choose|a: int|
                                0 <= a < j + 1 && (#[trigger] attribute_keys@[a])@ == k;
                            assert(a != j);
                            assert(exists|a2: int|
                                0 <= a2 < j && (#[trigger] attribute_keys@[a2])@ == k);
                        }
                    }
                }
                assert forall|k: Seq<char>, v: ValueModel|
                    #[trigger] attrs_cur@.contains_pair(k, v) <==> (oldm.attributes.contains_pair(
                        k,
                        v,
                    ) && !(exists|a: int|
                        0 <= a < j + 1 && (#[trigger] attribute_keys@[a])@ == k)) by {
                    if attrs_cur@.contains_pair(k, v) {
                        assert(attrs_cur@.contains_key(k));
                        assert(!(exists|a: int|
                            0 <= a < j + 1 && (#[trigger] attribute_keys@[a])@ == k));
                        if exists|a: int| 0 <= a < j && (#[trigger] attribute_keys@[a])@ == k {
                            let a = choose|a: int|
                                0 <= a < j && (#[trigger] attribute_keys@[a])@ == k;
                            assert(0 <= a < j + 1 && attribute_keys@[a]@ == k);
                            assert(false);
                        }
                        if k == gk {
                            assert(0 <= j < j + 1 && attribute_keys@[j as int]@ == k);
                            assert(false);
                        }
                        assert(ac0.contains_pair(k, v));
                        assert(oldm.attributes.contains_pair(k, v));
                    }
                    if oldm.attributes.contains_pair(k, v) && !(exists|a: int|
                        0 <= a < j + 1 && (#[trigger] attribute_keys@[a])@ == k) {
                        if exists|a: int| 0 <= a < j && (#[trigger] attribute_keys@[a])@ == k {
                            let a = choose|a: int|
                                0 <= a < j && (#[trigger] attribute_keys@[a])@ == k;
                            assert(0 <= a < j + 1 && attribute_keys@[a]@ == k);
                            assert(false);
                        }
                        if k == gk {
                            assert(0 <= j < j + 1 && attribute_keys@[j as int]@ == k);
                            assert(false);
                        }
                        assert(ac0.contains_pair(k, v));
                        assert(attrs_cur@.contains_pair(k, v));
                    }
                }
                assert forall|k: Seq<char>, v: ValueModel, x: Seq<u8>|
                    #[trigger] self.index.contains(k, v, x) <==> ((x == token_id@
                        && attrs_cur@.contains_pair(k, v)) || (x != token_id@ && old(
                    self,
                    ).index.contains(k, v, x))) by {
                    match ov {
                        Some(o) => {
                            if x == token_id@ && k == gk && ac0.contains_pair(k, v) {
                                assert(ac0[gk] == o@ && ac0[k] == v);
                            }
                        },
                        None => {
                            if x == token_id@ && k == gk && ac0.contains_pair(k, v) {
                                assert(ac0.contains_key(gk));
                                assert(false);
                            }
                        },
                    }
                }
            }
            j = j + 1;
        }
        // Commit the metadata record; this path logs no history entry.
        let desc = self.metadata[mi].1.description.clone();
        let new_meta = TokenMetadata {
            description: desc,
            attributes: attrs_cur,
            version,
            last_updated: now,
            updated_by: caller,
        };
        let ghost nm = new_meta@;
        proof {
            let trimmed = oldm.attributes.remove_keys(
                Set::new(|k: Seq<char>| key_listed(attribute_keys@, k)),
            );
            assert forall|k: Seq<char>| #[trigger] nm.attributes.contains_key(k) implies
                trimmed.contains_key(k) && nm.attributes[k] == trimmed[k] by {
                let v = nm.attributes[k];
                assert(nm.attributes.contains_pair(k, v));
                assert(oldm.attributes.contains_pair(k, v));
                assert(!key_listed(attribute_keys@, k));
            }
            assert forall|k: Seq<char>| #[trigger] trimmed.contains_key(k) implies
                nm.attributes.contains_key(k) by {
                assert(oldm.attributes.contains_key(k));
                assert(!key_listed(attribute_keys@, k));
            }
            assert(nm.attributes =~= trimmed);
            assert(nm == Self::made_meta(
                oldm.description,
                oldm.attributes.remove_keys(
                    Set::new(|k: Seq<char>| key_listed(attribute_keys@, k)),
                ),
                old(self).next_version(token_id@),
                now,
                caller@,
            ));
            assert forall|k: Seq<char>| #[trigger] new_meta.attributes@.contains_key(k) implies
                valid_key(k) by {
                assert(old(self).metadata@[mi as int].1.attributes.keys_valid());
                assert(old(self).metadata@[mi as int].1.attributes@.contains_key(k));
            }
        }
        self.store_meta(Some(mi), &token_id, new_meta);
        proof {
            let s1 = self;
            assert(s1.meta_of(token_id@) == Some(nm));
            assert(tokens_unique(s1.tokens@));
            assert forall|i2: int|
                0 <= i2 < s1.metadata@.len() implies (#[trigger] s1.metadata@[i2]).1.attributes.wf()
                    && s1.metadata@[i2].1.attributes.keys_valid() && s1.metadata@[i2].1.version
                    >= 1 by {
                if 0 <= i2 < old(self).metadata@.len() && s1.metadata@[i2] == old(
                    self,
                ).metadata@[i2] {
                    assert(old(self).metadata@[i2].1.attributes.wf());
                } else {
                    assert(s1.metadata@[i2].1 == new_meta);
                }
            }
            assert forall|i2: int|
                0 <= i2 < s1.metadata@.len() implies has_token_seq(
                s1.tokens@,
                (#[trigger] s1.metadata@[i2]).0@,
            ) by {
                if 0 <= i2 < old(self).metadata@.len() && s1.metadata@[i2] == old(
                    self,
                ).metadata@[i2] {
                    assert(has_token_seq(old(self).tokens@, old(self).metadata@[i2].0@));
                } else {
                    assert(s1.metadata@[i2].0@ == token_id@);
                    assert(has_token_seq(old(self).tokens@, token_id@));
                }
            }
            assert forall|k: Seq<char>, v: ValueModel, x: Seq<u8>|
                #![trigger s1.index.contains(k, v, x)]
                #![trigger attr_on_seq(s1.metadata@, x, k, v)]
                s1.index.contains(k, v, x) <==> attr_on_seq(s1.metadata@, x, k, v) by {
                if x == token_id@ {
                    assert(attr_on_seq(s1.metadata@, x, k, v) == nm.attributes.contains_pair(k, v));
                } else {
                    assert(attr_on_seq(s1.metadata@, x, k, v) == attr_on_seq(
                        old(self).metadata@,
                        x,
                        k,
                        v,
                    ));
                }
            }
            assert(s1.wf());
        }
        Ok(())
    }

    /// Writes the metadata record for `id`, replacing the entry at `pos`
    /// or appending a new one.
    fn store_meta(&mut self, pos: Option<usize>, id: &Vec<u8>, m: TokenMetadata)
        requires
            metas_unique(old(self).metadata@),
            match pos {
                Some(i) => i < old(self).metadata@.len() && old(self).metadata@[i as int].0@ == id@,
                None => !has_meta_seq(old(self).metadata@, id@),
            },
        ensures
            metas_unique(final(self).metadata@),
            meta_of_seq(final(self).metadata@, id@) == Some(m@),
            forall|x: Seq<u8>|
                x != id@ ==> meta_of_seq(final(self).metadata@, x) == meta_of_seq(
                    old(self).metadata@,
                    x,
                ),
            forall|x: Seq<u8>|
                has_meta_seq(final(self).metadata@, x) <==> has_meta_seq(old(self).metadata@, x)
                    || x == id@,
            forall|i2: int|
                0 <= i2 < final(self).metadata@.len() ==> ((0 <= i2 < old(self).metadata@.len()
                    && (#[trigger] final(self).metadata@[i2]) == old(self).metadata@[i2]) || (
                final(self).metadata@[i2].1 == m && final(self).metadata@[i2].0@ == id@)),
            final(self).tokens@ == old(self).tokens@,
            final(self).history@ == old(self).history@,
            final(self).index == old(self).index,
            final(self).admin == old(self).admin,
    {
        let ghost ms0 = self.metadata@;
        let ghost mm = m@;
        match pos {
            Some(i) => {
                self.metadata[i] = (bytes_clone(id), m);
                proof {
                    let ms1 = self.metadata@;
                    assert(ms1[i as int].0@ == id@ && ms1[i as int].1@ == mm);
                    assert(forall|j: int| 0 <= j < ms1.len() && j != i ==> ms1[j] == ms0[j]);
                    assert forall|j: int| 0 <= j < ms1.len() implies (#[trigger] ms1[j]).0@
                        == ms0[j].0@ by {
                        if j != i {
                            assert(ms1[j] == ms0[j]);
                        }
                    }
                    assert forall|i2: int, j2: int| 0 <= i2 < j2 < ms1.len() implies (
                    #[trigger] ms1[i2]).0@ != (#[trigger] ms1[j2]).0@ by {
                        assert(ms0[i2].0@ != ms0[j2].0@);
                    }
                    assert(has_meta_seq(ms1, id@));
                    let j = meta_at_seq(ms1, id@);
                    if j != i {
                        if j < i {
                            assert(ms1[j].0@ != ms1[i as int].0@);
                        } else {
                            assert(ms1[i as int].0@ != ms1[j].0@);
                        }
                    }
                    assert(meta_of_seq(ms1, id@) == Some(mm));
                    assert forall|x: Seq<u8>| x != id@ implies meta_of_seq(ms1, x) == meta_of_seq(
                        ms0,
                        x,
                    ) by {
                        if has_meta_seq(ms1, x) {
                            let b1 = meta_at_seq(ms1, x);
                            assert(0 <= b1 < ms1.len() && ms1[b1].0@ == x);
                            assert(b1 != i);
                            assert(ms0[b1].0@ == x);
                            assert(has_meta_seq(ms0, x));
                            let b0 = meta_at_seq(ms0, x);
                            if b0 != b1 {
                                if b0 < b1 {
                                    assert(ms0[b0].0@ != ms0[b1].0@);
                                } else {
                                    assert(ms0[b1].0@ != ms0[b0].0@);
                                }
                            }
                            assert(ms1[b1] == ms0[b0]);
                        } else {
                            if has_meta_seq(ms0, x) {
                                let a = choose|a: int|
                                    0 <= a < ms0.len() && (#[trigger] ms0[a]).0@ == x;
                                assert(ms1[a].0@ == x);
                                assert(false);
                            }
                        }
                    }
                    assert forall|x: Seq<u8>| has_meta_seq(ms1, x) implies has_meta_seq(ms0, x)
                        || x == id@ by {
                        if x != id@ {
                            let a = choose|a: int| 0 <= a < ms1.len() && (#[trigger] ms1[a]).0@ == x;
                            assert(a != i);
                            assert(ms0[a].0@ == x);
                        }
                    }
                    assert forall|x: Seq<u8>| has_meta_seq(ms0, x) || x == id@ implies has_meta_seq(
                        ms1,
                        x,
                    ) by {
                        if x == id@ {
                        } else {
                            let a = choose|a: int| 0 <= a < ms0.len() && (#[trigger] ms0[a]).0@ == x;
                            assert(ms1[a].0@ == x);
                        }
                    }
                }
            },
            None => {
                self.metadata.push((bytes_clone(id), m));
                proof {
                    let ms1 = self.metadata@;
                    let n = ms0.len() as int;
                    assert(ms1[n].0@ == id@ && ms1[n].1@ == mm);
                    assert(forall|j: int| 0 <= j < n ==> ms1[j] == ms0[j]);
                    assert forall|i2: int, j2: int| 0 <= i2 < j2 < ms1.len() implies (
                    #[trigger] ms1[i2]).0@ != (#[trigger] ms1[j2]).0@ by {
                        if j2 < n {
                            assert(ms0[i2].0@ != ms0[j2].0@);
                        } else {
                            if ms1[i2].0@ == id@ {
                                assert(has_meta_seq(ms0, id@));
                            }
                        }
                    }
                    assert(has_meta_seq(ms1, id@));
                    let j = meta_at_seq(ms1, id@);
                    if j != n {
                        assert(ms1[j].0@ != ms1[n].0@);
                    }
                    assert(meta_of_seq(ms1, id@) == Some(mm));
                    assert forall|x: Seq<u8>| x != id@ implies meta_of_seq(ms1, x) == meta_of_seq(
                        ms0,
                        x,
                    ) by {
                        if has_meta_seq(ms1, x) {
                            let b1 = meta_at_seq(ms1, x);
                            assert(0 <= b1 < ms1.len() && ms1[b1].0@ == x);
                            assert(b1 != n);
                            assert(ms0[b1].0@ == x);
                            assert(has_meta_seq(ms0, x));
                            let b0 = meta_at_seq(ms0, x);
                            if b0 != b1 {
                                if b0 < b1 {
                                    assert(ms0[b0].0@ != ms0[b1].0@);
                                } else {
                                    assert(ms0[b1].0@ != ms0[b0].0@);
                                }
                            }
                            assert(ms1[b1] == ms0[b0]);
                        } else {
                            if has_meta_seq(ms0, x) {
                                let a = choose|a: int|
                                    0 <= a < ms0.len() && (#[trigger] ms0[a]).0@ == x;
                                assert(ms1[a].0@ == x);
                                assert(false);
                            }
                        }
                    }
                    assert forall|x: Seq<u8>| has_meta_seq(ms1, x) implies has_meta_seq(ms0, x)
                        || x == id@ by {
                        if x != id@ {
                            let a = choose|a: int| 0 <= a < ms1.len() && (#[trigger] ms1[a]).0@ == x;
                            assert(a != n);
                            assert(ms0[a].0@ == x);
                        }
                    }
                    assert forall|x: Seq<u8>| has_meta_seq(ms0, x) || x == id@ implies has_meta_seq(
                        ms1,
                        x,
                    ) by {
                        if x == id@ {
                        } else {
                            let a = choose|a: int| 0 <= a < ms0.len() && (#[trigger] ms0[a]).0@ == x;
                            assert(ms1[a].0@ == x);
                        }
                    }
                }
            },
        }
    }

    /// Appends one history record for `id`, creating the per-token log
    /// on first use.
    fn append_history(&mut self, id: &Vec<u8>, rec: MetadataUpdate)
        requires
            hists_unique(old(self).history@),
            hists_changes_wf(old(self).history@),
            rec.changes.wf(),
        ensures
            hists_unique(final(self).history@),
            hists_changes_wf(final(self).history@),
            history_of_seq(final(self).history@, id@) == history_of_seq(
                old(self).history@,
                id@,
            ).push(rec@),
            forall|x: Seq<u8>|
                x != id@ ==> history_of_seq(final(self).history@, x) == history_of_seq(
                    old(self).history@,
                    x,
                ),
            final(self).tokens@ == old(self).tokens@,
            final(self).metadata@ == old(self).metadata@,
            final(self).index == old(self).index,
            final(self).admin == old(self).admin,
    {
        let ghost hs0 = self.history@;
        let ghost rm = rec@;
        match self.find_hist(id) {
            Some(hi) => {
                let src = &self.history[hi].1;
                let mut acc: Vec<MetadataUpdate> = Vec::new();
                let mut j: usize = 0;
                while j < src.len()
                    invariant
                        j <= src@.len(),
                        acc@.len() == j,
                        forall|a: int|
                            0 <= a < j ==> (#[trigger] acc@[a])@ == src@[a]@ && acc@[a].changes.wf(),
                        forall|a: int| 0 <= a < src@.len() ==> (#[trigger] src@[a]).changes.wf(),
                    decreases src@.len() - j,
                {
                    let u = &src[j];
                    acc.push(MetadataUpdate {
                        version: u.version,
                        timestamp: u.timestamp,
                        updated_by: u.updated_by.clone(),
                        description: u.description.clone(),
                        changes: u.changes.clone_of(),
                    });
                    j = j + 1;
                }
                acc.push(rec);
                let ghost accv = acc@;
                self.history[hi] = (bytes_clone(id), acc);
                proof {
                    let hs1 = self.history@;
                    assert(hs1[hi as int].0@ == id@ && hs1[hi as int].1@ == accv);
                    assert(updates_view(accv) =~= updates_view(hs0[hi as int].1@).push(rm));
                    assert(forall|j2: int| 0 <= j2 < hs1.len() && j2 != hi ==> hs1[j2] == hs0[j2]);
                    assert forall|i2: int, j2: int| 0 <= i2 < j2 < hs1.len() implies (
                    #[trigger] hs1[i2]).0@ != (#[trigger] hs1[j2]).0@ by {
                        assert(hs1[i2].0@ == hs0[i2].0@ && hs1[j2].0@ == hs0[j2].0@);
                        assert(hs0[i2].0@ != hs0[j2].0@);
                    }
                    assert forall|i2: int, j2: int|
                        0 <= i2 < hs1.len() && 0 <= j2 < (#[trigger] hs1[i2]).1@.len() implies (
                    #[trigger] hs1[i2].1@[j2]).changes.wf() by {
                        if i2 != hi {
                            assert(hs1[i2] == hs0[i2]);
                            assert(hs0[i2].1@[j2].changes.wf());
                        }
                    }
                    assert(has_hist_seq(hs1, id@));
                    let j = hist_at_seq(hs1, id@);
                    if j != hi {
                        if j < hi {
                            assert(hs1[j].0@ != hs1[hi as int].0@);
                        } else {
                            assert(hs1[hi as int].0@ != hs1[j].0@);
                        }
                    }
                    assert(history_of_seq(hs1, id@) == history_of_seq(hs0, id@).push(rm));
                    assert forall|x: Seq<u8>| x != id@ implies history_of_seq(hs1, x)
                        == history_of_seq(hs0, x) by {
                        if has_hist_seq(hs1, x) {
                            let b1 = hist_at_seq(hs1, x);
                            assert(0 <= b1 < hs1.len() && hs1[b1].0@ == x);
                            assert(b1 != hi);
                            assert(hs0[b1].0@ == x);
                            assert(has_hist_seq(hs0, x));
                            let b0 = hist_at_seq(hs0, x);
                            if b0 != b1 {
                                if b0 < b1 {
                                    assert(hs0[b0].0@ != hs0[b1].0@);
                                } else {
                                    assert(hs0[b1].0@ != hs0[b0].0@);
                                }
                            }
                            assert(hs1[b1] == hs0[b0]);
                        } else {
                            if has_hist_seq(hs0, x) {
                                let a = choose|a: int|
                                    0 <= a < hs0.len() && (#[trigger] hs0[a]).0@ == x;
                                assert(hs1[a].0@ == x);
                                assert(false);
                            }
                        }
                    }
                }
            },
            None => {
                let mut acc: Vec<MetadataUpdate> = Vec::new();
                acc.push(rec);
                let ghost accv = acc@;
                self.history.push((bytes_clone(id), acc));
                proof {
                    let hs1 = self.history@;
                    let n = hs0.len() as int;
                    assert(hs1[n].0@ == id@ && hs1[n].1@ == accv);
                    assert(updates_view(accv) =~= Seq::<UpdateModel>::empty().push(rm));
                    assert(forall|j2: int| 0 <= j2 < n ==> hs1[j2] == hs0[j2]);
                    assert forall|i2: int, j2: int| 0 <= i2 < j2 < hs1.len() implies (
                    #[trigger] hs1[i2]).0@ != (#[trigger] hs1[j2]).0@ by {
                        if j2 < n {
                            assert(hs0[i2].0@ != hs0[j2].0@);
                        } else {
                            if hs1[i2].0@ == id@ {
                                assert(has_hist_seq(hs0, id@));
                            }
                        }
                    }
                    assert forall|i2: int, j2: int|
                        0 <= i2 < hs1.len() && 0 <= j2 < (#[trigger] hs1[i2]).1@.len() implies (
                    #[trigger] hs1[i2].1@[j2]).changes.wf() by {
                        if i2 != n {
                            assert(hs1[i2] == hs0[i2]);
                            assert(hs0[i2].1@[j2].changes.wf());
                        }
                    }
                    assert(has_hist_seq(hs1, id@));
                    let j = hist_at_seq(hs1, id@);
                    if j != n {
                        assert(hs1[j].0@ != hs1[n].0@);
                    }
                    assert(history_of_seq(hs1, id@) == history_of_seq(hs0, id@).push(rm));
                    assert forall|x: Seq<u8>| x != id@ implies history_of_seq(hs1, x)
                        == history_of_seq(hs0, x) by {
                        if has_hist_seq(hs1, x) {
                            let b1 = hist_at_seq(hs1, x);
                            assert(0 <= b1 < hs1.len() && hs1[b1].0@ == x);
                            assert(b1 != n);
                            assert(hs0[b1].0@ == x);
                            assert(has_hist_seq(hs0, x));
                            let b0 = hist_at_seq(hs0, x);
                            if b0 != b1 {
                                if b0 < b1 {
                                    assert(hs0[b0].0@ != hs0[b1].0@);
                                } else {
                                    assert(hs0[b1].0@ != hs0[b0].0@);
                                }
                            }
                            assert(hs1[b1] == hs0[b0]);
                        } else {
                            if has_hist_seq(hs0, x) {
                                let a = choose|a: int|
                                    0 <= a < hs0.len() && (#[trigger] hs0[a]).0@ == x;
                                assert(hs1[a].0@ == x);
                                assert(false);
                            }
                        }
                    }
                }
            },
        }
    }
}

} // verus!
