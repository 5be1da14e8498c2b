//! Scalar attribute values, lifecycle status, and the error taxonomy.

use vstd::prelude::*;

verus! {

/// Lifecycle state of a membership token. `Expired` is derived at read
/// time from the expiry date; only an `Active` token may be transferred.
#[derive(Clone, Copy, Debug, PartialEq, Eq, Structural)]
pub enum MembershipStatus {
    Active,
    Expired,
    Revoked,
}

/// Error taxonomy. Every failure of an operation is reported as one of
/// these; no operation panics on an expected failure path.
#[derive(Clone, Copy, Debug, PartialEq, Eq, Structural)]
pub enum Error {
    /// The token (or, for metadata reads, the token) does not exist.
    NotFound,
    /// A token with this id has already been issued.
    AlreadyExists,
    /// The supplied expiry date is not strictly in the future.
    InvalidExpiry,
    /// The token is not currently active (read-time or transfer-time check).
    Expired,
    /// The calling principal may not perform this operation.
    Unauthorized,
    /// The admin slot was never initialized.
    AdminNotSet,
    /// The token has no metadata yet.
    MetadataNotFound,
    /// An attribute violated the validation rules.
    ValidationFailed,
}

/// Mathematical model of an attribute value.
pub enum ValueModel {
    Text(Seq<char>),
    Number(int),
    Boolean(bool),
}

/// A typed scalar value usable both as a metadata field value and, paired
/// with its key, as an index coordinate. Equality is structural.
#[derive(Debug)]
pub enum MetadataValue {
    Text(String),
    Number(i64),
    Boolean(bool),
}

impl View for MetadataValue {
    type V = ValueModel;

    open spec fn view(&self) -> ValueModel {
        match self {
            MetadataValue::Text(s) => ValueModel::Text(s@),
            MetadataValue::Number(n) => ValueModel::Number(*n as int),
            MetadataValue::Boolean(b) => ValueModel::Boolean(*b),
        }
    }
}

/// Structural equality of two attribute values.
pub fn value_eq(a: &MetadataValue, b: &MetadataValue) -> (r: bool)
    ensures
        r == (a@ == b@),
{
    match (a, b) {
        (MetadataValue::Text(x), MetadataValue::Text(y)) => *x == *y,
        (MetadataValue::Number(x), MetadataValue::Number(y)) => *x == *y,
        (MetadataValue::Boolean(x), MetadataValue::Boolean(y)) => *x == *y,
        _ => false,
    }
}

/// A copy of an attribute value with the same model.
pub fn value_clone(v: &MetadataValue) -> (r: MetadataValue)
    ensures
        r@ == v@,
{
    match v {
        MetadataValue::Text(s) => MetadataValue::Text(s.clone()),
        MetadataValue::Number(n) => MetadataValue::Number(*n),
        MetadataValue::Boolean(b) => MetadataValue::Boolean(*b),
    }
}

/// Structural equality of two strings.
pub fn str_eq(a: &String, b: &String) -> (r: bool)
    ensures
        r == (a@ == b@),
{
    *a == *b
}

/// Structural equality of two byte identifiers.
pub fn bytes_eq(a: &Vec<u8>, b: &Vec<u8>) -> (r: bool)
    ensures
        r == (a@ == b@),
{
    if a.len() != b.len() {
        return false;
    }
    let mut i: usize = 0;
    while i < a.len()
        invariant
            i <= a.len(),
            a.len() == b.len(),
            forall|j: int| 0 <= j < i ==> a@[j] == b@[j],
        decreases a.len() - i,
    {
        if a[i] != b[i] {
            return false;
        }
        i = i + 1;
    }
    proof {
        assert(a@ =~= b@);
    }
    true
}

/// A copy of a byte identifier with the same contents.
pub fn bytes_clone(v: &Vec<u8>) -> (r: Vec<u8>)
    ensures
        r@ == v@,
{
    let mut r: Vec<u8> = Vec::new();
    let mut i: usize = 0;
    while i < v.len()
        invariant
            i <= v.len(),
            r@ =~= v@.subrange(0, i as int),
        decreases v.len() - i,
    {
        r.push(v[i]);
        i = i + 1;
    }
    proof {
        assert(r@ =~= v@);
    }
    r
}

/// An attribute key is valid when it is nonempty; these are the
/// attribute-level format checks applied by every metadata mutator.
pub open spec fn valid_key(k: Seq<char>) -> bool {
    k.len() > 0
}

/// Checks one attribute key against the validation rules.
pub fn validate_attribute(key: &String) -> (r: bool)
    ensures
        r == valid_key(key@),
{
    !key.as_str().is_empty()
}

} // verus!
