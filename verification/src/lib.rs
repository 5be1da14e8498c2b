//! Versioned membership records with owner-scoped lifecycle state, a
//! versioned metadata layer, and an inverted attribute index kept in
//! lockstep with every metadata mutation.

pub mod attrs;
pub mod contract;
pub mod index;
pub mod laws;
pub mod values;
