//! A fixed-capacity segment tree over a monoid: point updates and
//! range aggregates, with every operation proved against a sequence model.

pub mod laws;
pub mod layout;
pub mod monoid;
pub mod tree;
