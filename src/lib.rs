//! A lexical scope chain: names are declared, shadowed, reassigned and
//! looked up across nested scopes, with every operation specified over an
//! abstract model and verified against it.

pub mod basics;
pub mod laws;
pub mod scope;
