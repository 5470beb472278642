//! A verified model of a minimal "bank" ledger program built on
//! program-derived accounts: one `Bank` account per owner, created once,
//! funded by deposits from any signer, and drained by owner-only withdrawals.
//!
//! The host runtime's account store is modelled explicitly by [`ledger::Ledger`],
//! a keyed arena of user accounts and bank accounts, so that every instruction
//! handler is an ordinary function from state to state with a full contract.

pub mod account;
pub mod codec;
pub mod laws;
pub mod ledger;
