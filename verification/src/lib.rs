//! A small verified library for tracking a personal list of bills by name
//! and amount.
//!
//! The heart of the library is [`store::Bills`], an in-memory record store
//! keyed by bill name, modelled as a map from the name's characters to the
//! stored amount. Around it stand the pieces of the interactive menu that
//! can be verified: input normalisation and the amount grammar in
//! [`input`], and the menu state machine in [`menu`]. An unverified front
//! end performs the actual reading and printing and drives the state
//! machine one input line at a time.

pub mod input;
pub mod menu;
pub mod store;
