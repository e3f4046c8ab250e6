//! Session registry and broadcast fan-out for a multi-room relay.
//!
//! * [`store`]: the members of one room, keyed by locally assigned ids.
//! * [`registry`]: the table from room identifier to the room's store.
//! * [`connection`]: the life cycle of one connection, as a step function
//!   from phase and event to the next phase and the action to perform.
//!
//! Locking, delivery and the network transport are left to the caller: every
//! operation here is a plain state transition on data the caller owns.

pub mod store;
pub mod registry;
pub mod connection;
