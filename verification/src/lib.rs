//! A registry of breedable, ownable kitties.
//!
//! The crate is built in layers:
//!
//! * [`dna`]: how two genetic payloads and a selector combine, bit by bit,
//!   how a payload decides the sex of a kitty, and how the payload of a
//!   founder is drawn;
//! * [`allocator`]: the counter that hands out ids;
//! * [`store`]: the kitties and the map that holds them by id;
//! * [`linked_item`]: the per-owner index, a doubly linked ring of kitty ids
//!   kept in a key-value store and closed by a sentinel head;
//! * [`registry`]: the operations that create, breed, transfer and sell
//!   kitties, and keep store, index and allocator in step;
//! * [`error`]: the ways in which an operation can fail.
//!
//! Every function is verified against its contract.

pub mod allocator;
pub mod dna;
pub mod error;
pub mod linked_item;
pub mod registry;
pub mod store;
