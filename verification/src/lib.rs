//! Cache-and-store coordination layer for a link shortener.
//!
//! The crate keeps an in-memory cache of [`models::Shortlink`] records in
//! front of a remote key-value store and pins down the policies that relate
//! the two: cache-first lookup with read-through population, write-back hit
//! counting, write-through upserts that preserve unflushed hit counts, and
//! the periodic background flush that reconciles the cache into the store.
//! The store itself is reached over the network; the functions here prepare
//! the commands to send and apply the replies that come back, so that every
//! decision the layer makes is verified.

use vstd::prelude::*;

pub mod cache;
pub mod codec;
pub mod coordinator;
pub mod errors;
pub mod keyspace;
pub mod models;
pub mod web;

verus! {

/// Greeting served at the site root.
pub fn index() -> (r: &'static str)
    ensures
        r@ == "Hello, world!"@,
{
    "Hello, world!"
}

} // verus!
