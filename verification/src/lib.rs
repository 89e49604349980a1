//! Relational storage core for a tagged todo list.
//!
//! The store keeps three relations — tags, todo items, and the many-to-many
//! bindings between them — together with the auto-increment counters that
//! hand out row ids. Every operation is specified against a mathematical
//! view of the store ([`database::StoreView`]) and verified: uniqueness of
//! tag names, uniqueness of binding pairs, the get-or-create policy, and the
//! cascade rules that keep bindings consistent when a tag or an item is
//! deleted. Durability (mirroring the relations into an on-disk engine) is
//! left to the embedding application.

pub mod database;
pub mod todo_storage;
pub mod util;
