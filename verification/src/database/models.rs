//! Row types and per-table operations of the three relations.

pub mod tag_item_bind;
pub mod tags;
pub mod todo_item;
