//! Verified core of a small embedded-database toolkit: model-storage key
//! layout, a JSON document model with JSONPath-style queries and updates,
//! index registration for document collections, and the commit/rollback
//! bookkeeping of a backend transaction.

pub mod text;
pub mod inference;
pub mod json_value;
pub mod json_path;
pub mod index;
pub mod json_store;
pub mod transaction;
