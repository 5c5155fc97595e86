//! Generic item store: schema-less records persisted across interchangeable
//! storage backends, a document-store backend with an in-process secondary
//! index, a one-time migration between two stores, and the credential hashing
//! the migration depends on.

pub mod args;
pub mod crypto;
pub mod item;
pub mod merger;
pub mod store;
