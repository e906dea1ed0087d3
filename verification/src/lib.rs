//! A local secret-management core: it stores, lists, and deletes named
//! OAuth-style client credential sets (label, url, client id, client secret)
//! in the operating system's credential store, keeping a per-id record and a
//! single label index coherent across create, delete, and partial failures.

pub mod types;

pub use crate::types::CredentialsIpc;
pub mod codec;
pub mod index;
pub mod repository;
mod keychain;
pub mod commands;
