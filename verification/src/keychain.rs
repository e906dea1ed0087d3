//! The trusted boundary to the platform facilities: the operating system's
//! credential store and the identifier generator. Every call into an outside
//! crate stands here, behind a wrapper whose contract states only what holds
//! of every outcome.

use vstd::prelude::*;

verus! {

#[verifier::external_type_specification]
#[verifier::external_body]
pub struct ExEntry(keyring::Entry);

/// What a read of a store entry can come back with.
pub enum GetOutcome {
    /// The entry exists and holds this value.
    Found(String),
    /// The entry does not exist.
    Missing,
    /// The store rejected the read; the message describes why.
    Failure(String),
}

/// What a removal of a store entry can come back with.
pub enum DeleteOutcome {
    /// The entry is gone, whether or not it existed before the call.
    Removed,
    /// The store rejected the removal; the message describes why.
    Failure(String),
}

/// Relies on `keyring::Entry::new`: opens the credential-store entry of a
/// service and user. Which outcome comes back depends on the platform store;
/// an error is returned as its message.
#[verifier::external_body]
pub(crate) fn entry_new(service: &str, key: &str) -> Result<keyring::Entry, String> {
    match keyring::Entry::new(service, key) {
        Ok(e) => Ok(e),
        Err(e) => Err(format!("{e}")),
    }
}

/// Relies on `keyring::Entry::get_password`: reads the stored value. Its
/// `NoEntry` error is surfaced as `Missing`, every other error as `Failure`
/// with its message.
#[verifier::external_body]
pub(crate) fn entry_get(entry: &keyring::Entry) -> GetOutcome {
    match entry.get_password() {
        Ok(v) => GetOutcome::Found(v),
        Err(keyring::Error::NoEntry) => GetOutcome::Missing,
        Err(e) => GetOutcome::Failure(format!("{e}")),
    }
}

/// Relies on `keyring::Entry::set_password`: writes the value; an error is
/// returned as its message.
#[verifier::external_body]
pub(crate) fn entry_set(entry: &keyring::Entry, value: &str) -> Result<(), String> {
    match entry.set_password(value) {
        Ok(()) => Ok(()),
        Err(e) => Err(format!("{e}")),
    }
}

/// Relies on `keyring::Entry::delete_credential`: removes the entry. Its
/// `NoEntry` error counts as success, so removal is idempotent; every other
/// error is surfaced as `Failure` with its message.
#[verifier::external_body]
pub(crate) fn entry_delete(entry: &keyring::Entry) -> DeleteOutcome {
    match entry.delete_credential() {
        Ok(()) => DeleteOutcome::Removed,
        Err(keyring::Error::NoEntry) => DeleteOutcome::Removed,
        Err(e) => DeleteOutcome::Failure(format!("{e}")),
    }
}

/// Relies on `uuid::Uuid::new_v4` and its hyphenated text form: a fresh
/// random version-4 identifier always prints as exactly 36 characters. The
/// value itself is random, so nothing more is claimed of it.
#[verifier::external_body]
pub(crate) fn fresh_id() -> (r: String)
    ensures
        r@.len() == 36,
{
    uuid::Uuid::new_v4().to_string()
}

} // verus!
