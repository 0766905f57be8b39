//! The secret provider: a single long-lived symmetric key held in the
//! platform's secure credential store, generated lazily on first use.
//! Idempotent in its value: once a key has been stored, later calls on
//! the same host return the same key.

use vstd::prelude::*;

use rand::RngExt;

verus! {

/// A secret-provider failure: the backing secure store could not serve
/// or persist the key.  Fatal, since no sealing or opening can proceed
/// without the key.
#[derive(Clone, Copy, Debug, PartialEq, Eq, Structural)]
pub enum SecretError {
    Unavailable,
}

/// The keychain's answer when the read did not yield a secret: a plain
/// miss, or a backend failure.
enum KeychainReadError {
    NotFound,
    Backend,
}

/// Relies on keyring's `Entry::new` and `Entry::get_password`: reads the
/// secret stored under the given service and user names, reporting a
/// missing entry (keyring's `NoEntry`) apart from any backend failure.
/// What comes back depends on the host's credential store.
#[verifier::external_body]
fn keychain_get(service: &str, user: &str) -> (r: Result<String, KeychainReadError>) {
    match keyring::Entry::new(service, user) {
        Err(_) => Err(KeychainReadError::Backend),
        Ok(entry) => match entry.get_password() {
            Ok(secret) => Ok(secret),
            Err(keyring::Error::NoEntry) => Err(KeychainReadError::NotFound),
            Err(_) => Err(KeychainReadError::Backend),
        },
    }
}

/// Relies on keyring's `Entry::new` and `Entry::set_password`: persists
/// the secret under the given service and user names.
#[verifier::external_body]
fn keychain_set(service: &str, user: &str, secret: &str) -> (r: Result<(), SecretError>) {
    match keyring::Entry::new(service, user) {
        Err(_) => Err(SecretError::Unavailable),
        Ok(entry) => match entry.set_password(secret) {
            Ok(()) => Ok(()),
            Err(_) => Err(SecretError::Unavailable),
        },
    }
}

/// A character the key alphabet admits: a-z, A-Z or 0-9.
pub open spec fn is_key_char(c: char) -> bool {
    ('a' <= c && c <= 'z') || ('A' <= c && c <= 'Z') || ('0' <= c && c <= '9')
}

/// Every character of the string is drawn from the key alphabet.
pub open spec fn is_key_material(s: Seq<char>) -> bool {
    forall|i: int| 0 <= i < s.len() ==> is_key_char(s[i])
}

/// Relies on rand's thread-local generator with the `Alphanumeric`
/// distribution: 128 characters drawn from a-z, A-Z and 0-9.  The draw
/// is random; the length and the alphabet hold of every outcome.
#[verifier::external_body]
fn random_alphanumeric_key() -> (r: String)
    ensures
        r@.len() == 128,
        is_key_material(r@),
{
    rand::rng().sample_iter(&rand::distr::Alphanumeric).take(128).map(char::from).collect()
}

/// The stored key for symmetric encryption of exported parameters.  If
/// none exists yet (for example on first invocation), a fresh key is
/// generated and persisted before being returned, so that a later call
/// on the same host returns the same key.  Only a missing key is
/// recovered this way; any other failure of the store is passed up.
pub fn get_symmetric_key() -> (r: Result<String, SecretError>)
    ensures
        r matches Err(e) ==> e == SecretError::Unavailable,
{
    match keychain_get("keez", "temporary symmetric key") {
        Ok(item) => Ok(item),
        Err(KeychainReadError::NotFound) => set_symmetric_key(),
        Err(KeychainReadError::Backend) => Err(SecretError::Unavailable),
    }
}

/// Generates a fresh random key, persists it in the credential store,
/// and returns it.
pub fn set_symmetric_key() -> (r: Result<String, SecretError>)
    ensures
        r matches Ok(k) ==> k@.len() == 128 && is_key_material(k@),
        r matches Err(e) ==> e == SecretError::Unavailable,
{
    let rand_string = random_alphanumeric_key();
    match keychain_set("keez", "temporary symmetric key", rand_string.as_str()) {
        Ok(()) => Ok(rand_string),
        Err(e) => Err(e),
    }
}

} // verus!
