//! Sealing and opening of export payloads with authenticated symmetric
//! encryption under the provider's key, and the composed export/import
//! paths that route a collection through the codec and the seal.

use vstd::prelude::*;

use crate::codec::FormatError;
use crate::codec::FormatErrorModel;
use crate::codec::deserialize;
use crate::codec::parse_spec;
use crate::codec::serialize;
use crate::codec::serialize_spec;
use crate::keychain_access::get_symmetric_key;
use crate::parameter_store::CollectionModel;
use crate::parameter_store::ParameterCollection;

verus! {

/// An encryption or decryption failure.  Fatal: opening never yields
/// partial or unauthenticated text.
#[derive(Clone, Copy, Debug, PartialEq, Eq, Structural)]
pub enum CryptoError {
    /// The symmetric key could not be obtained from the secret provider.
    KeyUnavailable,
    /// Sealing failed in the underlying scheme.
    SealFailed,
    /// The sealed bytes failed authentication or decryption (tampered
    /// data or a wrong passphrase), or did not decode to text.
    OpenFailed,
}

/// What opening yields for a given passphrase and sealed bytes: the
/// sealed text, or nothing when authentication, decryption or decoding
/// fails.  The sealed buffer carries its own salt and nonce, so this is
/// a function of the passphrase and the bytes alone, the same in every
/// process and on every machine.
pub uninterp spec fn opened_of(pass: Seq<char>, data: Seq<u8>) -> Option<Seq<char>>;

/// Text the sealing scheme accepts.  The AEAD refuses inputs beyond
/// about 2^36 bytes — a machine limit of the cipher — and the underlying
/// library aborts there rather than return; a character is at most four
/// bytes, so this character bound keeps every admitted text under the
/// cap.
pub open spec fn sealable_text(s: Seq<char>) -> bool {
    4 * s.len() <= 0xf_ffff_ffe0
}

/// Relies on tindercrypt's `RingCryptor::seal_with_passphrase`: the
/// returned buffer is self-contained (it carries the salt, nonce and
/// iteration count of the scheme, the count a fixed value far below 32
/// bits), and opening it with the same passphrase returns exactly the
/// sealed bytes; `as_bytes` and `from_utf8` carry the text through UTF-8
/// unchanged.  With the plaintext under the cipher's input cap, the only
/// failure left is an empty passphrase, which the key derivation
/// rejects; past the cap the library aborts instead of returning, so
/// such a plaintext is left out.
#[verifier::external_body]
fn seal_str(pass: &str, plaintext: &str) -> (r: Result<Vec<u8>, CryptoError>)
    requires
        sealable_text(plaintext@),
    ensures
        pass@.len() > 0 ==> r is Ok,
        r matches Ok(ct) ==> opened_of(pass@, ct@) == Some(plaintext@) && iteration_count_sane(
            iterations_of(ct@),
        ),
        r matches Err(e) ==> e == CryptoError::SealFailed,
{
    let cryptor = tindercrypt::cryptors::RingCryptor::new();
    cryptor.seal_with_passphrase(pass.as_bytes(), plaintext.as_bytes()).map_err(
        |_e| CryptoError::SealFailed,
    )
}

/// The key-derivation iteration count the sealed buffer's header
/// declares, when it declares one: a deterministic parse of the bytes
/// alone.
pub uninterp spec fn iterations_of(data: Seq<u8>) -> Option<u64>;

/// Relies on tindercrypt's `Metadata::from_buf`: the header a sealed
/// buffer carries is parsed from the bytes alone.  Hands back the
/// PBKDF2 iteration count the header declares, or nothing when there is
/// no such count (no well-formed header, or key-based sealing without
/// derivation).
#[verifier::external_body]
fn sealed_iteration_count(data: &[u8]) -> (r: Option<u64>)
    ensures
        r == iterations_of(data@),
{
    match tindercrypt::metadata::Metadata::from_buf(data) {
        Err(_) => None,
        Ok((meta, _size)) => match meta.key_deriv_algo {
            tindercrypt::metadata::KeyDerivationAlgorithm::None => None,
            tindercrypt::metadata::KeyDerivationAlgorithm::PBKDF2(kd) => Some(kd.iterations as u64),
        },
    }
}

/// An iteration count the key-derivation step can actually run.  The
/// header may declare any 64-bit count, but the scheme runs it through
/// 32-bit arithmetic: a nonzero multiple of 2^32 would truncate to zero
/// and abort inside the library rather than return, so such a header is
/// refused before opening (and with it any count beyond 32 bits, none of
/// which this library's sealing ever writes).
pub open spec fn iteration_count_sane(count: Option<u64>) -> bool {
    match count {
        Some(n) => n <= 0xffff_ffff,
        None => true,
    }
}

/// Relies on tindercrypt's `RingCryptor::open`: a deterministic function
/// of the passphrase and the sealed bytes, which fails rather than yield
/// garbage on tampered data or a wrong passphrase; the decrypted bytes
/// are decoded from UTF-8, failing likewise when they are not text.  A
/// header whose iteration count overflows the scheme's 32-bit arithmetic
/// would abort instead of failing, so callers screen it out first.
#[verifier::external_body]
fn open_str(pass: &str, data: &[u8]) -> (r: Result<String, CryptoError>)
    requires
        iteration_count_sane(iterations_of(data@)),
    ensures
        r matches Ok(pt) ==> opened_of(pass@, data@) == Some(pt@),
        r is Err ==> opened_of(pass@, data@) is None,
        r matches Err(e) ==> e == CryptoError::OpenFailed,
{
    let cryptor = tindercrypt::cryptors::RingCryptor::new();
    match cryptor.open(pass.as_bytes(), data) {
        Err(_) => Err(CryptoError::OpenFailed),
        Ok(bytes) => match String::from_utf8(bytes) {
            Ok(text) => Ok(text),
            Err(_) => Err(CryptoError::OpenFailed),
        },
    }
}

/// Seals text under an explicit passphrase.  The output is
/// self-contained and portable to another process holding the same
/// passphrase, and its header always carries an openable iteration
/// count, so a sealed text is guaranteed to open back to itself.
/// Sealing succeeds for every non-empty passphrase and every text under
/// the cipher's input cap; a text beyond the cap is refused outright.
pub fn seal(pass: &str, plaintext: &str) -> (r: Result<Vec<u8>, CryptoError>)
    ensures
        pass@.len() > 0 && sealable_text(plaintext@) ==> r is Ok,
        r matches Ok(ct) ==> opened_of(pass@, ct@) == Some(plaintext@) && iteration_count_sane(
            iterations_of(ct@),
        ),
        r matches Err(e) ==> e == CryptoError::SealFailed,
{
    let n = plaintext.unicode_len();
    if (n as u64) > 0x3_ffff_fff8u64 {
        return Err(CryptoError::SealFailed);
    }
    proof {
        assert(sealable_text(plaintext@));
    }
    seal_str(pass, plaintext)
}

/// Opens sealed bytes under an explicit passphrase.  Fails hard on
/// tampered or wrong-key data: it never returns altered text.  A header
/// declaring an iteration count beyond 32 bits is refused outright, so
/// a crafted buffer cannot drive the key derivation into an abort.
pub fn open(pass: &str, data: &Vec<u8>) -> (r: Result<String, CryptoError>)
    ensures
        r matches Ok(pt) ==> opened_of(pass@, data@) == Some(pt@),
        r is Err ==> opened_of(pass@, data@) is None || !iteration_count_sane(
            iterations_of(data@),
        ),
        r matches Err(e) ==> e == CryptoError::OpenFailed,
{
    let count_sane = match sealed_iteration_count(data.as_slice()) {
        Some(n) => n <= 0xffff_ffffu64,
        None => true,
    };
    if !count_sane {
        return Err(CryptoError::OpenFailed);
    }
    open_str(pass, data.as_slice())
}

/// Seals text under the provider's key: the passphrase is obtained from
/// the secret provider, creating one on first use.
pub fn encrypt(input: String) -> (r: Result<Vec<u8>, CryptoError>)
    ensures
        r matches Ok(ct) ==> (exists|pass: Seq<char>|
            #[trigger] opened_of(pass, ct@) == Some(input@)) && iteration_count_sane(
            iterations_of(ct@),
        ),
        r matches Err(e) ==> e == CryptoError::KeyUnavailable || e == CryptoError::SealFailed,
{
    let pass = match get_symmetric_key() {
        Ok(p) => p,
        Err(_) => {
            return Err(CryptoError::KeyUnavailable);
        },
    };
    let r = seal(pass.as_str(), input.as_str());
    proof {
        if r is Ok {
            assert(opened_of(pass@, r->Ok_0@) == Some(input@));
        }
    }
    r
}

/// Opens sealed bytes under the provider's key.
pub fn decrypt(input: Vec<u8>) -> (r: Result<String, CryptoError>)
    ensures
        r matches Ok(pt) ==> exists|pass: Seq<char>|
            #[trigger] opened_of(pass, input@) == Some(pt@),
        r matches Err(e) ==> e == CryptoError::KeyUnavailable || e == CryptoError::OpenFailed,
{
    let pass = match get_symmetric_key() {
        Ok(p) => p,
        Err(_) => {
            return Err(CryptoError::KeyUnavailable);
        },
    };
    let r = open(pass.as_str(), &input);
    proof {
        if r is Ok {
            assert(opened_of(pass@, input@) == Some(r->Ok_0@));
        }
    }
    r
}

/// A failure on the import path: the seal could not be opened, or the
/// opened text could not be parsed.
#[derive(Debug)]
pub enum ImportError {
    Crypto(CryptoError),
    Format(FormatError),
}

/// The compute half of an export: the collection's textual form, sealed
/// under the given passphrase.  Succeeds whenever the passphrase is
/// non-empty and the text fits under the cipher's input cap, and the
/// sealed bytes are then guaranteed to open back to that text.
pub fn seal_collection(pass: &str, collection: &ParameterCollection) -> (r: Result<
    Vec<u8>,
    CryptoError,
>)
    ensures
        pass@.len() > 0 && sealable_text(serialize_spec(collection@)) ==> r is Ok,
        r matches Ok(ct) ==> opened_of(pass@, ct@) == Some(serialize_spec(collection@))
            && iteration_count_sane(iterations_of(ct@)),
        r matches Err(e) ==> e == CryptoError::SealFailed,
{
    let text = serialize(collection);
    seal(pass, text.as_str())
}

/// The compute half of an import: the sealed bytes opened under the
/// given passphrase and parsed back into a collection.  Tampered bytes
/// fail at the seal; a parse failure of opened text is reported apart.
pub fn open_collection(pass: &str, data: &Vec<u8>) -> (r: Result<ParameterCollection, ImportError>)
    ensures
        match r {
            Ok(c) => {
                &&& c.wf()
                &&& opened_of(pass@, data@) matches Some(t) && parse_spec(t) == Ok::<
                    CollectionModel,
                    FormatErrorModel,
                >(c@)
            },
            Err(ImportError::Crypto(e)) => e == CryptoError::OpenFailed && (opened_of(
                pass@,
                data@,
            ) is None || !iteration_count_sane(iterations_of(data@))),
            Err(ImportError::Format(e)) => opened_of(pass@, data@) matches Some(t) && parse_spec(t)
                == Err::<CollectionModel, FormatErrorModel>(e@),
        },
{
    let text = match open(pass, data) {
        Err(e) => {
            return Err(ImportError::Crypto(e));
        },
        Ok(t) => t,
    };
    match deserialize(text.as_str()) {
        Err(e) => Err(ImportError::Format(e)),
        Ok(c) => Ok(c),
    }
}

} // verus!
