use keez::keychain_access::get_symmetric_key;
use keez::keychain_access::set_symmetric_key;
use keez::parameter_store::Parameter;
use keez::parameter_store::ParameterCollection;
use keez::symmetric_store::decrypt;
use keez::symmetric_store::encrypt;
use keez::symmetric_store::CryptoError;
use keez::symmetric_store::ImportError;
use keez::symmetric_store::open;
use keez::symmetric_store::open_collection;
use keez::symmetric_store::seal;
use keez::symmetric_store::seal_collection;

const PASS: &str = "a passphrase long enough for testing";

/// The keychain-backed tests pin keyring's in-memory mock store, so that
/// they exercise the get-or-create logic without touching (or requiring)
/// the host's own credential store.
fn use_in_memory_keystore() {
    keyring::set_default_credential_builder(keyring::mock::default_credential_builder());
}

#[test]
fn seal_refuses_an_empty_passphrase() {
    assert!(matches!(seal("", "text"), Err(CryptoError::SealFailed)));
}

#[test]
fn open_undoes_seal() {
    let sealed = seal(PASS, "the quick brown fox").unwrap();
    let opened = open(PASS, &sealed).unwrap();
    assert_eq!(opened, "the quick brown fox");
}

#[test]
fn open_fails_with_the_wrong_passphrase() {
    let sealed = seal(PASS, "text").unwrap();
    assert!(matches!(
        open("another passphrase entirely", &sealed),
        Err(CryptoError::OpenFailed)
    ));
}

#[test]
fn open_fails_on_tampered_bytes() {
    let sealed = seal(PASS, "tamper target").unwrap();
    let positions = [0, sealed.len() / 2, sealed.len() - 1];
    for &pos in positions.iter() {
        let mut tampered = sealed.clone();
        tampered[pos] ^= 0x01;
        assert!(matches!(open(PASS, &tampered), Err(CryptoError::OpenFailed)));
    }
}

#[test]
fn sealed_collections_come_back_equal() {
    let mut c = ParameterCollection::new(String::from("/env"));
    c.insert(
        String::from("/env/db_password"),
        Parameter::new(String::from("s3cret\nwith newline"), String::from("SecureString")),
    );
    c.insert(
        String::from("/env/hosts"),
        Parameter::new(String::from("a,b"), String::from("StringList")),
    );
    let sealed = seal_collection(PASS, &c).unwrap();
    let back = open_collection(PASS, &sealed).unwrap();
    assert_eq!(back, c);
}

#[test]
fn tampered_export_never_imports() {
    let mut c = ParameterCollection::new(String::from("/env"));
    c.insert(
        String::from("/env/key"),
        Parameter::new(String::from("v"), String::from("String")),
    );
    let sealed = seal_collection(PASS, &c).unwrap();
    let mut tampered = sealed.clone();
    let mid = tampered.len() / 2;
    tampered[mid] ^= 0xff;
    assert!(matches!(
        open_collection(PASS, &tampered),
        Err(ImportError::Crypto(CryptoError::OpenFailed))
    ));
}

#[test]
fn opened_text_that_is_not_a_document_fails_the_import() {
    let sealed = seal(PASS, "not a parameter document\n").unwrap();
    assert!(matches!(
        open_collection(PASS, &sealed),
        Err(ImportError::Format(_))
    ));
}

#[test]
fn generated_keys_are_long_random_alphanumerics() {
    use_in_memory_keystore();
    let key = set_symmetric_key().unwrap();
    assert_eq!(key.len(), 128);
    assert!(key.chars().all(|c| c.is_ascii_alphanumeric()));
    let other = set_symmetric_key().unwrap();
    assert_ne!(key, other);
}

#[test]
fn a_symmetric_key_is_served_on_first_use() {
    use_in_memory_keystore();
    let key = get_symmetric_key().unwrap();
    assert!(!key.is_empty());
}

#[test]
fn encrypt_produces_a_sealed_blob() {
    use_in_memory_keystore();
    let sealed = encrypt(String::from("payload")).unwrap();
    assert!(!sealed.is_empty());
}

#[test]
fn decrypt_rejects_garbage() {
    use_in_memory_keystore();
    assert!(decrypt(vec![1, 2, 3]).is_err());
}

#[test]
fn open_refuses_an_overflowing_iteration_count() {
    // A header may declare any 64-bit iteration count; one that is a
    // nonzero multiple of 2^32 must be refused, never run.
    let mut kd = tindercrypt::metadata::KeyDerivationMetadata::generate();
    kd.iterations = 1usize << 32;
    let enc = tindercrypt::metadata::EncryptionMetadata::generate();
    let meta = tindercrypt::metadata::Metadata::new(
        tindercrypt::metadata::KeyDerivationAlgorithm::PBKDF2(kd),
        tindercrypt::metadata::EncryptionAlgorithm::AES256GCM(enc),
        4,
    );
    let (buf, _meta_size) = meta.to_buf();
    assert!(matches!(open(PASS, &buf), Err(CryptoError::OpenFailed)));
}
