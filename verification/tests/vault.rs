use linkscope::vault::{Vault, VaultError, check_size};

#[test]
fn keys_are_held_by_source() {
    let mut v = Vault::default();
    assert_eq!(v.get("shodan"), None);
    v.set("shodan".to_string(), "k1".to_string());
    v.set("urlscan".to_string(), "k2".to_string());
    v.set("shodan".to_string(), "k3".to_string());
    assert_eq!(v.get("shodan"), Some("k3".to_string()));
    assert_eq!(v.get("urlscan"), Some("k2".to_string()));
}

#[test]
fn locking_forgets_every_key() {
    let mut v = Vault::default();
    v.set("a".to_string(), "1".to_string());
    v.lock();
    assert_eq!(v.get("a"), None);
    assert_eq!(v.plaintext(), "{}");
}

#[test]
fn plaintext_is_a_sorted_json_object() {
    let mut v = Vault::default();
    v.set("b".to_string(), "x\"y".to_string());
    v.set("a".to_string(), "z".to_string());
    assert_eq!(v.plaintext(), "{\"a\":\"z\",\"b\":\"x\\\"y\"}");
}

#[test]
fn short_passphrases_are_refused() {
    let v = Vault::default();
    assert_eq!(v.seal("short").err(), Some(VaultError::ShortPassphrase));
    assert_eq!(v.seal("elevenchars").err(), Some(VaultError::ShortPassphrase));
    assert_eq!(VaultError::ShortPassphrase.message(), "passphrase must contain at least 12 characters");
}

#[test]
fn sealed_vaults_unseal_with_the_passphrase_only() {
    let mut v = Vault::default();
    v.set("shodan".to_string(), "secret-key".to_string());
    let sealed = v.seal("correct horse battery").unwrap();
    assert!(!sealed.windows(10).any(|w| w == b"secret-key"));
    let mut w = Vault::default();
    w.set("stale".to_string(), "old".to_string());
    assert_eq!(w.unseal(sealed.len() as u64, &sealed, "wrong passphrase!"), Err(VaultError::Decryption));
    assert_eq!(w.get("stale"), Some("old".to_string()));
    assert_eq!(w.unseal(sealed.len() as u64, &sealed, "correct horse battery"), Ok(()));
    assert_eq!(w.get("shodan"), Some("secret-key".to_string()));
    assert_eq!(w.get("stale"), None);
}

#[test]
fn tampered_vaults_do_not_open() {
    let v = Vault::default();
    let mut sealed = v.seal("correct horse battery").unwrap();
    let last = sealed.len() - 1;
    sealed[last] ^= 1;
    let mut w = Vault::default();
    assert_eq!(w.unseal(sealed.len() as u64, &sealed, "correct horse battery"), Err(VaultError::Decryption));
}

#[test]
fn vault_files_over_1_mib_are_not_read() {
    assert_eq!(check_size(1024 * 1024), Ok(()));
    assert_eq!(check_size(1024 * 1024 + 1), Err(VaultError::TooLarge));
    let mut w = Vault::default();
    assert_eq!(w.unseal(2 * 1024 * 1024, b"", "correct horse battery"), Err(VaultError::TooLarge));
}

#[test]
fn loading_replaces_keys_or_refuses_non_maps() {
    let mut v = Vault::default();
    v.set("old".to_string(), "1".to_string());
    assert_eq!(v.load(b"[1,2]"), Err(VaultError::Corrupt));
    assert_eq!(v.get("old"), Some("1".to_string()));
    assert_eq!(v.load(b"{\"a\":\"k\"}"), Ok(()));
    assert_eq!(v.get("a"), Some("k".to_string()));
    assert_eq!(v.get("old"), None);
}

#[test]
fn saving_then_unlocking_gives_back_the_same_keys() {
    let mut v = Vault::default();
    v.set("a".to_string(), "k\"1".to_string());
    v.set("b".to_string(), "é2".to_string());
    let sealed = v.seal("correct horse battery").unwrap();
    let mut w = Vault::default();
    w.set("c".to_string(), "3".to_string());
    assert_eq!(w.unseal(sealed.len() as u64, &sealed, "correct horse battery"), Ok(()));
    assert_eq!(w.plaintext(), v.plaintext());
    assert_eq!(w.get("c"), None);
    let mut x = Vault::default();
    assert_eq!(x.load(v.plaintext().as_bytes()), Ok(()));
    assert_eq!(x.get("b"), Some("é2".to_string()));
}
