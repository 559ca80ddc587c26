use rusty_vault::cipher::{decrypt_slice, encrypt_slice, AesKeySize};
use rusty_vault::vault::{SealedVault, UnsealError, Vault};

fn to_bytes(sealed: &SealedVault) -> Vec<u8> {
    let fields = (
        sealed.encrypted_key.clone(),
        sealed.encrypted_vault.clone(),
        sealed.key_iv,
        sealed.vault_iv,
        sealed.salt,
        sealed.pass_key_hash,
    );
    serde_cbor::to_vec(&fields).unwrap()
}

fn from_bytes(bytes: &[u8]) -> SealedVault {
    let (encrypted_key, encrypted_vault, key_iv, vault_iv, salt, pass_key_hash): (
        Vec<u8>,
        Vec<u8>,
        [u8; 16],
        [u8; 16],
        [u8; 16],
        [u8; 24],
    ) = serde_cbor::from_slice(bytes).unwrap();
    SealedVault { encrypted_key, encrypted_vault, key_iv, vault_iv, salt, pass_key_hash }
}

#[test]
fn vault_new() {
    let _v = Vault::new();
}

#[test]
fn vault_set_get() {
    let mut v = Vault::new();
    assert!(v.get("group").is_none());
    v.add("group", "key", "value");
    assert!(v.get("group").is_some());
    assert_eq!(v.get("group").unwrap().get("key").unwrap(), "value");
}

#[test]
fn vault_lock_unlock() {
    let mut v = Vault::new();

    v.add("foo", "bar", "baz");

    let sealed = v.seal("mypassword").unwrap();

    let sealed_bytes = to_bytes(&sealed);
    let sealed = from_bytes(&sealed_bytes);

    let v = sealed.unseal("mypassword").unwrap();
    assert_eq!(v.get("foo").unwrap().get("bar"), Some("baz".to_string()).as_ref());
}

#[test]
fn new_vault_has_no_groups() {
    let v = Vault::new();
    assert!(v.keys().is_empty());
}

#[test]
fn add_replaces_value_under_same_key() {
    let mut v = Vault::new();
    v.add("g", "k", "first");
    v.add("g", "k", "second");
    assert_eq!(v.get("g").unwrap().get("k").unwrap(), "second");
    assert_eq!(v.get("g").unwrap().keys().len(), 1);
}

#[test]
fn add_leaves_other_groups_and_keys() {
    let mut v = Vault::new();
    v.add("g", "a", "1");
    v.add("h", "b", "2");
    v.add("g", "c", "3");
    assert_eq!(v.get("g").unwrap().get("a").unwrap(), "1");
    assert_eq!(v.get("g").unwrap().get("c").unwrap(), "3");
    assert_eq!(v.get("h").unwrap().get("b").unwrap(), "2");
    assert!(v.get("h").unwrap().get("a").is_none());
    assert!(v.get("missing").is_none());
}

#[test]
fn keys_lists_each_group_once() {
    let mut v = Vault::new();
    v.add("g", "a", "1");
    v.add("h", "b", "2");
    v.add("g", "c", "3");
    let mut keys: Vec<String> = v.keys().into_iter().cloned().collect();
    keys.sort();
    assert_eq!(keys, vec!["g".to_string(), "h".to_string()]);
    let mut group_keys: Vec<String> = v.get("g").unwrap().keys().into_iter().cloned().collect();
    group_keys.sort();
    assert_eq!(group_keys, vec!["a".to_string(), "c".to_string()]);
}

#[test]
fn seal_then_unseal_gives_back_every_secret() {
    let mut v = Vault::new();
    v.add("mail", "user", "alice");
    v.add("mail", "pass", "s3cr3t");
    v.add("bank", "pin", "1234");
    let sealed = v.seal("pw").unwrap();
    let v = sealed.unseal("pw").unwrap();
    assert_eq!(v.get("mail").unwrap().get("user").unwrap(), "alice");
    assert_eq!(v.get("mail").unwrap().get("pass").unwrap(), "s3cr3t");
    assert_eq!(v.get("bank").unwrap().get("pin").unwrap(), "1234");
    assert_eq!(v.keys().len(), 2);
}

#[test]
fn unseal_with_wrong_password_fails() {
    let mut v = Vault::new();
    v.add("foo", "bar", "baz");
    let sealed = v.seal("right").unwrap();
    let result = sealed.unseal("wrong");
    assert!(matches!(result.err(), Some(UnsealError::WrongPassword)));
}

#[test]
fn sealed_vault_hides_its_contents() {
    let mut v = Vault::new();
    v.add("foo", "bar", "baz");
    let sealed = v.seal("mypassword").unwrap();
    // a 32-byte key with PKCS padding takes three AES blocks
    assert_eq!(sealed.encrypted_key.len(), 48);
    assert_eq!(sealed.encrypted_vault.len() % 16, 0);
    assert!(!sealed.encrypted_vault.windows(3).any(|w| w == b"baz"));
    assert_ne!(sealed.pass_key_hash, [0u8; 24]);
}

#[test]
fn unseal_reports_corrupt_key() {
    let v = Vault::new();
    let mut sealed = v.seal("pw").unwrap();
    sealed.encrypted_key.truncate(40);
    assert!(matches!(sealed.unseal("pw").err(), Some(UnsealError::BadKey)));
}

#[test]
fn unseal_reports_corrupt_data() {
    let v = Vault::new();
    let mut sealed = v.seal("pw").unwrap();
    sealed.encrypted_vault.push(0);
    assert!(matches!(sealed.unseal("pw").err(), Some(UnsealError::BadData)));
}

#[test]
fn unseal_error_messages() {
    assert_eq!(UnsealError::WrongPassword.message(), "wrong password");
    assert!(!UnsealError::BadKey.message().is_empty());
}

#[test]
fn get_after_a_sequence_of_adds() {
    let mut v = Vault::new();
    let adds = [("a", "x", "1"), ("b", "y", "2"), ("a", "x", "3"), ("a", "z", "4")];
    for (g, k, x) in adds.iter() {
        v.add(g, k, x);
    }
    assert_eq!(v.get("a").unwrap().get("x").unwrap(), "3");
    assert_eq!(v.get("a").unwrap().get("z").unwrap(), "4");
    assert!(v.get("a").unwrap().get("y").is_none());
    assert_eq!(v.get("b").unwrap().get("y").unwrap(), "2");
    assert!(v.get("c").is_none());
}

#[test]
fn sealed_vault_has_debug() {
    let sealed = Vault::new().seal("pw").unwrap();
    assert!(format!("{:?}", sealed).starts_with("SealedVault"));
}

#[test]
fn sealed_lengths_are_the_padded_lengths() {
    let mut v = Vault::new();
    v.add("foo", "bar", "baz");
    let sealed = v.seal("mypassword").unwrap();
    assert_eq!(sealed.encrypted_key.len(), 48);
    let mut contents = std::collections::HashMap::new();
    let mut group = std::collections::HashMap::new();
    group.insert("bar".to_string(), "baz".to_string());
    contents.insert("foo".to_string(), group);
    let plain_len = serde_cbor::to_vec(&contents).unwrap().len();
    assert_eq!(sealed.encrypted_vault.len(), (plain_len / 16 + 1) * 16);
}

#[test]
fn unseal_reports_cbor_error_of_malformed_data() {
    let sealed = Vault::new().seal("pw").unwrap();
    let pass_key = bcrypt::bcrypt(bcrypt::DEFAULT_COST, sealed.salt, b"pw");
    let key = decrypt_slice(AesKeySize::Aes192, &pass_key, &sealed.key_iv, &sealed.encrypted_key);
    let garbage = encrypt_slice(AesKeySize::Aes256, &key, &sealed.vault_iv, &[0xff, 0x00, 0x13]);
    let tampered = SealedVault { encrypted_vault: garbage, ..sealed };
    match tampered.unseal("pw") {
        Err(UnsealError::Malformed(e)) => assert!(!e.to_string().is_empty()),
        other => panic!("expected a CBOR error, got {:?}", other.err()),
    }
}
