use rusty_vault::cipher::{
    checked_decrypt, decrypt_blocks, decrypt_slice, encrypt_slice, pkcs_padding_ok, same_bytes,
    strip_pkcs_padding, AesKeySize,
};

fn hex(s: &str) -> Vec<u8> {
    (0..s.len()).step_by(2).map(|i| u8::from_str_radix(&s[i..i + 2], 16).unwrap()).collect()
}

#[test]
fn aes256_cbc_first_block_matches_known_answer() {
    // NIST SP 800-38A, F.2.5 CBC-AES256.Encrypt, first block
    let key = hex("603deb1015ca71be2b73aef0857d77811f352c073b6108d72d9810a30914dff4");
    let iv = hex("000102030405060708090a0b0c0d0e0f");
    let plain = hex("6bc1bee22e409f96e93d7e117393172a");
    let cipher = encrypt_slice(AesKeySize::Aes256, &key, &iv, &plain);
    assert_eq!(cipher.len(), 32);
    assert_eq!(&cipher[..16], &hex("f58c4c04d6e5f1ba779eabfb5f7bfbd6")[..]);
    assert_eq!(decrypt_slice(AesKeySize::Aes256, &key, &iv, &cipher), plain);
    // without padding removal the first block is the plaintext, the second a full padding block
    let raw = decrypt_blocks(AesKeySize::Aes256, &key, &iv, &cipher);
    assert_eq!(&raw[..16], &plain[..]);
    assert_eq!(&raw[16..], &[16u8; 16][..]);
}

#[test]
fn aes192_round_trip_of_odd_length() {
    let key = vec![7u8; 24];
    let iv = vec![9u8; 16];
    let plain = b"twenty-one bytes long".to_vec();
    let cipher = encrypt_slice(AesKeySize::Aes192, &key, &iv, &plain);
    assert_eq!(cipher.len(), 32);
    assert_ne!(&cipher[..plain.len()], &plain[..]);
    assert_eq!(decrypt_slice(AesKeySize::Aes192, &key, &iv, &cipher), plain);
    assert_eq!(checked_decrypt(AesKeySize::Aes192, &key, &iv, &cipher), Some(plain));
}

#[test]
fn ciphertext_length_is_the_padded_length() {
    let key = vec![3u8; 32];
    let iv = vec![4u8; 16];
    for n in 1..70usize {
        let plain = vec![0x5au8; n];
        let cipher = encrypt_slice(AesKeySize::Aes256, &key, &iv, &plain);
        assert_eq!(cipher.len(), (n / 16 + 1) * 16);
        assert_eq!(decrypt_slice(AesKeySize::Aes256, &key, &iv, &cipher), plain);
    }
}

#[test]
fn empty_plaintext_encrypts_to_nothing() {
    // rust-crypto's block engine reports the end of input before padding
    // when it is given no input at all
    let key = vec![1u8; 32];
    let iv = vec![2u8; 16];
    let cipher = encrypt_slice(AesKeySize::Aes256, &key, &iv, &[]);
    assert_eq!(cipher.len(), 0);
    assert_eq!(decrypt_slice(AesKeySize::Aes256, &key, &iv, &cipher), Vec::<u8>::new());
}

#[test]
fn full_block_plaintext_gets_a_padding_block() {
    let key = vec![1u8; 32];
    let iv = vec![2u8; 16];
    let plain = vec![5u8; 16];
    let cipher = encrypt_slice(AesKeySize::Aes256, &key, &iv, &plain);
    assert_eq!(cipher.len(), 32);
    assert_eq!(decrypt_slice(AesKeySize::Aes256, &key, &iv, &cipher), plain);
}

#[test]
fn decrypting_a_partial_block_fails() {
    let key = vec![1u8; 32];
    let iv = vec![2u8; 16];
    assert!(checked_decrypt(AesKeySize::Aes256, &key, &iv, &[1, 2, 3]).is_none());
}

#[test]
fn padding_byte_zero_is_accepted_and_removes_nothing() {
    let key = vec![1u8; 32];
    let iv = vec![2u8; 16];
    let mut plain = vec![7u8; 32];
    plain[31] = 0;
    let mut cipher = encrypt_slice(AesKeySize::Aes256, &key, &iv, &plain);
    // dropping the padding block leaves blocks that decrypt to `plain`
    cipher.truncate(32);
    assert_eq!(checked_decrypt(AesKeySize::Aes256, &key, &iv, &cipher), Some(plain));
}

#[test]
fn padding_longer_than_a_block_is_refused() {
    let key = vec![1u8; 32];
    let iv = vec![2u8; 16];
    let plain = vec![0x20u8; 32];
    let mut cipher = encrypt_slice(AesKeySize::Aes256, &key, &iv, &plain);
    cipher.truncate(32);
    assert!(checked_decrypt(AesKeySize::Aes256, &key, &iv, &cipher).is_none());
}

#[test]
fn padding_checks() {
    assert!(pkcs_padding_ok(&[]));
    assert!(pkcs_padding_ok(&[9, 9, 9, 3, 3, 3]));
    assert!(!pkcs_padding_ok(&[9, 9, 9, 4, 3, 3]));
    assert!(!pkcs_padding_ok(&[17; 17]));
    assert_eq!(strip_pkcs_padding(vec![9, 9, 9, 3, 3, 3]), vec![9, 9, 9]);
}

#[test]
fn byte_comparison() {
    assert!(same_bytes(&[1, 2, 3], &[1, 2, 3]));
    assert!(!same_bytes(&[1, 2, 3], &[1, 2, 4]));
    assert!(!same_bytes(&[1, 2], &[1, 2, 3]));
}
