//! The cryptographic primitives the vault is sealed with: AES in CBC mode
//! with PKCS padding and bcrypt, both from outside crates, and the operating
//! system's random number generator.

use crypto::blockmodes::{NoPadding, PkcsPadding};
use crypto::buffer::{BufferResult, RefReadBuffer, RefWriteBuffer, WriteBuffer};
use crypto::symmetriccipher::SymmetricCipherError;
use rand::RngCore;
use vstd::prelude::*;

verus! {

#[verifier::external_type_specification]
#[verifier::external_body]
pub struct ExSymmetricCipherError(SymmetricCipherError);

/// The AES key sizes the vault uses.
#[derive(Clone, Copy, PartialEq, Eq, Debug)]
pub enum AesKeySize {
    Aes192,
    Aes256,
}

impl AesKeySize {
    /// The number of key bytes of this key size.
    pub open spec fn key_len(self) -> nat {
        match self {
            AesKeySize::Aes192 => 24,
            AesKeySize::Aes256 => 32,
        }
    }
}

/// The length of an AES block in bytes.
pub const AES_BLOCK_LEN: usize = 16;

/// How one call of the block cipher ended: all output written, with its
/// length, or the output buffer full before the end.
enum CipherProgress {
    Done(usize),
    OutputFull,
}

/// The ciphertext that rust-crypto's AES-CBC encryptor with PKCS padding
/// produces for `data` under `key` and `iv`.
pub uninterp spec fn aes_cbc_encrypt(
    key_size: AesKeySize,
    key: Seq<u8>,
    iv: Seq<u8>,
    data: Seq<u8>,
) -> Seq<u8>;

/// The bytes that rust-crypto's AES-CBC decryptor without padding recovers
/// from the whole blocks `data` under `key` and `iv`.
pub uninterp spec fn aes_cbc_decrypt_raw(
    key_size: AesKeySize,
    key: Seq<u8>,
    iv: Seq<u8>,
    data: Seq<u8>,
) -> Seq<u8>;

/// The digest that `bcrypt::bcrypt` computes at `bcrypt::DEFAULT_COST` for
/// `password` with `salt`.
pub uninterp spec fn bcrypt_digest(salt: Seq<u8>, password: Seq<u8>) -> Seq<u8>;

/// PKCS padding as rust-crypto's encryptor applies it: `p` bytes of value
/// `p` that fill the last block, a whole block where `data` fills its last
/// block; no input at all is left as it is.
pub open spec fn pkcs_pad(data: Seq<u8>) -> Seq<u8> {
    if data.len() == 0 {
        data
    } else {
        let p = AES_BLOCK_LEN - data.len() % (AES_BLOCK_LEN as nat);
        data + Seq::new(p as nat, |i: int| p as u8)
    }
}

/// Removal of PKCS padding as rust-crypto's decryptor performs it: the last
/// byte `b` tells how many bytes to drop, all of which must equal `b`; no
/// bytes at all are left as they are. `None` where the decryptor reports bad
/// padding, and where `b` is more than a block, on which it panics.
pub open spec fn pkcs_strip(raw: Seq<u8>) -> Option<Seq<u8>> {
    if raw.len() == 0 {
        Some(raw)
    } else {
        let b = raw.last();
        if b <= AES_BLOCK_LEN && b <= raw.len() && forall|i: int|
            raw.len() - b <= i < raw.len() ==> #[trigger] raw[i] == b {
            Some(raw.take(raw.len() - b))
        } else {
            None
        }
    }
}

/// AES-CBC decryption with PKCS padding: whole blocks decrypted, then the
/// padding removed. `None` where the length is no multiple of the block or
/// the padding is not accepted.
pub open spec fn cbc_pkcs_decrypt(
    key_size: AesKeySize,
    key: Seq<u8>,
    iv: Seq<u8>,
    data: Seq<u8>,
) -> Option<Seq<u8>> {
    if data.len() % (AES_BLOCK_LEN as nat) != 0 {
        None
    } else {
        pkcs_strip(aes_cbc_decrypt_raw(key_size, key, iv, data))
    }
}

/// Removing the padding gives back what was padded.
pub proof fn lemma_pkcs_strip_pad(data: Seq<u8>)
    ensures
        pkcs_pad(data).len() % (AES_BLOCK_LEN as nat) == 0,
        pkcs_pad(data).len() <= data.len() + AES_BLOCK_LEN,
        pkcs_strip(pkcs_pad(data)) == Some(data),
{
    if data.len() > 0 {
        let p = AES_BLOCK_LEN - data.len() % (AES_BLOCK_LEN as nat);
        let padded = pkcs_pad(data);
        assert(padded.last() == p as u8);
        assert(padded.take(padded.len() - p) =~= data);
    }
}

/// Encrypts `data` with `crypto::aes::cbc_encryptor` (PKCS padding) in one
/// call of its `encrypt` with `eof` set, writing into `out`.
/// Trusted: the cipher object is a trait object that cannot cross into
/// verified code, so it is made and used here. With room for the whole
/// ciphertext (at most one block more than the input), the crate's block
/// engine runs to its finished state in that one call: it never reports a
/// full output buffer, and with PKCS padding it reports no error. The
/// ciphertext is the CBC encryption of the PKCS-padded data, so it is as long
/// as that, and the decryptor without padding recovers the padded data.
#[verifier::external_body]
fn cbc_encrypt_into(
    key_size: AesKeySize,
    key: &[u8],
    iv: &[u8],
    data: &[u8],
    out: &mut Vec<u8>,
) -> (progress: Result<CipherProgress, SymmetricCipherError>)
    requires
        key@.len() == key_size.key_len(),
        iv@.len() == AES_BLOCK_LEN,
        old(out)@.len() >= data@.len() + AES_BLOCK_LEN,
    ensures
        final(out)@.len() == old(out)@.len(),
        progress matches Ok(CipherProgress::Done(_)),
        progress matches Ok(CipherProgress::Done(n)) ==> {
            &&& n == pkcs_pad(data@).len()
            &&& n <= final(out)@.len()
            &&& final(out)@.take(n as int) == aes_cbc_encrypt(key_size, key@, iv@, data@)
            &&& aes_cbc_decrypt_raw(key_size, key@, iv@, final(out)@.take(n as int)) == pkcs_pad(
                data@,
            )
        },
{
    let size = match key_size {
        AesKeySize::Aes192 => crypto::aes::KeySize::KeySize192,
        AesKeySize::Aes256 => crypto::aes::KeySize::KeySize256,
    };
    let mut encryptor = crypto::aes::cbc_encryptor(size, key, iv, PkcsPadding);
    let mut reader = RefReadBuffer::new(data);
    let mut writer = RefWriteBuffer::new(out.as_mut_slice());
    match encryptor.encrypt(&mut reader, &mut writer, true) {
        Ok(BufferResult::BufferUnderflow) => Ok(CipherProgress::Done(writer.position())),
        Ok(BufferResult::BufferOverflow) => Ok(CipherProgress::OutputFull),
        Err(e) => Err(e),
    }
}

/// Decrypts the whole blocks `data` with `crypto::aes::cbc_decryptor`
/// without padding (`NoPadding`) in one call of its `decrypt` with `eof`
/// set, writing into `out`.
/// Trusted: as for `cbc_encrypt_into`. Without padding and on whole blocks
/// the block engine writes one block out per block in and reports no error,
/// so with room for as many bytes as `data` holds the call finishes with
/// them all written.
#[verifier::external_body]
fn cbc_decrypt_blocks_into(
    key_size: AesKeySize,
    key: &[u8],
    iv: &[u8],
    data: &[u8],
    out: &mut Vec<u8>,
) -> (progress: Result<CipherProgress, SymmetricCipherError>)
    requires
        key@.len() == key_size.key_len(),
        iv@.len() == AES_BLOCK_LEN,
        data@.len() % (AES_BLOCK_LEN as nat) == 0,
        old(out)@.len() >= data@.len(),
    ensures
        final(out)@.len() == old(out)@.len(),
        progress matches Ok(CipherProgress::Done(_)),
        progress matches Ok(CipherProgress::Done(n)) ==> {
            &&& n == data@.len()
            &&& final(out)@.take(n as int) == aes_cbc_decrypt_raw(key_size, key@, iv@, data@)
        },
{
    let size = match key_size {
        AesKeySize::Aes192 => crypto::aes::KeySize::KeySize192,
        AesKeySize::Aes256 => crypto::aes::KeySize::KeySize256,
    };
    let mut decryptor = crypto::aes::cbc_decryptor(size, key, iv, NoPadding);
    let mut reader = RefReadBuffer::new(data);
    let mut writer = RefWriteBuffer::new(out.as_mut_slice());
    match decryptor.decrypt(&mut reader, &mut writer, true) {
        Ok(BufferResult::BufferUnderflow) => Ok(CipherProgress::Done(writer.position())),
        Ok(BufferResult::BufferOverflow) => Ok(CipherProgress::OutputFull),
        Err(e) => Err(e),
    }
}

/// A buffer of `len` zero bytes.
fn zeroed(len: usize) -> (buf: Vec<u8>)
    ensures
        buf@.len() == len,
{
    let mut buf: Vec<u8> = Vec::new();
    for _i in 0..len
        invariant
            buf@.len() == _i,
    {
        buf.push(0u8);
    }
    buf
}

/// AES-CBC encryption of a whole slice with PKCS padding. The ciphertext is
/// the padded length, and decrypts back to `data`.
pub fn encrypt_slice(key_size: AesKeySize, key: &[u8], iv: &[u8], data: &[u8]) -> (ciphertext:
    Vec<u8>)
    requires
        key@.len() == key_size.key_len(),
        iv@.len() == AES_BLOCK_LEN,
        data@.len() + AES_BLOCK_LEN <= usize::MAX,
    ensures
        ciphertext@ == aes_cbc_encrypt(key_size, key@, iv@, data@),
        ciphertext@.len() == pkcs_pad(data@).len(),
        cbc_pkcs_decrypt(key_size, key@, iv@, ciphertext@) == Some(data@),
{
    let mut out = zeroed(data.len() + AES_BLOCK_LEN);
    let progress = cbc_encrypt_into(key_size, key, iv, data, &mut out);
    proof {
        lemma_pkcs_strip_pad(data@);
    }
    match progress {
        Ok(CipherProgress::Done(n)) => {
            out.truncate(n);
            out
        },
        _ => {
            proof {
                assert(false);
            }
            Vec::new()
        },
    }
}

/// AES-CBC decryption of whole blocks without removing padding.
pub fn decrypt_blocks(key_size: AesKeySize, key: &[u8], iv: &[u8], data: &[u8]) -> (raw: Vec<u8>)
    requires
        key@.len() == key_size.key_len(),
        iv@.len() == AES_BLOCK_LEN,
        data@.len() % (AES_BLOCK_LEN as nat) == 0,
    ensures
        raw@ == aes_cbc_decrypt_raw(key_size, key@, iv@, data@),
{
    let mut out = zeroed(data.len());
    match cbc_decrypt_blocks_into(key_size, key, iv, data, &mut out) {
        Ok(CipherProgress::Done(n)) => {
            out.truncate(n);
            out
        },
        _ => {
            proof {
                assert(false);
            }
            Vec::new()
        },
    }
}

/// Whether `raw` ends in padding that is accepted.
pub fn pkcs_padding_ok(raw: &[u8]) -> (ok: bool)
    ensures
        ok == pkcs_strip(raw@) is Some,
{
    let n = raw.len();
    if n == 0 {
        return true;
    }
    let b = raw[n - 1];
    if b as usize > AES_BLOCK_LEN || b as usize > n {
        return false;
    }
    let start = n - b as usize;
    for i in start..n
        invariant
            n == raw@.len(),
            b == raw@.last(),
            start == n - b,
            forall|j: int| start <= j < i ==> raw@[j] == b,
    {
        if raw[i] != b {
            return false;
        }
    }
    true
}

/// `raw` without its accepted padding.
pub fn strip_pkcs_padding(raw: Vec<u8>) -> (data: Vec<u8>)
    requires
        pkcs_strip(raw@) is Some,
    ensures
        Some(data@) == pkcs_strip(raw@),
{
    let n = raw.len();
    if n == 0 {
        return raw;
    }
    let b = raw[n - 1];
    let mut data = raw;
    data.truncate(n - b as usize);
    data
}

/// AES-CBC decryption of a whole slice with PKCS padding. The length must be
/// a whole number of blocks and the padding accepted: rust-crypto reports an
/// error, or panics, elsewhere.
pub fn decrypt_slice(key_size: AesKeySize, key: &[u8], iv: &[u8], data: &[u8]) -> (plaintext:
    Vec<u8>)
    requires
        key@.len() == key_size.key_len(),
        iv@.len() == AES_BLOCK_LEN,
        cbc_pkcs_decrypt(key_size, key@, iv@, data@) is Some,
    ensures
        Some(plaintext@) == cbc_pkcs_decrypt(key_size, key@, iv@, data@),
{
    let raw = decrypt_blocks(key_size, key, iv, data);
    strip_pkcs_padding(raw)
}

/// AES-CBC decryption with PKCS padding of any bytes: `None` where the
/// length is no whole number of blocks or the padding is not accepted, and
/// the plaintext elsewhere.
pub fn checked_decrypt(key_size: AesKeySize, key: &[u8], iv: &[u8], data: &[u8]) -> (plaintext:
    Option<Vec<u8>>)
    requires
        key@.len() == key_size.key_len(),
        iv@.len() == AES_BLOCK_LEN,
    ensures
        match plaintext {
            Some(p) => cbc_pkcs_decrypt(key_size, key@, iv@, data@) == Some(p@),
            None => cbc_pkcs_decrypt(key_size, key@, iv@, data@) is None,
        },
{
    if data.len() % AES_BLOCK_LEN != 0 {
        return None;
    }
    let raw = decrypt_blocks(key_size, key, iv, data);
    if !pkcs_padding_ok(raw.as_slice()) {
        return None;
    }
    Some(decrypt_slice(key_size, key, iv, data))
}

/// `bcrypt::bcrypt` at `bcrypt::DEFAULT_COST`.
/// Trusted: its result is named `bcrypt_digest`; the crate asserts a
/// password of 1 to 72 bytes, which `requires` states.
#[verifier::external_body]
pub(crate) fn bcrypt_hash(salt: [u8; 16], password: &[u8]) -> (digest: [u8; 24])
    requires
        1 <= password@.len() <= 72,
    ensures
        digest@ == bcrypt_digest(salt@, password@),
{
    bcrypt::bcrypt(bcrypt::DEFAULT_COST, salt, password)
}

/// Fills `buf` from the operating system's random number generator
/// (`rand::rngs::OsRng`, `RngCore::fill_bytes`).
/// Trusted: nothing is promised of the bytes; the crate panics where the
/// operating system cannot supply them.
#[verifier::external_body]
pub(crate) fn fill_random<const N: usize>(buf: &mut [u8; N]) {
    rand::rngs::OsRng.fill_bytes(buf)
}

/// Whether two byte slices hold the same bytes.
pub fn same_bytes(a: &[u8], b: &[u8]) -> (same: bool)
    ensures
        same == (a@ == b@),
{
    if a.len() != b.len() {
        return false;
    }
    let n = a.len();
    for i in 0..n
        invariant
            n == a@.len(),
            n == b@.len(),
            forall|j: int| 0 <= j < i ==> a@[j] == b@[j],
    {
        if a[i] != b[i] {
            return false;
        }
    }
    assert(a@ =~= b@);
    true
}

} // verus!
