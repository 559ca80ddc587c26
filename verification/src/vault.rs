//! The vault: named groups of secrets, each group a map from key to value.

use crate::cipher::{
    aes_cbc_encrypt, bcrypt_digest, bcrypt_hash, cbc_pkcs_decrypt, checked_decrypt, encrypt_slice,
    fill_random, pkcs_pad, same_bytes, AesKeySize,
};
use std::collections::HashMap;
use vstd::prelude::*;
use vstd::string::StringExecFns;

verus! {

/// The character sequences of a sequence of strings.
pub open spec fn string_views(s: Seq<String>) -> Seq<Seq<char>> {
    s.map_values(|x: String| x@)
}

/// The character sequences of a sequence of borrowed strings.
pub open spec fn borrowed_views(s: Seq<&String>) -> Seq<Seq<char>> {
    s.map_values(|x: &String| x@)
}

/// The position of `name` among `names`, found by comparing contents.
fn find_name(names: &Vec<String>, name: &String) -> (found: Option<usize>)
    ensures
        match found {
            Some(i) => i < names.len() && names@[i as int]@ == name@,
            None => !string_views(names@).contains(name@),
        },
{
    let n = names.len();
    for i in 0..n
        invariant
            n == names.len(),
            forall|j: int| 0 <= j < i ==> names@[j]@ != name@,
    {
        if names[i] == *name {
            return Some(i);
        }
    }
    proof {
        assert forall|j: int| 0 <= j < string_views(names@).len() implies string_views(
            names@,
        )[j] != name@ by {
            assert(names@[j]@ != name@);
        }
    }
    None
}

/// One group of secrets: a map from key to value, kept as two parallel
/// vectors in which no key occurs twice.
pub struct SecretGroup {
    keys: Vec<String>,
    values: Vec<String>,
}

impl SecretGroup {
    /// Keys and values line up, and no key occurs twice.
    pub closed spec fn wf(&self) -> bool {
        &&& self.keys.len() == self.values.len()
        &&& string_views(self.keys@).no_duplicates()
    }

    pub closed spec fn key_views(&self) -> Seq<Seq<char>> {
        string_views(self.keys@)
    }

    /// The empty group.
    pub fn new() -> (group: Self)
        ensures
            group.wf(),
            group@ == Map::<Seq<char>, Seq<char>>::empty(),
    {
        let group = SecretGroup { keys: Vec::new(), values: Vec::new() };
        assert(group@ =~= Map::<Seq<char>, Seq<char>>::empty());
        group
    }

    /// The value stored under `key`, if there is one.
    pub fn get(&self, key: &str) -> (value: Option<&String>)
        requires
            self.wf(),
        ensures
            match value {
                Some(v) => self@.contains_key(key@) && v@ == self@[key@],
                None => !self@.contains_key(key@),
            },
    {
        let k = key.to_owned();
        match find_name(&self.keys, &k) {
            Some(i) => {
                assert(string_views(self.keys@)[i as int] == k@);
                Some(&self.values[i])
            },
            None => None,
        }
    }

    /// Every key of the group, each once.
    pub fn keys(&self) -> (keys: Vec<&String>)
        requires
            self.wf(),
        ensures
            borrowed_views(keys@).no_duplicates(),
            borrowed_views(keys@).to_set() == self@.dom(),
    {
        let mut out: Vec<&String> = Vec::new();
        let n = self.keys.len();
        for i in 0..n
            invariant
                n == self.keys.len(),
                out.len() == i,
                forall|j: int| 0 <= j < i ==> #[trigger] out@[j]@ == self.keys@[j]@,
        {
            out.push(&self.keys[i]);
        }
        assert(borrowed_views(out@) =~= string_views(self.keys@)) by {
            assert forall|j: int| 0 <= j < n implies #[trigger] borrowed_views(out@)[j]
                == string_views(self.keys@)[j] by {
                assert(out@[j]@ == self.keys@[j]@);
            }
        }
        assert(borrowed_views(out@).to_set() =~= self@.dom());
        out
    }

    /// Stores `value` under `key`, replacing what was stored there.
    pub fn insert(&mut self, key: &str, value: &str)
        requires
            old(self).wf(),
        ensures
            final(self).wf(),
            final(self)@ == old(self)@.insert(key@, value@),
    {
        let k = key.to_owned();
        let v = value.to_owned();
        match find_name(&self.keys, &k) {
            Some(i) => {
                let ghost old_values = self.values@;
                self.values.set(i, v);
                proof {
                    let kv = string_views(self.keys@);
                    assert(kv[i as int] == key@);
                    assert forall|q: Seq<char>| #[trigger] kv.contains(q) implies self.values@[kv.index_of(
                        q,
                    )]@ == (if q == key@ {
                        value@
                    } else {
                        old_values[kv.index_of(q)]@
                    }) by {
                        let j = kv.index_of(q);
                        assert(kv[j] == q);
                    }
                    assert(self@ =~= old(self)@.insert(key@, value@));
                }
            },
            None => {
                let ghost old_keys = self.keys@;
                let ghost old_values = self.values@;
                self.keys.push(k);
                self.values.push(v);
                proof {
                    let kv = string_views(self.keys@);
                    let okv = string_views(old_keys);
                    assert(kv =~= okv.push(key@));
                    assert forall|a: int, b: int|
                        0 <= a < kv.len() && 0 <= b < kv.len() && a != b implies kv[a] != kv[b] by {
                        if a < okv.len() && b < okv.len() {
                            assert(okv[a] != okv[b]);
                        } else if a < okv.len() {
                            assert(okv.contains(okv[a]));
                        } else {
                            assert(okv.contains(okv[b]));
                        }
                    }
                    assert forall|q: Seq<char>| #[trigger] kv.contains(q) implies self.values@[kv.index_of(
                        q,
                    )]@ == (if q == key@ {
                        value@
                    } else {
                        old_values[okv.index_of(q)]@
                    }) by {
                        let j = kv.index_of(q);
                        assert(kv[j] == q);
                        if q != key@ {
                            assert(j < okv.len());
                            let oj = okv.index_of(q);
                            assert(okv.contains(q));
                            assert(okv[oj] == q);
                            assert(kv[oj] == q);
                        } else {
                            assert(kv[okv.len() as int] == q);
                        }
                    }
                    assert forall|q: Seq<char>| okv.contains(q) || q == key@ implies kv.contains(q) by {
                        if q == key@ {
                            assert(kv[okv.len() as int] == q);
                        } else {
                            let j = choose|j: int| 0 <= j < okv.len() && okv[j] == q;
                            assert(kv[j] == okv[j]);
                        }
                    }
                    assert(self@ =~= old(self)@.insert(key@, value@));
                }
            },
        }
    }
}

impl View for SecretGroup {
    type V = Map<Seq<char>, Seq<char>>;

    closed spec fn view(&self) -> Map<Seq<char>, Seq<char>> {
        Map::new(
            |q: Seq<char>| string_views(self.keys@).contains(q),
            |q: Seq<char>| self.values@[string_views(self.keys@).index_of(q)]@,
        )
    }
}


/// What `Vault::add` makes of the contents `m`: `key` maps to `value` in
/// group `group`, which is created empty first where it is missing.
pub open spec fn spec_add(
    m: Map<Seq<char>, Map<Seq<char>, Seq<char>>>,
    group: Seq<char>,
    key: Seq<char>,
    value: Seq<char>,
) -> Map<Seq<char>, Map<Seq<char>, Seq<char>>> {
    let old_group = if m.contains_key(group) {
        m[group]
    } else {
        Map::empty()
    };
    m.insert(group, old_group.insert(key, value))
}

/// A vault: a map from group name to group, kept as two parallel vectors in
/// which no group name occurs twice.
pub struct Vault {
    names: Vec<String>,
    groups: Vec<SecretGroup>,
}

impl View for Vault {
    type V = Map<Seq<char>, Map<Seq<char>, Seq<char>>>;

    closed spec fn view(&self) -> Map<Seq<char>, Map<Seq<char>, Seq<char>>> {
        Map::new(
            |q: Seq<char>| string_views(self.names@).contains(q),
            |q: Seq<char>| self.groups@[string_views(self.names@).index_of(q)]@,
        )
    }
}

impl Vault {
    /// Names and groups line up, no name occurs twice, and every group is
    /// well formed.
    pub closed spec fn wf(&self) -> bool {
        &&& self.names.len() == self.groups.len()
        &&& string_views(self.names@).no_duplicates()
        &&& forall|i: int| 0 <= i < self.groups.len() ==> (#[trigger] self.groups@[i]).wf()
    }

    /// The empty vault.
    pub fn new() -> (vault: Self)
        ensures
            vault.wf(),
            vault@ == Map::<Seq<char>, Map<Seq<char>, Seq<char>>>::empty(),
    {
        let vault = Vault { names: Vec::new(), groups: Vec::new() };
        assert(vault@ =~= Map::<Seq<char>, Map<Seq<char>, Seq<char>>>::empty());
        vault
    }

    /// Stores `value` under `key` in group `group_name`, creating the group
    /// where it does not exist yet.
    pub fn add(&mut self, group_name: &str, key: &str, value: &str)
        requires
            old(self).wf(),
        ensures
            final(self).wf(),
            final(self)@ == spec_add(old(self)@, group_name@, key@, value@),
    {
        let g = group_name.to_owned();
        match find_name(&self.names, &g) {
            Some(i) => {
                let ghost old_groups = self.groups@;
                let ghost old_group_view = self.groups@[i as int]@;
                self.groups[i].insert(key, value);
                proof {
                    let nv = string_views(self.names@);
                    assert(nv[i as int] == group_name@);
                    assert forall|j: int| 0 <= j < self.groups.len() implies (
                    #[trigger] self.groups@[j]).wf() by {
                        if j != i {
                            assert(self.groups@[j] == old_groups[j]);
                        }
                    }
                    assert forall|q: Seq<char>| #[trigger] nv.contains(q) implies self.groups@[nv.index_of(
                        q,
                    )]@ == (if q == group_name@ {
                        old_group_view.insert(key@, value@)
                    } else {
                        old_groups[nv.index_of(q)]@
                    }) by {
                        let j = nv.index_of(q);
                        assert(nv[j] == q);
                    }
                    assert(old(self)@[group_name@] == old_group_view);
                    assert(self@ =~= spec_add(old(self)@, group_name@, key@, value@));
                }
            },
            None => {
                let ghost old_names = self.names@;
                let ghost old_groups = self.groups@;
                let mut group = SecretGroup::new();
                group.insert(key, value);
                self.names.push(g);
                self.groups.push(group);
                proof {
                    let nv = string_views(self.names@);
                    let onv = string_views(old_names);
                    assert(nv =~= onv.push(group_name@));
                    assert forall|a: int, b: int|
                        0 <= a < nv.len() && 0 <= b < nv.len() && a != b implies nv[a] != nv[b] by {
                        if a < onv.len() && b < onv.len() {
                            assert(onv[a] != onv[b]);
                        } else if a < onv.len() {
                            assert(onv.contains(onv[a]));
                        } else {
                            assert(onv.contains(onv[b]));
                        }
                    }
                    assert forall|j: int| 0 <= j < self.groups.len() implies (
                    #[trigger] self.groups@[j]).wf() by {
                        if j < old_groups.len() {
                            assert(self.groups@[j] == old_groups[j]);
                        }
                    }
                    assert forall|q: Seq<char>| #[trigger] nv.contains(q) implies self.groups@[nv.index_of(
                        q,
                    )]@ == (if q == group_name@ {
                        Map::<Seq<char>, Seq<char>>::empty().insert(key@, value@)
                    } else {
                        old_groups[onv.index_of(q)]@
                    }) by {
                        let j = nv.index_of(q);
                        assert(nv[j] == q);
                        if q != group_name@ {
                            assert(j < onv.len());
                            let oj = onv.index_of(q);
                            assert(onv.contains(q));
                            assert(onv[oj] == q);
                            assert(nv[oj] == q);
                        } else {
                            assert(nv[onv.len() as int] == q);
                        }
                    }
                    assert forall|q: Seq<char>| onv.contains(q) || q == group_name@ implies nv.contains(
                        q,
                    ) by {
                        if q == group_name@ {
                            assert(nv[onv.len() as int] == q);
                        } else {
                            let j = choose|j: int| 0 <= j < onv.len() && onv[j] == q;
                            assert(nv[j] == onv[j]);
                        }
                    }
                    assert(self@ =~= spec_add(old(self)@, group_name@, key@, value@));
                }
            },
        }
    }

    /// The group named `group`, if there is one.
    pub fn get(&self, group: &str) -> (found: Option<&SecretGroup>)
        requires
            self.wf(),
        ensures
            match found {
                Some(g) => g.wf() && self@.contains_key(group@) && g@ == self@[group@],
                None => !self@.contains_key(group@),
            },
    {
        let g = group.to_owned();
        match find_name(&self.names, &g) {
            Some(i) => {
                assert(string_views(self.names@)[i as int] == g@);
                Some(&self.groups[i])
            },
            None => None,
        }
    }

    /// Every group name, each once.
    pub fn keys(&self) -> (names: Vec<&String>)
        requires
            self.wf(),
        ensures
            borrowed_views(names@).no_duplicates(),
            borrowed_views(names@).to_set() == self@.dom(),
    {
        let mut out: Vec<&String> = Vec::new();
        let n = self.names.len();
        for i in 0..n
            invariant
                n == self.names.len(),
                out.len() == i,
                forall|j: int| 0 <= j < i ==> #[trigger] out@[j]@ == self.names@[j]@,
        {
            out.push(&self.names[i]);
        }
        assert(borrowed_views(out@) =~= string_views(self.names@)) by {
            assert forall|j: int| 0 <= j < n implies #[trigger] borrowed_views(out@)[j]
                == string_views(self.names@)[j] by {
                assert(out@[j]@ == self.names@[j]@);
            }
        }
        assert(borrowed_views(out@).to_set() =~= self@.dom());
        out
    }
}

#[verifier::external_type_specification]
#[verifier::external_body]
pub struct ExCborError(serde_cbor::Error);

/// The vault contents that `serde_cbor::from_slice` reads from `bytes` as a
/// map from group name to a map from key to value, or `None` where it
/// reports an error.
pub uninterp spec fn cbor_vault_contents(bytes: Seq<u8>) -> Option<
    Map<Seq<char>, Map<Seq<char>, Seq<char>>>,
>;

/// `serde_cbor::to_vec` of the vault contents as a
/// `HashMap<String, HashMap<String, String>>`.
/// Trusted: the bytes depend on the order in which the hash maps are walked,
/// so they get no name; what `serde_cbor::from_slice` reads back from them is
/// the same contents. Maps of strings are written into a `Vec`, where the
/// serializer meets no error, and a `Vec` holds at most `isize::MAX` bytes.
#[verifier::external_body]
fn cbor_encode(vault: &Vault) -> (bytes: Result<Vec<u8>, serde_cbor::Error>)
    requires
        vault.wf(),
    ensures
        bytes is Ok,
        bytes matches Ok(b) ==> cbor_vault_contents(b@) == Some(vault@) && b@.len() <= isize::MAX,
{
    let groups: HashMap<&String, HashMap<&String, &String>> = vault.names.iter().zip(
        vault.groups.iter().map(|g| g.keys.iter().zip(g.values.iter()).collect()),
    ).collect();
    serde_cbor::to_vec(&groups)
}

/// `serde_cbor::from_slice` into a `HashMap<String, HashMap<String, String>>`,
/// moved into a vault.
/// Trusted: the contents read are named `cbor_vault_contents`; the keys of
/// a hash map are distinct, so the vault is well formed.
#[verifier::external_body]
fn cbor_decode(bytes: &[u8]) -> (vault: Result<Vault, serde_cbor::Error>)
    ensures
        match vault {
            Ok(v) => v.wf() && cbor_vault_contents(bytes@) == Some(v@),
            Err(_) => cbor_vault_contents(bytes@) is None,
        },
{
    let groups: HashMap<String, HashMap<String, String>> = serde_cbor::from_slice(bytes)?;
    let (names, groups) = groups.into_iter().map(|(name, group)| {
        let (keys, values) = group.into_iter().unzip();
        (name, SecretGroup { keys, values })
    }).unzip();
    Ok(Vault { names, groups })
}

/// Why a sealed vault could not be opened.
#[derive(Debug)]
pub enum UnsealError {
    /// The password does not give the stored password hash.
    WrongPassword,
    /// The stored vault key does not decrypt to a key of 32 bytes.
    BadKey,
    /// The stored vault data does not decrypt.
    BadData,
    /// The decrypted vault data is not a CBOR map of maps of strings: the
    /// error that `serde_cbor` reports.
    Malformed(serde_cbor::Error),
}

impl UnsealError {
    /// A message for the user.
    pub fn message(&self) -> (text: &'static str)
        ensures
            *self == UnsealError::WrongPassword ==> text@ == "wrong password"@,
            *self == UnsealError::BadKey ==> text@ == "the vault key could not be decrypted"@,
            *self == UnsealError::BadData ==> text@ == "the vault data could not be decrypted"@,
            *self is Malformed ==> text@ == "the vault data is not a vault"@,
    {
        match self {
            UnsealError::WrongPassword => "wrong password",
            UnsealError::BadKey => "the vault key could not be decrypted",
            UnsealError::BadData => "the vault data could not be decrypted",
            UnsealError::Malformed(_) => "the vault data is not a vault",
        }
    }
}

/// A vault in sealed form: its contents encrypted under a random key, and
/// that key encrypted under a key derived from the password.
#[derive(Debug)]
pub struct SealedVault {
    /// The vault key, AES-192-CBC encrypted under the password key.
    pub encrypted_key: Vec<u8>,
    /// The CBOR contents, AES-256-CBC encrypted under the vault key.
    pub encrypted_vault: Vec<u8>,
    /// The initialisation vector of `encrypted_key`.
    pub key_iv: [u8; 16],
    /// The initialisation vector of `encrypted_vault`.
    pub vault_iv: [u8; 16],
    /// The bcrypt salt.
    pub salt: [u8; 16],
    /// bcrypt of the password key: the password check.
    pub pass_key_hash: [u8; 24],
}

/// The key derived from a password: its bcrypt digest with the vault salt.
pub open spec fn pass_key_of(salt: Seq<u8>, password: Seq<u8>) -> Seq<u8> {
    bcrypt_digest(salt, password)
}

impl SealedVault {
    /// What unsealing gives with the password bytes `password`: the error it
    /// reports, or the contents of the vault. Of a `Malformed` error only the
    /// variant is fixed here: it carries what `serde_cbor` reports.
    pub open spec fn spec_unseal(self, password: Seq<u8>) -> Result<
        Map<Seq<char>, Map<Seq<char>, Seq<char>>>,
        UnsealError,
    > {
        let pass_key = pass_key_of(self.salt@, password);
        if bcrypt_digest(self.salt@, pass_key) != self.pass_key_hash@ {
            Err(UnsealError::WrongPassword)
        } else {
            match cbc_pkcs_decrypt(AesKeySize::Aes192, pass_key, self.key_iv@, self.encrypted_key@) {
                None => Err(UnsealError::BadKey),
                Some(key) => if key.len() != 32 {
                    Err(UnsealError::BadKey)
                } else {
                    match cbc_pkcs_decrypt(
                        AesKeySize::Aes256,
                        key,
                        self.vault_iv@,
                        self.encrypted_vault@,
                    ) {
                        None => Err(UnsealError::BadData),
                        Some(data) => match cbor_vault_contents(data) {
                            None => Err(UnsealError::Malformed(arbitrary())),
                            Some(contents) => Ok(contents),
                        },
                    }
                },
            }
        }
    }

    /// `self` seals `contents` under the password bytes `password`: the
    /// stored hash is bcrypt of the password key, and for some vault key of
    /// 32 bytes and some CBOR bytes of `contents`, the stored key and data
    /// are their encryptions, of the padded lengths (48 bytes for the key).
    pub open spec fn seals(
        self,
        contents: Map<Seq<char>, Map<Seq<char>, Seq<char>>>,
        password: Seq<u8>,
    ) -> bool {
        let pass_key = pass_key_of(self.salt@, password);
        &&& self.pass_key_hash@ == bcrypt_digest(self.salt@, pass_key)
        &&& self.encrypted_key@.len() == 48
        &&& exists|key: Seq<u8>, plain: Seq<u8>|
            #![trigger aes_cbc_encrypt(AesKeySize::Aes192, pass_key, self.key_iv@, key), aes_cbc_encrypt(AesKeySize::Aes256, key, self.vault_iv@, plain)]
            {
                &&& key.len() == 32
                &&& aes_cbc_encrypt(AesKeySize::Aes192, pass_key, self.key_iv@, key)
                    == self.encrypted_key@
                &&& cbc_pkcs_decrypt(AesKeySize::Aes192, pass_key, self.key_iv@, self.encrypted_key@)
                    == Some(key)
                &&& cbor_vault_contents(plain) == Some(contents)
                &&& aes_cbc_encrypt(AesKeySize::Aes256, key, self.vault_iv@, plain)
                    == self.encrypted_vault@
                &&& self.encrypted_vault@.len() == pkcs_pad(plain).len()
                &&& cbc_pkcs_decrypt(
                    AesKeySize::Aes256,
                    key,
                    self.vault_iv@,
                    self.encrypted_vault@,
                ) == Some(plain)
            }
    }

    /// Opens the vault with `password`.
    pub fn unseal(self, password: &str) -> (vault: Result<Vault, UnsealError>)
        requires
            1 <= vstd::utf8::encode_utf8(password@).len() <= 72,
        ensures
            match vault {
                Ok(v) => v.wf() && self.spec_unseal(vstd::utf8::encode_utf8(password@)) == Ok::<
                    Map<Seq<char>, Map<Seq<char>, Seq<char>>>,
                    UnsealError,
                >(v@),
                Err(UnsealError::Malformed(_)) => self.spec_unseal(
                    vstd::utf8::encode_utf8(password@),
                ) matches Err(UnsealError::Malformed(_)),
                Err(e) => self.spec_unseal(vstd::utf8::encode_utf8(password@)) == Err::<
                    Map<Seq<char>, Map<Seq<char>, Seq<char>>>,
                    UnsealError,
                >(e),
            },
            vault is Ok ==> self.pass_key_hash@ == bcrypt_digest(
                self.salt@,
                bcrypt_digest(self.salt@, vstd::utf8::encode_utf8(password@)),
            ),
            self.pass_key_hash@ != bcrypt_digest(
                self.salt@,
                bcrypt_digest(self.salt@, vstd::utf8::encode_utf8(password@)),
            ) ==> vault matches Err(UnsealError::WrongPassword),
    {
        proof {
            law_unseal_checks_whole_password(self, vstd::utf8::encode_utf8(password@));
        }
        let pass_key = bcrypt_hash(self.salt, password.as_bytes());
        let pass_key_hash = bcrypt_hash(self.salt, &pass_key);
        if !same_bytes(&pass_key_hash, &self.pass_key_hash) {
            return Err(UnsealError::WrongPassword);
        }
        let key = match checked_decrypt(AesKeySize::Aes192, &pass_key, &self.key_iv, &self.encrypted_key) {
            Some(k) => k,
            None => return Err(UnsealError::BadKey),
        };
        if key.len() != 32 {
            return Err(UnsealError::BadKey);
        }
        let data = match checked_decrypt(
            AesKeySize::Aes256,
            key.as_slice(),
            &self.vault_iv,
            &self.encrypted_vault,
        ) {
            Some(d) => d,
            None => return Err(UnsealError::BadData),
        };
        match cbor_decode(data.as_slice()) {
            Ok(v) => Ok(v),
            Err(e) => Err(UnsealError::Malformed(e)),
        }
    }
}

impl Vault {
    /// Seals the vault under `password`: the contents are encrypted under a
    /// fresh random key, and that key under a key derived from the password
    /// with a fresh random salt. It always succeeds.
    pub fn seal(self, password: &str) -> (sealed: Result<SealedVault, String>)
        requires
            self.wf(),
            1 <= vstd::utf8::encode_utf8(password@).len() <= 72,
        ensures
            sealed matches Ok(s) && s.seals(self@, vstd::utf8::encode_utf8(password@)),
            sealed matches Ok(s) ==> s.pass_key_hash@ == bcrypt_digest(
                s.salt@,
                bcrypt_digest(s.salt@, vstd::utf8::encode_utf8(password@)),
            ),
    {
        let mut iv = [0u8; 16];
        fill_random(&mut iv);
        let mut key = [0u8; 32];
        fill_random(&mut key);
        let plain = match cbor_encode(&self) {
            Ok(p) => p,
            Err(_) => {
                proof {
                    assert(false);
                }
                return Err(String::from_str("the vault could not be serialised"));
            },
        };
        let encrypted_vault = encrypt_slice(AesKeySize::Aes256, &key, &iv, plain.as_slice());
        let mut salt = [0u8; 16];
        fill_random(&mut salt);
        let pass_key = bcrypt_hash(salt, password.as_bytes());
        let mut pass_iv = [0u8; 16];
        fill_random(&mut pass_iv);
        let pass_key_hash = bcrypt_hash(salt, &pass_key);
        let encrypted_key = encrypt_slice(AesKeySize::Aes192, &pass_key, &pass_iv, &key);
        let sealed = SealedVault {
            encrypted_key,
            encrypted_vault,
            key_iv: pass_iv,
            vault_iv: iv,
            salt,
            pass_key_hash,
        };
        proof {
            assert(aes_cbc_encrypt(AesKeySize::Aes192, pass_key@, pass_iv@, key@)
                == sealed.encrypted_key@);
            assert(aes_cbc_encrypt(AesKeySize::Aes256, key@, iv@, plain@) == sealed.encrypted_vault@);
        }
        Ok(sealed)
    }
}

/// The password key is bcrypt of the salt and the whole password.
pub proof fn law_pass_key(salt: Seq<u8>, password: Seq<u8>)
    ensures
        pass_key_of(salt, password) == bcrypt_digest(salt, password),
{
}

/// A sealed vault stores bcrypt of bcrypt of the whole password as its
/// password check, and its key is encrypted under bcrypt of the whole
/// password.
pub proof fn law_seal_uses_whole_password(
    sealed: SealedVault,
    contents: Map<Seq<char>, Map<Seq<char>, Seq<char>>>,
    password: Seq<u8>,
)
    requires
        sealed.seals(contents, password),
    ensures
        sealed.pass_key_hash@ == bcrypt_digest(sealed.salt@, bcrypt_digest(sealed.salt@, password)),
        exists|key: Seq<u8>|
            key.len() == 32 && #[trigger] aes_cbc_encrypt(
                AesKeySize::Aes192,
                bcrypt_digest(sealed.salt@, password),
                sealed.key_iv@,
                key,
            ) == sealed.encrypted_key@,
{
}

/// Unsealing checks the whole password: it succeeds only where bcrypt of
/// bcrypt of the password is the stored check, and reports a wrong password
/// wherever it is not.
pub proof fn law_unseal_checks_whole_password(sealed: SealedVault, password: Seq<u8>)
    ensures
        sealed.spec_unseal(password) is Ok ==> sealed.pass_key_hash@ == bcrypt_digest(
            sealed.salt@,
            bcrypt_digest(sealed.salt@, password),
        ),
        sealed.pass_key_hash@ != bcrypt_digest(sealed.salt@, bcrypt_digest(sealed.salt@, password))
            ==> sealed.spec_unseal(password) == Err::<
            Map<Seq<char>, Map<Seq<char>, Seq<char>>>,
            UnsealError,
        >(UnsealError::WrongPassword),
{
}

/// A vault sealed under one password opens under another only where the two
/// have the same bcrypt-of-bcrypt check under the vault's salt.
pub proof fn law_unseal_with_other_password(
    sealed: SealedVault,
    contents: Map<Seq<char>, Map<Seq<char>, Seq<char>>>,
    sealing: Seq<u8>,
    opening: Seq<u8>,
)
    requires
        sealed.seals(contents, sealing),
        sealed.spec_unseal(opening) is Ok,
    ensures
        bcrypt_digest(sealed.salt@, bcrypt_digest(sealed.salt@, opening)) == bcrypt_digest(
            sealed.salt@,
            bcrypt_digest(sealed.salt@, sealing),
        ),
{
    law_seal_uses_whole_password(sealed, contents, sealing);
    law_unseal_checks_whole_password(sealed, opening);
}

/// A vault sealed under a password opens under that password to the same
/// contents.
pub proof fn lemma_unseal_after_seal(
    sealed: SealedVault,
    contents: Map<Seq<char>, Map<Seq<char>, Seq<char>>>,
    password: Seq<u8>,
)
    requires
        sealed.seals(contents, password),
    ensures
        sealed.spec_unseal(password) == Ok::<
            Map<Seq<char>, Map<Seq<char>, Seq<char>>>,
            UnsealError,
        >(contents),
{
    let pass_key = pass_key_of(sealed.salt@, password);
    let (key, plain) = choose|key: Seq<u8>, plain: Seq<u8>|
        {
            &&& key.len() == 32
            &&& aes_cbc_encrypt(AesKeySize::Aes192, pass_key, sealed.key_iv@, key)
                == sealed.encrypted_key@
            &&& cbc_pkcs_decrypt(AesKeySize::Aes192, pass_key, sealed.key_iv@, sealed.encrypted_key@)
                == Some(key)
            &&& cbor_vault_contents(plain) == Some(contents)
            &&& aes_cbc_encrypt(AesKeySize::Aes256, key, sealed.vault_iv@, plain)
                == sealed.encrypted_vault@
            &&& cbc_pkcs_decrypt(
                AesKeySize::Aes256,
                key,
                sealed.vault_iv@,
                sealed.encrypted_vault@,
            ) == Some(plain)
        };
    assert(cbc_pkcs_decrypt(AesKeySize::Aes192, pass_key, sealed.key_iv@, sealed.encrypted_key@)
        == Some(key));
}

/// After adding `value` under `key` in `group`, the group exists and maps
/// `key` to `value`; every other group, and every other key of `group`, is
/// as before.
pub proof fn lemma_add_then_get(
    m: Map<Seq<char>, Map<Seq<char>, Seq<char>>>,
    group: Seq<char>,
    key: Seq<char>,
    value: Seq<char>,
)
    ensures
        spec_add(m, group, key, value).contains_key(group),
        spec_add(m, group, key, value)[group].contains_key(key),
        spec_add(m, group, key, value)[group][key] == value,
        forall|g: Seq<char>|
            g != group ==> (#[trigger] spec_add(m, group, key, value).contains_key(g)
                <==> m.contains_key(g)),
        forall|g: Seq<char>|
            g != group && m.contains_key(g) ==> #[trigger] spec_add(m, group, key, value)[g]
                == m[g],
        forall|k: Seq<char>|
            k != key ==> (#[trigger] spec_add(m, group, key, value)[group].contains_key(k) <==> (
            m.contains_key(group) && m[group].contains_key(k))),
        forall|k: Seq<char>|
            k != key && m.contains_key(group) && m[group].contains_key(k)
                ==> #[trigger] spec_add(m, group, key, value)[group][k] == m[group][k],
{
}

/// Adding under the same group and key twice leaves only the second value.
pub proof fn lemma_add_replaces(
    m: Map<Seq<char>, Map<Seq<char>, Seq<char>>>,
    group: Seq<char>,
    key: Seq<char>,
    first: Seq<char>,
    second: Seq<char>,
)
    ensures
        spec_add(spec_add(m, group, key, first), group, key, second) == spec_add(
            m,
            group,
            key,
            second,
        ),
{
    let old_group = if m.contains_key(group) {
        m[group]
    } else {
        Map::empty()
    };
    assert(old_group.insert(key, first).insert(key, second) =~= old_group.insert(key, second));
    assert(spec_add(spec_add(m, group, key, first), group, key, second) =~= spec_add(
        m,
        group,
        key,
        second,
    ));
}

/// The contents after adding each `(group, key, value)` of `adds` in turn,
/// starting from `m`.
pub open spec fn spec_add_all(
    m: Map<Seq<char>, Map<Seq<char>, Seq<char>>>,
    adds: Seq<(Seq<char>, Seq<char>, Seq<char>)>,
) -> Map<Seq<char>, Map<Seq<char>, Seq<char>>>
    decreases adds.len(),
{
    if adds.len() == 0 {
        m
    } else {
        let last = adds.last();
        spec_add(spec_add_all(m, adds.drop_last()), last.0, last.1, last.2)
    }
}

/// The value of the last of `adds` made under `group` and `key`, if any.
pub open spec fn last_added(
    adds: Seq<(Seq<char>, Seq<char>, Seq<char>)>,
    group: Seq<char>,
    key: Seq<char>,
) -> Option<Seq<char>>
    decreases adds.len(),
{
    if adds.len() == 0 {
        None
    } else if adds.last().0 == group && adds.last().1 == key {
        Some(adds.last().2)
    } else {
        last_added(adds.drop_last(), group, key)
    }
}

proof fn lemma_last_added_names_group(
    adds: Seq<(Seq<char>, Seq<char>, Seq<char>)>,
    group: Seq<char>,
    key: Seq<char>,
)
    ensures
        last_added(adds, group, key) is Some ==> exists|i: int|
            0 <= i < adds.len() && (#[trigger] adds[i]).0 == group,
    decreases adds.len(),
{
    if adds.len() > 0 {
        let rest = adds.drop_last();
        lemma_last_added_names_group(rest, group, key);
        if adds.last().0 == group && adds.last().1 == key {
            assert(adds[adds.len() - 1].0 == group);
        } else if last_added(rest, group, key) is Some {
            let i = choose|i: int| 0 <= i < rest.len() && (#[trigger] rest[i]).0 == group;
            assert(adds[i] == rest[i]);
        }
    }
}

/// After a new vault takes the adds `adds` in turn, it holds a group exactly
/// where some add named it; a key of that group exactly where some add
/// named both; and under it the value of the last such add.
pub proof fn lemma_get_after_adds(
    adds: Seq<(Seq<char>, Seq<char>, Seq<char>)>,
    group: Seq<char>,
    key: Seq<char>,
)
    ensures
        spec_add_all(Map::empty(), adds).contains_key(group) <==> exists|i: int|
            0 <= i < adds.len() && (#[trigger] adds[i]).0 == group,
        spec_add_all(Map::empty(), adds).contains_key(group) ==> {
            &&& spec_add_all(Map::empty(), adds)[group].contains_key(key) <==> last_added(
                adds,
                group,
                key,
            ) is Some
            &&& last_added(adds, group, key) matches Some(v) ==> spec_add_all(
                Map::empty(),
                adds,
            )[group][key] == v
        },
    decreases adds.len(),
{
    let m = spec_add_all(Map::empty(), adds);
    if adds.len() > 0 {
        let rest = adds.drop_last();
        let last = adds.last();
        lemma_get_after_adds(rest, group, key);
        lemma_last_added_names_group(rest, group, key);
        lemma_add_then_get(spec_add_all(Map::empty(), rest), last.0, last.1, last.2);
        let before = spec_add_all(Map::empty(), rest);
        assert(m == spec_add(before, last.0, last.1, last.2));
        if last.0 == group {
            assert(adds[adds.len() - 1].0 == group);
        } else {
            if exists|i: int| 0 <= i < rest.len() && (#[trigger] rest[i]).0 == group {
                let i = choose|i: int| 0 <= i < rest.len() && (#[trigger] rest[i]).0 == group;
                assert(adds[i] == rest[i]);
            }
            if exists|i: int| 0 <= i < adds.len() && (#[trigger] adds[i]).0 == group {
                let i = choose|i: int| 0 <= i < adds.len() && (#[trigger] adds[i]).0 == group;
                assert(i < adds.len() - 1);
                assert(rest[i] == adds[i]);
            }
        }
    }
}

} // verus!
