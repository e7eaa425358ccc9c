use crate::container::Container;
use crate::object::{plain_dict, ObjectId, ObjectValue, Value};
use aes::{Aes128, Aes256};
use cbc::Encryptor;
use cipher::block_padding::Pkcs7;
use cipher::{BlockEncryptMut, KeyIvInit};
use vstd::prelude::*;
use vstd::string::*;

verus! {

/// Which AES variant to use.
#[derive(Clone, Copy, Debug, PartialEq, Eq, Structural)]
pub enum AesStrength {
    Aes128,
    Aes256,
}

impl AesStrength {
    /// The number of bytes of a key.
    pub open spec fn spec_key_length(self) -> usize {
        match self {
            AesStrength::Aes128 => 16,
            AesStrength::Aes256 => 32,
        }
    }

    /// The number of bytes of a key.
    #[verifier::when_used_as_spec(spec_key_length)]
    pub fn key_length(self) -> (n: usize)
        ensures
            n == self.spec_key_length(),
    {
        match self {
            AesStrength::Aes128 => 16,
            AesStrength::Aes256 => 32,
        }
    }
}

/// The first `n` bytes of `bytes`, followed by zeros where `bytes` is
/// shorter than `n`.
pub open spec fn padded_key(bytes: Seq<u8>, n: nat) -> Seq<u8> {
    Seq::new(
        n,
        |i: int|
            if i < bytes.len() {
                bytes[i]
            } else {
                0u8
            },
    )
}

/// Derives a key from a password: the password's bytes, cut or filled up
/// with zeros to the key length of `strength`. No key derivation function
/// stands behind this: the key is as weak as the password is short.
pub fn derive_key(password: &str, strength: &AesStrength) -> (key: Vec<u8>)
    ensures
        key@ == padded_key(password.spec_bytes(), strength.spec_key_length() as nat),
{
    let bytes = password.as_bytes();
    let n: usize = strength.key_length();
    let mut key: Vec<u8> = Vec::new();
    let mut i: usize = 0;
    while i < n
        invariant
            i <= n,
            key@ == padded_key(bytes@, i as nat),
        decreases n - i,
    {
        let b: u8 = if i < bytes.len() {
            bytes[i]
        } else {
            0
        };
        key.push(b);
        assert(key@ =~= padded_key(bytes@, (i + 1) as nat));
        i += 1;
    }
    key
}

/// What AES-128 in CBC mode, with an initialisation vector of 16 zero bytes
/// and PKCS#7 padding, makes of `data` under `key`.
pub uninterp spec fn aes128_cbc(data: Seq<u8>, key: Seq<u8>) -> Seq<u8>;

/// What AES-256 in CBC mode, with an initialisation vector of 16 zero bytes
/// and PKCS#7 padding, makes of `data` under `key`.
pub uninterp spec fn aes256_cbc(data: Seq<u8>, key: Seq<u8>) -> Seq<u8>;

/// `cbc::Encryptor::<Aes128>::new` with an initialisation vector of 16 zero
/// bytes, then `encrypt_padded_vec_mut::<Pkcs7>`: the ciphertext is a
/// function of data and key, which the contract names, and the padding
/// fills the last block or adds one, which gives its length. The key must
/// have 16 bytes; the call panics on any other length.
#[verifier::external_body]
fn encrypt_aes128(data: &[u8], key: &[u8]) -> (out: Vec<u8>)
    requires
        key@.len() == 16,
    ensures
        out@ == aes128_cbc(data@, key@),
        out@.len() == padded_length(data@.len()),
{
    let iv = [0u8; 16];
    Encryptor::<Aes128>::new(key.into(), &iv.into()).encrypt_padded_vec_mut::<Pkcs7>(data)
}

/// `cbc::Encryptor::<Aes256>::new` with an initialisation vector of 16 zero
/// bytes, then `encrypt_padded_vec_mut::<Pkcs7>`: the ciphertext is a
/// function of data and key, which the contract names, and the padding
/// fills the last block or adds one, which gives its length. The key must
/// have 32 bytes; the call panics on any other length.
#[verifier::external_body]
fn encrypt_aes256(data: &[u8], key: &[u8]) -> (out: Vec<u8>)
    requires
        key@.len() == 32,
    ensures
        out@ == aes256_cbc(data@, key@),
        out@.len() == padded_length(data@.len()),
{
    let iv = [0u8; 16];
    Encryptor::<Aes256>::new(key.into(), &iv.into()).encrypt_padded_vec_mut::<Pkcs7>(data)
}

/// The length of the ciphertext of `length` bytes: whole blocks of 16
/// bytes, with at least one byte of padding.
pub open spec fn padded_length(length: nat) -> nat {
    16 * (length / 16 + 1)
}

/// The ciphertext of `data` under `key` with the AES variant `strength`.
pub open spec fn encrypted(data: Seq<u8>, key: Seq<u8>, strength: AesStrength) -> Seq<u8> {
    match strength {
        AesStrength::Aes128 => aes128_cbc(data, key),
        AesStrength::Aes256 => aes256_cbc(data, key),
    }
}

/// Encrypts bytes with AES in CBC mode. The initialisation vector is fixed,
/// so equal data under one key give equal ciphertext.
pub fn encrypt_bytes(data: &[u8], key: &[u8], strength: &AesStrength) -> (out: Vec<u8>)
    requires
        key@.len() == strength.spec_key_length(),
    ensures
        out@ == encrypted(data@, key@, *strength),
        out@.len() == padded_length(data@.len()),
{
    match strength {
        AesStrength::Aes128 => encrypt_aes128(data, key),
        AesStrength::Aes256 => encrypt_aes256(data, key),
    }
}

/// What `encrypt_pdf_streams` makes of one object: the payload of a stream
/// is encrypted and recorded as plain content, and every other object stays
/// as it is.
pub open spec fn encrypted_value(v: Value, key: Seq<u8>, strength: AesStrength) -> Value {
    match v {
        Value::Stream { dict, content, allows_compression, start_position } => Value::Stream {
            dict: plain_dict(dict, encrypted(content, key, strength).len()),
            content: encrypted(content, key, strength),
            allows_compression,
            start_position,
        },
        _ => v,
    }
}

/// Encrypts the payload of every stream of the container under the key
/// derived from `password`. Dictionaries, strings and the trailer stay
/// plain, and nothing in the container says that it is encrypted.
pub fn encrypt_pdf_streams(doc: &mut Container, password: &str, strength: &AesStrength)
    ensures
        final(doc).table() == old(doc).table().map_values(
            |v: Value|
                encrypted_value(
                    v,
                    padded_key(password.spec_bytes(), strength.spec_key_length() as nat),
                    *strength,
                ),
        ),
        final(doc).trailer == old(doc).trailer,
        final(doc).version == old(doc).version,
        final(doc).max_id == old(doc).max_id,
{
    let key = derive_key(password, strength);
    let ids = doc.object_ids();
    let ghost before = *doc;
    let mut i: usize = 0;
    while i < ids.len()
        invariant
            i <= ids.len(),
            ids@.no_duplicates(),
            ids@.to_set() == before.objects@.dom(),
            key@.len() == strength.spec_key_length(),
            doc.objects@.dom() == before.objects@.dom(),
            doc.trailer == before.trailer,
            doc.version == before.version,
            doc.max_id == before.max_id,
            forall|k: int|
                0 <= k < i ==> doc.table()[#[trigger] ids@[k]] == encrypted_value(
                    before.table()[ids@[k]],
                    key@,
                    *strength,
                ),
            forall|k: int| i <= k < ids.len() ==> doc.objects@[#[trigger] ids@[k]] == before.objects@[ids@[k]],
        decreases ids.len() - i,
    {
        let id = ids[i];
        let ghost mid = doc.objects@;
        assert(ids@.to_set().contains(ids@[i as int]));
        match doc.objects.remove(&id) {
            Some(object) => {
                let sealed = match object {
                    ObjectValue::Stream(stream) => {
                        let mut stream = stream;
                        let cipher = encrypt_bytes(stream.content.as_slice(), key.as_slice(), strength);
                        stream.set_plain_content(cipher);
                        ObjectValue::Stream(stream)
                    },
                    other => other,
                };
                assert(sealed@ == encrypted_value(before.table()[id], key@, *strength));
                doc.objects.insert(id, sealed);
                assert(doc.objects@.dom() =~= before.objects@.dom());
            },
            None => {},
        }
        i += 1;
    }
    proof {
        let want = before.table().map_values(
            |v: Value|
                encrypted_value(
                    v,
                    padded_key(password.spec_bytes(), strength.spec_key_length() as nat),
                    *strength,
                ),
        );
        assert forall|id: ObjectId| #[trigger] doc.table().contains_key(id) implies doc.table()[id]
            == want[id] by {
            assert(ids@.to_set().contains(id));
            let k = choose|k: int| 0 <= k < ids@.len() && ids@[k] == id;
            assert(doc.table()[ids@[k]] == encrypted_value(before.table()[ids@[k]], key@, *strength));
        }
        assert(doc.table() =~= want);
    }
}

/// The algorithms with which a merged container can be encrypted.
#[derive(Clone, Copy, Debug, PartialEq, Eq, Structural)]
pub enum EncryptionAlgorithm {
    /// The legacy stream cipher with a 40-bit key.
    LegacyRc4,
    /// AES with a 128-bit key, bound to streams and strings through a named
    /// crypt filter.
    Aes128,
}

/// All that is needed to encrypt a finished container.
#[derive(Debug)]
pub struct EncryptionDescriptor {
    pub algorithm: EncryptionAlgorithm,
    pub owner_password: String,
    pub user_password: String,
    /// The permission bits granted to a reader who opens the container.
    pub permissions: u64,
    pub encrypt_metadata: bool,
    /// The name of the crypt filter applied to streams.
    pub stream_filter: Vec<u8>,
    /// The name of the crypt filter applied to strings.
    pub string_filter: Vec<u8>,
}

/// Every permission bit: print, modify, copy, annotate, fill in forms, copy
/// for accessibility, assemble, print in high quality.
pub const ALL_PERMISSIONS: u64 = 0xF3C;

/// The name of the crypt filter that a merge binds to streams and strings.
pub open spec fn default_filter() -> Seq<u8> {
    seq![68u8, 101u8, 102u8, 97u8, 117u8, 108u8, 116u8]
}

/// The name `Default` as bytes.
pub fn default_filter_bytes() -> (name: Vec<u8>)
    ensures
        name@ == default_filter(),
{
    let name = vec![68u8, 101u8, 102u8, 97u8, 117u8, 108u8, 116u8];
    assert(name@ =~= default_filter());
    name
}

/// Whether a finished merge is encrypted: only if a password was supplied
/// and at least one page was merged.
pub open spec fn encrypts(password: Option<String>, page_count: nat) -> bool {
    password is Some && page_count > 0
}

/// Whether a finished merge is to be encrypted.
pub fn should_encrypt(password: &Option<String>, page_count: usize) -> (yes: bool)
    ensures
        yes == encrypts(*password, page_count as nat),
{
    password.is_some() && page_count > 0
}

impl EncryptionAlgorithm {
    /// The minor version of the container format, within major version 1,
    /// from which on the algorithm may be used.
    pub open spec fn spec_minimum_minor_version(self) -> u8 {
        match self {
            EncryptionAlgorithm::LegacyRc4 => 4,
            EncryptionAlgorithm::Aes128 => 5,
        }
    }

    /// The minor version of the container format, within major version 1,
    /// from which on the algorithm may be used.
    #[verifier::when_used_as_spec(spec_minimum_minor_version)]
    pub fn minimum_minor_version(self) -> (minor: u8)
        ensures
            minor == self.spec_minimum_minor_version(),
    {
        match self {
            EncryptionAlgorithm::LegacyRc4 => 4,
            EncryptionAlgorithm::Aes128 => 5,
        }
    }
}

impl EncryptionDescriptor {
    /// The descriptor of a merge: `password` is both the owner's and the
    /// user's secret, nothing is forbidden to the reader, and AES with a
    /// 128-bit key is bound to streams and strings through the crypt filter
    /// `Default`.
    pub fn for_password(password: &String) -> (d: EncryptionDescriptor)
        ensures
            d.algorithm == EncryptionAlgorithm::Aes128,
            d.owner_password@ == password@,
            d.user_password@ == password@,
            d.permissions == ALL_PERMISSIONS,
            d.encrypt_metadata,
            d.stream_filter@ == default_filter(),
            d.string_filter@ == default_filter(),
    {
        EncryptionDescriptor {
            algorithm: EncryptionAlgorithm::Aes128,
            owner_password: password.clone(),
            user_password: password.clone(),
            permissions: ALL_PERMISSIONS,
            encrypt_metadata: true,
            stream_filter: default_filter_bytes(),
            string_filter: default_filter_bytes(),
        }
    }
}

} // verus!
