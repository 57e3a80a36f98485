//! The cipher provider: two interchangeable keyed stream-cipher schemes.
//!
//! The legacy scheme derives its cipher material once from the key and
//! reuses it for every file.  The path-keyed scheme derives material per
//! file from the key and a spice seed computed from the file's absolute
//! path, so two files with different paths use different material under the
//! same key.  The byte transforms themselves come from the `xor_cryptor`
//! crate and are reached only through the trusted wrappers in this module;
//! everything around them is verified against the names given to their
//! results.

use vstd::prelude::*;
use vstd::string::{StrSliceExecFns, StringSliceAdditionalSpecFns};

use crate::err::{AppError, AppResult};

verus! {

/// The legacy scheme's cipher material for a key: the cipher words of
/// `XORCryptor::<V1>` serialised to little-endian bytes.  A function of the
/// key alone.
pub uninterp spec fn v1_cipher_of(key: Seq<u8>) -> Seq<u8>;

/// What the legacy scheme's encryption returns for a key and a buffer.
pub uninterp spec fn v1_encrypt_of(key: Seq<u8>, data: Seq<u8>) -> Seq<u8>;

/// What the legacy scheme's decryption returns for a key and a buffer.
pub uninterp spec fn v1_decrypt_of(key: Seq<u8>, data: Seq<u8>) -> Seq<u8>;

/// The path-keyed scheme's cipher material for a key and a spice seed,
/// serialised to little-endian bytes.
pub uninterp spec fn v2_cipher_of(key: Seq<u8>, seed: usize) -> Seq<u8>;

/// The payload the path-keyed scheme's decryption recovers from a buffer
/// when it succeeds.  Decryption reads its seed out of the buffer itself,
/// so this is a function of the key and the buffer alone.
pub uninterp spec fn v2_decrypt_of(key: Seq<u8>, data: Seq<u8>) -> Seq<u8>;

#[verifier::external_type_specification]
#[verifier::external_body]
pub struct ExXRCError(xor_cryptor::err::XRCError);

/// Relies on `XORCryptor::<V1>::new_bytes` and `get_cipher`: construction
/// succeeds exactly when the key holds at least 6 bytes, and the cipher
/// words are a fixed function of the key, serialised here to little-endian
/// bytes.
#[verifier::external_body]
fn xrc_v1_cipher(key: &[u8]) -> (r: Result<Vec<u8>, xor_cryptor::err::XRCError>)
    ensures
        r matches Ok(m) ==> key@.len() >= 6 && m@ == v1_cipher_of(key@),
        r matches Err(_) ==> key@.len() < 6,
{
    match xor_cryptor::XORCryptor::new_bytes(key) {
        Ok(x) => Ok(x.get_cipher().iter().flat_map(|w| w.to_le_bytes()).collect()),
        Err(e) => Err(e),
    }
}

/// Relies on `XORCryptor::<V1>::encrypt_vec`: a fixed, length-preserving
/// function of key and buffer, inverted by `decrypt_vec` under the same
/// key.
#[allow(deprecated)]
#[verifier::external_body]
fn xrc_v1_encrypt(key: &[u8], buf: Vec<u8>) -> (r: Vec<u8>)
    requires
        key@.len() >= 6,
    ensures
        r@ == v1_encrypt_of(key@, buf@),
        r@.len() == buf@.len(),
        v1_decrypt_of(key@, r@) == buf@,
{
    match xor_cryptor::XORCryptor::new_bytes(key) {
        Ok(x) => x.encrypt_vec(buf),
        Err(_) => Vec::new(),
    }
}

/// Relies on `XORCryptor::<V1>::decrypt_vec`: a fixed, length-preserving
/// function of key and buffer.
#[allow(deprecated)]
#[verifier::external_body]
fn xrc_v1_decrypt(key: &[u8], buf: Vec<u8>) -> (r: Vec<u8>)
    requires
        key@.len() >= 6,
    ensures
        r@ == v1_decrypt_of(key@, buf@),
        r@.len() == buf@.len(),
{
    match xor_cryptor::XORCryptor::new_bytes(key) {
        Ok(x) => x.decrypt_vec(buf),
        Err(_) => Vec::new(),
    }
}

/// Relies on `XORCryptor::<V2>::new_v2`, `update_cipher` and `get_cipher`:
/// with an explicit seed the derived cipher words are a fixed function of
/// key and seed, and derivation fails exactly when the key holds fewer than
/// 6 bytes.
#[verifier::external_body]
fn xrc_v2_cipher(key: &[u8], seed: usize) -> (r: Result<Vec<u8>, xor_cryptor::err::XRCError>)
    ensures
        r matches Ok(m) ==> key@.len() >= 6 && m@ == v2_cipher_of(key@, seed),
        r matches Err(_) ==> key@.len() < 6,
{
    let mut x = xor_cryptor::XORCryptor::new_v2(Some(seed));
    match x.update_cipher(key, seed) {
        Ok(()) => Ok(x.get_cipher().iter().flat_map(|w| w.to_le_bytes()).collect()),
        Err(e) => Err(e),
    }
}

/// Relies on `XORCryptor::<V2>::encrypt_v2`: it fails exactly on an empty
/// buffer or a key of fewer than 6 bytes; a successful result pads the
/// payload to whole 8-byte words, appends two trailing words, and is
/// recovered by `decrypt_v2` under the same key.
#[verifier::external_body]
fn xrc_v2_encrypt(key: &[u8], buf: Vec<u8>) -> (r: Result<Vec<u8>, xor_cryptor::err::XRCError>)
    ensures
        r matches Ok(c) ==> {
            &&& key@.len() >= 6
            &&& buf@.len() > 0
            &&& c@.len() == 8 * ((buf@.len() + 7) / 8) + 16
            &&& v2_decrypt_of(key@, c@) == buf@
        },
        r matches Err(_) ==> key@.len() < 6 || buf@.len() == 0,
{
    xor_cryptor::XORCryptor::encrypt_v2(key, buf)
}

/// Relies on `XORCryptor::<V2>::decrypt_v2`: deterministic in key and
/// buffer; on a buffer longer than two 8-byte words it fails exactly when
/// the key holds fewer than 6 bytes.
#[verifier::external_body]
fn xrc_v2_decrypt(key: &[u8], buf: Vec<u8>) -> (r: Result<Vec<u8>, xor_cryptor::err::XRCError>)
    requires
        buf@.len() > 16,
    ensures
        r matches Ok(p) ==> key@.len() >= 6 && p@ == v2_decrypt_of(key@, buf@),
        r matches Err(_) ==> key@.len() < 6,
{
    xor_cryptor::XORCryptor::decrypt_v2(key, buf)
}

/// The spice seed of a path: the running product, with fixed-width
/// wraparound multiplication, of the positive character codes of the path
/// string.  Identical paths always give identical seeds; this diversifies
/// per-file cipher material under the path-keyed scheme.
pub open spec fn spice_seed_of(path: Seq<char>) -> usize
    decreases path.len(),
{
    if path.len() == 0 {
        1usize
    } else {
        let prev = spice_seed_of(path.drop_last());
        let c = path.last() as usize;
        if c > 0 {
            vstd::wrapping::usize_specs::wrapping_mul(prev, c)
        } else {
            prev
        }
    }
}

/// Computes the spice seed of a path string.
pub fn compute_spice_seed(path: &str) -> (seed: usize)
    ensures
        seed == spice_seed_of(path@),
{
    let n = path.unicode_len();
    let mut seed: usize = 1;
    let mut i: usize = 0;
    while i < n
        invariant
            i <= n,
            n == path@.len(),
            seed == spice_seed_of(path@.take(i as int)),
        decreases n - i,
    {
        let c = path.get_char(i);
        let code = c as usize;
        if code > 0 {
            seed = seed.wrapping_mul(code);
        }
        proof {
            assert(path@.take(i as int + 1).drop_last() =~= path@.take(i as int));
            assert(path@.take(i as int + 1).last() == path@[i as int]);
        }
        i = i + 1;
    }
    proof {
        assert(path@.take(n as int) =~= path@);
    }
    seed
}

/// The cipher material both signing and the bulk transform of one file rest
/// on: key-only under the legacy scheme, keyed by the path's spice seed
/// under the path-keyed scheme.
pub open spec fn cipher_material_of(legacy: bool, key: Seq<u8>, path: Seq<char>) -> Seq<u8> {
    if legacy {
        v1_cipher_of(key)
    } else {
        v2_cipher_of(key, spice_seed_of(path))
    }
}

/// The cipher provider: a closed pair of schemes, chosen at startup and
/// shared unchanged across the whole run.
#[derive(Clone)]
pub enum Xrc {
    /// The legacy scheme, with its material derived once.
    V1 { key: Vec<u8>, material: Vec<u8> },
    /// The path-keyed scheme; material is derived per file.
    V2 { key: Vec<u8> },
}

impl Xrc {
    /// Which scheme this provider applies.
    pub open spec fn uses_legacy_scheme(&self) -> bool {
        self is V1
    }

    /// The passphrase bytes this provider was built from.
    pub open spec fn key_bytes(&self) -> Seq<u8> {
        match self {
            Xrc::V1 { key, .. } => key@,
            Xrc::V2 { key } => key@,
        }
    }

    /// A legacy provider always carries a valid key and the material that
    /// key derives to.
    pub open spec fn wf(&self) -> bool {
        match self {
            Xrc::V1 { key, material } => key@.len() >= 6 && material@ == v1_cipher_of(key@),
            Xrc::V2 { key: _ } => true,
        }
    }

    /// A legacy provider for this key; the cipher refuses a key of fewer
    /// than 6 bytes.
    pub fn legacy(key: &str) -> (r: AppResult<Xrc>)
        ensures
            r matches Ok(x) ==> {
                &&& x.wf()
                &&& x.uses_legacy_scheme()
                &&& x.key_bytes() == key.spec_bytes()
                &&& key.spec_bytes().len() >= 6
            },
            r matches Err(e) ==> e == AppError::XrcError && key.spec_bytes().len() < 6,
    {
        let kb = key.as_bytes_vec();
        match xrc_v1_cipher(kb.as_slice()) {
            Ok(material) => Ok(Xrc::V1 { key: kb, material }),
            Err(_) => Err(AppError::XrcError),
        }
    }

    /// A path-keyed provider for this key.
    pub fn keyed(key: &str) -> (x: Xrc)
        ensures
            x.wf(),
            !x.uses_legacy_scheme(),
            x.key_bytes() == key.spec_bytes(),
    {
        Xrc::V2 { key: key.as_bytes_vec() }
    }

    /// The passphrase bytes, for use as the signed message.
    pub fn key(&self) -> (k: &[u8])
        ensures
            k@ == self.key_bytes(),
    {
        match self {
            Xrc::V1 { key, .. } => key.as_slice(),
            Xrc::V2 { key } => key.as_slice(),
        }
    }

    /// Whether this provider applies the legacy scheme.
    pub fn is_legacy(&self) -> (b: bool)
        ensures
            b == self.uses_legacy_scheme(),
    {
        match self {
            Xrc::V1 { .. } => true,
            Xrc::V2 { .. } => false,
        }
    }

    /// Derives the cipher material for one file.  Callers derive once per
    /// file and reuse the result for both signing and the bulk transform.
    /// Under the path-keyed scheme a key of fewer than 6 bytes is refused.
    pub fn get_cipher(&self, file_path: &str) -> (r: AppResult<Vec<u8>>)
        requires
            self.wf(),
        ensures
            r matches Ok(m) ==> m@ == cipher_material_of(
                self.uses_legacy_scheme(),
                self.key_bytes(),
                file_path@,
            ),
            r is Ok <==> self.key_bytes().len() >= 6,
            r matches Err(e) ==> e == AppError::XrcError,
    {
        match self {
            Xrc::V1 { material, .. } => {
                let m = material.clone();
                proof {
                    assert(m@ =~= material@);
                }
                Ok(m)
            },
            Xrc::V2 { key } => {
                let seed = compute_spice_seed(file_path);
                match xrc_v2_cipher(key.as_slice(), seed) {
                    Ok(m) => Ok(m),
                    Err(_) => Err(AppError::XrcError),
                }
            },
        }
    }

    /// Encrypts one chunk.  Under the legacy scheme the result has the
    /// buffer's length; under the path-keyed scheme it is padded to whole
    /// words plus two trailing words.  Either way decryption under the same
    /// key recovers the buffer.
    pub fn encrypt_vec(&self, buf: Vec<u8>) -> (r: AppResult<Vec<u8>>)
        requires
            self.wf(),
        ensures
            self.uses_legacy_scheme() ==> {
                &&& r matches Ok(c)
                &&& r matches Ok(c) ==> c@ == v1_encrypt_of(self.key_bytes(), buf@) && c@.len()
                    == buf@.len() && v1_decrypt_of(self.key_bytes(), c@) == buf@
            },
            !self.uses_legacy_scheme() ==> {
                &&& (r is Ok <==> self.key_bytes().len() >= 6 && buf@.len() > 0)
                &&& (r matches Ok(c) ==> c@.len() == 8 * ((buf@.len() + 7) / 8) + 16
                    && v2_decrypt_of(self.key_bytes(), c@) == buf@)
                &&& (r matches Err(e) ==> e == AppError::XrcError)
            },
    {
        match self {
            Xrc::V1 { key, .. } => Ok(xrc_v1_encrypt(key.as_slice(), buf)),
            Xrc::V2 { key } => {
                match xrc_v2_encrypt(key.as_slice(), buf) {
                    Ok(c) => Ok(c),
                    Err(_) => Err(AppError::XrcError),
                }
            },
        }
    }

    /// Decrypts one chunk.  The path-keyed scheme reads its seed out of the
    /// buffer's two trailing words, so its input must be longer than two
    /// words.
    pub fn decrypt_vec(&self, buf: Vec<u8>) -> (r: AppResult<Vec<u8>>)
        requires
            self.wf(),
            !self.uses_legacy_scheme() ==> buf@.len() > 16,
        ensures
            self.uses_legacy_scheme() ==> {
                &&& r matches Ok(p)
                &&& r matches Ok(p) ==> p@ == v1_decrypt_of(self.key_bytes(), buf@) && p@.len()
                    == buf@.len()
            },
            !self.uses_legacy_scheme() ==> {
                &&& (r is Ok <==> self.key_bytes().len() >= 6)
                &&& (r matches Ok(p) ==> p@ == v2_decrypt_of(self.key_bytes(), buf@))
                &&& (r matches Err(e) ==> e == AppError::XrcError)
            },
    {
        match self {
            Xrc::V1 { key, .. } => Ok(xrc_v1_decrypt(key.as_slice(), buf)),
            Xrc::V2 { key } => {
                match xrc_v2_decrypt(key.as_slice(), buf) {
                    Ok(p) => Ok(p),
                    Err(_) => Err(AppError::XrcError),
                }
            },
        }
    }
}

} // verus!
