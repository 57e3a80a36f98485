//! The per-file job driver.
//!
//! For each file the driver computes the destination name from the reserved
//! suffix rule, derives cipher material once, inserts or verifies the
//! 32-byte signature header, pushes the file's chunks through the cipher,
//! and decides whether the source may be deleted.  Everything here works on
//! plain bytes and strings; the caller owns the actual files and hands their
//! contents in.

use hmac::{KeyInit, Mac};
use vstd::prelude::*;
use vstd::string::{StrSliceExecFns, StringExecFns};

use crate::err::{AppError, AppResult};
use crate::file_handler::{
    chunks_of, concat_of, last_chunk_len_of, lemma_chunks_of_concat, lemma_concat_len_lower,
    lemma_concat_push, CHUNK_SIZE,
};
use crate::xrc::{cipher_material_of, v1_decrypt_of, v1_encrypt_of, v2_decrypt_of, Xrc};

verus! {

/// The HMAC-SHA256 tag for a MAC key and a message: a fixed 32-byte
/// function of both.
pub uninterp spec fn hmac_sha256_of(key: Seq<u8>, msg: Seq<u8>) -> Seq<u8>;

/// Relies on hmac's `Hmac::<Sha256>` (`new_from_slice`, which accepts keys
/// of any length, `update` and `finalize`): the tag is 32 bytes and a fixed
/// function of MAC key and message.
#[verifier::external_body]
fn hmac_sha256(key: &[u8], msg: &[u8]) -> (r: Vec<u8>)
    ensures
        r@ == hmac_sha256_of(key@, msg@),
        r@.len() == 32,
{
    let mut mac = hmac::Hmac::<sha2::Sha256>::new_from_slice(key)
        .expect("HMAC accepts keys of any length");
    mac.update(msg);
    mac.finalize().into_bytes().to_vec()
}

/// The signature header of one file: the HMAC-SHA256 tag over the
/// passphrase bytes, keyed with the file's cipher material.
pub open spec fn signature_of(legacy: bool, key: Seq<u8>, path: Seq<char>) -> Seq<u8> {
    hmac_sha256_of(cipher_material_of(legacy, key, path), key)
}

/// Copies `v[start..end]` into a fresh vector.
fn copy_range(v: &Vec<u8>, start: usize, end: usize) -> (r: Vec<u8>)
    requires
        start <= end <= v@.len(),
    ensures
        r@ == v@.subrange(start as int, end as int),
{
    let mut r: Vec<u8> = Vec::new();
    let mut i: usize = start;
    while i < end
        invariant
            start <= i <= end <= v@.len(),
            r@ == v@.subrange(start as int, i as int),
        decreases end - i,
    {
        r.push(v[i]);
        proof {
            assert(v@.subrange(start as int, i as int + 1) =~= v@.subrange(
                start as int,
                i as int,
            ).push(v@[i as int]));
        }
        i = i + 1;
    }
    r
}

/// Compares two equal-length byte vectors, touching every position
/// regardless of where the first difference sits.
fn constant_time_eq(a: &Vec<u8>, b: &Vec<u8>) -> (r: bool)
    requires
        a@.len() == b@.len(),
    ensures
        r <==> a@ == b@,
{
    let n = a.len();
    let mut same = true;
    let mut i: usize = 0;
    proof {
        assert(a@.subrange(0, 0) =~= b@.subrange(0, 0));
    }
    while i < n
        invariant
            i <= n,
            n == a@.len() == b@.len(),
            same <==> a@.subrange(0, i as int) == b@.subrange(0, i as int),
        decreases n - i,
    {
        let here = a[i] == b[i];
        proof {
            if same && here {
                assert(a@.subrange(0, i as int + 1) =~= a@.subrange(0, i as int).push(
                    a@[i as int],
                ));
                assert(b@.subrange(0, i as int + 1) =~= b@.subrange(0, i as int).push(
                    b@[i as int],
                ));
            }
            if !here {
                assert(a@.subrange(0, i as int + 1)[i as int] == a@[i as int]);
                assert(b@.subrange(0, i as int + 1)[i as int] == b@[i as int]);
            }
            if !same {
                assert(a@.subrange(0, i as int) =~= a@.subrange(0, i as int + 1).take(i as int));
                assert(b@.subrange(0, i as int) =~= b@.subrange(0, i as int + 1).take(i as int));
            }
        }
        same = same && here;
        i = i + 1;
    }
    proof {
        assert(a@.subrange(0, n as int) =~= a@);
        assert(b@.subrange(0, n as int) =~= b@);
    }
    same
}

/// Computes the signature header for one file: the tag over the passphrase,
/// keyed by the material this file derives to.  Under the path-keyed scheme
/// a key of fewer than 6 bytes is refused.
pub fn compute_signature(xrc: &Xrc, path: &str) -> (r: AppResult<Vec<u8>>)
    requires
        xrc.wf(),
    ensures
        r matches Ok(s) ==> s@ == signature_of(xrc.uses_legacy_scheme(), xrc.key_bytes(), path@)
            && s@.len() == 32,
        r is Ok <==> xrc.key_bytes().len() >= 6,
        r matches Err(e) ==> e == AppError::XrcError,
{
    match xrc.get_cipher(path) {
        Ok(material) => Ok(hmac_sha256(material.as_slice(), xrc.key())),
        Err(e) => Err(e),
    }
}

/// Recomputes the expected signature for one file and compares it with the
/// stored header, touching all 32 bytes.  A failed comparison is a
/// signature mismatch; failed material derivation is a cipher error.
pub fn validate_signature(xrc: &Xrc, path: &str, file_hash: &Vec<u8>) -> (r: AppResult<()>)
    requires
        xrc.wf(),
    ensures
        r is Ok <==> xrc.key_bytes().len() >= 6 && file_hash@ == signature_of(
            xrc.uses_legacy_scheme(),
            xrc.key_bytes(),
            path@,
        ),
        r matches Err(e) ==> (e == AppError::XrcError && xrc.key_bytes().len() < 6) || (e
            == AppError::SignatureError && xrc.key_bytes().len() >= 6 && file_hash@
            != signature_of(xrc.uses_legacy_scheme(), xrc.key_bytes(), path@)),
{
    let expected = match compute_signature(xrc, path) {
        Ok(s) => s,
        Err(e) => {
            return Err(e);
        },
    };
    if file_hash.len() != expected.len() {
        return Err(AppError::SignatureError);
    }
    if constant_time_eq(file_hash, &expected) {
        Ok(())
    } else {
        Err(AppError::SignatureError)
    }
}

/// The reserved file-name suffix of encrypted files.
pub open spec fn reserved_suffix() -> Seq<char> {
    seq!['.', 'x', 'r', 'c']
}

/// Whether a path already ends in the reserved suffix.
pub open spec fn has_reserved_suffix(path: Seq<char>) -> bool {
    path.len() >= 4 && path.subrange(path.len() - 4, path.len() as int) == reserved_suffix()
}

/// The destination name rule: encrypting appends the reserved suffix unless
/// it is already present; decrypting strips it and leaves a name without it
/// alone.  A result equal to the source path means the file is skipped.
pub open spec fn dest_path_of(path: Seq<char>, to_encrypt: bool) -> Seq<char> {
    if to_encrypt {
        if has_reserved_suffix(path) {
            path
        } else {
            path + reserved_suffix()
        }
    } else {
        if has_reserved_suffix(path) {
            path.take(path.len() - 4)
        } else {
            path
        }
    }
}

/// Checks the reserved suffix on a path string.
fn ends_with_reserved_suffix(path: &str) -> (r: bool)
    ensures
        r == has_reserved_suffix(path@),
{
    let n = path.unicode_len();
    if n < 4 {
        return false;
    }
    let r = path.get_char(n - 4) == '.' && path.get_char(n - 3) == 'x' && path.get_char(n - 2)
        == 'r' && path.get_char(n - 1) == 'c';
    proof {
        if r {
            assert(path@.subrange(path@.len() - 4, path@.len() as int) =~= reserved_suffix());
        } else {
            if path@.subrange(path@.len() - 4, path@.len() as int) == reserved_suffix() {
                assert(path@[path@.len() - 4] == '.');
                assert(path@[path@.len() - 3] == 'x');
                assert(path@[path@.len() - 2] == 'r');
                assert(path@[path@.len() - 1] == 'c');
            }
        }
    }
    r
}

/// What one ciphertext chunk decrypts to under the chosen scheme.
pub open spec fn decrypt_chunk_of(legacy: bool, key: Seq<u8>, c: Seq<u8>) -> Seq<u8> {
    if legacy {
        v1_decrypt_of(key, c)
    } else {
        v2_decrypt_of(key, c)
    }
}

/// What a file's chunked ciphertext region decrypts to: each chunk-size
/// piece decrypted in place and the results concatenated.
pub open spec fn decrypt_payload_of(legacy: bool, key: Seq<u8>, data: Seq<u8>, chunk: nat) -> Seq<
    u8,
>
    decreases data.len(),
{
    if chunk == 0 || data.len() == 0 {
        Seq::empty()
    } else if data.len() <= chunk {
        decrypt_chunk_of(legacy, key, data)
    } else {
        decrypt_chunk_of(legacy, key, data.subrange(0, chunk as int)) + decrypt_payload_of(
            legacy,
            key,
            data.subrange(chunk as int, data.len() as int),
            chunk,
        )
    }
}

/// The legacy scheme's whole ciphertext region for a file: every chunk of
/// the content encrypted in place.
pub open spec fn v1_payload_of(key: Seq<u8>, data: Seq<u8>, chunk: nat) -> Seq<u8> {
    concat_of(chunks_of(data, chunk).map_values(|c: Seq<u8>| v1_encrypt_of(key, c)))
}

/// What decrypting a whole file means, gate by gate: the file must hold the
/// 32-byte header, the key material must derive, the header must match the
/// expected signature, and the remaining region must be non-empty (and,
/// under the path-keyed scheme, end in a piece long enough to carry the
/// scheme's trailing words).  Only then is the chunked region decrypted.
pub open spec fn decrypt_file_of(
    legacy: bool,
    key: Seq<u8>,
    path: Seq<char>,
    data: Seq<u8>,
    chunk: nat,
) -> Result<Seq<u8>, AppError> {
    if data.len() < 32 {
        Err(AppError::IoError)
    } else if key.len() < 6 {
        Err(AppError::XrcError)
    } else if data.subrange(0, 32) != signature_of(legacy, key, path) {
        Err(AppError::SignatureError)
    } else if data.len() == 32 {
        Err(AppError::IoError)
    } else if !legacy && last_chunk_len_of((data.len() - 32) as nat, chunk) <= 16 {
        Err(AppError::XrcError)
    } else {
        Ok(decrypt_payload_of(legacy, key, data.subrange(32, data.len() as int), chunk))
    }
}

/// Signature rejection: whatever the chunked region holds, a file whose
/// header does not match the signature the supplied key derives to is
/// refused with a signature mismatch before any chunk is touched.
pub proof fn lemma_signature_rejection(
    legacy: bool,
    key: Seq<u8>,
    path: Seq<char>,
    data: Seq<u8>,
    chunk: nat,
)
    requires
        data.len() >= 32,
        key.len() >= 6,
        data.subrange(0, 32) != signature_of(legacy, key, path),
    ensures
        decrypt_file_of(legacy, key, path, data, chunk) == Err::<Seq<u8>, AppError>(
            AppError::SignatureError,
        ),
{
}

/// Piecewise decryption: when a ciphertext region is laid out as pieces of
/// exactly the chunk size (the last possibly shorter), decrypting the
/// region chunk by chunk recovers the concatenation of what each piece
/// decrypts to.
pub proof fn lemma_decrypt_pieces(
    legacy: bool,
    key: Seq<u8>,
    pc: Seq<Seq<u8>>,
    cc: Seq<Seq<u8>>,
    chunk: nat,
)
    requires
        chunk > 0,
        pc.len() == cc.len(),
        cc.len() > 0,
        forall|i: int| 0 <= i < cc.len() - 1 ==> (#[trigger] cc[i]).len() == chunk,
        1 <= cc.last().len() <= chunk,
        forall|i: int|
            0 <= i < cc.len() ==> decrypt_chunk_of(legacy, key, #[trigger] cc[i]) == pc[i],
    ensures
        decrypt_payload_of(legacy, key, concat_of(cc), chunk) == concat_of(pc),
    decreases cc.len(),
{
    if cc.len() == 1 {
        reveal_with_fuel(concat_of, 2);
        assert(cc.drop_first() =~= Seq::<Seq<u8>>::empty());
        assert(pc.drop_first() =~= Seq::<Seq<u8>>::empty());
        assert(concat_of(cc) =~= cc[0]);
        assert(concat_of(pc) =~= pc[0]);
    } else {
        let cr = cc.drop_first();
        let pr = pc.drop_first();
        assert(cr.last() == cc.last() && pr.len() == cr.len());
        lemma_decrypt_pieces(legacy, key, pr, cr, chunk);
        lemma_concat_len_lower(cr);
        let whole = concat_of(cc);
        assert(whole == cc[0] + concat_of(cr));
        assert(cr[0].len() >= 1);
        assert(whole.len() > chunk);
        assert(whole.subrange(0, chunk as int) =~= cc[0]);
        assert(whole.subrange(chunk as int, whole.len() as int) =~= concat_of(cr));
        assert(concat_of(pc) =~= pc[0] + concat_of(pr));
    }
}

/// Encrypts a whole in-memory file: the signature header followed by every
/// chunk encrypted in place.  Under the legacy scheme the result is exactly
/// header plus a region of the content's length, and decrypting it under
/// the same key and path recovers the content.  Under the path-keyed
/// scheme the same round trip holds whenever the content's single encrypted
/// chunk fits in one chunk slot.
#[verifier::loop_isolation(false)]
pub fn encrypt_bytes(xrc: &Xrc, path: &str, content: Vec<u8>, chunk_size: usize) -> (r: AppResult<
    Vec<u8>,
>)
    requires
        xrc.wf(),
        chunk_size > 16,
        content@.len() > 0,
    ensures
        r is Ok <==> (xrc.uses_legacy_scheme() || xrc.key_bytes().len() >= 6),
        r matches Err(e) ==> e == AppError::XrcError,
        r matches Ok(c) ==> {
            let legacy = xrc.uses_legacy_scheme();
            let key = xrc.key_bytes();
            &&& c@.len() > 32
            &&& c@.subrange(0, 32) == signature_of(legacy, key, path@)
            &&& (legacy ==> c@ == signature_of(legacy, key, path@) + v1_payload_of(
                key,
                content@,
                chunk_size as nat,
            ) && c@.len() == 32 + content@.len())
            &&& (legacy ==> decrypt_file_of(legacy, key, path@, c@, chunk_size as nat) == Ok::<
                Seq<u8>,
                AppError,
            >(content@))
            &&& (!legacy && 8 * ((content@.len() + 7) / 8) + 16 <= chunk_size
                ==> decrypt_file_of(legacy, key, path@, c@, chunk_size as nat) == Ok::<
                Seq<u8>,
                AppError,
            >(content@))
        },
{
    let ghost legacy = xrc.uses_legacy_scheme();
    let ghost key = xrc.key_bytes();
    let sig = match compute_signature(xrc, path) {
        Ok(s) => s,
        Err(e) => {
            return Err(e);
        },
    };
    let ghost sigv = sig@;
    let mut out = sig;
    let n = content.len();
    let mut offset: usize = 0;
    let ghost mut pc: Seq<Seq<u8>> = Seq::empty();
    let ghost mut cc: Seq<Seq<u8>> = Seq::empty();
    while offset < n
        invariant
            offset <= n,
            pc.len() == cc.len(),
            concat_of(pc) == content@.take(offset as int),
            out@ == sigv + concat_of(cc),
            offset < n ==> forall|i: int|
                0 <= i < pc.len() ==> (#[trigger] pc[i]).len() == chunk_size,
            forall|i: int| 0 <= i < pc.len() - 1 ==> (#[trigger] pc[i]).len() == chunk_size,
            forall|i: int| 0 <= i < pc.len() ==> 1 <= (#[trigger] pc[i]).len() <= chunk_size,
            forall|i: int|
                0 <= i < cc.len() ==> decrypt_chunk_of(legacy, key, #[trigger] cc[i]) == pc[i],
            legacy ==> forall|i: int|
                0 <= i < cc.len() ==> (#[trigger] cc[i]) == v1_encrypt_of(key, pc[i])
                    && cc[i].len() == pc[i].len(),
            !legacy ==> forall|i: int|
                0 <= i < cc.len() ==> (#[trigger] cc[i]).len() == 8 * ((pc[i].len() + 7) / 8)
                    + 16,
            legacy ==> out@.len() == 32 + offset,
            offset < n ==> offset == pc.len() * (chunk_size as int),
            pc.len() >= 1 ==> offset >= (pc.len() - 1) * (chunk_size as int) + 1,
        decreases n - offset,
    {
        let l = if n - offset < chunk_size {
            n - offset
        } else {
            chunk_size
        };
        let piece = copy_range(&content, offset, offset + l);
        let ghost piecev = piece@;
        let enc = match xrc.encrypt_vec(piece) {
            Ok(c) => c,
            Err(e) => {
                return Err(e);
            },
        };
        let ghost encv = enc@;
        let mut enc = enc;
        out.append(&mut enc);
        proof {
            lemma_concat_push(pc, piecev);
            lemma_concat_push(cc, encv);
            pc = pc.push(piecev);
            cc = cc.push(encv);
            assert(concat_of(pc) =~= content@.take(offset + l));
            assert(out@ =~= sigv + concat_of(cc));
            assert((pc.len() - 1) * (chunk_size as int) == (pc.len() - 2) * (chunk_size as int)
                + chunk_size) by (nonlinear_arith);
            assert(pc.len() * (chunk_size as int) == (pc.len() - 1) * (chunk_size as int)
                + chunk_size) by (nonlinear_arith);
        }
        offset = offset + l;
    }
    proof {
        assert(content@.take(n as int) =~= content@);
        assert(pc.len() >= 1) by {
            if pc.len() == 0 {
                assert(concat_of(pc).len() == 0);
            }
        }
        lemma_concat_len_lower(cc);
        let whole = out@;
        let payload = concat_of(cc);
        assert(whole.subrange(0, 32) =~= sigv);
        assert(whole.subrange(32, whole.len() as int) =~= payload);
        if legacy {
            lemma_chunks_of_concat(pc, chunk_size as nat);
            assert(chunks_of(content@, chunk_size as nat) == pc);
            assert(pc.map_values(|c: Seq<u8>| v1_encrypt_of(key, c)) =~= cc);
            assert(whole.len() == 32 + n);
            assert(payload.len() == n);
            lemma_decrypt_pieces(legacy, key, pc, cc, chunk_size as nat);
            assert(decrypt_file_of(legacy, key, path@, whole, chunk_size as nat) == Ok::<
                Seq<u8>,
                AppError,
            >(content@));
        } else {
            if 8 * ((n + 7) / 8) + 16 <= chunk_size {
                assert(8 * ((n + 7) / 8) >= n) by (nonlinear_arith);
                assert(n < chunk_size);
                assert(pc.len() == 1) by {
                    if pc.len() >= 2 {
                        assert((pc.len() - 1) * (chunk_size as int) >= chunk_size as int)
                            by (nonlinear_arith)
                            requires
                                pc.len() >= 2,
                        ;
                    }
                }
                reveal_with_fuel(concat_of, 2);
                assert(cc.drop_first() =~= Seq::<Seq<u8>>::empty());
                assert(pc.drop_first() =~= Seq::<Seq<u8>>::empty());
                assert(payload =~= cc[0]);
                assert(concat_of(pc) =~= pc[0]);
                assert(pc[0] == content@);
                assert(payload.len() == 8 * ((n + 7) / 8) + 16);
                assert(payload.len() > 16 && payload.len() <= chunk_size);
                if payload.len() < chunk_size {
                    vstd::arithmetic::div_mod::lemma_small_mod(
                        payload.len(),
                        chunk_size as nat,
                    );
                } else {
                    vstd::arithmetic::div_mod::lemma_mod_self_0(chunk_size as int);
                }
                assert(last_chunk_len_of(payload.len(), chunk_size as nat) > 16);
                lemma_decrypt_pieces(legacy, key, pc, cc, chunk_size as nat);
                assert(decrypt_file_of(legacy, key, path@, whole, chunk_size as nat) == Ok::<
                    Seq<u8>,
                    AppError,
                >(content@));
            }
        }
    }
    Ok(out)
}

/// Decrypts a whole in-memory file, returning exactly what the decryption
/// model assigns to it: the header is read and verified first, and only
/// then is the chunked region decrypted chunk by chunk.  The path is the
/// destination path, whose spice seed the file's cipher material was
/// derived from.
#[verifier::loop_isolation(false)]
pub fn decrypt_bytes(xrc: &Xrc, path: &str, data: Vec<u8>, chunk_size: usize) -> (r: AppResult<
    Vec<u8>,
>)
    requires
        xrc.wf(),
        chunk_size > 16,
    ensures
        ({
            let s = decrypt_file_of(
                xrc.uses_legacy_scheme(),
                xrc.key_bytes(),
                path@,
                data@,
                chunk_size as nat,
            );
            match r {
                Ok(p) => s == Ok::<Seq<u8>, AppError>(p@),
                Err(e) => s == Err::<Seq<u8>, AppError>(e),
            }
        }),
{
    let ghost legacy = xrc.uses_legacy_scheme();
    let ghost key = xrc.key_bytes();
    let n = data.len();
    if n < 32 {
        return Err(AppError::IoError);
    }
    let file_hash = copy_range(&data, 0, 32);
    match validate_signature(xrc, path, &file_hash) {
        Ok(()) => (),
        Err(e) => {
            return Err(e);
        },
    }
    if n == 32 {
        return Err(AppError::IoError);
    }
    let payload_len = n - 32;
    let is_legacy = xrc.is_legacy();
    if !is_legacy {
        let rem = payload_len % chunk_size;
        if rem > 0 && rem <= 16 {
            return Err(AppError::XrcError);
        }
    }
    let mut out: Vec<u8> = Vec::new();
    let mut offset: usize = 32;
    proof {
        assert(data@.subrange(32, n as int) =~= data@.subrange(offset as int, n as int));
        vstd::arithmetic::div_mod::lemma_mod_self_0(chunk_size as int);
    }
    while offset < n
        invariant
            32 <= offset <= n,
            decrypt_payload_of(legacy, key, data@.subrange(32, n as int), chunk_size as nat)
                == out@ + decrypt_payload_of(
                legacy,
                key,
                data@.subrange(offset as int, n as int),
                chunk_size as nat,
            ),
            offset < n ==> (offset - 32) % (chunk_size as int) == 0,
        decreases n - offset,
    {
        let l = if n - offset < chunk_size {
            n - offset
        } else {
            chunk_size
        };
        proof {
            if !legacy {
                let q = (offset - 32) / (chunk_size as int);
                vstd::arithmetic::div_mod::lemma_fundamental_div_mod(
                    offset - 32,
                    chunk_size as int,
                );
                vstd::arithmetic::div_mod::lemma_mod_multiples_vanish(
                    q,
                    n - offset,
                    chunk_size as int,
                );
                assert((n - 32) % (chunk_size as int) == (n - offset) % (chunk_size as int));
                if l < chunk_size {
                    vstd::arithmetic::div_mod::lemma_small_mod(
                        (n - offset) as nat,
                        chunk_size as nat,
                    );
                    assert(l > 16);
                } else {
                    assert(l > 16);
                }
            }
        }
        let piece = copy_range(&data, offset, offset + l);
        let p = match xrc.decrypt_vec(piece) {
            Ok(p) => p,
            Err(e) => {
                return Err(e);
            },
        };
        let mut p = p;
        out.append(&mut p);
        proof {
            let suffix = data@.subrange(offset as int, n as int);
            if l < chunk_size {
                assert(suffix.len() <= chunk_size);
                assert(piece@ =~= suffix);
                assert(data@.subrange(offset + l, n as int) =~= suffix.subrange(
                    l as int,
                    suffix.len() as int,
                ));
            } else {
                if suffix.len() > chunk_size {
                    assert(piece@ =~= suffix.subrange(0, chunk_size as int));
                    assert(data@.subrange(offset + l, n as int) =~= suffix.subrange(
                        chunk_size as int,
                        suffix.len() as int,
                    ));
                } else {
                    assert(piece@ =~= suffix);
                }
            }
            assert(data@.subrange(offset + l, n as int).len() == 0 ==> decrypt_payload_of(
                legacy,
                key,
                data@.subrange(offset + l, n as int),
                chunk_size as nat,
            ) == Seq::<u8>::empty());
            if offset + l < n {
                vstd::arithmetic::div_mod::lemma_mod_add_multiples_vanish(
                    offset - 32,
                    chunk_size as int,
                );
            }
        }
        offset = offset + l;
    }
    proof {
        assert(data@.subrange(offset as int, n as int).len() == 0);
        assert(out@ =~= out@ + Seq::<u8>::empty());
        assert(data@.subrange(0, 32) =~= file_hash@);
    }
    Ok(out)
}

/// Computes the destination path for one file under the suffix rule.
pub fn compute_dest_path(path: &str, to_encrypt: bool) -> (dest: String)
    ensures
        dest@ == dest_path_of(path@, to_encrypt),
{
    let has = ends_with_reserved_suffix(path);
    if to_encrypt {
        if has {
            path.to_owned()
        } else {
            let mut dest = path.to_owned();
            dest.append(".xrc");
            proof {
                reveal_strlit(".xrc");
                assert(".xrc"@ =~= reserved_suffix());
            }
            dest
        }
    } else {
        if has {
            let n = path.unicode_len();
            path.substring_char(0, n - 4).to_owned()
        } else {
            path.to_owned()
        }
    }
}

/// What processing one file decided: where the result goes, what to write
/// there (nothing for a skipped or empty source), and whether the source
/// may be removed.
pub struct ProcessedFile {
    /// The destination path under the suffix rule.
    pub dest_path: String,
    /// The bytes to write to the destination, if any work was done.
    pub output: Option<Vec<u8>>,
    /// Whether the source file may now be deleted.
    pub delete_source: bool,
}

/// One lane's job: the files assigned to it and the options the run was
/// started with.
pub struct Job {
    /// The paths this lane processes, in order.
    pub path_list: Vec<String>,
    /// The shared cipher provider.
    pub xrc: Xrc,
    /// Keep sources even after success.
    pub preserve: bool,
    /// Direction of the run.
    pub to_encrypt: bool,
    /// The run's lane count, which also sizes each worker batch.
    pub n_jobs: usize,
}

impl Job {
    /// Bundles one lane's work.
    pub fn new(
        path_list: Vec<String>,
        xrc: Xrc,
        preserve: bool,
        to_encrypt: bool,
        n_jobs: usize,
    ) -> (j: Job)
        ensures
            j.path_list == path_list,
            j.xrc == xrc,
            j.preserve == preserve,
            j.to_encrypt == to_encrypt,
            j.n_jobs == n_jobs,
    {
        Job { path_list, xrc, preserve, to_encrypt, n_jobs }
    }

    /// How many chunks one worker batch dispatches: half the lane count,
    /// but at least one.
    pub fn batch_size(&self) -> (b: usize)
        ensures
            b == if self.n_jobs / 2 >= 1 {
                self.n_jobs / 2
            } else {
                1
            },
    {
        let half = self.n_jobs / 2;
        if half >= 1 {
            half
        } else {
            1
        }
    }

    /// Disposal: the source file goes only when the whole pipeline
    /// succeeded and preservation was not requested.
    pub fn should_delete_source(&self, success: bool) -> (d: bool)
        ensures
            d == (success && !self.preserve),
    {
        success && !self.preserve
    }

    /// Runs the whole per-file state machine on an in-memory file: computes
    /// the destination name, short-circuits a skipped or empty source, and
    /// otherwise pushes the content through the signature step and the
    /// chunk pipeline.  The fixed chunk size applies.
    pub fn process_file_bytes(&self, src_path: &str, content: Vec<u8>) -> (r: AppResult<
        ProcessedFile,
    >)
        requires
            self.xrc.wf(),
        ensures
            ({
                let legacy = self.xrc.uses_legacy_scheme();
                let key = self.xrc.key_bytes();
                let dest = dest_path_of(src_path@, self.to_encrypt);
                let chunk = CHUNK_SIZE as nat;
                &&& (r matches Ok(p) ==> p.dest_path@ == dest)
                &&& (r matches Ok(p) ==> (p.delete_source <==> !self.preserve && dest
                    != src_path@))
                &&& (dest == src_path@ ==> (r matches Ok(p) && p.output is None))
                &&& (dest != src_path@ && content@.len() == 0 ==> (r matches Ok(p)
                    && p.output is None))
                &&& (dest != src_path@ && content@.len() > 0 && self.to_encrypt ==> {
                    &&& (r is Ok <==> legacy || key.len() >= 6)
                    &&& (r matches Err(e) ==> e == AppError::XrcError)
                    &&& (r matches Ok(p) ==> p.output matches Some(o) && {
                        &&& o@.len() > 32
                        &&& o@.subrange(0, 32) == signature_of(legacy, key, src_path@)
                        &&& (legacy ==> o@ == signature_of(legacy, key, src_path@)
                            + v1_payload_of(key, content@, chunk) && o@.len() == 32
                            + content@.len())
                        &&& (legacy ==> decrypt_file_of(legacy, key, src_path@, o@, chunk)
                            == Ok::<Seq<u8>, AppError>(content@))
                        &&& (!legacy && 8 * ((content@.len() + 7) / 8) + 16 <= chunk
                            ==> decrypt_file_of(legacy, key, src_path@, o@, chunk) == Ok::<
                            Seq<u8>,
                            AppError,
                        >(content@))
                    })
                })
                &&& (dest != src_path@ && content@.len() > 0 && !self.to_encrypt ==> {
                    let s = decrypt_file_of(legacy, key, dest, content@, chunk);
                    match r {
                        Ok(p) => p.output matches Some(o) && s == Ok::<Seq<u8>, AppError>(o@),
                        Err(e) => s == Err::<Seq<u8>, AppError>(e),
                    }
                })
            }),
    {
        let dest_path = compute_dest_path(src_path, self.to_encrypt);
        let src_owned = src_path.to_owned();
        if dest_path == src_owned {
            return Ok(ProcessedFile { dest_path, output: None, delete_source: false });
        }
        if content.len() == 0 {
            let delete_source = self.should_delete_source(true);
            return Ok(ProcessedFile { dest_path, output: None, delete_source });
        }
        proof {
            assert(CHUNK_SIZE as usize as nat == CHUNK_SIZE as nat);
        }
        if self.to_encrypt {
            match encrypt_bytes(&self.xrc, src_path, content, CHUNK_SIZE as usize) {
                Ok(bytes) => {
                    let delete_source = self.should_delete_source(true);
                    Ok(ProcessedFile { dest_path, output: Some(bytes), delete_source })
                },
                Err(e) => Err(e),
            }
        } else {
            match decrypt_bytes(&self.xrc, dest_path.as_str(), content, CHUNK_SIZE as usize) {
                Ok(bytes) => {
                    let delete_source = self.should_delete_source(true);
                    Ok(ProcessedFile { dest_path, output: Some(bytes), delete_source })
                },
                Err(e) => Err(e),
            }
        }
    }
}

} // verus!
