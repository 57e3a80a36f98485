//! Chunk layout of a source file.
//!
//! A file is processed as `total_chunks` chunks of at most `CHUNK_SIZE`
//! bytes.  Every chunk except the last holds exactly `CHUNK_SIZE` bytes; the
//! last holds the remainder, or a full chunk when the length divides evenly.
//! When decrypting, the leading 32-byte signature header is not part of the
//! chunked region.  [`FileHandler`] carries the layout; the caller that owns
//! the actual file reads chunks sequentially with the sizes this module
//! dictates.

use vstd::arithmetic::div_mod::lemma_fundamental_div_mod_converse;
use vstd::prelude::*;

use crate::err::{AppError, AppResult};

verus! {

/// Fixed maximum chunk size: 64 MiB.
pub const CHUNK_SIZE: u64 = 1024u64 * 1024u64 * 64u64;

/// Length in bytes of the signature header of an encrypted file.
pub const HASH_LEN: u64 = 32u64;

/// How many chunks a region of `len` bytes splits into.
pub open spec fn chunk_count_of(len: nat, chunk: nat) -> nat {
    if len % chunk == 0 {
        len / chunk
    } else {
        len / chunk + 1
    }
}

/// The length of the final chunk of a region of `len` bytes.
pub open spec fn last_chunk_len_of(len: nat, chunk: nat) -> nat {
    if len % chunk == 0 {
        chunk
    } else {
        len % chunk
    }
}

/// The length of chunk `idx` of a region of `len` bytes.
pub open spec fn chunk_len_at(len: nat, chunk: nat, idx: nat) -> nat {
    if idx + 1 == chunk_count_of(len, chunk) {
        last_chunk_len_of(len, chunk)
    } else {
        chunk
    }
}

/// The region a file's chunks cover: the whole file when encrypting, the
/// bytes after the signature header when decrypting.
pub open spec fn payload_len_of(file_len: nat, to_encrypt: bool) -> int {
    if to_encrypt {
        file_len as int
    } else {
        file_len - HASH_LEN
    }
}

/// Splits `data` into consecutive pieces of `chunk` bytes; the final piece
/// holds whatever remains.  Empty data yields no pieces.
pub open spec fn chunks_of(data: Seq<u8>, chunk: nat) -> Seq<Seq<u8>>
    decreases data.len(),
{
    if chunk == 0 || data.len() == 0 {
        Seq::empty()
    } else if data.len() <= chunk {
        seq![data]
    } else {
        seq![data.subrange(0, chunk as int)] + chunks_of(
            data.subrange(chunk as int, data.len() as int),
            chunk,
        )
    }
}

/// Concatenation of a sequence of byte sequences.
pub open spec fn concat_of(chunks: Seq<Seq<u8>>) -> Seq<u8>
    decreases chunks.len(),
{
    if chunks.len() == 0 {
        Seq::empty()
    } else {
        chunks[0] + concat_of(chunks.drop_first())
    }
}

/// Reassembling the chunks of a region gives the region back.
pub proof fn lemma_chunks_concat(data: Seq<u8>, chunk: nat)
    requires
        chunk > 0,
    ensures
        concat_of(chunks_of(data, chunk)) == data,
    decreases data.len(),
{
    if data.len() == 0 {
        assert(concat_of(chunks_of(data, chunk)) =~= data);
    } else if data.len() <= chunk {
        reveal_with_fuel(concat_of, 2);
        assert((seq![data]).drop_first() =~= Seq::<Seq<u8>>::empty());
        assert(concat_of(chunks_of(data, chunk)) =~= data);
    } else {
        let rest = data.subrange(chunk as int, data.len() as int);
        lemma_chunks_concat(rest, chunk);
        assert(chunks_of(data, chunk).drop_first() =~= chunks_of(rest, chunk));
        assert(concat_of(chunks_of(data, chunk)) =~= data);
    }
}

/// The number of chunks follows the layout formula.
pub proof fn lemma_chunks_count(data: Seq<u8>, chunk: nat)
    requires
        chunk > 0,
    ensures
        chunks_of(data, chunk).len() == chunk_count_of(data.len(), chunk),
    decreases data.len(),
{
    if data.len() == 0 {
        assert(data.len() % chunk == 0) by {
            lemma_fundamental_div_mod_converse(data.len() as int, chunk as int, 0, 0);
        }
    } else if data.len() <= chunk {
        if data.len() < chunk {
            assert(data.len() / chunk == 0 && data.len() % chunk == data.len()) by {
                lemma_fundamental_div_mod_converse(
                    data.len() as int,
                    chunk as int,
                    0,
                    data.len() as int,
                );
            }
        } else {
            assert(data.len() / chunk == 1 && data.len() % chunk == 0) by {
                lemma_fundamental_div_mod_converse(data.len() as int, chunk as int, 1, 0);
            }
        }
    } else {
        let rest = data.subrange(chunk as int, data.len() as int);
        lemma_chunks_count(rest, chunk);
        lemma_chunk_count_step(data.len(), chunk);
    }
}

/// One full chunk more in the region means one chunk more in the count.
proof fn lemma_chunk_count_step(len: nat, chunk: nat)
    requires
        chunk > 0,
        len > chunk,
    ensures
        chunk_count_of(len, chunk) == chunk_count_of((len - chunk) as nat, chunk) + 1,
        last_chunk_len_of(len, chunk) == last_chunk_len_of((len - chunk) as nat, chunk),
{
    let rest = (len - chunk) as nat;
    let q = rest / chunk;
    let r = rest % chunk;
    vstd::arithmetic::div_mod::lemma_fundamental_div_mod(rest as int, chunk as int);
    assert(rest == q * chunk + r && r < chunk);
    assert(len == (q + 1) * chunk + r) by (nonlinear_arith)
        requires
            rest == q * chunk + r,
            len == rest + chunk,
    ;
    lemma_fundamental_div_mod_converse(len as int, chunk as int, q as int + 1, r as int);
}

/// Every chunk has the length the layout formula gives it: a full chunk
/// everywhere except the last position, the remainder there.
pub proof fn lemma_chunks_len_at(data: Seq<u8>, chunk: nat, i: int)
    requires
        chunk > 0,
        0 <= i < chunks_of(data, chunk).len(),
    ensures
        chunks_of(data, chunk)[i].len() == chunk_len_at(data.len(), chunk, i as nat),
        1 <= chunks_of(data, chunk)[i].len() <= chunk,
    decreases data.len(),
{
    lemma_chunks_count(data, chunk);
    if data.len() <= chunk {
        if data.len() < chunk {
            lemma_fundamental_div_mod_converse(data.len() as int, chunk as int, 0, data.len() as int);
        } else {
            lemma_fundamental_div_mod_converse(data.len() as int, chunk as int, 1, 0);
        }
    } else {
        let rest = data.subrange(chunk as int, data.len() as int);
        lemma_chunk_count_step(data.len(), chunk);
        lemma_chunks_count(rest, chunk);
        if i > 0 {
            lemma_chunks_len_at(rest, chunk, i - 1);
        }
    }
}

/// Chunking is the inverse of concatenation: a non-empty sequence of pieces
/// in which every piece but the last is exactly `chunk` bytes, and the last
/// is between 1 and `chunk` bytes, is recovered by chunking its
/// concatenation.
pub proof fn lemma_chunks_of_concat(pieces: Seq<Seq<u8>>, chunk: nat)
    requires
        chunk > 0,
        pieces.len() > 0,
        forall|i: int| 0 <= i < pieces.len() - 1 ==> #[trigger] pieces[i].len() == chunk,
        1 <= pieces.last().len() <= chunk,
    ensures
        chunks_of(concat_of(pieces), chunk) == pieces,
    decreases pieces.len(),
{
    let whole = concat_of(pieces);
    if pieces.len() == 1 {
        reveal_with_fuel(concat_of, 2);
        assert(pieces.drop_first() =~= Seq::<Seq<u8>>::empty());
        assert(whole =~= pieces[0]);
        assert(chunks_of(whole, chunk) =~= pieces);
    } else {
        let rest = pieces.drop_first();
        lemma_chunks_of_concat(rest, chunk);
        lemma_concat_len_lower(rest);
        assert(whole.len() == chunk + concat_of(rest).len());
        assert(whole.subrange(0, chunk as int) =~= pieces[0]);
        assert(whole.subrange(chunk as int, whole.len() as int) =~= concat_of(rest));
        assert(chunks_of(whole, chunk) =~= pieces);
    }
}

/// Concatenation distributes over appending one more piece.
pub proof fn lemma_concat_push(pieces: Seq<Seq<u8>>, x: Seq<u8>)
    ensures
        concat_of(pieces.push(x)) == concat_of(pieces) + x,
    decreases pieces.len(),
{
    if pieces.len() == 0 {
        reveal_with_fuel(concat_of, 2);
        assert(pieces.push(x).drop_first() =~= Seq::<Seq<u8>>::empty());
        assert(concat_of(pieces.push(x)) =~= concat_of(pieces) + x);
    } else {
        assert(pieces.push(x).drop_first() =~= pieces.drop_first().push(x));
        lemma_concat_push(pieces.drop_first(), x);
        assert(concat_of(pieces.push(x)) =~= concat_of(pieces) + x);
    }
}

/// A non-empty sequence of pieces concatenates to something at least as
/// long as its first piece.
pub proof fn lemma_concat_len_lower(pieces: Seq<Seq<u8>>)
    requires
        pieces.len() > 0,
    ensures
        concat_of(pieces).len() >= pieces[0].len(),
    decreases pieces.len(),
{
}

/// The layout of one file: how many chunks it splits into and how long each
/// chunk is.  Holds no file handle; the caller reads the actual bytes.
pub struct FileHandler {
    /// Length in bytes of the chunked region.
    pub length: u64,
    /// Maximum chunk size this layout was computed with.
    pub chunk_size: u64,
    /// Number of chunks.
    pub total_chunks: u64,
    /// Length of the final chunk.
    pub last_chunk_len: u64,
}

impl FileHandler {
    /// The fields agree with the layout formulas.
    pub open spec fn wf(&self) -> bool {
        &&& self.chunk_size > 16
        &&& self.total_chunks == chunk_count_of(self.length as nat, self.chunk_size as nat)
        &&& self.last_chunk_len == last_chunk_len_of(self.length as nat, self.chunk_size as nat)
    }

    /// Computes the chunk layout for a file of `file_len` bytes using the
    /// fixed chunk size.  When decrypting, the file must hold at least the
    /// signature header; a shorter file is an I/O failure.
    pub fn new(file_len: u64, to_encrypt: bool) -> (r: AppResult<FileHandler>)
        ensures
            r matches Ok(fh) ==> {
                &&& fh.wf()
                &&& fh.chunk_size == CHUNK_SIZE
                &&& fh.length == payload_len_of(file_len as nat, to_encrypt)
            },
            r matches Err(e) ==> e == AppError::IoError && !to_encrypt && file_len < HASH_LEN,
    {
        Self::with_chunk_size(file_len, to_encrypt, CHUNK_SIZE)
    }

    /// As [`FileHandler::new`], with an explicit chunk size.
    pub fn with_chunk_size(file_len: u64, to_encrypt: bool, chunk_size: u64) -> (r: AppResult<
        FileHandler,
    >)
        requires
            chunk_size > 16,
        ensures
            r matches Ok(fh) ==> {
                &&& fh.wf()
                &&& fh.chunk_size == chunk_size
                &&& fh.length == payload_len_of(file_len as nat, to_encrypt)
            },
            r matches Err(e) ==> e == AppError::IoError && !to_encrypt && file_len < HASH_LEN,
    {
        let length: u64 = if to_encrypt {
            file_len
        } else {
            if file_len < HASH_LEN {
                return Err(AppError::IoError);
            }
            file_len - HASH_LEN
        };
        let mut total_chunks: u64 = length / chunk_size;
        let mut last_chunk_len: u64 = length % chunk_size;
        if last_chunk_len != 0 {
            assert(total_chunks < u64::MAX) by (nonlinear_arith)
                requires
                    total_chunks == length / chunk_size,
                    chunk_size > 16,
                    length <= u64::MAX,
            ;
            total_chunks = total_chunks + 1;
        } else {
            last_chunk_len = chunk_size;
        }
        Ok(FileHandler { length, chunk_size, total_chunks, last_chunk_len })
    }

    /// How many chunks the file splits into.
    pub fn get_total_chunks(&self) -> (n: usize)
        requires
            self.total_chunks <= usize::MAX,
        ensures
            n == self.total_chunks,
    {
        self.total_chunks as usize
    }

    /// The layout agrees with the chunked region itself: a region of
    /// `length` bytes splits into exactly `total_chunks` pieces, piece
    /// `idx` holding precisely the `chunk_len` bytes this handler dictates
    /// for it, and the pieces reassemble to the region.  Chunk ids are
    /// therefore exactly `0 .. total_chunks`, each covering its region
    /// once, in order.
    pub proof fn lemma_layout(self, data: Seq<u8>)
        requires
            self.wf(),
            data.len() == self.length,
        ensures
            chunks_of(data, self.chunk_size as nat).len() == self.total_chunks,
            forall|i: int|
                0 <= i < self.total_chunks ==> #[trigger] chunks_of(
                    data,
                    self.chunk_size as nat,
                )[i].len() == chunk_len_at(self.length as nat, self.chunk_size as nat, i as nat),
            concat_of(chunks_of(data, self.chunk_size as nat)) == data,
    {
        lemma_chunks_count(data, self.chunk_size as nat);
        lemma_chunks_concat(data, self.chunk_size as nat);
        assert forall|i: int| 0 <= i < self.total_chunks implies #[trigger] chunks_of(
            data,
            self.chunk_size as nat,
        )[i].len() == chunk_len_at(self.length as nat, self.chunk_size as nat, i as nat) by {
            lemma_chunks_len_at(data, self.chunk_size as nat, i);
        }
    }

    /// The number of bytes to read for chunk `idx`: the remainder for the
    /// final chunk, a full chunk otherwise.
    pub fn chunk_len(&self, idx: u64) -> (l: u64)
        requires
            self.wf(),
            idx < self.total_chunks,
        ensures
            l == chunk_len_at(self.length as nat, self.chunk_size as nat, idx as nat),
            1 <= l <= self.chunk_size,
    {
        proof {
            vstd::arithmetic::div_mod::lemma_mod_division_less_than_divisor(
                self.length as int,
                self.chunk_size as int,
            );
        }
        if idx == self.total_chunks - 1 {
            self.last_chunk_len
        } else {
            self.chunk_size
        }
    }
}

} // verus!
