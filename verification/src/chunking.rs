//! How a shared file is cut into fixed-size chunks and how each chunk is
//! described (index, size, CRC32).

use vstd::prelude::*;

verus! {

/// Size of a full chunk: 50 MiB.
pub const CHUNK_SIZE: u64 = 50 * 1024 * 1024;

/// Largest file size whose chunk count still fits in a `u32`.
pub const MAX_SHAREABLE_SIZE: u64 = 4294967295 * CHUNK_SIZE;

/// Number of chunks of a file of `total` bytes: one chunk for an empty
/// file, otherwise the number of `CHUNK_SIZE` pieces rounded up.
pub open spec fn spec_chunk_count(total: nat) -> nat {
    if total == 0 {
        1
    } else {
        ((total + CHUNK_SIZE - 1) / (CHUNK_SIZE as int)) as nat
    }
}

/// Byte offset at which chunk `index` starts.
pub open spec fn spec_chunk_offset(index: nat) -> nat {
    index * (CHUNK_SIZE as nat)
}

/// Size of chunk `index` of a file of `total` bytes: what is left after the
/// chunk's offset, capped at `CHUNK_SIZE`.
pub open spec fn spec_chunk_size(total: nat, index: nat) -> nat {
    let start = spec_chunk_offset(index);
    if total <= start {
        0
    } else if total - start < CHUNK_SIZE {
        (total - start) as nat
    } else {
        CHUNK_SIZE as nat
    }
}

/// Sum of the sizes of the first `n` chunks.
pub open spec fn spec_chunk_sizes_sum(total: nat, n: nat) -> nat
    decreases n,
{
    if n == 0 {
        0
    } else {
        spec_chunk_sizes_sum(total, (n - 1) as nat) + spec_chunk_size(total, (n - 1) as nat)
    }
}

/// Number of chunks of a file of `total_size` bytes.
pub fn chunk_count_for(total_size: u64) -> (n: u32)
    requires
        total_size <= MAX_SHAREABLE_SIZE,
    ensures
        n == spec_chunk_count(total_size as nat),
        n >= 1,
{
    if total_size == 0 {
        1
    } else {
        let q: u64 = (total_size + CHUNK_SIZE - 1) / CHUNK_SIZE;
        assert(q <= 4294967295) by (nonlinear_arith)
            requires
                q == (total_size + CHUNK_SIZE - 1) / (CHUNK_SIZE as int),
                total_size <= 4294967295 * CHUNK_SIZE,
                CHUNK_SIZE == 52428800,
        ;
        assert(q >= 1) by (nonlinear_arith)
            requires
                q == (total_size + CHUNK_SIZE - 1) / (CHUNK_SIZE as int),
                total_size >= 1,
                CHUNK_SIZE == 52428800,
        ;
        q as u32
    }
}

/// Byte range of chunk `index` in a file of `total_size` bytes, as
/// `(offset, size)`.
pub fn chunk_span(total_size: u64, index: u32) -> (span: (u64, u64))
    ensures
        span.0 == spec_chunk_offset(index as nat),
        span.1 == spec_chunk_size(total_size as nat, index as nat),
{
    assert(index as u64 * CHUNK_SIZE <= 4294967295 * CHUNK_SIZE) by (nonlinear_arith)
        requires
            index <= 4294967295,
            CHUNK_SIZE == 52428800,
    ;
    let offset: u64 = index as u64 * CHUNK_SIZE;
    let remaining: u64 = total_size.saturating_sub(offset);
    let size: u64 = if remaining < CHUNK_SIZE { remaining } else { CHUNK_SIZE };
    (offset, size)
}

/// What the library knows of one chunk of a shared file.
#[derive(Clone, Copy, Debug, PartialEq, Eq, Structural)]
pub struct ChunkMeta {
    /// Position of the chunk in the file (0-based).
    pub index: u32,
    /// Number of bytes in the chunk.
    pub size: u64,
    /// CRC-32 of the chunk's bytes.
    pub crc32: u32,
}

/// One bit step of the CRC-32 register (IEEE polynomial, reflected: 0xEDB88320).
pub open spec fn crc32_step(c: u32) -> u32 {
    if c & 1 == 1 {
        (c >> 1) ^ 0xEDB8_8320u32
    } else {
        c >> 1
    }
}

/// The CRC-32 register after taking in byte `b`, low bit first.
pub open spec fn crc32_byte(c: u32, b: u8) -> u32 {
    let x = c ^ (b as u32);
    crc32_step(crc32_step(crc32_step(crc32_step(crc32_step(crc32_step(crc32_step(crc32_step(x))))))))
}

/// The CRC-32 register after taking in `data`, starting from all ones.
pub open spec fn crc32_register(data: Seq<u8>) -> u32
    decreases data.len(),
{
    if data.len() == 0 {
        0xFFFF_FFFFu32
    } else {
        crc32_byte(crc32_register(data.drop_last()), data.last())
    }
}

/// The CRC-32 (ISO-HDLC / IEEE 802.3, as `crc32fast::hash` computes it) of
/// a byte sequence: the final register, inverted.
pub open spec fn crc32_checksum(data: Seq<u8>) -> u32 {
    crc32_register(data) ^ 0xFFFF_FFFFu32
}

/// Trusted: `crc32fast::hash`. Claims that the result is the CRC-32 of
/// exactly the given bytes, as `crc32_checksum` defines it.
#[verifier::external_body]
fn crc32_of(data: &[u8]) -> (crc: u32)
    ensures
        crc == crc32_checksum(data@),
{
    crc32fast::hash(data)
}

/// Describes chunk `index` whose bytes are `data`.
pub fn chunk_meta(index: u32, data: &[u8]) -> (meta: ChunkMeta)
    ensures
        meta.index == index,
        meta.size == data@.len(),
        meta.crc32 == crc32_checksum(data@),
{
    let crc = crc32_of(data);
    ChunkMeta { index, size: data.len() as u64, crc32: crc }
}

/// The description of chunk `index` whose bytes are `data`.
pub open spec fn meta_of(index: int, data: Seq<u8>) -> ChunkMeta {
    ChunkMeta { index: index as u32, size: data.len() as u64, crc32: crc32_checksum(data) }
}

/// The descriptions of successive chunks whose bytes are `pieces`.
pub open spec fn metas_of(pieces: Seq<Seq<u8>>) -> Seq<ChunkMeta> {
    Seq::new(pieces.len(), |j: int| meta_of(j, pieces[j]))
}

/// The bytes of chunk `j` of a file whose contents are `data`.
pub open spec fn piece_of(data: Seq<u8>, j: nat) -> Seq<u8> {
    data.subrange(spec_chunk_offset(j) as int, (spec_chunk_offset(j) + spec_chunk_size(data.len(), j)) as int)
}

/// The chunk descriptions of a file whose contents are `data`.
pub open spec fn file_chunks(data: Seq<u8>) -> Seq<ChunkMeta> {
    Seq::new(spec_chunk_count(data.len()), |j: int| meta_of(j, piece_of(data, j as nat)))
}

/// `pieces` are the first chunks of a file of `total` bytes as read: no
/// more than the file has, each no longer than its place in the layout
/// (shorter only if the file ended early).
pub open spec fn pieces_fit(total: nat, pieces: Seq<Seq<u8>>) -> bool {
    &&& pieces.len() <= spec_chunk_count(total)
    &&& forall|j: int| 0 <= j < pieces.len() ==> #[trigger] pieces[j].len() <= spec_chunk_size(total, j as nat)
}

/// Why a chunk list refuses a piece, or cannot describe a file yet.
#[derive(Clone, Copy, Debug, PartialEq, Eq, Structural)]
pub enum ChunkListError {
    /// Every chunk of the file has been read already.
    TooManyChunks,
    /// The piece is longer than its chunk.
    ChunkTooLarge,
    /// Some chunk of the file has not been read yet.
    Incomplete,
}

/// The chunks of a file of a given size, described as they are read, in order.
pub struct ChunkList {
    total_size: u64,
    chunks: Vec<ChunkMeta>,
    pieces: Ghost<Seq<Seq<u8>>>,
}

/// What a chunk list is: the file size and the bytes of the chunks read so far.
pub struct ChunkListView {
    pub total_size: u64,
    pub pieces: Seq<Seq<u8>>,
}

impl View for ChunkList {
    type V = ChunkListView;

    closed spec fn view(&self) -> ChunkListView {
        ChunkListView { total_size: self.total_size, pieces: self.pieces@ }
    }
}

impl ChunkList {
    /// The list describes exactly the pieces read, which fit the layout.
    pub closed spec fn wf(&self) -> bool {
        &&& self.total_size <= MAX_SHAREABLE_SIZE
        &&& self.chunks@ == metas_of(self.pieces@)
        &&& pieces_fit(self.total_size as nat, self.pieces@)
    }

    /// Every chunk has been read.
    pub open spec fn complete(&self) -> bool {
        self@.pieces.len() == spec_chunk_count(self@.total_size as nat)
    }

    /// A list for a file of `total_size` bytes, no chunk read yet.
    pub fn new(total_size: u64) -> (l: Self)
        requires
            total_size <= MAX_SHAREABLE_SIZE,
        ensures
            l.wf(),
            l@.total_size == total_size,
            l@.pieces == Seq::<Seq<u8>>::empty(),
    {
        let l = ChunkList { total_size, chunks: Vec::new(), pieces: Ghost(Seq::empty()) };
        proof {
            assert(l.chunks@ =~= metas_of(l.pieces@));
        }
        l
    }

    /// The next chunk to read, as `(index, offset, size)`; none once every
    /// chunk is read.
    pub fn next_chunk(&self) -> (r: Option<(u32, u64, u64)>)
        requires
            self.wf(),
        ensures
            self.complete() ==> r is None,
            !self.complete() ==> {
                let j = self@.pieces.len();
                &&& r matches Some(t)
                &&& t.0 == j
                &&& t.1 == spec_chunk_offset(j)
                &&& t.2 == spec_chunk_size(self@.total_size as nat, j)
            },
    {
        let n = chunk_count_for(self.total_size);
        if (self.chunks.len() as u64) < (n as u64) {
            let j = self.chunks.len() as u32;
            let (offset, size) = chunk_span(self.total_size, j);
            Some((j, offset, size))
        } else {
            None
        }
    }

    /// Records the bytes `data` of the next chunk.
    pub fn push(&mut self, data: &[u8]) -> (r: Result<(), ChunkListError>)
        requires
            old(self).wf(),
        ensures
            final(self).wf(),
            final(self)@.total_size == old(self)@.total_size,
            old(self).complete() ==> r == Err::<(), ChunkListError>(ChunkListError::TooManyChunks)
                && final(self)@ == old(self)@,
            !old(self).complete() && data@.len() > spec_chunk_size(
                old(self)@.total_size as nat,
                old(self)@.pieces.len(),
            ) ==> r == Err::<(), ChunkListError>(ChunkListError::ChunkTooLarge) && final(self)@ == old(self)@,
            !old(self).complete() && data@.len() <= spec_chunk_size(
                old(self)@.total_size as nat,
                old(self)@.pieces.len(),
            ) ==> r is Ok && final(self)@.pieces == old(self)@.pieces.push(data@),
    {
        let next = self.next_chunk();
        match next {
            None => Err(ChunkListError::TooManyChunks),
            Some((j, _offset, size)) => {
                if data.len() as u64 > size {
                    return Err(ChunkListError::ChunkTooLarge);
                }
                let meta = chunk_meta(j, data);
                let ghost before = self.pieces@;
                self.chunks.push(meta);
                self.pieces = Ghost(before.push(data@));
                proof {
                    assert(meta == meta_of(j as int, data@));
                    assert(self.chunks@ =~= metas_of(self.pieces@));
                }
                Ok(())
            },
        }
    }

    /// The file size and the descriptions of its chunks, once every chunk
    /// is read.
    pub fn finish(self) -> (r: Result<(u64, Vec<ChunkMeta>), ChunkListError>)
        requires
            self.wf(),
        ensures
            !self.complete() ==> r == Err::<(u64, Vec<ChunkMeta>), ChunkListError>(ChunkListError::Incomplete),
            self.complete() ==> (r matches Ok(t) && t.0 == self@.total_size && t.0 <= MAX_SHAREABLE_SIZE && t.1@
                == metas_of(self@.pieces)),
    {
        let n = chunk_count_for(self.total_size);
        if (self.chunks.len() as u64) < (n as u64) {
            Err(ChunkListError::Incomplete)
        } else {
            Ok((self.total_size, self.chunks))
        }
    }
}

/// The first `k` chunks together cover `min(total, k * CHUNK_SIZE)` bytes.
pub proof fn lemma_chunk_prefix_sum(total: nat, k: nat)
    ensures
        spec_chunk_sizes_sum(total, k) == if total <= k * (CHUNK_SIZE as nat) {
            total
        } else {
            k * (CHUNK_SIZE as nat)
        },
    decreases k,
{
    if k > 0 {
        let j = (k - 1) as nat;
        lemma_chunk_prefix_sum(total, j);
        let c = CHUNK_SIZE as nat;
        assert(j * c + c == k * c) by (nonlinear_arith)
            requires
                j + 1 == k,
        ;
        assert(spec_chunk_offset(j) == j * c);
        assert(spec_chunk_sizes_sum(total, k) == spec_chunk_sizes_sum(total, j) + spec_chunk_size(total, j));
        if total <= j * c {
            assert(spec_chunk_size(total, j) == 0);
            assert(total <= k * c);
        } else if total - j * c < c {
            assert(spec_chunk_size(total, j) == total - j * c);
        } else {
            assert(spec_chunk_size(total, j) == c);
        }
    } else {
        assert(k * (CHUNK_SIZE as nat) == 0) by (nonlinear_arith)
            requires
                k == 0,
        ;
    }
}

/// The chunks of a file, taken together, cover exactly the file: their
/// sizes add up to the file size.
pub proof fn lemma_chunks_cover_file(total: nat)
    ensures
        spec_chunk_sizes_sum(total, spec_chunk_count(total)) == total,
{
    let n = spec_chunk_count(total);
    lemma_chunk_prefix_sum(total, n);
    if total > 0 {
        let c = CHUNK_SIZE as int;
        assert(n * c >= total) by (nonlinear_arith)
            requires
                n == (total + c - 1) / c,
                c == 52428800,
                total > 0,
        ;
    }
}

} // verus!
