//! Splitting an artifact into checksummed chunks, and checking chunks received from peers.
use vstd::prelude::*;
use crate::digest::{blake3_hex, blake3_text};

verus! {

/// One chunk of an artifact: its position among the chunks, where it starts,
/// how many bytes it holds, and the BLAKE3 hash of those bytes.
#[derive(Debug, Clone, PartialEq, Eq)]
pub struct ArtifactChunk {
    pub index: u32,
    pub offset: u64,
    pub size: usize,
    pub checksum: String,
}

/// The chunks of one artifact.
#[derive(Debug, Clone, PartialEq, Eq)]
pub struct ChunkManifest {
    pub artifact_hash: String,
    pub total_bytes: u64,
    pub chunk_size: usize,
    pub chunks: Vec<ArtifactChunk>,
}

/// The chunk size used when none (zero) is asked for: one MiB.
pub open spec fn effective_chunk_size(chunk_size: usize) -> nat {
    if chunk_size == 0 {
        1048576
    } else {
        chunk_size as nat
    }
}

/// The bytes of chunk `i` when `data` is cut into pieces of `size` bytes, the
/// last one possibly shorter.
pub open spec fn chunk_len(total: int, size: int, i: int) -> int {
    if size < total - i * size {
        size
    } else {
        total - i * size
    }
}

/// `m` is the manifest of `data` under `hash`, cut into chunks of `chunk_size`
/// bytes (one MiB where it is zero): as many chunks as it takes to cover the
/// data, chunk `i` starting at `i` times the chunk size, each hashed with BLAKE3.
pub open spec fn describes(m: ChunkManifest, hash: Seq<char>, data: Seq<u8>, chunk_size: usize) -> bool {
    let cs = effective_chunk_size(chunk_size) as int;
    let n = m.chunks@.len() as int;
    &&& m.artifact_hash@ == hash
    &&& m.total_bytes == data.len()
    &&& m.chunk_size == cs
    &&& n * cs >= data.len()
    &&& (n == 0 || (n - 1) * cs < data.len())
    &&& forall|i: int|
        0 <= i < n ==> {
            &&& (#[trigger] m.chunks@[i]).index == i
            &&& m.chunks@[i].offset == i * cs
            &&& m.chunks@[i].size == chunk_len(data.len() as int, cs, i)
            &&& m.chunks@[i].checksum@ == blake3_text(
                data.subrange(i * cs, i * cs + chunk_len(data.len() as int, cs, i)),
            )
        }
}

/// Whether `chunk_data` matches chunk `index` of `m`: same length, same hash.
pub open spec fn chunk_accepts(m: ChunkManifest, index: int, chunk_data: Seq<u8>) -> bool {
    &&& 0 <= index < m.chunks@.len()
    &&& m.chunks@[index].size == chunk_data.len()
    &&& m.chunks@[index].checksum@ == blake3_text(chunk_data)
}

proof fn lemma_index_fits(idx: int, cs: int, total: int)
    by (nonlinear_arith)
    requires
        cs > 0,
        idx >= 0,
        idx * cs < total,
        total <= 4294967295 * cs,
    ensures
        idx < 4294967295,
{
}

proof fn lemma_step(idx: int, cs: int)
    by (nonlinear_arith)
    ensures
        (idx + 1) * cs == idx * cs + cs,
{
}

impl ChunkManifest {
    /// Cuts `data` into chunks of `chunk_size` bytes (one MiB where it is zero)
    /// and records each chunk's offset, length and BLAKE3 hash.
    pub fn create_from_bytes(artifact_hash: &str, data: &[u8], chunk_size: usize) -> (m: ChunkManifest)
        requires
            data@.len() <= 4294967295 * effective_chunk_size(chunk_size),
        ensures
            describes(m, artifact_hash@, data@, chunk_size),
    {
        let cs: usize = if chunk_size == 0 {
            1048576
        } else {
            chunk_size
        };
        let total = data.len();
        let mut chunks: Vec<ArtifactChunk> = Vec::new();
        let mut offset: usize = 0;
        let mut idx: u32 = 0;
        while offset < total
            invariant
                cs == effective_chunk_size(chunk_size),
                total == data@.len(),
                total <= 4294967295 * cs,
                chunks@.len() == idx,
                offset == (if idx * cs < total {
                    idx * cs
                } else {
                    total as int
                }),
                idx > 0 ==> (idx - 1) * cs < total,
                forall|i: int|
                    0 <= i < idx ==> {
                        &&& (#[trigger] chunks@[i]).index == i
                        &&& chunks@[i].offset == i * cs
                        &&& chunks@[i].size == chunk_len(total as int, cs as int, i)
                        &&& chunks@[i].checksum@ == blake3_text(
                            data@.subrange(i * cs, i * cs + chunk_len(total as int, cs as int, i)),
                        )
                    },
            decreases total - offset,
        {
            proof {
                lemma_index_fits(idx as int, cs as int, total as int);
                lemma_step(idx as int, cs as int);
            }
            let remaining = total - offset;
            let size = if cs < remaining {
                cs
            } else {
                remaining
            };
            let end = offset + size;
            let checksum = blake3_hex(&data[offset..end]);
            chunks.push(ArtifactChunk { index: idx, offset: offset as u64, size, checksum });
            offset = end;
            idx = idx + 1;
        }
        ChunkManifest {
            artifact_hash: artifact_hash.to_owned(),
            total_bytes: total as u64,
            chunk_size: cs,
            chunks,
        }
    }

    /// Whether `chunk_data` is chunk `chunk_index` of the artifact: the chunk
    /// exists, and the data has its length and its hash.
    pub fn verify_chunk(&self, chunk_index: usize, chunk_data: &[u8]) -> (res: bool)
        ensures
            res == chunk_accepts(*self, chunk_index as int, chunk_data@),
            res <==> chunk_index < self.chunks@.len() && self.chunks@[chunk_index as int].size == chunk_data@.len()
                && self.chunks@[chunk_index as int].checksum@ == blake3_text(chunk_data@),
    {
        if chunk_index < self.chunks.len() {
            let chunk = &self.chunks[chunk_index];
            if chunk.size != chunk_data.len() {
                return false;
            }
            let hash = blake3_hex(chunk_data);
            chunk.checksum == hash
        } else {
            false
        }
    }
}

/// Law: every chunk of the data a manifest was made from passes `verify_chunk`.
pub proof fn lemma_every_chunk_verifies(m: ChunkManifest, hash: Seq<char>, data: Seq<u8>, chunk_size: usize, i: int)
    requires
        describes(m, hash, data, chunk_size),
        0 <= i < m.chunks@.len(),
    ensures
        chunk_accepts(m, i, data.subrange(m.chunks@[i].offset as int, m.chunks@[i].offset + m.chunks@[i].size)),
{
    let cs = effective_chunk_size(chunk_size) as int;
    assert(m.chunks@[i].offset == i * cs);
}

/// Law: the chunks tile the data: the first starts at 0, each starts where the
/// one before it ends, and the last ends at the end of the data. No chunk is empty.
pub proof fn lemma_chunks_tile(m: ChunkManifest, hash: Seq<char>, data: Seq<u8>, chunk_size: usize)
    requires
        describes(m, hash, data, chunk_size),
    ensures
        m.chunks@.len() > 0 ==> m.chunks@[0].offset == 0,
        forall|i: int|
            0 < i < m.chunks@.len() ==> #[trigger] m.chunks@[i].offset == m.chunks@[i - 1].offset
                + m.chunks@[i - 1].size,
        m.chunks@.len() > 0 ==> m.chunks@.last().offset + m.chunks@.last().size == data.len(),
        forall|i: int| 0 <= i < m.chunks@.len() ==> #[trigger] m.chunks@[i].size > 0,
{
    let cs = effective_chunk_size(chunk_size) as int;
    let n = m.chunks@.len() as int;
    assert forall|i: int| 0 < i < n implies #[trigger] m.chunks@[i].offset == m.chunks@[i - 1].offset
        + m.chunks@[i - 1].size by {
        lemma_step(i - 1, cs);
        let c = m.chunks@[i - 1];
        assert(c.offset == (i - 1) * cs);
        assert((i - 1) * cs <= (n - 2) * cs) by (nonlinear_arith)
            requires i - 1 <= n - 2, cs > 0;
        lemma_step(n - 2, cs);
        assert(c.size == cs);
    }
    assert forall|i: int| 0 <= i < n implies #[trigger] m.chunks@[i].size > 0 by {
        assert(i * cs <= (n - 1) * cs) by (nonlinear_arith)
            requires i <= n - 1, cs > 0;
    }
    if n > 0 {
        lemma_step(n - 1, cs);
        assert(m.chunks@[n - 1].offset == (n - 1) * cs);
    }
}

/// Law: a chunk size of zero cuts the data as one of one MiB does: a manifest
/// describes the data at the one exactly when it does at the other.
pub proof fn lemma_zero_chunk_size_is_one_mebibyte(m: ChunkManifest, hash: Seq<char>, data: Seq<u8>)
    ensures
        describes(m, hash, data, 0) == describes(m, hash, data, 1048576),
{
}

/// Law: the manifest of the data is unique: two manifests that describe the
/// same data under the same hash and chunk size agree on every field.
pub proof fn lemma_manifest_unique(m1: ChunkManifest, m2: ChunkManifest, hash: Seq<char>, data: Seq<u8>, chunk_size: usize)
    requires
        describes(m1, hash, data, chunk_size),
        describes(m2, hash, data, chunk_size),
    ensures
        m1.artifact_hash@ == m2.artifact_hash@,
        m1.total_bytes == m2.total_bytes,
        m1.chunk_size == m2.chunk_size,
        m1.chunks@.len() == m2.chunks@.len(),
        forall|i: int|
            0 <= i < m1.chunks@.len() ==> {
                &&& (#[trigger] m1.chunks@[i]).index == m2.chunks@[i].index
                &&& m1.chunks@[i].offset == m2.chunks@[i].offset
                &&& m1.chunks@[i].size == m2.chunks@[i].size
                &&& m1.chunks@[i].checksum@ == m2.chunks@[i].checksum@
            },
{
    let cs = effective_chunk_size(chunk_size) as int;
    let n1 = m1.chunks@.len() as int;
    let n2 = m2.chunks@.len() as int;
    if n1 < n2 {
        assert(n1 * cs <= (n2 - 1) * cs) by (nonlinear_arith)
            requires n1 <= n2 - 1, cs > 0;
    }
    if n2 < n1 {
        assert(n2 * cs <= (n1 - 1) * cs) by (nonlinear_arith)
            requires n2 <= n1 - 1, cs > 0;
    }
    assert forall|i: int| 0 <= i < n1 implies {
        &&& (#[trigger] m1.chunks@[i]).index == m2.chunks@[i].index
        &&& m1.chunks@[i].offset == m2.chunks@[i].offset
        &&& m1.chunks@[i].size == m2.chunks@[i].size
        &&& m1.chunks@[i].checksum@ == m2.chunks@[i].checksum@
    } by {
        assert(m2.chunks@[i].index == i);
    }
}

/// Law: where BLAKE3 is free of collisions, a manifest made from `data`
/// accepts as chunk `i` exactly the bytes of chunk `i` of the data: the chunk's
/// own bytes pass, and any other bytes, those of another chunk among them, fail.
pub proof fn lemma_accepts_only_its_own_chunk(
    m: ChunkManifest,
    hash: Seq<char>,
    data: Seq<u8>,
    chunk_size: usize,
    i: int,
    offered: Seq<u8>,
)
    requires
        forall|x: Seq<u8>, y: Seq<u8>| #[trigger] blake3_text(x) == #[trigger] blake3_text(y) ==> x == y,
        describes(m, hash, data, chunk_size),
    ensures
        chunk_accepts(m, i, offered) <==> 0 <= i < m.chunks@.len() && offered == data.subrange(
            m.chunks@[i].offset as int,
            m.chunks@[i].offset + m.chunks@[i].size,
        ),
{
    if 0 <= i < m.chunks@.len() {
        let cs = effective_chunk_size(chunk_size) as int;
        let own = data.subrange(m.chunks@[i].offset as int, m.chunks@[i].offset + m.chunks@[i].size);
        assert(m.chunks@[i].offset == i * cs);
        assert(m.chunks@[i].checksum@ == blake3_text(own));
        if chunk_accepts(m, i, offered) {
            assert(blake3_text(offered) == blake3_text(own));
        }
    }
}

} // verus!
