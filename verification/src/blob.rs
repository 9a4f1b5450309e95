//! Reading a cluster blob.
use crate::bytes::{byte_i8, le_i16, le_u32, read_i16, read_i8, read_u32};
use crate::consts::{BLOCK_BYTES, BLOCK_I16, BLOCK_VECS, MAGIC, MCC_TABLE_SIZE, VECTOR_DIM, VERSION};
use crate::header::{HEADER_SIZE, BlobHeader};
use vstd::prelude::*;

verus! {

/// Why bytes are not a cluster blob.
#[derive(Debug, Clone, Copy, PartialEq, Eq, Structural)]
pub enum BlobError {
    TooSmall,
    BadMagic,
    UnsupportedVersion(u32),
    /// The size in the header and the number of bytes.
    SizeMismatch(u32, usize),
}

/// A cluster blob.
#[derive(Clone, Copy)]
pub struct Blob<'a> {
    pub bytes: &'a [u8],
}

/// Number `j` of the header that `bytes` start with.
pub open spec fn header_field(bytes: Seq<u8>, j: int) -> int {
    le_u32(bytes, 8 + 4 * j)
}

/// Whether bit `i` of a byte is set.
pub open spec fn bit(byte: u8, i: int) -> bool {
    (byte >> (i as u8)) & 1 == 1
}

/// What opening `bytes` as a blob is answered with: the first reason to refuse, if there is one.
pub open spec fn refusal(bytes: Seq<u8>) -> Option<BlobError> {
    if bytes.len() < HEADER_SIZE {
        Some(BlobError::TooSmall)
    } else if bytes.take(8) != MAGIC@ {
        Some(BlobError::BadMagic)
    } else if header_field(bytes, 0) != VERSION {
        Some(BlobError::UnsupportedVersion(header_field(bytes, 0) as u32))
    } else if header_field(bytes, 10) != bytes.len() {
        Some(BlobError::SizeMismatch(header_field(bytes, 10) as u32, bytes.len() as usize))
    } else {
        None
    }
}

impl<'a> Blob<'a> {
    pub open spec fn total_vectors(&self) -> int {
        header_field(self.bytes@, 1)
    }

    pub open spec fn total_blocks(&self) -> int {
        header_field(self.bytes@, 3)
    }

    /// Number of clusters.
    pub open spec fn k(&self) -> int {
        header_field(self.bytes@, 4)
    }

    /// Bits of coordinate `d` of centroid `c`.
    pub open spec fn centroid(&self, c: int, d: int) -> int {
        le_u32(self.bytes@, header_field(self.bytes@, 5) + 4 * (d * self.k() + c))
    }

    /// The first block of cluster `c`; behind the last cluster, the number of blocks.
    pub open spec fn offset(&self, c: int) -> int {
        le_u32(self.bytes@, header_field(self.bytes@, 6) + 4 * c)
    }

    /// Coordinate `d` of the vector at slot `s` of block `b`.
    pub open spec fn value(&self, b: int, d: int, s: int) -> int {
        le_i16(
            self.bytes@,
            header_field(self.bytes@, 7) + 2 * (b * BLOCK_I16 + d * BLOCK_VECS + s),
        )
    }

    /// Whether the vector at slot `s`, counted over all blocks, is labelled as fraud.
    pub open spec fn label(&self, s: int) -> bool {
        bit(self.bytes@[header_field(self.bytes@, 8) + s / 8], s % 8)
    }

    /// The risk of a merchant category.
    pub open spec fn risk(&self, mcc: int) -> int {
        byte_i8(self.bytes@[header_field(self.bytes@, 9) + mcc % MCC_TABLE_SIZE as int])
    }

    /// Every region lies within the bytes.
    pub open spec fn regions_fit(&self) -> bool {
        let n = self.bytes.len();
        &&& HEADER_SIZE <= n
        &&& header_field(self.bytes@, 5) + 56 * self.k() <= n
        &&& header_field(self.bytes@, 6) + 4 * (self.k() + 1) <= n
        &&& header_field(self.bytes@, 7) + BLOCK_BYTES * self.total_blocks() <= n
        &&& header_field(self.bytes@, 8) + self.total_blocks() <= n
        &&& header_field(self.bytes@, 9) + MCC_TABLE_SIZE <= n
    }

    /// Every region lies within the bytes, and the clusters take up blocks one after the other.
    pub open spec fn wf(&self) -> bool {
        &&& self.regions_fit()
        &&& forall|c: int| 0 <= c < self.k() ==> #[trigger] self.offset(c) <= self.offset(c + 1)
        &&& self.offset(self.k()) <= self.total_blocks()
    }

    /// Takes `bytes` as a blob after a look at their magic, version and size.
    pub fn open(bytes: &'a [u8]) -> (r: Result<Blob<'a>, BlobError>)
        ensures
            match r {
                Ok(blob) => refusal(bytes@) is None && blob.bytes == bytes,
                Err(e) => refusal(bytes@) == Some(e),
            },
    {
        if bytes.len() < HEADER_SIZE {
            return Err(BlobError::TooSmall);
        }
        let mut i: usize = 0;
        while i < 8
            invariant
                i <= 8,
                bytes.len() >= HEADER_SIZE,
                bytes@.take(i as int) == MAGIC@.take(i as int),
            decreases 8 - i,
        {
            if bytes[i] != MAGIC[i] {
                assert(bytes@.take(8)[i as int] != MAGIC@[i as int]);
                return Err(BlobError::BadMagic);
            }
            assert(bytes@.take(i + 1) =~= bytes@.take(i as int).push(bytes@[i as int]));
            assert(MAGIC@.take(i + 1) =~= MAGIC@.take(i as int).push(MAGIC@[i as int]));
            i = i + 1;
        }
        assert(MAGIC@.take(8) =~= MAGIC@);
        let version: u32 = read_u32(bytes, 8);
        if version != VERSION {
            return Err(BlobError::UnsupportedVersion(version));
        }
        let size: u32 = read_u32(bytes, 48);
        if size as u64 != bytes.len() as u64 {
            return Err(BlobError::SizeMismatch(size, bytes.len()));
        }
        Ok(Blob { bytes })
    }

    /// Whether every region lies within the bytes and the clusters take up blocks one after the other.
    pub fn layout_ok(&self) -> (ok: bool)
        ensures
            ok == self.wf(),
    {
        let n: u64 = self.bytes.len() as u64;
        if n < HEADER_SIZE as u64 {
            return false;
        }
        let h: BlobHeader = self.header();
        let k: u64 = h.k_centroids as u64;
        let blocks: u64 = h.total_blocks as u64;
        if h.centroids_offset as u64 + 56 * k > n || h.cluster_offsets_offset as u64 + 4 * (k + 1) > n
            || h.blocks_offset as u64 + 224 * blocks > n || h.labels_offset as u64 + blocks > n
            || h.mcc_table_offset as u64 + 1024 > n {
            return false;
        }
        assert(self.regions_fit());
        let mut c: u32 = 0;
        let mut prev: u32 = self.cluster_offset(0);
        while c < h.k_centroids
            invariant
                self.regions_fit(),
                h.k_centroids == self.k(),
                c <= h.k_centroids,
                prev == self.offset(c as int),
                forall|j: int| 0 <= j < c ==> #[trigger] self.offset(j) <= self.offset(j + 1),
            decreases h.k_centroids - c,
        {
            let next: u32 = self.cluster_offset(c + 1);
            if next < prev {
                assert(self.offset(c as int) > self.offset(c + 1));
                return false;
            }
            prev = next;
            c = c + 1;
        }
        prev <= h.total_blocks
    }

    /// The header.
    pub fn header(&self) -> (h: BlobHeader)
        requires
            self.bytes.len() >= HEADER_SIZE,
        ensures
            h.bytes() == self.bytes@.take(HEADER_SIZE as int),
            forall|j: int| 0 <= j < 11 ==> #[trigger] h.fields()[j] == header_field(self.bytes@, j),
            h.version == header_field(self.bytes@, 0),
            h.total_vectors == header_field(self.bytes@, 1),
            h.padded_n == header_field(self.bytes@, 2),
            h.total_blocks == header_field(self.bytes@, 3),
            h.k_centroids == header_field(self.bytes@, 4),
            h.centroids_offset == header_field(self.bytes@, 5),
            h.cluster_offsets_offset == header_field(self.bytes@, 6),
            h.blocks_offset == header_field(self.bytes@, 7),
            h.labels_offset == header_field(self.bytes@, 8),
            h.mcc_table_offset == header_field(self.bytes@, 9),
            h.blob_size == header_field(self.bytes@, 10),
    {
        let h: BlobHeader = BlobHeader::decode(self.bytes);
        assert(h.fields()[0] == h.version);
        assert(h.fields()[1] == h.total_vectors);
        assert(h.fields()[2] == h.padded_n);
        assert(h.fields()[3] == h.total_blocks);
        assert(h.fields()[4] == h.k_centroids);
        assert(h.fields()[5] == h.centroids_offset);
        assert(h.fields()[6] == h.cluster_offsets_offset);
        assert(h.fields()[7] == h.blocks_offset);
        assert(h.fields()[8] == h.labels_offset);
        assert(h.fields()[9] == h.mcc_table_offset);
        assert(h.fields()[10] == h.blob_size);
        h
    }

    /// The first block of cluster `c`; behind the last cluster, the number of blocks in use.
    pub fn cluster_offset(&self, c: u32) -> (o: u32)
        requires
            self.regions_fit(),
            c <= self.k(),
        ensures
            o == self.offset(c as int),
    {
        let at: usize = read_u32(self.bytes, 32) as usize;
        read_u32(self.bytes, at + 4 * c as usize)
    }

    /// `offsets[c]..offsets[c + 1]` are the blocks of cluster `c`.
    pub fn cluster_offsets(&self) -> (offsets: Vec<u32>)
        requires
            self.regions_fit(),
        ensures
            offsets@.len() == self.k() + 1,
            forall|c: int| 0 <= c <= self.k() ==> #[trigger] offsets@[c] == self.offset(c),
    {
        let k: u32 = read_u32(self.bytes, 24);
        let mut offsets: Vec<u32> = Vec::new();
        let mut c: u32 = 0;
        while c < k
            invariant
                self.regions_fit(),
                k == self.k(),
                c <= k,
                offsets@.len() == c,
                forall|j: int| 0 <= j < c ==> #[trigger] offsets@[j] == self.offset(j),
            decreases k - c,
        {
            offsets.push(self.cluster_offset(c));
            c = c + 1;
        }
        offsets.push(self.cluster_offset(k));
        offsets
    }

    /// Bits of coordinate `d` of centroid `c`.
    pub fn centroid_bits(&self, c: u32, d: usize) -> (bits: u32)
        requires
            self.regions_fit(),
            c < self.k(),
            d < VECTOR_DIM,
        ensures
            bits == self.centroid(c as int, d as int),
    {
        let k: usize = read_u32(self.bytes, 24) as usize;
        let at: usize = read_u32(self.bytes, 28) as usize;
        assert(d * k + c < 14 * k && 0 <= d * k) by (nonlinear_arith)
            requires
                0 <= d < 14,
                0 <= c < k,
        ;
        read_u32(self.bytes, at + 4 * (d * k + c as usize))
    }

    /// Coordinate `d` of the vector at slot `s` of block `b`.
    pub fn block_value(&self, b: u32, d: usize, s: usize) -> (v: i16)
        requires
            self.regions_fit(),
            b < self.total_blocks(),
            d < VECTOR_DIM,
            s < BLOCK_VECS,
        ensures
            v == self.value(b as int, d as int, s as int),
    {
        let at: usize = read_u32(self.bytes, 36) as usize;
        read_i16(self.bytes, at + 2 * (b as usize * BLOCK_I16 + d * BLOCK_VECS + s))
    }

    /// Whether the vector at slot `slot` of block `block_idx` is labelled as fraud.
    pub fn is_fraud_slot(&self, block_idx: u32, slot: u32) -> (fraud: bool)
        requires
            self.regions_fit(),
            (block_idx * BLOCK_VECS + slot) / 8 < self.total_blocks(),
        ensures
            fraud == self.label(block_idx * BLOCK_VECS + slot),
    {
        let at: usize = read_u32(self.bytes, 40) as usize;
        let s: u64 = block_idx as u64 * 8 + slot as u64;
        let byte: u8 = self.bytes[at + (s / 8) as usize];
        let shift: u8 = (s % 8) as u8;
        (byte >> shift) & 1 == 1
    }

    /// The risk of a merchant category, scaled to 127.
    pub fn mcc_risk(&self, mcc: u32) -> (risk: i8)
        requires
            self.regions_fit(),
        ensures
            risk == self.risk(mcc as int),
    {
        let at: usize = read_u32(self.bytes, 44) as usize;
        read_i8(self.bytes, at + (mcc % 1024) as usize)
    }

    /// Number of coordinates of a vector.
    pub fn vector_dim(&self) -> (d: usize)
        ensures
            d == VECTOR_DIM,
    {
        VECTOR_DIM
    }
}

/// In a well-formed blob the blocks of every cluster are blocks of the blob.
pub proof fn law_cluster_blocks_fit(blob: &Blob, a: int, b: int)
    requires
        blob.wf(),
        0 <= a <= b <= blob.k(),
    ensures
        blob.offset(a) <= blob.offset(b) <= blob.total_blocks(),
    decreases blob.k() - a,
{
    if a == b {
        if b < blob.k() {
            law_cluster_blocks_fit(blob, b + 1, blob.k());
            assert(blob.offset(b) <= blob.offset(b + 1));
        }
    } else {
        law_cluster_blocks_fit(blob, a + 1, b);
        assert(blob.offset(a) <= blob.offset(a + 1));
    }
}

/// Where everything stands in a blob, by the places in its header.
pub proof fn law_blob_layout(blob: &Blob, c: int, b: int, d: int, s: int, mcc: int)
    ensures
        ({
            let bytes = blob.bytes@;
            &&& blob.total_vectors() == le_u32(bytes, 12)
            &&& blob.total_blocks() == le_u32(bytes, 20)
            &&& blob.k() == le_u32(bytes, 24)
            &&& blob.centroid(c, d) == le_u32(bytes, le_u32(bytes, 28) + 4 * (d * le_u32(bytes, 24) + c))
            &&& blob.offset(c) == le_u32(bytes, le_u32(bytes, 32) + 4 * c)
            &&& blob.value(b, d, s) == le_i16(bytes, le_u32(bytes, 36) + 224 * b + 16 * d + 2 * s)
            &&& blob.label(s) <==> (bytes[le_u32(bytes, 40) + s / 8] >> ((s % 8) as u8)) & 1 == 1
            &&& blob.risk(mcc) == byte_i8(bytes[le_u32(bytes, 44) + mcc % 1024])
        }),
{
}

/// A blob is refused, in this order: below 256 bytes, if it does not begin with `RINHA026`, for a version but
/// 3, and if it is not as long as its header says. Else it is taken.
pub proof fn law_refusals(bytes: Seq<u8>)
    requires
        bytes.len() <= usize::MAX,
    ensures
        ({
            let magic = bytes.len() >= 8 && bytes[0] == 82 && bytes[1] == 73 && bytes[2] == 78 && bytes[3]
                == 72 && bytes[4] == 65 && bytes[5] == 48 && bytes[6] == 50 && bytes[7] == 54;
            let version = le_u32(bytes, 8);
            let size = le_u32(bytes, 48);
            &&& bytes.len() < 256 <==> refusal(bytes) == Some(BlobError::TooSmall)
            &&& bytes.len() >= 256 && !magic <==> refusal(bytes) == Some(BlobError::BadMagic)
            &&& bytes.len() >= 256 && magic && version != 3 <==> (refusal(bytes) == Some(
                BlobError::UnsupportedVersion(version as u32),
            ))
            &&& bytes.len() >= 256 && magic && version == 3 && size != bytes.len() <==> (refusal(bytes)
                == Some(BlobError::SizeMismatch(size as u32, bytes.len() as usize)))
            &&& bytes.len() >= 256 && magic && version == 3 && size == bytes.len() <==> refusal(
                bytes,
            ) is None
        }),
{
    let magic = bytes.len() >= 8 && bytes[0] == 82 && bytes[1] == 73 && bytes[2] == 78 && bytes[3] == 72
        && bytes[4] == 65 && bytes[5] == 48 && bytes[6] == 50 && bytes[7] == 54;
    if bytes.len() >= 256 {
        if magic {
            assert(bytes.take(8) =~= MAGIC@);
        }
        if bytes.take(8) == MAGIC@ {
            let m = bytes.take(8);
            assert(m[0] == bytes[0] && m[1] == bytes[1] && m[2] == bytes[2] && m[3] == bytes[3]);
            assert(m[4] == bytes[4] && m[5] == bytes[5] && m[6] == bytes[6] && m[7] == bytes[7]);
        }
    }
}

/// A blob can be read if its header and regions lie within its bytes and the clusters take up blocks one after the
/// other, within those there are.
pub proof fn law_layout_ok(blob: &Blob)
    ensures
        blob.wf() <==> {
            let b = blob.bytes@;
            let k = le_u32(b, 24);
            let blocks = le_u32(b, 20);
            &&& 256 <= b.len()
            &&& le_u32(b, 28) + 56 * k <= b.len()
            &&& le_u32(b, 32) + 4 * (k + 1) <= b.len()
            &&& le_u32(b, 36) + 224 * blocks <= b.len()
            &&& le_u32(b, 40) + blocks <= b.len()
            &&& le_u32(b, 44) + 1024 <= b.len()
            &&& forall|c: int| 0 <= c < k ==> #[trigger] blob.offset(c) <= blob.offset(c + 1)
            &&& blob.offset(k) <= blocks
        },
{
}

} // verus!
