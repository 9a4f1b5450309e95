//! The header of a cluster blob.
use crate::bytes::{law_read_u32s, le_u32, lemma_u32s_push, push_u32, read_u32, u32_bytes, u32s_bytes};
use vstd::prelude::*;

verus! {

/// Bytes of an encoded header.
pub const HEADER_SIZE: usize = 256;

/// Bytes kept free at the end of the header.
pub const HEADER_PADDING: usize = 204;

/// Sizes and places of the regions of a cluster blob.
#[derive(Debug, Clone, Copy)]
pub struct BlobHeader {
    pub magic: [u8; 8],
    pub version: u32,
    pub total_vectors: u32,
    /// Slots in all blocks.
    pub padded_n: u32,
    pub total_blocks: u32,
    pub k_centroids: u32,
    /// Centroid coordinates, dimension by dimension.
    pub centroids_offset: u32,
    /// The first block of each cluster, and the number of blocks.
    pub cluster_offsets_offset: u32,
    pub blocks_offset: u32,
    /// One bit for each slot.
    pub labels_offset: u32,
    pub mcc_table_offset: u32,
    pub blob_size: u32,
    pub _padding: [u8; HEADER_PADDING],
}

impl BlobHeader {
    /// The numbers of the header in the order in which they are stored.
    pub open spec fn fields(&self) -> Seq<u32> {
        seq![
            self.version,
            self.total_vectors,
            self.padded_n,
            self.total_blocks,
            self.k_centroids,
            self.centroids_offset,
            self.cluster_offsets_offset,
            self.blocks_offset,
            self.labels_offset,
            self.mcc_table_offset,
            self.blob_size,
        ]
    }

    /// The encoded header.
    pub open spec fn bytes(&self) -> Seq<u8> {
        self.magic@ + u32s_bytes(self.fields()) + self._padding@
    }

    /// Appends the encoded header to `out`.
    pub fn encode(&self, out: &mut Vec<u8>)
        ensures
            final(out)@ == old(out)@ + self.bytes(),
            self.bytes().len() == HEADER_SIZE,
    {
        let ghost before = out@;
        let fields: [u32; 11] = [
            self.version,
            self.total_vectors,
            self.padded_n,
            self.total_blocks,
            self.k_centroids,
            self.centroids_offset,
            self.cluster_offsets_offset,
            self.blocks_offset,
            self.labels_offset,
            self.mcc_table_offset,
            self.blob_size,
        ];
        assert(fields@ =~= self.fields());
        let mut i: usize = 0;
        while i < 8
            invariant
                i <= 8,
                out@ == before + self.magic@.take(i as int),
            decreases 8 - i,
        {
            out.push(self.magic[i]);
            assert(out@ =~= before + self.magic@.take(i + 1));
            i = i + 1;
        }
        let ghost start = before + self.magic@;
        assert(self.magic@.take(8) =~= self.magic@);
        assert(u32s_bytes(fields@.take(0)) =~= Seq::empty());
        let mut j: usize = 0;
        while j < 11
            invariant
                j <= 11,
                out@ == start + u32s_bytes(fields@.take(j as int)),
            decreases 11 - j,
        {
            push_u32(out, fields[j]);
            proof {
                lemma_u32s_push(fields@.take(j as int), fields@[j as int]);
                assert(fields@.take(j as int).push(fields@[j as int]) =~= fields@.take(j + 1));
                assert(out@ =~= start + u32s_bytes(fields@.take(j + 1)));
            }
            j = j + 1;
        }
        let ghost mid = start + u32s_bytes(self.fields());
        assert(fields@.take(11) =~= fields@);
        let mut k: usize = 0;
        while k < HEADER_PADDING
            invariant
                k <= HEADER_PADDING,
                out@ == mid + self._padding@.take(k as int),
            decreases HEADER_PADDING - k,
        {
            out.push(self._padding[k]);
            assert(out@ =~= mid + self._padding@.take(k + 1));
            k = k + 1;
        }
        assert(self._padding@.take(HEADER_PADDING as int) =~= self._padding@);
        assert(out@ =~= before + self.bytes());
    }

    /// Decodes the header at the start of `bytes`.
    pub fn decode(bytes: &[u8]) -> (h: Self)
        requires
            bytes.len() >= HEADER_SIZE,
        ensures
            h.bytes() == bytes@.take(HEADER_SIZE as int),
            forall|j: int| 0 <= j < 11 ==> #[trigger] h.fields()[j] == le_u32(bytes@, 8 + 4 * j),
    {
        let mut magic: [u8; 8] = [0u8; 8];
        for i in 0..8usize
            invariant
                bytes.len() >= HEADER_SIZE,
                forall|k: int| 0 <= k < i ==> magic@[k] == bytes@[k],
        {
            magic[i] = bytes[i];
        }
        let mut padding: [u8; HEADER_PADDING] = [0u8; HEADER_PADDING];
        for i in 0..HEADER_PADDING
            invariant
                bytes.len() >= HEADER_SIZE,
                forall|k: int| 0 <= k < i ==> padding@[k] == bytes@[52 + k],
        {
            padding[i] = bytes[52 + i];
        }
        let h = BlobHeader {
            magic,
            version: read_u32(bytes, 8),
            total_vectors: read_u32(bytes, 12),
            padded_n: read_u32(bytes, 16),
            total_blocks: read_u32(bytes, 20),
            k_centroids: read_u32(bytes, 24),
            centroids_offset: read_u32(bytes, 28),
            cluster_offsets_offset: read_u32(bytes, 32),
            blocks_offset: read_u32(bytes, 36),
            labels_offset: read_u32(bytes, 40),
            mcc_table_offset: read_u32(bytes, 44),
            blob_size: read_u32(bytes, 48),
            _padding: padding,
        };
        proof {
            let f = h.fields();
            assert forall|i: int| 0 <= i < 44 implies #[trigger] u32s_bytes(f)[i] == bytes@[8 + i] by {
                let j = i / 4;
                assert(f[j] == le_u32(bytes@, 8 + 4 * j));
                lemma_u32_bytes_of_read(bytes@, 8 + 4 * j, f[j]);
                assert(u32_bytes(f[j])[i % 4] == bytes@[8 + 4 * j + i % 4]);
            }
            assert(h.bytes() =~= bytes@.take(HEADER_SIZE as int));
        }
        h
    }
}

proof fn lemma_u32_bytes_of_read(s: Seq<u8>, at: int, v: u32)
    requires
        0 <= at,
        at + 4 <= s.len(),
        v == le_u32(s, at),
    ensures
        forall|k: int| 0 <= k < 4 ==> u32_bytes(v)[k] == s[at + k],
{
    let a = s[at] as int;
    let b = s[at + 1] as int;
    let c = s[at + 2] as int;
    let d = s[at + 3] as int;
    assert(v as int % 256 == a);
    assert(v as int / 256 == b + 256 * c + 65536 * d);
    assert(v as int / 65536 == c + 256 * d);
    assert(v as int / 16777216 == d);
}

/// A header is determined by its encoding: decoding gives back what was encoded.
pub proof fn law_header_round_trip(h: BlobHeader, g: BlobHeader)
    requires
        h.bytes() == g.bytes(),
    ensures
        h.magic@ == g.magic@,
        h.fields() == g.fields(),
        h._padding@ == g._padding@,
{
    let a = h.bytes();
    assert(a.subrange(0, 8) =~= h.magic@);
    assert(a.subrange(0, 8) =~= g.magic@);
    assert(a.subrange(8, 52) =~= u32s_bytes(h.fields()));
    assert(a.subrange(8, 52) =~= u32s_bytes(g.fields()));
    assert(a.subrange(52, 256) =~= h._padding@);
    assert(a.subrange(52, 256) =~= g._padding@);
    assert forall|j: int| 0 <= j < 11 implies h.fields()[j] == g.fields()[j] by {
        law_read_u32s(a, 8, h.fields(), j);
        law_read_u32s(a, 8, g.fields(), j);
    }
    assert(h.fields() =~= g.fields());
}

/// Where the parts of a header stand in its encoding.
pub proof fn law_header_places(h: BlobHeader)
    ensures
        ({
            let b = h.bytes();
            &&& b.len() == 256
            &&& b.subrange(0, 8) == h.magic@
            &&& le_u32(b, 8) == h.version
            &&& le_u32(b, 12) == h.total_vectors
            &&& le_u32(b, 16) == h.padded_n
            &&& le_u32(b, 20) == h.total_blocks
            &&& le_u32(b, 24) == h.k_centroids
            &&& le_u32(b, 28) == h.centroids_offset
            &&& le_u32(b, 32) == h.cluster_offsets_offset
            &&& le_u32(b, 36) == h.blocks_offset
            &&& le_u32(b, 40) == h.labels_offset
            &&& le_u32(b, 44) == h.mcc_table_offset
            &&& le_u32(b, 48) == h.blob_size
            &&& b.subrange(52, 256) == h._padding@
        }),
{
    let b = h.bytes();
    let f = h.fields();
    assert(b.subrange(0, 8) =~= h.magic@);
    assert(b.subrange(52, 256) =~= h._padding@);
    assert(b.subrange(8, 52) =~= u32s_bytes(f));
    law_read_u32s(b, 8, f, 0);
    law_read_u32s(b, 8, f, 1);
    law_read_u32s(b, 8, f, 2);
    law_read_u32s(b, 8, f, 3);
    law_read_u32s(b, 8, f, 4);
    law_read_u32s(b, 8, f, 5);
    law_read_u32s(b, 8, f, 6);
    law_read_u32s(b, 8, f, 7);
    law_read_u32s(b, 8, f, 8);
    law_read_u32s(b, 8, f, 9);
    law_read_u32s(b, 8, f, 10);
}

} // verus!
