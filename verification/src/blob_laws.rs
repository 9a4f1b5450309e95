//! What a blob holds after it was built.
use crate::blob::{bit, header_field, refusal, Blob};
use crate::blob_build::{
    blocks_for, cluster_labels, cluster_values, flag, label_byte, lemma_grid, lemma_offset_monotone,
    lemma_region_lengths, lemma_risk_table_len, risk_table, slot_value, BuildInputs,
};
use crate::bytes::{
    i16s_bytes, i8_byte, law_i8_round_trip, law_read_i16s, law_read_u32s, le_i16, u32s_bytes,
};
use crate::consts::{BLOCK_I16, BLOCK_VECS, MAGIC, MCC_TABLE_SIZE, VECTOR_DIM};
use vstd::prelude::*;

verus! {

/// A blob that was built from `inp`.
pub open spec fn built_from(blob: &Blob, inp: &BuildInputs) -> bool {
    &&& inp.wf()
    &&& inp.size() <= u32::MAX
    &&& blob.bytes@ == inp.bytes()
}

pub proof fn lemma_regions(inp: &BuildInputs)
    requires
        inp.wf(),
    ensures
        ({
            let all = inp.bytes();
            let o = inp.offset(inp.k());
            &&& all.len() == inp.size()
            &&& 0 <= o
            &&& all.take(8) == MAGIC@
            &&& all.subrange(8, 52) == u32s_bytes(inp.header_fields())
            &&& all.subrange(256, 256int + inp.centroid_values().len() * 4) == u32s_bytes(
                inp.centroid_values(),
            )
            &&& inp.centroid_values().len() == 14 * inp.k()
            &&& all.subrange(256 + 56 * inp.k(), 256 + 56 * inp.k() + inp.offsets().len() * 4)
                == u32s_bytes(inp.offsets())
            &&& inp.offsets().len() == inp.k() + 1
            &&& all.subrange(inp.blocks_at(), inp.blocks_at() + inp.values(inp.k()).len() * 2)
                == i16s_bytes(inp.values(inp.k()))
            &&& inp.values(inp.k()).len() == o * 112
            &&& all.subrange(inp.labels_at(), inp.labels_at() + o) == inp.labels(inp.k())
            &&& all.subrange(inp.labels_at() + o, inp.labels_at() + o + 1024) == risk_table(
                inp.mcc_risk@,
            ).map_values(|r: i8| i8_byte(r))
        }),
{
    let all = inp.bytes();
    let k = inp.k();
    let o = inp.offset(k);
    lemma_region_lengths(inp, k);
    lemma_offset_monotone(inp, 0, k);
    lemma_risk_table_len(inp.mcc_risk@);
    let h = inp.header_bytes();
    let a = u32s_bytes(inp.centroid_values());
    let b = u32s_bytes(inp.offsets());
    let c = i16s_bytes(inp.values(k));
    let d = inp.labels(k);
    let e = risk_table(inp.mcc_risk@).map_values(|r: i8| i8_byte(r));
    assert(h.len() == 256);
    assert(all == h + a + b + c + d + e);
    assert(all.take(8) =~= MAGIC@);
    assert(all.subrange(8, 52) =~= u32s_bytes(inp.header_fields()));
    assert(all.subrange(256, 256int + a.len()) =~= a);
    assert(all.subrange(256int + a.len(), 256int + a.len() + b.len()) =~= b);
    let p = 256int + a.len() + b.len();
    assert(p == inp.blocks_at());
    assert(all.subrange(p, p + c.len()) =~= c);
    let q = p + c.len();
    assert(q == inp.labels_at());
    assert(all.subrange(q, q + d.len()) =~= d);
    assert(all.subrange(q + d.len(), q + d.len() + e.len()) =~= e);
}

pub proof fn lemma_built_header(blob: &Blob, inp: &BuildInputs)
    requires
        built_from(blob, inp),
    ensures
        forall|j: int|
            0 <= j < 11 ==> #[trigger] header_field(blob.bytes@, j) == inp.header_fields()[j],
{
    lemma_regions(inp);
    assert forall|j: int| 0 <= j < 11 implies #[trigger] header_field(blob.bytes@, j)
        == inp.header_fields()[j] by {
        law_read_u32s(blob.bytes@, 8, inp.header_fields(), j);
    }
}

proof fn lemma_built_offset(blob: &Blob, inp: &BuildInputs, c: int)
    requires
        built_from(blob, inp),
        0 <= c <= inp.k(),
    ensures
        blob.offset(c) == inp.offset(c),
{
    lemma_regions(inp);
    lemma_built_header(blob, inp);
    assert(header_field(blob.bytes@, 6) == inp.header_fields()[6]);
    lemma_offset_monotone(inp, c, inp.k());
    lemma_offset_monotone(inp, 0, c);
    law_read_u32s(blob.bytes@, 256 + 56 * inp.k(), inp.offsets(), c);
}

/// A blob that was built is accepted, is well-formed, and has the vectors, clusters and blocks it was
/// built with.
pub proof fn law_built_blob_opens(blob: &Blob, inp: &BuildInputs)
    requires
        built_from(blob, inp),
    ensures
        refusal(blob.bytes@) is None,
        blob.wf(),
        blob.total_vectors() == inp.n(),
        blob.total_blocks() == inp.offset(inp.k()),
        blob.k() == inp.k(),
        forall|c: int| 0 <= c <= inp.k() ==> #[trigger] blob.offset(c) == inp.offset(c),
{
    lemma_regions(inp);
    lemma_built_header(blob, inp);
    let f = inp.header_fields();
    assert(header_field(blob.bytes@, 0) == f[0]);
    assert(header_field(blob.bytes@, 1) == f[1]);
    assert(header_field(blob.bytes@, 3) == f[3]);
    assert(header_field(blob.bytes@, 4) == f[4]);
    assert(header_field(blob.bytes@, 5) == f[5]);
    assert(header_field(blob.bytes@, 6) == f[6]);
    assert(header_field(blob.bytes@, 7) == f[7]);
    assert(header_field(blob.bytes@, 8) == f[8]);
    assert(header_field(blob.bytes@, 9) == f[9]);
    assert(header_field(blob.bytes@, 10) == f[10]);
    assert forall|c: int| 0 <= c <= inp.k() implies #[trigger] blob.offset(c) == inp.offset(c) by {
        lemma_built_offset(blob, inp, c);
    }
    assert forall|c: int| 0 <= c < inp.k() implies #[trigger] blob.offset(c) <= blob.offset(c + 1) by {
        lemma_offset_monotone(inp, c, c + 1);
        lemma_built_offset(blob, inp, c + 1);
    }
}

/// Reading a centroid of a built blob gives the coordinates it was built with.
pub proof fn law_built_centroids(blob: &Blob, inp: &BuildInputs, c: int, d: int)
    requires
        built_from(blob, inp),
        0 <= c < inp.k(),
        0 <= d < VECTOR_DIM,
    ensures
        blob.centroid(c, d) == inp.centroids@[c]@[d],
{
    let k = inp.k();
    let at = d * k + c;
    lemma_grid(k, d, c);
    assert(blob.k() == k && header_field(blob.bytes@, 5) == 256) by {
        lemma_built_header(blob, inp);
        assert(header_field(blob.bytes@, 4) == inp.header_fields()[4]);
        assert(header_field(blob.bytes@, 5) == inp.header_fields()[5]);
    }
    lemma_regions(inp);
    law_read_u32s(blob.bytes@, 256, inp.centroid_values(), at);
}

/// Reading the risk of a category in a built blob gives the last risk listed for its table entry, or the
/// default.
pub proof fn law_built_risks(blob: &Blob, inp: &BuildInputs, mcc: u32)
    requires
        built_from(blob, inp),
    ensures
        blob.risk(mcc as int) == risk_table(inp.mcc_risk@)[mcc as int % MCC_TABLE_SIZE as int],
{
    lemma_regions(inp);
    lemma_built_header(blob, inp);
    lemma_risk_table_len(inp.mcc_risk@);
    assert(header_field(blob.bytes@, 9) == inp.header_fields()[9]);
    let at = inp.labels_at() + inp.offset(inp.k());
    let part = blob.bytes@.subrange(at, at + 1024);
    let m = mcc as int % 1024;
    assert(part[m] == blob.bytes@[at + m]);
    law_i8_round_trip(risk_table(inp.mcc_risk@)[m]);
}

proof fn lemma_values_at(inp: &BuildInputs, c: int, m: int, i: int)
    requires
        0 <= c < m,
        0 <= i < blocks_for(inp.cluster(c).len() as int) * 112,
    ensures
        0 <= inp.offset(c) * 112 + i < inp.values(m).len(),
        inp.values(m)[inp.offset(c) * 112 + i] == cluster_values(inp.vectors@, inp.cluster(c))[i],
    decreases m,
{
    lemma_region_lengths(inp, m - 1);
    lemma_offset_monotone(inp, 0, c);
    if c < m - 1 {
        lemma_values_at(inp, c, m - 1, i);
    }
}

proof fn lemma_labels_at(inp: &BuildInputs, c: int, m: int, b: int)
    requires
        0 <= c < m,
        0 <= b < blocks_for(inp.cluster(c).len() as int),
    ensures
        0 <= inp.offset(c) + b < inp.labels(m).len(),
        inp.labels(m)[inp.offset(c) + b] == cluster_labels(inp.is_fraud@, inp.cluster(c))[b],
    decreases m,
{
    lemma_region_lengths(inp, m - 1);
    lemma_offset_monotone(inp, 0, c);
    if c < m - 1 {
        lemma_labels_at(inp, c, m - 1, b);
    }
}

/// Reading the blocks of cluster `c` of a built blob gives the cluster's vectors, nearest to the centroid
/// first, and `i16::MAX` in the slots behind them.
pub proof fn law_built_values(blob: &Blob, inp: &BuildInputs, c: int, g: int, d: int)
    requires
        built_from(blob, inp),
        0 <= c < inp.k(),
        0 <= g < blocks_for(inp.cluster(c).len() as int) * BLOCK_VECS,
        0 <= d < VECTOR_DIM,
    ensures
        blob.value(inp.offset(c) + g / 8, d, g % 8) == slot_value(
            inp.vectors@,
            inp.cluster(c),
            d,
            g,
        ),
{
    let ids = inp.cluster(c);
    let i = (g / 8) * 112 + d * 8 + g % 8;
    lemma_slot(blocks_for(ids.len() as int), g, d);
    lemma_values_at(inp, c, inp.k(), i);
    assert(header_field(blob.bytes@, 7) == inp.blocks_at()) by {
        lemma_regions(inp);
        lemma_built_header(blob, inp);
        assert(header_field(blob.bytes@, 7) == inp.header_fields()[7]);
    }
    let at = inp.offset(c) * 112 + i;
    assert(le_i16(blob.bytes@, inp.blocks_at() + 2 * at) == inp.values(inp.k())[at]) by {
        lemma_regions(inp);
        law_read_i16s(blob.bytes@, inp.blocks_at(), inp.values(inp.k()), at);
    }
    assert((inp.offset(c) + g / 8) * BLOCK_I16 + d * BLOCK_VECS + g % 8 == at);
}

proof fn lemma_slot(blocks: int, g: int, d: int)
    requires
        0 <= g < blocks * 8,
        0 <= d < 14,
    ensures
        ({
            let i = (g / 8) * 112 + d * 8 + g % 8;
            &&& 0 <= i < blocks * 112
            &&& (i % 112) / 8 == d
            &&& i / 112 == g / 8
            &&& i % 8 == g % 8
            &&& (i / 112) * 8 + i % 8 == g
        }),
{
    let i = (g / 8) * 112 + d * 8 + g % 8;
    assert(i % 112 == d * 8 + g % 8);
}

proof fn lemma_packed_bits(
    b0: u8,
    b1: u8,
    b2: u8,
    b3: u8,
    b4: u8,
    b5: u8,
    b6: u8,
    b7: u8,
    byte: u8,
    s: u8,
)
    by (bit_vector)
    requires
        b0 <= 1,
        b1 <= 1,
        b2 <= 1,
        b3 <= 1,
        b4 <= 1,
        b5 <= 1,
        b6 <= 1,
        b7 <= 1,
        byte == b0 + 2 * b1 + 4 * b2 + 8 * b3 + 16 * b4 + 32 * b5 + 64 * b6 + 128 * b7,
        s < 8,
    ensures
        s == 0 ==> (byte >> s) & 1 == b0,
        s == 1 ==> (byte >> s) & 1 == b1,
        s == 2 ==> (byte >> s) & 1 == b2,
        s == 3 ==> (byte >> s) & 1 == b3,
        s == 4 ==> (byte >> s) & 1 == b4,
        s == 5 ==> (byte >> s) & 1 == b5,
        s == 6 ==> (byte >> s) & 1 == b6,
        s == 7 ==> (byte >> s) & 1 == b7,
{
}

proof fn lemma_label_bit(is_fraud: Seq<bool>, ids: Seq<u32>, b: int, s: int)
    requires
        0 <= s < 8,
    ensures
        bit(label_byte(is_fraud, ids, b), s) == (flag(is_fraud, ids, b * 8 + s) == 1),
{
    lemma_packed_bits(
        flag(is_fraud, ids, b * 8) as u8,
        flag(is_fraud, ids, b * 8 + 1) as u8,
        flag(is_fraud, ids, b * 8 + 2) as u8,
        flag(is_fraud, ids, b * 8 + 3) as u8,
        flag(is_fraud, ids, b * 8 + 4) as u8,
        flag(is_fraud, ids, b * 8 + 5) as u8,
        flag(is_fraud, ids, b * 8 + 6) as u8,
        flag(is_fraud, ids, b * 8 + 7) as u8,
        label_byte(is_fraud, ids, b),
        s as u8,
    );
}

/// Reading the labels of cluster `c` of a built blob gives the cluster's labels, and no fraud in the
/// slots behind them.
pub proof fn law_built_labels(blob: &Blob, inp: &BuildInputs, c: int, g: int)
    requires
        built_from(blob, inp),
        0 <= c < inp.k(),
        0 <= g < blocks_for(inp.cluster(c).len() as int) * BLOCK_VECS,
    ensures
        blob.label(inp.offset(c) * BLOCK_VECS + g) == (g < inp.cluster(c).len()
            && inp.is_fraud@[inp.cluster(c)[g] as int]),
{
    lemma_regions(inp);
    lemma_built_header(blob, inp);
    assert(header_field(blob.bytes@, 8) == inp.header_fields()[8]);
    lemma_region_lengths(inp, inp.k());
    let b = g / 8;
    let o = inp.offset(inp.k());
    lemma_labels_at(inp, c, inp.k(), b);
    lemma_label_bit(inp.is_fraud@, inp.cluster(c), b, g % 8);
    let s = inp.offset(c) * 8 + g;
    assert(s / 8 == inp.offset(c) + b && s % 8 == g % 8);
    let part = blob.bytes@.subrange(inp.labels_at(), inp.labels_at() + o);
    assert(part[inp.offset(c) + b] == blob.bytes@[inp.labels_at() + inp.offset(c) + b]);
}

} // verus!
