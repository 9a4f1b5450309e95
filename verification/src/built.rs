//! A built blob, said of what it was built from.
use crate::blob::{header_field, Blob};
use crate::blob_build::{
    blocks_for, keyed, law_cluster, lemma_offset_monotone, members, risk_table, second, total_key,
    BuildInputs,
};
use crate::blob_laws::{
    built_from, law_built_blob_opens, law_built_labels, law_built_risks, law_built_values,
    lemma_built_header, lemma_regions,
};
use crate::bytes::le_u32;
use crate::consts::MAGIC;
use crate::scan::{blocks_of, found_in, law_blocks_of_clusters, law_found_in_blocks};
use crate::sort::{first_i64, law_stable_sort, lemma_place, put, stable_sort};
use vstd::prelude::*;

verus! {

/// The first cluster begins with the first block, and each cluster takes up as many blocks of eight as its
/// vectors need, and no more.
pub proof fn law_built_offsets(blob: &Blob, inp: &BuildInputs, c: int)
    requires
        built_from(blob, inp),
        0 <= c < inp.k(),
    ensures
        blob.offset(0) == 0,
        blob.offset(c) == inp.offset(c),
        inp.cluster(c).len() <= 8 * (blob.offset(c + 1) - blob.offset(c)),
        8 * (blob.offset(c + 1) - blob.offset(c)) < inp.cluster(c).len() + 8,
        blob.offset(c + 1) <= blob.offset(inp.k()) == blob.total_blocks(),
{
    law_built_blob_opens(blob, inp);
    assert(blob.offset(0) == inp.offset(0));
    assert(blob.offset(c) == inp.offset(c));
    assert(blob.offset(c + 1) == inp.offset(c + 1));
    assert(blob.offset(inp.k()) == inp.offset(inp.k()));
    lemma_offset_monotone(inp, c + 1, inp.k());
}

proof fn lemma_within(blob: &Blob, inp: &BuildInputs, c: int, g: int)
    requires
        built_from(blob, inp),
        0 <= c < inp.k(),
        0 <= g < inp.cluster(c).len(),
    ensures
        blob.offset(c) == inp.offset(c),
        g < blocks_for(inp.cluster(c).len() as int) * 8,
        g / 8 < blob.offset(c + 1) - blob.offset(c),
{
    law_built_offsets(blob, inp, c);
}

/// At place `g` of cluster `c` a built blob holds the very coordinates and the label of the vector that comes
/// there.
pub proof fn law_built_vectors(blob: &Blob, inp: &BuildInputs, c: int, g: int)
    requires
        built_from(blob, inp),
        0 <= c < inp.k(),
        0 <= g < inp.cluster(c).len(),
    ensures
        forall|d: int|
            0 <= d < 14 ==> #[trigger] blob.value(blob.offset(c) + g / 8, d, g % 8)
                == inp.vectors@[inp.cluster(c)[g] as int]@[d],
        blob.label(8 * (blob.offset(c) + g / 8) + g % 8) == inp.is_fraud@[inp.cluster(c)[g] as int],
        blob.offset(c) <= blob.offset(c) + g / 8 < blob.offset(c + 1),
{
    lemma_within(blob, inp, c, g);
    assert forall|d: int| 0 <= d < 14 implies #[trigger] blob.value(
        blob.offset(c) + g / 8,
        d,
        g % 8,
    ) == inp.vectors@[inp.cluster(c)[g] as int]@[d] by {
        law_built_values(blob, inp, c, g, d);
    }
    law_built_labels(blob, inp, c, g);
}

proof fn lemma_padded(blob: &Blob, inp: &BuildInputs, c: int, g: int)
    requires
        built_from(blob, inp),
        0 <= c < inp.k(),
        inp.cluster(c).len() <= g < 8 * (blob.offset(c + 1) - blob.offset(c)),
    ensures
        blob.offset(c) == inp.offset(c),
        g < blocks_for(inp.cluster(c).len() as int) * 8,
{
    law_built_blob_opens(blob, inp);
    assert(blob.offset(c) == inp.offset(c));
    assert(blob.offset(c + 1) == inp.offset(c + 1));
}

/// Behind the vectors of cluster `c`, up to the next cluster, a built blob holds 32767 everywhere and no fraud.
pub proof fn law_built_padding(blob: &Blob, inp: &BuildInputs, c: int, g: int)
    requires
        built_from(blob, inp),
        0 <= c < inp.k(),
        inp.cluster(c).len() <= g < 8 * (blob.offset(c + 1) - blob.offset(c)),
    ensures
        forall|d: int|
            0 <= d < 14 ==> #[trigger] blob.value(blob.offset(c) + g / 8, d, g % 8) == 32767,
        !blob.label(8 * (blob.offset(c) + g / 8) + g % 8),
{
    lemma_padded(blob, inp, c, g);
    assert forall|d: int| 0 <= d < 14 implies #[trigger] blob.value(
        blob.offset(c) + g / 8,
        d,
        g % 8,
    ) == 32767 by {
        law_built_values(blob, inp, c, g, d);
    }
    law_built_labels(blob, inp, c, g);
}

/// A scan finds every vector that is assigned to a probed cluster: it stands, with its coordinates, in slot
/// `at.1` of block `at.0`, which is among the blocks of the scan, and is found with its distance and label.
pub proof fn law_scan_finds_assigned(
    blob: &Blob,
    inp: &BuildInputs,
    probes: Seq<usize>,
    dists: spec_fn(int) -> Seq<u32>,
    i: u32,
    j: int,
) -> (at: (u32, int))
    requires
        built_from(blob, inp),
        i < inp.vectors@.len(),
        0 <= j < probes.len(),
        probes[j] == inp.assignments@[i as int],
    ensures
        0 <= at.1 < 8,
        blocks_of(blob, probes).contains(at.0),
        forall|d: int|
            0 <= d < 14 ==> #[trigger] blob.value(at.0 as int, d, at.1) == inp.vectors@[i as int]@[d],
        blob.label(8 * at.0 + at.1) == inp.is_fraud@[i as int],
        found_in(blob, blocks_of(blob, probes), dists).contains(
            (
                dists(at.0 as int)[at.1],
                if inp.is_fraud@[i as int] {
                    1u8
                } else {
                    0u8
                },
            ),
        ),
{
    let c = inp.assignments@[i as int] as int;
    assert(0 <= c < inp.k());
    law_cluster(inp, c);
    assert(inp.cluster(c).contains(i));
    let g = choose|g: int| 0 <= g < inp.cluster(c).len() && inp.cluster(c)[g] == i;
    law_built_vectors(blob, inp, c, g);
    law_built_offsets(blob, inp, c);
    law_built_blob_opens(blob, inp);
    assert(blob.offset(c + 1) <= blob.total_blocks() <= u32::MAX);
    let b = (blob.offset(c) + g / 8) as u32;
    let all = blocks_of(blob, probes);
    assert(blob.offset(probes[j] as int) <= b && b < blob.offset(probes[j] + 1));
    law_blocks_of_clusters(blob, probes, b);
    let at = choose|at: int| 0 <= at < all.len() && all[at] == b;
    law_found_in_blocks(blob, all, dists, at, g % 8);
    let found = found_in(blob, all, dists);
    assert(found.contains(found[8 * at + g % 8]));
    (b, g % 8)
}

proof fn lemma_risk_at(entries: Seq<(u32, i8)>, slot: int)
    requires
        0 <= slot < 1024,
    ensures
        risk_table(entries).len() == 1024,
        forall|i: int|
            0 <= i < entries.len() && (#[trigger] entries[i]).0 % 1024 == slot && (forall|j: int|
                i < j < entries.len() ==> (#[trigger] entries[j]).0 % 1024 != slot) ==> risk_table(
                entries,
            )[slot] == entries[i].1,
        (forall|i: int| 0 <= i < entries.len() ==> (#[trigger] entries[i]).0 % 1024 != slot)
            ==> risk_table(entries)[slot] == 64,
    decreases entries.len(),
{
    if entries.len() > 0 {
        let front = entries.drop_last();
        let n = entries.len() - 1;
        lemma_risk_at(front, slot);
        assert(entries[n].0 as int % 1024 == entries[n].0 % 1024);
        assert forall|i: int|
            0 <= i < entries.len() && (#[trigger] entries[i]).0 % 1024 == slot && (forall|j: int|
                i < j < entries.len() ==> (#[trigger] entries[j]).0 % 1024 != slot) implies risk_table(
            entries,
        )[slot] == entries[i].1 by {
            if i < n {
                assert(entries[n].0 % 1024 != slot);
                assert(front[i] == entries[i]);
                assert forall|j: int| i < j < front.len() implies (#[trigger] front[j]).0 % 1024
                    != slot by {
                    assert(entries[j].0 % 1024 != slot);
                }
            }
        }
        if forall|i: int| 0 <= i < entries.len() ==> (#[trigger] entries[i]).0 % 1024 != slot {
            assert(entries[n].0 % 1024 != slot);
            assert forall|i: int| 0 <= i < front.len() implies (#[trigger] front[i]).0 % 1024 != slot by {
                assert(entries[i].0 % 1024 != slot);
            }
        }
    }
}

/// The risk of a category in a built blob is that of the last listed category with the same remainder by
/// 1024; it is 64 if there is none.
pub proof fn law_built_risk_of(blob: &Blob, inp: &BuildInputs, mcc: u32)
    requires
        built_from(blob, inp),
    ensures
        forall|i: int|
            0 <= i < inp.mcc_risk@.len() && (#[trigger] inp.mcc_risk@[i]).0 % 1024 == mcc % 1024 && (
            forall|j: int|
                i < j < inp.mcc_risk@.len() ==> (#[trigger] inp.mcc_risk@[j]).0 % 1024 != mcc % 1024)
                ==> blob.risk(mcc as int) == inp.mcc_risk@[i].1,
        (forall|i: int|
            0 <= i < inp.mcc_risk@.len() ==> (#[trigger] inp.mcc_risk@[i]).0 % 1024 != mcc % 1024)
            ==> blob.risk(mcc as int) == 64,
{
    law_built_risks(blob, inp, mcc);
    lemma_risk_at(inp.mcc_risk@, mcc as int % 1024);
}

proof fn lemma_built_start(blob: &Blob, inp: &BuildInputs)
    requires
        built_from(blob, inp),
    ensures
        blob.bytes@.len() == inp.size(),
        blob.bytes@.take(8) == seq![82u8, 73, 78, 72, 65, 48, 50, 54],
        forall|i: int| 52 <= i < 256 ==> #[trigger] blob.bytes@[i] == 0,
{
    lemma_regions(inp);
    assert(MAGIC@ =~= seq![82u8, 73, 78, 72, 65, 48, 50, 54]);
    let h = inp.header_bytes();
    assert(h.len() == 256);
    assert forall|i: int| 52 <= i < 256 implies #[trigger] blob.bytes@[i] == 0 by {
        assert(h[i] == 0);
        assert(blob.bytes@[i] == h[i]);
    }
}

proof fn lemma_built_fields(blob: &Blob, inp: &BuildInputs)
    requires
        built_from(blob, inp),
    ensures
        ({
            let bytes = blob.bytes@;
            let blocks = inp.offset(inp.k());
            &&& le_u32(bytes, 8) == 3
            &&& le_u32(bytes, 12) == inp.n()
            &&& le_u32(bytes, 16) == 8 * blocks
            &&& le_u32(bytes, 20) == blocks
            &&& le_u32(bytes, 24) == inp.k()
            &&& le_u32(bytes, 28) == 256
            &&& le_u32(bytes, 32) == 256 + 56 * inp.k()
            &&& le_u32(bytes, 36) == 260 + 60 * inp.k()
            &&& le_u32(bytes, 40) == 260 + 60 * inp.k() + 224 * blocks
            &&& le_u32(bytes, 44) == 260 + 60 * inp.k() + 225 * blocks
            &&& le_u32(bytes, 48) == 260 + 60 * inp.k() + 225 * blocks + 1024
            &&& inp.size() == 260 + 60 * inp.k() + 225 * blocks + 1024
        }),
{
    let bytes = blob.bytes@;
    let f = inp.header_fields();
    lemma_built_header(blob, inp);
    lemma_offset_monotone(inp, 0, inp.k());
    assert(header_field(bytes, 0) == f[0]);
    assert(header_field(bytes, 1) == f[1]);
    assert(header_field(bytes, 2) == f[2]);
    assert(header_field(bytes, 3) == f[3]);
    assert(header_field(bytes, 4) == f[4]);
    assert(header_field(bytes, 5) == f[5]);
    assert(header_field(bytes, 6) == f[6]);
    assert(header_field(bytes, 7) == f[7]);
    assert(header_field(bytes, 8) == f[8]);
    assert(header_field(bytes, 9) == f[9]);
    assert(header_field(bytes, 10) == f[10]);
}

/// The header of a built blob: magic, version, the numbers of vectors, slots, blocks and clusters, and where
/// the centroids, the first blocks, the blocks, the labels and the risks begin, one behind the other.
pub proof fn law_built_header(blob: &Blob, inp: &BuildInputs)
    requires
        built_from(blob, inp),
    ensures
        ({
            let bytes = blob.bytes@;
            let k = inp.centroids@.len();
            let blocks = blob.total_blocks();
            &&& bytes.take(8) == seq![82u8, 73, 78, 72, 65, 48, 50, 54]
            &&& le_u32(bytes, 8) == 3
            &&& le_u32(bytes, 12) == inp.vectors@.len()
            &&& le_u32(bytes, 16) == 8 * blocks
            &&& le_u32(bytes, 20) == blocks
            &&& le_u32(bytes, 24) == k
            &&& le_u32(bytes, 28) == 256
            &&& le_u32(bytes, 32) == 256 + 56 * k
            &&& le_u32(bytes, 36) == 256 + 56 * k + 4 * (k + 1)
            &&& le_u32(bytes, 40) == 256 + 56 * k + 4 * (k + 1) + 224 * blocks
            &&& le_u32(bytes, 44) == 256 + 56 * k + 4 * (k + 1) + 225 * blocks
            &&& le_u32(bytes, 48) == 256 + 56 * k + 4 * (k + 1) + 225 * blocks + 1024
            &&& bytes.len() == le_u32(bytes, 48)
            &&& forall|i: int| 52 <= i < 256 ==> #[trigger] bytes[i] == 0
        }),
{
    law_built_blob_opens(blob, inp);
    lemma_built_fields(blob, inp);
    lemma_built_start(blob, inp);
}

/// Pairs at equal keys stand by ascending second component.
spec fn ties_ascend(s: Seq<(i64, u32)>) -> bool {
    forall|a: int, b: int| 0 <= a < b < s.len() && (#[trigger] s[a]).0 == (#[trigger] s[b]).0 ==> s[a].1 < s[b].1
}

proof fn lemma_sort_ties(s: Seq<(i64, u32)>)
    requires
        forall|a: int, b: int| 0 <= a < b < s.len() ==> (#[trigger] s[a]).1 < (#[trigger] s[b]).1,
    ensures
        ties_ascend(stable_sort(s, first_i64())),
    decreases s.len(),
{
    broadcast use vstd::seq_lib::group_to_multiset_ensures;

    if s.len() > 0 {
        let front = s.drop_last();
        let x = s.last();
        lemma_sort_ties(front);
        law_stable_sort(front, first_i64());
        let sorted = stable_sort(front, first_i64());
        let all = put(sorted, first_i64(), x);
        lemma_place(sorted, first_i64(), x.0 as int, sorted.len() as int);
        let at = crate::sort::place(sorted, first_i64(), x.0 as int, sorted.len() as int);
        assert forall|a: int| 0 <= a < sorted.len() implies (#[trigger] sorted[a]).1 < x.1 by {
            assert(sorted.contains(sorted[a]));
            assert(sorted.to_multiset().count(sorted[a]) > 0);
            assert(front.contains(sorted[a]));
            let m = choose|m: int| 0 <= m < front.len() && front[m] == sorted[a];
            assert(s[m] == sorted[a] && s[s.len() - 1] == x);
        }
        assert forall|a: int, b: int|
            0 <= a < b < all.len() && (#[trigger] all[a]).0 == (#[trigger] all[b]).0 implies all[a].1
            < all[b].1 by {
            let i = if a > at {
                a - 1
            } else {
                a
            };
            let j = if b > at {
                b - 1
            } else {
                b
            };
            if a == at {
                assert(all[b] == sorted[j]);
                assert((x.0 as int) < first_i64()(sorted[j]));
            } else if b == at {
                assert(all[a] == sorted[i]);
            } else {
                assert(all[a] == sorted[i] && all[b] == sorted[j]);
            }
        }
    }
}

proof fn lemma_members_ascend(assignments: Seq<u32>, c: int, n: int)
    requires
        0 <= n <= 0x1_0000_0000,
    ensures
        forall|a: int, b: int|
            0 <= a < b < members(assignments, c, n).len() ==> (#[trigger] members(assignments, c, n)[a])
                < (#[trigger] members(assignments, c, n)[b]),
        forall|a: int|
            0 <= a < members(assignments, c, n).len() ==> (#[trigger] members(assignments, c, n)[a]) < n,
    decreases n,
{
    if n > 0 {
        lemma_members_ascend(assignments, c, n - 1);
        let less = members(assignments, c, n - 1);
        let all = members(assignments, c, n);
        assert forall|a: int| 0 <= a < all.len() implies (#[trigger] all[a]) < n by {
            if a < less.len() {
                assert(all[a] == less[a]);
            }
        }
        assert forall|a: int, b: int| 0 <= a < b < all.len() implies (#[trigger] all[a]) < (
        #[trigger] all[b]) by {
            assert(all[a] == less[a]);
            if b < less.len() {
                assert(all[b] == less[b]);
            }
        }
    }
}

/// Within a cluster, vectors at the same distance from the centroid stand by ascending id.
pub proof fn law_cluster_ties(inp: &BuildInputs, c: int, a: int, b: int)
    requires
        inp.wf(),
        0 <= a < b < inp.cluster(c).len(),
        inp.distances@[inp.cluster(c)[a] as int] == inp.distances@[inp.cluster(c)[b] as int],
    ensures
        inp.cluster(c)[a] < inp.cluster(c)[b],
{
    broadcast use vstd::seq_lib::group_to_multiset_ensures;

    let ids = members(inp.assignments@, c, inp.n());
    let pairs = ids.map_values(keyed(inp.distances@));
    let sorted = stable_sort(pairs, first_i64());
    lemma_members_ascend(inp.assignments@, c, inp.n());
    lemma_sort_ties(pairs);
    law_stable_sort(pairs, first_i64());
    assert(inp.cluster(c) == sorted.map_values(second()));
    assert forall|k: int| 0 <= k < sorted.len() implies (#[trigger] sorted[k]).0 == total_key(
        inp.distances@[sorted[k].1 as int],
    ) as i64 by {
        assert(sorted.contains(sorted[k]));
        assert(sorted.to_multiset().count(sorted[k]) > 0);
        assert(pairs.contains(sorted[k]));
        let m = choose|m: int| 0 <= m < pairs.len() && pairs[m] == sorted[k];
        assert(pairs[m] == keyed(inp.distances@)(ids[m]));
    }
    assert(inp.cluster(c)[a] == sorted[a].1 && inp.cluster(c)[b] == sorted[b].1);
    assert(sorted[a].0 == sorted[b].0);
}

/// The order of distances is that of the numbers their bits stand for: a number whose sign bit is set comes
/// before one whose is not; of two without it the one with the lower bits comes first, of two with it the one
/// with the higher bits.
pub proof fn law_total_key(a: u32, b: u32)
    ensures
        a >= 0x8000_0000 && b < 0x8000_0000 ==> total_key(a) < total_key(b),
        a < 0x8000_0000 && b < 0x8000_0000 ==> (total_key(a) < total_key(b) <==> a < b),
        a >= 0x8000_0000 && b >= 0x8000_0000 ==> (total_key(a) < total_key(b) <==> a > b),
{
}

/// A blob takes 256 bytes for its header, 56 for each centroid, 4 for each cluster's first block and one more, 225
/// for each block and 1024 for the risks. Clusters take up blocks of eight one after the other.
pub proof fn law_blob_size(inp: &BuildInputs, c: int)
    requires
        0 <= c,
    ensures
        inp.size() == 256 + 56 * inp.centroids@.len() + 4 * (inp.centroids@.len() + 1) + 225 * inp.offset(
            inp.centroids@.len() as int,
        ) + 1024,
        inp.offset(0) == 0,
        inp.cluster(c).len() <= 8 * (inp.offset(c + 1) - inp.offset(c)) < inp.cluster(c).len() + 8,
        inp.wf() <==> inp.vectors@.len() <= 0xFFFF_FFFF && inp.centroids@.len() <= 0xFFFF_FFFF
            && inp.assignments@.len() == inp.vectors@.len() && inp.distances@.len() == inp.vectors@.len()
            && inp.is_fraud@.len() == inp.vectors@.len() && forall|i: int|
            0 <= i < inp.vectors@.len() ==> (#[trigger] inp.assignments@[i]) < inp.centroids@.len(),
{
}

} // verus!
