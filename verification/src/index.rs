//! Scoring a transaction.
use crate::best::votes;
use crate::consts::{TOP_K, QueryVector};
use crate::kdtree::{ints, KdBlob};
use crate::knn::{fraud_count, neighbours};
use vstd::prelude::*;

verus! {

/// The number of fraud labels among the five nearest neighbours of `query`.
pub fn fraud_score(blob: &KdBlob, query: &QueryVector, primary: i32) -> (count: u8)
    requires
        blob.wf(),
        primary < blob.part_count,
    ensures
        count == votes(neighbours(blob, ints(query@), primary as int)),
        count <= TOP_K,
        ({
            let five = neighbours(blob, ints(query@), primary as int);
            count == five[0].1 + five[1].1 + five[2].1 + five[3].1 + five[4].1
        }),
{
    fraud_count(blob, query, primary)
}

} // verus!
