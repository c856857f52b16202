//! The work that runs on rayon's worker pool.
use rayon::prelude::ParallelSliceMut;
use rayon::iter::{IndexedParallelIterator, IntoParallelRefIterator, ParallelIterator};
use vstd::prelude::*;
use crate::index::Index;
use crate::model::{SparseVector, retrieved};
use crate::topk::SearchResult;
use crate::posting::{Posting, room_for_product, score_chunk, strictly_sorted, value_in};

verus! {

/// Relies on rayon::current_num_threads: the size of the pool that parallel
/// work runs on. Nothing is assumed of the number.
#[verifier::external_body]
pub(crate) fn worker_count() -> usize {
    rayon::current_num_threads()
}

/// Relies on rayon's `par_chunks_mut`, `enumerate` and `for_each`: the
/// slice is cut into consecutive, non-overlapping chunks of `chunk_size`
/// elements (the last may be shorter), and the closure runs once on each
/// chunk together with its position. Each run is `score_chunk` on that
/// chunk, so every score gains the weight times its document's value.
#[verifier::external_body]
pub(crate) fn par_score_chunks(
    postings: &[Posting],
    weight: i32,
    chunk_size: usize,
    scores: &mut [i128],
)
    requires
        chunk_size > 0,
        strictly_sorted(postings@),
        forall|j: int|
            0 <= j < old(scores)@.len() ==> -room_for_product() <= #[trigger] old(scores)@[j]
                <= room_for_product(),
    ensures
        final(scores)@.len() == old(scores)@.len(),
        forall|j: int|
            0 <= j < old(scores)@.len() ==> #[trigger] final(scores)@[j] == old(scores)@[j]
                + weight * value_in(postings@, j),
{
    scores.par_chunks_mut(chunk_size).enumerate().for_each(
        |(i, chunk)| score_chunk(postings, weight, i, chunk_size, chunk),
    );
}

/// Relies on rayon's `par_iter`, `map` and `collect`: the closure runs
/// once on each query, and the results are collected in the order of the
/// queries. Each run is `Index::retrieve`.
#[verifier::external_body]
pub(crate) fn retrieve_each(
    index: &Index,
    queries: &Vec<SparseVector>,
    top_k: usize,
    budget: Option<u64>,
) -> (r: Vec<Vec<SearchResult>>)
    requires
        index.wf(),
    ensures
        r@.len() == queries@.len(),
        forall|i: int|
            0 <= i < r@.len() ==> retrieved(
                index@,
                queries@[i]@,
                top_k as nat,
                budget,
                (#[trigger] r@[i])@,
            ),
{
    queries.par_iter().map(|q| index.retrieve(q, top_k, budget)).collect()
}

} // verus!
