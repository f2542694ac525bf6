//! Nearest neighbours among quantized embeddings.
//!
//! A matrix of 8-bit codes is decoded into rows of unit length, kept in a
//! store, and searched: for one row, the `k` rows most similar to it. All
//! values are carried as bit patterns of single-precision numbers; the
//! arithmetic on them is done by kernels that the caller hands in.
pub mod error;
pub mod inference;
pub mod preprocess;
pub mod scalar;

use vstd::prelude::*;
use crate::error::Error;
use crate::inference::{descending, dot_ready, get_top_k_similar, neighbours_of, non_increasing};
use crate::preprocess::{
    affine_ready, decodes_to, divide_ready, norm_ready, reshape_flat_vec, Data, Embedding,
};

verus! {

/// Holds the embedding that queries are answered from: none before the first
/// load, then always the one that was stored last.
pub struct EmbeddingStore {
    current: Option<Embedding>,
}

impl View for EmbeddingStore {
    type V = Option<Embedding>;

    closed spec fn view(&self) -> Option<Embedding> {
        self.current
    }
}

impl EmbeddingStore {
    /// A store that holds nothing yet.
    pub fn new() -> (store: EmbeddingStore)
        ensures
            store@ is None,
    {
        EmbeddingStore { current: None }
    }

    /// The stored embedding, if there is one.
    pub fn get(&self) -> (held: Option<&Embedding>)
        ensures
            held is Some <==> self@ is Some,
            held matches Some(embedding) ==> self@ == Some(*embedding),
    {
        self.current.as_ref()
    }

    /// Puts `embedding` in the place of whatever was stored.
    pub fn set(&mut self, embedding: Embedding)
        ensures
            final(self)@ == Some(embedding),
    {
        self.current = Some(embedding);
    }
}

/// Stores a decoded matrix: from now on queries on `store` are answered from
/// `embedding`, and from nothing else.
pub fn set_normalized_matrix(store: &mut EmbeddingStore, embedding: Embedding)
    ensures
        final(store)@ == Some(embedding),
{
    store.set(embedding);
}

/// Decodes the weights of one load and stores the result. Where the weights
/// are malformed nothing is stored, and the store keeps what it held.
pub fn process_quantized<A: Fn(u8, u32, u32) -> u32, N: Fn(&[u32]) -> u32, D: Fn(u32, u32) -> u32>(
    store: &mut EmbeddingStore,
    data: &Data,
    affine: &A,
    norm: &N,
    divide: &D,
) -> (loaded: Result<(), Error>)
    requires
        affine_ready(affine, data.weights.scale, data.weights.zero_point),
        data.weights.shape@.len() == 2 ==> norm_ready(norm, data.weights.shape@[1] as int),
        divide_ready(divide),
    ensures
        loaded is Ok <==> data.weights.well_shaped(),
        loaded is Ok ==> final(store)@ is Some && decodes_to(
            &data.weights,
            affine,
            norm,
            divide,
            &final(store)@->0,
        ),
        loaded matches Err(error) ==> error == Error::MalformedInput && final(store)@ == old(store)@,
{
    match reshape_flat_vec(&data.weights, affine, norm, divide) {
        Ok(embedding) => {
            set_normalized_matrix(store, embedding);
            Ok(())
        },
        Err(error) => Err(error),
    }
}

/// One answer to a query: a row of the embedding and its similarity to the
/// query row.
pub struct SimilarityResult {
    index: usize,
    similarity: u32,
}

impl View for SimilarityResult {
    type V = (usize, u32);

    closed spec fn view(&self) -> (usize, u32) {
        (self.index, self.similarity)
    }
}

impl SimilarityResult {
    /// The index of the row.
    pub fn index(&self) -> (index: usize)
        ensures
            index == self@.0,
    {
        self.index
    }

    /// The similarity, as the bit pattern of a single-precision value.
    pub fn similarity(&self) -> (similarity: u32)
        ensures
            similarity == self@.1,
    {
        self.similarity
    }
}

/// The results as pairs of index and similarity.
pub open spec fn pairs(results: Seq<SimilarityResult>) -> Seq<(usize, u32)> {
    Seq::new(results.len(), |j: int| results[j]@)
}

/// Answers a query from the store: the `k` rows most similar to row
/// `query_idx` of the stored embedding, most similar first, never that row
/// itself. A query on an empty store, or for a row that the embedding does
/// not have, is turned down. The store is not changed either way.
pub fn query_top_k<F: Fn(&[u32], &[u32]) -> u32>(
    store: &EmbeddingStore,
    query_idx: usize,
    k: usize,
    dot: &F,
) -> (answer: Result<Vec<SimilarityResult>, Error>)
    requires
        store@ matches Some(embedding) ==> dot_ready(dot, embedding.spec_dim() as int),
    ensures
        answer is Ok <==> (store@ matches Some(embedding) && query_idx < embedding.spec_n_vectors()),
        answer matches Ok(results) ==> {
            &&& neighbours_of(dot, &store@->0, query_idx as int, k as int, pairs(results@))
            &&& results@.len() == if k < (store@->0).spec_n_vectors() - 1 {
                k as int
            } else {
                (store@->0).spec_n_vectors() - 1
            }
            &&& forall|j: int| 0 <= j < results@.len() ==> (#[trigger] results@[j])@.0 != query_idx
            &&& descending(pairs(results@))
            &&& non_increasing(pairs(results@))
        },
        answer matches Err(error) ==> error == if store@ is None {
            Error::NotInitialized
        } else {
            Error::IndexOutOfRange
        },
{
    let embedding = match store.get() {
        Some(embedding) => embedding,
        None => {
            return Err(Error::NotInitialized);
        },
    };
    let neighbours = match get_top_k_similar(embedding, query_idx, k, dot) {
        Ok(neighbours) => neighbours,
        Err(error) => {
            return Err(error);
        },
    };
    let mut results: Vec<SimilarityResult> = Vec::with_capacity(neighbours.len());
    let mut j: usize = 0;
    while j < neighbours.len()
        invariant
            j <= neighbours@.len(),
            results@.len() == j,
            forall|t: int| 0 <= t < j ==> (#[trigger] results@[t])@ == neighbours@[t],
        decreases neighbours@.len() - j,
    {
        let (index, similarity) = neighbours[j];
        results.push(SimilarityResult { index, similarity });
        j = j + 1;
    }
    assert(pairs(results@) =~= neighbours@);
    Ok(results)
}

} // verus!
