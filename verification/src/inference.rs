//! The similarity engine: scores one row against all rows and ranks the
//! others.
use vstd::prelude::*;
use vstd::seq_lib::{group_to_multiset_ensures, lemma_multiset_commutative};
use vstd::multiset::group_multiset_axioms;
use crate::error::Error;
use crate::preprocess::Embedding;
use crate::scalar::{at_least, is_nan, order_key, ranks_at_least, NEG_INFINITY};

verus! {

/// The entries stand from the highest-ranked similarity to the lowest.
pub open spec fn descending(entries: Seq<(usize, u32)>) -> bool {
    forall|a: int, b: int|
        0 <= a < b < entries.len() ==> order_key(#[trigger] entries[a].1) >= order_key(
            #[trigger] entries[b].1,
        )
}

/// `ranking` holds the same entries as `entries`, each as often, from the
/// highest-ranked similarity to the lowest.
pub open spec fn ranks(ranking: Seq<(usize, u32)>, entries: Seq<(usize, u32)>) -> bool {
    &&& descending(ranking)
    &&& ranking.to_multiset() == entries.to_multiset()
}

/// Position `p` holds the first entry for `query_idx`.
pub open spec fn is_first_match(entries: Seq<(usize, u32)>, query_idx: usize, p: int) -> bool {
    &&& 0 <= p < entries.len()
    &&& entries[p].0 == query_idx
    &&& forall|earlier: int| 0 <= earlier < p ==> (#[trigger] entries[earlier]).0 != query_idx
}

/// The similarity kernel can be called on every pair of rows of the given
/// width.
pub open spec fn dot_ready<F: Fn(&[u32], &[u32]) -> u32>(dot: &F, width: int) -> bool {
    forall|x: &[u32], y: &[u32]|
        x@.len() == width && y@.len() == width ==> #[trigger] dot.requires((x, y))
}

/// `s` is what the similarity kernel gave for the rows `x` and `y`.
pub open spec fn scored<F: Fn(&[u32], &[u32]) -> u32>(
    dot: &F,
    x: Seq<u32>,
    y: Seq<u32>,
    s: u32,
) -> bool {
    exists|a: &[u32], b: &[u32]| a@ == x && b@ == y && #[trigger] dot.ensures((a, b), s)
}

/// `scores` holds, for each row of the embedding, what the similarity kernel
/// gave for the query row and that row.
pub open spec fn scores_of<F: Fn(&[u32], &[u32]) -> u32>(
    dot: &F,
    embedding: &Embedding,
    query_idx: int,
    scores: Seq<u32>,
) -> bool {
    &&& scores.len() == embedding.spec_n_vectors()
    &&& forall|i: int|
        0 <= i < scores.len() ==> scored(dot, embedding@[query_idx], embedding@[i], #[trigger] scores[i])
}

/// Every entry carries its own position as its index.
pub open spec fn indexed(similarities: Seq<(usize, u32)>) -> bool {
    forall|i: int| 0 <= i < similarities.len() ==> (#[trigger] similarities[i]).0 == i
}

/// The similarities of the entries, in their order.
pub open spec fn scores_in(similarities: Seq<(usize, u32)>) -> Seq<u32> {
    Seq::new(similarities.len(), |i: int| similarities[i].1)
}

/// Row `i` is among the results.
pub open spec fn lists(result: Seq<(usize, u32)>, i: int) -> bool {
    exists|j: int| 0 <= j < result.len() && (#[trigger] result[j]).0 == i
}

/// Taken as values, no similarity is followed by a larger one. Nothing is
/// said of a pair in which one is a NaN: no comparison holds of it.
pub open spec fn non_increasing(result: Seq<(usize, u32)>) -> bool {
    forall|j: int|
        0 <= j && j + 1 < result.len() && !is_nan((#[trigger] result[j]).1) && !is_nan(
            result[j + 1].1,
        ) ==> at_least(result[j].1, result[j + 1].1)
}

/// `result` holds the `k` nearest neighbours of row `query_idx`, where
/// `scores[i]` is the similarity of row `i` to it:
/// - there are `k` results, or one for every other row if those are fewer;
/// - each result names a row other than `query_idx`, with that row's score;
/// - no row is named twice;
/// - the results stand from the highest-ranked to the lowest;
/// - no row that was left out ranks above a row that was taken.
pub open spec fn is_top_k(
    result: Seq<(usize, u32)>,
    scores: Seq<u32>,
    query_idx: int,
    k: int,
) -> bool {
    &&& result.len() == if k < scores.len() - 1 {
        k
    } else {
        scores.len() - 1
    }
    &&& forall|j: int|
        0 <= j < result.len() ==> {
            &&& (#[trigger] result[j]).0 < scores.len()
            &&& result[j].0 != query_idx
            &&& result[j].1 == scores[result[j].0 as int]
        }
    &&& forall|a: int, b: int|
        0 <= a < b < result.len() ==> (#[trigger] result[a]).0 != (#[trigger] result[b]).0
    &&& descending(result)
    &&& forall|i: int, j: int|
        0 <= i < scores.len() && i != query_idx && !lists(result, i) && 0 <= j < result.len()
            ==> order_key(#[trigger] scores[i]) <= order_key((#[trigger] result[j]).1)
}

/// `neighbours` holds the `k` nearest neighbours of row `query_idx` of the
/// embedding, for some scores that the similarity kernel gave for that row
/// against every row.
pub open spec fn neighbours_of<F: Fn(&[u32], &[u32]) -> u32>(
    dot: &F,
    embedding: &Embedding,
    query_idx: int,
    k: int,
    neighbours: Seq<(usize, u32)>,
) -> bool {
    exists|scores: Seq<u32>| #[trigger]
        scores_of(dot, embedding, query_idx, scores) && is_top_k(neighbours, scores, query_idx, k)
}

/// Merges two descending lists into one.
fn merge_descending(left: &Vec<(usize, u32)>, right: &Vec<(usize, u32)>) -> (merged: Vec<
    (usize, u32),
>)
    requires
        descending(left@),
        descending(right@),
    ensures
        descending(merged@),
        merged@.to_multiset() == left@.to_multiset().add(right@.to_multiset()),
{
    broadcast use group_to_multiset_ensures, group_multiset_axioms;

    let mut merged: Vec<(usize, u32)> = Vec::new();
    let mut i: usize = 0;
    let mut j: usize = 0;
    assert(left@.take(0) =~= Seq::empty());
    assert(right@.take(0) =~= Seq::empty());
    assert(merged@.to_multiset() =~= left@.take(0).to_multiset().add(right@.take(0).to_multiset()));
    while i < left.len() || j < right.len()
        invariant
            i <= left@.len(),
            j <= right@.len(),
            descending(left@),
            descending(right@),
            descending(merged@),
            merged@.to_multiset() == left@.take(i as int).to_multiset().add(
                right@.take(j as int).to_multiset(),
            ),
            forall|p: int|
                0 <= p < merged@.len() && i < left@.len() ==> order_key(
                    (#[trigger] merged@[p]).1,
                ) >= order_key(left@[i as int].1),
            forall|p: int|
                0 <= p < merged@.len() && j < right@.len() ==> order_key(
                    (#[trigger] merged@[p]).1,
                ) >= order_key(right@[j as int].1),
        decreases left@.len() - i + right@.len() - j,
    {
        let take_left = if j >= right.len() {
            true
        } else if i >= left.len() {
            false
        } else {
            ranks_at_least(left[i].1, right[j].1)
        };
        if take_left {
            let entry = left[i];
            proof {
                broadcast use group_to_multiset_ensures, group_multiset_axioms;

                let taken = left@.take(i as int);
                let other = right@.take(j as int).to_multiset();
                assert(left@.take(i + 1) =~= taken.push(entry));
                assert(taken.push(entry).to_multiset() =~= taken.to_multiset().insert(entry));
                assert(merged@.push(entry).to_multiset() =~= merged@.to_multiset().insert(entry));
                assert(taken.to_multiset().insert(entry).add(other) =~= taken.to_multiset().add(
                    other,
                ).insert(entry));
            }
            merged.push(entry);
            i = i + 1;
        } else {
            let entry = right[j];
            proof {
                broadcast use group_to_multiset_ensures, group_multiset_axioms;

                let taken = right@.take(j as int);
                let other = left@.take(i as int).to_multiset();
                assert(right@.take(j + 1) =~= taken.push(entry));
                assert(taken.push(entry).to_multiset() =~= taken.to_multiset().insert(entry));
                assert(merged@.push(entry).to_multiset() =~= merged@.to_multiset().insert(entry));
                assert(other.add(taken.to_multiset().insert(entry)) =~= other.add(
                    taken.to_multiset(),
                ).insert(entry));
            }
            merged.push(entry);
            j = j + 1;
        }
    }
    assert(left@.take(i as int) =~= left@);
    assert(right@.take(j as int) =~= right@);
    merged
}

/// Ranks the entries from position `lo` up to `hi` by merging the rankings of
/// the two halves.
fn rank_range(entries: &Vec<(usize, u32)>, lo: usize, hi: usize) -> (ranking: Vec<(usize, u32)>)
    requires
        lo <= hi <= entries@.len(),
    ensures
        ranks(ranking@, entries@.subrange(lo as int, hi as int)),
    decreases hi - lo,
{
    broadcast use group_to_multiset_ensures, group_multiset_axioms;

    let mut ranking: Vec<(usize, u32)> = Vec::new();
    if hi - lo == 0 {
        assert(entries@.subrange(lo as int, hi as int) =~= ranking@);
        ranking
    } else if hi - lo == 1 {
        ranking.push(entries[lo]);
        assert(entries@.subrange(lo as int, hi as int) =~= ranking@);
        ranking
    } else {
        let mid = lo + (hi - lo) / 2;
        let upper = rank_range(entries, lo, mid);
        let lower = rank_range(entries, mid, hi);
        proof {
            assert(entries@.subrange(lo as int, hi as int) =~= entries@.subrange(
                lo as int,
                mid as int,
            ) + entries@.subrange(mid as int, hi as int));
            lemma_multiset_commutative(
                entries@.subrange(lo as int, mid as int),
                entries@.subrange(mid as int, hi as int),
            );
        }
        merge_descending(&upper, &lower)
    }
}

/// Takes the query out of the running: the first entry for `query_idx` gets
/// negative infinity as its similarity. All other entries stay as they are.
pub fn exclude_query_index(similarities: &mut Vec<(usize, u32)>, query_idx: usize)
    ensures
        final(similarities)@.len() == old(similarities)@.len(),
        forall|p: int|
            0 <= p < old(similarities)@.len() ==> #[trigger] final(similarities)@[p] == if is_first_match(
                old(similarities)@,
                query_idx,
                p,
            ) {
                (query_idx, NEG_INFINITY)
            } else {
                old(similarities)@[p]
            },
{
    let mut p: usize = 0;
    while p < similarities.len()
        invariant
            p <= similarities@.len(),
            similarities@ == old(similarities)@,
            forall|earlier: int| 0 <= earlier < p ==> (#[trigger] similarities@[earlier]).0 != query_idx,
        decreases similarities@.len() - p,
    {
        if similarities[p].0 == query_idx {
            similarities[p] = (query_idx, NEG_INFINITY);
            return ;
        }
        p = p + 1;
    }
}

/// Ranks the similarities from the highest to the lowest and keeps the first
/// `k` of them. The list that was handed in is left holding the same `k`
/// entries. Entries of equal rank may stand in any order.
pub fn get_top_k(similarities: &mut Vec<(usize, u32)>, k: usize) -> (top: Vec<(usize, u32)>)
    ensures
        top@ == final(similarities)@,
        top@.len() == if k < old(similarities)@.len() { k as nat } else { old(similarities)@.len() },
        exists|ranking: Seq<(usize, u32)>| #[trigger]
            ranks(ranking, old(similarities)@) && top@ == ranking.take(top@.len() as int),
{
    let mut ranking = rank_range(similarities, 0, similarities.len());
    let ghost full = ranking@;
    proof {
        broadcast use group_to_multiset_ensures;

        assert(similarities@.subrange(0, similarities@.len() as int) =~= similarities@);
        assert(full.to_multiset().len() == similarities@.to_multiset().len());
    }
    ranking.truncate(k);
    assert(ranking@ =~= full.take(ranking@.len() as int));
    *similarities = ranking;
    let top = vstd::slice::slice_to_vec(similarities.as_slice());
    assert(ranks(full, old(similarities)@) && top@ == full.take(top@.len() as int));
    top
}


/// Scores the query row against every row of the embedding, the query row
/// itself included, with the similarity kernel `dot`. Entry `i` of the result
/// is row `i` with its score.
pub fn compute_similarities<F: Fn(&[u32], &[u32]) -> u32>(
    embedding: &Embedding,
    query_idx: usize,
    dot: &F,
) -> (similarities: Vec<(usize, u32)>)
    requires
        query_idx < embedding.spec_n_vectors(),
        dot_ready(dot, embedding.spec_dim() as int),
    ensures
        indexed(similarities@),
        scores_of(dot, embedding, query_idx as int, scores_in(similarities@)),
{
    let n_vectors = embedding.n_vectors();
    let query_vec = embedding.row_at(query_idx);
    let mut similarities: Vec<(usize, u32)> = Vec::with_capacity(n_vectors);
    let mut i: usize = 0;
    while i < n_vectors
        invariant
            i <= n_vectors,
            n_vectors == embedding.spec_n_vectors(),
            query_idx < n_vectors,
            dot_ready(dot, embedding.spec_dim() as int),
            query_vec@ == embedding@[query_idx as int],
            query_vec@.len() == embedding.spec_dim(),
            similarities@.len() == i,
            indexed(similarities@),
            forall|t: int|
                0 <= t < i ==> scored(
                    dot,
                    embedding@[query_idx as int],
                    embedding@[t],
                    (#[trigger] similarities@[t]).1,
                ),
        decreases n_vectors - i,
    {
        let vec_i = embedding.row_at(i);
        let similarity = dot(query_vec, vec_i);
        similarities.push((i, similarity));
        i = i + 1;
    }
    similarities
}

/// What a ranking of an indexed list looks like: it has the length of the
/// list, each of its entries is the entry of the list that its index names,
/// no index occurs twice in it, and every index of the list occurs in it.
proof fn lemma_ranking_of_indexed(ranking: Seq<(usize, u32)>, entries: Seq<(usize, u32)>)
    requires
        ranks(ranking, entries),
        indexed(entries),
    ensures
        ranking.len() == entries.len(),
        forall|p: int|
            0 <= p < ranking.len() ==> (#[trigger] ranking[p]).0 < entries.len() && ranking[p]
                == entries[ranking[p].0 as int],
        forall|a: int, b: int|
            0 <= a < ranking.len() && 0 <= b < ranking.len() && a != b ==> (#[trigger] ranking[a]).0
                != (#[trigger] ranking[b]).0,
        forall|m: int| 0 <= m < entries.len() ==> #[trigger] lists(ranking, m),
{
    broadcast use group_to_multiset_ensures;

    assert(ranking.to_multiset().len() == entries.to_multiset().len());
    assert forall|p: int| 0 <= p < ranking.len() implies (#[trigger] ranking[p]).0 < entries.len()
        && ranking[p] == entries[ranking[p].0 as int] by {
        let entry = ranking[p];
        assert(ranking.contains(entry));
        assert(entries.to_multiset().count(entry) > 0);
        assert(entries.contains(entry));
        let m = choose|m: int| 0 <= m < entries.len() && entries[m] == entry;
        assert(entries[m].0 == m);
    }
    assert(entries.no_duplicates()) by {
        assert forall|a: int, b: int|
            0 <= a < entries.len() && 0 <= b < entries.len() && a != b implies entries[a]
            != entries[b] by {
            assert(entries[a].0 == a && entries[b].0 == b);
        }
    }
    entries.lemma_multiset_has_no_duplicates();
    ranking.lemma_multiset_has_no_duplicates_conv();
    assert forall|a: int, b: int|
        0 <= a < ranking.len() && 0 <= b < ranking.len() && a != b implies (#[trigger] ranking[a]).0
        != (#[trigger] ranking[b]).0 by {
        if ranking[a].0 == ranking[b].0 {
            assert(ranking[a] == entries[ranking[a].0 as int]);
            assert(ranking[b] == entries[ranking[b].0 as int]);
            assert(ranking[a] == ranking[b]);
        }
    }
    assert forall|m: int| 0 <= m < entries.len() implies #[trigger] lists(ranking, m) by {
        let entry = entries[m];
        assert(entries.contains(entry));
        assert(ranking.to_multiset().count(entry) > 0);
        assert(ranking.contains(entry));
        let p = choose|p: int| 0 <= p < ranking.len() && ranking[p] == entry;
        assert(ranking[p].0 == m);
    }
}

/// A list without the entry at position `at`, where it has one there.
spec fn without(entries: Seq<(usize, u32)>, at: int) -> Seq<(usize, u32)> {
    if 0 <= at < entries.len() {
        entries.remove(at)
    } else {
        entries
    }
}

/// The position in a list from which entry `j` of the list without position
/// `at` comes.
spec fn origin(j: int, at: int) -> int {
    if j < at {
        j
    } else {
        j + 1
    }
}

/// The nearest neighbours among scored rows: marks the query, ranks the rows
/// and keeps the first `k` that are not the query. One row more than `k` is
/// ranked, so that `k` remain once the query itself is left out.
fn select_neighbours(similarities: Vec<(usize, u32)>, query_idx: usize, k: usize) -> (neighbours:
    Vec<(usize, u32)>)
    requires
        indexed(similarities@),
        query_idx < similarities@.len(),
    ensures
        is_top_k(neighbours@, scores_in(similarities@), query_idx as int, k as int),
        non_increasing(neighbours@),
{
    let ghost scores = scores_in(similarities@);
    let ghost n = similarities@.len() as int;
    let ghost given = similarities@;
    let mut similarities = similarities;
    let count = similarities.len();
    exclude_query_index(&mut similarities, query_idx);
    let ghost marked = similarities@;
    proof {
        assert(is_first_match(given, query_idx, query_idx as int));
        assert forall|m: int| 0 <= m < n implies (#[trigger] marked[m]).0 == m && (m != query_idx
            ==> marked[m] == given[m]) by {
            if m != query_idx {
                assert(!is_first_match(given, query_idx, m));
            }
        }
        assert(indexed(marked));
    }
    let wanted = if k < usize::MAX {
        k + 1
    } else {
        k
    };
    let ranked = get_top_k(&mut similarities, wanted);
    let ghost ranking = choose|ranking: Seq<(usize, u32)>| #[trigger]
        ranks(ranking, marked) && ranked@ == ranking.take(ranked@.len() as int);
    proof {
        lemma_ranking_of_indexed(ranking, marked);
    }
    assert(lists(ranking, query_idx as int));
    let ghost at = choose|p: int| 0 <= p < ranking.len() && (#[trigger] ranking[p]).0 == query_idx;
    let mut neighbours: Vec<(usize, u32)> = Vec::new();
    let mut pos: usize = 0;
    assert(neighbours@ =~= without(ranking.take(0), at));
    while pos < ranked.len() && neighbours.len() < k
        invariant
            pos <= ranked@.len(),
            ranked@.len() <= ranking.len(),
            ranked@ == ranking.take(ranked@.len() as int),
            neighbours@.len() <= k,
            0 <= at < ranking.len(),
            ranking[at].0 == query_idx,
            forall|p: int| 0 <= p < ranking.len() && p != at ==> (#[trigger] ranking[p]).0 != query_idx,
            neighbours@ == without(ranking.take(pos as int), at),
        decreases ranked@.len() - pos,
    {
        let entry = ranked[pos];
        assert(entry == ranking[pos as int]);
        if entry.0 != query_idx {
            assert(neighbours@.push(entry) =~= without(ranking.take(pos + 1), at));
            neighbours.push(entry);
        } else {
            assert(pos == at);
            assert(neighbours@ =~= without(ranking.take(pos + 1), at));
        }
        pos = pos + 1;
    }
    proof {
        let taken = ranking.take(pos as int);
        let result = neighbours@;
        assert(n == count && ranking.len() == n);
        assert forall|j: int| 0 <= j < result.len() implies {
            &&& 0 <= origin(j, at) < pos
            &&& origin(j, at) != at
            &&& #[trigger] result[j] == ranking[origin(j, at)]
        } by {
            assert(taken[origin(j, at)] == ranking[origin(j, at)]);
        }
        assert forall|j: int| 0 <= j < result.len() implies {
            &&& (#[trigger] result[j]).0 < scores.len()
            &&& result[j].0 != query_idx
            &&& result[j].1 == scores[result[j].0 as int]
        } by {
            let m = ranking[origin(j, at)].0 as int;
            assert(result[j] == marked[m]);
        }
        assert forall|i: int, j: int|
            0 <= i < scores.len() && i != query_idx && !lists(result, i) && 0 <= j
                < result.len() implies order_key(#[trigger] scores[i]) <= order_key(
            (#[trigger] result[j]).1,
        ) by {
            assert(lists(ranking, i));
            let p = choose|p: int| 0 <= p < ranking.len() && (#[trigger] ranking[p]).0 == i;
            assert(ranking[p] == marked[i]);
            if p < pos {
                let to = if p < at { p } else { p - 1 };
                assert(result[to] == taken[p]);
                assert(lists(result, i));
            }
            assert(result[j] == ranking[origin(j, at)]);
        }
    }
    neighbours
}

/// The `k` nearest neighbours of row `query_idx`, given the similarity of
/// every row to it: `scores[i]` is that of row `i`. The row itself is never
/// among them. With `k` at or above the number of rows, every other row is
/// returned; with `k` zero, none.
pub fn rank_neighbours(scores: &[u32], query_idx: usize, k: usize) -> (ranked: Result<
    Vec<(usize, u32)>,
    Error,
>)
    ensures
        ranked is Ok <==> query_idx < scores@.len(),
        ranked matches Ok(neighbours) ==> is_top_k(neighbours@, scores@, query_idx as int, k as int)
            && non_increasing(neighbours@),
        ranked matches Err(error) ==> error == Error::IndexOutOfRange,
{
    if query_idx >= scores.len() {
        return Err(Error::IndexOutOfRange);
    }
    let mut similarities: Vec<(usize, u32)> = Vec::with_capacity(scores.len());
    let mut i: usize = 0;
    while i < scores.len()
        invariant
            i <= scores@.len(),
            similarities@.len() == i,
            forall|t: int| 0 <= t < i ==> #[trigger] similarities@[t] == (t as usize, scores@[t]),
        decreases scores@.len() - i,
    {
        similarities.push((i, scores[i]));
        i = i + 1;
    }
    assert(scores_in(similarities@) =~= scores@);
    Ok(select_neighbours(similarities, query_idx, k))
}

/// The `k` rows of the embedding most similar to row `query_idx`, most
/// similar first, each with its similarity as the kernel `dot` computes it
/// for the two rows. The row itself is never among them; ties may come in any
/// order. An index that names no row is turned down.
pub fn get_top_k_similar<F: Fn(&[u32], &[u32]) -> u32>(
    embedding: &Embedding,
    query_idx: usize,
    k: usize,
    dot: &F,
) -> (found: Result<Vec<(usize, u32)>, Error>)
    requires
        dot_ready(dot, embedding.spec_dim() as int),
    ensures
        found is Ok <==> query_idx < embedding.spec_n_vectors(),
        found matches Ok(neighbours) ==> {
            &&& neighbours_of(dot, embedding, query_idx as int, k as int, neighbours@)
            &&& neighbours@.len() == if k < embedding.spec_n_vectors() - 1 {
                k as int
            } else {
                embedding.spec_n_vectors() - 1
            }
            &&& forall|j: int| 0 <= j < neighbours@.len() ==> (#[trigger] neighbours@[j]).0 != query_idx
            &&& descending(neighbours@)
            &&& non_increasing(neighbours@)
        },
        found matches Err(error) ==> error == Error::IndexOutOfRange,
{
    if query_idx >= embedding.n_vectors() {
        return Err(Error::IndexOutOfRange);
    }
    let similarities = compute_similarities(embedding, query_idx, dot);
    let ghost scores = scores_in(similarities@);
    let neighbours = select_neighbours(similarities, query_idx, k);
    assert(scores_of(dot, embedding, query_idx as int, scores) && is_top_k(
        neighbours@,
        scores,
        query_idx as int,
        k as int,
    ));
    Ok(neighbours)
}

} // verus!
