//! The in-memory vector store: chunks with their embeddings, in the order in
//! which they came, and the ranking of the entries by similarity to a query.
//!
//! Numbers with a fractional part do not enter this module as such. A
//! component of an embedding, and a similarity score, is held as the 32 bits
//! of its IEEE 754 single-precision encoding. The arithmetic on embeddings
//! (scaling to unit length, dot products) is the caller's; the store keeps
//! what it is given and ranks by the scores it is given.

use crate::chunks::{chunk_views, Chunk, ChunkView};
use vstd::prelude::*;

verus! {

/// A chunk with its embedding.
#[derive(Debug)]
pub struct IndexedChunk {
    pub chunk: Chunk,
    /// The embedding as it was handed in, one bit pattern per component.
    /// Scaling it to unit length is the caller's, before it is handed in.
    pub embedding: Vec<u32>,
}

/// What an entry of the store holds.
pub struct IndexedChunkView {
    pub chunk: ChunkView,
    pub embedding: Seq<u32>,
}

impl View for IndexedChunk {
    type V = IndexedChunkView;

    open spec fn view(&self) -> IndexedChunkView {
        IndexedChunkView { chunk: self.chunk@, embedding: self.embedding@ }
    }
}

impl Clone for IndexedChunk {
    fn clone(&self) -> (copy: Self)
        ensures
            copy@ == self@,
    {
        IndexedChunk { chunk: self.chunk.clone(), embedding: self.embedding.clone() }
    }
}

/// Chunks with their embeddings, in the order in which they were added.
#[derive(Debug)]
pub struct VectorStore {
    items: Vec<IndexedChunk>,
}

impl View for VectorStore {
    type V = Seq<IndexedChunkView>;

    closed spec fn view(&self) -> Seq<IndexedChunkView> {
        entry_views(self.items@)
    }
}

impl Default for VectorStore {
    fn default() -> (store: Self)
        ensures
            store@ == Seq::<IndexedChunkView>::empty(),
    {
        VectorStore::new()
    }
}

/// What each of `items` holds.
pub open spec fn entry_views(items: Seq<IndexedChunk>) -> Seq<IndexedChunkView> {
    items.map_values(|item: IndexedChunk| item@)
}

/// The entries made of `chunks` and `embeddings`, pair by pair.
pub open spec fn paired(chunks: Seq<ChunkView>, embeddings: Seq<Seq<u32>>) -> Seq<
    IndexedChunkView,
> {
    Seq::new(
        chunks.len(),
        |i: int| IndexedChunkView { chunk: chunks[i], embedding: embeddings[i] },
    )
}

/// The view of each of `embeddings`.
pub open spec fn embedding_views(embeddings: Seq<Vec<u32>>) -> Seq<Seq<u32>> {
    embeddings.map_values(|embedding: Vec<u32>| embedding@)
}

/// Where a score stands among all scores: a greater number is a better
/// match.
///
/// `bits` is a single-precision encoding: a sign bit, then 31 bits of
/// magnitude. Numbers are ordered by their value, so that plus and minus
/// zero stand together; what is not a number (a magnitude above that of
/// infinity, `0x7f80_0000`) stands below every number.
pub open spec fn score_order(bits: u32) -> int {
    let magnitude = if bits >= 0x8000_0000 {
        bits - 0x8000_0000
    } else {
        bits as int
    };
    if magnitude > 0x7f80_0000 {
        -0x8000_0000
    } else if bits >= 0x8000_0000 {
        -magnitude
    } else {
        magnitude
    }
}

/// Whether entry `i` comes before entry `j` in the ranking: its score is
/// better, or the scores stand together and `i` was stored first.
pub open spec fn outranks(scores: Seq<u32>, i: int, j: int) -> bool {
    score_order(scores[i]) > score_order(scores[j]) || (score_order(scores[i]) == score_order(
        scores[j],
    ) && i < j)
}

/// How many entries at the head of `order` score at least as well as
/// `score`.
pub open spec fn slot(scores: Seq<u32>, order: Seq<int>, score: u32) -> nat
    decreases order.len(),
{
    if order.len() > 0 && score_order(scores[order[0]]) >= score_order(score) {
        1 + slot(scores, order.skip(1), score)
    } else {
        0
    }
}

/// The first `n` entries by descending score. Entries with scores that stand
/// together keep the order in which they were stored.
///
/// Entry `n - 1` is put into the ranking of the entries before it, behind
/// all that score at least as well.
pub open spec fn ranking(scores: Seq<u32>, n: nat) -> Seq<int>
    decreases n,
{
    if n == 0 {
        Seq::empty()
    } else {
        let before = ranking(scores, (n - 1) as nat);
        before.insert(slot(scores, before, scores[n - 1]) as int, n - 1)
    }
}

/// The smaller of two numbers.
pub open spec fn at_most(a: nat, b: nat) -> nat {
    if a <= b {
        a
    } else {
        b
    }
}

/// The best `k` entries by descending score, or all where there are fewer.
pub open spec fn top_ranked(scores: Seq<u32>, k: nat) -> Seq<int> {
    ranking(scores, scores.len()).take(at_most(k, scores.len()) as int)
}

/// The chunks of the best `k` entries, each with its score, best first.
pub open spec fn ranked_hits(entries: Seq<IndexedChunkView>, scores: Seq<u32>, k: nat) -> Seq<
    (ChunkView, u32),
> {
    Seq::new(
        top_ranked(scores, k).len(),
        |p: int| (entries[top_ranked(scores, k)[p]].chunk, scores[top_ranked(scores, k)[p]]),
    )
}

/// What a search returns: nothing where the store or the query is empty,
/// else the chunks of the best `k` entries with their scores.
pub open spec fn search_hits(
    entries: Seq<IndexedChunkView>,
    query: Seq<u32>,
    scores: Seq<u32>,
    k: nat,
) -> Seq<(ChunkView, u32)> {
    if entries.len() == 0 || query.len() == 0 {
        Seq::empty()
    } else {
        ranked_hits(entries, scores, k)
    }
}

/// What each of `hits` holds.
pub open spec fn hit_views(hits: Seq<(Chunk, u32)>) -> Seq<(ChunkView, u32)> {
    hits.map_values(|hit: (Chunk, u32)| (hit.0@, hit.1))
}

/// The positions in `order` as mathematical integers.
pub open spec fn positions(order: Seq<usize>) -> Seq<int> {
    order.map_values(|i: usize| i as int)
}

/// `slot` counts a run at the head of `order`: every entry in it scores at
/// least as well as `score`, and the entry behind it does not.
pub proof fn lemma_slot(scores: Seq<u32>, order: Seq<int>, score: u32)
    ensures
        slot(scores, order, score) <= order.len(),
        forall|p: int|
            0 <= p < slot(scores, order, score) ==> score_order(scores[#[trigger] order[p]])
                >= score_order(score),
        slot(scores, order, score) < order.len() ==> score_order(
            scores[order[slot(scores, order, score) as int]],
        ) < score_order(score),
    decreases order.len(),
{
    if order.len() > 0 && score_order(scores[order[0]]) >= score_order(score) {
        let rest = order.skip(1);
        lemma_slot(scores, rest, score);
        assert forall|p: int| 0 <= p < slot(scores, order, score) implies score_order(
            scores[#[trigger] order[p]],
        ) >= score_order(score) by {
            if p > 0 {
                assert(order[p] == rest[p - 1]);
            }
        }
        if slot(scores, order, score) < order.len() {
            assert(order[slot(scores, order, score) as int] == rest[slot(scores, rest, score) as int]);
        }
    }
}

/// The run at the head of a prefix of `order` is the run at the head of
/// `order`, as far as the prefix goes.
pub proof fn lemma_slot_of_prefix(scores: Seq<u32>, order: Seq<int>, m: int, score: u32)
    requires
        0 <= m <= order.len(),
    ensures
        slot(scores, order.take(m), score) == at_most(slot(scores, order, score), m as nat),
    decreases order.len(),
{
    let prefix = order.take(m);
    if m > 0 && score_order(scores[order[0]]) >= score_order(score) {
        assert(prefix[0] == order[0]);
        assert(prefix.skip(1) =~= order.skip(1).take(m - 1));
        lemma_slot_of_prefix(scores, order.skip(1), m - 1, score);
    } else if m > 0 {
        assert(prefix[0] == order[0]);
    }
}

/// The ranking of the first `n` entries holds each of them once, and each
/// entry in it comes before all that stand behind it.
pub proof fn lemma_ranking(scores: Seq<u32>, n: nat)
    requires
        n <= scores.len(),
    ensures
        ranking(scores, n).len() == n,
        forall|p: int| 0 <= p < n ==> 0 <= #[trigger] ranking(scores, n)[p] < n,
        forall|i: int| 0 <= i < n ==> ranking(scores, n).contains(i),
        forall|p: int, q: int|
            0 <= p < q < n ==> outranks(
                scores,
                #[trigger] ranking(scores, n)[p],
                #[trigger] ranking(scores, n)[q],
            ),
    decreases n,
{
    if n > 0 {
        let last = (n - 1) as int;
        let before = ranking(scores, (n - 1) as nat);
        let at = slot(scores, before, scores[last]) as int;
        let after = ranking(scores, n);
        lemma_ranking(scores, (n - 1) as nat);
        lemma_slot(scores, before, scores[last]);
        assert(after == before.insert(at, last));
        assert forall|p: int| 0 <= p < n implies 0 <= #[trigger] after[p] < n by {
            if p < at {
                assert(after[p] == before[p]);
            } else if p > at {
                assert(after[p] == before[p - 1]);
            }
        }
        assert forall|i: int| 0 <= i < n implies after.contains(i) by {
            if i == last {
                assert(after[at] == last);
            } else {
                assert(before.contains(i));
                let p = choose|p: int| 0 <= p < before.len() && before[p] == i;
                if p < at {
                    assert(after[p] == i);
                } else {
                    assert(after[p + 1] == i);
                }
            }
        }
        assert forall|p: int, q: int| 0 <= p < q < n implies outranks(
            scores,
            #[trigger] after[p],
            #[trigger] after[q],
        ) by {
            if q < at {
                assert(after[p] == before[p] && after[q] == before[q]);
            } else if q == at {
                assert(after[p] == before[p]);
            } else if p > at {
                assert(after[p] == before[p - 1] && after[q] == before[q - 1]);
            } else if p == at {
                assert(after[q] == before[q - 1]);
                if q - 1 > at {
                    assert(outranks(scores, before[at], before[q - 1]));
                }
            } else {
                assert(after[p] == before[p] && after[q] == before[q - 1]);
            }
        }
    }
}

/// A run at the head of `order` of entries that score at least as well as
/// `score`, with an entry behind it that does not, is the run that `slot`
/// counts.
pub proof fn lemma_slot_is(scores: Seq<u32>, order: Seq<int>, score: u32, run: int)
    requires
        0 <= run <= order.len(),
        forall|p: int|
            0 <= p < run ==> score_order(scores[#[trigger] order[p]]) >= score_order(score),
        run < order.len() ==> score_order(scores[order[run]]) < score_order(score),
    ensures
        slot(scores, order, score) == run,
    decreases order.len(),
{
    if run > 0 {
        let rest = order.skip(1);
        assert(score_order(scores[order[0]]) >= score_order(score));
        assert forall|p: int| 0 <= p < run - 1 implies score_order(scores[#[trigger] rest[p]])
            >= score_order(score) by {
            assert(rest[p] == order[p + 1]);
        }
        if run < order.len() {
            assert(rest[run - 1] == order[run]);
        }
        lemma_slot_is(scores, rest, score, run - 1);
    }
}

/// There is one ranking only: an order that holds each of the first `n`
/// entries once, and in which each entry comes before all that stand behind
/// it, is `ranking(scores, n)`.
pub proof fn lemma_ranking_unique(scores: Seq<u32>, n: nat, order: Seq<int>)
    requires
        n <= scores.len(),
        order.len() == n,
        forall|p: int| 0 <= p < n ==> 0 <= #[trigger] order[p] < n,
        forall|i: int| 0 <= i < n ==> order.contains(i),
        forall|p: int, q: int|
            0 <= p < q < n ==> outranks(scores, #[trigger] order[p], #[trigger] order[q]),
    ensures
        order == ranking(scores, n),
    decreases n,
{
    if n == 0 {
        assert(order =~= ranking(scores, n));
    } else {
        let last = (n - 1) as int;
        assert(order.contains(last));
        let at = choose|at: int| 0 <= at < order.len() && order[at] == last;
        let rest = order.remove(at);
        assert forall|p: int| 0 <= p < n - 1 implies 0 <= #[trigger] rest[p] < n - 1 by {
            if p < at {
                assert(rest[p] == order[p]);
                assert(outranks(scores, order[p], order[at]));
            } else {
                assert(rest[p] == order[p + 1]);
                assert(outranks(scores, order[at], order[p + 1]));
            }
        }
        assert forall|i: int| 0 <= i < n - 1 implies rest.contains(i) by {
            assert(order.contains(i));
            let p = choose|p: int| 0 <= p < order.len() && order[p] == i;
            if p < at {
                assert(rest[p] == i);
            } else {
                assert(rest[p - 1] == i);
            }
        }
        assert forall|p: int, q: int| 0 <= p < q < n - 1 implies outranks(
            scores,
            #[trigger] rest[p],
            #[trigger] rest[q],
        ) by {
            let from_p = if p < at {
                p
            } else {
                p + 1
            };
            let from_q = if q < at {
                q
            } else {
                q + 1
            };
            assert(rest[p] == order[from_p] && rest[q] == order[from_q]);
            assert(outranks(scores, order[from_p], order[from_q]));
        }
        lemma_ranking_unique(scores, (n - 1) as nat, rest);
        assert forall|p: int| 0 <= p < at implies score_order(scores[#[trigger] rest[p]])
            >= score_order(scores[last]) by {
            assert(rest[p] == order[p]);
            assert(outranks(scores, order[p], order[at]));
        }
        if at < rest.len() {
            assert(rest[at] == order[at + 1]);
            assert(outranks(scores, order[at], order[at + 1]));
        }
        lemma_slot_is(scores, rest, scores[last], at);
        assert(rest.insert(at, last) =~= order);
    }
}

/// The best `k` entries: at most `k`, at most as many as there are scores,
/// each entry at most once, each before all that stand behind it, and each
/// before every entry that is left out.
pub proof fn lemma_top_ranked(scores: Seq<u32>, k: nat)
    ensures
        top_ranked(scores, k).len() == at_most(k, scores.len()),
        forall|p: int|
            0 <= p < top_ranked(scores, k).len() ==> 0 <= #[trigger] top_ranked(scores, k)[p]
                < scores.len(),
        forall|p: int, q: int|
            0 <= p < q < top_ranked(scores, k).len() ==> outranks(
                scores,
                #[trigger] top_ranked(scores, k)[p],
                #[trigger] top_ranked(scores, k)[q],
            ),
        forall|p: int, j: int|
            0 <= p < top_ranked(scores, k).len() && 0 <= j < scores.len() && !top_ranked(
                scores,
                k,
            ).contains(j) ==> #[trigger] outranks(scores, top_ranked(scores, k)[p], j),
{
    let all = ranking(scores, scores.len());
    let top = top_ranked(scores, k);
    lemma_ranking(scores, scores.len());
    assert forall|p: int, j: int|
        0 <= p < top.len() && 0 <= j < scores.len() && !top.contains(j) implies #[trigger] outranks(
        scores,
        top[p],
        j,
    ) by {
        assert(all.contains(j));
        let q = choose|q: int| 0 <= q < all.len() && all[q] == j;
        if q < top.len() {
            assert(top[q] == j);
        }
        assert(outranks(scores, all[p], all[q]));
    }
}

/// Computes where a score stands among all scores.
fn score_key(bits: u32) -> (key: i64)
    ensures
        key == score_order(bits),
{
    let magnitude: u32 = if bits >= 0x8000_0000 {
        bits - 0x8000_0000
    } else {
        bits
    };
    if magnitude > 0x7f80_0000 {
        -0x8000_0000
    } else if bits >= 0x8000_0000 {
        -(magnitude as i64)
    } else {
        magnitude as i64
    }
}

/// Puts entry `i` into the best `k` of the entries before it.
fn rank_into(best: &mut Vec<usize>, scores: &Vec<u32>, i: usize, k: usize)
    requires
        i < scores@.len(),
        positions(old(best)@) == ranking(scores@, i as nat).take(at_most(k as nat, i as nat) as int),
    ensures
        positions(final(best)@) == ranking(scores@, (i + 1) as nat).take(
            at_most(k as nat, (i + 1) as nat) as int,
        ),
{
    let ghost all = ranking(scores@, i as nat);
    let ghost kept = at_most(k as nat, i as nat) as int;
    let ghost at_all = slot(scores@, all, scores@[i as int]) as int;
    proof {
        lemma_ranking(scores@, i as nat);
        lemma_slot(scores@, all, scores@[i as int]);
        lemma_slot_of_prefix(scores@, all, kept, scores@[i as int]);
    }
    let key = score_key(scores[i]);
    let mut at: usize = 0;
    assert(positions(best@).skip(0) =~= positions(best@));
    while at < best.len() && score_key(scores[best[at]]) >= key
        invariant
            at <= best@.len(),
            i < scores@.len(),
            key == score_order(scores@[i as int]),
            positions(best@) == all.take(kept),
            all == ranking(scores@, i as nat),
            0 <= kept <= all.len(),
            forall|p: int| 0 <= p < all.len() ==> 0 <= #[trigger] all[p] < i,
            slot(scores@, positions(best@), scores@[i as int]) == at + slot(
                scores@,
                positions(best@).skip(at as int),
                scores@[i as int],
            ),
        decreases best@.len() - at,
    {
        assert(positions(best@).skip(at as int).skip(1) =~= positions(best@).skip(at + 1));
        assert(positions(best@).skip(at as int)[0] == best@[at as int]);
        at += 1;
    }
    proof {
        if at < best.len() {
            assert(positions(best@)[at as int] == all[at as int]);
            assert(positions(best@).skip(at as int)[0] == best@[at as int]);
        }
        assert(at == at_most(at_all as nat, kept as nat));
    }
    if at < k {
        assert(at == at_all);
        let ghost old_best = best@;
        best.insert(at, i);
        assert(positions(best@) =~= positions(old_best).insert(at as int, i as int));
        let ghost grown = best@;
        if best.len() > k {
            best.pop();
            assert(positions(best@) =~= positions(grown).take(k as int));
        }
        assert(positions(best@) =~= all.insert(at_all, i as int).take(
            at_most(k as nat, (i + 1) as nat) as int,
        ));
    } else {
        assert(positions(best@) =~= all.insert(at_all, i as int).take(
            at_most(k as nat, (i + 1) as nat) as int,
        ));
    }
}

impl VectorStore {
    /// An empty store.
    pub fn new() -> (store: Self)
        ensures
            store@ == Seq::<IndexedChunkView>::empty(),
    {
        let store = VectorStore { items: Vec::new() };
        assert(store@ =~= Seq::<IndexedChunkView>::empty());
        store
    }

    /// Adds a chunk with its embedding behind the entries that are there.
    /// No entry is replaced or merged, whatever it holds.
    pub fn add(&mut self, chunk: Chunk, embedding: Vec<u32>)
        ensures
            final(self)@ == old(self)@.push(
                (IndexedChunkView { chunk: chunk@, embedding: embedding@ }),
            ),
    {
        let ghost before = self.items@;
        self.items.push(IndexedChunk { chunk, embedding });
        assert(entry_views(self.items@) =~= entry_views(before).push(
            self.items@[before.len() as int]@,
        ));
    }

    /// Adds chunks with their embeddings, pair by pair, in order.
    pub fn add_batch(&mut self, chunks: Vec<Chunk>, embeddings: Vec<Vec<u32>>)
        requires
            chunks@.len() == embeddings@.len(),
        ensures
            final(self)@ == old(self)@ + paired(chunk_views(chunks@), embedding_views(embeddings@)),
    {
        let ghost before = self@;
        let ghost added = paired(chunk_views(chunks@), embedding_views(embeddings@));
        let ghost count = chunks@.len() as int;
        let mut chunks = chunks;
        let mut embeddings = embeddings;
        let mut reversed: Vec<IndexedChunk> = Vec::new();
        while chunks.len() > 0
            invariant
                chunks@.len() == embeddings@.len(),
                chunks@.len() + reversed@.len() == count,
                added.len() == count,
                forall|j: int|
                    0 <= j < chunks@.len() ==> added[j] == (IndexedChunkView {
                        chunk: #[trigger] chunks@[j]@,
                        embedding: embeddings@[j]@,
                    }),
                forall|j: int|
                    0 <= j < reversed@.len() ==> (#[trigger] reversed@[j])@ == added[count - 1 - j],
            decreases chunks@.len(),
        {
            let chunk = chunks.pop().unwrap();
            let embedding = embeddings.pop().unwrap();
            reversed.push(IndexedChunk { chunk, embedding });
        }
        while reversed.len() > 0
            invariant
                reversed@.len() <= count,
                added.len() == count,
                forall|j: int|
                    0 <= j < reversed@.len() ==> (#[trigger] reversed@[j])@ == added[count - 1 - j],
                self@ == before + added.take(count - reversed@.len()),
            decreases reversed@.len(),
        {
            let ghost stored = self.items@;
            let item = reversed.pop().unwrap();
            self.items.push(item);
            assert(entry_views(self.items@) =~= entry_views(stored).push(item@));
            assert(self@ =~= before + added.take(count - reversed@.len()));
        }
        assert(added.take(count) =~= added);
    }

    /// The best `k` entries for a query, best first: the chunk of each with
    /// its score.
    ///
    /// `scores` holds for each entry, in the order of the store, how similar
    /// it is to the query. Nothing is returned where the store or the query
    /// is empty. Entries come by descending score; entries whose scores stand
    /// together come in the order in which they were added.
    pub fn search(&self, query: &[u32], scores: &Vec<u32>, k: usize) -> (hits: Vec<(Chunk, u32)>)
        requires
            scores@.len() == self@.len(),
        ensures
            hit_views(hits@) == search_hits(self@, query@, scores@, k as nat),
            hits@.len() <= k,
            hits@.len() <= self@.len(),
            self@.len() == 0 || query@.len() == 0 ==> hits@.len() == 0,
            self@.len() > 0 && query@.len() > 0 ==> hits@.len() == at_most(k as nat, self@.len()),
    {
        let mut hits: Vec<(Chunk, u32)> = Vec::new();
        if self.items.len() == 0 || query.len() == 0 {
            assert(hit_views(hits@) =~= search_hits(self@, query@, scores@, k as nat));
            return hits;
        }
        let n = self.items.len();
        let mut best: Vec<usize> = Vec::new();
        let mut i: usize = 0;
        assert(positions(best@) =~= ranking(scores@, 0).take(0));
        while i < n
            invariant
                i <= n,
                n == scores@.len(),
                positions(best@) == ranking(scores@, i as nat).take(
                    at_most(k as nat, i as nat) as int,
                ),
            decreases n - i,
        {
            rank_into(&mut best, scores, i, k);
            i += 1;
        }
        let ghost top = top_ranked(scores@, k as nat);
        let ghost expected = ranked_hits(self@, scores@, k as nat);
        proof {
            lemma_top_ranked(scores@, k as nat);
            assert(positions(best@) == top);
        }
        let mut p: usize = 0;
        while p < best.len()
            invariant
                p <= best@.len(),
                n == scores@.len(),
                n == self.items@.len(),
                positions(best@) == top,
                top == top_ranked(scores@, k as nat),
                expected == ranked_hits(self@, scores@, k as nat),
                forall|q: int| 0 <= q < top.len() ==> 0 <= #[trigger] top[q] < n,
                hit_views(hits@) == expected.take(p as int),
            decreases best@.len() - p,
        {
            let at = best[p];
            assert(positions(best@)[p as int] == at);
            let ghost before = hit_views(hits@);
            hits.push((self.items[at].chunk.clone(), scores[at]));
            assert(hit_views(hits@) =~= expected.take(p + 1)) by {
                assert(hit_views(hits@) =~= before.push((hits@[p as int].0@, hits@[p as int].1)));
                assert(entry_views(self.items@)[at as int] == self.items@[at as int]@);
            }
            p += 1;
        }
        assert(hit_views(hits@) =~= expected);
        hits
    }

    /// The number of entries.
    pub fn len(&self) -> (count: usize)
        ensures
            count == self@.len(),
    {
        self.items.len()
    }

    /// Whether the store holds no entry.
    pub fn is_empty(&self) -> (empty: bool)
        ensures
            empty == (self@.len() == 0),
    {
        self.items.len() == 0
    }

    /// The entries, in the order in which they were added.
    pub fn entries(&self) -> (items: &Vec<IndexedChunk>)
        ensures
            entry_views(items@) == self@,
    {
        &self.items
    }
}

} // verus!
