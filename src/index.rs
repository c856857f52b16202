//! The index aggregate: one posting store per coordinate, the document
//! counter and the scoring mode, with insertion, coordinate-at-a-time
//! scoring, retrieval, and the stored form that persistence writes.
use std::collections::HashMap;
use vstd::prelude::*;
use crate::budget::{order_by_magnitude, remaining_after};
use crate::model::{
    IndexView, SparseVector, budgeted_outcome, distinct_coords, entry_value, has_coord,
    lemma_insert_well_formed, loaded_as, retrieved, saved_as, total_len,
};
use crate::parallel::{par_score_chunks, retrieve_each, worker_count};
use crate::persist::{
    DeserializationError, Stored, bincode_of, consistent, consistent_store, decode, encode,
    encodes_prefix, postings_of, stores_of,
};
use crate::posting::{
    Posting, lemma_product_bound, lemma_value_in_sorted, product_bound, room_for_product, score_chunk,
    strictly_sorted,
};
use crate::topk::{SearchResult, as_ints};

verus! {

broadcast use vstd::std_specs::hash::group_hash_axioms;

/// An uncompressed inverted index over sparse vectors.
pub struct Index {
    inverted_index: HashMap<u32, Vec<Posting>>,
    coordinates: Vec<u32>,
    num_docs: u32,
    parallel: bool,
}

impl View for Index {
    type V = IndexView;

    closed spec fn view(&self) -> IndexView {
        IndexView {
            num_docs: self.num_docs as nat,
            stores: stores_view(self.inverted_index@),
            parallel: self.parallel,
        }
    }
}

pub closed spec fn stores_view(m: Map<u32, Vec<Posting>>) -> Map<u32, Seq<Posting>> {
    Map::new(|c: u32| m.contains_key(c), |c: u32| m[c]@)
}

impl Index {
    /// The index is well formed, and `coordinates` lists each coordinate of
    /// the map exactly once.
    pub closed spec fn wf(&self) -> bool {
        &&& self@.well_formed()
        &&& self.coordinates@.no_duplicates()
        &&& forall|c: u32|
            self.coordinates@.contains(c) <==> #[trigger] self.inverted_index@.contains_key(c)
    }

    /// The coordinates in order of first insertion.
    pub closed spec fn coordinate_order(&self) -> Seq<u32> {
        self.coordinates@
    }

    /// What well-formedness tells a caller: the view is well formed, and
    /// `coordinate_order` lists every coordinate of a store exactly once.
    pub proof fn lemma_wf(&self)
        requires
            self.wf(),
        ensures
            self@.well_formed(),
            self.coordinate_order().no_duplicates(),
            forall|c: u32|
                self.coordinate_order().contains(c) <==> #[trigger] self@.stores.contains_key(c),
    {
    }

    /// An empty index; `parallel` selects partitioned scoring of each
    /// coordinate.
    pub fn new(parallel: bool) -> (r: Index)
        ensures
            r.wf(),
            r@.num_docs == 0,
            r@.stores == Map::<u32, Seq<Posting>>::empty(),
            r@.parallel == parallel,
    {
        let r = Index {
            inverted_index: HashMap::new(),
            coordinates: Vec::new(),
            num_docs: 0,
            parallel,
        };
        assert(r@.stores =~= Map::<u32, Seq<Posting>>::empty());
        r
    }

    /// The number of inserted documents.
    pub fn num_docs(&self) -> (r: u32)
        ensures
            r == self@.num_docs,
    {
        self.num_docs
    }

    /// Whether each coordinate is scored in partitions.
    pub fn is_parallel(&self) -> (r: bool)
        ensures
            r == self@.parallel,
    {
        self.parallel
    }

    /// The number of coordinates that have a posting store.
    pub fn num_coordinates(&self) -> (r: usize)
        requires
            self.wf(),
        ensures
            r == self@.stores.dom().len(),
    {
        proof {
            self.coordinates@.unique_seq_to_set();
            assert(self.coordinates@.to_set() =~= self@.stores.dom());
        }
        self.coordinates.len()
    }

    /// Inserts `document` as the next document: one posting with docid
    /// `num_docs` is appended to the store of each of its coordinates, and
    /// `num_docs` grows by one.
    pub fn insert(&mut self, document: &SparseVector)
        requires
            old(self).wf(),
            old(self)@.num_docs < u32::MAX,
            distinct_coords(document@),
        ensures
            final(self).wf(),
            final(self)@ == old(self)@.insert_doc(document@),
    {
        let ghost start = self@;
        let ghost doc = document@;
        let n = self.num_docs;
        let mut i: usize = 0;
        assert(stores_view(self.inverted_index@) =~= start.insert_doc(doc.take(0)).stores);
        while i < document.len()
            invariant
                i <= doc.len(),
                doc == document@,
                distinct_coords(doc),
                self.num_docs == n,
                n == start.num_docs,
                self.parallel == start.parallel,
                start.well_formed(),
                stores_view(self.inverted_index@) == start.insert_doc(doc.take(i as int)).stores,
                self.coordinates@.no_duplicates(),
                forall|c: u32|
                    self.coordinates@.contains(c) <==> #[trigger] self.inverted_index@.contains_key(
                        c,
                    ),
            decreases doc.len() - i,
        {
            let (c, v) = document[i];
            let ghost pre = doc.take(i as int);
            let ghost post = doc.take(i as int + 1);
            proof {
                assert(post.drop_last() =~= pre);
                assert(!has_coord(pre, c)) by {
                    if has_coord(pre, c) {
                        let k = choose|k: int| 0 <= k < pre.len() && pre[k].0 == c;
                        assert(doc[k].0 != doc[i as int].0);
                    }
                }
                assert(has_coord(post, c)) by {
                    assert(post[i as int].0 == c);
                }
                assert forall|c2: u32| c2 != c implies (has_coord(post, c2) == has_coord(pre, c2)
                    && entry_value(post, c2) == entry_value(pre, c2)) by {
                    if has_coord(post, c2) {
                        let k = choose|k: int| 0 <= k < post.len() && post[k].0 == c2;
                        assert(pre[k].0 == c2);
                    }
                }
            }
            let ghost m0 = self.inverted_index@;
            let ghost coords0 = self.coordinates@;
            let mut store: Vec<Posting> = match self.inverted_index.remove(&c) {
                Some(s) => {
                    proof {
                        assert(m0.contains_key(c) && m0[c] == s);
                        assert(stores_view(m0)[c] == m0[c]@);
                        assert(start.insert_doc(pre).stores[c] == start.stores[c]);
                        assert(s@ == start.store(c));
                    }
                    s
                },
                None => {
                    proof {
                        assert(!stores_view(m0).contains_key(c));
                        assert(!start.insert_doc(pre).stores.contains_key(c));
                    }
                    self.coordinates.push(c);
                    proof {
                        assert(self.coordinates@.last() == c);
                        assert(!coords0.contains(c));
                    }
                    let e: Vec<Posting> = Vec::new();
                    assert(e@ =~= start.store(c));
                    e
                },
            };
            assert(store@ == start.store(c));
            store.push(Posting { docid: n, value: v });
            self.inverted_index.insert(c, store);
            i = i + 1;
            proof {
                let m = stores_view(self.inverted_index@);
                let t = start.insert_doc(post).stores;
                assert forall|c2: u32| m.contains_key(c2) == t.contains_key(c2) by {
                    if c2 != c {
                        assert(stores_view(m0).contains_key(c2) == m0.contains_key(c2));
                    }
                }
                assert forall|c2: u32| m.contains_key(c2) implies m[c2] == t[c2] by {
                    if c2 != c {
                        assert(stores_view(m0)[c2] == m0[c2]@);
                    }
                }
                assert(m =~= t);
                assert forall|c2: u32|
                    self.coordinates@.contains(c2) <==> #[trigger] self.inverted_index@.contains_key(
                        c2,
                    ) by {
                    if c2 == c && m0.contains_key(c) {
                        assert(coords0.contains(c));
                    }
                    if c2 != c && coords0.contains(c2) {
                        let k = choose|k: int| 0 <= k < coords0.len() && coords0[k] == c2;
                        assert(self.coordinates@[k] == c2);
                    }
                    if c2 != c && self.coordinates@.contains(c2) {
                        let k = choose|k: int| 0 <= k < self.coordinates@.len() && self.coordinates@[k] == c2;
                        assert(coords0[k] == c2);
                    }
                }
            }
        }
        self.num_docs = n + 1;
        proof {
            assert(doc.take(doc.len() as int) =~= doc);
            lemma_insert_well_formed(start, doc);
        }
    }
    /// A document's value at `coordinate` is one `i32` weight.
    proof fn lemma_doc_value_bound(&self, d: int, coordinate: u32)
        requires
            self.wf(),
        ensures
            i32::MIN <= self@.doc_value(d, coordinate) <= i32::MAX,
    {
        if self@.stores.contains_key(coordinate) {
            lemma_value_in_sorted(self@.stores[coordinate], d);
        }
    }

    /// Adds `weight` times each document's value at `coordinate` to its
    /// score, in a single pass over the coordinate's posting store.
    pub fn accumulate_serial(&self, coordinate: u32, weight: i32, scores: &mut Vec<i128>)
        requires
            self.wf(),
            old(scores)@.len() == self@.num_docs,
            forall|d: int|
                0 <= d < old(scores)@.len() ==> -room_for_product() <= #[trigger] old(scores)@[d]
                    <= room_for_product(),
        ensures
            final(scores)@.len() == old(scores)@.len(),
            forall|d: int|
                0 <= d < old(scores)@.len() ==> #[trigger] final(scores)@[d] == old(scores)@[d]
                    + weight * self@.doc_value(d, coordinate),
    {
        match self.inverted_index.get(&coordinate) {
            None => {
                proof {
                    assert(!self@.stores.contains_key(coordinate));
                    assert(forall|d: int| self@.doc_value(d, coordinate) == 0);
                }
            },
            Some(postings) => {
                let n = scores.len();
                proof {
                    assert(self@.stores.contains_key(coordinate));
                    assert(self@.stores[coordinate] == postings@);
                }
                score_chunk(postings.as_slice(), weight, 0, n, scores.as_mut_slice());
            },
        }
    }

    /// Adds the same amounts as `accumulate_serial`, for any number of
    /// partitions: the scores are cut into `parts` ranges of
    /// `ceil(num_docs / parts)` documents, and each range takes the postings
    /// that binary search finds for it, all ranges at once on the worker
    /// pool.
    pub fn accumulate_partitioned(
        &self,
        coordinate: u32,
        weight: i32,
        parts: usize,
        scores: &mut Vec<i128>,
    )
        requires
            self.wf(),
            parts > 0,
            old(scores)@.len() == self@.num_docs,
            forall|d: int|
                0 <= d < old(scores)@.len() ==> -room_for_product() <= #[trigger] old(scores)@[d]
                    <= room_for_product(),
        ensures
            final(scores)@.len() == old(scores)@.len(),
            forall|d: int|
                0 <= d < old(scores)@.len() ==> #[trigger] final(scores)@[d] == old(scores)@[d]
                    + weight * self@.doc_value(d, coordinate),
    {
        match self.inverted_index.get(&coordinate) {
            None => {
                proof {
                    assert(!self@.stores.contains_key(coordinate));
                    assert(forall|d: int| self@.doc_value(d, coordinate) == 0);
                }
            },
            Some(postings) => {
                let n = scores.len();
                proof {
                    assert(self@.stores.contains_key(coordinate));
                    assert(self@.stores[coordinate] == postings@);
                }
                if n > 0 {
                    let size: usize = (n - 1) / parts + 1;
                    par_score_chunks(postings.as_slice(), weight, size, scores.as_mut_slice());
                } else {
                    assert(scores@.len() == 0);
                }
            },
        }
    }

    /// Scores one coordinate, in partitions over the worker pool when the
    /// index is parallel, else in a single pass.
    fn accumulate(&self, coordinate: u32, weight: i32, scores: &mut Vec<i128>)
        requires
            self.wf(),
            old(scores)@.len() == self@.num_docs,
            forall|d: int|
                0 <= d < old(scores)@.len() ==> -room_for_product() <= #[trigger] old(scores)@[d]
                    <= room_for_product(),
        ensures
            final(scores)@.len() == old(scores)@.len(),
            forall|d: int|
                0 <= d < old(scores)@.len() ==> #[trigger] final(scores)@[d] == old(scores)@[d]
                    + weight * self@.doc_value(d, coordinate),
    {
        if self.parallel {
            let workers = worker_count();
            let parts: usize = if workers == 0 {
                1
            } else {
                workers
            };
            self.accumulate_partitioned(coordinate, weight, parts, scores);
        } else {
            self.accumulate_serial(coordinate, weight, scores);
        }
    }

    /// A score buffer of `num_docs` zeros.
    fn zero_scores(&self) -> (r: Vec<i128>)
        ensures
            r@.len() == self@.num_docs,
            forall|d: int| 0 <= d < r@.len() ==> #[trigger] r@[d] == 0,
    {
        let n = self.num_docs as usize;
        let mut scores: Vec<i128> = Vec::new();
        let mut d: usize = 0;
        while d < n
            invariant
                d <= n,
                n == self@.num_docs,
                scores@.len() == d,
                forall|j: int| 0 <= j < d ==> #[trigger] scores@[j] == 0,
            decreases n - d,
        {
            scores.push(0);
            d = d + 1;
        }
        scores
    }

    /// Adds to `scores` the contributions of `terms[from..to]`, one
    /// coordinate at a time.
    fn accumulate_terms(
        &self,
        terms: &SparseVector,
        from: usize,
        to: usize,
        scores: &mut Vec<i128>,
    )
        requires
            self.wf(),
            from <= to <= terms@.len(),
            old(scores)@.len() == self@.num_docs,
            forall|d: int|
                0 <= d < old(scores)@.len() ==> #[trigger] old(scores)@[d] == self@.score(
                    d,
                    terms@.take(from as int),
                ),
        ensures
            final(scores)@.len() == old(scores)@.len(),
            forall|d: int|
                0 <= d < old(scores)@.len() ==> #[trigger] final(scores)@[d] == self@.score(
                    d,
                    terms@.take(to as int),
                ),
    {
        let mut i: usize = from;
        while i < to
            invariant
                self.wf(),
                from <= i <= to <= terms@.len(),
                scores@.len() == self@.num_docs,
                forall|d: int|
                    0 <= d < scores@.len() ==> #[trigger] scores@[d] == self@.score(
                        d,
                        terms@.take(i as int),
                    ),
            decreases to - i,
        {
            let (c, w) = terms[i];
            proof {
                assert forall|d: int| 0 <= d < scores@.len() implies -room_for_product()
                    <= #[trigger] scores@[d] <= room_for_product() by {
                    self.lemma_score_bound(d, terms@.take(i as int));
                    lemma_score_room(i as int);
                }
            }
            self.accumulate(c, w, scores);
            proof {
                assert forall|d: int| 0 <= d < scores@.len() implies #[trigger] scores@[d]
                    == self@.score(d, terms@.take(i + 1)) by {
                    assert(terms@.take(i + 1).drop_last() =~= terms@.take(i as int));
                }
            }
            i = i + 1;
        }
    }

    /// Scores the entries of `order` one at a time, for as long as the
    /// budget of `budget` nanoseconds lasts: each entry's scoring time is
    /// taken from what is left, and scoring stops once nothing is left.
    /// Whatever the clock reads, the scores are those of a prefix of
    /// `order`: the empty one when the budget is zero, else one that holds
    /// at least the first entry.
    pub fn score_within_budget(&self, order: &SparseVector, budget: u64) -> (r: (
        Vec<i128>,
        usize,
    ))
        requires
            self.wf(),
        ensures
            r.1 <= order@.len(),
            budget == 0 ==> r.1 == 0,
            budget > 0 && order@.len() > 0 ==> r.1 >= 1,
            r.0@.len() == self@.num_docs,
            forall|d: int|
                0 <= d < r.0@.len() ==> #[trigger] r.0@[d] == self@.score(
                    d,
                    order@.take(r.1 as int),
                ),
    {
        let mut scores = self.zero_scores();
        let mut left: u64 = budget;
        let mut i: usize = 0;
        while i < order.len() && left > 0
            invariant
                self.wf(),
                i <= order@.len(),
                budget == 0 ==> i == 0,
                i == 0 ==> left == budget,
                left <= budget,
                scores@.len() == self@.num_docs,
                forall|d: int|
                    0 <= d < scores@.len() ==> #[trigger] scores@[d] == self@.score(
                        d,
                        order@.take(i as int),
                    ),
            decreases order@.len() - i,
        {
            let started = std::time::Instant::now();
            self.accumulate_terms(order, i, i + 1, &mut scores);
            let cost = started.elapsed().as_nanos();
            left = remaining_after(left, cost);
            i = i + 1;
        }
        (scores, i)
    }

    /// The `top_k` best documents for `query`, best first. With no budget
    /// every entry of the query is scored; with a budget of nanoseconds the
    /// entries are scored in descending order of magnitude until it runs
    /// out. Selecting the top `k` is not charged to the budget.
    pub fn retrieve(&self, query: &SparseVector, top_k: usize, budget: Option<u64>) -> (r: Vec<
        SearchResult,
    >)
        requires
            self.wf(),
        ensures
            retrieved(self@, query@, top_k as nat, budget, r@),
    {
        match budget {
            None => {
                let scores = self.score_query(query);
                assert(as_ints(scores@) =~= self@.scores(query@));
                crate::topk::top_k(&scores, top_k)
            },
            Some(b) => {
                let order = order_by_magnitude(query);
                let (scores, m) = self.score_within_budget(&order, b);
                proof {
                    vstd::seq_lib::to_multiset_len(order@);
                    vstd::seq_lib::to_multiset_len(query@);
                }
                assert(as_ints(scores@) =~= self@.scores(order@.take(m as int)));
                let r = crate::topk::top_k(&scores, top_k);
                assert(budgeted_outcome(self@, query@, top_k as nat, b, order@, m as int, r@));
                r
            },
        }
    }

    /// `retrieve` for each query, the queries spread over the worker pool;
    /// the lists come back in the order of the queries.
    pub fn retrieve_parallel(
        &self,
        queries: &Vec<SparseVector>,
        top_k: usize,
        budget: Option<u64>,
    ) -> (r: Vec<Vec<SearchResult>>)
        requires
            self.wf(),
        ensures
            r@.len() == queries@.len(),
            forall|i: int|
                0 <= i < r@.len() ==> retrieved(
                    self@,
                    queries@[i]@,
                    top_k as nat,
                    budget,
                    (#[trigger] r@[i])@,
                ),
    {
        retrieve_each(self, queries, top_k, budget)
    }

    /// A copy of the posting store of `coordinate`, empty when it has none.
    pub fn postings(&self, coordinate: u32) -> (r: Vec<Posting>)
        ensures
            r@ == self@.store(coordinate),
    {
        match self.inverted_index.get(&coordinate) {
            Some(p) => {
                let mut out: Vec<Posting> = Vec::new();
                let mut j: usize = 0;
                while j < p.len()
                    invariant
                        j <= p@.len(),
                        out@ == p@.take(j as int),
                    decreases p@.len() - j,
                {
                    out.push(p[j]);
                    proof {
                        assert(p@.take(j + 1) =~= p@.take(j as int).push(p@[j as int]));
                    }
                    j = j + 1;
                }
                proof {
                    assert(p@.take(j as int) =~= p@);
                    assert(self@.stores[coordinate] == p@);
                }
                out
            },
            None => {
                let e: Vec<Posting> = Vec::new();
                assert(e@ =~= self@.store(coordinate));
                e
            },
        }
    }

    /// Every posting store is sorted by docid. Insertion appends docids in
    /// increasing order, so the stores are sorted from the start and
    /// nothing is reordered; partitioned scoring relies on this order.
    pub fn finalize(&mut self)
        requires
            old(self).wf(),
        ensures
            final(self).wf(),
            final(self)@ == old(self)@,
            forall|c: u32| #[trigger]
                final(self)@.stores.contains_key(c) ==> strictly_sorted(final(self)@.stores[c]),
    {
    }

    /// The number of postings over all stores.
    pub fn total_postings(&self) -> (r: u128)
        requires
            self.wf(),
        ensures
            r == total_len(self@.stores, self.coordinate_order()),
    {
        let mut total: u128 = 0;
        let mut i: usize = 0;
        while i < self.coordinates.len()
            invariant
                self.wf(),
                i <= self.coordinates@.len(),
                total == total_len(self@.stores, self.coordinates@.take(i as int)),
                total <= i * u32::MAX,
            decreases self.coordinates@.len() - i,
        {
            let c = self.coordinates[i];
            proof {
                assert(self.coordinates@.contains(c));
                assert(self.coordinates@.take(i + 1).drop_last() =~= self.coordinates@.take(
                    i as int,
                ));
            }
            match self.inverted_index.get(&c) {
                Some(postings) => {
                    proof {
                        assert(self@.stores[c] == postings@);
                        lemma_store_len(self@, c);
                    }
                    total = total + postings.len() as u128;
                },
                None => {
                    proof {
                        assert(false);
                    }
                },
            }
            i = i + 1;
        }
        proof {
            assert(self.coordinates@.take(self.coordinates@.len() as int) =~= self.coordinates@);
        }
        total
    }

    /// The pairs that stand for a posting store when it is written out.
    fn pairs_of(postings: &Vec<Posting>) -> (r: Vec<(u32, i32)>)
        ensures
            postings_of(r@) == postings@,
            r.deep_view() == r@,
    {
        let mut pairs: Vec<(u32, i32)> = Vec::new();
        let mut j: usize = 0;
        while j < postings.len()
            invariant
                j <= postings@.len(),
                postings_of(pairs@) == postings@.take(j as int),
            decreases postings@.len() - j,
        {
            let p = postings[j];
            let ghost before = pairs@;
            pairs.push((p.docid, p.value));
            proof {
                assert(postings_of(pairs@) =~= postings_of(before).push(p));
                assert(postings@.take(j + 1) =~= postings@.take(j as int).push(p));
            }
            j = j + 1;
        }
        proof {
            assert(postings@.take(postings@.len() as int) =~= postings@);
            assert(pairs.deep_view() =~= pairs@);
        }
        pairs
    }

    /// The stored form of the index: its documents count and, for each
    /// coordinate in order of first insertion, its postings.
    pub fn to_stored(&self) -> (r: Stored)
        requires
            self.wf(),
        ensures
            consistent(r.0, r.deep_view().1),
            r.0 == self@.num_docs,
            stores_of(r.deep_view().1) == self@.stores,
    {
        let mut entries: Vec<(u32, Vec<(u32, i32)>)> = Vec::new();
        let mut i: usize = 0;
        while i < self.coordinates.len()
            invariant
                self.wf(),
                i <= self.coordinates@.len(),
                entries.deep_view().len() == i,
                forall|k: int|
                    0 <= k < i ==> (#[trigger] entries.deep_view()[k]).0 == self.coordinates@[k]
                        && postings_of(entries.deep_view()[k].1)
                        == self@.stores[self.coordinates@[k]],
                stores_of(entries.deep_view()) == Map::new(
                    |c: u32| self.coordinates@.take(i as int).contains(c),
                    |c: u32| self@.stores[c],
                ),
            decreases self.coordinates@.len() - i,
        {
            let c = self.coordinates[i];
            proof {
                assert(self.coordinates@.contains(c));
            }
            match self.inverted_index.get(&c) {
                Some(postings) => {
                    proof {
                        assert(self@.stores[c] == postings@);
                    }
                    let pairs = Self::pairs_of(postings);
                    let ghost before = entries.deep_view();
                    entries.push((c, pairs));
                    proof {
                        let now = entries.deep_view();
                        assert(now =~= before.push((c, pairs@)));
                        assert(now.drop_last() =~= before);
                        assert(now.last() == (c, pairs@));
                        assert(stores_of(now) == stores_of(before).insert(c, postings@));
                        let t0 = self.coordinates@.take(i as int);
                        let t1 = self.coordinates@.take(i + 1);
                        assert forall|c2: u32| t1.contains(c2) == (t0.contains(c2) || c2 == c) by {
                            if t1.contains(c2) {
                                let k = choose|k: int| 0 <= k < t1.len() && t1[k] == c2;
                                if k < i {
                                    assert(t0[k] == c2);
                                }
                            }
                            if t0.contains(c2) {
                                let k = choose|k: int| 0 <= k < t0.len() && t0[k] == c2;
                                assert(t1[k] == c2);
                            }
                            if c2 == c {
                                assert(t1[i as int] == c);
                            }
                        }
                        assert(stores_of(now) =~= Map::new(
                            |c2: u32| self.coordinates@.take(i + 1).contains(c2),
                            |c2: u32| self@.stores[c2],
                        ));
                    }
                },
                None => {
                    proof {
                        assert(false);
                    }
                },
            }
            i = i + 1;
        }
        let r = (self.num_docs, entries);
        proof {
            let ev = r.deep_view().1;
            assert(self.coordinates@.take(i as int) =~= self.coordinates@);
            assert(stores_of(ev) =~= self@.stores);
            assert forall|a: int, b: int| 0 <= a < b < ev.len() implies ev[a].0 != ev[b].0 by {
                assert(ev[a].0 == self.coordinates@[a]);
                assert(ev[b].0 == self.coordinates@[b]);
            }
            assert forall|k: int| 0 <= k < ev.len() implies consistent_store(
                self.num_docs,
                (#[trigger] ev[k]).1,
            ) by {
                let c = self.coordinates@[k];
                assert(self.coordinates@.contains(c));
                let st = self@.stores[c];
                assert(self@.stores.contains_key(c));
                assert(postings_of(ev[k].1) == st);
                assert forall|j: int| 0 <= j < ev[k].1.len() implies (#[trigger] ev[k].1[j]).0
                    < self.num_docs by {
                    assert(st[j].docid == ev[k].1[j].0);
                }
            }
        }
        r
    }

    /// The index that a stored form holds, when it meets the invariants.
    pub fn from_stored(stored: &Stored, parallel: bool) -> (r: Result<Index, DeserializationError>)
        ensures
            match r {
                Ok(index) => {
                    &&& consistent(stored.0, stored.deep_view().1)
                    &&& index.wf()
                    &&& index@.num_docs == stored.0
                    &&& index@.stores == stores_of(stored.deep_view().1)
                    &&& index@.parallel == parallel
                },
                Err(e) => !consistent(stored.0, stored.deep_view().1) && e == DeserializationError::Inconsistent,
            },
    {
        let ghost sv = stored.deep_view();
        let ghost ev = sv.1;
        let n = stored.0;
        let entries = &stored.1;
        let mut map: HashMap<u32, Vec<Posting>> = HashMap::new();
        let mut coords: Vec<u32> = Vec::new();
        let mut i: usize = 0;
        proof {
            assert(stores_view(map@) =~= stores_of(ev.take(0)));
        }
        while i < entries.len()
            invariant
                sv == stored.deep_view(),
                ev == sv.1,
                n == sv.0,
                entries == stored.1,
                i <= ev.len() == entries@.len(),
                consistent(n, ev.take(i as int)),
                stores_view(map@) == stores_of(ev.take(i as int)),
                (IndexView { num_docs: n as nat, stores: stores_view(map@), parallel }).well_formed(),
                coords@ == ev.take(i as int).map_values(|e: (u32, Seq<(u32, i32)>)| e.0),
                forall|c: u32| coords@.contains(c) <==> #[trigger] map@.contains_key(c),
            decreases ev.len() - i,
        {
            let c = entries[i].0;
            proof {
                assert(ev[i as int].0 == c);
                assert(ev[i as int].1 == entries@[i as int].1.deep_view());
                assert(entries@[i as int].1.deep_view() =~= entries@[i as int].1@);
            }
            if map.contains_key(&c) {
                proof {
                    assert(coords@.contains(c));
                    let k = choose|k: int| 0 <= k < coords@.len() && coords@[k] == c;
                    assert(ev[k].0 == c);
                }
                return Err(DeserializationError::Inconsistent);
            }
            match Self::postings_from_pairs(&entries[i].1, n) {
                None => {
                    return Err(DeserializationError::Inconsistent);
                },
                Some(postings) => {
                    let ghost m0 = map@;
                    let ghost c0 = coords@;
                    let ghost w0 = IndexView { num_docs: n as nat, stores: stores_view(m0), parallel };
                    proof {
                        assert(w0.well_formed());
                        assert forall|a: int| 0 <= a < i implies ev[a].0 != c by {
                            assert(c0[a] == ev[a].0);
                            assert(c0.contains(c0[a]));
                        }
                    }
                    map.insert(c, postings);
                    coords.push(c);
                    proof {
                        let t = ev.take(i + 1);
                        assert(t.drop_last() =~= ev.take(i as int));
                        assert(stores_view(map@) =~= stores_of(t));
                        assert(coords@ =~= t.map_values(|e: (u32, Seq<(u32, i32)>)| e.0));
                        let pre = ev.take(i as int);
                        assert forall|a: int, b: int| 0 <= a < b < t.len() implies t[a].0
                            != t[b].0 by {
                            assert(t[a] == ev[a]);
                            assert(t[b] == ev[b]);
                            if b < i {
                                assert(pre[a] == ev[a] && pre[b] == ev[b]);
                            }
                        }
                        assert forall|k: int| 0 <= k < t.len() implies consistent_store(
                            n,
                            (#[trigger] t[k]).1,
                        ) by {
                            if k < i {
                                assert(pre[k] == t[k]);
                                assert(consistent_store(n, pre[k].1));
                            } else {
                                assert(t[k] == ev[i as int]);
                            }
                        }
                        assert forall|c2: u32| coords@.contains(c2) <==> #[trigger] map@.contains_key(
                            c2,
                        ) by {
                            if c2 != c && c0.contains(c2) {
                                let k = choose|k: int| 0 <= k < c0.len() && c0[k] == c2;
                                assert(coords@[k] == c2);
                            }
                            if c2 != c && coords@.contains(c2) {
                                let k = choose|k: int| 0 <= k < coords@.len() && coords@[k] == c2;
                                assert(c0[k] == c2);
                            }
                            if c2 == c {
                                assert(coords@[coords@.len() - 1] == c);
                            }
                        }
                        let w = IndexView { num_docs: n as nat, stores: stores_view(map@), parallel };
                        assert forall|c2: u32| #[trigger] w.stores.contains_key(c2) implies {
                            &&& w.stores[c2].len() > 0
                            &&& strictly_sorted(w.stores[c2])
                            &&& forall|j: int|
                                0 <= j < w.stores[c2].len() ==> (#[trigger] w.stores[c2][j].docid)
                                    < w.num_docs
                        } by {
                            if c2 == c {
                                let pv = postings_of(entries@[i as int].1@);
                                assert(map@[c] == postings);
                                assert(w.stores[c2] == pv);
                                assert(consistent_store(n, entries@[i as int].1@));
                                assert forall|j: int| 0 <= j < pv.len() implies (#[trigger] pv[j].docid)
                                    < n by {
                                    assert(entries@[i as int].1@[j].0 == pv[j].docid);
                                }
                            } else {
                                assert(w0.stores.contains_key(c2));
                                assert(w.stores[c2] == w0.stores[c2]);
                            }
                        }
                    }
                },
            }
            i = i + 1;
        }
        proof {
            assert(ev.take(i as int) =~= ev);
            assert(coords@.no_duplicates()) by {
                assert forall|a: int, b: int| 0 <= a < b < coords@.len() implies coords@[a]
                    != coords@[b] by {
                    assert(coords@[a] == ev[a].0 && coords@[b] == ev[b].0);
                }
            }
        }
        Ok(Index { inverted_index: map, coordinates: coords, num_docs: n, parallel })
    }

    /// The postings that stored pairs stand for, or `None` when they could
    /// not be a store of an index of `num_docs` documents.
    fn postings_from_pairs(pairs: &Vec<(u32, i32)>, num_docs: u32) -> (r: Option<Vec<Posting>>)
        ensures
            match r {
                Some(p) => consistent_store(num_docs, pairs@) && p@ == postings_of(pairs@),
                None => !consistent_store(num_docs, pairs@),
            },
    {
        if pairs.len() == 0 {
            return None;
        }
        let mut out: Vec<Posting> = Vec::new();
        let mut j: usize = 0;
        while j < pairs.len()
            invariant
                j <= pairs@.len(),
                out@ == postings_of(pairs@.take(j as int)),
                strictly_sorted(out@),
                forall|k: int| 0 <= k < j ==> (#[trigger] pairs@[k]).0 < num_docs,
            decreases pairs@.len() - j,
        {
            let (d, v) = pairs[j];
            if d >= num_docs {
                return None;
            }
            if j > 0 && pairs[j - 1].0 >= d {
                proof {
                    let ps = postings_of(pairs@);
                    assert(ps[j - 1].docid == pairs@[j - 1].0);
                    assert(ps[j as int].docid == d);
                }
                return None;
            }
            let ghost before = out@;
            out.push(Posting { docid: d, value: v });
            proof {
                assert(pairs@.take(j + 1) =~= pairs@.take(j as int).push((d, v)));
                assert(out@ =~= postings_of(pairs@.take(j + 1)));
                if j > 0 {
                    assert(before[j - 1].docid == pairs@[j - 1].0);
                }
                assert forall|a: int, b: int| 0 <= a < b < out@.len() implies out@[a].docid
                    < out@[b].docid by {
                    if b == j && a < j - 1 {
                        assert(before[a].docid < before[j - 1].docid);
                    }
                }
            }
            j = j + 1;
        }
        proof {
            assert(pairs@.take(j as int) =~= pairs@);
        }
        Some(out)
    }

    /// The index written out as bytes through bincode.
    pub fn save(&self) -> (r: Vec<u8>)
        requires
            self.wf(),
        ensures
            saved_as(self@, r@),
    {
        let stored = self.to_stored();
        match encode(&stored) {
            Ok(bytes) => {
                assert(bincode_of(stored.deep_view()) == bytes@);
                bytes
            },
            Err(_) => {
                proof {
                    assert(false);
                }
                Vec::new()
            },
        }
    }

    /// The index that `bytes` hold, scoring in partitions when `parallel`.
    /// Bytes that do not begin with the encoding of a stored index are
    /// `Malformed`; bytes that begin with the encoding of one that breaks
    /// the invariants are `Inconsistent`. Trailing bytes are ignored.
    pub fn load(bytes: &[u8], parallel: bool) -> (r: Result<Index, DeserializationError>)
        ensures
            r matches Ok(index) ==> index.wf() && index@.parallel == parallel && loaded_as(
                bytes@,
                index@,
            ),
            r == Err::<Index, DeserializationError>(DeserializationError::Malformed) <==> forall|
                s: (u32, Seq<(u32, Seq<(u32, i32)>)>),
            | !#[trigger] encodes_prefix(bytes@, s),
            forall|s: (u32, Seq<(u32, Seq<(u32, i32)>)>)|
                #[trigger] encodes_prefix(bytes@, s) ==> (r is Ok <==> consistent(s.0, s.1)) && (
                !consistent(s.0, s.1) ==> r == Err::<Index, DeserializationError>(
                    DeserializationError::Inconsistent,
                )),
    {
        match decode(bytes) {
            Ok(stored) => {
                let r = Self::from_stored(&stored, parallel);
                proof {
                    let w = stored.deep_view();
                    assert(encodes_prefix(bytes@, w));
                    assert(w.0 == stored.0);
                }
                r
            },
            Err(_) => Err(DeserializationError::Malformed),
        }
    }

    /// Every score is at most one product per query term in magnitude.
    proof fn lemma_score_bound(&self, d: int, q: Seq<(u32, i32)>)
        requires
            self.wf(),
        ensures
            -(q.len() * product_bound()) <= self@.score(d, q) <= q.len() * product_bound(),
        decreases q.len(),
    {
        if q.len() > 0 {
            self.lemma_score_bound(d, q.drop_last());
            self.lemma_doc_value_bound(d, q.last().0);
            lemma_product_bound(q.last().1 as int, self@.doc_value(d, q.last().0));
        }
    }

    /// The exact score of every document for `query`, by docid.
    pub fn score_query(&self, query: &SparseVector) -> (r: Vec<i128>)
        requires
            self.wf(),
        ensures
            r@.len() == self@.num_docs,
            forall|d: int| 0 <= d < r@.len() ==> #[trigger] r@[d] == self@.score(d, query@),
    {
        let mut scores = self.zero_scores();
        self.accumulate_terms(query, 0, query.len(), &mut scores);
        proof {
            assert(query@.take(query@.len() as int) =~= query@);
        }
        scores
    }
}

/// A score that sums fewer than 2^64 products leaves room for one more.
proof fn lemma_score_room(i: int)
    requires
        0 <= i <= usize::MAX,
    ensures
        i * product_bound() <= room_for_product(),
{
    assert(i * 0x4000_0000_0000_0000 <= 0xffff_ffff_ffff_ffff * 0x4000_0000_0000_0000)
        by (nonlinear_arith)
        requires
            0 <= i <= 0xffff_ffff_ffff_ffff,
    ;
}


/// A store holds each document at most once.
proof fn lemma_store_len(v: IndexView, c: u32)
    requires
        v.well_formed(),
        v.stores.contains_key(c),
    ensures
        v.stores[c].len() <= u32::MAX,
{
    let s = v.stores[c];
    let f = |p: Posting| p.docid as int;
    let ids = s.map_values(f);
    assert forall|i: int| 0 <= i < ids.len() implies 0 <= #[trigger] ids[i] < v.num_docs by {
        assert(s[i].docid < v.num_docs);
    }
    lemma_increasing_len(ids, v.num_docs as int);
}

/// Strictly increasing values in `[0, bound)` are at most `bound` many.
proof fn lemma_increasing_len(ids: Seq<int>, bound: int)
    requires
        0 <= bound,
        forall|i: int, j: int| 0 <= i < j < ids.len() ==> ids[i] < ids[j],
        forall|i: int| 0 <= i < ids.len() ==> 0 <= #[trigger] ids[i] < bound,
    ensures
        ids.len() <= bound,
    decreases ids.len(),
{
    if ids.len() > 0 {
        let t = ids.drop_last();
        assert(ids[ids.len() - 1] < bound);
        assert forall|i: int| 0 <= i < t.len() implies 0 <= #[trigger] t[i] < ids.last() by {
            assert(ids[i] < ids[ids.len() - 1]);
        }
        lemma_increasing_len(t, ids.last());
        assert(t.len() <= ids.last());
        assert(ids.len() == t.len() + 1);
    }
}

} // verus!
