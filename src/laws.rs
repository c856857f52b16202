//! Properties that relate the operations of the index to each other.
use vstd::prelude::*;
use crate::model::{
    IndexView, entry_value, has_coord, lemma_insert_well_formed, loaded_as, retrieved, saved_as,
};
use crate::posting::{lemma_value_in_absent, value_in};
use crate::topk::{SearchResult, is_top_k, listed};

verus! {

/// The index that inserting `docs` in order into an empty index builds.
pub open spec fn built(docs: Seq<Seq<(u32, i32)>>, parallel: bool) -> IndexView
    decreases docs.len(),
{
    if docs.len() == 0 {
        IndexView { num_docs: 0, stores: Map::empty(), parallel }
    } else {
        built(docs.drop_last(), parallel).insert_doc(docs.last())
    }
}

/// The exact inner product of a document and a query: the sum over the
/// query's entries of weight times the document's weight there.
pub open spec fn inner_product(doc: Seq<(u32, i32)>, q: Seq<(u32, i32)>) -> int
    decreases q.len(),
{
    if q.len() == 0 {
        0
    } else {
        inner_product(doc, q.drop_last()) + q.last().1 * entry_value(doc, q.last().0)
    }
}

proof fn lemma_entry_value_absent(doc: Seq<(u32, i32)>, c: u32)
    requires
        !has_coord(doc, c),
    ensures
        entry_value(doc, c) == 0,
    decreases doc.len(),
{
    if doc.len() > 0 {
        assert(doc[doc.len() - 1].0 != c);
        assert(!has_coord(doc.drop_last(), c)) by {
            if has_coord(doc.drop_last(), c) {
                let k = choose|k: int|
                    0 <= k < doc.drop_last().len() && doc.drop_last()[k].0 == c;
                assert(doc[k].0 == c);
            }
        }
        lemma_entry_value_absent(doc.drop_last(), c);
    }
}

/// Documents inserted in order get the docids 0, 1, ... in that order: the
/// index built from `docs` counts them all, is well formed, and holds
/// document `d` under docid `d` at every coordinate.
pub proof fn law_docids_follow_insertion_order(
    docs: Seq<Seq<(u32, i32)>>,
    parallel: bool,
    d: int,
    c: u32,
)
    requires
        docs.len() <= u32::MAX,
        0 <= d < docs.len(),
    ensures
        built(docs, parallel).num_docs == docs.len(),
        built(docs, parallel).well_formed(),
        built(docs, parallel).doc_value(d, c) == entry_value(docs[d], c),
    decreases docs.len(),
{
    lemma_built_well_formed(docs, parallel);
    let rest = docs.drop_last();
    let v = built(rest, parallel);
    let doc = docs.last();
    let n = rest.len() as int;
    lemma_built_well_formed(rest, parallel);
    let w = v.insert_doc(doc);
    assert forall|i: int| 0 <= i < v.store(c).len() implies (#[trigger] v.store(c)[i]).docid
        != n by {
        assert(v.stores.contains_key(c));
        assert(v.stores[c][i].docid < v.num_docs);
    }
    if d < n {
        law_docids_follow_insertion_order(rest, parallel, d, c);
        assert(rest[d] == docs[d]);
    } else {
        lemma_value_in_absent(v.store(c), d);
        if !has_coord(doc, c) {
            lemma_entry_value_absent(doc, c);
        }
    }
    if has_coord(doc, c) {
        let s = v.store(c);
        let p = w.store(c);
        assert(p == s.push(
            crate::posting::Posting { docid: n as u32, value: entry_value(doc, c) },
        ));
        assert(p.drop_last() =~= s);
        assert(value_in(p, d) == value_in(s, d) + if d == n {
            entry_value(doc, c) as int
        } else {
            0
        });
    } else {
        assert(w.store(c) == v.store(c));
    }
}

proof fn lemma_built_well_formed(docs: Seq<Seq<(u32, i32)>>, parallel: bool)
    requires
        docs.len() <= u32::MAX,
    ensures
        built(docs, parallel).num_docs == docs.len(),
        built(docs, parallel).well_formed(),
    decreases docs.len(),
{
    if docs.len() > 0 {
        lemma_built_well_formed(docs.drop_last(), parallel);
        lemma_insert_well_formed(built(docs.drop_last(), parallel), docs.last());
    }
}

/// The score of a document is the exact inner product of the query with
/// the document that was inserted under its docid.
pub proof fn law_score_is_inner_product(
    docs: Seq<Seq<(u32, i32)>>,
    parallel: bool,
    d: int,
    q: Seq<(u32, i32)>,
)
    requires
        docs.len() <= u32::MAX,
        0 <= d < docs.len(),
    ensures
        built(docs, parallel).score(d, q) == inner_product(docs[d], q),
    decreases q.len(),
{
    if q.len() > 0 {
        law_score_is_inner_product(docs, parallel, d, q.drop_last());
        law_docids_follow_insertion_order(docs, parallel, d, q.last().0);
    }
}

/// With a budget of zero nothing is scored: the result ranks documents
/// whose scores are all zero.
pub proof fn law_zero_budget_scores_nothing(
    v: IndexView,
    q: Seq<(u32, i32)>,
    k: nat,
    r: Seq<SearchResult>,
)
    requires
        retrieved(v, q, k, Some(0u64), r),
    ensures
        is_top_k(Seq::new(v.num_docs, |d: int| 0), k, r),
{
    let (order, m) = choose|order: Seq<(u32, i32)>, m: int|
        #[trigger] crate::model::budgeted_outcome(v, q, k, 0u64, order, m, r);
    assert(m == 0);
    assert(v.scores(order.take(0)) =~= Seq::new(v.num_docs, |d: int| 0));
}

/// The bytes that `save` wrote always load (they begin with the encoding
/// of a consistent stored index, on which `load` returns `Ok`), and what
/// loads has the same document count and the same posting store for every
/// coordinate.
pub proof fn law_persistence_round_trip(original: IndexView, bytes: Seq<u8>, loaded: IndexView)
    requires
        saved_as(original, bytes),
    ensures
        exists|s: (u32, Seq<(u32, Seq<(u32, i32)>)>)|
            #[trigger] crate::persist::encodes_prefix(bytes, s) && crate::persist::consistent(
                s.0,
                s.1,
            ),
        loaded_as(bytes, loaded) ==> loaded.num_docs == original.num_docs && loaded.stores
            == original.stores,
{
    let s = choose|s: (u32, Seq<(u32, Seq<(u32, i32)>)>)|
        #[trigger] crate::persist::bincode_of(s) == bytes && crate::persist::consistent(s.0, s.1)
            && s.0 == original.num_docs && crate::persist::stores_of(s.1) == original.stores;
    assert(bytes.take(bytes.len() as int) =~= bytes);
    assert(crate::persist::encodes_prefix(bytes, s));
}

/// `a` ranks before `b`: a higher score, or an equal score and a lower docid.
pub open spec fn ranks_before(a: SearchResult, b: SearchResult) -> bool {
    a.score > b.score || (a.score == b.score && a.docid < b.docid)
}

proof fn lemma_top_k_prefix_equal(scores: Seq<int>, k: nat, r1: Seq<SearchResult>, r2: Seq<
    SearchResult,
>, i: int)
    requires
        is_top_k(scores, k, r1),
        is_top_k(scores, k, r2),
        0 <= i <= r1.len(),
    ensures
        forall|j: int| 0 <= j < i ==> r1[j] == r2[j],
    decreases i,
{
    if i > 0 {
        let t = i - 1;
        lemma_top_k_prefix_equal(scores, k, r1, r2, t);
        let a = r1[t];
        let b = r2[t];
        if a.docid != b.docid {
            // b ranks before a
            if listed(r2, a.docid as int) {
                let j = choose|j: int| 0 <= j < r2.len() && r2[j].docid == a.docid;
                if j < t {
                    assert(r1[j] == r2[j]);
                    assert(r1[j].docid != r1[t].docid);
                }
                assert(j > t);
                assert(ranks_before(b, r2[j]));
            } else {
                assert(scores[a.docid as int] <= r2[t].score);
                assert(ranks_before(b, a));
            }
            if listed(r1, b.docid as int) {
                let j = choose|j: int| 0 <= j < r1.len() && r1[j].docid == b.docid;
                if j < t {
                    assert(r1[j] == r2[j]);
                    assert(r2[j].docid != r2[t].docid);
                }
                assert(j > t);
                assert(ranks_before(a, r1[j]));
            } else {
                assert(scores[b.docid as int] <= r1[t].score);
                assert(ranks_before(a, b));
            }
        }
        assert(a == b);
    }
}

/// A top-`k` list of given scores is unique: ties are broken by docid, so
/// there is one answer.
pub proof fn law_top_k_is_unique(scores: Seq<int>, k: nat, r1: Seq<SearchResult>, r2: Seq<
    SearchResult,
>)
    requires
        is_top_k(scores, k, r1),
        is_top_k(scores, k, r2),
    ensures
        r1 == r2,
{
    lemma_top_k_prefix_equal(scores, k, r1, r2, r1.len() as int);
    assert(r1 =~= r2);
}

proof fn lemma_same_stores_same_scores(v1: IndexView, v2: IndexView, d: int, q: Seq<(u32, i32)>)
    requires
        v1.stores == v2.stores,
    ensures
        v1.score(d, q) == v2.score(d, q),
    decreases q.len(),
{
    if q.len() > 0 {
        lemma_same_stores_same_scores(v1, v2, d, q.drop_last());
    }
}

/// Without a budget, retrieval is determined by the documents and the
/// query: two indexes with the same document count and posting stores
/// (one scoring in partitions, say, or one loaded from the other's bytes)
/// return the same list, and so does each entry of a batch.
pub proof fn law_unbudgeted_retrieval_is_determined(
    v1: IndexView,
    v2: IndexView,
    q: Seq<(u32, i32)>,
    k: nat,
    r1: Seq<SearchResult>,
    r2: Seq<SearchResult>,
)
    requires
        v1.num_docs == v2.num_docs,
        v1.stores == v2.stores,
        retrieved(v1, q, k, None, r1),
        retrieved(v2, q, k, None, r2),
    ensures
        r1 == r2,
{
    assert forall|d: int| 0 <= d < v1.num_docs implies v1.scores(q)[d] == v2.scores(q)[d] by {
        lemma_same_stores_same_scores(v1, v2, d, q);
    }
    assert(v1.scores(q) =~= v2.scores(q));
    law_top_k_is_unique(v1.scores(q), k, r1, r2);
}

} // verus!
