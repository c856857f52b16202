//! The abstract view of an index: its documents' posting stores, the
//! scores they give, and what retrieval and persistence promise of them.
use vstd::prelude::*;
use crate::budget::is_budget_order;
use crate::persist::{bincode_of, consistent, encodes_prefix, stores_of};
use crate::posting::{Posting, strictly_sorted, value_in};
use crate::topk::{SearchResult, is_top_k};

verus! {

/// A sparse vector as (coordinate, weight) entries.
pub type SparseVector = Vec<(u32, i32)>;

/// No coordinate occurs twice among the entries.
pub open spec fn distinct_coords(v: Seq<(u32, i32)>) -> bool {
    forall|i: int, j: int| 0 <= i < j < v.len() ==> v[i].0 != v[j].0
}

/// The entries name coordinate `c`.
pub open spec fn has_coord(v: Seq<(u32, i32)>, c: u32) -> bool {
    exists|i: int| 0 <= i < v.len() && v[i].0 == c
}

/// The weight that the entries give coordinate `c` (0 when absent).
pub open spec fn entry_value(v: Seq<(u32, i32)>, c: u32) -> i32
    decreases v.len(),
{
    if v.len() == 0 {
        0
    } else if v.last().0 == c {
        v.last().1
    } else {
        entry_value(v.drop_last(), c)
    }
}

/// What an index holds: its document count, its posting stores and whether
/// it scores each coordinate in partitions.
pub struct IndexView {
    pub num_docs: nat,
    pub stores: Map<u32, Seq<Posting>>,
    pub parallel: bool,
}

impl IndexView {
    /// The posting store of coordinate `c`, empty when the index has none.
    pub open spec fn store(self, c: u32) -> Seq<Posting> {
        if self.stores.contains_key(c) {
            self.stores[c]
        } else {
            Seq::empty()
        }
    }

    /// The weight of document `d` at coordinate `c`.
    pub open spec fn doc_value(self, d: int, c: u32) -> int {
        value_in(self.store(c), d)
    }

    /// Every store is non-empty, strictly ascending by docid, and names only
    /// documents that were inserted.
    pub open spec fn well_formed(self) -> bool {
        &&& self.num_docs <= u32::MAX
        &&& forall|c: u32| #[trigger]
            self.stores.contains_key(c) ==> {
                &&& self.stores[c].len() > 0
                &&& strictly_sorted(self.stores[c])
                &&& forall|i: int|
                    0 <= i < self.stores[c].len() ==> (#[trigger] self.stores[c][i].docid)
                        < self.num_docs
            }
    }

    /// The index after inserting `doc` as document `num_docs`.
    pub open spec fn insert_doc(self, doc: Seq<(u32, i32)>) -> IndexView {
        IndexView {
            num_docs: self.num_docs + 1,
            stores: Map::new(
                |c: u32| self.stores.contains_key(c) || has_coord(doc, c),
                |c: u32|
                    if has_coord(doc, c) {
                        self.store(c).push(
                            Posting { docid: self.num_docs as u32, value: entry_value(doc, c) },
                        )
                    } else {
                        self.stores[c]
                    },
            ),
            parallel: self.parallel,
        }
    }

    /// The exact inner product of document `d` with the query `q`: the sum
    /// over its entries of weight times the document's value.
    pub open spec fn score(self, d: int, q: Seq<(u32, i32)>) -> int
        decreases q.len(),
    {
        if q.len() == 0 {
            0
        } else {
            self.score(d, q.drop_last()) + q.last().1 * self.doc_value(d, q.last().0)
        }
    }

    /// The score of every document for the query `q`, by docid.
    pub open spec fn scores(self, q: Seq<(u32, i32)>) -> Seq<int> {
        Seq::new(self.num_docs, |d: int| self.score(d, q))
    }
}

/// What a retrieval with at most `budget` nanoseconds of scoring may
/// return: with no budget, the top `k` of the exact scores; with a budget,
/// the top `k` of the scores that some prefix of the query's entries in
/// descending order of magnitude gives, the empty prefix when the budget
/// is zero.
pub open spec fn retrieved(
    v: IndexView,
    q: Seq<(u32, i32)>,
    k: nat,
    budget: Option<u64>,
    r: Seq<SearchResult>,
) -> bool {
    match budget {
        None => is_top_k(v.scores(q), k, r),
        Some(b) => exists|order: Seq<(u32, i32)>, m: int| #[trigger]
            budgeted_outcome(v, q, k, b, order, m, r),
    }
}

/// `r` is the top `k` after scoring the first `m` entries of `order`, a
/// budget order of `q`, within the budget `b`: none when the budget is
/// zero, at least one when it is not.
pub open spec fn budgeted_outcome(
    v: IndexView,
    q: Seq<(u32, i32)>,
    k: nat,
    b: u64,
    order: Seq<(u32, i32)>,
    m: int,
    r: Seq<SearchResult>,
) -> bool {
    &&& is_budget_order(order, q)
    &&& 0 <= m <= order.len()
    &&& b == 0 ==> m == 0
    &&& b > 0 && q.len() > 0 ==> m >= 1
    &&& is_top_k(v.scores(order.take(m)), k, r)
}

/// `bytes` are the encoding of a stored index that holds the documents and
/// posting stores of `v`.
pub open spec fn saved_as(v: IndexView, bytes: Seq<u8>) -> bool {
    exists|s: (u32, Seq<(u32, Seq<(u32, i32)>)>)|
        #[trigger] bincode_of(s) == bytes && consistent(s.0, s.1) && s.0 == v.num_docs && stores_of(s.1)
            == v.stores
}

/// `bytes` begin with the encoding of a stored index, and `v` holds the
/// documents and posting stores of every stored index whose encoding
/// begins them.
pub open spec fn loaded_as(bytes: Seq<u8>, v: IndexView) -> bool {
    &&& exists|s: (u32, Seq<(u32, Seq<(u32, i32)>)>)| #[trigger] encodes_prefix(bytes, s)
    &&& forall|s: (u32, Seq<(u32, Seq<(u32, i32)>)>)|
        #[trigger] encodes_prefix(bytes, s) ==> consistent(s.0, s.1) && s.0 == v.num_docs
            && stores_of(s.1) == v.stores
}

/// The total length of the stores of the coordinates `cs`.
pub open spec fn total_len(stores: Map<u32, Seq<Posting>>, cs: Seq<u32>) -> int
    decreases cs.len(),
{
    if cs.len() == 0 {
        0
    } else {
        total_len(stores, cs.drop_last()) + stores[cs.last()].len()
    }
}

pub proof fn lemma_insert_well_formed(v: IndexView, doc: Seq<(u32, i32)>)
    requires
        v.well_formed(),
        v.num_docs < u32::MAX,
    ensures
        v.insert_doc(doc).well_formed(),
{
    let w = v.insert_doc(doc);
    assert forall|c: u32| #[trigger] w.stores.contains_key(c) implies {
        &&& w.stores[c].len() > 0
        &&& strictly_sorted(w.stores[c])
        &&& forall|i: int|
            0 <= i < w.stores[c].len() ==> (#[trigger] w.stores[c][i].docid) < w.num_docs
    } by {
        if has_coord(doc, c) {
            let s = v.store(c);
            assert(forall|i: int| 0 <= i < s.len() ==> (#[trigger] s[i].docid) < v.num_docs);
        }
    }
}

} // verus!
