//! Posting stores: the per-coordinate lists of the inverted index, and the
//! accumulation of one query weight over a store.
use vstd::prelude::*;

verus! {

/// Bound on the magnitude of one product of two `i32` weights.
pub open spec fn product_bound() -> int {
    0x4000_0000_0000_0000
}

/// Score magnitude that still leaves room for one more product.
pub open spec fn room_for_product() -> int {
    i128::MAX - product_bound()
}

/// One entry of a posting store: document `docid` has weight `value` at the
/// store's coordinate.
#[derive(Clone, Copy, Debug, PartialEq, Eq)]
pub struct Posting {
    pub docid: u32,
    pub value: i32,
}

/// Postings strictly ascending by docid, so each document occurs at most once.
pub open spec fn strictly_sorted(s: Seq<Posting>) -> bool {
    forall|i: int, j: int| 0 <= i < j < s.len() ==> s[i].docid < s[j].docid
}

/// The weight that the postings `s` record for document `d` (0 when absent).
pub open spec fn value_in(s: Seq<Posting>, d: int) -> int
    decreases s.len(),
{
    if s.len() == 0 {
        0
    } else {
        value_in(s.drop_last(), d) + if s.last().docid == d {
            s.last().value as int
        } else {
            0
        }
    }
}

pub proof fn lemma_value_in_absent(s: Seq<Posting>, d: int)
    requires
        forall|i: int| 0 <= i < s.len() ==> s[i].docid != d,
    ensures
        value_in(s, d) == 0,
    decreases s.len(),
{
    if s.len() > 0 {
        lemma_value_in_absent(s.drop_last(), d);
    }
}

/// Postings at or after `k` that do not name `d` leave its value unchanged.
pub proof fn lemma_value_in_prefix(s: Seq<Posting>, k: int, d: int)
    requires
        0 <= k <= s.len(),
        forall|i: int| k <= i < s.len() ==> s[i].docid != d,
    ensures
        value_in(s, d) == value_in(s.take(k), d),
    decreases s.len(),
{
    if s.len() == k {
        assert(s.take(k) =~= s);
    } else {
        lemma_value_in_prefix(s.drop_last(), k, d);
        assert(s.drop_last().take(k) =~= s.take(k));
    }
}

/// In a strictly sorted store the value of a document is one weight.
pub proof fn lemma_value_in_sorted(s: Seq<Posting>, d: int)
    requires
        strictly_sorted(s),
    ensures
        i32::MIN <= value_in(s, d) <= i32::MAX,
    decreases s.len(),
{
    if s.len() > 0 {
        let t = s.drop_last();
        if s.last().docid == d {
            assert forall|i: int| 0 <= i < t.len() implies t[i].docid != d by {
                assert(s[i].docid < s[s.len() - 1].docid);
            }
            lemma_value_in_absent(t, d);
        } else {
            lemma_value_in_sorted(t, d);
        }
    }
}

pub proof fn lemma_value_in_step(s: Seq<Posting>, k: int, d: int)
    requires
        0 <= k < s.len(),
    ensures
        value_in(s.take(k + 1), d) == value_in(s.take(k), d) + if s[k].docid == d {
            s[k].value as int
        } else {
            0
        },
{
    assert(s.take(k + 1).drop_last() =~= s.take(k));
}

pub proof fn lemma_product_bound(w: int, v: int)
    requires
        i32::MIN <= w <= i32::MAX,
        i32::MIN <= v <= i32::MAX,
    ensures
        -product_bound() <= w * v <= product_bound(),
{
    assert(-0x8000_0000 <= w <= 0x8000_0000);
    assert(-0x8000_0000 <= v <= 0x8000_0000);
    assert(-0x4000_0000_0000_0000 <= w * v <= 0x4000_0000_0000_0000) by (nonlinear_arith)
        requires
            -0x8000_0000 <= w <= 0x8000_0000,
            -0x8000_0000 <= v <= 0x8000_0000,
    ;
}

/// Index of the first posting whose docid is at least `target`, by binary
/// search over a sorted store.
pub fn lower_bound(s: &[Posting], target: usize) -> (r: usize)
    requires
        strictly_sorted(s@),
    ensures
        r <= s@.len(),
        forall|i: int| 0 <= i < r ==> (s@[i].docid as int) < target,
        forall|i: int| r <= i < s@.len() ==> (s@[i].docid as int) >= target,
{
    let mut lo: usize = 0;
    let mut hi: usize = s.len();
    while lo < hi
        invariant
            strictly_sorted(s@),
            lo <= hi <= s@.len(),
            forall|i: int| 0 <= i < lo ==> (s@[i].docid as int) < target,
            forall|i: int| hi <= i < s@.len() ==> (s@[i].docid as int) >= target,
        decreases hi - lo,
    {
        let mid: usize = lo + (hi - lo) / 2;
        if (s[mid].docid as usize) < target {
            assert forall|i: int| 0 <= i <= mid implies (s@[i].docid as int) < target by {
                if i < mid {
                    assert(s@[i].docid < s@[mid as int].docid);
                }
            }
            lo = mid + 1;
        } else {
            assert forall|i: int| mid <= i < s@.len() implies (s@[i].docid as int) >= target by {
                if i > mid {
                    assert(s@[mid as int].docid < s@[i].docid);
                }
            }
            hi = mid;
        }
    }
    lo
}

/// Adds `weight` times each document's value in the sorted store `postings`
/// to the slice `chunk`, which holds the scores of the documents
/// `chunk_index * chunk_size ..` onward. Postings outside that range are not
/// visited: two binary searches delimit the ones that belong to it.
pub fn score_chunk(
    postings: &[Posting],
    weight: i32,
    chunk_index: usize,
    chunk_size: usize,
    chunk: &mut [i128],
)
    requires
        strictly_sorted(postings@),
        chunk_index * chunk_size + old(chunk)@.len() <= usize::MAX,
        forall|j: int|
            0 <= j < old(chunk)@.len() ==> -room_for_product() <= #[trigger] old(chunk)@[j]
                <= room_for_product(),
    ensures
        final(chunk)@.len() == old(chunk)@.len(),
        forall|j: int|
            0 <= j < old(chunk)@.len() ==> #[trigger] final(chunk)@[j] == old(chunk)@[j] + weight
                * value_in(postings@, chunk_index * chunk_size + j),
{
    let ghost s = postings@;
    let ghost start = chunk@;
    let a: usize = chunk_index * chunk_size;
    let b: usize = a + chunk.len();
    let lo = lower_bound(postings, a);
    let hi = lower_bound(postings, b);
    if hi < lo {
        assert(s[hi as int].docid >= b);
    }
    assert forall|j: int| 0 <= j < start.len() implies #[trigger] value_in(s.take(lo as int), a + j) == 0 by {
        lemma_value_in_absent(s.take(lo as int), a + j);
    }
    assert(chunk@ =~= start);
    let mut k: usize = lo;
    while k < hi
        invariant
            s == postings@,
            strictly_sorted(s),
            lo <= k <= hi <= s.len(),
            a == chunk_index * chunk_size,
            b == a + start.len(),
            forall|i: int| 0 <= i < lo ==> (#[trigger] s[i].docid as int) < a,
            forall|i: int| lo <= i < hi ==> a <= (#[trigger] s[i].docid as int) < b,
            chunk@.len() == start.len(),
            forall|j: int|
                0 <= j < start.len() ==> -room_for_product() <= #[trigger] start[j]
                    <= room_for_product(),
            forall|j: int|
                0 <= j < start.len() ==> #[trigger] chunk@[j] == start[j] + weight * value_in(
                    s.take(k as int),
                    a + j,
                ),
        decreases hi - k,
    {
        let p = postings[k];
        let j: usize = p.docid as usize - a;
        proof {
            assert forall|i: int| 0 <= i < k implies s.take(k as int)[i].docid != p.docid by {
                assert(s[i].docid < s[k as int].docid);
            }
            lemma_value_in_absent(s.take(k as int), p.docid as int);
            lemma_product_bound(weight as int, p.value as int);
        }
        chunk[j] = chunk[j] + (weight as i128) * (p.value as i128);
        proof {
            assert forall|jj: int| 0 <= jj < start.len() implies #[trigger] chunk@[jj] == start[jj]
                + weight * value_in(s.take(k + 1), a + jj) by {
                lemma_value_in_step(s, k as int, a + jj);
            }
        }
        k = k + 1;
    }
    assert forall|j: int|
        0 <= j < start.len() implies #[trigger] value_in(s, a + j) == value_in(s.take(hi as int), a + j) by {
        lemma_value_in_prefix(s, hi as int, a + j);
    }
}

} // verus!
