//! Selection of the `k` best-scoring documents from a dense score buffer.
use vstd::prelude::*;

verus! {

/// A document and its score, as retrieval reports them.
#[derive(Clone, Copy, Debug, PartialEq, Eq)]
pub struct SearchResult {
    pub docid: u32,
    pub score: i128,
}

/// `r` is the top-`k` list of `scores`: `min(k, n)` distinct documents,
/// each with its own score, in descending order of score and, among equal
/// scores, ascending order of docid; no document left out scores above any
/// that is listed, and one that ties with a listed document has a higher
/// docid than it.
pub open spec fn is_top_k(scores: Seq<int>, k: nat, r: Seq<SearchResult>) -> bool {
    &&& r.len() == if k < scores.len() {
        k
    } else {
        scores.len()
    }
    &&& forall|i: int|
        0 <= i < r.len() ==> (#[trigger] r[i]).docid < scores.len() && r[i].score
            == scores[r[i].docid as int]
    &&& forall|i: int, j: int| 0 <= i < j < r.len() ==> r[i].docid != r[j].docid
    &&& forall|i: int, j: int| 0 <= i < j < r.len() ==> r[i].score >= r[j].score
    &&& forall|i: int, j: int|
        0 <= i < j < r.len() && r[i].score == r[j].score ==> r[i].docid < r[j].docid
    &&& forall|d: int, i: int|
        0 <= d < scores.len() && 0 <= i < r.len() && !listed(r, d) ==> #[trigger] scores[d] <= (
        #[trigger] r[i]).score
    &&& forall|d: int, i: int|
        0 <= d < scores.len() && 0 <= i < r.len() && !listed(r, d) && #[trigger] scores[d] == (
        #[trigger] r[i]).score ==> r[i].docid < d
}

/// Document `d` is in the list `r`.
pub open spec fn listed(r: Seq<SearchResult>, d: int) -> bool {
    exists|i: int| 0 <= i < r.len() && r[i].docid == d
}

/// The scores of a buffer as integers.
pub open spec fn as_ints(s: Seq<i128>) -> Seq<int> {
    s.map_values(|x: i128| x as int)
}

/// The first `d` scores of `s` have been read, and `kept` is the top-`k`
/// list of them.
pub open spec fn top_so_far(s: Seq<int>, k: nat, d: int, kept: Seq<SearchResult>) -> bool {
    &&& 0 <= d <= s.len()
    &&& kept.len() == if k < d {
        k as int
    } else {
        d
    }
    &&& forall|i: int|
        0 <= i < kept.len() ==> (#[trigger] kept[i]).docid < d && kept[i].score
            == s[kept[i].docid as int]
    &&& forall|i: int, j: int| 0 <= i < j < kept.len() ==> kept[i].docid != kept[j].docid
    &&& forall|i: int, j: int| 0 <= i < j < kept.len() ==> kept[i].score >= kept[j].score
    &&& forall|i: int, j: int|
        0 <= i < j < kept.len() && kept[i].score == kept[j].score ==> kept[i].docid
            < kept[j].docid
    &&& kept.len() < k ==> forall|e: int| 0 <= e < d ==> listed(kept, e)
    &&& forall|e: int, i: int|
        0 <= e < d && 0 <= i < kept.len() && !listed(kept, e) ==> #[trigger] s[e] <= (
        #[trigger] kept[i]).score
    &&& forall|e: int, i: int|
        0 <= e < d && 0 <= i < kept.len() && !listed(kept, e) && #[trigger] s[e] == (
        #[trigger] kept[i]).score ==> kept[i].docid < e
}

/// A document that does not enter leaves the list as it is.
proof fn lemma_pass(s: Seq<int>, k: nat, d: int, kept: Seq<SearchResult>)
    requires
        top_so_far(s, k, d, kept),
        d < s.len(),
        !(kept.len() < k || (kept.len() > 0 && s[d] > kept[kept.len() - 1].score)),
    ensures
        top_so_far(s, k, d + 1, kept),
{
    let len = kept.len();
    assert forall|e: int, i: int|
        0 <= e < d + 1 && 0 <= i < len && !listed(kept, e) implies #[trigger] s[e] <= (
        #[trigger] kept[i]).score by {
        if e == d {
            if i < len - 1 {
                assert(kept[i].score >= kept[len - 1].score);
            }
        }
    }
}

/// Inserting document `d` at position `p`, after every entry with a score at
/// least its own and before every entry with a lower one, keeps the list
/// ordered and keeps every listed document listed.
proof fn lemma_insert(
    s: Seq<int>,
    k: nat,
    d: int,
    before: Seq<SearchResult>,
    p: int,
    item: SearchResult,
)
    requires
        item.docid == d,
        item.score == s[d],
        top_so_far(s, k, d, before),
        d < s.len(),
        d <= u32::MAX,
        0 <= p <= before.len(),
        forall|i: int| 0 <= i < p ==> (#[trigger] before[i]).score >= s[d],
        forall|i: int| p <= i < before.len() ==> (#[trigger] before[i]).score < s[d],
    ensures
        ({
            let full = before.insert(p, item);
            &&& full.len() == before.len() + 1
            &&& full[p].docid == d
            &&& forall|i: int| 0 <= i < full.len() ==> (#[trigger] full[i]).docid < d + 1
                && full[i].score == s[full[i].docid as int]
            &&& forall|i: int, j: int| 0 <= i < j < full.len() ==> full[i].docid != full[j].docid
            &&& forall|i: int, j: int| 0 <= i < j < full.len() ==> full[i].score >= full[j].score
            &&& forall|i: int, j: int|
                0 <= i < j < full.len() && full[i].score == full[j].score ==> full[i].docid
                    < full[j].docid
            &&& forall|e: int| 0 <= e < d && listed(before, e) ==> listed(full, e)
            &&& forall|i: int| 0 <= i < p ==> full[i] == before[i]
            &&& forall|i: int| p < i < full.len() ==> full[i] == before[i - 1]
        }),
{
    let full = before.insert(p, item);
    assert forall|e: int| 0 <= e < d && listed(before, e) implies listed(full, e) by {
        let i = choose|i: int| 0 <= i < before.len() && before[i].docid == e;
        if i < p {
            assert(full[i].docid == e);
        } else {
            assert(full[i + 1].docid == e);
        }
    }
    assert forall|a: int, b: int| 0 <= a < b < full.len() implies full[a].docid != full[b].docid
        && full[a].score >= full[b].score && (full[a].score == full[b].score ==> full[a].docid
        < full[b].docid) by {
        if b < p {
            assert(full[a] == before[a] && full[b] == before[b]);
        } else if b == p {
            assert(full[a] == before[a]);
        } else if a < p {
            assert(full[a] == before[a] && full[b] == before[b - 1]);
        } else if a == p {
            assert(full[b] == before[b - 1]);
        } else {
            assert(full[a] == before[a - 1] && full[b] == before[b - 1]);
        }
    }
}

/// While fewer than `k` are kept, every document enters.
proof fn lemma_keep(
    s: Seq<int>,
    k: nat,
    d: int,
    before: Seq<SearchResult>,
    p: int,
    item: SearchResult,
)
    requires
        item.docid == d,
        item.score == s[d],
        top_so_far(s, k, d, before),
        d < s.len(),
        d <= u32::MAX,
        before.len() < k,
        0 <= p <= before.len(),
        forall|i: int| 0 <= i < p ==> (#[trigger] before[i]).score >= s[d],
        forall|i: int| p <= i < before.len() ==> (#[trigger] before[i]).score < s[d],
    ensures
        top_so_far(s, k, d + 1, before.insert(p, item)),
{
    lemma_insert(s, k, d, before, p, item);
    let full = before.insert(p, item);
    assert(listed(full, d));
    assert forall|e: int| 0 <= e < d + 1 implies listed(full, e) by {
        if e < d {
            assert(listed(before, e));
        }
    }
}

/// Once `k` are kept, a document with a score above the lowest kept one
/// enters and the lowest leaves.
proof fn lemma_evict(
    s: Seq<int>,
    k: nat,
    d: int,
    before: Seq<SearchResult>,
    p: int,
    item: SearchResult,
)
    requires
        item.docid == d,
        item.score == s[d],
        top_so_far(s, k, d, before),
        d < s.len(),
        d <= u32::MAX,
        before.len() == k,
        k > 0,
        s[d] > before[k - 1].score,
        0 <= p <= before.len(),
        forall|i: int| 0 <= i < p ==> (#[trigger] before[i]).score >= s[d],
        forall|i: int| p <= i < before.len() ==> (#[trigger] before[i]).score < s[d],
    ensures
        top_so_far(s, k, d + 1, before.insert(p, item).drop_last()),
{
    lemma_insert(s, k, d, before, p, item);
    let full = before.insert(p, item);
    let kept = full.drop_last();
    let len = before.len();
    let last = before[len - 1];
    assert(p < len);
    assert(full[len as int] == last);
    assert(kept[p] == item);
    assert(listed(kept, d));
    assert forall|e: int| 0 <= e <= d && listed(full, e) && e != last.docid implies listed(kept, e) by {
        let i = choose|i: int| 0 <= i < full.len() && full[i].docid == e;
        assert(i < len);
        assert(kept[i].docid == e);
    }
    assert forall|e: int| 0 <= e < d + 1 && !listed(kept, e) && e != last.docid implies !listed(
        before,
        e,
    ) && s[e] <= last.score by {
        assert(e != d);
        if listed(before, e) {
            assert(listed(full, e));
        }
        if len > 1 {
            assert(s[e] <= before[len - 1].score);
        } else {
            assert(s[e] <= before[0].score);
        }
    }
    assert forall|i: int| 0 <= i < kept.len() implies last.score <= (#[trigger] kept[i]).score
        && (i != p ==> kept[i] == before[if i < p {
        i
    } else {
        i - 1
    }]) by {
        if i < p {
            assert(kept[i] == before[i]);
        } else if i > p {
            assert(kept[i] == before[i - 1]);
        }
    }
    assert forall|e: int, i: int|
        0 <= e < d + 1 && 0 <= i < kept.len() && !listed(kept, e) implies #[trigger] s[e] <= (
        #[trigger] kept[i]).score by {
        if e == last.docid {
            assert(s[e] == last.score);
        }
    }
    assert forall|e: int, i: int|
        0 <= e < d + 1 && 0 <= i < kept.len() && !listed(kept, e) && #[trigger] s[e] == (
        #[trigger] kept[i]).score implies kept[i].docid < e by {
        if e == last.docid {
            assert(s[e] == last.score);
            if i != p {
                let i2 = if i < p {
                    i
                } else {
                    i - 1
                };
                assert(kept[i] == before[i2]);
                assert(i2 < len - 1);
            }
        } else if i != p {
            let i2 = if i < p {
                i
            } else {
                i - 1
            };
            assert(kept[i] == before[i2]);
        }
    }
}

/// The `k` highest scores of the buffer with their docids, best first, and
/// the lower docid first among equal scores.
///
/// The buffer is read once in docid order. The best entries so far are kept
/// in descending order, at most `k` of them; once `k` are kept, a document
/// enters only with a score strictly above the lowest kept one, which then
/// leaves.
pub fn top_k(scores: &Vec<i128>, k: usize) -> (r: Vec<SearchResult>)
    requires
        scores@.len() <= u32::MAX + 1,
    ensures
        is_top_k(as_ints(scores@), k as nat, r@),
{
    let ghost s = as_ints(scores@);
    let n = scores.len();
    let mut kept: Vec<SearchResult> = Vec::new();
    let mut d: usize = 0;
    while d < n
        invariant
            n == scores@.len() == s.len(),
            s == as_ints(scores@),
            n <= u32::MAX + 1,
            d <= n,
            top_so_far(s, k as nat, d as int, kept@),
        decreases n - d,
    {
        let x = scores[d];
        let len = kept.len();
        if len < k || (len > 0 && x > kept[len - 1].score) {
            let mut p: usize = len;
            while p > 0 && kept[p - 1].score < x
                invariant
                    p <= len == kept@.len(),
                    forall|i: int| p <= i < len ==> (#[trigger] kept@[i]).score < x,
                decreases p,
            {
                p = p - 1;
            }
            let ghost before = kept@;
            let item = SearchResult { docid: d as u32, score: x };
            proof {
                assert forall|i: int| 0 <= i < p implies (#[trigger] before[i]).score >= x by {
                    if i < p - 1 {
                        assert(before[i].score >= before[p - 1].score);
                    }
                }
            }
            kept.insert(p, item);
            if kept.len() > k {
                proof {
                    lemma_evict(s, k as nat, d as int, before, p as int, item);
                }
                kept.pop();
                proof {
                    assert(kept@ =~= before.insert(p as int, item).drop_last());
                }
            } else {
                proof {
                    lemma_keep(s, k as nat, d as int, before, p as int, item);
                }
            }
        } else {
            proof {
                lemma_pass(s, k as nat, d as int, kept@);
            }
        }
        d = d + 1;
    }
    kept
}

} // verus!
