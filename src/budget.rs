//! The time budget: query coordinates ordered by descending magnitude of
//! weight, and the clock that meters each coordinate's scoring.
use vstd::prelude::*;

verus! {

broadcast use vstd::seq_lib::group_to_multiset_ensures;

#[verifier::external_type_specification]
#[verifier::external_body]
pub struct ExInstant(std::time::Instant);

/// Relies on `Instant::now`: a reading of the monotonic clock. Nothing is
/// assumed of its value.
pub assume_specification[ std::time::Instant::now ]() -> std::time::Instant;

/// Relies on `Instant::elapsed`: the time since the reading. Nothing is
/// assumed of its value.
pub assume_specification[ std::time::Instant::elapsed ](
    this: &std::time::Instant,
) -> core::time::Duration;

/// Relies on `Duration::as_nanos`: the duration in whole nanoseconds.
/// Nothing is assumed of its value.
pub assume_specification[ core::time::Duration::as_nanos ](this: &core::time::Duration) -> u128;

/// The magnitude of a weight.
pub open spec fn magnitude(w: i32) -> int {
    if w < 0 {
        -w
    } else {
        w as int
    }
}

/// The entries are in descending order of the magnitude of their weights.
pub open spec fn by_magnitude(q: Seq<(u32, i32)>) -> bool {
    forall|i: int, j: int| 0 <= i < j < q.len() ==> magnitude(q[i].1) >= magnitude(q[j].1)
}

/// `order` holds the entries of `q`, each as often as `q` does, in
/// descending order of magnitude.
pub open spec fn is_budget_order(order: Seq<(u32, i32)>, q: Seq<(u32, i32)>) -> bool {
    &&& order.to_multiset() == q.to_multiset()
    &&& by_magnitude(order)
}

fn weight_magnitude(w: i32) -> (r: i64)
    ensures
        r == magnitude(w),
{
    if w < 0 {
        -(w as i64)
    } else {
        w as i64
    }
}

/// The query's entries in descending order of the magnitude of their
/// weights.
pub fn order_by_magnitude(query: &Vec<(u32, i32)>) -> (r: Vec<(u32, i32)>)
    ensures
        is_budget_order(r@, query@),
{
    let mut out: Vec<(u32, i32)> = Vec::new();
    let mut i: usize = 0;
    while i < query.len()
        invariant
            i <= query@.len(),
            out@.to_multiset() == query@.take(i as int).to_multiset(),
            by_magnitude(out@),
        decreases query@.len() - i,
    {
        let entry = query[i];
        let m = weight_magnitude(entry.1);
        let mut p: usize = out.len();
        while p > 0 && weight_magnitude(out[p - 1].1) < m
            invariant
                p <= out@.len(),
                forall|j: int| p <= j < out@.len() ==> magnitude((#[trigger] out@[j]).1) < m,
            decreases p,
        {
            p = p - 1;
        }
        let ghost before = out@;
        out.insert(p, entry);
        proof {
            assert(out@ == before.insert(p as int, entry));
            vstd::seq_lib::to_multiset_insert(before, p as int, entry);
            assert(query@.take(i + 1) =~= query@.take(i as int).push(entry));
            vstd::seq_lib::to_multiset_build(query@.take(i as int), entry);
            assert forall|a: int, b: int| 0 <= a < b < out@.len() implies magnitude(out@[a].1)
                >= magnitude(out@[b].1) by {
                if b < p {
                    assert(out@[a] == before[a] && out@[b] == before[b]);
                } else if b == p {
                    assert(out@[a] == before[a]);
                    if a < p - 1 {
                        assert(magnitude(before[a].1) >= magnitude(before[p - 1].1));
                    }
                } else if a > p {
                    assert(out@[a] == before[a - 1] && out@[b] == before[b - 1]);
                } else if a == p {
                    assert(out@[b] == before[b - 1]);
                } else {
                    assert(out@[a] == before[a] && out@[b] == before[b - 1]);
                }
            }
        }
        i = i + 1;
    }
    proof {
        assert(query@.take(query@.len() as int) =~= query@);
    }
    out
}

/// The budget left after a scoring step that took `cost` nanoseconds,
/// floored at zero.
pub fn remaining_after(left: u64, cost: u128) -> (r: u64)
    ensures
        r == if left > cost {
            left - cost
        } else {
            0
        },
{
    if (left as u128) > cost {
        (left as u128 - cost) as u64
    } else {
        0
    }
}

} // verus!
