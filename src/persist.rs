//! The stored form of an index and its binary encoding through bincode.
use vstd::prelude::*;
use crate::posting::{Posting, strictly_sorted};

verus! {

/// An index as it is written out: the document count, then each
/// coordinate with its postings as (docid, value) pairs.
pub type Stored = (u32, Vec<(u32, Vec<(u32, i32)>)>);

/// Why a byte stream could not be loaded as an index.
#[derive(Clone, Copy, Debug, PartialEq, Eq)]
pub enum DeserializationError {
    /// The bytes are not the encoding of a stored index.
    Malformed,
    /// The bytes decode, but what they hold breaks the index's invariants.
    Inconsistent,
}

#[verifier::external_type_specification]
#[verifier::external_body]
pub struct ExBincodeErrorKind(bincode::ErrorKind);

/// The bytes that bincode writes for a stored index.
pub uninterp spec fn bincode_of(v: (u32, Seq<(u32, Seq<(u32, i32)>)>)) -> Seq<u8>;

/// The bytes begin with bincode's encoding of `v`; bincode reads a value
/// from the front of its input and leaves trailing bytes unread.
pub open spec fn encodes_prefix(bytes: Seq<u8>, v: (u32, Seq<(u32, Seq<(u32, i32)>)>)) -> bool {
    exists|n: int| 0 <= n <= bytes.len() && #[trigger] bytes.take(n) == bincode_of(v)
}

/// Relies on `bincode::serialize`: with its default options (no size
/// limit) a value of sequences of known length and integers is always
/// written, and the bytes are bincode's encoding of the value.
#[verifier::external_body]
pub(crate) fn encode(v: &Stored) -> (r: Result<Vec<u8>, Box<bincode::ErrorKind>>)
    ensures
        r is Ok,
        r is Ok ==> r->Ok_0@ == bincode_of(v.deep_view()),
{
    bincode::serialize(v)
}

/// Relies on `bincode::deserialize`, which reads with the options that
/// `bincode::serialize` writes with and accepts trailing bytes: input that
/// begins with the encoding of a value decodes to that value, and what
/// decodes is a value whose encoding begins the input.
#[verifier::external_body]
pub(crate) fn decode(bytes: &[u8]) -> (r: Result<Stored, Box<bincode::ErrorKind>>)
    ensures
        forall|v: (u32, Seq<(u32, Seq<(u32, i32)>)>)|
            #[trigger] encodes_prefix(bytes@, v) ==> r is Ok && r->Ok_0.deep_view() == v,
        r is Ok ==> encodes_prefix(bytes@, r->Ok_0.deep_view()),
{
    bincode::deserialize(bytes)
}

/// The postings that stored pairs stand for.
pub open spec fn postings_of(pairs: Seq<(u32, i32)>) -> Seq<Posting> {
    pairs.map_values(|p: (u32, i32)| Posting { docid: p.0, value: p.1 })
}

/// The posting stores that stored entries stand for.
pub open spec fn stores_of(entries: Seq<(u32, Seq<(u32, i32)>)>) -> Map<u32, Seq<Posting>>
    decreases entries.len(),
{
    if entries.len() == 0 {
        Map::empty()
    } else {
        stores_of(entries.drop_last()).insert(entries.last().0, postings_of(entries.last().1))
    }
}

/// The postings of one stored coordinate could be a store of an index of
/// `num_docs` documents.
pub open spec fn consistent_store(num_docs: u32, pairs: Seq<(u32, i32)>) -> bool {
    &&& pairs.len() > 0
    &&& strictly_sorted(postings_of(pairs))
    &&& forall|i: int| 0 <= i < pairs.len() ==> (#[trigger] pairs[i]).0 < num_docs
}

/// A stored index of `num_docs` documents meets the index's invariants: no
/// coordinate twice, and each store consistent.
pub open spec fn consistent(num_docs: u32, entries: Seq<(u32, Seq<(u32, i32)>)>) -> bool {
    &&& forall|i: int, j: int| 0 <= i < j < entries.len() ==> entries[i].0 != entries[j].0
    &&& forall|i: int|
        0 <= i < entries.len() ==> consistent_store(num_docs, (#[trigger] entries[i]).1)
}

} // verus!
