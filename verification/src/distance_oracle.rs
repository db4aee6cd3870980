//! Oracles that compare a query with one index, or with several at once.

use vstd::prelude::*;

use crate::classic_graph::IndexT;
use crate::distance::Distance;

verus! {

/// The first `m` parts, one after the other.
pub open spec fn joined(parts: Seq<Seq<(usize, Distance)>>, m: int) -> Seq<(usize, Distance)>
    decreases m,
{
    if m <= 0 {
        Seq::empty()
    } else {
        joined(parts, m - 1) + parts[m - 1]
    }
}

/// The first `m` parts do not depend on what follows them.
proof fn lemma_joined_prefix(
    parts: Seq<Seq<(usize, Distance)>>,
    others: Seq<Seq<(usize, Distance)>>,
    m: int,
)
    requires
        0 <= m <= parts.len(),
        m <= others.len(),
        forall|i: int| 0 <= i < m ==> #[trigger] parts[i] == others[i],
    ensures
        joined(parts, m) == joined(others, m),
    decreases m,
{
    if m > 0 {
        lemma_joined_prefix(parts, others, m - 1);
    }
}

/// Compares a query with what an index stands for: a vector, or a block of vectors.
pub trait DistanceOracle: Sized {
    /// Whether the query can be compared with index `i`.
    spec fn can_compare(&self, i: int) -> bool;

    /// Whether a comparison with index `i` can give these vectors and distances.
    spec fn compared(&self, i: int, out: Seq<(usize, Distance)>) -> bool;

    /// The vectors that index `idx` stands for, with their distances.
    fn compare(&self, idx: usize) -> (out: Vec<(usize, Distance)>)
        requires
            self.can_compare(idx as int),
        ensures
            self.compared(idx as int, out@),
    ;

    /// The comparisons with all the indices, one after the other.
    fn compare_batch(&self, indices: &[IndexT]) -> (out: Vec<(usize, Distance)>)
        requires
            forall|k: int|
                0 <= k < indices@.len() ==> self.can_compare(#[trigger] indices@[k] as int),
        ensures
            exists|parts: Seq<Seq<(usize, Distance)>>|
                {
                    &&& parts.len() == indices@.len()
                    &&& forall|k: int|
                        0 <= k < parts.len() ==> self.compared(
                            indices@[k] as int,
                            #[trigger] parts[k],
                        )
                    &&& out@ == #[trigger] joined(parts, parts.len() as int)
                },
    {
        let mut out: Vec<(usize, Distance)> = Vec::new();
        let ghost mut parts: Seq<Seq<(usize, Distance)>> = Seq::empty();
        for i in 0..indices.len()
            invariant
                forall|k: int|
                    0 <= k < indices@.len() ==> self.can_compare(#[trigger] indices@[k] as int),
                parts.len() == i,
                forall|k: int|
                    0 <= k < i ==> self.compared(indices@[k] as int, #[trigger] parts[k]),
                out@ == joined(parts, i as int),
        {
            let mut part = self.compare(indices[i] as usize);
            let ghost longer = parts.push(part@);
            proof {
                lemma_joined_prefix(parts, longer, i as int);
            }
            out.append(&mut part);
            proof {
                parts = longer;
            }
        }
        assert(out@ == joined(parts, parts.len() as int));
        out
    }
}

/// To join all parts is to flatten them.
pub proof fn law_joined_is_flattened(parts: Seq<Seq<(usize, Distance)>>)
    ensures
        joined(parts, parts.len() as int) == parts.flatten(),
    decreases parts.len(),
{
    parts.lemma_flatten_and_flatten_alt_are_equivalent();
    if parts.len() > 0 {
        let rest = parts.drop_last();
        law_joined_is_flattened(rest);
        rest.lemma_flatten_and_flatten_alt_are_equivalent();
        lemma_joined_prefix(parts, rest, rest.len() as int);
    }
}

} // verus!
