//! The beam of a search: the closest candidates found so far, and which of them
//! have been visited.

use vstd::prelude::*;

use crate::distance::Distance;

verus! {

/// A candidate in a beam.
#[derive(Clone, Copy, Debug, PartialEq, Eq, Structural)]
pub struct Entry {
    pub id: u32,
    pub distance: Distance,
    pub visited: bool,
}

/// The closest candidates, nearest first, at most `capacity` of them; and the
/// candidates that have been visited, in the order of the visits.
pub struct Beam {
    pub entries: Vec<Entry>,
    pub capacity: usize,
    pub visited: Vec<u32>,
}

/// Whether entries are ordered by distance.
pub open spec fn is_sorted(entries: Seq<Entry>) -> bool {
    forall|i: int, j: int|
        0 <= i < j < entries.len() ==> #[trigger] entries[i].distance.place()
            <= #[trigger] entries[j].distance.place()
}

/// How many of the (sorted) entries come before a new one at the given place:
/// those that are no farther.
pub open spec fn position(entries: Seq<Entry>, place: int) -> int
    decreases entries.len(),
{
    if entries.len() == 0 {
        0
    } else if entries.last().distance.place() <= place {
        entries.len() as int
    } else {
        position(entries.drop_last(), place)
    }
}

/// The entry of a candidate that has not been visited.
pub open spec fn fresh(candidate: (u32, Distance)) -> Entry {
    Entry { id: candidate.0, distance: candidate.1, visited: false }
}

/// The entries with a candidate put in its place, cut off at the capacity.
pub open spec fn inserted(entries: Seq<Entry>, candidate: (u32, Distance), capacity: int) -> Seq<
    Entry,
> {
    let grown = entries.insert(position(entries, candidate.1.place()), fresh(candidate));
    if grown.len() <= capacity {
        grown
    } else {
        grown.subrange(0, capacity)
    }
}

/// The entries with several candidates put in their places, one after the other.
pub open spec fn inserted_all(
    entries: Seq<Entry>,
    candidates: Seq<(u32, Distance)>,
    capacity: int,
) -> Seq<Entry>
    decreases candidates.len(),
{
    if candidates.len() == 0 {
        entries
    } else {
        inserted(
            inserted_all(entries, candidates.drop_last(), capacity),
            candidates.last(),
            capacity,
        )
    }
}

/// The first entry that has not been visited, or their number where all have.
pub open spec fn first_unvisited(entries: Seq<Entry>) -> int
    decreases entries.len(),
{
    if entries.len() == 0 {
        0
    } else if !entries[0].visited {
        0
    } else {
        1 + first_unvisited(entries.drop_first())
    }
}

/// The ids of the entries.
pub open spec fn ids(entries: Seq<Entry>) -> Seq<u32> {
    Seq::new(entries.len(), |k: int| entries[k].id)
}

/// Everything before the position is no farther than the place, everything after
/// is farther.
pub proof fn lemma_position(entries: Seq<Entry>, place: int)
    requires
        is_sorted(entries),
    ensures
        0 <= position(entries, place) <= entries.len(),
        forall|k: int|
            0 <= k < position(entries, place) ==> #[trigger] entries[k].distance.place() <= place,
        forall|k: int|
            position(entries, place) <= k < entries.len() ==> #[trigger] entries[k].distance.place()
                > place,
    decreases entries.len(),
{
    if entries.len() > 0 && entries.last().distance.place() > place {
        let rest = entries.drop_last();
        lemma_position(rest, place);
        assert forall|k: int| 0 <= k < position(entries, place) implies #[trigger] entries[k].distance.place()
            <= place by {
            assert(rest[k] == entries[k]);
        }
        assert forall|k: int| position(entries, place) <= k < entries.len() implies #[trigger] entries[k].distance.place()
            > place by {
            if k < rest.len() {
                assert(rest[k] == entries[k]);
            }
        }
    }
}

/// A position is determined by what lies before and after it.
pub proof fn lemma_position_unique(entries: Seq<Entry>, place: int, at: int)
    requires
        is_sorted(entries),
        0 <= at <= entries.len(),
        forall|k: int| 0 <= k < at ==> #[trigger] entries[k].distance.place() <= place,
        forall|k: int| at <= k < entries.len() ==> #[trigger] entries[k].distance.place() > place,
    ensures
        at == position(entries, place),
{
    lemma_position(entries, place);
    let p = position(entries, place);
    if at < p {
        assert(entries[at].distance.place() > place);
    } else if p < at {
        assert(entries[p].distance.place() <= place);
    }
}

/// Insertion keeps the order and the capacity.
pub proof fn lemma_inserted(entries: Seq<Entry>, candidate: (u32, Distance), capacity: int)
    requires
        is_sorted(entries),
        0 <= capacity,
        entries.len() <= capacity,
    ensures
        is_sorted(inserted(entries, candidate, capacity)),
        inserted(entries, candidate, capacity).len() == (if entries.len() < capacity {
            (entries.len() + 1) as int
        } else {
            capacity
        }),
        forall|k: int|
            0 <= k < inserted(entries, candidate, capacity).len() ==> (#[trigger] inserted(
                entries,
                candidate,
                capacity,
            )[k] == fresh(candidate) || entries.contains(inserted(entries, candidate, capacity)[k])),
{
    let at = position(entries, candidate.1.place());
    lemma_position(entries, candidate.1.place());
    let grown = entries.insert(at, fresh(candidate));
    assert forall|k: int| 0 <= k < grown.len() implies grown[k] == fresh(candidate)
        || entries.contains(#[trigger] grown[k]) by {
        if k < at {
            assert(grown[k] == entries[k]);
        } else if k > at {
            assert(grown[k] == entries[k - 1]);
        }
    }
    assert(is_sorted(grown));
}

/// Insertion of several candidates keeps the order and the capacity.
pub proof fn lemma_inserted_all(
    entries: Seq<Entry>,
    candidates: Seq<(u32, Distance)>,
    capacity: int,
)
    requires
        is_sorted(entries),
        0 <= capacity,
        entries.len() <= capacity,
    ensures
        is_sorted(inserted_all(entries, candidates, capacity)),
        inserted_all(entries, candidates, capacity).len() == (if entries.len() + candidates.len()
            < capacity {
            (entries.len() + candidates.len()) as int
        } else {
            capacity
        }),
    decreases candidates.len(),
{
    if candidates.len() > 0 {
        lemma_inserted_all(entries, candidates.drop_last(), capacity);
        lemma_inserted(
            inserted_all(entries, candidates.drop_last(), capacity),
            candidates.last(),
            capacity,
        );
    }
}

/// The first unvisited entry is unvisited, and the entries before it are visited.
pub proof fn lemma_first_unvisited(entries: Seq<Entry>)
    ensures
        0 <= first_unvisited(entries) <= entries.len(),
        first_unvisited(entries) < entries.len()
            ==> !entries[first_unvisited(entries)].visited,
        forall|k: int| 0 <= k < first_unvisited(entries) ==> (#[trigger] entries[k]).visited,
    decreases entries.len(),
{
    if entries.len() > 0 && entries[0].visited {
        let rest = entries.drop_first();
        lemma_first_unvisited(rest);
        assert forall|k: int| 0 <= k < first_unvisited(entries) implies (
        #[trigger] entries[k]).visited by {
            if k > 0 {
                assert(rest[k - 1] == entries[k]);
            }
        }
        if first_unvisited(entries) < entries.len() {
            assert(rest[first_unvisited(rest)] == entries[first_unvisited(entries)]);
        }
    }
}

/// The first unvisited entry is determined by what it is.
proof fn lemma_first_unvisited_unique(entries: Seq<Entry>, at: int)
    requires
        0 <= at <= entries.len(),
        at < entries.len() ==> !entries[at].visited,
        forall|k: int| 0 <= k < at ==> (#[trigger] entries[k]).visited,
    ensures
        at == first_unvisited(entries),
{
    lemma_first_unvisited(entries);
    let f = first_unvisited(entries);
    if f < at {
        assert(entries[f].visited);
    } else if at < f {
        assert(entries[at].visited);
    }
}

impl Beam {
    /// Whether the entries are ordered and keep the capacity.
    pub open spec fn wf(&self) -> bool {
        is_sorted(self.entries@) && self.entries@.len() <= self.capacity
    }

    /// An empty beam.
    pub fn new(capacity: usize) -> (beam: Beam)
        ensures
            beam.wf(),
            beam.entries@ == Seq::<Entry>::empty(),
            beam.visited@ == Seq::<u32>::empty(),
            beam.capacity == capacity,
    {
        Beam { entries: Vec::new(), capacity, visited: Vec::new() }
    }

    /// Puts a candidate in its place, behind entries at the same distance. What
    /// exceeds the capacity is dropped from the far end.
    pub fn insert(&mut self, candidate: (u32, Distance))
        requires
            old(self).wf(),
        ensures
            final(self).wf(),
            final(self).entries@ == inserted(
                old(self).entries@,
                candidate,
                old(self).capacity as int,
            ),
            final(self).capacity == old(self).capacity,
            final(self).visited@ == old(self).visited@,
    {
        let rank = candidate.1.rank();
        let mut at = self.entries.len();
        while at > 0 && self.entries[at - 1].distance.rank() > rank
            invariant
                at <= self.entries@.len(),
                rank == candidate.1.place(),
                forall|k: int|
                    at <= k < self.entries@.len() ==> #[trigger] self.entries@[k].distance.place()
                        > rank,
            decreases at,
        {
            at = at - 1;
        }
        proof {
            assert forall|k: int| 0 <= k < at implies #[trigger] self.entries@[k].distance.place()
                <= rank by {
                if k < at - 1 {
                    assert(self.entries@[k].distance.place()
                        <= self.entries@[at - 1].distance.place());
                }
            }
            lemma_position_unique(self.entries@, candidate.1.place(), at as int);
            lemma_inserted(self.entries@, candidate, self.capacity as int);
        }
        let entry = Entry { id: candidate.0, distance: candidate.1, visited: false };
        if self.entries.len() < self.capacity {
            self.entries.insert(at, entry);
        } else if at < self.entries.len() {
            let last = self.entries.pop();
            let ghost popped = self.entries@;
            self.entries.insert(at, entry);
            assert(self.entries@ =~= inserted(
                old(self).entries@,
                candidate,
                old(self).capacity as int,
            ));
        } else {
            assert(self.entries@ =~= inserted(
                old(self).entries@,
                candidate,
                old(self).capacity as int,
            ));
        }
    }

    /// Puts several candidates in their places, one after the other.
    pub fn batch_insert(&mut self, candidates: &Vec<(u32, Distance)>)
        requires
            old(self).wf(),
        ensures
            final(self).wf(),
            final(self).entries@ == inserted_all(
                old(self).entries@,
                candidates@,
                old(self).capacity as int,
            ),
            final(self).capacity == old(self).capacity,
            final(self).visited@ == old(self).visited@,
    {
        let len = candidates.len();
        assert(candidates@.subrange(0, 0) =~= Seq::<(u32, Distance)>::empty());
        for k in 0..len
            invariant
                len == candidates@.len(),
                self.wf(),
                self.entries@ == inserted_all(
                    old(self).entries@,
                    candidates@.subrange(0, k as int),
                    old(self).capacity as int,
                ),
                self.capacity == old(self).capacity,
                self.visited@ == old(self).visited@,
        {
            self.insert(candidates[k]);
            assert(candidates@.subrange(0, k + 1).drop_last() =~= candidates@.subrange(
                0,
                k as int,
            ));
        }
        assert(candidates@.subrange(0, len as int) =~= candidates@);
    }

    /// Visits the nearest entry that has not been visited, and says which it is.
    pub fn get_next(&mut self) -> (next: Option<u32>)
        requires
            old(self).wf(),
        ensures
            final(self).wf(),
            final(self).capacity == old(self).capacity,
            match next {
                Some(id) => {
                    let at = first_unvisited(old(self).entries@);
                    &&& at < old(self).entries@.len()
                    &&& id == old(self).entries@[at].id
                    &&& final(self).entries@ == old(self).entries@.update(
                        at,
                        (Entry { visited: true, ..old(self).entries@[at] }),
                    )
                    &&& final(self).visited@ == old(self).visited@.push(id)
                },
                None => {
                    &&& first_unvisited(old(self).entries@) == old(self).entries@.len()
                    &&& final(self).entries@ == old(self).entries@
                    &&& final(self).visited@ == old(self).visited@
                },
            },
    {
        let len = self.entries.len();
        let mut at: usize = 0;
        while at < len && self.entries[at].visited
            invariant
                at <= len,
                len == self.entries@.len(),
                forall|k: int| 0 <= k < at ==> (#[trigger] self.entries@[k]).visited,
            decreases len - at,
        {
            at = at + 1;
        }
        proof {
            lemma_first_unvisited_unique(self.entries@, at as int);
        }
        if at == len {
            return None;
        }
        let entry = self.entries[at];
        self.entries[at] = Entry { id: entry.id, distance: entry.distance, visited: true };
        self.visited.push(entry.id);
        Some(entry.id)
    }

    /// The number of visits.
    pub fn visited_count(&self) -> (count: usize)
        ensures
            count == self.visited@.len(),
    {
        self.visited.len()
    }

    /// The ids of the entries, nearest first.
    pub fn get_results(&self) -> (results: Vec<u32>)
        ensures
            results@ == ids(self.entries@),
    {
        let mut results: Vec<u32> = Vec::new();
        let len = self.entries.len();
        for k in 0..len
            invariant
                len == self.entries@.len(),
                results@.len() == k,
                forall|j: int| 0 <= j < k ==> #[trigger] results@[j] == self.entries@[j].id,
        {
            results.push(self.entries[k].id);
        }
        assert(results@ =~= ids(self.entries@));
        results
    }

    /// The ids and distances of the entries, nearest first.
    pub fn beam(&self) -> (candidates: Vec<(u32, Distance)>)
        ensures
            candidates@.len() == self.entries@.len(),
            forall|k: int|
                0 <= k < candidates@.len() ==> #[trigger] candidates@[k] == (
                    self.entries@[k].id,
                    self.entries@[k].distance,
                ),
    {
        let mut candidates: Vec<(u32, Distance)> = Vec::new();
        let len = self.entries.len();
        for k in 0..len
            invariant
                len == self.entries@.len(),
                candidates@.len() == k,
                forall|j: int|
                    0 <= j < k ==> #[trigger] candidates@[j] == (
                        self.entries@[j].id,
                        self.entries@[j].distance,
                    ),
        {
            candidates.push((self.entries[k].id, self.entries[k].distance));
        }
        candidates
    }

    /// Removes all entries and forgets the visits.
    pub fn reset(&mut self)
        ensures
            final(self).wf(),
            final(self).entries@ == Seq::<Entry>::empty(),
            final(self).visited@ == Seq::<u32>::empty(),
            final(self).capacity == old(self).capacity,
    {
        self.entries.clear();
        self.visited.clear();
    }
}

impl Clone for Beam {
    fn clone(&self) -> (copy: Beam)
        ensures
            copy.entries@ == self.entries@,
            copy.capacity == self.capacity,
            copy.visited@ == self.visited@,
    {
        let copy = Beam {
            entries: self.entries.clone(),
            capacity: self.capacity,
            visited: self.visited.clone(),
        };
        assert(copy.entries@ =~= self.entries@);
        assert(copy.visited@ =~= self.visited@);
        copy
    }
}

/// How many entries are no farther than the given place.
pub open spec fn near(entries: Seq<Entry>, place: int) -> int
    decreases entries.len(),
{
    if entries.len() == 0 {
        0
    } else {
        near(entries.drop_last(), place) + (if entries.last().distance.place() <= place {
            1int
        } else {
            0
        })
    }
}

/// How many candidates are no farther than the given place.
pub open spec fn within(candidates: Seq<(u32, Distance)>, place: int) -> int
    decreases candidates.len(),
{
    if candidates.len() == 0 {
        0
    } else {
        within(candidates.drop_last(), place) + (if candidates.last().1.place() <= place {
            1int
        } else {
            0
        })
    }
}

/// Whether a candidate is among the entries, or there are as many entries as there may
/// be and none of them is farther.
pub open spec fn has_its_place(
    entries: Seq<Entry>,
    capacity: int,
    candidate: (u32, Distance),
) -> bool {
    ||| exists|j: int|
        0 <= j < entries.len() && (#[trigger] entries[j]).id == candidate.0 && entries[j].distance
            == candidate.1
    ||| entries.len() == capacity && forall|j: int|
        0 <= j < entries.len() ==> (#[trigger] entries[j]).distance.place() <= candidate.1.place()
}

/// Of ordered entries, those no farther than a place are the ones before its position.
proof fn lemma_near_is_position(entries: Seq<Entry>, place: int)
    requires
        is_sorted(entries),
    ensures
        near(entries, place) == position(entries, place),
    decreases entries.len(),
{
    if entries.len() > 0 {
        let rest = entries.drop_last();
        assert(is_sorted(rest)) by {
            assert forall|i: int, j: int|
                0 <= i < j < rest.len() implies #[trigger] rest[i].distance.place()
                <= #[trigger] rest[j].distance.place() by {
                assert(entries[i].distance.place() <= entries[j].distance.place());
            }
        }
        lemma_near_is_position(rest, place);
        if entries.last().distance.place() <= place && rest.len() > 0 {
            assert(entries[rest.len() - 1].distance.place()
                <= entries[entries.len() - 1].distance.place());
        }
    }
}

/// What insertion does: the new entry comes behind all that are no farther and before
/// all that are farther, the others keep their order, and only what exceeds the
/// capacity is lost, from the far end.
pub proof fn law_insert_goes_behind_equals(
    entries: Seq<Entry>,
    candidate: (u32, Distance),
    capacity: int,
) -> (at: int)
    requires
        is_sorted(entries),
        0 <= capacity,
        entries.len() <= capacity,
    ensures
        0 <= at <= entries.len(),
        forall|k: int|
            0 <= k < entries.len() ==> (k < at) == ((#[trigger] entries[k]).distance.place()
                <= candidate.1.place()),
        inserted(entries, candidate, capacity).len() == (if entries.len() < capacity {
            entries.len() as int + 1
        } else {
            capacity
        }),
        forall|k: int|
            0 <= k < inserted(entries, candidate, capacity).len() ==> #[trigger] inserted(
                entries,
                candidate,
                capacity,
            )[k] == (if k < at {
                entries[k]
            } else if k == at {
                (Entry { id: candidate.0, distance: candidate.1, visited: false })
            } else {
                entries[k - 1]
            }),
{
    lemma_position(entries, candidate.1.place());
    lemma_inserted(entries, candidate, capacity);
    let at = position(entries, candidate.1.place());
    let grown = entries.insert(at, fresh(candidate));
    let kept = inserted(entries, candidate, capacity);
    assert forall|k: int| 0 <= k < kept.len() implies #[trigger] kept[k] == grown[k] by {}
    at
}

/// Insertion adds one to the entries that are no farther than a place, where the new
/// one is, as far as there is room.
proof fn lemma_near_inserted(
    entries: Seq<Entry>,
    candidate: (u32, Distance),
    capacity: int,
    place: int,
)
    requires
        is_sorted(entries),
        0 <= capacity,
        entries.len() <= capacity,
    ensures
        ({
            let kept = inserted(entries, candidate, capacity);
            let more = near(entries, place) + (if candidate.1.place() <= place {
                1int
            } else {
                0
            });
            &&& near(kept, place) == (if more < capacity {
                more
            } else {
                capacity
            })
            &&& near(kept, place) == position(kept, place)
            &&& near(entries, place) == position(entries, place)
        }),
{
    let kept = inserted(entries, candidate, capacity);
    lemma_inserted(entries, candidate, capacity);
    lemma_near_is_position(entries, place);
    lemma_near_is_position(kept, place);
    lemma_position(entries, place);
    lemma_position(entries, candidate.1.place());
    let at = position(entries, candidate.1.place());
    let grown = entries.insert(at, fresh(candidate));
    let p = position(entries, place);
    let q: int = if candidate.1.place() <= place {
        p + 1
    } else {
        p
    };
    let cut: int = if q < kept.len() {
        q
    } else {
        kept.len() as int
    };
    assert forall|k: int| 0 <= k < kept.len() implies #[trigger] kept[k] == (if k < at {
        entries[k]
    } else if k == at {
        fresh(candidate)
    } else {
        entries[k - 1]
    }) by {
        assert(kept[k] == grown[k]);
    }
    assert(candidate.1.place() <= place ==> at <= p) by {
        if p < at {
            assert(entries[p].distance.place() <= candidate.1.place());
        }
    }
    assert(candidate.1.place() > place ==> p <= at) by {
        if at < p {
            assert(entries[at].distance.place() > candidate.1.place());
        }
    }
    assert forall|k: int| 0 <= k < cut implies #[trigger] kept[k].distance.place() <= place by {
        if k < at {
            assert(entries[k].distance.place() <= place);
        } else if k > at {
            assert(entries[k - 1].distance.place() <= place);
        }
    }
    assert forall|k: int| cut <= k < kept.len() implies #[trigger] kept[k].distance.place()
        > place by {
        if k < at {
            assert(entries[k].distance.place() > place);
        } else if k > at {
            assert(entries[k - 1].distance.place() > place);
        }
    }
    lemma_position_unique(kept, place, cut);
}

/// Insertion leaves in their places what was in its place, and puts the new candidate
/// in its own.
pub proof fn lemma_place_kept(
    entries: Seq<Entry>,
    candidate: (u32, Distance),
    capacity: int,
    other: (u32, Distance),
)
    requires
        is_sorted(entries),
        0 <= capacity,
        entries.len() <= capacity,
    ensures
        has_its_place(inserted(entries, candidate, capacity), capacity, candidate),
        has_its_place(entries, capacity, other) ==> has_its_place(
            inserted(entries, candidate, capacity),
            capacity,
            other,
        ),
{
    let kept = inserted(entries, candidate, capacity);
    lemma_inserted(entries, candidate, capacity);
    lemma_position(entries, candidate.1.place());
    let at = position(entries, candidate.1.place());
    let grown = entries.insert(at, fresh(candidate));
    assert forall|k: int| 0 <= k < kept.len() implies #[trigger] kept[k] == (if k < at {
        entries[k]
    } else if k == at {
        fresh(candidate)
    } else {
        entries[k - 1]
    }) by {
        assert(kept[k] == grown[k]);
    }
    if at < kept.len() {
        assert(kept[at].id == candidate.0 && kept[at].distance == candidate.1);
    } else {
        assert forall|j: int| 0 <= j < kept.len() implies (#[trigger] kept[j]).distance.place()
            <= candidate.1.place() by {
            assert(entries[j].distance.place() <= candidate.1.place());
        }
    }
    if has_its_place(entries, capacity, other) {
        if exists|j: int|
            0 <= j < entries.len() && (#[trigger] entries[j]).id == other.0 && entries[j].distance
                == other.1 {
            let j = choose|j: int|
                0 <= j < entries.len() && (#[trigger] entries[j]).id == other.0
                    && entries[j].distance == other.1;
            let k = if j < at {
                j
            } else {
                j + 1
            };
            if k < kept.len() {
                assert(kept[k].id == other.0 && kept[k].distance == other.1);
            } else {
                assert forall|l: int| 0 <= l < kept.len() implies (
                #[trigger] kept[l]).distance.place() <= other.1.place() by {
                    assert(entries[j].distance.place() == other.1.place());
                    if l < at {
                        if l < j {
                            assert(entries[l].distance.place() <= entries[j].distance.place());
                        }
                    } else if l == at {
                        assert(at <= j);
                        assert(entries[j].distance.place() > candidate.1.place());
                    } else if l - 1 < j {
                        assert(entries[l - 1].distance.place() <= entries[j].distance.place());
                    }
                }
            }
        } else {
            assert forall|l: int| 0 <= l < kept.len() implies (#[trigger] kept[l]).distance.place()
                <= other.1.place() by {
                if l < at {
                    assert(entries[l].distance.place() <= other.1.place());
                } else if l == at {
                    assert(entries[at].distance.place() > candidate.1.place());
                    assert(entries[at].distance.place() <= other.1.place());
                } else {
                    assert(entries[l - 1].distance.place() <= other.1.place());
                }
            }
        }
    }
}

/// Candidates that are put into a beam compete with its entries: of all together that
/// are no farther than any given place the beam keeps as many as it has room for. So
/// none is left out while there is room, none is left out that is closer than an entry,
/// and no entry comes from elsewhere.
pub proof fn law_candidates_compete(
    entries: Seq<Entry>,
    candidates: Seq<(u32, Distance)>,
    capacity: int,
    place: int,
)
    requires
        is_sorted(entries),
        0 <= capacity,
        entries.len() <= capacity,
    ensures
        ({
            let kept = inserted_all(entries, candidates, capacity);
            let all = near(entries, place) + within(candidates, place);
            &&& is_sorted(kept)
            &&& kept.len() == (if entries.len() + candidates.len() < capacity {
                (entries.len() + candidates.len()) as int
            } else {
                capacity
            })
            &&& near(kept, place) == (if all < capacity {
                all
            } else {
                capacity
            })
            &&& forall|k: int|
                0 <= k < candidates.len() ==> has_its_place(
                    kept,
                    capacity,
                    #[trigger] candidates[k],
                )
            &&& forall|other: (u32, Distance)| #[trigger]
                has_its_place(entries, capacity, other) ==> has_its_place(kept, capacity, other)
            &&& forall|k: int|
                0 <= k < kept.len() ==> {
                    ||| entries.contains(#[trigger] kept[k])
                    ||| candidates.contains((kept[k].id, kept[k].distance)) && !kept[k].visited
                }
        }),
    decreases candidates.len(),
{
    lemma_inserted_all(entries, candidates, capacity);
    if candidates.len() == 0 {
        lemma_near_is_position(entries, place);
        lemma_position(entries, place);
        assert forall|k: int| 0 <= k < entries.len() implies entries.contains(
            #[trigger] entries[k],
        ) by {}
    } else {
        let before = candidates.drop_last();
        let last = candidates.last();
        let had = inserted_all(entries, before, capacity);
        let kept = inserted_all(entries, candidates, capacity);
        law_candidates_compete(entries, before, capacity, place);
        lemma_inserted(had, last, capacity);
        lemma_near_inserted(had, last, capacity, place);
        assert forall|k: int| 0 <= k < candidates.len() implies has_its_place(
            kept,
            capacity,
            #[trigger] candidates[k],
        ) by {
            lemma_place_kept(had, last, capacity, candidates[k]);
            if k < before.len() {
                assert(before[k] == candidates[k]);
            }
        }
        assert forall|other: (u32, Distance)| #[trigger]
            has_its_place(entries, capacity, other) implies has_its_place(
            kept,
            capacity,
            other,
        ) by {
            lemma_place_kept(had, last, capacity, other);
        }
        assert forall|k: int| 0 <= k < kept.len() implies {
            ||| entries.contains(#[trigger] kept[k])
            ||| candidates.contains((kept[k].id, kept[k].distance)) && !kept[k].visited
        } by {
            if kept[k] == fresh(last) {
                assert(candidates[candidates.len() - 1] == (kept[k].id, kept[k].distance));
            } else {
                let j = had.index_of(kept[k]);
                assert(had[j] == kept[k]);
                if !entries.contains(had[j]) {
                    let c = before.index_of((had[j].id, had[j].distance));
                    assert(candidates[c] == before[c]);
                }
            }
        }
    }
}

/// A beam keeps the closest candidates: of those no farther than any given place it
/// holds all, up to its capacity.
pub proof fn law_beam_keeps_closest(
    candidates: Seq<(u32, Distance)>,
    capacity: int,
    place: int,
)
    requires
        0 <= capacity,
    ensures
        ({
            let kept = inserted_all(Seq::empty(), candidates, capacity);
            &&& is_sorted(kept)
            &&& kept.len() == (if candidates.len() < capacity {
                candidates.len() as int
            } else {
                capacity
            })
            &&& position(kept, place) == (if within(candidates, place) < capacity {
                within(candidates, place)
            } else {
                capacity
            })
            &&& forall|k: int|
                0 <= k < kept.len() ==> candidates.contains(
                    (#[trigger] kept[k].id, kept[k].distance),
                ) && !kept[k].visited
        }),
{
    let none = Seq::<Entry>::empty();
    let kept = inserted_all(none, candidates, capacity);
    law_candidates_compete(none, candidates, capacity, place);
    lemma_near_is_position(kept, place);
    assert forall|k: int| 0 <= k < kept.len() implies candidates.contains(
        (#[trigger] kept[k].id, kept[k].distance),
    ) && !kept[k].visited by {
        assert(!none.contains(kept[k]));
    }
}

/// Which entry of a beam is visited next: the first that has not been visited, so that
/// none that has not is closer.
pub proof fn law_next_is_closest(entries: Seq<Entry>)
    requires
        is_sorted(entries),
    ensures
        ({
            let at = first_unvisited(entries);
            &&& 0 <= at <= entries.len()
            &&& at < entries.len() ==> !entries[at].visited
            &&& at == entries.len() ==> forall|k: int|
                0 <= k < entries.len() ==> (#[trigger] entries[k]).visited
            &&& forall|k: int| 0 <= k < at ==> (#[trigger] entries[k]).visited
            &&& forall|k: int|
                0 <= k < entries.len() && !(#[trigger] entries[k]).visited ==> at <= k
                    && entries[at].distance.place() <= entries[k].distance.place()
        }),
{
    lemma_first_unvisited(entries);
    let at = first_unvisited(entries);
    assert forall|k: int| 0 <= k < entries.len() && !(#[trigger] entries[k]).visited implies at
        <= k && entries[at].distance.place() <= entries[k].distance.place() by {
        if at < k {
            assert(entries[at].distance.place() <= entries[k].distance.place());
        }
    }
}

/// The entries of a beam followed by candidates that are put into it, in the order in
/// which they come.
pub open spec fn in_line(entries: Seq<Entry>, candidates: Seq<(u32, Distance)>) -> Seq<Entry> {
    entries + Seq::new(
        candidates.len(),
        |k: int| Entry { id: candidates[k].0, distance: candidates[k].1, visited: false },
    )
}

/// Whether `kept` is taken from `line`, as `origin` says, each at most once, and in the
/// order of the line where distances are equal.
pub open spec fn is_taken_from(kept: Seq<Entry>, line: Seq<Entry>, origin: Seq<int>) -> bool {
    &&& origin.len() == kept.len()
    &&& forall|k: int|
        0 <= k < kept.len() ==> 0 <= #[trigger] origin[k] < line.len() && kept[k]
            == line[origin[k]]
    &&& forall|k: int, l: int|
        0 <= k < l < kept.len() ==> {
            &&& #[trigger] origin[k] != #[trigger] origin[l]
            &&& kept[k].distance.place() == kept[l].distance.place() ==> origin[k] < origin[l]
        }
}

/// Insertion keeps the order of those in line.
pub proof fn lemma_taken_after(
    had: Seq<Entry>,
    line: Seq<Entry>,
    origin: Seq<int>,
    candidate: (u32, Distance),
    capacity: int,
) -> (after: Seq<int>)
    requires
        is_sorted(had),
        0 <= capacity,
        had.len() <= capacity,
        is_taken_from(had, line, origin),
    ensures
        is_taken_from(inserted(had, candidate, capacity), line.push(fresh(candidate)), after),
{
    let kept = inserted(had, candidate, capacity);
    let at = law_insert_goes_behind_equals(had, candidate, capacity);
    let n = line.len() as int;
    let longer = line.push(fresh(candidate));
    let after = Seq::new(
        kept.len(),
        |k: int|
            if k < at {
                origin[k]
            } else if k == at {
                n
            } else {
                origin[k - 1]
            },
    );
    assert forall|k: int| 0 <= k < kept.len() implies 0 <= #[trigger] after[k] < longer.len()
        && kept[k] == longer[after[k]] by {
        if k < at {
            assert(had[k] == line[origin[k]]);
        } else if k > at {
            assert(had[k - 1] == line[origin[k - 1]]);
        }
    }
    assert forall|k: int, l: int| 0 <= k < l < kept.len() implies {
        &&& #[trigger] after[k] != #[trigger] after[l]
        &&& kept[k].distance.place() == kept[l].distance.place() ==> after[k] < after[l]
    } by {
        let i = if k < at {
            k
        } else {
            k - 1
        };
        let j = if l < at {
            l
        } else {
            l - 1
        };
        if k != at && l != at {
            assert(origin[i] != origin[j]);
        } else if k == at {
            assert(had[j].distance.place() > candidate.1.place());
            assert(0 <= origin[j] < n);
        } else {
            assert(0 <= origin[i] < n);
        }
    }
    after
}

/// Putting candidates into a beam is fair: where distances are equal, entries come before
/// candidates, and these in the order in which they were put in. `origin` says where in
/// the line each entry of the beam comes from.
pub proof fn law_beam_is_fair(
    entries: Seq<Entry>,
    candidates: Seq<(u32, Distance)>,
    capacity: int,
) -> (origin: Seq<int>)
    requires
        is_sorted(entries),
        0 <= capacity,
        entries.len() <= capacity,
    ensures
        is_taken_from(
            inserted_all(entries, candidates, capacity),
            in_line(entries, candidates),
            origin,
        ),
    decreases candidates.len(),
{
    let line = in_line(entries, candidates);
    if candidates.len() == 0 {
        assert(line =~= entries);
        Seq::new(entries.len(), |k: int| k)
    } else {
        let before = candidates.drop_last();
        let last = candidates.last();
        let origin = law_beam_is_fair(entries, before, capacity);
        lemma_inserted_all(entries, before, capacity);
        assert(in_line(entries, before).push(fresh(last)) =~= line);
        lemma_taken_after(
            inserted_all(entries, before, capacity),
            in_line(entries, before),
            origin,
            last,
            capacity,
        )
    }
}

} // verus!
