//! The reference index: for each entity that other entities refer to, the
//! positions of those that do.

use crate::collection::{keys, Arena};
use crate::objects::{Identified, Linked};
use vstd::prelude::*;

verus! {

/// The identifiers to which the rows refer, by position.
pub open spec fn links_of<P, D: Linked<P>>(rows: Seq<D>) -> Seq<Seq<char>> {
    rows.map_values(|row: D| Linked::<P>::link(&row))
}

/// The attributes of the rows other than their reference, by position.
pub open spec fn rests_of<P, D: Linked<P>>(rows: Seq<D>) -> Seq<Seq<Seq<char>>> {
    rows.map_values(|row: D| Linked::<P>::rest(&row))
}

/// The positions at which `links` holds `id`.
pub open spec fn referrers(links: Seq<Seq<char>>, id: Seq<char>) -> Set<int> {
    Set::new(|p: int| 0 <= p < links.len() && links[p] == id)
}

/// The positions that a list holds.
pub open spec fn position_set(positions: Seq<usize>) -> Set<int> {
    Set::new(|p: int| exists|j: int| 0 <= j < positions.len() && positions[j] == p)
}

/// The index of a store whose entities have the identifiers `ids` and
/// whose dependent entities refer to `links`: each identifier that is
/// referred to, with the positions that refer to it. An entity to which
/// nothing refers has no entry.
pub open spec fn reference_map(ids: Seq<Seq<char>>, links: Seq<Seq<char>>) -> Map<
    Seq<char>,
    Set<int>,
> {
    Map::new(
        |id: Seq<char>| ids.contains(id) && links.contains(id),
        |id: Seq<char>| referrers(links, id),
    )
}

/// An entry of a reference index.
#[derive(Debug)]
pub struct IndexEntry {
    id: String,
    positions: Vec<usize>,
}

/// A map from identifiers to sets of positions in a collection of
/// dependent entities.
#[derive(Debug)]
pub struct ReferenceIndex {
    entries: Vec<IndexEntry>,
}

/// Whether the entry at `at` is the first one for `id`.
pub closed spec fn first_entry(entries: Seq<IndexEntry>, id: Seq<char>, at: int) -> bool {
    &&& 0 <= at < entries.len()
    &&& entries[at].id@ == id
    &&& forall|e: int| 0 <= e < at ==> entries[e].id@ != id
}

impl View for ReferenceIndex {
    type V = Map<Seq<char>, Set<int>>;

    closed spec fn view(&self) -> Map<Seq<char>, Set<int>> {
        Map::new(
            |id: Seq<char>| exists|at: int| first_entry(self.entries@, id, at),
            |id: Seq<char>|
                position_set(
                    self.entries@[choose|at: int| first_entry(self.entries@, id, at)].positions@,
                ),
        )
    }
}

impl ReferenceIndex {
    /// Every position of the index is below `count`.
    pub open spec fn valid_for(&self, count: nat) -> bool {
        forall|id: Seq<char>, p: int|
            self@.dom().contains(id) && #[trigger] self@[id].contains(p) ==> 0 <= p < count
    }

    /// The index of `targets` and of the `dependents` that refer to them.
    pub fn build<P: Identified, D: Linked<P>>(targets: &Arena<P>, dependents: &Arena<D>) -> (index:
        Self)
        ensures
            index@ == reference_map(targets.ids(), links_of::<P, D>(dependents@)),
            index.valid_for(dependents@.len()),
    {
        let ghost ids = targets.ids();
        let ghost links = links_of::<P, D>(dependents@);
        let mut entries: Vec<IndexEntry> = Vec::new();
        let mut i: usize = 0;
        while i < targets.len()
            invariant
                i <= targets@.len(),
                ids == keys(targets@),
                links == links_of::<P, D>(dependents@),
                forall|e: int|
                    0 <= e < entries@.len() ==> ids.contains(#[trigger] entries@[e].id@)
                        && links.contains(entries@[e].id@) && position_set(entries@[e].positions@)
                        == referrers(links, entries@[e].id@),
                forall|j: int|
                    0 <= j < i && links.contains(#[trigger] ids[j]) ==> exists|e: int|
                        0 <= e < entries@.len() && #[trigger] entries@[e].id@ == ids[j],
            decreases targets@.len() - i,
        {
            let id = targets.get(i).id();
            let mut positions: Vec<usize> = Vec::new();
            let mut p: usize = 0;
            while p < dependents.len()
                invariant
                    p <= dependents@.len(),
                    links == links_of::<P, D>(dependents@),
                    id@ == ids[i as int],
                    position_set(positions@) == Set::new(
                        |q: int| 0 <= q < p && links[q] == id@,
                    ),
                decreases dependents@.len() - p,
            {
                let ghost before = positions@;
                if *Linked::<P>::linked_id(dependents.get(p)) == *id {
                    positions.push(p);
                    proof {
                        assert forall|q: int| #[trigger]
                            position_set(positions@).contains(q) == (0 <= q < p + 1 && links[q]
                                == id@) by {
                            if position_set(positions@).contains(q) {
                                let j = choose|j: int|
                                    0 <= j < positions@.len() && positions@[j] == q;
                                if j < before.len() {
                                    assert(before[j] == q);
                                    assert(position_set(before).contains(q));
                                }
                            }
                            if 0 <= q < p + 1 && links[q] == id@ {
                                if q == p {
                                    assert(positions@[before.len() as int] == q);
                                } else {
                                    assert(position_set(before).contains(q));
                                    let j = choose|j: int|
                                        0 <= j < before.len() && before[j] == q;
                                    assert(positions@[j] == q);
                                }
                            }
                        }
                    }
                }
                proof {
                    assert(position_set(positions@) =~= Set::new(
                        |q: int| 0 <= q < p + 1 && links[q] == id@,
                    ));
                }
                p += 1;
            }
            proof {
                assert(position_set(positions@) =~= referrers(links, id@));
            }
            if positions.len() > 0 {
                proof {
                    assert(position_set(positions@).contains(positions@[0] as int));
                    assert(links[positions@[0] as int] == id@);
                    assert(ids.contains(id@));
                }
                let ghost before = entries@;
                entries.push(IndexEntry { id: id.clone(), positions });
                proof {
                    assert forall|j: int|
                        0 <= j < i + 1 && links.contains(#[trigger] ids[j]) implies exists|e: int|
                        0 <= e < entries@.len() && #[trigger] entries@[e].id@ == ids[j] by {
                        if j < i {
                            let e = choose|e: int|
                                0 <= e < before.len() && #[trigger] before[e].id@ == ids[j];
                            assert(entries@[e].id@ == ids[j]);
                        } else {
                            assert(entries@[before.len() as int].id@ == ids[j]);
                        }
                    }
                }
            } else {
                proof {
                    if links.contains(id@) {
                        let q = choose|q: int| 0 <= q < links.len() && links[q] == id@;
                        assert(referrers(links, id@).contains(q));
                        assert(position_set(positions@).contains(q));
                    }
                }
            }
            i += 1;
        }
        let index = ReferenceIndex { entries };
        proof {
            let wanted = reference_map(ids, links);
            assert forall|id: Seq<char>| index@.dom().contains(id) == wanted.dom().contains(
                id,
            ) by {
                if index@.dom().contains(id) {
                    let at = choose|at: int| first_entry(index.entries@, id, at);
                    assert(ids.contains(index.entries@[at].id@));
                }
                if wanted.dom().contains(id) {
                    let j = choose|j: int| 0 <= j < ids.len() && ids[j] == id;
                    assert(links.contains(ids[j]));
                    let e = choose|e: int|
                        0 <= e < index.entries@.len() && #[trigger] index.entries@[e].id@
                            == ids[j];
                    lemma_first_entry(index.entries@, id, e);
                }
            }
            assert forall|id: Seq<char>| index@.dom().contains(id) implies index@[id]
                == wanted[id] by {
                let at = choose|at: int| first_entry(index.entries@, id, at);
                assert(position_set(index.entries@[at].positions@) == referrers(
                    links,
                    index.entries@[at].id@,
                ));
            }
            assert(index@ =~= wanted);
        }
        index
    }

    /// The positions that the index holds for `id`, in no stated order, if
    /// it has an entry for it.
    pub fn get(&self, id: &String) -> (found: Option<&Vec<usize>>)
        ensures
            found is Some <==> self@.dom().contains(id@),
            found matches Some(positions) ==> position_set(positions@) == self@[id@],
    {
        let mut e: usize = 0;
        while e < self.entries.len()
            invariant
                e <= self.entries@.len(),
                forall|k: int| 0 <= k < e ==> self.entries@[k].id@ != id@,
            decreases self.entries@.len() - e,
        {
            if self.entries[e].id == *id {
                proof {
                    assert(first_entry(self.entries@, id@, e as int));
                    let at = choose|at: int| first_entry(self.entries@, id@, at);
                    assert(at == e);
                }
                return Some(&self.entries[e].positions);
            }
            e += 1;
        }
        proof {
            if self@.dom().contains(id@) {
                let at = choose|at: int| first_entry(self.entries@, id@, at);
                assert(self.entries@[at].id@ == id@);
            }
        }
        None
    }
}

/// Where an entry has an identifier, a first entry has it.
proof fn lemma_first_entry(entries: Seq<IndexEntry>, id: Seq<char>, at: int)
    requires
        0 <= at < entries.len(),
        entries[at].id@ == id,
    ensures
        exists|first: int| first_entry(entries, id, first),
    decreases at,
{
    if exists|e: int| 0 <= e < at && entries[e].id@ == id {
        let e = choose|e: int| 0 <= e < at && entries[e].id@ == id;
        lemma_first_entry(entries, id, e);
    } else {
        assert(first_entry(entries, id, at));
    }
}

} // verus!
