//! Collections of entities with unique identifiers.
//!
//! An [`Arena`] keeps its rows in insertion order and registers the
//! identifier of each row in a `typed_index_collection::CollectionWithId`,
//! which answers membership questions and refuses duplicates.

use crate::objects::Identified;
use typed_index_collection::{CollectionWithId, Id};
use vstd::prelude::*;

verus! {

/// `typed_index_collection::CollectionWithId`, opaque to the verifier.
#[verifier::external_type_specification]
#[verifier::external_body]
#[verifier::reject_recursive_types(T)]
pub struct ExCollectionWithId<T>(CollectionWithId<T>);

/// The entry under which an arena registers a row in its identifier index.
#[derive(Debug)]
pub struct Key {
    id: String,
}

impl Id<Key> for Key {
    fn id(&self) -> (id: &str)
        ensures
            id@ == self.key(),
    {
        self.id.as_str()
    }

    fn set_id(&mut self, id: String)
        ensures
            final(self).key() == id@,
    {
        self.id = id;
    }
}

impl Key {
    /// The identifier that the entry registers.
    pub closed spec fn key(&self) -> Seq<char> {
        self.id@
    }
}

/// The identifiers that an identifier index holds, in the order in which
/// its entries are stored.
pub uninterp spec fn indexed_ids(index: CollectionWithId<Key>) -> Seq<Seq<char>>;

/// The character sequences of a list of strings.
pub open spec fn texts(strings: Seq<String>) -> Seq<Seq<char>> {
    strings.map_values(|s: String| s@)
}

/// The predicate "is not one of `listed`" on identifiers.
pub open spec fn unlisted(listed: Seq<Seq<char>>) -> spec_fn(Seq<char>) -> bool {
    |id: Seq<char>| !listed.contains(id)
}

/// The predicate "its identifier is not one of `listed`" on rows.
pub open spec fn row_unlisted<T: Identified>(listed: Seq<Seq<char>>) -> spec_fn(T) -> bool {
    |row: T| !listed.contains(row.key())
}

/// The identifiers of a sequence of rows.
pub open spec fn keys<T: Identified>(rows: Seq<T>) -> Seq<Seq<char>> {
    rows.map_values(|row: T| row.key())
}

/// `CollectionWithId::default`: the index that comes back is empty.
#[verifier::external_body]
fn index_new() -> (index: CollectionWithId<Key>)
    ensures
        indexed_ids(index) == Seq::<Seq<char>>::empty(),
{
    CollectionWithId::default()
}

/// `CollectionWithId::contains_id`: whether an entry of the index has the
/// identifier `id`.
#[verifier::external_body]
fn index_contains(index: &CollectionWithId<Key>, id: &str) -> (found: bool)
    ensures
        found == indexed_ids(*index).contains(id@),
{
    index.contains_id(id)
}

/// `CollectionWithId::push`: an identifier that the index does not hold yet
/// is appended after the others; one that it holds is refused, and the index
/// stays as it was.
#[verifier::external_body]
fn index_push(index: &mut CollectionWithId<Key>, id: String) -> (added: bool)
    ensures
        added == !indexed_ids(*old(index)).contains(id@),
        added ==> indexed_ids(*final(index)) == indexed_ids(*old(index)).push(id@),
        !added ==> indexed_ids(*final(index)) == indexed_ids(*old(index)),
{
    index.push(Key { id }).is_ok()
}

/// `CollectionWithId::retain`, keeping the entries whose identifier is not
/// in `listed`: the others leave, and those that stay keep their order.
#[verifier::external_body]
fn index_retain_unlisted(index: &mut CollectionWithId<Key>, listed: &Vec<String>)
    ensures
        indexed_ids(*final(index)) == indexed_ids(*old(index)).filter(unlisted(texts(listed@))),
{
    index.retain(|key| is_unlisted(listed, &key.id))
}

/// Whether `id` is one of `listed`.
pub fn is_listed(listed: &Vec<String>, id: &String) -> (found: bool)
    ensures
        found == texts(listed@).contains(id@),
{
    let mut i: usize = 0;
    while i < listed.len()
        invariant
            i <= listed.len(),
            forall|j: int| 0 <= j < i ==> texts(listed@)[j] != id@,
        decreases listed.len() - i,
    {
        if listed[i] == *id {
            assert(texts(listed@)[i as int] == id@);
            return true;
        }
        i += 1;
    }
    false
}

/// Whether `id` is none of `listed`.
pub fn is_unlisted(listed: &Vec<String>, id: &String) -> (kept: bool)
    ensures
        kept == unlisted(texts(listed@))(id@),
{
    !is_listed(listed, id)
}

/// Filtering and then mapping gives what mapping and then filtering
/// gives, where the two predicates agree through the mapping.
pub proof fn lemma_filter_then_map<A, B>(
    s: Seq<A>,
    f: spec_fn(A) -> B,
    keep: spec_fn(A) -> bool,
    keep_mapped: spec_fn(B) -> bool,
)
    requires
        forall|a: A| #[trigger] keep(a) == keep_mapped(f(a)),
    ensures
        s.filter(keep).map_values(f) == s.map_values(f).filter(keep_mapped),
    decreases s.len(),
{
    reveal(Seq::filter);
    if s.len() > 0 {
        let rest = s.drop_last();
        lemma_filter_then_map(rest, f, keep, keep_mapped);
        assert(s.map_values(f).drop_last() == rest.map_values(f));
        assert(s.map_values(f).last() == f(s.last()));
        if keep(s.last()) {
            assert(rest.filter(keep).push(s.last()).map_values(f) == rest.filter(keep).map_values(
                f,
            ).push(f(s.last())));
        }
    } else {
        assert(s.filter(keep).map_values(f) == Seq::<B>::empty());
    }
}

/// Filtering rows by identifier and then taking the identifiers gives what
/// taking the identifiers and then filtering them gives.
pub proof fn lemma_keys_of_unlisted<T: Identified>(rows: Seq<T>, listed: Seq<Seq<char>>)
    ensures
        keys(rows.filter(row_unlisted(listed))) == keys(rows).filter(unlisted(listed)),
{
    lemma_filter_then_map(
        rows,
        |row: T| row.key(),
        row_unlisted::<T>(listed),
        unlisted(listed),
    );
}

/// What a filter keeps of a sequence without duplicates has none either.
pub proof fn lemma_filter_keeps_distinct<A>(s: Seq<A>, pred: spec_fn(A) -> bool)
    requires
        s.no_duplicates(),
    ensures
        s.filter(pred).no_duplicates(),
    decreases s.len(),
{
    reveal(Seq::filter);
    if s.len() > 0 {
        let rest = s.drop_last();
        lemma_filter_keeps_distinct(rest, pred);
        if pred(s.last()) {
            let kept = rest.filter(pred);
            if kept.contains(s.last()) {
                rest.lemma_filter_contains_rev(pred, s.last());
                let j = choose|j: int| 0 <= j < rest.len() && rest[j] == s.last();
                assert(s[j] == s[s.len() - 1]);
            }
        }
    }
}

/// A sequence without duplicates still has none after an element that it
/// does not hold is appended.
pub proof fn lemma_push_keeps_distinct<A>(s: Seq<A>, x: A)
    requires
        s.no_duplicates(),
        !s.contains(x),
    ensures
        s.push(x).no_duplicates(),
{
    let t = s.push(x);
    assert forall|a: int, b: int| 0 <= a < t.len() && 0 <= b < t.len() && a != b implies t[a]
        != t[b] by {
        if a == s.len() {
            assert(s[b] != x);
        } else if b == s.len() {
            assert(s[a] != x);
        } else {
            assert(s[a] != s[b]);
        }
    }
}

/// Whether the identifier at `at` is the first of `ids` that repeats an
/// earlier one.
pub open spec fn first_repeat(ids: Seq<Seq<char>>, at: int) -> bool {
    &&& 0 <= at < ids.len()
    &&& ids.take(at).no_duplicates()
    &&& ids.take(at).contains(ids[at])
}

/// A collection of entities of one type, in insertion order, in which no
/// identifier occurs twice.
#[derive(Debug)]
pub struct Arena<T> {
    rows: Vec<T>,
    index: CollectionWithId<Key>,
}

impl<T> View for Arena<T> {
    type V = Seq<T>;

    closed spec fn view(&self) -> Seq<T> {
        self.rows@
    }
}

impl<T: Identified> Arena<T> {
    /// The identifiers of the rows, in order.
    pub open spec fn ids(&self) -> Seq<Seq<char>> {
        keys(self@)
    }

    /// The index holds the identifiers of the rows, and no identifier occurs
    /// twice.
    pub closed spec fn wf(&self) -> bool {
        &&& indexed_ids(self.index) == keys(self.rows@)
        &&& keys(self.rows@).no_duplicates()
    }

    /// In a well-formed arena no identifier occurs twice.
    pub proof fn lemma_distinct_ids(&self)
        requires
            self.wf(),
        ensures
            self.ids().no_duplicates(),
    {
    }

    /// An arena without rows.
    pub fn new() -> (arena: Self)
        ensures
            arena.wf(),
            arena@ == Seq::<T>::empty(),
    {
        let arena = Arena { rows: Vec::new(), index: index_new() };
        assert(keys(arena.rows@) == Seq::<Seq<char>>::empty());
        arena
    }

    /// The arena of the given rows, in their order. Where an identifier occurs
    /// twice, the first one that repeats an earlier one comes back instead.
    pub fn from_rows(rows: Vec<T>) -> (made: Result<Self, String>)
        ensures
            made is Ok <==> keys(rows@).no_duplicates(),
            made matches Ok(arena) ==> arena.wf() && arena@ == rows@,
            made matches Err(id) ==> exists|at: int|
                #[trigger] first_repeat(keys(rows@), at) && keys(rows@)[at] == id@,
    {
        let mut index = index_new();
        let mut i: usize = 0;
        while i < rows.len()
            invariant
                i <= rows.len(),
                indexed_ids(index) == keys(rows@).take(i as int),
                keys(rows@).take(i as int).no_duplicates(),
            decreases rows.len() - i,
        {
            let id = rows[i].id().clone();
            let ghost before = indexed_ids(index);
            let added = index_push(&mut index, id);
            if !added {
                proof {
                    assert(first_repeat(keys(rows@), i as int));
                    let j = choose|j: int|
                        0 <= j < before.len() && before[j] == rows@[i as int].key();
                    assert(keys(rows@)[j] == keys(rows@)[i as int]);
                }
                return Err(rows[i].id().clone());
            }
            proof {
                assert(keys(rows@).take(i + 1) == keys(rows@).take(i as int).push(
                    rows@[i as int].key(),
                ));
                lemma_push_keeps_distinct(before, rows@[i as int].key());
            }
            i += 1;
        }
        assert(keys(rows@).take(i as int) == keys(rows@));
        Ok(Arena { rows, index })
    }

    /// The number of rows.
    pub fn len(&self) -> (n: usize)
        ensures
            n == self@.len(),
    {
        self.rows.len()
    }

    /// The row at `position`.
    pub fn get(&self, position: usize) -> (row: &T)
        requires
            position < self@.len(),
        ensures
            *row == self@[position as int],
    {
        &self.rows[position]
    }

    /// The rows, in order.
    pub fn rows(&self) -> (rows: &Vec<T>)
        ensures
            rows@ == self@,
    {
        &self.rows
    }

    /// Whether a row has the identifier `id`.
    pub fn contains_id(&self, id: &str) -> (found: bool)
        requires
            self.wf(),
        ensures
            found == self.ids().contains(id@),
    {
        index_contains(&self.index, id)
    }

    /// Appends `row`, unless its identifier is taken: then the arena stays as
    /// it was and the row comes back.
    pub fn push(&mut self, row: T) -> (refused: Option<T>)
        requires
            old(self).wf(),
        ensures
            final(self).wf(),
            refused is Some <==> old(self).ids().contains(row.key()),
            refused matches Some(back) ==> back == row && final(self)@ == old(self)@,
            refused is None ==> final(self)@ == old(self)@.push(row),
    {
        let id = row.id().clone();
        let ghost before = keys(self.rows@);
        let added = index_push(&mut self.index, id);
        if added {
            self.rows.push(row);
            proof {
                assert(keys(self.rows@) == before.push(row.key()));
                lemma_push_keeps_distinct(before, row.key());
            }
            None
        } else {
            Some(row)
        }
    }

    /// Removes the rows whose identifier is one of `listed`; the others keep
    /// their order.
    pub fn remove_ids(&mut self, listed: &Vec<String>)
        requires
            old(self).wf(),
        ensures
            final(self).wf(),
            final(self)@ == old(self)@.filter(row_unlisted(texts(listed@))),
    {
        let ghost before = self.rows@;
        let ghost pred = row_unlisted::<T>(texts(listed@));
        index_retain_unlisted(&mut self.index, listed);
        let mut kept: usize = 0;
        let mut seen: Ghost<int> = Ghost(0);
        while kept < self.rows.len()
            invariant
                0 <= seen@ <= before.len(),
                kept <= self.rows@.len(),
                self.rows@.take(kept as int) == before.take(seen@).filter(pred),
                self.rows@.skip(kept as int) == before.skip(seen@),
                pred == row_unlisted::<T>(texts(listed@)),
                indexed_ids(self.index) == keys(before).filter(unlisted(texts(listed@))),
            decreases self.rows@.len() - kept,
        {
            proof {
                assert(self.rows@.skip(kept as int).len() == before.skip(seen@).len());
                assert(self.rows@[kept as int] == self.rows@.skip(kept as int)[0]);
                assert(before.skip(seen@)[0] == before[seen@]);
                assert(before.take(seen@ + 1) == before.take(seen@).push(before[seen@]));
                before.take(seen@).lemma_filter_push(before[seen@], pred);
            }
            let ghost current = self.rows@;
            if is_listed(listed, self.rows[kept].id()) {
                self.rows.remove(kept);
                proof {
                    assert(self.rows@.take(kept as int) == current.take(kept as int));
                    assert(self.rows@.skip(kept as int) == current.skip(kept as int).skip(1));
                    assert(before.skip(seen@).skip(1) == before.skip(seen@ + 1));
                }
            } else {
                proof {
                    assert(current.take(kept + 1) == current.take(kept as int).push(
                        current[kept as int],
                    ));
                    assert(current.skip(kept + 1) == current.skip(kept as int).skip(1));
                    assert(before.skip(seen@).skip(1) == before.skip(seen@ + 1));
                }
                kept += 1;
            }
            proof {
                seen@ = seen@ + 1;
            }
        }
        proof {
            assert(self.rows@.take(kept as int) == self.rows@);
            assert(self.rows@.skip(kept as int).len() == before.skip(seen@).len());
            assert(before.take(seen@) == before);
            lemma_keys_of_unlisted(before, texts(listed@));
            lemma_filter_keeps_distinct(keys(before), unlisted(texts(listed@)));
        }
    }

    /// Puts `row` in the place of the row at `position`, which has the same
    /// identifier.
    pub fn replace(&mut self, position: usize, row: T)
        requires
            old(self).wf(),
            position < old(self)@.len(),
            row.key() == old(self)@[position as int].key(),
        ensures
            final(self).wf(),
            final(self)@ == old(self)@.update(position as int, row),
    {
        let ghost before = self.rows@;
        self.rows[position] = row;
        assert(keys(self.rows@) == keys(before));
    }
}

} // verus!
