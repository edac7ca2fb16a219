//! The hash collections of the engine's utility crate, as far as the simulation
//! uses them: `bevy::utils::HashMap` and `bevy::utils::HashSet`, which are the
//! `HashMap` and `HashSet` of `hashbrown` with the engine's hasher.
//!
//! Each collection is held opaquely, and what it holds has a name. The
//! operations that call into the collections carry no proof: each states over
//! those names what the documentation of `hashbrown` promises of the method it
//! calls, and is named after it. What is public of `IdSet` is verified on top
//! of them.

use vstd::prelude::*;

verus! {

/// A cell of the spatial grid: row, then column.
pub type Cell = (i32, i32);

/// A hash set of identifiers: `bevy::utils::HashSet<usize>`.
#[verifier::external_body]
#[derive(Debug)]
pub struct IdSet {
    inner: bevy::utils::HashSet<usize>,
}

/// The identifiers that an `IdSet` holds.
pub uninterp spec fn id_set_members(s: IdSet) -> Set<usize>;

/// The grid's buckets: `bevy::utils::HashMap<(i32, i32), IdSet>`.
#[verifier::external_body]
#[derive(Debug)]
pub struct CellTable {
    inner: bevy::utils::HashMap<(i32, i32), IdSet>,
}

/// The buckets that a `CellTable` holds, each by the identifiers in it.
pub uninterp spec fn cell_table_entries(t: CellTable) -> Map<Cell, Set<usize>>;

/// The cell recorded for each identifier:
/// `bevy::utils::HashMap<usize, (i32, i32)>`.
#[verifier::external_body]
#[derive(Debug)]
pub struct CellOf {
    inner: bevy::utils::HashMap<usize, (i32, i32)>,
}

/// The entries that a `CellOf` holds.
pub uninterp spec fn cell_of_entries(t: CellOf) -> Map<usize, Cell>;

impl IdSet {
    /// `HashSet::default`: a set that holds nothing.
    #[verifier::external_body]
    pub(crate) fn empty() -> (s: IdSet)
        ensures
            id_set_members(s) == Set::<usize>::empty(),
    {
        IdSet { inner: bevy::utils::HashSet::default() }
    }

    /// `HashSet::insert`: the value is in the set afterwards and nothing else
    /// changes; the result tells whether it was absent before.
    #[verifier::external_body]
    pub(crate) fn insert(&mut self, id: usize) -> (fresh: bool)
        ensures
            id_set_members(*final(self)) == id_set_members(*old(self)).insert(id),
            fresh == !id_set_members(*old(self)).contains(id),
    {
        self.inner.insert(id)
    }

    /// `HashSet::remove`: the value is not in the set afterwards and nothing
    /// else changes; the result tells whether it was present before.
    #[verifier::external_body]
    pub(crate) fn remove(&mut self, id: usize) -> (present: bool)
        ensures
            id_set_members(*final(self)) == id_set_members(*old(self)).remove(id),
            present == id_set_members(*old(self)).contains(id),
    {
        self.inner.remove(&id)
    }

    /// `HashSet::contains`: whether the value is in the set.
    #[verifier::external_body]
    pub(crate) fn contains(&self, id: usize) -> (present: bool)
        ensures
            present == id_set_members(*self).contains(id),
    {
        self.inner.contains(&id)
    }

    /// `HashSet::is_empty`: whether the set holds nothing.
    #[verifier::external_body]
    pub(crate) fn is_empty(&self) -> (none: bool)
        ensures
            none == (id_set_members(*self) == Set::<usize>::empty()),
    {
        self.inner.is_empty()
    }

    /// `HashSet::iter`, collected: every value of the set once, in an order
    /// that is not fixed.
    #[verifier::external_body]
    pub(crate) fn to_vec(&self) -> (ids: Vec<usize>)
        ensures
            ids@.no_duplicates(),
            ids@.to_set() == id_set_members(*self),
    {
        self.inner.iter().copied().collect()
    }
}

/// What other crates may do with an `IdSet`; verified against the operations
/// above.
impl IdSet {
    /// A set that holds nothing.
    pub fn new() -> (s: IdSet)
        ensures
            id_set_members(s) == Set::<usize>::empty(),
    {
        IdSet::empty()
    }

    /// Whether the set holds `id`.
    pub fn holds(&self, id: usize) -> (present: bool)
        ensures
            present == id_set_members(*self).contains(id),
    {
        self.contains(id)
    }

    /// Puts `id` into the set.
    pub fn put(&mut self, id: usize)
        ensures
            id_set_members(*final(self)) == id_set_members(*old(self)).insert(id),
    {
        self.insert(id);
    }
}

impl CellTable {
    /// `HashMap::default`: a map without entries.
    #[verifier::external_body]
    pub(crate) fn empty() -> (t: CellTable)
        ensures
            cell_table_entries(t) == (Map::<Cell, Set<usize>>::empty()),
    {
        CellTable { inner: bevy::utils::HashMap::default() }
    }

    /// `HashMap::get`: the bucket stored under the key, if there is one.
    #[verifier::external_body]
    pub(crate) fn get(&self, cell: Cell) -> (bucket: Option<&IdSet>)
        ensures
            bucket.is_some() == cell_table_entries(*self).dom().contains(cell),
            bucket matches Some(s) ==> id_set_members(*s) == cell_table_entries(*self)[cell],
    {
        self.inner.get(&cell)
    }

    /// `HashMap::remove`: the entry under the key leaves the map and its bucket
    /// is handed out; other entries stay.
    #[verifier::external_body]
    pub(crate) fn take(&mut self, cell: Cell) -> (bucket: Option<IdSet>)
        ensures
            cell_table_entries(*final(self)) == cell_table_entries(*old(self)).remove(cell),
            bucket.is_some() == cell_table_entries(*old(self)).dom().contains(cell),
            bucket matches Some(s) ==> id_set_members(s) == cell_table_entries(*old(self))[cell],
    {
        self.inner.remove(&cell)
    }

    /// `HashMap::insert`: the bucket is stored under the key, in place of an
    /// earlier one; other entries stay.
    #[verifier::external_body]
    pub(crate) fn put(&mut self, cell: Cell, bucket: IdSet)
        ensures
            cell_table_entries(*final(self)) == cell_table_entries(*old(self)).insert(
                cell,
                id_set_members(bucket),
            ),
    {
        self.inner.insert(cell, bucket);
    }
}

impl CellOf {
    /// `HashMap::default`: a map without entries.
    #[verifier::external_body]
    pub(crate) fn empty() -> (t: CellOf)
        ensures
            cell_of_entries(t) == (Map::<usize, Cell>::empty()),
    {
        CellOf { inner: bevy::utils::HashMap::default() }
    }

    /// `HashMap::get`: the cell stored under the key, if there is one.
    #[verifier::external_body]
    pub(crate) fn get(&self, id: usize) -> (cell: Option<Cell>)
        ensures
            cell.is_some() == cell_of_entries(*self).dom().contains(id),
            cell matches Some(c) ==> c == cell_of_entries(*self)[id],
    {
        self.inner.get(&id).copied()
    }

    /// `HashMap::insert`: the cell is stored under the key, in place of an
    /// earlier one; other entries stay.
    #[verifier::external_body]
    pub(crate) fn insert(&mut self, id: usize, cell: Cell)
        ensures
            cell_of_entries(*final(self)) == cell_of_entries(*old(self)).insert(id, cell),
    {
        self.inner.insert(id, cell);
    }

    /// `HashMap::remove`: the entry under the key leaves the map; other entries
    /// stay.
    #[verifier::external_body]
    pub(crate) fn remove(&mut self, id: usize)
        ensures
            cell_of_entries(*final(self)) == cell_of_entries(*old(self)).remove(id),
    {
        self.inner.remove(&id);
    }
}

} // verus!
