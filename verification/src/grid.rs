//! The spatial index: a uniform grid of square cells, each holding the agents
//! that were last recorded in it.
//!
//! A query over-approximates: it returns every agent recorded in a rectangle of
//! cells that covers the disc asked for, and callers test exact distances. The
//! index may lag behind the agents' true positions by one tick.

use vstd::prelude::*;
use vstd::seq_lib::seq_to_set_distributes_over_add;
use crate::fixed::ceil_div;
use crate::fixed::floor_div;
use crate::fixed::within;
use crate::fixed::Vec2;
use crate::tables::cell_of_entries;
use crate::tables::cell_table_entries;
use crate::tables::Cell;
use crate::tables::CellOf;
use crate::tables::CellTable;
use crate::tables::IdSet;

verus! {

/// Identifies an agent: its slot in the agent store.
pub type AgentId = usize;

/// Side length of a grid cell, in thousandths of a world unit.
pub const CHUNK_RESOLUTION: i32 = 20_000;

/// The row or column of the cell that holds coordinate `c`.
pub open spec fn cell_coordinate(c: int) -> int {
    floor_div(c, CHUNK_RESOLUTION as int)
}

/// The cell that holds a position: its row comes from `y`, its column from `x`.
pub open spec fn cell_at(position: Vec2) -> Cell {
    (cell_coordinate(position.y as int) as i32, cell_coordinate(position.x as int) as i32)
}

/// The number of cells by which a query extends past its first row and column.
pub open spec fn cell_span(radius: int) -> int {
    ceil_div(2 * radius, CHUNK_RESOLUTION as int)
}

/// Whether a query around `position` with `radius` visits `cell`: rows and
/// columns run from the cell of the corner `position - radius` over the span of
/// the radius.
pub open spec fn visits(position: Vec2, radius: int, cell: Cell) -> bool {
    &&& cell_coordinate(position.y - radius) <= cell.0 <= cell_coordinate(position.y - radius)
        + cell_span(radius)
    &&& cell_coordinate(position.x - radius) <= cell.1 <= cell_coordinate(position.x - radius)
        + cell_span(radius)
}

/// The agents that a query around `position` with `radius` returns from an
/// index with the records `records`.
pub open spec fn nearby(records: Map<AgentId, Cell>, position: Vec2, radius: int) -> Set<AgentId> {
    Set::new(|id: AgentId| records.dom().contains(id) && visits(position, radius, records[id]))
}

/// `candidates` is an answer that a query around `position` with `radius` may
/// give: the agents it returns, each once, in some order.
pub open spec fn is_answer(
    records: Map<AgentId, Cell>,
    position: Vec2,
    radius: int,
    candidates: Seq<AgentId>,
) -> bool {
    candidates.no_duplicates() && candidates.to_set() == nearby(records, position, radius)
}

/// The agents recorded in `cell`.
pub open spec fn occupants(records: Map<AgentId, Cell>, cell: Cell) -> Set<AgentId> {
    Set::new(|id: AgentId| records.dom().contains(id) && records[id] == cell)
}

/// The records after agent `id` was seen at `position`.
pub open spec fn recorded(records: Map<AgentId, Cell>, id: AgentId, position: Vec2) -> Map<
    AgentId,
    Cell,
> {
    records.insert(id, cell_at(position))
}

/// The part of a query's rectangle that lies before row `i`, or in row `i`
/// before column `j`.
pub open spec fn visited_before(position: Vec2, radius: int, i: int, j: int, cell: Cell) -> bool {
    visits(position, radius, cell) && (cell.0 < i || (cell.0 == i && cell.1 < j))
}

/// The row or column of the cell that holds coordinate `c`.
pub fn chunk_of(c: i64) -> (k: i32)
    requires
        -0x1_0000_0000 <= c <= 0x1_0000_0000,
    ensures
        k == cell_coordinate(c as int),
        -214749 <= k <= 214749,
{
    let q: i64 = c / (CHUNK_RESOLUTION as i64);
    let r: i64 = c % (CHUNK_RESOLUTION as i64);
    if r < 0 {
        (q - 1) as i32
    } else {
        q as i32
    }
}

/// The number of cells that a radius spans.
pub fn chunk_span(radius: i64) -> (k: i64)
    ensures
        k == cell_span(radius as int),
{
    let n: i128 = 2 * (radius as i128);
    let q: i128 = n / (CHUNK_RESOLUTION as i128);
    let r: i128 = n % (CHUNK_RESOLUTION as i128);
    if r > 0 {
        (q + 1) as i64
    } else {
        q as i64
    }
}

/// The cell that holds a position.
pub fn cell_of(position: Vec2) -> (cell: Cell)
    ensures
        cell == cell_at(position),
{
    (chunk_of(position.y as i64), chunk_of(position.x as i64))
}

/// The spatial index.
#[derive(Debug)]
pub struct HashGrid {
    grid: CellTable,
    associations: CellOf,
}

impl View for HashGrid {
    type V = Map<AgentId, Cell>;

    /// The cell recorded for each agent.
    closed spec fn view(&self) -> Map<AgentId, Cell> {
        cell_of_entries(self.associations)
    }
}

impl HashGrid {
    /// Every recorded agent is in the bucket of its cell and in no other, and
    /// no bucket is empty.
    pub closed spec fn wf(&self) -> bool {
        let cells = cell_table_entries(self.grid);
        let records = cell_of_entries(self.associations);
        &&& forall|id: AgentId| #[trigger]
            records.dom().contains(id) ==> cells.dom().contains(records[id])
        &&& forall|c: Cell| #[trigger]
            cells.dom().contains(c) ==> cells[c] == occupants(records, c)
        &&& forall|c: Cell| #[trigger]
            cells.dom().contains(c) ==> cells[c] != Set::<AgentId>::empty()
    }

    /// An index without records.
    pub fn new() -> (g: HashGrid)
        ensures
            g.wf(),
            g@ == Map::<AgentId, Cell>::empty(),
    {
        HashGrid { grid: CellTable::empty(), associations: CellOf::empty() }
    }

    /// The cell recorded for an agent, if it has one.
    pub fn cell_of_entity(&self, id: AgentId) -> (cell: Option<Cell>)
        ensures
            cell == (if self@.dom().contains(id) {
                Some(self@[id])
            } else {
                None
            }),
    {
        self.associations.get(id)
    }

    /// Takes `id` out of the bucket of `cell` and prunes the bucket if nothing
    /// is left in it.
    fn unlink(&mut self, id: AgentId, cell: Cell)
        ensures
            final(self).associations == old(self).associations,
            cell_table_entries(final(self).grid) == (if cell_table_entries(
                old(self).grid,
            ).dom().contains(cell) && cell_table_entries(old(self).grid)[cell].remove(id)
                != Set::<AgentId>::empty() {
                cell_table_entries(old(self).grid).insert(
                    cell,
                    cell_table_entries(old(self).grid)[cell].remove(id),
                )
            } else {
                cell_table_entries(old(self).grid).remove(cell)
            }),
    {
        match self.grid.take(cell) {
            Some(bucket) => {
                let mut bucket = bucket;
                bucket.remove(id);
                if !bucket.is_empty() {
                    self.grid.put(cell, bucket);
                }
            },
            None => {},
        }
    }

    /// Puts `id` into the bucket of `cell`, which is made if it is missing.
    fn link(&mut self, id: AgentId, cell: Cell)
        ensures
            final(self).associations == old(self).associations,
            cell_table_entries(final(self).grid) == cell_table_entries(old(self).grid).insert(
                cell,
                (if cell_table_entries(old(self).grid).dom().contains(cell) {
                    cell_table_entries(old(self).grid)[cell]
                } else {
                    Set::<AgentId>::empty()
                }).insert(id),
            ),
    {
        let mut bucket = match self.grid.take(cell) {
            Some(bucket) => bucket,
            None => IdSet::empty(),
        };
        bucket.insert(id);
        self.grid.put(cell, bucket);
    }

    /// Records that agent `id` is at `position`. Where the agent is already
    /// recorded in the cell of that position, nothing changes; otherwise it
    /// leaves its old bucket, which is pruned if it becomes empty, and enters
    /// the bucket of the new cell.
    pub fn update_entity(&mut self, id: AgentId, position: Vec2)
        requires
            old(self).wf(),
        ensures
            final(self).wf(),
            final(self)@ == recorded(old(self)@, id, position),
            old(self)@.dom().contains(id) && old(self)@[id] == cell_at(position) ==> *final(self)
                == *old(self),
    {
        let cell = cell_of(position);
        let ghost records = cell_of_entries(self.associations);
        let ghost cells = cell_table_entries(self.grid);
        match self.associations.get(id) {
            Some(old_cell) => {
                if old_cell.0 == cell.0 && old_cell.1 == cell.1 {
                    return ;
                }
                self.unlink(id, old_cell);
            },
            None => {},
        }
        self.link(id, cell);
        self.associations.insert(id, cell);
        proof {
            let after = cell_of_entries(self.associations);
            let now = cell_table_entries(self.grid);
            assert forall|c: Cell| #[trigger] now.dom().contains(c) implies now[c] == occupants(
                after,
                c,
            ) && now[c] != Set::<AgentId>::empty() by {
                if c == cell {
                    assert(now[c].contains(id));
                }
            }
            assert forall|other: AgentId| #[trigger]
                after.dom().contains(other) implies now.dom().contains(after[other]) by {
                if other != id {
                    let c = records[other];
                    if c != cell {
                        assert(cells[c].remove(id).contains(other));
                    }
                }
            }
        }
    }

    /// Drops the record of agent `id`, if there is one, and prunes its bucket
    /// if it becomes empty.
    pub fn remove_entity(&mut self, id: AgentId)
        requires
            old(self).wf(),
        ensures
            final(self).wf(),
            final(self)@ == old(self)@.remove(id),
    {
        let ghost records = cell_of_entries(self.associations);
        let ghost cells = cell_table_entries(self.grid);
        match self.associations.get(id) {
            Some(old_cell) => {
                self.unlink(id, old_cell);
                self.associations.remove(id);
                proof {
                    let after = cell_of_entries(self.associations);
                    let now = cell_table_entries(self.grid);
                    assert forall|c: Cell| #[trigger] now.dom().contains(c) implies now[c]
                        == occupants(after, c) && now[c] != Set::<AgentId>::empty() by {}
                    assert forall|other: AgentId| #[trigger]
                        after.dom().contains(other) implies now.dom().contains(after[other]) by {
                        let c = records[other];
                        assert(cells[c].remove(id).contains(other));
                    }
                }
            },
            None => {},
        }
    }

    /// The agents recorded in the cells that a query around `position` with
    /// `radius` visits, each once, in an order that is not fixed.
    pub fn get_nearby_entities(&self, position: Vec2, radius: i64) -> (result: Vec<AgentId>)
        requires
            self.wf(),
        ensures
            is_answer(self@, position, radius as int, result@),
    {
        let mut result: Vec<AgentId> = Vec::new();
        let i_begin: i128 = wide_chunk_of(position.y as i128 - radius as i128);
        let j_begin: i128 = wide_chunk_of(position.x as i128 - radius as i128);
        let span: i128 = chunk_span(radius) as i128;
        let i_end: i128 = i_begin + span;
        let j_end: i128 = j_begin + span;
        // Cells are named by 32-bit numbers: no other row or column holds a
        // record.
        let i_low: i64 = first_index(i_begin);
        let i_high: i64 = last_index(i_end);
        let j_low: i64 = first_index(j_begin);
        let j_high: i64 = last_index(j_end);
        let ghost records = self@;
        let ghost r = radius as int;
        let mut i: i64 = i_low;
        while i <= i_high
            invariant
                self.wf(),
                records == self@,
                r == radius as int,
                i_begin == cell_coordinate(position.y - r),
                j_begin == cell_coordinate(position.x - r),
                i_end == i_begin + cell_span(r),
                j_end == j_begin + cell_span(r),
                i_low == held(i_begin as int, i32::MIN as int, i32::MAX + 1),
                j_low == held(j_begin as int, i32::MIN as int, i32::MAX + 1),
                i_high == held(i_end as int, i32::MIN - 1, i32::MAX as int),
                j_high == held(j_end as int, i32::MIN - 1, i32::MAX as int),
                i_low <= i,
                i <= i_high + 1 || i == i_low,
                result@.no_duplicates(),
                result@.to_set() == Set::new(
                    |id: AgentId|
                        records.dom().contains(id) && visited_before(
                            position,
                            r,
                            i as int,
                            j_low as int,
                            records[id],
                        ),
                ),
            decreases i_high + 1 - i,
        {
            let mut j: i64 = j_low;
            while j <= j_high
                invariant
                    self.wf(),
                    records == self@,
                    r == radius as int,
                    i_begin == cell_coordinate(position.y - r),
                    j_begin == cell_coordinate(position.x - r),
                    i_end == i_begin + cell_span(r),
                    j_end == j_begin + cell_span(r),
                    i_low == held(i_begin as int, i32::MIN as int, i32::MAX + 1),
                    j_low == held(j_begin as int, i32::MIN as int, i32::MAX + 1),
                    i_high == held(i_end as int, i32::MIN - 1, i32::MAX as int),
                    j_high == held(j_end as int, i32::MIN - 1, i32::MAX as int),
                    i_low <= i <= i_high,
                    j_low <= j,
                    j <= j_high + 1 || j == j_low,
                    result@.no_duplicates(),
                    result@.to_set() == Set::new(
                        |id: AgentId|
                            records.dom().contains(id) && visited_before(
                                position,
                                r,
                                i as int,
                                j as int,
                                records[id],
                            ),
                    ),
                decreases j_high + 1 - j,
            {
                let ghost before = result@;
                match self.grid.get((i as i32, j as i32)) {
                    Some(bucket) => {
                        let mut ids = bucket.to_vec();
                        let ghost found = ids@;
                        result.append(&mut ids);
                        proof {
                            assert forall|a: int, b: int|
                                0 <= a < before.len() && 0 <= b < found.len() implies before[a]
                                != found[b] by {
                                assert(before.to_set().contains(before[a]));
                                assert(found.to_set().contains(found[b]));
                            }
                            seq_to_set_distributes_over_add(before, found);
                            assert(result@.to_set() =~= Set::new(
                                |id: AgentId|
                                    records.dom().contains(id) && visited_before(
                                        position,
                                        r,
                                        i as int,
                                        j + 1,
                                        records[id],
                                    ),
                            ));
                        }
                    },
                    None => {
                        proof {
                            assert forall|id: AgentId| records.dom().contains(id) implies records[id]
                                != (i as i32, j as i32) by {
                                assert(cell_table_entries(self.grid).dom().contains(records[id]));
                            }
                            assert(result@.to_set() =~= Set::new(
                                |id: AgentId|
                                    records.dom().contains(id) && visited_before(
                                        position,
                                        r,
                                        i as int,
                                        j + 1,
                                        records[id],
                                    ),
                            ));
                        }
                    },
                }
                j = j + 1;
            }
            proof {
                assert(result@.to_set() =~= Set::new(
                    |id: AgentId|
                        records.dom().contains(id) && visited_before(
                            position,
                            r,
                            i + 1,
                            j_low as int,
                            records[id],
                        ),
                ));
            }
            i = i + 1;
        }
        proof {
            assert(result@.to_set() =~= nearby(records, position, r));
        }
        result
    }
}

/// `k`, held between `low` and `high`.
pub open spec fn held(k: int, low: int, high: int) -> int {
    if k < low {
        low
    } else if k > high {
        high
    } else {
        k
    }
}

/// The first row or column that a range from `begin` can hold a record in.
fn first_index(begin: i128) -> (k: i64)
    ensures
        k == held(begin as int, i32::MIN as int, i32::MAX + 1),
{
    if begin < -0x8000_0000 {
        -0x8000_0000
    } else if begin > 0x8000_0000 {
        0x8000_0000
    } else {
        begin as i64
    }
}

/// The last row or column that a range up to `end` can hold a record in.
fn last_index(end: i128) -> (k: i64)
    ensures
        k == held(end as int, i32::MIN - 1, i32::MAX as int),
{
    if end > 0x7fff_ffff {
        0x7fff_ffff
    } else if end < -0x8000_0001 {
        -0x8000_0001
    } else {
        end as i64
    }
}

/// The row or column of the cell that holds coordinate `c`, for a coordinate
/// that may lie a radius outside the range of positions.
fn wide_chunk_of(c: i128) -> (k: i128)
    requires
        -0x1_0000_0000_0000_0000 <= c <= 0x1_0000_0000_0000_0000,
    ensures
        k == cell_coordinate(c as int),
{
    let q: i128 = c / (CHUNK_RESOLUTION as i128);
    let r: i128 = c % (CHUNK_RESOLUTION as i128);
    if r < 0 {
        q - 1
    } else {
        q
    }
}

/// No false negatives: an agent that is recorded in the cell of its position
/// `at`, and lies within `radius` of `position`, is among the agents that a
/// query around `position` with `radius` returns.
pub proof fn lemma_no_false_negatives(
    records: Map<AgentId, Cell>,
    id: AgentId,
    at: Vec2,
    position: Vec2,
    radius: int,
)
    requires
        records.dom().contains(id),
        records[id] == cell_at(at),
        within(position, at, radius),
    ensures
        nearby(records, position, radius).contains(id),
{
    let dx = position.x - at.x;
    let dy = position.y - at.y;
    assert(dx * dx >= 0 && dy * dy >= 0) by (nonlinear_arith);
    assert(-radius <= dx <= radius && -radius <= dy <= radius) by (nonlinear_arith)
        requires
            dx * dx + dy * dy <= radius * radius,
            radius >= 0,
    ;
}

/// Recording an agent twice at one position is recording it once.
pub proof fn lemma_update_idempotent(records: Map<AgentId, Cell>, id: AgentId, position: Vec2)
    ensures
        recorded(records, id, position).dom().contains(id),
        recorded(records, id, position)[id] == cell_at(position),
        recorded(recorded(records, id, position), id, position) == recorded(records, id, position),
{
}

} // verus!
