//! A uniform grid over the plane that keeps neighbor queries local. The index is
//! rebuilt on every step, and a query looks at a bounded block of cells only.

use crate::binary32::bounds::lemma_one;
use crate::binary32::bounds::lemma_sign_of_units;
use crate::binary32::convert::into_range;
use crate::binary32::convert::one_unit;
use crate::binary32::num;
use crate::binary32::shares::lemma_quarter;
use crate::binary32::Binary32;
use crate::components::Node;
use crate::interface::vector::Vec2Lite;
use std::collections::HashMap;
use vstd::prelude::*;

verus! {

broadcast use vstd::std_specs::hash::group_hash_axioms;

/// Pattern of the side of a cell, 4.
pub const CELL_SIZE: u32 = 0x4080_0000;

/// A cell of the grid.
#[derive(Clone, Copy, Debug, PartialEq, Eq, Structural)]
pub struct Cell {
    pub x: i32,
    pub y: i32,
}

impl Cell {
    pub open spec fn from_pos_spec(pos: Vec2Lite) -> Cell {
        Cell {
            x: pos.x.over(num(CELL_SIZE)).floor_to_i32(),
            y: pos.y.over(num(CELL_SIZE)).floor_to_i32(),
        }
    }

    /// The cell of a position.
    #[verifier::when_used_as_spec(from_pos_spec)]
    pub fn from_pos(pos: Vec2Lite) -> (r: Cell)
        ensures
            r == Cell::from_pos_spec(pos),
    {
        Cell {
            x: pos.x.over(num(CELL_SIZE)).floor_to_i32(),
            y: pos.y.over(num(CELL_SIZE)).floor_to_i32(),
        }
    }

    /// The cell as one number, the columns one after the other.
    pub open spec fn key(self) -> u64 {
        ((self.x + 0x8000_0000) * 0x1_0000_0000 + (self.y + 0x8000_0000)) as u64
    }

    fn to_key(self) -> (r: u64)
        ensures
            r == self.key(),
    {
        (self.x as i64 + 0x8000_0000) as u64 * 0x1_0000_0000 + (self.y as i64 + 0x8000_0000) as u64
    }
}

/// Different cells have different numbers.
proof fn lemma_key_injective(a: Cell, b: Cell)
    ensures
        a.key() == b.key() ==> a == b,
{
}

/// The numbers of a list of entries whose position lies in the cell, in order.
pub open spec fn occupants(entries: Seq<(u64, Vec2Lite)>, cell: Cell) -> Seq<u64>
    decreases entries.len(),
{
    if entries.len() == 0 {
        Seq::empty()
    } else {
        let rest = occupants(entries.drop_last(), cell);
        if Cell::from_pos(entries.last().1) == cell {
            rest.push(entries.last().0)
        } else {
            rest
        }
    }
}

/// The cells that hold an entry, each once.
pub open spec fn cells_of(entries: Seq<(u64, Vec2Lite)>) -> Set<u64>
    decreases entries.len(),
{
    if entries.len() == 0 {
        Set::empty()
    } else {
        cells_of(entries.drop_last()).insert(Cell::from_pos(entries.last().1).key())
    }
}

/// Every node with its position.
pub open spec fn positions(nodes: Seq<Node>) -> Seq<(u64, Vec2Lite)> {
    nodes.map_values(|n: Node| (n.entity, n.position))
}

/// Who is in which cell.
#[derive(Debug)]
pub struct SpatialHash {
    cells: HashMap<u64, Vec<u64>>,
}

/// How many cells a radius reaches.
pub open spec fn reach_spec(radius: Binary32) -> i32 {
    radius.over(num(CELL_SIZE)).ceil_to_i32()
}

/// How many cells a radius reaches.
#[verifier::when_used_as_spec(reach_spec)]
pub fn reach(radius: Binary32) -> (r: i32)
    ensures
        r == reach_spec(radius),
{
    radius.over(num(CELL_SIZE)).ceil_to_i32()
}

/// Every cell within reach of the position can be numbered.
pub open spec fn reachable(pos: Vec2Lite, radius: Binary32) -> bool {
    let c = Cell::from_pos(pos);
    let n = reach(radius);
    &&& n > i32::MIN
    &&& n >= 0 ==> {
        &&& i32::MIN <= c.x - n && c.x + n <= i32::MAX
        &&& i32::MIN <= c.y - n && c.y + n <= i32::MAX
    }
}

/// Can every cell within reach of the position be numbered?
pub fn is_reachable(pos: Vec2Lite, radius: Binary32) -> (r: bool)
    ensures
        r == reachable(pos, radius),
{
    let c: Cell = Cell::from_pos(pos);
    let n: i32 = reach(radius);
    if n < 0 {
        return n > i32::MIN;
    }
    let (x, y, k): (i64, i64, i64) = (c.x as i64, c.y as i64, n as i64);
    i32::MIN as i64 <= x - k && x + k <= i32::MAX as i64 && i32::MIN as i64 <= y - k && y + k
        <= i32::MAX as i64
}

impl SpatialHash {
    /// Who is in the cell, in the order of the entries.
    pub closed spec fn bucket(self, cell: Cell) -> Seq<u64> {
        if self.cells@.contains_key(cell.key()) {
            self.cells@[cell.key()]@
        } else {
            Seq::empty()
        }
    }

    /// The cells that hold anyone.
    pub closed spec fn occupied(self) -> Set<u64> {
        self.cells@.dom()
    }

    /// The index lists exactly these entries.
    pub open spec fn lists(self, entries: Seq<(u64, Vec2Lite)>) -> bool {
        &&& forall|cell: Cell| #[trigger] self.bucket(cell) == occupants(entries, cell)
        &&& self.occupied() == cells_of(entries)
    }

    /// `n` cells upwards from `(x, y)`.
    pub open spec fn column(self, x: int, y: int, n: nat) -> Seq<u64>
        decreases n,
    {
        if n == 0 {
            Seq::empty()
        } else {
            self.column(x, y, (n - 1) as nat) + self.bucket(
                Cell { x: x as i32, y: (y + n - 1) as i32 },
            )
        }
    }

    /// `n` columns of `m` cells to the right of `(x, y)`.
    pub open spec fn block(self, x: int, y: int, n: nat, m: nat) -> Seq<u64>
        decreases n,
    {
        if n == 0 {
            Seq::empty()
        } else {
            self.block(x, y, (n - 1) as nat, m) + self.column(x + n - 1, y, m)
        }
    }

    /// What a query finds: everyone in the block of cells within reach, column
    /// by column.
    pub open spec fn found(self, pos: Vec2Lite, radius: Binary32) -> Seq<u64> {
        let c = Cell::from_pos(pos);
        let n = reach(radius);
        if n < 0 {
            Seq::empty()
        } else {
            self.block(c.x - n, c.y - n, (2 * n + 1) as nat, (2 * n + 1) as nat)
        }
    }

    /// An index of nobody.
    pub fn new() -> (r: SpatialHash)
        ensures
            r.lists(Seq::empty()),
    {
        let r: SpatialHash = SpatialHash { cells: HashMap::new() };
        assert forall|cell: Cell| #[trigger] r.bucket(cell) == occupants(Seq::empty(), cell) by {}
        assert(r.occupied() =~= cells_of(Seq::empty()));
        r
    }

    /// Rebuilds the index. Nothing of an earlier step stays.
    pub fn rebuild(&mut self, entries: &[(u64, Vec2Lite)])
        ensures
            final(self).lists(entries@),
    {
        self.cells.clear();
        let mut i: usize = 0;
        proof {
            assert forall|cell: Cell| #[trigger] self.bucket(cell) == occupants(
                entries@.take(0),
                cell,
            ) by {}
            assert(self.occupied() =~= cells_of(entries@.take(0)));
        }
        while i < entries.len()
            invariant
                i <= entries@.len(),
                self.lists(entries@.take(i as int)),
            decreases entries@.len() - i,
        {
            let ghost before = *self;
            let (entity, pos) = entries[i];
            let cell: Cell = Cell::from_pos(pos);
            let key: u64 = cell.to_key();
            let mut members: Vec<u64> = match self.cells.remove(&key) {
                Some(v) => v,
                None => Vec::new(),
            };
            assert(members@ == before.bucket(cell));
            members.push(entity);
            self.cells.insert(key, members);
            proof {
                assert(entries@.take(i + 1).drop_last() =~= entries@.take(i as int));
                assert(self.cells@ =~= before.cells@.insert(key, members));
                assert forall|c: Cell| #[trigger] self.bucket(c) == occupants(
                    entries@.take(i + 1),
                    c,
                ) by {
                    lemma_key_injective(c, cell);
                    assert(before.bucket(c) == occupants(entries@.take(i as int), c));
                }
                assert(self.occupied() =~= before.occupied().insert(key));
                assert(self.occupied() =~= cells_of(entries@.take(i + 1)));
            }
            i += 1;
        }
        assert(entries@.take(i as int) =~= entries@);
    }

    /// Rebuilds the index from every node of the table.
    pub fn rebuild_from_state(&mut self, nodes: &Vec<Node>)
        ensures
            final(self).lists(positions(nodes@)),
    {
        let mut entries: Vec<(u64, Vec2Lite)> = Vec::new();
        let mut i: usize = 0;
        while i < nodes.len()
            invariant
                i <= nodes@.len(),
                entries@ == positions(nodes@).take(i as int),
            decreases nodes@.len() - i,
        {
            entries.push((nodes[i].entity, nodes[i].position));
            assert(entries@ =~= positions(nodes@).take(i + 1));
            i += 1;
        }
        assert(entries@ =~= positions(nodes@));
        self.rebuild(entries.as_slice());
    }

    /// Collects everyone in the cells within reach of `radius`. The caller
    /// filters by distance.
    pub fn query_radius(&self, pos: Vec2Lite, radius: Binary32, out: &mut Vec<u64>)
        requires
            reachable(pos, radius),
        ensures
            final(out)@ == self.found(pos, radius),
    {
        out.clear();
        let n: i32 = reach(radius);
        if n < 0 {
            return;
        }
        let center: Cell = Cell::from_pos(pos);
        let (x0, y0): (i64, i64) = (center.x as i64 - n as i64, center.y as i64 - n as i64);
        let side: i64 = 2 * n as i64 + 1;
        let mut dx: i64 = 0;
        while dx < side
            invariant
                0 <= dx <= side,
                reachable(pos, radius),
                n == reach(radius),
                n >= 0,
                center == Cell::from_pos(pos),
                x0 == center.x - n,
                y0 == center.y - n,
                side == 2 * n + 1,
                out@ == self.block(x0 as int, y0 as int, dx as nat, side as nat),
            decreases side - dx,
        {
            let ghost head = out@;
            let mut dy: i64 = 0;
            assert(out@ =~= head + self.column(x0 + dx, y0 as int, 0));
            while dy < side
                invariant
                    0 <= dx < side,
                    0 <= dy <= side,
                    reachable(pos, radius),
                    n == reach(radius),
                    n >= 0,
                    center == Cell::from_pos(pos),
                    x0 == center.x - n,
                    y0 == center.y - n,
                    side == 2 * n + 1,
                    out@ == head + self.column(x0 + dx, y0 as int, dy as nat),
                decreases side - dy,
            {
                let cell: Cell = Cell { x: (x0 + dx) as i32, y: (y0 + dy) as i32 };
                let key: u64 = cell.to_key();
                match self.cells.get(&key) {
                    Some(members) => {
                        assert(members@ == self.bucket(cell));
                        out.extend_from_slice(members.as_slice());
                    },
                    None => {},
                }
                assert(out@ =~= head + self.column(x0 + dx, y0 as int, (dy + 1) as nat));
                dy += 1;
            }
            assert(out@ =~= self.block(x0 as int, y0 as int, (dx + 1) as nat, side as nat));
            dx += 1;
        }
    }

    /// Number of occupied cells.
    pub fn occupied_cells(&self) -> (r: usize)
        ensures
            r == self.occupied().len(),
    {
        self.cells.len()
    }
}

/// Whoever is in a column of cells is found there, and nobody else.
proof fn lemma_column(hash: SpatialHash, x: int, y: int, n: nat, e: u64)
    ensures
        hash.column(x, y, n).contains(e) <==> exists|j: int|
            0 <= j < n && #[trigger] hash.bucket(
                Cell { x: x as i32, y: (y + j) as i32 },
            ).contains(e),
    decreases n,
{
    if n > 0 {
        lemma_column(hash, x, y, (n - 1) as nat, e);
        let head = hash.column(x, y, (n - 1) as nat);
        let last = hash.bucket(Cell { x: x as i32, y: (y + n - 1) as i32 });
        lemma_contains_joined(head, last, e);
        assert(hash.column(x, y, n) == head + last);
        if last.contains(e) {
            let j = n - 1;
            assert(hash.bucket(Cell { x: x as i32, y: (y + j) as i32 }).contains(e));
        }
    }
}

/// What two lists hold together, one of them holds.
proof fn lemma_contains_joined(a: Seq<u64>, b: Seq<u64>, e: u64)
    ensures
        (a + b).contains(e) <==> a.contains(e) || b.contains(e),
{
    let s = a + b;
    if a.contains(e) {
        let i = choose|i: int| 0 <= i < a.len() && a[i] == e;
        assert(s[i] == e);
    }
    if b.contains(e) {
        let i = choose|i: int| 0 <= i < b.len() && b[i] == e;
        assert(s[a.len() + i] == e);
    }
    if s.contains(e) {
        let i = choose|i: int| 0 <= i < s.len() && s[i] == e;
        if i < a.len() {
            assert(a[i] == e);
        } else {
            assert(b[i - a.len()] == e);
        }
    }
}

/// Whoever is in a block of cells is found there, and nobody else.
proof fn lemma_block(hash: SpatialHash, x: int, y: int, n: nat, m: nat, e: u64)
    ensures
        hash.block(x, y, n, m).contains(e) <==> exists|i: int, j: int|
            0 <= i < n && 0 <= j < m && #[trigger] hash.bucket(
                Cell { x: (x + i) as i32, y: (y + j) as i32 },
            ).contains(e),
    decreases n,
{
    if n > 0 {
        lemma_block(hash, x, y, (n - 1) as nat, m, e);
        lemma_column(hash, x + n - 1, y, m, e);
        let head = hash.block(x, y, (n - 1) as nat, m);
        let last = hash.column(x + n - 1, y, m);
        lemma_contains_joined(head, last, e);
        if last.contains(e) {
            let i = n - 1;
            let j = choose|j: int|
                0 <= j < m && #[trigger] hash.bucket(
                    Cell { x: (x + n - 1) as i32, y: (y + j) as i32 },
                ).contains(e);
            assert(hash.bucket(Cell { x: (x + i) as i32, y: (y + j) as i32 }).contains(e));
        }
        if exists|i: int, j: int|
            0 <= i < n && 0 <= j < m && #[trigger] hash.bucket(
                Cell { x: (x + i) as i32, y: (y + j) as i32 },
            ).contains(e) {
            let (i, j) = choose|i: int, j: int|
                0 <= i < n && 0 <= j < m && #[trigger] hash.bucket(
                    Cell { x: (x + i) as i32, y: (y + j) as i32 },
                ).contains(e);
            if i == n - 1 {
                assert(hash.bucket(
                    Cell { x: (x + n - 1) as i32, y: (y + j) as i32 },
                ).contains(e));
            }
        }
    }
}

/// The cells are no more than `n` cells apart along each axis.
pub open spec fn near(a: Cell, b: Cell, n: int) -> bool {
    -n <= a.x - b.x <= n && -n <= a.y - b.y <= n
}

/// A query finds exactly those whose cell lies within reach.
pub proof fn lemma_query_is_exact(hash: SpatialHash, pos: Vec2Lite, radius: Binary32, e: u64)
    requires
        reachable(pos, radius),
    ensures
        hash.found(pos, radius).contains(e) <==> exists|cell: Cell| #[trigger]
            hash.bucket(cell).contains(e) && near(cell, Cell::from_pos(pos), reach(radius) as int),
{
    let c = Cell::from_pos(pos);
    let n = reach(radius);
    if n >= 0 {
        let x = c.x - n;
        let y = c.y - n;
        let side = (2 * n + 1) as nat;
        lemma_block(hash, x, y, side, side, e);
        if exists|cell: Cell| #[trigger] hash.bucket(cell).contains(e) && near(cell, c, n as int) {
            let cell = choose|cell: Cell| #[trigger]
                hash.bucket(cell).contains(e) && near(cell, c, n as int);
            let i = cell.x - x;
            let j = cell.y - y;
            assert(cell == Cell { x: (x + i) as i32, y: (y + j) as i32 });
            assert(hash.bucket(Cell { x: (x + i) as i32, y: (y + j) as i32 }).contains(e));
        }
    }
}

/// No two entries have the same number.
pub open spec fn distinct(entries: Seq<(u64, Vec2Lite)>) -> bool {
    forall|i: int, j: int|
        0 <= i < j < entries.len() ==> (#[trigger] entries[i]).0 != (#[trigger] entries[j]).0
}

/// Nobody is twice in a cell.
proof fn lemma_occupants_once(entries: Seq<(u64, Vec2Lite)>, cell: Cell)
    requires
        distinct(entries),
    ensures
        occupants(entries, cell).no_duplicates(),
    decreases entries.len(),
{
    if entries.len() > 0 {
        let rest = entries.drop_last();
        let last = entries.last();
        assert forall|i: int, j: int| 0 <= i < j < rest.len() implies (#[trigger] rest[i]).0 != (
        #[trigger] rest[j]).0 by {
            assert(entries[i].0 != entries[j].0);
        }
        lemma_occupants_once(rest, cell);
        lemma_occupants(rest, cell, last.0);
        if occupants(rest, cell).contains(last.0) {
            let i = choose|i: int|
                0 <= i < rest.len() && (#[trigger] rest[i]).0 == last.0 && Cell::from_pos(rest[i].1)
                    == cell;
            assert(entries[i].0 != entries[entries.len() - 1].0);
        }
    }
}

/// Nobody is in two cells.
proof fn lemma_one_cell(entries: Seq<(u64, Vec2Lite)>, a: Cell, b: Cell, e: u64)
    requires
        distinct(entries),
        occupants(entries, a).contains(e),
        occupants(entries, b).contains(e),
    ensures
        a == b,
{
    lemma_occupants(entries, a, e);
    lemma_occupants(entries, b, e);
    let i = choose|i: int|
        0 <= i < entries.len() && (#[trigger] entries[i]).0 == e && Cell::from_pos(entries[i].1) == a;
    let j = choose|j: int|
        0 <= j < entries.len() && (#[trigger] entries[j]).0 == e && Cell::from_pos(entries[j].1) == b;
    if i < j {
        assert(entries[i].0 != entries[j].0);
    } else if j < i {
        assert(entries[j].0 != entries[i].0);
    }
}

/// Two lists without repetitions and with nobody in common, joined.
proof fn lemma_joined_once(a: Seq<u64>, b: Seq<u64>)
    requires
        a.no_duplicates(),
        b.no_duplicates(),
        forall|e: u64| a.contains(e) ==> !#[trigger] b.contains(e),
    ensures
        (a + b).no_duplicates(),
{
    let all = a + b;
    assert forall|i: int, j: int| 0 <= i < all.len() && 0 <= j < all.len() && i != j implies all[i]
        != all[j] by {
        if i < a.len() && j >= a.len() {
            assert(a.contains(a[i]));
            assert(b.contains(b[j - a.len()]));
        } else if j < a.len() && i >= a.len() {
            assert(a.contains(a[j]));
            assert(b.contains(b[i - a.len()]));
        }
    }
}

/// Nobody is twice in a column.
proof fn lemma_column_once(
    hash: SpatialHash,
    entries: Seq<(u64, Vec2Lite)>,
    x: int,
    y: int,
    n: nat,
)
    requires
        hash.lists(entries),
        distinct(entries),
        i32::MIN <= y,
        y + n - 1 <= i32::MAX,
    ensures
        hash.column(x, y, n).no_duplicates(),
    decreases n,
{
    if n > 0 {
        lemma_column_once(hash, entries, x, y, (n - 1) as nat);
        let a = hash.column(x, y, (n - 1) as nat);
        let cell = Cell { x: x as i32, y: (y + n - 1) as i32 };
        let b = hash.bucket(cell);
        lemma_occupants_once(entries, cell);
        assert forall|e: u64| a.contains(e) implies !#[trigger] b.contains(e) by {
            lemma_column(hash, x, y, (n - 1) as nat, e);
            if b.contains(e) {
                let j = choose|j: int|
                    0 <= j < n - 1 && #[trigger] hash.bucket(
                        Cell { x: x as i32, y: (y + j) as i32 },
                    ).contains(e);
                lemma_one_cell(entries, Cell { x: x as i32, y: (y + j) as i32 }, cell, e);
            }
        }
        lemma_joined_once(a, b);
    }
}

/// Nobody is twice in a block.
proof fn lemma_block_once(
    hash: SpatialHash,
    entries: Seq<(u64, Vec2Lite)>,
    x: int,
    y: int,
    n: nat,
    m: nat,
)
    requires
        hash.lists(entries),
        distinct(entries),
        i32::MIN <= x,
        x + n - 1 <= i32::MAX,
        i32::MIN <= y,
        y + m - 1 <= i32::MAX,
    ensures
        hash.block(x, y, n, m).no_duplicates(),
    decreases n,
{
    if n > 0 {
        lemma_block_once(hash, entries, x, y, (n - 1) as nat, m);
        lemma_column_once(hash, entries, x + n - 1, y, m);
        let a = hash.block(x, y, (n - 1) as nat, m);
        let b = hash.column(x + n - 1, y, m);
        assert forall|e: u64| a.contains(e) implies !#[trigger] b.contains(e) by {
            lemma_block(hash, x, y, (n - 1) as nat, m, e);
            lemma_column(hash, x + n - 1, y, m, e);
            if b.contains(e) {
                let (i, j) = choose|i: int, j: int|
                    0 <= i < n - 1 && 0 <= j < m && #[trigger] hash.bucket(
                        Cell { x: (x + i) as i32, y: (y + j) as i32 },
                    ).contains(e);
                let k = choose|k: int|
                    0 <= k < m && #[trigger] hash.bucket(
                        Cell { x: (x + n - 1) as i32, y: (y + k) as i32 },
                    ).contains(e);
                lemma_one_cell(
                    entries,
                    Cell { x: (x + i) as i32, y: (y + j) as i32 },
                    Cell { x: (x + n - 1) as i32, y: (y + k) as i32 },
                    e,
                );
            }
        }
        lemma_joined_once(a, b);
    }
}

/// A query finds nobody twice, given that nobody was entered twice.
pub proof fn lemma_nobody_is_found_twice(
    hash: SpatialHash,
    entries: Seq<(u64, Vec2Lite)>,
    pos: Vec2Lite,
    radius: Binary32,
)
    requires
        hash.lists(entries),
        distinct(entries),
        reachable(pos, radius),
    ensures
        hash.found(pos, radius).no_duplicates(),
{
    let c = Cell::from_pos(pos);
    let n = reach(radius);
    if n >= 0 {
        let side = (2 * n + 1) as nat;
        lemma_block_once(hash, entries, c.x - n, c.y - n, side, side);
    }
}

/// Every entry is in its own cell, and in no other.
pub proof fn lemma_occupants(entries: Seq<(u64, Vec2Lite)>, cell: Cell, e: u64)
    ensures
        occupants(entries, cell).contains(e) <==> exists|i: int|
            0 <= i < entries.len() && (#[trigger] entries[i]).0 == e && Cell::from_pos(entries[i].1)
                == cell,
    decreases entries.len(),
{
    if entries.len() > 0 {
        let rest = entries.drop_last();
        lemma_occupants(rest, cell, e);
        let found = occupants(rest, cell);
        assert forall|i: int| 0 <= i < rest.len() implies rest[i] == #[trigger] entries[i] by {}
        if Cell::from_pos(entries.last().1) == cell {
            let all = found.push(entries.last().0);
            if found.contains(e) {
                let i = choose|i: int| 0 <= i < found.len() && found[i] == e;
                assert(all[i] == e);
                let k = choose|k: int|
                    0 <= k < rest.len() && (#[trigger] rest[k]).0 == e && Cell::from_pos(rest[k].1)
                        == cell;
                assert(entries[k].0 == e);
            } else if entries.last().0 == e {
                assert(all[found.len() as int] == e);
                assert(entries[entries.len() - 1].0 == e);
            } else {
                assert(!all.contains(e));
            }
        }
        if exists|i: int|
            0 <= i < entries.len() && (#[trigger] entries[i]).0 == e && Cell::from_pos(entries[i].1)
                == cell {
            let i = choose|i: int|
                0 <= i < entries.len() && (#[trigger] entries[i]).0 == e && Cell::from_pos(
                    entries[i].1,
                ) == cell;
            if i < rest.len() {
                assert(rest[i].0 == e);
            }
        }
    }
}

/// The side of a cell, in units of the numbers.
pub open spec fn side() -> int {
    4 * one_unit() as int
}

/// The column of a coordinate is the whole number of sides below it, moved into
/// range. Two tiny negative coordinates round to zero first.
proof fn lemma_column_of(x: Binary32)
    requires
        x.finite(),
    ensures
        x.over(num(CELL_SIZE)).floor_to_i32() == if x.units() == -1 || x.units() == -2 {
            0
        } else {
            into_range(x.units() / side(), i32::MIN as int, i32::MAX as int)
        },
{
    let q = x.over(num(CELL_SIZE));
    let one = one_unit() as int;
    lemma_one();
    lemma_large_unit();
    lemma_quarter(x);
    lemma_sign_of_units(x);
    lemma_sign_of_units(q);
    if x.size() % 4 == 0 {
        lemma_scaled(q.units(), 4, one);
    } else {
        if x.units() > 0 {
            lemma_whole(x.units(), side(), 0);
            lemma_whole(q.units(), one, 0);
        } else if x.size() > 2 {
            lemma_whole(x.units(), side(), -1);
            lemma_whole(q.units(), one, -1);
        } else {
            lemma_whole(q.units(), one, 0);
        }
    }
}

/// The reach of a radius is the whole number of sides above it, moved into
/// range. Two tiny radii round to zero first.
proof fn lemma_reach_of(r: Binary32)
    requires
        r.finite(),
        r.units() != 1,
        r.units() != 2,
        r.units() >= 0,
    ensures
        reach(r) == into_range(-((-r.units()) / side()), i32::MIN as int, i32::MAX as int),
{
    let q = r.over(num(CELL_SIZE));
    let one = one_unit() as int;
    lemma_one();
    lemma_large_unit();
    lemma_quarter(r);
    lemma_sign_of_units(r);
    lemma_sign_of_units(q);
    if r.size() % 4 == 0 {
        lemma_scaled(-q.units(), 4, one);
    } else {
        lemma_whole(-r.units(), side(), -1);
        lemma_whole(-q.units(), one, -1);
    }
}

/// One is more than the tiny numbers.
proof fn lemma_large_unit()
    ensures
        one_unit() > 0x200_0000,
{
    vstd::arithmetic::power2::lemma2_to64();
    vstd::arithmetic::power2::lemma_pow2_strictly_increases(32, 149);
}

/// A quotient from its bounds.
proof fn lemma_whole(x: int, d: int, q: int)
    requires
        d > 0,
        q * d <= x < q * d + d,
    ensures
        x / d == q,
{
    vstd::arithmetic::div_mod::lemma_fundamental_div_mod_converse(x, d, q, x - q * d);
}

/// A quotient in lower terms.
proof fn lemma_scaled(x: int, k: int, d: int)
    requires
        k > 0,
        d > 0,
    ensures
        (k * x) / (k * d) == x / d,
{
    let q = x / d;
    let r = x % d;
    vstd::arithmetic::div_mod::lemma_fundamental_div_mod(x, d);
    assert(q * (k * d) <= k * x < q * (k * d) + k * d) by (nonlinear_arith)
        requires
            x == d * q + r,
            0 <= r < d,
            k > 0,
    ;
    assert(k * d > 0) by (nonlinear_arith)
        requires
            k > 0,
            d > 0,
    ;
    lemma_whole(k * x, k * d, q);
}

/// Two quotients differ by no more than the difference, rounded up.
proof fn lemma_quotients_near(a: int, b: int, r: int, d: int)
    requires
        d > 0,
        b <= a <= b + r,
    ensures
        b / d <= a / d <= b / d - (-r) / d,
        (-r) / d <= 0,
{
    let (x, y, n) = (a / d, b / d, (-r) / d);
    vstd::arithmetic::div_mod::lemma_fundamental_div_mod(a, d);
    vstd::arithmetic::div_mod::lemma_fundamental_div_mod(b, d);
    vstd::arithmetic::div_mod::lemma_fundamental_div_mod(-r, d);
    let (p, q, m) = (a % d, b % d, (-r) % d);
    assert(y <= x) by (nonlinear_arith)
        requires
            b <= a,
            a == d * x + p,
            b == d * y + q,
            0 <= p < d,
            0 <= q < d,
    ;
    assert(n <= 0) by (nonlinear_arith)
        requires
            r >= 0,
            -r == d * n + m,
            0 <= m < d,
    ;
    assert(x <= y - n) by (nonlinear_arith)
        requires
            a <= b + r,
            a == d * x + p,
            b == d * y + q,
            -r == d * n + m,
            0 <= p < d,
            0 <= q < d,
            0 <= m < d,
    ;
}

/// No number of the format lies just below a negative multiple of the side.
proof fn lemma_none_just_below(b: Binary32, n: int)
    requires
        b.finite(),
        n < 0,
    ensures
        !(n * side() - 2 <= b.units() < n * side()),
{
    lemma_large_unit();
    lemma_sign_of_units(b);
    let s = side();
    assert(n * s <= -s) by (nonlinear_arith)
        requires
            n < 0,
            s > 0,
    ;
    if n * s - 2 <= b.units() < n * s {
        lemma_quarter(b);
        assert(b.size() % 4 == 0);
        let k = n * one_unit();
        assert(n * s == 4 * k) by (nonlinear_arith)
            requires
                s == 4 * one_unit(),
                k == n * one_unit(),
        ;
    }
}

/// The columns of two coordinates no further apart than a radius are no further
/// apart than its reach.
proof fn lemma_columns_near(a: Binary32, b: Binary32, r: Binary32)
    requires
        a.finite(),
        b.finite(),
        r.finite(),
        r.units() != 1,
        r.units() != 2,
        b.units() <= a.units() <= b.units() + r.units(),
        reach(r) < i32::MAX,
    ensures
        ({
            let x = a.over(num(CELL_SIZE)).floor_to_i32();
            let y = b.over(num(CELL_SIZE)).floor_to_i32();
            0 <= x - y <= reach(r)
        }),
{
    lemma_one();
    lemma_large_unit();
    lemma_column_of(a);
    lemma_column_of(b);
    lemma_reach_of(r);
    let s = side();
    let n = (-r.units()) / s;
    lemma_quotients_near(a.units(), b.units(), r.units(), s);
    if a.units() == -1 || a.units() == -2 {
        lemma_whole(a.units(), s, -1);
        if b.units() != -1 && b.units() != -2 {
            let y = b.units() / s;
            vstd::arithmetic::div_mod::lemma_fundamental_div_mod(-r.units(), s);
            vstd::arithmetic::div_mod::lemma_fundamental_div_mod(b.units(), s);
            let (m, q) = ((-r.units()) % s, b.units() % s);
            assert(n < 0) by (nonlinear_arith)
                requires
                    r.units() > 0,
                    -r.units() == s * n + m,
                    0 <= m < s,
            ;
            lemma_none_just_below(b, n);
            assert(n * s == s * n) by (nonlinear_arith);
            assert(b.units() >= n * s);
            assert(y >= n) by (nonlinear_arith)
                requires
                    b.units() >= n * s,
                    b.units() == s * y + q,
                    0 <= q < s,
            ;
            assert(y <= -1) by (nonlinear_arith)
                requires
                    b.units() < 0,
                    b.units() == s * y + q,
                    0 <= q < s,
            ;
        }
    } else if b.units() == -1 || b.units() == -2 {
        lemma_whole(b.units(), s, -1);
        let x = a.units() / s;
        vstd::arithmetic::div_mod::lemma_fundamental_div_mod(a.units(), s);
        let p = a.units() % s;
        assert(x >= 0) by (nonlinear_arith)
            requires
                a.units() >= 0,
                a.units() == s * x + p,
                0 <= p < s,
        ;
    }
}

/// Nobody within the radius is missed: whoever is no further away than the
/// radius along each axis is found. Left out are radii of one or two of the
/// smallest steps of the format, which round to zero, and radii that reach
/// beyond every cell number.
pub proof fn lemma_nobody_is_missed(
    hash: SpatialHash,
    entries: Seq<(u64, Vec2Lite)>,
    i: int,
    pos: Vec2Lite,
    radius: Binary32,
)
    requires
        hash.lists(entries),
        0 <= i < entries.len(),
        reachable(pos, radius),
        reach(radius) < i32::MAX,
        pos.x.finite(),
        pos.y.finite(),
        entries[i].1.x.finite(),
        entries[i].1.y.finite(),
        radius.finite(),
        radius.units() != 1,
        radius.units() != 2,
        -radius.units() <= entries[i].1.x.units() - pos.x.units() <= radius.units(),
        -radius.units() <= entries[i].1.y.units() - pos.y.units() <= radius.units(),
    ensures
        hash.found(pos, radius).contains(entries[i].0),
{
    let (e, p) = entries[i];
    let cell = Cell::from_pos(p);
    lemma_occupants(entries, cell, e);
    assert(hash.bucket(cell) == occupants(entries, cell));
    assert(hash.bucket(cell).contains(e));
    if p.x.units() >= pos.x.units() {
        lemma_columns_near(p.x, pos.x, radius);
    } else {
        lemma_columns_near(pos.x, p.x, radius);
    }
    if p.y.units() >= pos.y.units() {
        lemma_columns_near(p.y, pos.y, radius);
    } else {
        lemma_columns_near(pos.y, p.y, radius);
    }
    assert(near(cell, Cell::from_pos(pos), reach(radius) as int));
    lemma_query_is_exact(hash, pos, radius, e);
}

/// Nobody beyond the reach of the radius is found.
pub proof fn lemma_nobody_far_is_found(
    hash: SpatialHash,
    entries: Seq<(u64, Vec2Lite)>,
    pos: Vec2Lite,
    radius: Binary32,
    e: u64,
)
    requires
        hash.lists(entries),
        reachable(pos, radius),
        forall|i: int|
            0 <= i < entries.len() && (#[trigger] entries[i]).0 == e ==> !near(
                Cell::from_pos(entries[i].1),
                Cell::from_pos(pos),
                reach(radius) as int,
            ),
    ensures
        !hash.found(pos, radius).contains(e),
{
    lemma_query_is_exact(hash, pos, radius, e);
    assert forall|cell: Cell| #[trigger] hash.bucket(cell).contains(e) implies !near(
        cell,
        Cell::from_pos(pos),
        reach(radius) as int,
    ) by {
        assert(hash.bucket(cell) == occupants(entries, cell));
        lemma_occupants(entries, cell, e);
    }
}

} // verus!
