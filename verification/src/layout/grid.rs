//! A dense two-dimensional grid of cells, the reference [`Layout`].

use super::{count_of, Coord2D, Layout};
use crate::cell::{Cell, CellValue, Function, Operation};
use crate::tile::Tile2D;
use crate::weights::{
    spec_add_maps, spec_add_weight, spec_merge, spec_merge_grows, spec_remove_weight,
    spec_sub_maps, weight_of, WeightMap,
};
use vstd::arithmetic::div_mod::{lemma_fundamental_div_mod, lemma_fundamental_div_mod_converse};
use vstd::prelude::*;

verus! {

/// The number of uncollapsed cells in a row-major cell sequence.
pub open spec fn count_uncollapsed<V: CellValue>(s: Seq<Cell<V>>) -> nat
    decreases s.len(),
{
    if s.len() == 0 {
        0
    } else {
        count_uncollapsed(s.drop_last()) + (if s.last() is Uncollapsed {
            1nat
        } else {
            0nat
        })
    }
}

/// Replacing one cell changes the uncollapsed count by the difference of the
/// two cells' states.
proof fn lemma_count_uncollapsed_update<V: CellValue>(s: Seq<Cell<V>>, i: int, c: Cell<V>)
    requires
        0 <= i < s.len(),
    ensures
        count_uncollapsed(s.update(i, c)) == count_uncollapsed(s) - (if s[i] is Uncollapsed {
            1int
        } else {
            0int
        }) + (if c is Uncollapsed {
            1int
        } else {
            0int
        }),
    decreases s.len(),
{
    let t = s.update(i, c);
    if i == s.len() - 1 {
        assert(t.drop_last() =~= s.drop_last());
        assert(t.last() == c);
    } else {
        assert(t.drop_last() =~= s.drop_last().update(i, c));
        assert(s.drop_last()[i] == s[i]);
        lemma_count_uncollapsed_update(s.drop_last(), i, c);
        assert(t.last() == s.last());
    }
}

/// The uncollapsed count of a prefix grows by one exactly at uncollapsed
/// cells.
proof fn lemma_count_uncollapsed_take_step<V: CellValue>(s: Seq<Cell<V>>, i: int)
    requires
        0 <= i < s.len(),
    ensures
        count_uncollapsed(s.take(i + 1)) == count_uncollapsed(s.take(i)) + (
        if s[i] is Uncollapsed {
            1int
        } else {
            0int
        }),
{
    assert(s.take(i + 1).drop_last() =~= s.take(i));
    assert(s.take(i + 1).last() == s[i]);
}

/// A dense two-dimensional grid of [`Cell`]s, initially all empty
/// superpositions.
///
/// Cells are addressed by [`Coord2D`]; coordinates at or beyond the grid's
/// size are out of bounds and simply hold no cell.
pub struct Grid<V: CellValue> {
    x: usize,
    y: usize,
    /// All cells in row-major order: the cell at `(cx, cy)` is at index
    /// `cy * x + cx`.
    cells: Vec<Cell<V>>,
}

impl<V: CellValue> Grid<V> {
    /// The x (width) of this grid.
    pub closed spec fn spec_x(&self) -> usize {
        self.x
    }

    /// The y (height) of this grid.
    pub closed spec fn spec_y(&self) -> usize {
        self.y
    }

    /// The row-major position of a coordinate.
    pub closed spec fn spec_idx(&self, coord: Coord2D) -> int {
        coord.y * self.x + coord.x
    }

    /// An in-bounds coordinate names a position within the cell vector.
    proof fn lemma_idx_bounds(&self, coord: Coord2D)
        requires
            self.wf(),
            self.contains_coord(coord),
        ensures
            0 <= self.spec_idx(coord) < self.cells@.len(),
    {
        assert(coord.y * self.x + coord.x < self.x * self.y) by (nonlinear_arith)
            requires
                coord.x < self.x,
                coord.y < self.y,
        ;
    }

    /// Distinct in-bounds coordinates name distinct positions.
    proof fn lemma_idx_injective(&self, a: Coord2D, b: Coord2D)
        requires
            self.wf(),
            self.contains_coord(a),
            self.contains_coord(b),
            a != b,
        ensures
            self.spec_idx(a) != self.spec_idx(b),
    {
        assert(a.y * self.x + a.x != b.y * self.x + b.x) by (nonlinear_arith)
            requires
                a.x < self.x,
                a.y < self.y,
                b.x < self.x,
                b.y < self.y,
                a.x != b.x || a.y != b.y,
        ;
    }

    /// A grid of the given size, filled with empty uncollapsed cells.
    ///
    /// The cell count `x * y` must fit in a `usize`.
    pub fn new(x: usize, y: usize) -> (r: Self)
        requires
            (x as nat) * (y as nat) <= usize::MAX,
        ensures
            r.wf(),
            r.spec_x() == x,
            r.spec_y() == y,
            r.spec_cell_count() == (x as nat) * (y as nat),
            r.uncollapsed_count() == (x as nat) * (y as nat),
            forall|c: Coord2D| r.contains_coord(c) == (c.x < x && c.y < y),
            forall|c: Coord2D| #[trigger] r.contains_coord(c) && c.x < x && c.y < y ==> r.cell_at(
                c,
            ) is Uncollapsed && r.cell_at(c).weights() == Map::<V, nat>::empty()
                && r.cell_at(c).weights_total() == 0,
    {
        let n = x * y;
        let mut cells: Vec<Cell<V>> = Vec::new();
        for i in 0..n
            invariant
                cells@.len() == i,
                count_uncollapsed(cells@) == i,
                forall|j: int| 0 <= j < i ==> (#[trigger] cells@[j]) is Uncollapsed
                    && cells@[j].weights() == Map::<V, nat>::empty() && cells@[j].weights_total()
                    == 0,
        {
            let ghost before = cells@;
            let m: WeightMap<V> = WeightMap::new();
            cells.push(Cell::Uncollapsed(m));
            proof {
                assert(cells@.drop_last() =~= before);
            }
        }
        let r = Grid { x, y, cells };
        proof {
            assert forall|c: Coord2D| #[trigger] r.contains_coord(c) implies 0 <= r.spec_idx(c)
                < r.cells@.len() by {
                r.lemma_idx_bounds(c);
            }
        }
        r
    }
}

impl<V: CellValue> Grid<V> {
    /// Which coordinates any grid covers: exactly those below its size on
    /// both axes. This holds of every grid, not only a freshly built one.
    pub proof fn lemma_bounds(&self)
        ensures
            forall|c: Coord2D| #[trigger] self.contains_coord(c) == (c.x < self.spec_x() && c.y
                < self.spec_y()),
    {
    }

    /// The x (width) of this grid, as a value.
    pub fn x(&self) -> (r: usize)
        ensures
            r == self.spec_x(),
    {
        self.x
    }

    /// The y (height) of this grid, as a value.
    pub fn y(&self) -> (r: usize)
        ensures
            r == self.spec_y(),
    {
        self.y
    }

    /// The coordinates of every cell in the row at position `y`, left to
    /// right.
    pub fn row(&self, y: usize) -> (r: Vec<Coord2D>)
        ensures
            r@.len() == self.spec_x(),
            forall|i: int| 0 <= i < r@.len() ==> #[trigger] r@[i] == (Coord2D {
                x: i as usize,
                y,
            }),
    {
        let mut v: Vec<Coord2D> = Vec::new();
        let w = self.x;
        for i in 0..w
            invariant
                v@.len() == i,
                forall|j: int| 0 <= j < i ==> #[trigger] v@[j] == (Coord2D { x: j as usize, y }),
        {
            v.push(Coord2D { x: i, y });
        }
        v
    }

    /// The coordinates of every cell in the column at position `x`, top to
    /// bottom.
    pub fn col(&self, x: usize) -> (r: Vec<Coord2D>)
        ensures
            r@.len() == self.spec_y(),
            forall|i: int| 0 <= i < r@.len() ==> #[trigger] r@[i] == (Coord2D {
                x,
                y: i as usize,
            }),
    {
        let mut v: Vec<Coord2D> = Vec::new();
        let h = self.y;
        for i in 0..h
            invariant
                v@.len() == i,
                forall|j: int| 0 <= j < i ==> #[trigger] v@[j] == (Coord2D { x, y: j as usize }),
        {
            v.push(Coord2D { x, y: i });
        }
        v
    }

    /// The coordinates of the eight locations directly neighboring `coord`;
    /// some may lie outside the grid.
    pub fn neighbors(&self, coord: Coord2D) -> (r: Vec<Coord2D>)
        ensures
            r@ == seq![
                coord.spec_neighbor_scaled(super::Direction::UpLeft, 1, 1),
                coord.spec_neighbor_scaled(super::Direction::Up, 1, 1),
                coord.spec_neighbor_scaled(super::Direction::UpRight, 1, 1),
                coord.spec_neighbor_scaled(super::Direction::Left, 1, 1),
                coord.spec_neighbor_scaled(super::Direction::Right, 1, 1),
                coord.spec_neighbor_scaled(super::Direction::DownLeft, 1, 1),
                coord.spec_neighbor_scaled(super::Direction::Down, 1, 1),
                coord.spec_neighbor_scaled(super::Direction::DownRight, 1, 1),
            ],
    {
        coord.neighbors()
    }

    /// The `WIDTH` by `HEIGHT` block of collapsed values whose upper-left
    /// corner is `coord`.
    ///
    /// There is no tile when the block would leave the grid, when any cell
    /// within it is uncollapsed, or when the block would be degenerate
    /// (zero wide or zero high).
    pub fn get_tile<const WIDTH: usize, const HEIGHT: usize>(&self, coord: Coord2D) -> (r: Option<
        Tile2D<V, WIDTH, HEIGHT>,
    >)
        requires
            self.wf(),
        ensures
            r is Some <==> {
                &&& WIDTH >= 1
                &&& HEIGHT >= 1
                &&& coord.x + WIDTH <= self.spec_x()
                &&& coord.y + HEIGHT <= self.spec_y()
                &&& forall|dx: int, dy: int|
                    0 <= dx < WIDTH && 0 <= dy < HEIGHT ==> (#[trigger] self.cell_at(
                        Coord2D { x: (coord.x + dx) as usize, y: (coord.y + dy) as usize },
                    )) is Collapsed
            },
            r matches Some(t) ==> forall|dx: int, dy: int|
                0 <= dx < WIDTH && 0 <= dy < HEIGHT ==> #[trigger] t.spec_get(dx, dy)
                    == self.cell_at(
                    Coord2D { x: (coord.x + dx) as usize, y: (coord.y + dy) as usize },
                ).spec_value(),
    {
        if WIDTH == 0 || HEIGHT == 0 {
            return None;
        }
        if coord.x >= self.x || WIDTH > self.x - coord.x {
            return None;
        }
        if coord.y >= self.y || HEIGHT > self.y - coord.y {
            return None;
        }
        let v0 = match self.get_cell(&Coord2D { x: coord.x, y: coord.y }) {
            Some(cell) => match cell.get_value() {
                Some(v) => v,
                None => {
                    proof {
                        assert(!((self.cell_at(
                            Coord2D { x: (coord.x + 0) as usize, y: (coord.y + 0) as usize },
                        )) is Collapsed));
                    }
                    return None;
                },
            },
            None => {
                proof {
                    assert(false);
                }
                unreached()
            },
        };
        let mut contents: [[V; WIDTH]; HEIGHT] = [[v0; WIDTH]; HEIGHT];
        for dy in 0..HEIGHT
            invariant
                self.wf(),
                WIDTH >= 1,
                HEIGHT >= 1,
                coord.x + WIDTH <= self.spec_x(),
                coord.y + HEIGHT <= self.spec_y(),
                forall|px: int, py: int|
                    0 <= px < WIDTH && 0 <= py < dy ==> (#[trigger] self.cell_at(
                        Coord2D { x: (coord.x + px) as usize, y: (coord.y + py) as usize },
                    )) is Collapsed && contents@[py]@[px] == self.cell_at(
                        Coord2D { x: (coord.x + px) as usize, y: (coord.y + py) as usize },
                    ).spec_value(),
        {
            let mut rowarr: [V; WIDTH] = [v0; WIDTH];
            for dx in 0..WIDTH
                invariant
                    self.wf(),
                    WIDTH >= 1,
                    HEIGHT >= 1,
                    dy < HEIGHT,
                    coord.x + WIDTH <= self.spec_x(),
                    coord.y + HEIGHT <= self.spec_y(),
                    forall|px: int|
                        0 <= px < dx ==> (#[trigger] self.cell_at(
                            Coord2D { x: (coord.x + px) as usize, y: (coord.y + dy) as usize },
                        )) is Collapsed && rowarr@[px] == self.cell_at(
                            Coord2D { x: (coord.x + px) as usize, y: (coord.y + dy) as usize },
                        ).spec_value(),
            {
                let c = Coord2D { x: coord.x + dx, y: coord.y + dy };
                match self.get_cell(&c) {
                    Some(cell) => match cell.get_value() {
                        Some(v) => {
                            rowarr.set(dx, v);
                        },
                        None => {
                            return None;
                        },
                    },
                    None => {
                        proof {
                            assert(false);
                        }
                        unreached()
                    },
                }
            }
            let ghost before = contents;
            contents.set(dy, rowarr);
            proof {
                assert forall|px: int, py: int|
                    0 <= px < WIDTH && 0 <= py < dy + 1 implies (#[trigger] self.cell_at(
                    Coord2D { x: (coord.x + px) as usize, y: (coord.y + py) as usize },
                )) is Collapsed && contents@[py]@[px] == self.cell_at(
                    Coord2D { x: (coord.x + px) as usize, y: (coord.y + py) as usize },
                ).spec_value() by {
                    if py < dy {
                        assert(contents@[py] == before@[py]);
                    }
                }
            }
        }
        let tile = Tile2D::new(contents);
        Some(tile)
    }
}

impl<V: CellValue> Layout<V> for Grid<V> {
    type Coordinate = Coord2D;

    closed spec fn wf(&self) -> bool {
        &&& self.cells@.len() == (self.x as nat) * (self.y as nat)
        &&& (self.x as nat) * (self.y as nat) <= usize::MAX
    }

    closed spec fn contains_coord(&self, coord: Coord2D) -> bool {
        coord.x < self.x && coord.y < self.y
    }

    closed spec fn cell_at(&self, coord: Coord2D) -> Cell<V> {
        self.cells@[self.spec_idx(coord)]
    }

    closed spec fn uncollapsed_count(&self) -> nat {
        count_uncollapsed(self.cells@)
    }

    closed spec fn spec_cell_count(&self) -> nat {
        (self.x as nat) * (self.y as nat)
    }

    fn duplicate(&self) -> (r: Self) {
        let n = self.cells.len();
        let mut cells: Vec<Cell<V>> = Vec::new();
        for i in 0..n
            invariant
                n == self.cells@.len(),
                cells@.len() == i,
                count_uncollapsed(cells@) == count_uncollapsed(self.cells@.take(i as int)),
                forall|j: int| 0 <= j < i ==> (#[trigger] cells@[j]).equiv(&self.cells@[j]),
        {
            let ghost before = cells@;
            let c = vstd::std_specs::vec::vec_index(&self.cells, i);
            cells.push(c.duplicate());
            proof {
                assert(cells@.drop_last() =~= before);
                lemma_count_uncollapsed_take_step(self.cells@, i as int);
            }
        }
        let r = Grid { x: self.x, y: self.y, cells };
        proof {
            assert(self.cells@.take(n as int) =~= self.cells@);
            assert forall|c: Coord2D| self.contains_coord(c) implies (#[trigger] r.cell_at(
                c,
            )).equiv(&self.cell_at(c)) by {
                self.lemma_idx_bounds(c);
            }
        }
        r
    }

    fn get_cell(&self, coord: &Coord2D) -> (r: Option<&Cell<V>>) {
        if coord.x < self.x && coord.y < self.y {
            proof {
                self.lemma_idx_bounds(*coord);
                assert(coord.y * self.x + coord.x < self.cells@.len());
            }
            let i = coord.y * self.x + coord.x;
            Some(vstd::std_specs::vec::vec_index(&self.cells, i))
        } else {
            None
        }
    }

    fn cell_count(&self) -> (r: usize) {
        self.x * self.y
    }

    fn candidates(&self) -> (r: Vec<Coord2D>) {
        let n = self.cells.len();
        let mut found: Vec<Coord2D> = Vec::new();
        for i in 0..n
            invariant
                self.wf(),
                n == self.cells@.len(),
                found@.len() == count_uncollapsed(self.cells@.take(i as int)),
                forall|j: int| 0 <= j < found@.len() ==> self.contains_coord(#[trigger] found@[j])
                    && self.cell_at(found@[j]) is Uncollapsed && self.spec_idx(found@[j]) < i,
                forall|j: int, k: int| 0 <= j < k < found@.len() ==> self.spec_idx(found@[j])
                    < self.spec_idx(found@[k]),
                forall|c: Coord2D| self.contains_coord(c) && self.cell_at(c) is Uncollapsed
                    && self.spec_idx(c) < i ==> found@.contains(c),
        {
            proof {
                assert(self.x > 0) by (nonlinear_arith)
                    requires
                        (i as int) < self.x * self.y,
                        0 <= i as int,
                ;
            }
            let cx = i % self.x;
            let cy = i / self.x;
            let coord = Coord2D { x: cx, y: cy };
            proof {
                lemma_fundamental_div_mod(i as int, self.x as int);
                assert(cy < self.y) by (nonlinear_arith)
                    requires
                        (i as int) < self.x * self.y,
                        self.x > 0,
                        (i as int) == self.x * (i as int / (self.x as int)) + (i as int) % (
                        self.x as int),
                        0 <= (i as int) % (self.x as int) < self.x,
                        cy == (i as int) / (self.x as int),
                ;
                assert(self.contains_coord(coord));
                assert(self.spec_idx(coord) == i) by (nonlinear_arith)
                    requires
                        (i as int) == self.x * (i as int / (self.x as int)) + (i as int) % (
                        self.x as int),
                        coord.y == (i as int) / (self.x as int),
                        coord.x == (i as int) % (self.x as int),
                        self.spec_idx(coord) == coord.y * self.x + coord.x,
                ;
                lemma_count_uncollapsed_take_step(self.cells@, i as int);
            }
            let ghost before = found@;
            let cell = vstd::std_specs::vec::vec_index(&self.cells, i);
            if !cell.is_collapsed() {
                found.push(coord);
                proof {
                    assert forall|c: Coord2D|
                        self.contains_coord(c) && self.cell_at(c) is Uncollapsed && self.spec_idx(
                            c,
                        ) < i + 1 implies found@.contains(c) by {
                        if self.spec_idx(c) < i {
                            assert(before.contains(c));
                            let j = choose|j: int|
                                0 <= j < before.len() && before[j] == c;
                            assert(found@[j] == c);
                        } else {
                            lemma_fundamental_div_mod_converse(
                                i as int,
                                self.x as int,
                                c.y as int,
                                c.x as int,
                            );
                            assert(c == coord);
                            assert(found@[found@.len() - 1] == c);
                        }
                    }
                }
            } else {
                proof {
                    assert forall|c: Coord2D|
                        self.contains_coord(c) && self.cell_at(c) is Uncollapsed && self.spec_idx(
                            c,
                        ) < i + 1 implies found@.contains(c) by {
                        if self.spec_idx(c) == i {
                            lemma_fundamental_div_mod_converse(
                                i as int,
                                self.x as int,
                                c.y as int,
                                c.x as int,
                            );
                            assert(c == coord);
                            assert(!(self.cell_at(c) is Uncollapsed));
                        }
                    }
                }
            }
        }
        proof {
            assert(self.cells@.take(n as int) =~= self.cells@);
            assert forall|j: int, k: int| 0 <= j < k < found@.len() implies found@[j] != found@[k]
                by {
                assert(self.spec_idx(found@[j]) < self.spec_idx(found@[k]));
            }
            assert forall|c: Coord2D| self.contains_coord(c) implies self.spec_idx(c) < n as int
                by {
                self.lemma_idx_bounds(c);
            }
        }
        found
    }

    fn collapse(&mut self, coord: &Coord2D, value: V) -> (r: bool) {
        if coord.x < self.x && coord.y < self.y {
            proof {
                self.lemma_idx_bounds(*coord);
            }
            let i = coord.y * self.x + coord.x;
            let mut tmp: Cell<V> = Cell::Uncollapsed(WeightMap::new());
            self.cells.set_and_swap(i, &mut tmp);
            let r = tmp.collapse(value);
            self.cells.set(i, tmp);
            proof {
                self.lemma_grid_update(*old(self), *coord, i as int);
            }
            r
        } else {
            false
        }
    }

    fn clear_cell(&mut self, coord: &Coord2D) {
        if coord.x < self.x && coord.y < self.y {
            proof {
                self.lemma_idx_bounds(*coord);
            }
            let i = coord.y * self.x + coord.x;
            let mut tmp: Cell<V> = Cell::Uncollapsed(WeightMap::new());
            self.cells.set_and_swap(i, &mut tmp);
            tmp.clear();
            self.cells.set(i, tmp);
            proof {
                self.lemma_grid_update(*old(self), *coord, i as int);
            }
        }
    }

    fn add_cell_possibility(&mut self, coord: &Coord2D, possibility: &V) {
        if coord.x < self.x && coord.y < self.y {
            proof {
                self.lemma_idx_bounds(*coord);
            }
            let i = coord.y * self.x + coord.x;
            let mut tmp: Cell<V> = Cell::Uncollapsed(WeightMap::new());
            self.cells.set_and_swap(i, &mut tmp);
            tmp.add_possibility(possibility);
            self.cells.set(i, tmp);
            proof {
                self.lemma_grid_update(*old(self), *coord, i as int);
            }
        }
    }

    fn add_cell_possibility_count(&mut self, coord: &Coord2D, possibility: &V, count: usize) {
        if coord.x < self.x && coord.y < self.y {
            proof {
                self.lemma_idx_bounds(*coord);
            }
            let i = coord.y * self.x + coord.x;
            let mut tmp: Cell<V> = Cell::Uncollapsed(WeightMap::new());
            self.cells.set_and_swap(i, &mut tmp);
            tmp.add_possibility_count(possibility, count);
            self.cells.set(i, tmp);
            proof {
                self.lemma_grid_update(*old(self), *coord, i as int);
            }
        }
    }

    fn add_cell_possibilities(&mut self, coord: &Coord2D, possibilities: &WeightMap<V>) {
        if coord.x < self.x && coord.y < self.y {
            proof {
                self.lemma_idx_bounds(*coord);
            }
            let i = coord.y * self.x + coord.x;
            let mut tmp: Cell<V> = Cell::Uncollapsed(WeightMap::new());
            self.cells.set_and_swap(i, &mut tmp);
            tmp.add_possibilities(possibilities);
            self.cells.set(i, tmp);
            proof {
                self.lemma_grid_update(*old(self), *coord, i as int);
            }
        }
    }

    fn remove_cell_possibility(&mut self, coord: &Coord2D, possibility: &V) {
        if coord.x < self.x && coord.y < self.y {
            proof {
                self.lemma_idx_bounds(*coord);
            }
            let i = coord.y * self.x + coord.x;
            let mut tmp: Cell<V> = Cell::Uncollapsed(WeightMap::new());
            self.cells.set_and_swap(i, &mut tmp);
            tmp.remove_possibility(possibility);
            self.cells.set(i, tmp);
            proof {
                self.lemma_grid_update(*old(self), *coord, i as int);
            }
        }
    }

    fn remove_cell_possibility_count(&mut self, coord: &Coord2D, possibility: &V, count: usize) {
        if coord.x < self.x && coord.y < self.y {
            proof {
                self.lemma_idx_bounds(*coord);
            }
            let i = coord.y * self.x + coord.x;
            let mut tmp: Cell<V> = Cell::Uncollapsed(WeightMap::new());
            self.cells.set_and_swap(i, &mut tmp);
            tmp.remove_possibility_count(possibility, count);
            self.cells.set(i, tmp);
            proof {
                self.lemma_grid_update(*old(self), *coord, i as int);
            }
        }
    }

    fn remove_cell_possibilities(&mut self, coord: &Coord2D, possibilities: &WeightMap<V>) {
        if coord.x < self.x && coord.y < self.y {
            proof {
                self.lemma_idx_bounds(*coord);
            }
            let i = coord.y * self.x + coord.x;
            let mut tmp: Cell<V> = Cell::Uncollapsed(WeightMap::new());
            self.cells.set_and_swap(i, &mut tmp);
            tmp.remove_possibilities(possibilities);
            self.cells.set(i, tmp);
            proof {
                self.lemma_grid_update(*old(self), *coord, i as int);
            }
        }
    }

    fn merge_cell_possibilities(
        &mut self,
        coord: &Coord2D,
        op: Operation,
        func: Function,
        weights: &WeightMap<V>,
    ) {
        if coord.x < self.x && coord.y < self.y {
            proof {
                self.lemma_idx_bounds(*coord);
            }
            let i = coord.y * self.x + coord.x;
            let mut tmp: Cell<V> = Cell::Uncollapsed(WeightMap::new());
            self.cells.set_and_swap(i, &mut tmp);
            tmp.merge_cell_possibilities(op, func, weights);
            self.cells.set(i, tmp);
            proof {
                self.lemma_grid_update(*old(self), *coord, i as int);
            }
        }
    }

    fn remove_cells_possibility(&mut self, coords: Vec<Coord2D>, possibility: &V) {
        let ghost g0 = *self;
        let k = coords.len();
        for j in 0..k
            invariant
                k == coords@.len(),
                self.wf(),
                self.spec_cell_count() == g0.spec_cell_count(),
                self.uncollapsed_count() == g0.uncollapsed_count(),
                forall|c: Coord2D| self.contains_coord(c) == g0.contains_coord(c),
                forall|c: Coord2D|
                    g0.contains_coord(c) && !coords@.take(j as int).contains(c)
                        ==> #[trigger] self.cell_at(c) == g0.cell_at(c),
                forall|c: Coord2D|
                    g0.contains_coord(c) && g0.cell_at(c) is Collapsed ==> #[trigger] self.cell_at(
                        c,
                    ) == g0.cell_at(c),
                forall|c: Coord2D|
                    g0.contains_coord(c) && g0.cell_at(c) is Uncollapsed && coords@.take(
                        j as int,
                    ).contains(c) ==> #[trigger] self.cell_at(c) is Uncollapsed && self.cell_at(
                        c,
                    ).weights() == g0.cell_at(c).weights().remove(*possibility),
        {
            let c = coords[j];
            proof {
                assert(coords@.take(j + 1).drop_last() =~= coords@.take(j as int));
                assert(coords@.take(j + 1).last() == c);
                assert forall|d: Coord2D| coords@.take(j + 1).contains(d) implies coords@.take(
                    j as int,
                ).contains(d) || d == c by {
                    let q = choose|q: int|
                        0 <= q < coords@.take(j + 1).len() && #[trigger] coords@.take(j + 1)[q]
                            == d;
                    if q < j {
                        assert(coords@.take(j as int)[q] == d);
                    }
                }
                assert(self.cell_at(c).weights().remove(*possibility).remove(*possibility)
                    =~= self.cell_at(c).weights().remove(*possibility));
            }
            self.remove_cell_possibility(&c, possibility);
            proof {
                if g0.contains_coord(c) && g0.cell_at(c) is Uncollapsed {
                    assert(coords@.take(j + 1).contains(c)) by {
                        assert(coords@.take(j + 1)[j as int] == c);
                    }
                }
            }
        }
        proof {
            assert(coords@.take(k as int) =~= coords@);
        }
    }
    fn remove_cells_possibility_count(&mut self, coords: Vec<Coord2D>, possibility: &V, count: usize) {
        let ghost g0 = *self;
        let k = coords.len();
        for j in 0..k
            invariant
                k == coords@.len(),
                self.wf(),
                g0.wf(),
                self.spec_cell_count() == g0.spec_cell_count(),
                self.uncollapsed_count() == g0.uncollapsed_count(),
                forall|c: Coord2D| self.contains_coord(c) == g0.contains_coord(c),
                forall|c: Coord2D|
                    g0.contains_coord(c) && !coords@.take(j as int).contains(c)
                        ==> #[trigger] self.cell_at(c) == g0.cell_at(c),
                forall|c: Coord2D|
                    g0.contains_coord(c) && g0.cell_at(c) is Collapsed ==> #[trigger] self.cell_at(
                        c,
                    ) == g0.cell_at(c),
                forall|c: Coord2D|
                    g0.contains_coord(c) && g0.cell_at(c) is Uncollapsed && coords@.take(
                        j as int,
                    ).contains(c) ==> #[trigger] self.cell_at(c) is Uncollapsed,
                forall|c: Coord2D|
                    g0.contains_coord(c) && g0.cell_at(c) is Uncollapsed && coords@.take(
                        j as int,
                    ).contains(c) ==> (#[trigger] self.cell_at(c)).weights() == spec_remove_weight(
                        g0.cell_at(c).weights(),
                        *possibility,
                        count_of(coords@.take(j as int), c) * (count as nat),
                    ),
        {
            let c = coords[j];
            proof {
                assert(coords@.take(j + 1).drop_last() =~= coords@.take(j as int));
                assert(coords@.take(j + 1).last() == c);
                assert(coords@.take(j + 1)[j as int] == c);
                assert forall|d: Coord2D| coords@.take(j + 1).contains(d) implies coords@.take(
                    j as int,
                ).contains(d) || d == c by {
                    let q = choose|q: int|
                        0 <= q < coords@.take(j + 1).len() && #[trigger] coords@.take(j + 1)[q]
                            == d;
                    if q < j {
                        assert(coords@.take(j as int)[q] == d);
                    }
                }
                super::lemma_count_of_contains(coords@.take(j as int), c);
                super::lemma_count_of_take_step(coords@, j as int, c);
                super::lemma_count_of_take_le(coords@, j + 1, c);
                assert forall|d: Coord2D| #[trigger] count_of(coords@.take(j + 1), d) == count_of(
                    coords@.take(j as int),
                    d,
                ) + (if d == c {
                    1nat
                } else {
                    0nat
                }) by {
                    super::lemma_count_of_take_step(coords@, j as int, d);
                }
                if g0.contains_coord(c) && g0.cell_at(c) is Uncollapsed {
                    let cnt = count_of(coords@.take(j as int), c);
                    crate::weights::lemma_remove_weight_compose(
                        g0.cell_at(c).weights(),
                        *possibility,
                        cnt * (count as nat),
                        count as nat,
                    );
                    assert(cnt * count + count == (cnt + 1) * count) by (nonlinear_arith);
                }
            }
            let ghost sp = *self;
            self.remove_cell_possibility_count(&c, possibility, count);
            proof {
                assert forall|d: Coord2D|
                    g0.contains_coord(d) && g0.cell_at(d) is Uncollapsed && coords@.take(
                        j + 1,
                    ).contains(d) implies (#[trigger] self.cell_at(d)).weights()
                    == spec_remove_weight(
                    g0.cell_at(d).weights(),
                    *possibility,
                    count_of(coords@.take(j + 1), d) * (count as nat),
                ) by {
                    if d == c {
                        if !coords@.take(j as int).contains(d) {
                            super::lemma_count_of_contains(coords@.take(j as int), d);
                            assert(count_of(coords@.take(j + 1), d) == 1);
                            assert(count_of(coords@.take(j + 1), d) * (count as nat)
                                == count as nat) by (nonlinear_arith)
                                requires
                                    count_of(coords@.take(j + 1), d) == 1,
                            ;
                            assert(sp.cell_at(d) == g0.cell_at(d));
                        } else {
                            let cnt = count_of(coords@.take(j as int), d);
                            crate::weights::lemma_remove_weight_compose(
                                g0.cell_at(d).weights(),
                                *possibility,
                                cnt * (count as nat),
                                count as nat,
                            );
                            assert(cnt * count + count == (cnt + 1) * count) by (nonlinear_arith);
                        }
                    } else {
                        assert(self.cell_at(d) == sp.cell_at(d));
                        assert(coords@.take(j as int).contains(d));
                    }
                }
            }
        }
        proof {
            assert(coords@.take(k as int) =~= coords@);
        }
    }
    fn remove_cells_possibilities(&mut self, coords: Vec<Coord2D>, possibilities: &WeightMap<V>) {
        let ghost g0 = *self;
        let k = coords.len();
        for j in 0..k
            invariant
                k == coords@.len(),
                self.wf(),
                g0.wf(),
                self.spec_cell_count() == g0.spec_cell_count(),
                self.uncollapsed_count() == g0.uncollapsed_count(),
                forall|c: Coord2D| self.contains_coord(c) == g0.contains_coord(c),
                forall|c: Coord2D|
                    g0.contains_coord(c) && !coords@.take(j as int).contains(c)
                        ==> #[trigger] self.cell_at(c) == g0.cell_at(c),
                forall|c: Coord2D|
                    g0.contains_coord(c) && g0.cell_at(c) is Collapsed ==> #[trigger] self.cell_at(
                        c,
                    ) == g0.cell_at(c),
                forall|c: Coord2D|
                    g0.contains_coord(c) && g0.cell_at(c) is Uncollapsed && coords@.take(
                        j as int,
                    ).contains(c) ==> #[trigger] self.cell_at(c) is Uncollapsed,
                forall|c: Coord2D|
                    g0.contains_coord(c) && g0.cell_at(c) is Uncollapsed && count_of(
                        coords@.take(j as int),
                        c,
                    ) == 1 ==> (#[trigger] self.cell_at(c)).weights() == spec_sub_maps(
                        g0.cell_at(c).weights(),
                        possibilities@,
                    ),
        {
            let c = coords[j];
            proof {
                assert(coords@.take(j + 1).drop_last() =~= coords@.take(j as int));
                assert(coords@.take(j + 1).last() == c);
                assert(coords@.take(j + 1)[j as int] == c);
                assert forall|d: Coord2D| coords@.take(j + 1).contains(d) implies coords@.take(
                    j as int,
                ).contains(d) || d == c by {
                    let q = choose|q: int|
                        0 <= q < coords@.take(j + 1).len() && #[trigger] coords@.take(j + 1)[q]
                            == d;
                    if q < j {
                        assert(coords@.take(j as int)[q] == d);
                    }
                }
                super::lemma_count_of_contains(coords@.take(j as int), c);
                super::lemma_count_of_take_step(coords@, j as int, c);
                super::lemma_count_of_take_le(coords@, j + 1, c);
                assert forall|d: Coord2D| #[trigger] count_of(coords@.take(j + 1), d) == count_of(
                    coords@.take(j as int),
                    d,
                ) + (if d == c {
                    1nat
                } else {
                    0nat
                }) by {
                    super::lemma_count_of_take_step(coords@, j as int, d);
                }
            }
            self.remove_cell_possibilities(&c, possibilities);
            proof {
            }
        }
        proof {
            assert(coords@.take(k as int) =~= coords@);
        }
    }
    fn add_cells_possibility(&mut self, coords: Vec<Coord2D>, possibility: &V) {
        let ghost g0 = *self;
        let k = coords.len();
        for j in 0..k
            invariant
                k == coords@.len(),
                self.wf(),
                g0.wf(),
                self.spec_cell_count() == g0.spec_cell_count(),
                self.uncollapsed_count() == g0.uncollapsed_count(),
                forall|c: Coord2D| self.contains_coord(c) == g0.contains_coord(c),
                forall|c: Coord2D|
                    g0.contains_coord(c) && !coords@.take(j as int).contains(c)
                        ==> #[trigger] self.cell_at(c) == g0.cell_at(c),
                forall|c: Coord2D|
                    g0.contains_coord(c) && g0.cell_at(c) is Collapsed ==> #[trigger] self.cell_at(
                        c,
                    ) == g0.cell_at(c),
                forall|c: Coord2D|
                    g0.contains_coord(c) && g0.cell_at(c) is Uncollapsed && coords@.take(
                        j as int,
                    ).contains(c) ==> #[trigger] self.cell_at(c) is Uncollapsed,
                forall|c: Coord2D|
                    g0.contains_coord(c) && g0.cell_at(c) is Uncollapsed && coords@.take(
                        j as int,
                    ).contains(c) ==> (#[trigger] self.cell_at(c)).weights() == spec_add_weight(
                        g0.cell_at(c).weights(),
                        *possibility,
                        count_of(coords@.take(j as int), c),
                    ) && self.cell_at(c).weights_total() == g0.cell_at(c).weights_total()
                        + count_of(coords@.take(j as int), c),
                forall|c: Coord2D|
                    g0.contains_coord(c) ==> (#[trigger] g0.cell_at(c)).weights_total() + count_of(
                        coords@,
                        c,
                    ) <= usize::MAX,
        {
            let c = coords[j];
            proof {
                assert(coords@.take(j + 1).drop_last() =~= coords@.take(j as int));
                assert(coords@.take(j + 1).last() == c);
                assert(coords@.take(j + 1)[j as int] == c);
                assert forall|d: Coord2D| coords@.take(j + 1).contains(d) implies coords@.take(
                    j as int,
                ).contains(d) || d == c by {
                    let q = choose|q: int|
                        0 <= q < coords@.take(j + 1).len() && #[trigger] coords@.take(j + 1)[q]
                            == d;
                    if q < j {
                        assert(coords@.take(j as int)[q] == d);
                    }
                }
                super::lemma_count_of_contains(coords@.take(j as int), c);
                super::lemma_count_of_take_step(coords@, j as int, c);
                super::lemma_count_of_take_le(coords@, j + 1, c);
                assert forall|d: Coord2D| #[trigger] count_of(coords@.take(j + 1), d) == count_of(
                    coords@.take(j as int),
                    d,
                ) + (if d == c {
                    1nat
                } else {
                    0nat
                }) by {
                    super::lemma_count_of_take_step(coords@, j as int, d);
                }
                if g0.contains_coord(c) && g0.cell_at(c) is Uncollapsed {
                    let cnt = count_of(coords@.take(j as int), c);
                    crate::weights::lemma_add_weight_compose(
                        g0.cell_at(c).weights(),
                        *possibility,
                        cnt,
                        1,
                    );
                    if coords@.take(j as int).contains(c) {
                        assert(self.cell_at(c).weights_total() == g0.cell_at(c).weights_total()
                            + cnt);
                    } else {
                        assert(self.cell_at(c) == g0.cell_at(c));
                    }
                    assert(self.cell_at(c).weights_total() + 1 <= usize::MAX);
                } else if g0.contains_coord(c) {
                    assert(self.cell_at(c) == g0.cell_at(c));
                    assert(self.cell_at(c).weights_total() == 0);
                }
            }
            self.add_cell_possibility(&c, possibility);
            proof {
            }
        }
        proof {
            assert(coords@.take(k as int) =~= coords@);
        }
    }
    fn add_cells_possibility_count(&mut self, coords: Vec<Coord2D>, possibility: &V, count: usize) {
        let ghost g0 = *self;
        let k = coords.len();
        for j in 0..k
            invariant
                k == coords@.len(),
                self.wf(),
                g0.wf(),
                self.spec_cell_count() == g0.spec_cell_count(),
                self.uncollapsed_count() == g0.uncollapsed_count(),
                forall|c: Coord2D| self.contains_coord(c) == g0.contains_coord(c),
                forall|c: Coord2D|
                    g0.contains_coord(c) && !coords@.take(j as int).contains(c)
                        ==> #[trigger] self.cell_at(c) == g0.cell_at(c),
                forall|c: Coord2D|
                    g0.contains_coord(c) && g0.cell_at(c) is Collapsed ==> #[trigger] self.cell_at(
                        c,
                    ) == g0.cell_at(c),
                forall|c: Coord2D|
                    g0.contains_coord(c) && g0.cell_at(c) is Uncollapsed && coords@.take(
                        j as int,
                    ).contains(c) ==> #[trigger] self.cell_at(c) is Uncollapsed,
                forall|c: Coord2D|
                    g0.contains_coord(c) && g0.cell_at(c) is Uncollapsed && coords@.take(
                        j as int,
                    ).contains(c) ==> (#[trigger] self.cell_at(c)).weights() == spec_add_weight(
                        g0.cell_at(c).weights(),
                        *possibility,
                        count_of(coords@.take(j as int), c) * (count as nat),
                    ) && self.cell_at(c).weights_total() == g0.cell_at(c).weights_total()
                        + count_of(coords@.take(j as int), c) * (count as nat),
                forall|c: Coord2D|
                    g0.contains_coord(c) ==> (#[trigger] g0.cell_at(c)).weights_total() + count_of(
                        coords@,
                        c,
                    ) * count <= usize::MAX,
        {
            let c = coords[j];
            proof {
                assert(coords@.take(j + 1).drop_last() =~= coords@.take(j as int));
                assert(coords@.take(j + 1).last() == c);
                assert(coords@.take(j + 1)[j as int] == c);
                assert forall|d: Coord2D| coords@.take(j + 1).contains(d) implies coords@.take(
                    j as int,
                ).contains(d) || d == c by {
                    let q = choose|q: int|
                        0 <= q < coords@.take(j + 1).len() && #[trigger] coords@.take(j + 1)[q]
                            == d;
                    if q < j {
                        assert(coords@.take(j as int)[q] == d);
                    }
                }
                super::lemma_count_of_contains(coords@.take(j as int), c);
                super::lemma_count_of_take_step(coords@, j as int, c);
                super::lemma_count_of_take_le(coords@, j + 1, c);
                assert forall|d: Coord2D| #[trigger] count_of(coords@.take(j + 1), d) == count_of(
                    coords@.take(j as int),
                    d,
                ) + (if d == c {
                    1nat
                } else {
                    0nat
                }) by {
                    super::lemma_count_of_take_step(coords@, j as int, d);
                }
                if g0.contains_coord(c) && g0.cell_at(c) is Uncollapsed {
                    let cnt = count_of(coords@.take(j as int), c);
                    crate::weights::lemma_add_weight_compose(
                        g0.cell_at(c).weights(),
                        *possibility,
                        cnt * (count as nat),
                        count as nat,
                    );
                    assert(cnt * count + count == (cnt + 1) * count) by (nonlinear_arith);
                    assert((cnt + 1) * count <= count_of(coords@, c) * count) by (nonlinear_arith)
                        requires
                            cnt + 1 <= count_of(coords@, c),
                    ;
                    if coords@.take(j as int).contains(c) {
                        assert(self.cell_at(c).weights_total() == g0.cell_at(c).weights_total()
                            + cnt * (count as nat));
                    } else {
                        assert(self.cell_at(c) == g0.cell_at(c));
                        assert((count as nat) <= count_of(coords@, c) * (count as nat))
                            by (nonlinear_arith)
                            requires
                                1 <= count_of(coords@, c),
                        ;
                    }
                    assert(self.cell_at(c).weights_total() + count <= usize::MAX);
                } else if g0.contains_coord(c) {
                    assert(self.cell_at(c) == g0.cell_at(c));
                    assert(self.cell_at(c).weights_total() == 0);
                }
            }
            self.add_cell_possibility_count(&c, possibility, count);
            proof {
            }
        }
        proof {
            assert(coords@.take(k as int) =~= coords@);
        }
    }
    fn add_cells_possibilities(&mut self, coords: Vec<Coord2D>, possibilities: &WeightMap<V>) {
        let ghost g0 = *self;
        let k = coords.len();
        for j in 0..k
            invariant
                k == coords@.len(),
                self.wf(),
                g0.wf(),
                self.spec_cell_count() == g0.spec_cell_count(),
                self.uncollapsed_count() == g0.uncollapsed_count(),
                forall|c: Coord2D| self.contains_coord(c) == g0.contains_coord(c),
                forall|c: Coord2D|
                    g0.contains_coord(c) && !coords@.take(j as int).contains(c)
                        ==> #[trigger] self.cell_at(c) == g0.cell_at(c),
                forall|c: Coord2D|
                    g0.contains_coord(c) && g0.cell_at(c) is Collapsed ==> #[trigger] self.cell_at(
                        c,
                    ) == g0.cell_at(c),
                forall|c: Coord2D|
                    g0.contains_coord(c) && g0.cell_at(c) is Uncollapsed && coords@.take(
                        j as int,
                    ).contains(c) ==> #[trigger] self.cell_at(c) is Uncollapsed,
                forall|c: Coord2D|
                    g0.contains_coord(c) && g0.cell_at(c) is Uncollapsed && coords@.take(
                        j as int,
                    ).contains(c) ==> (#[trigger] self.cell_at(c)).weights_total() <= g0.cell_at(
                        c,
                    ).weights_total() + count_of(coords@.take(j as int), c)
                        * possibilities.spec_total(),
                forall|c: Coord2D|
                    g0.contains_coord(c) && g0.cell_at(c) is Uncollapsed && count_of(
                        coords@.take(j as int),
                        c,
                    ) == 1 ==> (#[trigger] self.cell_at(c)).weights() == spec_add_maps(
                        g0.cell_at(c).weights(),
                        possibilities@,
                    ),
                forall|c: Coord2D|
                    g0.contains_coord(c) ==> (#[trigger] g0.cell_at(c)).weights_total() + count_of(
                        coords@,
                        c,
                    ) * possibilities.spec_total() <= usize::MAX,
        {
            let c = coords[j];
            proof {
                assert(coords@.take(j + 1).drop_last() =~= coords@.take(j as int));
                assert(coords@.take(j + 1).last() == c);
                assert(coords@.take(j + 1)[j as int] == c);
                assert forall|d: Coord2D| coords@.take(j + 1).contains(d) implies coords@.take(
                    j as int,
                ).contains(d) || d == c by {
                    let q = choose|q: int|
                        0 <= q < coords@.take(j + 1).len() && #[trigger] coords@.take(j + 1)[q]
                            == d;
                    if q < j {
                        assert(coords@.take(j as int)[q] == d);
                    }
                }
                super::lemma_count_of_contains(coords@.take(j as int), c);
                super::lemma_count_of_take_step(coords@, j as int, c);
                super::lemma_count_of_take_le(coords@, j + 1, c);
                assert forall|d: Coord2D| #[trigger] count_of(coords@.take(j + 1), d) == count_of(
                    coords@.take(j as int),
                    d,
                ) + (if d == c {
                    1nat
                } else {
                    0nat
                }) by {
                    super::lemma_count_of_take_step(coords@, j as int, d);
                }
                use_type_invariant(possibilities);
                possibilities.lemma_total_bound();
                if g0.contains_coord(c) && g0.cell_at(c) is Uncollapsed {
                    let cnt = count_of(coords@.take(j as int), c);
                    let pt = possibilities.spec_total();
                    assert(cnt * pt + pt == (cnt + 1) * pt) by (nonlinear_arith);
                    assert((cnt + 1) * pt <= count_of(coords@, c) * pt) by (nonlinear_arith)
                        requires
                            cnt + 1 <= count_of(coords@, c),
                    ;
                    if cnt == 0 {
                        assert(cnt * pt == 0) by (nonlinear_arith)
                            requires
                                cnt == 0,
                        ;
                    }
                    if coords@.take(j as int).contains(c) {
                        assert(self.cell_at(c).weights_total() <= g0.cell_at(c).weights_total()
                            + cnt * pt);
                    } else {
                        assert(self.cell_at(c) == g0.cell_at(c));
                        assert(pt <= count_of(coords@, c) * pt) by (nonlinear_arith)
                            requires
                                1 <= count_of(coords@, c),
                        ;
                    }
                    assert(self.cell_at(c).weights_total() + pt <= usize::MAX);
                } else if g0.contains_coord(c) {
                    assert(self.cell_at(c) == g0.cell_at(c));
                    assert(self.cell_at(c).weights_total() == 0);
                }
            }
            self.add_cell_possibilities(&c, possibilities);
            proof {
            }
        }
        proof {
            assert(coords@.take(k as int) =~= coords@);
        }
    }
    fn add_possibility(&mut self, possibility: &V) {
        let ghost g0 = *self;
        let n = self.cells.len();
        for i in 0..n
            invariant
                self.wf(),
                g0.wf(),
                n == self.cells@.len(),
                self.x == g0.x,
                self.y == g0.y,
                self.spec_cell_count() == g0.spec_cell_count(),
                self.uncollapsed_count() == g0.uncollapsed_count(),
                forall|c: Coord2D| self.contains_coord(c) == g0.contains_coord(c),
                forall|c: Coord2D|
                    g0.contains_coord(c) && g0.spec_idx(c) >= i ==> #[trigger] self.cell_at(c)
                        == g0.cell_at(c),
                forall|c: Coord2D|
                    g0.contains_coord(c) && g0.cell_at(c) is Collapsed ==> #[trigger] self.cell_at(
                        c,
                    ) == g0.cell_at(c),
                forall|c: Coord2D|
                    g0.contains_coord(c) && g0.spec_idx(c) < i && g0.cell_at(c) is Uncollapsed
                        ==> #[trigger] self.cell_at(c) is Uncollapsed && self.cell_at(c).weights()
                        == spec_add_weight(g0.cell_at(c).weights(), *possibility, 1)
                        && self.cell_at(c).weights_total() == g0.cell_at(c).weights_total() + 1,
                forall|c: Coord2D|
                    g0.contains_coord(c) ==> (#[trigger] g0.cell_at(c)).weights_total() + 1
                        <= usize::MAX,
        {
            proof {
                assert(self.x > 0) by (nonlinear_arith)
                    requires
                        (i as int) < self.x * self.y,
                        0 <= i as int,
                ;
            }
            let cx = i % self.x;
            let cy = i / self.x;
            let coord = Coord2D { x: cx, y: cy };
            proof {
                lemma_fundamental_div_mod(i as int, self.x as int);
                assert(cy < self.y) by (nonlinear_arith)
                    requires
                        (i as int) < self.x * self.y,
                        self.x > 0,
                        (i as int) == self.x * (i as int / (self.x as int)) + (i as int) % (
                        self.x as int),
                        0 <= (i as int) % (self.x as int) < self.x,
                        cy == (i as int) / (self.x as int),
                ;
                assert(g0.contains_coord(coord));
                assert(g0.spec_idx(coord) == i) by (nonlinear_arith)
                    requires
                        (i as int) == self.x * (i as int / (self.x as int)) + (i as int) % (
                        self.x as int),
                        coord.y == (i as int) / (self.x as int),
                        coord.x == (i as int) % (self.x as int),
                        g0.spec_idx(coord) == coord.y * self.x + coord.x,
                        self.x == g0.x,
                ;
            }
            let ghost gprev = *self;
            let mut tmp: Cell<V> = Cell::Uncollapsed(WeightMap::new());
            self.cells.set_and_swap(i, &mut tmp);
            proof {
                assert(gprev.cell_at(coord) == g0.cell_at(coord));
                assert(tmp == gprev.cell_at(coord));
            }
            tmp.add_possibility(possibility);
            self.cells.set(i, tmp);
            proof {
                self.lemma_grid_update(gprev, coord, i as int);
                assert forall|c: Coord2D|
                    g0.contains_coord(c) && g0.spec_idx(c) >= i + 1 implies #[trigger] self.cell_at(
                        c,
                    ) == g0.cell_at(c) by {
                    assert(c != coord);
                }
            }
        }
        proof {
            assert forall|c: Coord2D| g0.contains_coord(c) implies g0.spec_idx(c) < n as int by {
                g0.lemma_idx_bounds(c);
            }
        }
    }
    fn add_possibility_count(&mut self, possibility: &V, count: usize) {
        let ghost g0 = *self;
        let n = self.cells.len();
        for i in 0..n
            invariant
                self.wf(),
                g0.wf(),
                n == self.cells@.len(),
                self.x == g0.x,
                self.y == g0.y,
                self.spec_cell_count() == g0.spec_cell_count(),
                self.uncollapsed_count() == g0.uncollapsed_count(),
                forall|c: Coord2D| self.contains_coord(c) == g0.contains_coord(c),
                forall|c: Coord2D|
                    g0.contains_coord(c) && g0.spec_idx(c) >= i ==> #[trigger] self.cell_at(c)
                        == g0.cell_at(c),
                forall|c: Coord2D|
                    g0.contains_coord(c) && g0.cell_at(c) is Collapsed ==> #[trigger] self.cell_at(
                        c,
                    ) == g0.cell_at(c),
                forall|c: Coord2D|
                    g0.contains_coord(c) && g0.spec_idx(c) < i && g0.cell_at(c) is Uncollapsed
                        ==> #[trigger] self.cell_at(c) is Uncollapsed && self.cell_at(c).weights()
                        == spec_add_weight(g0.cell_at(c).weights(), *possibility, count as nat)
                        && self.cell_at(c).weights_total() == g0.cell_at(c).weights_total()
                        + count,
                forall|c: Coord2D|
                    g0.contains_coord(c) ==> (#[trigger] g0.cell_at(c)).weights_total() + count
                        <= usize::MAX,
        {
            proof {
                assert(self.x > 0) by (nonlinear_arith)
                    requires
                        (i as int) < self.x * self.y,
                        0 <= i as int,
                ;
            }
            let cx = i % self.x;
            let cy = i / self.x;
            let coord = Coord2D { x: cx, y: cy };
            proof {
                lemma_fundamental_div_mod(i as int, self.x as int);
                assert(cy < self.y) by (nonlinear_arith)
                    requires
                        (i as int) < self.x * self.y,
                        self.x > 0,
                        (i as int) == self.x * (i as int / (self.x as int)) + (i as int) % (
                        self.x as int),
                        0 <= (i as int) % (self.x as int) < self.x,
                        cy == (i as int) / (self.x as int),
                ;
                assert(g0.contains_coord(coord));
                assert(g0.spec_idx(coord) == i) by (nonlinear_arith)
                    requires
                        (i as int) == self.x * (i as int / (self.x as int)) + (i as int) % (
                        self.x as int),
                        coord.y == (i as int) / (self.x as int),
                        coord.x == (i as int) % (self.x as int),
                        g0.spec_idx(coord) == coord.y * self.x + coord.x,
                        self.x == g0.x,
                ;
            }
            let ghost gprev = *self;
            let mut tmp: Cell<V> = Cell::Uncollapsed(WeightMap::new());
            self.cells.set_and_swap(i, &mut tmp);
            proof {
                assert(gprev.cell_at(coord) == g0.cell_at(coord));
                assert(tmp == gprev.cell_at(coord));
            }
            tmp.add_possibility_count(possibility, count);
            self.cells.set(i, tmp);
            proof {
                self.lemma_grid_update(gprev, coord, i as int);
                assert forall|c: Coord2D|
                    g0.contains_coord(c) && g0.spec_idx(c) >= i + 1 implies #[trigger] self.cell_at(
                        c,
                    ) == g0.cell_at(c) by {
                    assert(c != coord);
                }
            }
        }
        proof {
            assert forall|c: Coord2D| g0.contains_coord(c) implies g0.spec_idx(c) < n as int by {
                g0.lemma_idx_bounds(c);
            }
        }
    }
    fn add_possibilities(&mut self, possibilities: &WeightMap<V>) {
        let ghost g0 = *self;
        let n = self.cells.len();
        for i in 0..n
            invariant
                self.wf(),
                g0.wf(),
                n == self.cells@.len(),
                self.x == g0.x,
                self.y == g0.y,
                self.spec_cell_count() == g0.spec_cell_count(),
                self.uncollapsed_count() == g0.uncollapsed_count(),
                forall|c: Coord2D| self.contains_coord(c) == g0.contains_coord(c),
                forall|c: Coord2D|
                    g0.contains_coord(c) && g0.spec_idx(c) >= i ==> #[trigger] self.cell_at(c)
                        == g0.cell_at(c),
                forall|c: Coord2D|
                    g0.contains_coord(c) && g0.cell_at(c) is Collapsed ==> #[trigger] self.cell_at(
                        c,
                    ) == g0.cell_at(c),
                forall|c: Coord2D|
                    g0.contains_coord(c) && g0.spec_idx(c) < i && g0.cell_at(c) is Uncollapsed
                        ==> #[trigger] self.cell_at(c) is Uncollapsed && self.cell_at(c).weights()
                        == spec_add_maps(g0.cell_at(c).weights(), possibilities@)
                        && self.cell_at(c).weights_total() == g0.cell_at(c).weights_total()
                        + possibilities.spec_total(),
                forall|c: Coord2D|
                    g0.contains_coord(c) ==> (#[trigger] g0.cell_at(c)).weights_total()
                        + possibilities.spec_total() <= usize::MAX,
        {
            proof {
                assert(self.x > 0) by (nonlinear_arith)
                    requires
                        (i as int) < self.x * self.y,
                        0 <= i as int,
                ;
            }
            let cx = i % self.x;
            let cy = i / self.x;
            let coord = Coord2D { x: cx, y: cy };
            proof {
                lemma_fundamental_div_mod(i as int, self.x as int);
                assert(cy < self.y) by (nonlinear_arith)
                    requires
                        (i as int) < self.x * self.y,
                        self.x > 0,
                        (i as int) == self.x * (i as int / (self.x as int)) + (i as int) % (
                        self.x as int),
                        0 <= (i as int) % (self.x as int) < self.x,
                        cy == (i as int) / (self.x as int),
                ;
                assert(g0.contains_coord(coord));
                assert(g0.spec_idx(coord) == i) by (nonlinear_arith)
                    requires
                        (i as int) == self.x * (i as int / (self.x as int)) + (i as int) % (
                        self.x as int),
                        coord.y == (i as int) / (self.x as int),
                        coord.x == (i as int) % (self.x as int),
                        g0.spec_idx(coord) == coord.y * self.x + coord.x,
                        self.x == g0.x,
                ;
            }
            let ghost gprev = *self;
            let mut tmp: Cell<V> = Cell::Uncollapsed(WeightMap::new());
            self.cells.set_and_swap(i, &mut tmp);
            proof {
                assert(gprev.cell_at(coord) == g0.cell_at(coord));
                assert(tmp == gprev.cell_at(coord));
            }
            tmp.add_possibilities(possibilities);
            self.cells.set(i, tmp);
            proof {
                self.lemma_grid_update(gprev, coord, i as int);
                assert forall|c: Coord2D|
                    g0.contains_coord(c) && g0.spec_idx(c) >= i + 1 implies #[trigger] self.cell_at(
                        c,
                    ) == g0.cell_at(c) by {
                    assert(c != coord);
                }
            }
        }
        proof {
            assert forall|c: Coord2D| g0.contains_coord(c) implies g0.spec_idx(c) < n as int by {
                g0.lemma_idx_bounds(c);
            }
        }
    }
    fn remove_possibility(&mut self, possibility: &V) {
        let ghost g0 = *self;
        let n = self.cells.len();
        for i in 0..n
            invariant
                self.wf(),
                g0.wf(),
                n == self.cells@.len(),
                self.x == g0.x,
                self.y == g0.y,
                self.spec_cell_count() == g0.spec_cell_count(),
                self.uncollapsed_count() == g0.uncollapsed_count(),
                forall|c: Coord2D| self.contains_coord(c) == g0.contains_coord(c),
                forall|c: Coord2D|
                    g0.contains_coord(c) && g0.spec_idx(c) >= i ==> #[trigger] self.cell_at(c)
                        == g0.cell_at(c),
                forall|c: Coord2D|
                    g0.contains_coord(c) && g0.cell_at(c) is Collapsed ==> #[trigger] self.cell_at(
                        c,
                    ) == g0.cell_at(c),
                forall|c: Coord2D|
                    g0.contains_coord(c) && g0.spec_idx(c) < i && g0.cell_at(c) is Uncollapsed
                        ==> #[trigger] self.cell_at(c) is Uncollapsed && self.cell_at(c).weights()
                        == g0.cell_at(c).weights().remove(*possibility),
        {
            proof {
                assert(self.x > 0) by (nonlinear_arith)
                    requires
                        (i as int) < self.x * self.y,
                        0 <= i as int,
                ;
            }
            let cx = i % self.x;
            let cy = i / self.x;
            let coord = Coord2D { x: cx, y: cy };
            proof {
                lemma_fundamental_div_mod(i as int, self.x as int);
                assert(cy < self.y) by (nonlinear_arith)
                    requires
                        (i as int) < self.x * self.y,
                        self.x > 0,
                        (i as int) == self.x * (i as int / (self.x as int)) + (i as int) % (
                        self.x as int),
                        0 <= (i as int) % (self.x as int) < self.x,
                        cy == (i as int) / (self.x as int),
                ;
                assert(g0.contains_coord(coord));
                assert(g0.spec_idx(coord) == i) by (nonlinear_arith)
                    requires
                        (i as int) == self.x * (i as int / (self.x as int)) + (i as int) % (
                        self.x as int),
                        coord.y == (i as int) / (self.x as int),
                        coord.x == (i as int) % (self.x as int),
                        g0.spec_idx(coord) == coord.y * self.x + coord.x,
                        self.x == g0.x,
                ;
            }
            let ghost gprev = *self;
            let mut tmp: Cell<V> = Cell::Uncollapsed(WeightMap::new());
            self.cells.set_and_swap(i, &mut tmp);
            proof {
                assert(gprev.cell_at(coord) == g0.cell_at(coord));
                assert(tmp == gprev.cell_at(coord));
            }
            tmp.remove_possibility(possibility);
            self.cells.set(i, tmp);
            proof {
                self.lemma_grid_update(gprev, coord, i as int);
                assert forall|c: Coord2D|
                    g0.contains_coord(c) && g0.spec_idx(c) >= i + 1 implies #[trigger] self.cell_at(
                        c,
                    ) == g0.cell_at(c) by {
                    assert(c != coord);
                }
            }
        }
        proof {
            assert forall|c: Coord2D| g0.contains_coord(c) implies g0.spec_idx(c) < n as int by {
                g0.lemma_idx_bounds(c);
            }
        }
    }
    fn remove_possibility_count(&mut self, possibility: &V, count: usize) {
        let ghost g0 = *self;
        let n = self.cells.len();
        for i in 0..n
            invariant
                self.wf(),
                g0.wf(),
                n == self.cells@.len(),
                self.x == g0.x,
                self.y == g0.y,
                self.spec_cell_count() == g0.spec_cell_count(),
                self.uncollapsed_count() == g0.uncollapsed_count(),
                forall|c: Coord2D| self.contains_coord(c) == g0.contains_coord(c),
                forall|c: Coord2D|
                    g0.contains_coord(c) && g0.spec_idx(c) >= i ==> #[trigger] self.cell_at(c)
                        == g0.cell_at(c),
                forall|c: Coord2D|
                    g0.contains_coord(c) && g0.cell_at(c) is Collapsed ==> #[trigger] self.cell_at(
                        c,
                    ) == g0.cell_at(c),
                forall|c: Coord2D|
                    g0.contains_coord(c) && g0.spec_idx(c) < i && g0.cell_at(c) is Uncollapsed
                        ==> #[trigger] self.cell_at(c) is Uncollapsed && self.cell_at(c).weights()
                        == spec_remove_weight(
                        g0.cell_at(c).weights(),
                        *possibility,
                        count as nat,
                    ),
        {
            proof {
                assert(self.x > 0) by (nonlinear_arith)
                    requires
                        (i as int) < self.x * self.y,
                        0 <= i as int,
                ;
            }
            let cx = i % self.x;
            let cy = i / self.x;
            let coord = Coord2D { x: cx, y: cy };
            proof {
                lemma_fundamental_div_mod(i as int, self.x as int);
                assert(cy < self.y) by (nonlinear_arith)
                    requires
                        (i as int) < self.x * self.y,
                        self.x > 0,
                        (i as int) == self.x * (i as int / (self.x as int)) + (i as int) % (
                        self.x as int),
                        0 <= (i as int) % (self.x as int) < self.x,
                        cy == (i as int) / (self.x as int),
                ;
                assert(g0.contains_coord(coord));
                assert(g0.spec_idx(coord) == i) by (nonlinear_arith)
                    requires
                        (i as int) == self.x * (i as int / (self.x as int)) + (i as int) % (
                        self.x as int),
                        coord.y == (i as int) / (self.x as int),
                        coord.x == (i as int) % (self.x as int),
                        g0.spec_idx(coord) == coord.y * self.x + coord.x,
                        self.x == g0.x,
                ;
            }
            let ghost gprev = *self;
            let mut tmp: Cell<V> = Cell::Uncollapsed(WeightMap::new());
            self.cells.set_and_swap(i, &mut tmp);
            proof {
                assert(gprev.cell_at(coord) == g0.cell_at(coord));
                assert(tmp == gprev.cell_at(coord));
            }
            tmp.remove_possibility_count(possibility, count);
            self.cells.set(i, tmp);
            proof {
                self.lemma_grid_update(gprev, coord, i as int);
                assert forall|c: Coord2D|
                    g0.contains_coord(c) && g0.spec_idx(c) >= i + 1 implies #[trigger] self.cell_at(
                        c,
                    ) == g0.cell_at(c) by {
                    assert(c != coord);
                }
            }
        }
        proof {
            assert forall|c: Coord2D| g0.contains_coord(c) implies g0.spec_idx(c) < n as int by {
                g0.lemma_idx_bounds(c);
            }
        }
    }
    fn remove_possibilities(&mut self, possibilities: &WeightMap<V>) {
        let ghost g0 = *self;
        let n = self.cells.len();
        for i in 0..n
            invariant
                self.wf(),
                g0.wf(),
                n == self.cells@.len(),
                self.x == g0.x,
                self.y == g0.y,
                self.spec_cell_count() == g0.spec_cell_count(),
                self.uncollapsed_count() == g0.uncollapsed_count(),
                forall|c: Coord2D| self.contains_coord(c) == g0.contains_coord(c),
                forall|c: Coord2D|
                    g0.contains_coord(c) && g0.spec_idx(c) >= i ==> #[trigger] self.cell_at(c)
                        == g0.cell_at(c),
                forall|c: Coord2D|
                    g0.contains_coord(c) && g0.cell_at(c) is Collapsed ==> #[trigger] self.cell_at(
                        c,
                    ) == g0.cell_at(c),
                forall|c: Coord2D|
                    g0.contains_coord(c) && g0.spec_idx(c) < i && g0.cell_at(c) is Uncollapsed
                        ==> #[trigger] self.cell_at(c) is Uncollapsed && self.cell_at(c).weights()
                        == spec_sub_maps(g0.cell_at(c).weights(), possibilities@),
        {
            proof {
                assert(self.x > 0) by (nonlinear_arith)
                    requires
                        (i as int) < self.x * self.y,
                        0 <= i as int,
                ;
            }
            let cx = i % self.x;
            let cy = i / self.x;
            let coord = Coord2D { x: cx, y: cy };
            proof {
                lemma_fundamental_div_mod(i as int, self.x as int);
                assert(cy < self.y) by (nonlinear_arith)
                    requires
                        (i as int) < self.x * self.y,
                        self.x > 0,
                        (i as int) == self.x * (i as int / (self.x as int)) + (i as int) % (
                        self.x as int),
                        0 <= (i as int) % (self.x as int) < self.x,
                        cy == (i as int) / (self.x as int),
                ;
                assert(g0.contains_coord(coord));
                assert(g0.spec_idx(coord) == i) by (nonlinear_arith)
                    requires
                        (i as int) == self.x * (i as int / (self.x as int)) + (i as int) % (
                        self.x as int),
                        coord.y == (i as int) / (self.x as int),
                        coord.x == (i as int) % (self.x as int),
                        g0.spec_idx(coord) == coord.y * self.x + coord.x,
                        self.x == g0.x,
                ;
            }
            let ghost gprev = *self;
            let mut tmp: Cell<V> = Cell::Uncollapsed(WeightMap::new());
            self.cells.set_and_swap(i, &mut tmp);
            proof {
                assert(gprev.cell_at(coord) == g0.cell_at(coord));
                assert(tmp == gprev.cell_at(coord));
            }
            tmp.remove_possibilities(possibilities);
            self.cells.set(i, tmp);
            proof {
                self.lemma_grid_update(gprev, coord, i as int);
                assert forall|c: Coord2D|
                    g0.contains_coord(c) && g0.spec_idx(c) >= i + 1 implies #[trigger] self.cell_at(
                        c,
                    ) == g0.cell_at(c) by {
                    assert(c != coord);
                }
            }
        }
        proof {
            assert forall|c: Coord2D| g0.contains_coord(c) implies g0.spec_idx(c) < n as int by {
                g0.lemma_idx_bounds(c);
            }
        }
    }}

/// The total weight a tile map gives to the tiles showing the value `v` at
/// the tile position `(px, py)`.
pub open spec fn projected_weight<V: CellValue, const WIDTH: usize, const HEIGHT: usize>(
    m: Map<Tile2D<V, WIDTH, HEIGHT>, nat>,
    px: int,
    py: int,
    v: V,
) -> nat
    decreases m.dom().len(),
{
    if !m.dom().finite() || m.dom().is_empty() {
        0
    } else {
        let t = m.dom().choose();
        (if t.spec_get(px, py) == v {
            m[t]
        } else {
            0
        }) + projected_weight(m.remove(t), px, py, v)
    }
}

/// The projected weight splits off any one tile of the map.
proof fn lemma_projected_weight_remove<V: CellValue, const WIDTH: usize, const HEIGHT: usize>(
    m: Map<Tile2D<V, WIDTH, HEIGHT>, nat>,
    px: int,
    py: int,
    v: V,
    t: Tile2D<V, WIDTH, HEIGHT>,
)
    requires
        m.dom().finite(),
        m.dom().contains(t),
    ensures
        projected_weight(m, px, py, v) == (if t.spec_get(px, py) == v {
            m[t]
        } else {
            0nat
        }) + projected_weight(m.remove(t), px, py, v),
    decreases m.dom().len(),
{
    let t0 = m.dom().choose();
    if t0 == t {
    } else {
        lemma_projected_weight_remove(m.remove(t0), px, py, v, t);
        lemma_projected_weight_remove(m.remove(t), px, py, v, t0);
        assert(m.remove(t0).remove(t) =~= m.remove(t).remove(t0));
    }
}

/// Inserting a fresh tile raises the projected weight by its share.
proof fn lemma_projected_weight_insert<V: CellValue, const WIDTH: usize, const HEIGHT: usize>(
    m: Map<Tile2D<V, WIDTH, HEIGHT>, nat>,
    px: int,
    py: int,
    v: V,
    t: Tile2D<V, WIDTH, HEIGHT>,
    w: nat,
)
    requires
        m.dom().finite(),
        !m.dom().contains(t),
    ensures
        projected_weight(m.insert(t, w), px, py, v) == projected_weight(m, px, py, v) + (
        if t.spec_get(px, py) == v {
            w
        } else {
            0nat
        }),
{
    lemma_projected_weight_remove(m.insert(t, w), px, py, v, t);
    assert(m.insert(t, w).remove(t) =~= m);
}

/// The projected weight of an association list of tiles, entry by entry.
pub open spec fn projected_seq_weight<V: CellValue, const WIDTH: usize, const HEIGHT: usize>(
    s: Seq<(Tile2D<V, WIDTH, HEIGHT>, usize)>,
    px: int,
    py: int,
    v: V,
) -> nat
    decreases s.len(),
{
    if s.len() == 0 {
        0
    } else {
        projected_seq_weight(s.drop_last(), px, py, v) + (if s.last().0.spec_get(px, py) == v {
            s.last().1 as nat
        } else {
            0nat
        })
    }
}

/// On a list with distinct tiles, the map's projected weight is the list's.
proof fn lemma_projected_as_map<V: CellValue, const WIDTH: usize, const HEIGHT: usize>(
    s: Seq<(Tile2D<V, WIDTH, HEIGHT>, usize)>,
    px: int,
    py: int,
    v: V,
)
    requires
        crate::weights::uniq_keys(s),
    ensures
        projected_weight(crate::weights::as_map(s), px, py, v) == projected_seq_weight(
            s,
            px,
            py,
            v,
        ),
    decreases s.len(),
{
    crate::weights::lemma_as_map_finite(s);
    if s.len() > 0 {
        assert(forall|i: int| 0 <= i < s.drop_last().len() ==> s[i] == s.drop_last()[i]);
        lemma_projected_as_map(s.drop_last(), px, py, v);
        crate::weights::lemma_as_map_keys(s.drop_last(), s.last().0);
        assert(!crate::weights::as_map(s.drop_last()).contains_key(s.last().0));
        crate::weights::lemma_as_map_finite(s.drop_last());
        lemma_projected_weight_insert(
            crate::weights::as_map(s.drop_last()),
            px,
            py,
            v,
            s.last().0,
            s.last().1 as nat,
        );
    }
}

/// What "flattened" means for one output cell of [`Grid::detile`]: a
/// collapsed tile writes its value at `(px, py)` straight through, an
/// uncollapsed tile cell yields a superposition carrying exactly the values
/// its candidate tiles show at `(px, py)`.
pub open spec fn detiled_cell_ok<V: CellValue, const WIDTH: usize, const HEIGHT: usize>(
    tcell: Cell<Tile2D<V, WIDTH, HEIGHT>>,
    ocell: Cell<V>,
    px: int,
    py: int,
) -> bool {
    &&& (tcell is Collapsed ==> ocell == Cell::<V>::Collapsed(tcell.spec_value().spec_get(px, py)))
    &&& (tcell is Uncollapsed ==> ocell is Uncollapsed && (forall|v: V|
        ocell.weights().contains_key(v) <==> exists|t: Tile2D<V, WIDTH, HEIGHT>|
            #[trigger] tcell.weights().contains_key(t) && t.spec_get(px, py) == v) && (forall|
        v: V,
    |
        #[trigger] weight_of(ocell.weights(), v) == projected_weight(
            tcell.weights(),
            px,
            py,
            v,
        )))
}

/// An output cell not yet written by [`Grid::detile`]: an empty
/// superposition, as [`Grid::new`] made it.
pub open spec fn detile_pristine<V: CellValue>(ocell: Cell<V>) -> bool {
    &&& ocell is Uncollapsed
    &&& ocell.weights() == Map::<V, nat>::empty()
    &&& ocell.weights_total() == 0
}

/// Write one collapsed tile into the output grid: the block of cells whose
/// upper-left corner is `(tx * WIDTH, ty * HEIGHT)` becomes collapsed to the
/// tile's values.
fn detile_collapsed_block<V: CellValue, const WIDTH: usize, const HEIGHT: usize>(
    out: &mut Grid<V>,
    tile: &Tile2D<V, WIDTH, HEIGHT>,
    tx: usize,
    ty: usize,
)
    requires
        old(out).wf(),
        (tx as int + 1) * WIDTH <= usize::MAX,
        (ty as int + 1) * HEIGHT <= usize::MAX,
        forall|c: Coord2D|
            tx * WIDTH <= c.x < tx * WIDTH + WIDTH && ty * HEIGHT <= c.y < ty * HEIGHT + HEIGHT
                ==> #[trigger] old(out).contains_coord(c),
    ensures
        final(out).wf(),
        final(out).spec_cell_count() == old(out).spec_cell_count(),
        forall|c: Coord2D| final(out).contains_coord(c) == old(out).contains_coord(c),
        forall|c: Coord2D|
            old(out).contains_coord(c) && !(tx * WIDTH <= c.x < tx * WIDTH + WIDTH && ty * HEIGHT
                <= c.y < ty * HEIGHT + HEIGHT) ==> #[trigger] final(out).cell_at(c) == old(
                out,
            ).cell_at(c),
        forall|c: Coord2D|
            tx * WIDTH <= c.x < tx * WIDTH + WIDTH && ty * HEIGHT <= c.y < ty * HEIGHT + HEIGHT
                ==> #[trigger] final(out).cell_at(c) == Cell::<V>::Collapsed(
                tile.spec_get(c.x - tx * WIDTH, c.y - ty * HEIGHT),
            ),
{
    let ghost o0 = *out;
    for dy in 0..HEIGHT
        invariant
            out.wf(),
            o0.wf(),
            (tx as int + 1) * WIDTH <= usize::MAX,
            (ty as int + 1) * HEIGHT <= usize::MAX,
            out.spec_cell_count() == o0.spec_cell_count(),
            forall|c: Coord2D| out.contains_coord(c) == o0.contains_coord(c),
            forall|c: Coord2D|
                tx * WIDTH <= c.x < tx * WIDTH + WIDTH && ty * HEIGHT <= c.y < ty * HEIGHT
                    + HEIGHT ==> #[trigger] o0.contains_coord(c),
            forall|c: Coord2D|
                o0.contains_coord(c) && !(tx * WIDTH <= c.x < tx * WIDTH + WIDTH && ty * HEIGHT
                    <= c.y < ty * HEIGHT + dy) ==> #[trigger] out.cell_at(c) == o0.cell_at(c),
            forall|c: Coord2D|
                tx * WIDTH <= c.x < tx * WIDTH + WIDTH && ty * HEIGHT <= c.y < ty * HEIGHT + dy
                    ==> #[trigger] out.cell_at(c) == Cell::<V>::Collapsed(
                    tile.spec_get(c.x - tx * WIDTH, c.y - ty * HEIGHT),
                ),
    {
        proof {
            assert((ty as int) * HEIGHT + HEIGHT == (ty as int + 1) * HEIGHT) by (nonlinear_arith);
        }
        let oy = ty * HEIGHT + dy;
        for dx in 0..WIDTH
            invariant
                out.wf(),
                o0.wf(),
                dy < HEIGHT,
                oy == ty * HEIGHT + dy,
                (tx as int + 1) * WIDTH <= usize::MAX,
                (ty as int + 1) * HEIGHT <= usize::MAX,
                out.spec_cell_count() == o0.spec_cell_count(),
                forall|c: Coord2D| out.contains_coord(c) == o0.contains_coord(c),
                forall|c: Coord2D|
                    tx * WIDTH <= c.x < tx * WIDTH + WIDTH && ty * HEIGHT <= c.y < ty * HEIGHT
                        + HEIGHT ==> #[trigger] o0.contains_coord(c),
                forall|c: Coord2D|
                    o0.contains_coord(c) && !(tx * WIDTH <= c.x < tx * WIDTH + WIDTH && ty
                        * HEIGHT <= c.y < ty * HEIGHT + dy) && !(tx * WIDTH <= c.x < tx * WIDTH
                        + dx && c.y == oy) ==> #[trigger] out.cell_at(c) == o0.cell_at(c),
                forall|c: Coord2D|
                    tx * WIDTH <= c.x < tx * WIDTH + WIDTH && ty * HEIGHT <= c.y < ty * HEIGHT
                        + dy ==> #[trigger] out.cell_at(c) == Cell::<V>::Collapsed(
                        tile.spec_get(c.x - tx * WIDTH, c.y - ty * HEIGHT),
                    ),
                forall|c: Coord2D|
                    tx * WIDTH <= c.x < tx * WIDTH + dx && c.y == oy ==> #[trigger] out.cell_at(c)
                        == Cell::<V>::Collapsed(
                        tile.spec_get(c.x - tx * WIDTH, c.y - ty * HEIGHT),
                    ),
        {
            proof {
                assert((tx as int) * WIDTH + WIDTH == (tx as int + 1) * WIDTH)
                    by (nonlinear_arith);
            }
            let ox = tx * WIDTH + dx;
            let v = match tile.get(dx, dy) {
                Some(v) => v,
                None => {
                    proof {
                        assert(false);
                    }
                    unreached()
                },
            };
            let ghost wc = Coord2D { x: ox, y: oy };
            let ghost sp = *out;
            proof {
                assert(o0.contains_coord(wc));
            }
            out.collapse(&Coord2D { x: ox, y: oy }, v);
            proof {
                assert(out.cell_at(wc) == Cell::<V>::Collapsed(v));
                assert forall|c: Coord2D|
                    c != wc && o0.contains_coord(c) implies #[trigger] out.cell_at(c)
                    == sp.cell_at(c) by {}
            }
        }
    }
}

/// Write one uncollapsed tile cell into the output grid: each cell of the
/// block gets a superposition carrying, for every candidate tile, that
/// tile's value at the cell's position, weighted by the tile's weight.
fn detile_open_block<V: CellValue, const WIDTH: usize, const HEIGHT: usize>(
    out: &mut Grid<V>,
    entries: &Vec<(Tile2D<V, WIDTH, HEIGHT>, usize)>,
    tx: usize,
    ty: usize,
)
    requires
        old(out).wf(),
        crate::weights::uniq_keys(entries@),
        crate::weights::all_pos(entries@),
        crate::weights::seq_total(entries@) <= usize::MAX,
        (tx as int + 1) * WIDTH <= usize::MAX,
        (ty as int + 1) * HEIGHT <= usize::MAX,
        forall|c: Coord2D|
            tx * WIDTH <= c.x < tx * WIDTH + WIDTH && ty * HEIGHT <= c.y < ty * HEIGHT + HEIGHT
                ==> #[trigger] old(out).contains_coord(c) && detile_pristine(old(out).cell_at(c)),
    ensures
        final(out).wf(),
        final(out).spec_cell_count() == old(out).spec_cell_count(),
        forall|c: Coord2D| final(out).contains_coord(c) == old(out).contains_coord(c),
        forall|c: Coord2D|
            old(out).contains_coord(c) && !(tx * WIDTH <= c.x < tx * WIDTH + WIDTH && ty * HEIGHT
                <= c.y < ty * HEIGHT + HEIGHT) ==> #[trigger] final(out).cell_at(c) == old(
                out,
            ).cell_at(c),
        forall|c: Coord2D|
            tx * WIDTH <= c.x < tx * WIDTH + WIDTH && ty * HEIGHT <= c.y < ty * HEIGHT + HEIGHT
                ==> (#[trigger] final(out).cell_at(c)) is Uncollapsed && (forall|v: V|
                final(out).cell_at(c).weights().contains_key(v) <==> exists|q: int|
                    0 <= q < entries@.len() && (#[trigger] entries@[q].0).spec_get(
                        c.x - tx * WIDTH,
                        c.y - ty * HEIGHT,
                    ) == v) && (forall|v: V|
                weight_of(final(out).cell_at(c).weights(), v) == projected_seq_weight(
                    entries@,
                    c.x - tx * WIDTH,
                    c.y - ty * HEIGHT,
                    v,
                )),
{
    let ghost o0 = *out;
    for dy in 0..HEIGHT
        invariant
            out.wf(),
            o0.wf(),
            crate::weights::uniq_keys(entries@),
            crate::weights::all_pos(entries@),
            crate::weights::seq_total(entries@) <= usize::MAX,
            (tx as int + 1) * WIDTH <= usize::MAX,
            (ty as int + 1) * HEIGHT <= usize::MAX,
            out.spec_cell_count() == o0.spec_cell_count(),
            forall|c: Coord2D| out.contains_coord(c) == o0.contains_coord(c),
            forall|c: Coord2D|
                tx * WIDTH <= c.x < tx * WIDTH + WIDTH && ty * HEIGHT <= c.y < ty * HEIGHT
                    + HEIGHT ==> #[trigger] o0.contains_coord(c) && detile_pristine(o0.cell_at(c)),
            forall|c: Coord2D|
                o0.contains_coord(c) && !(tx * WIDTH <= c.x < tx * WIDTH + WIDTH && ty * HEIGHT
                    <= c.y < ty * HEIGHT + dy) ==> #[trigger] out.cell_at(c) == o0.cell_at(c),
            forall|c: Coord2D|
                tx * WIDTH <= c.x < tx * WIDTH + WIDTH && ty * HEIGHT <= c.y < ty * HEIGHT + dy
                    ==> (#[trigger] out.cell_at(c)) is Uncollapsed && (forall|v: V|
                    out.cell_at(c).weights().contains_key(v) <==> exists|q: int|
                        0 <= q < entries@.len() && (#[trigger] entries@[q].0).spec_get(
                            c.x - tx * WIDTH,
                            c.y - ty * HEIGHT,
                        ) == v) && (forall|v: V|
                        weight_of(out.cell_at(c).weights(), v) == projected_seq_weight(
                            entries@,
                            c.x - tx * WIDTH,
                            c.y - ty * HEIGHT,
                            v,
                        )),
    {
        proof {
            assert((ty as int) * HEIGHT + HEIGHT == (ty as int + 1) * HEIGHT) by (nonlinear_arith);
        }
        let oy = ty * HEIGHT + dy;
        for dx in 0..WIDTH
            invariant
                out.wf(),
                o0.wf(),
                crate::weights::uniq_keys(entries@),
                crate::weights::all_pos(entries@),
                crate::weights::seq_total(entries@) <= usize::MAX,
                dy < HEIGHT,
                oy == ty * HEIGHT + dy,
                (tx as int + 1) * WIDTH <= usize::MAX,
                (ty as int + 1) * HEIGHT <= usize::MAX,
                out.spec_cell_count() == o0.spec_cell_count(),
                forall|c: Coord2D| out.contains_coord(c) == o0.contains_coord(c),
                forall|c: Coord2D|
                    tx * WIDTH <= c.x < tx * WIDTH + WIDTH && ty * HEIGHT <= c.y < ty * HEIGHT
                        + HEIGHT ==> #[trigger] o0.contains_coord(c) && detile_pristine(
                        o0.cell_at(c),
                    ),
                forall|c: Coord2D|
                    o0.contains_coord(c) && !(tx * WIDTH <= c.x < tx * WIDTH + WIDTH && ty
                        * HEIGHT <= c.y < ty * HEIGHT + dy) && !(tx * WIDTH <= c.x < tx * WIDTH
                        + dx && c.y == oy) ==> #[trigger] out.cell_at(c) == o0.cell_at(c),
                forall|c: Coord2D|
                    tx * WIDTH <= c.x < tx * WIDTH + WIDTH && ty * HEIGHT <= c.y < ty * HEIGHT
                        + dy ==> (#[trigger] out.cell_at(c)) is Uncollapsed && (forall|v: V|
                        out.cell_at(c).weights().contains_key(v) <==> exists|q: int|
                            0 <= q < entries@.len() && (#[trigger] entries@[q].0).spec_get(
                                c.x - tx * WIDTH,
                                c.y - ty * HEIGHT,
                            ) == v) && (forall|v: V|
                        weight_of(out.cell_at(c).weights(), v) == projected_seq_weight(
                            entries@,
                            c.x - tx * WIDTH,
                            c.y - ty * HEIGHT,
                            v,
                        )),
                forall|c: Coord2D|
                    tx * WIDTH <= c.x < tx * WIDTH + dx && c.y == oy ==> (#[trigger] out.cell_at(
                        c,
                    )) is Uncollapsed && (forall|v: V|
                        out.cell_at(c).weights().contains_key(v) <==> exists|q: int|
                            0 <= q < entries@.len() && (#[trigger] entries@[q].0).spec_get(
                                c.x - tx * WIDTH,
                                c.y - ty * HEIGHT,
                            ) == v) && (forall|v: V|
                        weight_of(out.cell_at(c).weights(), v) == projected_seq_weight(
                            entries@,
                            c.x - tx * WIDTH,
                            c.y - ty * HEIGHT,
                            v,
                        )),
        {
            proof {
                assert((tx as int) * WIDTH + WIDTH == (tx as int + 1) * WIDTH)
                    by (nonlinear_arith);
            }
            let ox = tx * WIDTH + dx;
            let n = entries.len();
            let mut m: WeightMap<V> = WeightMap::new();
            for q in 0..n
                invariant
                    n == entries@.len(),
                    crate::weights::all_pos(entries@),
                    crate::weights::seq_total(entries@) <= usize::MAX,
                    dx < WIDTH,
                    dy < HEIGHT,
                    m.spec_total() <= crate::weights::seq_total(entries@.take(q as int)),
                    forall|v: V| m@.contains_key(v) <==> exists|p: int|
                        0 <= p < q && (#[trigger] entries@[p].0).spec_get(dx as int, dy as int)
                            == v,
                    forall|v: V| #[trigger] weight_of(m@, v) == projected_seq_weight(
                        entries@.take(q as int),
                        dx as int,
                        dy as int,
                        v,
                    ),
            {
                proof {
                    assert(entries@.take(q + 1).drop_last() =~= entries@.take(q as int));
                    assert(entries@.take(q + 1).last() == entries@[q as int]);
                    crate::weights::lemma_seq_total_take_le(entries@, q + 1);
                }
                let (t, w) = entries[q];
                let v = match t.get(dx, dy) {
                    Some(v) => v,
                    None => {
                        proof {
                            assert(false);
                        }
                        unreached()
                    },
                };
                let ghost mpre = m@;
                m.add_count(v, w);
                proof {
                    assert forall|u: V| m@.contains_key(u) <==> exists|p: int|
                        0 <= p < q + 1 && (#[trigger] entries@[p].0).spec_get(
                            dx as int,
                            dy as int,
                        ) == u by {
                        if m@.contains_key(u) {
                            if u == v {
                                assert(entries@[q as int].0.spec_get(dx as int, dy as int) == u);
                            } else {
                                assert(mpre.contains_key(u));
                            }
                        } else {
                            assert(!mpre.contains_key(u) && u != v);
                        }
                    }
                    assert forall|u: V| #[trigger] weight_of(m@, u) == projected_seq_weight(
                        entries@.take(q + 1),
                        dx as int,
                        dy as int,
                        u,
                    ) by {
                        assert(weight_of(m@, u) == weight_of(mpre, u) + (if u == v {
                            w as nat
                        } else {
                            0nat
                        }));
                        assert(entries@.take(q + 1).last().0.spec_get(dx as int, dy as int) == v);
                    }
                }
            }
            proof {
                assert(entries@.take(n as int) =~= entries@);
            }
            let ghost wc = Coord2D { x: ox, y: oy };
            let ghost sp = *out;
            proof {
                assert(o0.contains_coord(wc));
                assert(out.cell_at(wc) == o0.cell_at(wc));
                assert(detile_pristine(out.cell_at(wc)));
            }
            out.add_cell_possibilities(&Coord2D { x: ox, y: oy }, &m);
            proof {
                assert(out.cell_at(wc) is Uncollapsed);
                assert(out.cell_at(wc).weights() == crate::weights::spec_add_maps(
                    sp.cell_at(wc).weights(),
                    m@,
                ));
                assert forall|v: V| out.cell_at(wc).weights().contains_key(v) <==> m@.contains_key(
                    v,
                ) by {}
                assert(entries@.take(n as int) =~= entries@);
                assert forall|v: V| #[trigger] weight_of(out.cell_at(wc).weights(), v)
                    == projected_seq_weight(entries@, wc.x - tx * WIDTH, wc.y - ty * HEIGHT, v) by {
                    assert(weight_of(out.cell_at(wc).weights(), v) == weight_of(m@, v));
                }
                assert forall|c: Coord2D|
                    c != wc && o0.contains_coord(c) implies #[trigger] out.cell_at(c)
                    == sp.cell_at(c) by {}
            }
        }
    }
}

impl<V: CellValue, const WIDTH: usize, const HEIGHT: usize> Grid<Tile2D<V, WIDTH, HEIGHT>> {
    /// Flatten a grid of tiles into a grid of the underlying values.
    ///
    /// A collapsed tile writes its values straight through: the output cell
    /// at `(x, y)` is collapsed to the value the tile at
    /// `(x / WIDTH, y / HEIGHT)` shows at `(x % WIDTH, y % HEIGHT)`. An
    /// uncollapsed tile cell yields, at each position of its block, a
    /// superposition carrying exactly the values its candidate tiles show
    /// there, each weighted by the sum of the weights of the tiles showing
    /// it.
    pub fn detile(&self) -> (r: Grid<V>)
        requires
            self.wf(),
            (self.spec_x() as nat) * (WIDTH as nat) <= usize::MAX,
            (self.spec_y() as nat) * (HEIGHT as nat) <= usize::MAX,
            ((self.spec_x() as nat) * (WIDTH as nat)) * ((self.spec_y() as nat) * (
            HEIGHT as nat)) <= usize::MAX,
        ensures
            r.wf(),
            forall|c: Coord2D| r.contains_coord(c) == (c.x < self.spec_x() * WIDTH && c.y
                < self.spec_y() * HEIGHT),
            forall|c: Coord2D| #[trigger] r.contains_coord(c) ==> WIDTH >= 1 && HEIGHT >= 1
                && detiled_cell_ok(
                self.cell_at(
                    Coord2D {
                        x: (c.x as int / WIDTH as int) as usize,
                        y: (c.y as int / HEIGHT as int) as usize,
                    },
                ),
                r.cell_at(c),
                c.x as int % WIDTH as int,
                c.y as int % HEIGHT as int,
            ),
    {
        let out_x = self.x * WIDTH;
        let out_y = self.y * HEIGHT;
        let mut out: Grid<V> = Grid::new(out_x, out_y);
        let sx = self.x;
        let sy = self.y;
        proof {
            assert((0int) * HEIGHT == 0) by (nonlinear_arith);
            assert((0int) * WIDTH == 0) by (nonlinear_arith);
        }
        for ty in 0..sy
            invariant
                self.wf(),
                sx == self.spec_x(),
                sy == self.spec_y(),
                out_x as int == self.spec_x() * WIDTH,
                out_y as int == self.spec_y() * HEIGHT,
                out.wf(),
                forall|c: Coord2D| out.contains_coord(c) == (c.x < out_x && c.y < out_y),
                forall|c: Coord2D| #[trigger] out.contains_coord(c) && (c.y as int) < (
                ty as int) * HEIGHT ==> WIDTH >= 1 && HEIGHT >= 1 && detiled_cell_ok(
                    self.cell_at(
                        Coord2D {
                            x: (c.x as int / WIDTH as int) as usize,
                            y: (c.y as int / HEIGHT as int) as usize,
                        },
                    ),
                    out.cell_at(c),
                    c.x as int % WIDTH as int,
                    c.y as int % HEIGHT as int,
                ),
                forall|c: Coord2D| #[trigger] out.contains_coord(c) && (c.y as int) >= (
                ty as int) * HEIGHT ==> detile_pristine(out.cell_at(c)),
        {
            proof {
                assert((0int) * WIDTH == 0) by (nonlinear_arith);
            }
            for tx in 0..sx
                invariant
                    self.wf(),
                    sx == self.spec_x(),
                    sy == self.spec_y(),
                    ty < sy,
                    out_x as int == self.spec_x() * WIDTH,
                    out_y as int == self.spec_y() * HEIGHT,
                    out.wf(),
                    forall|c: Coord2D| out.contains_coord(c) == (c.x < out_x && c.y < out_y),
                    forall|c: Coord2D| #[trigger] out.contains_coord(c) && ((c.y as int) < (
                    ty as int) * HEIGHT || ((c.y as int) < (ty as int + 1) * HEIGHT && (
                    c.x as int) < (tx as int) * WIDTH)) ==> WIDTH >= 1 && HEIGHT >= 1
                        && detiled_cell_ok(
                        self.cell_at(
                            Coord2D {
                                x: (c.x as int / WIDTH as int) as usize,
                                y: (c.y as int / HEIGHT as int) as usize,
                            },
                        ),
                        out.cell_at(c),
                        c.x as int % WIDTH as int,
                        c.y as int % HEIGHT as int,
                    ),
                    forall|c: Coord2D| #[trigger] out.contains_coord(c) && !((c.y as int) < (
                    ty as int) * HEIGHT || ((c.y as int) < (ty as int + 1) * HEIGHT && (
                    c.x as int) < (tx as int) * WIDTH)) ==> detile_pristine(out.cell_at(c)),
            {
                proof {
                    assert((tx as int + 1) * WIDTH <= (sx as int) * WIDTH) by (nonlinear_arith)
                        requires
                            tx as int + 1 <= sx as int,
                            WIDTH >= 0,
                    ;
                    assert((ty as int + 1) * HEIGHT <= (sy as int) * HEIGHT) by (nonlinear_arith)
                        requires
                            ty as int + 1 <= sy as int,
                            HEIGHT >= 0,
                    ;
                    assert((tx as int) * WIDTH + WIDTH == (tx as int + 1) * WIDTH)
                        by (nonlinear_arith);
                    assert((ty as int) * HEIGHT + HEIGHT == (ty as int + 1) * HEIGHT)
                        by (nonlinear_arith);
                    assert forall|c: Coord2D|
                        tx * WIDTH <= c.x < tx * WIDTH + WIDTH && ty * HEIGHT <= c.y < ty * HEIGHT
                            + HEIGHT implies #[trigger] out.contains_coord(c) && detile_pristine(
                        out.cell_at(c),
                    ) by {
                        assert(out.contains_coord(c));
                    }
                }
                let tcell = match self.get_cell(&Coord2D { x: tx, y: ty }) {
                    Some(cell) => cell,
                    None => {
                        proof {
                            assert(false);
                        }
                        unreached()
                    },
                };
                let ghost sp = out;
                match tcell {
                    Cell::Collapsed(tile) => {
                        detile_collapsed_block(&mut out, tile, tx, ty);
                    },
                    Cell::Uncollapsed(map) => {
                        let entries = map.duplicate().into_entries();
                        proof {
                            assert(crate::weights::as_map(entries@) == self.cell_at(
                                Coord2D { x: tx, y: ty },
                            ).weights());
                            assert forall|t: Tile2D<V, WIDTH, HEIGHT>| #[trigger] crate::weights::as_map(
                                entries@,
                            ).contains_key(t) <==> self.cell_at(
                                Coord2D { x: tx, y: ty },
                            ).weights().contains_key(t) by {}
                        }
                        detile_open_block(&mut out, &entries, tx, ty);
                        proof {
                            assert forall|c: Coord2D|
                                tx * WIDTH <= c.x < tx * WIDTH + WIDTH && ty * HEIGHT <= c.y < ty
                                    * HEIGHT + HEIGHT implies (#[trigger] out.cell_at(
                                c,
                            )) is Uncollapsed && (forall|v: V|
                                out.cell_at(c).weights().contains_key(v) <==> exists|
                                    t: Tile2D<V, WIDTH, HEIGHT>,
                                |
                                    #[trigger] self.cell_at(
                                        Coord2D { x: tx, y: ty },
                                    ).weights().contains_key(t) && t.spec_get(
                                        c.x - tx * WIDTH,
                                        c.y - ty * HEIGHT,
                                    ) == v) by {
                                assert forall|v: V|
                                    out.cell_at(c).weights().contains_key(v) <==> exists|
                                        t: Tile2D<V, WIDTH, HEIGHT>,
                                    |
                                        #[trigger] self.cell_at(
                                            Coord2D { x: tx, y: ty },
                                        ).weights().contains_key(t) && t.spec_get(
                                            c.x - tx * WIDTH,
                                            c.y - ty * HEIGHT,
                                        ) == v by {
                                    if out.cell_at(c).weights().contains_key(v) {
                                        let q = choose|q: int|
                                            0 <= q < entries@.len()
                                                && (#[trigger] entries@[q].0).spec_get(
                                                c.x - tx * WIDTH,
                                                c.y - ty * HEIGHT,
                                            ) == v;
                                        crate::weights::lemma_as_map_keys(
                                            entries@,
                                            entries@[q].0,
                                        );
                                    } else {
                                        if exists|t: Tile2D<V, WIDTH, HEIGHT>|
                                            #[trigger] self.cell_at(
                                                Coord2D { x: tx, y: ty },
                                            ).weights().contains_key(t) && t.spec_get(
                                                c.x - tx * WIDTH,
                                                c.y - ty * HEIGHT,
                                            ) == v {
                                            let t = choose|t: Tile2D<V, WIDTH, HEIGHT>|
                                                #[trigger] self.cell_at(
                                                    Coord2D { x: tx, y: ty },
                                                ).weights().contains_key(t) && t.spec_get(
                                                    c.x - tx * WIDTH,
                                                    c.y - ty * HEIGHT,
                                                ) == v;
                                            crate::weights::lemma_as_map_keys(entries@, t);
                                            let q = choose|q: int|
                                                0 <= q < entries@.len() && entries@[q].0 == t;
                                            assert(entries@[q].0.spec_get(
                                                c.x - tx * WIDTH,
                                                c.y - ty * HEIGHT,
                                            ) == v);
                                        }
                                    }
                                }
                            }
                            assert forall|c: Coord2D, v: V|
                                tx * WIDTH <= c.x < tx * WIDTH + WIDTH && ty * HEIGHT <= c.y < ty
                                    * HEIGHT + HEIGHT implies #[trigger] weight_of(
                                out.cell_at(c).weights(),
                                v,
                            ) == projected_weight(
                                self.cell_at(Coord2D { x: tx, y: ty }).weights(),
                                c.x - tx * WIDTH,
                                c.y - ty * HEIGHT,
                                v,
                            ) by {
                                lemma_projected_as_map(
                                    entries@,
                                    c.x - tx * WIDTH,
                                    c.y - ty * HEIGHT,
                                    v,
                                );
                            }
                        }
                    },
                }
                proof {
                    assert forall|c: Coord2D| #[trigger] out.contains_coord(c) && ((c.y as int) < (
                    ty as int) * HEIGHT || ((c.y as int) < (ty as int + 1) * HEIGHT && (
                    c.x as int) < (tx as int + 1) * WIDTH)) implies WIDTH >= 1 && HEIGHT >= 1
                        && detiled_cell_ok(
                        self.cell_at(
                            Coord2D {
                                x: (c.x as int / WIDTH as int) as usize,
                                y: (c.y as int / HEIGHT as int) as usize,
                            },
                        ),
                        out.cell_at(c),
                        c.x as int % WIDTH as int,
                        c.y as int % HEIGHT as int,
                    ) by {
                        let inblock = tx * WIDTH <= c.x < tx * WIDTH + WIDTH && ty * HEIGHT <= c.y
                            < ty * HEIGHT + HEIGHT;
                        if inblock {
                            vstd::arithmetic::div_mod::lemma_fundamental_div_mod_converse(
                                c.x as int,
                                WIDTH as int,
                                tx as int,
                                c.x - tx * WIDTH,
                            );
                            vstd::arithmetic::div_mod::lemma_fundamental_div_mod_converse(
                                c.y as int,
                                HEIGHT as int,
                                ty as int,
                                c.y - ty * HEIGHT,
                            );
                            assert(c.x as int / WIDTH as int == tx as int);
                            assert(c.y as int / HEIGHT as int == ty as int);
                            assert(c.x as int % WIDTH as int == c.x - tx * WIDTH);
                            assert(c.y as int % HEIGHT as int == c.y - ty * HEIGHT);
                        } else {
                            assert(out.cell_at(c) == sp.cell_at(c));
                            assert((c.y as int) < (ty as int) * HEIGHT || ((c.y as int) < (
                            ty as int + 1) * HEIGHT && (c.x as int) < (tx as int) * WIDTH));
                        }
                    }
                    assert forall|c: Coord2D| #[trigger] out.contains_coord(c) && !((
                    c.y as int) < (ty as int) * HEIGHT || ((c.y as int) < (ty as int + 1) * HEIGHT
                        && (c.x as int) < (tx as int + 1) * WIDTH)) implies detile_pristine(
                        out.cell_at(c),
                    ) by {
                        assert(out.cell_at(c) == sp.cell_at(c));
                    }
                }
            }
            proof {
                assert((ty as int + 1) * HEIGHT == (ty as int) * HEIGHT + HEIGHT)
                    by (nonlinear_arith);
                assert forall|c: Coord2D| #[trigger] out.contains_coord(c) && (c.y as int) < (
                ty as int + 1) * HEIGHT implies (c.y as int) < (ty as int) * HEIGHT || ((
                c.y as int) < (ty as int + 1) * HEIGHT && (c.x as int) < (sx as int) * WIDTH) by {
                    assert(c.x < out_x);
                }
            }
        }
        proof {
            assert forall|c: Coord2D| #[trigger] out.contains_coord(c) implies (c.y as int) < (
            sy as int) * HEIGHT by {}
        }
        out
    }
}

impl<V: CellValue> Grid<V> {
    /// The combined effect of replacing the one cell at `coord` (at vector
    /// position `i`) between `g0` and `self`.
    proof fn lemma_grid_update(&self, g0: Grid<V>, coord: Coord2D, i: int)
        requires
            g0.wf(),
            g0.contains_coord(coord),
            i == g0.spec_idx(coord),
            0 <= i < g0.cells@.len(),
            self.x == g0.x,
            self.y == g0.y,
            self.cells@ =~= g0.cells@.update(i, self.cells@[i]),
        ensures
            self.wf(),
            self.spec_cell_count() == g0.spec_cell_count(),
            forall|c: Coord2D| self.contains_coord(c) == g0.contains_coord(c),
            self.cell_at(coord) == self.cells@[i],
            forall|c: Coord2D|
                c != coord && g0.contains_coord(c) ==> #[trigger] self.cell_at(c) == g0.cell_at(c),
            self.uncollapsed_count() == g0.uncollapsed_count() - (if g0.cell_at(
                coord,
            ) is Uncollapsed {
                1int
            } else {
                0int
            }) + (if self.cell_at(coord) is Uncollapsed {
                1int
            } else {
                0int
            }),
    {
        lemma_count_uncollapsed_update(g0.cells@, i, self.cells@[i]);
        assert forall|c: Coord2D| c != coord && g0.contains_coord(c) implies #[trigger] self.cell_at(
            c,
        ) == g0.cell_at(c) by {
            g0.lemma_idx_injective(c, coord);
            g0.lemma_idx_bounds(c);
        }
    }
}

} // verus!
