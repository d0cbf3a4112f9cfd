//! The standard two-dimensional tiled wavefunction: adjacency rules learned
//! from a sample.

use super::Wavefunction;
use crate::cell::{CellValue, Function, Operation};
use crate::layout::{Coord2D, Direction, Grid, Layout};
use crate::tile::Tile2D;
use crate::weights::{spec_add_weight, spec_merge, weight_of, WeightMap};
use vstd::prelude::*;

verus! {

/// The observed neighbor frequencies of one tile, one weight map per
/// orthogonal direction.
struct Adjacency<V: CellValue> {
    up: WeightMap<Tile2D<V, 2, 2>>,
    right: WeightMap<Tile2D<V, 2, 2>>,
    down: WeightMap<Tile2D<V, 2, 2>>,
    left: WeightMap<Tile2D<V, 2, 2>>,
}

impl<V: CellValue> Adjacency<V> {
    /// The observations in the given direction; empty for a diagonal.
    spec fn dir_view(&self, dir: Direction) -> Map<Tile2D<V, 2, 2>, nat> {
        match dir {
            Direction::Up => self.up@,
            Direction::Right => self.right@,
            Direction::Down => self.down@,
            Direction::Left => self.left@,
            _ => Map::empty(),
        }
    }

    /// The total of the observations in the given direction.
    spec fn dir_total(&self, dir: Direction) -> nat {
        match dir {
            Direction::Up => self.up.spec_total(),
            Direction::Right => self.right.spec_total(),
            Direction::Down => self.down.spec_total(),
            Direction::Left => self.left.spec_total(),
            _ => 0,
        }
    }

    /// Record one observation of `adjacent` in the direction `dir`.
    fn add_dir(&mut self, dir: Direction, adjacent: Tile2D<V, 2, 2>)
        requires
            !(dir is UpLeft || dir is UpRight || dir is DownLeft || dir is DownRight),
            old(self).dir_total(dir) + 1 <= usize::MAX,
        ensures
            final(self).dir_view(dir) == spec_add_weight(old(self).dir_view(dir), adjacent, 1),
            final(self).dir_total(dir) == old(self).dir_total(dir) + 1,
            forall|d: Direction|
                d != dir ==> (#[trigger] final(self).dir_view(d)) == old(self).dir_view(d)
                    && final(self).dir_total(d) == old(self).dir_total(d),
    {
        match dir {
            Direction::Up => self.up.add_count(adjacent, 1),
            Direction::Right => self.right.add_count(adjacent, 1),
            Direction::Down => self.down.add_count(adjacent, 1),
            Direction::Left => self.left.add_count(adjacent, 1),
            _ => {
                proof {
                    assert(false);
                }
            },
        }
        proof {
            assert forall|d: Direction|
                d != dir implies (#[trigger] self.dir_view(d)) == old(self).dir_view(d)
                && self.dir_total(d) == old(self).dir_total(d) by {}
        }
    }

    /// No observations at all.
    fn empty() -> (r: Self)
        ensures
            forall|dir: Direction| #[trigger] r.dir_view(dir) == Map::<Tile2D<V, 2, 2>, nat>::empty(),
            forall|dir: Direction| #[trigger] r.dir_total(dir) == 0,
    {
        Adjacency {
            up: WeightMap::new(),
            right: WeightMap::new(),
            down: WeightMap::new(),
            left: WeightMap::new(),
        }
    }
}

/// A wavefunction for tile-based generation: 2-by-2 tiles are extracted from
/// a sample grid together with their orthogonal-adjacency frequencies, and
/// propagation keeps each neighbor's candidates among the tiles ever
/// observed next to the committed one.
pub struct Standard2D<V: CellValue> {
    layout: Grid<Tile2D<V, 2, 2>>,
    /// For each observed tile, its neighbor frequencies per direction.
    adj: Vec<(Tile2D<V, 2, 2>, Adjacency<V>)>,
}

impl<V: CellValue> Standard2D<V> {
    /// The output layout the wavefunction owns; the trait reports the same
    /// value as the initial layout.
    pub closed spec fn spec_layout(&self) -> Grid<Tile2D<V, 2, 2>> {
        self.layout
    }

    /// The tiles ever observed next to `t` in the direction `dir`, with
    /// their observation counts; empty when `t` was never seen.
    pub closed spec fn spec_allowed(&self, t: Tile2D<V, 2, 2>, dir: Direction) -> Map<
        Tile2D<V, 2, 2>,
        nat,
    > {
        if exists|i: int| 0 <= i < self.adj@.len() && (#[trigger] self.adj@[i]).0 == t {
            self.adj@[self.spec_lookup(t)].1.dir_view(dir)
        } else {
            Map::empty()
        }
    }

    /// The total of the observation counts next to `t` in direction `dir`.
    pub closed spec fn spec_allowed_total(&self, t: Tile2D<V, 2, 2>, dir: Direction) -> nat {
        if exists|i: int| 0 <= i < self.adj@.len() && (#[trigger] self.adj@[i]).0 == t {
            self.adj@[self.spec_lookup(t)].1.dir_total(dir)
        } else {
            0
        }
    }

    /// A tiled wavefunction over an output grid of the given size, with
    /// nothing learned yet.
    pub fn new(x: usize, y: usize) -> (r: Self)
        requires
            (x as nat) * (y as nat) <= usize::MAX,
        ensures
            r.wf(),
            forall|t: Tile2D<V, 2, 2>, dir: Direction| #[trigger] r.spec_allowed(t, dir) == Map::<
                Tile2D<V, 2, 2>,
                nat,
            >::empty(),
            forall|t: Tile2D<V, 2, 2>, dir: Direction| #[trigger] r.spec_allowed_total(t, dir)
                == 0,
            forall|c: Coord2D| r.spec_layout().contains_coord(c) == (c.x < x && c.y < y),
            forall|c: Coord2D| #[trigger] r.spec_layout().contains_coord(c)
                ==> r.spec_layout().cell_at(c) is Uncollapsed && r.spec_layout().cell_at(
                c,
            ).weights() == Map::<Tile2D<V, 2, 2>, nat>::empty() && r.spec_layout().cell_at(
                c,
            ).weights_total() == 0,
    {
        Standard2D { layout: Grid::new(x, y), adj: Vec::new() }
    }

    /// The position of the tile's entry in the adjacency list.
    fn find_index(&self, t: &Tile2D<V, 2, 2>) -> (r: Option<usize>)
        ensures
            match r {
                Some(i) => i < self.adj@.len() && self.adj@[i as int].0 == *t,
                None => forall|j: int| 0 <= j < self.adj@.len() ==> (#[trigger] self.adj@[j]).0
                    != *t,
            },
    {
        let n = self.adj.len();
        for i in 0..n
            invariant
                n == self.adj@.len(),
                forall|j: int| 0 <= j < i ==> (#[trigger] self.adj@[j]).0 != *t,
        {
            if self.adj[i].0.same(t) {
                return Some(i);
            }
        }
        None
    }

    /// Record one observation: `adjacent` was seen next to `tile` in the
    /// direction `direction`.
    fn add_adjacency(
        &mut self,
        tile: Tile2D<V, 2, 2>,
        direction: Direction,
        adjacent: Tile2D<V, 2, 2>,
    )
        requires
            old(self).wf(),
            !(direction is UpLeft || direction is UpRight || direction is DownLeft
                || direction is DownRight),
            old(self).spec_allowed_total(tile, direction) + 1 <= usize::MAX,
        ensures
            final(self).wf(),
            final(self).spec_layout() == old(self).spec_layout(),
            final(self).spec_allowed(tile, direction) == spec_add_weight(
                old(self).spec_allowed(tile, direction),
                adjacent,
                1,
            ),
            final(self).spec_allowed_total(tile, direction) == old(self).spec_allowed_total(
                tile,
                direction,
            ) + 1,
            forall|t: Tile2D<V, 2, 2>, dir: Direction|
                !(t == tile && dir == direction) ==> #[trigger] final(self).spec_allowed(t, dir)
                    == old(self).spec_allowed(t, dir),
            forall|t: Tile2D<V, 2, 2>, dir: Direction|
                !(t == tile && dir == direction) ==> #[trigger] final(self).spec_allowed_total(
                    t,
                    dir,
                ) == old(self).spec_allowed_total(t, dir),
    {
        proof {
            if exists|j: int| 0 <= j < self.adj@.len() && (#[trigger] self.adj@[j]).0 == tile {
                let j = choose|j: int| 0 <= j < self.adj@.len() && (#[trigger] self.adj@[j]).0
                    == tile;
                self.lemma_lookup(tile, j);
            }
        }
        match self.find_index(&tile) {
            Some(i) => {
                proof {
                    self.lemma_lookup(tile, i as int);
                    assert(old(self).spec_allowed_total(tile, direction) == self.adj@[
                        i as int
                    ].1.dir_total(direction));
                }
                let ghost a0 = self.adj@;
                let mut tmp: (Tile2D<V, 2, 2>, Adjacency<V>) = (tile, Adjacency::empty());
                self.adj.set_and_swap(i, &mut tmp);
                let (key, mut entry) = tmp;
                entry.add_dir(direction, adjacent);
                self.adj.set(i, (key, entry));
                proof {
                    self.lemma_adj_update(*old(self), i as int, tile, direction, adjacent);
                }
            },
            None => {
                let ghost a0 = self.adj@;
                let mut entry = Adjacency::empty();
                entry.add_dir(direction, adjacent);
                self.adj.push((tile, entry));
                proof {
                    self.lemma_adj_push(*old(self), tile, direction, adjacent);
                }
            },
        }
    }

    /// Relate the adjacency views before and after updating the entry at `i`.
    proof fn lemma_adj_update(
        &self,
        s0: Self,
        i: int,
        tile: Tile2D<V, 2, 2>,
        direction: Direction,
        adjacent: Tile2D<V, 2, 2>,
    )
        requires
            s0.wf(),
            0 <= i < s0.adj@.len(),
            s0.adj@[i].0 == tile,
            self.layout == s0.layout,
            self.adj@.len() == s0.adj@.len(),
            self.adj@ =~= s0.adj@.update(i, self.adj@[i]),
            self.adj@[i].0 == tile,
            self.adj@[i].1.dir_view(direction) == spec_add_weight(
                s0.adj@[i].1.dir_view(direction),
                adjacent,
                1,
            ),
            self.adj@[i].1.dir_total(direction) == s0.adj@[i].1.dir_total(direction) + 1,
            forall|dir: Direction|
                dir != direction ==> (#[trigger] self.adj@[i].1.dir_view(dir)) == s0.adj@[i].1.dir_view(dir) && self.adj@[i].1.dir_total(dir) == s0.adj@[i].1.dir_total(dir),
        ensures
            self.wf(),
            self.spec_layout() == s0.spec_layout(),
            self.spec_allowed(tile, direction) == spec_add_weight(
                s0.spec_allowed(tile, direction),
                adjacent,
                1,
            ),
            self.spec_allowed_total(tile, direction) == s0.spec_allowed_total(tile, direction)
                + 1,
            forall|t: Tile2D<V, 2, 2>, dir: Direction|
                !(t == tile && dir == direction) ==> #[trigger] self.spec_allowed(t, dir)
                    == s0.spec_allowed(t, dir),
            forall|t: Tile2D<V, 2, 2>, dir: Direction|
                !(t == tile && dir == direction) ==> #[trigger] self.spec_allowed_total(t, dir)
                    == s0.spec_allowed_total(t, dir),
    {
        assert forall|a: int, b: int| 0 <= a < b < self.adj@.len() implies self.adj@[a].0
            != self.adj@[b].0 by {
            assert(self.adj@[a].0 == s0.adj@[a].0);
            assert(self.adj@[b].0 == s0.adj@[b].0);
        }
        self.lemma_lookup(tile, i);
        s0.lemma_lookup(tile, i);
        assert forall|t: Tile2D<V, 2, 2>, dir: Direction|
            !(t == tile && dir == direction) implies #[trigger] self.spec_allowed(t, dir)
            == s0.spec_allowed(t, dir) && self.spec_allowed_total(t, dir) == s0.spec_allowed_total(
            t,
            dir,
        ) by {
            if exists|j: int| 0 <= j < s0.adj@.len() && (#[trigger] s0.adj@[j]).0 == t {
                let j = choose|j: int| 0 <= j < s0.adj@.len() && (#[trigger] s0.adj@[j]).0 == t;
                assert(self.adj@[j].0 == t);
                self.lemma_lookup(t, j);
                s0.lemma_lookup(t, j);
                if j != i {
                    assert(self.adj@[j] == s0.adj@[j]);
                }
            } else {
                assert forall|j: int| 0 <= j < self.adj@.len() implies (#[trigger] self.adj@[j]).0 != t by {
                    assert(self.adj@[j].0 == s0.adj@[j].0);
                }
            }
        }
        assert(self.spec_lookup(tile) == i);
        assert(s0.spec_lookup(tile) == i);
        assert forall|t: Tile2D<V, 2, 2>, dir: Direction|
            !(t == tile && dir == direction) implies #[trigger] self.spec_allowed_total(t, dir)
            == s0.spec_allowed_total(t, dir) by {
            assert(self.spec_allowed(t, dir) == s0.spec_allowed(t, dir));
        }
    }

    /// Relate the adjacency views before and after pushing a fresh entry.
    proof fn lemma_adj_push(
        &self,
        s0: Self,
        tile: Tile2D<V, 2, 2>,
        direction: Direction,
        adjacent: Tile2D<V, 2, 2>,
    )
        requires
            s0.wf(),
            forall|j: int| 0 <= j < s0.adj@.len() ==> (#[trigger] s0.adj@[j]).0 != tile,
            self.layout == s0.layout,
            self.adj@ =~= s0.adj@.push(self.adj@.last()),
            self.adj@.len() == s0.adj@.len() + 1,
            self.adj@.last().0 == tile,
            self.adj@.last().1.dir_view(direction) == spec_add_weight(
                Map::<Tile2D<V, 2, 2>, nat>::empty(),
                adjacent,
                1,
            ),
            self.adj@.last().1.dir_total(direction) == 1,
            forall|dir: Direction|
                dir != direction ==> (#[trigger] self.adj@.last().1.dir_view(dir)) == Map::<
                    Tile2D<V, 2, 2>,
                    nat,
                >::empty() && self.adj@.last().1.dir_total(dir) == 0,
        ensures
            self.wf(),
            self.spec_layout() == s0.spec_layout(),
            self.spec_allowed(tile, direction) == spec_add_weight(
                s0.spec_allowed(tile, direction),
                adjacent,
                1,
            ),
            self.spec_allowed_total(tile, direction) == s0.spec_allowed_total(tile, direction)
                + 1,
            forall|t: Tile2D<V, 2, 2>, dir: Direction|
                !(t == tile && dir == direction) ==> #[trigger] self.spec_allowed(t, dir)
                    == s0.spec_allowed(t, dir),
            forall|t: Tile2D<V, 2, 2>, dir: Direction|
                !(t == tile && dir == direction) ==> #[trigger] self.spec_allowed_total(t, dir)
                    == s0.spec_allowed_total(t, dir),
    {
        let m = self.adj@.len() - 1;
        assert forall|a: int, b: int| 0 <= a < b < self.adj@.len() implies self.adj@[a].0
            != self.adj@[b].0 by {
            if b < m {
                assert(self.adj@[a].0 == s0.adj@[a].0);
                assert(self.adj@[b].0 == s0.adj@[b].0);
            } else {
                assert(self.adj@[a].0 == s0.adj@[a].0);
                assert(self.adj@[b].0 == tile);
            }
        }
        assert(self.adj@[m].0 == tile);
        self.lemma_lookup(tile, m);
        assert(!(exists|j: int| 0 <= j < s0.adj@.len() && (#[trigger] s0.adj@[j]).0 == tile));
        assert(s0.spec_allowed(tile, direction) == Map::<Tile2D<V, 2, 2>, nat>::empty());
        assert forall|t: Tile2D<V, 2, 2>, dir: Direction|
            !(t == tile && dir == direction) implies #[trigger] self.spec_allowed(t, dir)
            == s0.spec_allowed(t, dir) && self.spec_allowed_total(t, dir) == s0.spec_allowed_total(
            t,
            dir,
        ) by {
            if t == tile {
                assert(self.spec_lookup(t) == m);
            } else {
                if exists|j: int| 0 <= j < s0.adj@.len() && (#[trigger] s0.adj@[j]).0 == t {
                    let j = choose|j: int|
                        0 <= j < s0.adj@.len() && (#[trigger] s0.adj@[j]).0 == t;
                    assert(self.adj@[j].0 == t);
                    self.lemma_lookup(t, j);
                    s0.lemma_lookup(t, j);
                    assert(self.adj@[j] == s0.adj@[j]);
                } else {
                    assert forall|j: int| 0 <= j < self.adj@.len() implies (#[trigger] self.adj@[j]).0 != t by {
                        if j < m {
                            assert(self.adj@[j].0 == s0.adj@[j].0);
                        }
                    }
                }
            }
        }
        assert forall|t: Tile2D<V, 2, 2>, dir: Direction|
            !(t == tile && dir == direction) implies #[trigger] self.spec_allowed_total(t, dir)
            == s0.spec_allowed_total(t, dir) by {
            assert(self.spec_allowed(t, dir) == s0.spec_allowed(t, dir));
        }
    }

    /// The unique position of a tile in a well-formed adjacency list.
    spec fn spec_lookup(&self, t: Tile2D<V, 2, 2>) -> int {
        choose|i: int| 0 <= i < self.adj@.len() && (#[trigger] self.adj@[i]).0 == t
    }

    /// With distinct keys, any position holding `t` is the looked-up one.
    proof fn lemma_lookup(&self, t: Tile2D<V, 2, 2>, j: int)
        requires
            forall|a: int, b: int| 0 <= a < b < self.adj@.len() ==> (#[trigger] self.adj@[a]).0
                != (#[trigger] self.adj@[b]).0,
            0 <= j < self.adj@.len(),
            self.adj@[j].0 == t,
        ensures
            self.spec_lookup(t) == j,
            exists|i: int| 0 <= i < self.adj@.len() && (#[trigger] self.adj@[i]).0 == t,
    {
        assert(exists|i: int| 0 <= i < self.adj@.len() && (#[trigger] self.adj@[i]).0 == t);
        let i = self.spec_lookup(t);
        if i != j {
            if i < j {
                assert(self.adj@[i].0 != self.adj@[j].0);
            } else {
                assert(self.adj@[j].0 != self.adj@[i].0);
            }
        }
    }
}


impl<V: CellValue> Standard2D<V> {
    /// Propagate one committed tile: each orthogonal neighbor keeps only the
    /// candidates ever observed next to `value` in that direction, at the
    /// least of the two weights; a tile never observed in some direction
    /// leaves that neighbor an empty superposition, the contradiction the
    /// solver backtracks out of.
    pub fn propagate(
        &mut self,
        layout: &mut Grid<Tile2D<V, 2, 2>>,
        coord: Coord2D,
        value: Tile2D<V, 2, 2>,
    )
        requires
            old(self).wf(),
            old(layout).wf(),
        ensures
            final(self).wf(),
            *final(self) == *old(self),
            final(layout).wf(),
            final(layout).spec_cell_count() == old(layout).spec_cell_count(),
            final(layout).uncollapsed_count() == old(layout).uncollapsed_count(),
            forall|c: Coord2D| final(layout).contains_coord(c) == old(layout).contains_coord(c),
            forall|c: Coord2D|
                old(layout).contains_coord(c) && old(layout).cell_at(c) is Collapsed
                    ==> #[trigger] final(layout).cell_at(c) == old(layout).cell_at(c),
            forall|c: Coord2D|
                old(layout).contains_coord(c) && c != coord.spec_neighbor_scaled(
                    Direction::Up,
                    1,
                    1,
                ) && c != coord.spec_neighbor_scaled(Direction::Left, 1, 1) && c
                    != coord.spec_neighbor_scaled(Direction::Right, 1, 1) && c
                    != coord.spec_neighbor_scaled(Direction::Down, 1, 1) ==> #[trigger] final(layout).cell_at(c) == old(layout).cell_at(c),
            forall|dir: Direction|
                (dir is Up || dir is Left || dir is Right || dir is Down) && old(layout).contains_coord(coord.spec_neighbor_scaled(dir, 1, 1)) && old(layout).cell_at(
                    coord.spec_neighbor_scaled(dir, 1, 1),
                ) is Uncollapsed ==> (#[trigger] final(layout).cell_at(
                    coord.spec_neighbor_scaled(dir, 1, 1),
                )) is Uncollapsed && final(layout).cell_at(
                    coord.spec_neighbor_scaled(dir, 1, 1),
                ).weights() == spec_merge(
                    Operation::Intersection,
                    Function::Min,
                    old(layout).cell_at(coord.spec_neighbor_scaled(dir, 1, 1)).weights(),
                    old(self).spec_allowed(value, dir),
                ),
    {
        proof {
            lemma_orthogonal_neighbors_distinct(coord);
        }
        let neighbors = coord.neighbor_directions4();
        let empty_allowed: WeightMap<Tile2D<V, 2, 2>> = WeightMap::new();
        let n0 = neighbors[0];
        let n1 = neighbors[1];
        let n2 = neighbors[2];
        let n3 = neighbors[3];
        self.merge_neighbor(layout, n0.0, n0.1, value, &empty_allowed);
        self.merge_neighbor(layout, n1.0, n1.1, value, &empty_allowed);
        self.merge_neighbor(layout, n2.0, n2.1, value, &empty_allowed);
        self.merge_neighbor(layout, n3.0, n3.1, value, &empty_allowed);
    }

    /// Constrain one neighbor cell to the tiles observed next to `value` in
    /// the direction `dir`.
    fn merge_neighbor(
        &self,
        layout: &mut Grid<Tile2D<V, 2, 2>>,
        ncoord: Coord2D,
        dir: Direction,
        value: Tile2D<V, 2, 2>,
        empty_allowed: &WeightMap<Tile2D<V, 2, 2>>,
    )
        requires
            self.wf(),
            old(layout).wf(),
            empty_allowed@ == Map::<Tile2D<V, 2, 2>, nat>::empty(),
        ensures
            final(layout).wf(),
            final(layout).spec_cell_count() == old(layout).spec_cell_count(),
            final(layout).uncollapsed_count() == old(layout).uncollapsed_count(),
            forall|c: Coord2D| final(layout).contains_coord(c) == old(layout).contains_coord(c),
            forall|c: Coord2D|
                old(layout).contains_coord(c) && c != ncoord ==> #[trigger] final(layout).cell_at(
                    c,
                ) == old(layout).cell_at(c),
            !old(layout).contains_coord(ncoord) ==> *final(layout) == *old(layout),
            old(layout).contains_coord(ncoord) && old(layout).cell_at(ncoord) is Collapsed
                ==> final(layout).cell_at(ncoord) == old(layout).cell_at(ncoord),
            old(layout).contains_coord(ncoord) && old(layout).cell_at(ncoord) is Uncollapsed
                ==> final(layout).cell_at(ncoord) is Uncollapsed && final(layout).cell_at(
                ncoord,
            ).weights() == spec_merge(
                Operation::Intersection,
                Function::Min,
                old(layout).cell_at(ncoord).weights(),
                self.spec_allowed(value, dir),
            ),
    {
        match self.find_index(&value) {
            Some(i) => {
                proof {
                    self.lemma_lookup(value, i as int);
                }
                let entry = &self.adj[i].1;
                let allowed = match dir {
                    Direction::Up => &entry.up,
                    Direction::Right => &entry.right,
                    Direction::Down => &entry.down,
                    Direction::Left => &entry.left,
                    _ => empty_allowed,
                };
                layout.merge_cell_possibilities(
                    &ncoord,
                    Operation::Intersection,
                    Function::Min,
                    allowed,
                );
            },
            None => {
                proof {
                    assert(!(exists|j: int|
                        0 <= j < self.adj@.len() && (#[trigger] self.adj@[j]).0 == value));
                }
                layout.merge_cell_possibilities(
                    &ncoord,
                    Operation::Intersection,
                    Function::Min,
                    empty_allowed,
                );
            },
        }
    }

    /// Build the adjacency observations and the candidate pool from a fully
    /// or partly collapsed sample grid.
    ///
    /// At every coordinate of the sample where a fully collapsed 2-by-2 tile
    /// begins, the tile is recorded as a candidate in every cell of the
    /// output layout with one more unit of weight, and each of its four
    /// orthogonally adjacent tiles, where one exists, is recorded as an
    /// observed neighbor. The contract counts exactly: each observation
    /// weight grows by the number of sample positions showing the pair, each
    /// cell's candidate weight by the number of positions showing the tile.
    #[verifier::rlimit(100)]
    pub fn learn(&mut self, material: &Grid<V>)
        requires
            old(self).wf(),
            material.wf(),
            old(self).spec_adjacency_headroom(
                (material.spec_x() as nat) * (material.spec_y() as nat),
            ),
            forall|c: Coord2D|
                old(self).spec_layout().contains_coord(c) ==> (#[trigger] old(
                    self,
                ).spec_layout().cell_at(c)).weights_total() + (material.spec_x() as nat) * (
                material.spec_y() as nat) <= usize::MAX,
        ensures
            final(self).wf(),
            forall|c: Coord2D| final(self).spec_layout().contains_coord(c) == old(
                self,
            ).spec_layout().contains_coord(c),
            forall|c: Coord2D|
                old(self).spec_layout().contains_coord(c) && old(self).spec_layout().cell_at(
                    c,
                ) is Collapsed ==> #[trigger] final(self).spec_layout().cell_at(c) == old(
                    self,
                ).spec_layout().cell_at(c),
            forall|c: Coord2D|
                old(self).spec_layout().contains_coord(c) && old(self).spec_layout().cell_at(
                    c,
                ) is Uncollapsed ==> (#[trigger] final(self).spec_layout().cell_at(
                    c,
                )) is Uncollapsed,
            forall|c: Coord2D, t: Tile2D<V, 2, 2>|
                old(self).spec_layout().contains_coord(c) && old(self).spec_layout().cell_at(
                    c,
                ) is Uncollapsed ==> #[trigger] weight_of(
                    final(self).spec_layout().cell_at(c).weights(),
                    t,
                ) == weight_of(old(self).spec_layout().cell_at(c).weights(), t) + sightings_upto(
                    *material,
                    (material.spec_x() as int) * (material.spec_y() as int),
                    t,
                ),
            forall|c: Coord2D|
                old(self).spec_layout().contains_coord(c) && old(self).spec_layout().cell_at(
                    c,
                ) is Uncollapsed ==> (#[trigger] final(self).spec_layout().cell_at(
                    c,
                )).weights_total() == old(self).spec_layout().cell_at(c).weights_total()
                    + tiles_upto(*material, (material.spec_x() as int) * (material.spec_y() as int)),
            forall|t: Tile2D<V, 2, 2>, dir: Direction, u: Tile2D<V, 2, 2>|
                (dir is Up || dir is Right || dir is Down || dir is Left)
                    ==> #[trigger] weight_of(final(self).spec_allowed(t, dir), u) == weight_of(
                    old(self).spec_allowed(t, dir),
                    u,
                ) + observations_upto(
                    *material,
                    (material.spec_x() as int) * (material.spec_y() as int),
                    t,
                    dir,
                    u,
                ),
            forall|t: Tile2D<V, 2, 2>, dir: Direction| #[trigger] final(self).spec_allowed_total(
                t,
                dir,
            ) <= old(self).spec_allowed_total(t, dir) + (material.spec_x() as nat) * (
            material.spec_y() as nat),
    {
        let mx = material.x();
        let my = material.y();
        let ghost s0 = *self;
        let ghost budget = (mx as nat) * (my as nat);
        proof {
            assert((0nat) * (mx as nat) == 0) by (nonlinear_arith);
            assert((0int) * (mx as int) == 0) by (nonlinear_arith);
        }
        for yy in 0..my
            invariant
                self.wf(),
                material.wf(),
                mx == material.spec_x(),
                my == material.spec_y(),
                budget == (mx as nat) * (my as nat),
                self.spec_adjacency_headroom((budget - (yy as nat) * (mx as nat)) as nat),
                (yy as nat) * (mx as nat) <= budget,
                forall|c: Coord2D| self.spec_layout().contains_coord(c)
                    == s0.spec_layout().contains_coord(c),
                forall|c: Coord2D|
                    s0.spec_layout().contains_coord(c) && s0.spec_layout().cell_at(
                        c,
                    ) is Collapsed ==> #[trigger] self.spec_layout().cell_at(c)
                        == s0.spec_layout().cell_at(c),
                forall|c: Coord2D|
                    s0.spec_layout().contains_coord(c) && s0.spec_layout().cell_at(
                        c,
                    ) is Uncollapsed ==> (#[trigger] self.spec_layout().cell_at(
                        c,
                    )) is Uncollapsed && self.spec_layout().cell_at(c).weights_total() + (budget
                        - (yy as nat) * (mx as nat)) <= usize::MAX,
                forall|c: Coord2D, t: Tile2D<V, 2, 2>|
                    s0.spec_layout().contains_coord(c) && s0.spec_layout().cell_at(
                        c,
                    ) is Uncollapsed ==> #[trigger] weight_of(
                        self.spec_layout().cell_at(c).weights(),
                        t,
                    ) == weight_of(s0.spec_layout().cell_at(c).weights(), t) + sightings_upto(
                        *material,
                        (yy as int) * (mx as int),
                        t,
                    ),
                forall|c: Coord2D|
                    s0.spec_layout().contains_coord(c) && s0.spec_layout().cell_at(
                        c,
                    ) is Uncollapsed ==> (#[trigger] self.spec_layout().cell_at(
                        c,
                    )).weights_total() == s0.spec_layout().cell_at(c).weights_total() + tiles_upto(
                        *material,
                        (yy as int) * (mx as int),
                    ),
                forall|t: Tile2D<V, 2, 2>, dir: Direction, u: Tile2D<V, 2, 2>|
                    (dir is Up || dir is Right || dir is Down || dir is Left)
                        ==> #[trigger] weight_of(self.spec_allowed(t, dir), u) == weight_of(
                        s0.spec_allowed(t, dir),
                        u,
                    ) + observations_upto(*material, (yy as int) * (mx as int), t, dir, u),
                forall|t: Tile2D<V, 2, 2>, dir: Direction| #[trigger] self.spec_allowed_total(
                    t,
                    dir,
                ) <= s0.spec_allowed_total(t, dir) + (yy as nat) * (mx as nat),
        {
            proof {
                assert((yy as nat) * (mx as nat) + mx == (yy as nat + 1) * (mx as nat))
                    by (nonlinear_arith);
                assert((yy as int) * (mx as int) + mx == (yy as int + 1) * (mx as int))
                    by (nonlinear_arith);
                assert((yy as nat + 1) * (mx as nat) <= (my as nat) * (mx as nat))
                    by (nonlinear_arith)
                    requires
                        yy as nat + 1 <= my as nat,
                ;
                assert((my as nat) * (mx as nat) == (mx as nat) * (my as nat))
                    by (nonlinear_arith);
                assert((yy as nat) * (mx as nat) == (yy as int) * (mx as int)) by (nonlinear_arith);
            }
            for xx in 0..mx
                invariant
                    self.wf(),
                    material.wf(),
                    mx == material.spec_x(),
                    my == material.spec_y(),
                    yy < my,
                    budget == (mx as nat) * (my as nat),
                    (yy as nat) * (mx as nat) + mx <= budget,
                    (yy as nat) * (mx as nat) == (yy as int) * (mx as int),
                    self.spec_adjacency_headroom(
                        (budget - (yy as nat) * (mx as nat) - (xx as nat)) as nat,
                    ),
                    forall|c: Coord2D| self.spec_layout().contains_coord(c)
                        == s0.spec_layout().contains_coord(c),
                    forall|c: Coord2D|
                        s0.spec_layout().contains_coord(c) && s0.spec_layout().cell_at(
                            c,
                        ) is Collapsed ==> #[trigger] self.spec_layout().cell_at(c)
                            == s0.spec_layout().cell_at(c),
                    forall|c: Coord2D|
                        s0.spec_layout().contains_coord(c) && s0.spec_layout().cell_at(
                            c,
                        ) is Uncollapsed ==> (#[trigger] self.spec_layout().cell_at(
                            c,
                        )) is Uncollapsed && self.spec_layout().cell_at(c).weights_total() + (
                        budget - (yy as nat) * (mx as nat) - (xx as nat)) <= usize::MAX,
                    forall|c: Coord2D, t: Tile2D<V, 2, 2>|
                        s0.spec_layout().contains_coord(c) && s0.spec_layout().cell_at(
                            c,
                        ) is Uncollapsed ==> #[trigger] weight_of(
                            self.spec_layout().cell_at(c).weights(),
                            t,
                        ) == weight_of(s0.spec_layout().cell_at(c).weights(), t) + sightings_upto(
                            *material,
                            (yy as int) * (mx as int) + (xx as int),
                            t,
                        ),
                    forall|c: Coord2D|
                        s0.spec_layout().contains_coord(c) && s0.spec_layout().cell_at(
                            c,
                        ) is Uncollapsed ==> (#[trigger] self.spec_layout().cell_at(
                            c,
                        )).weights_total() == s0.spec_layout().cell_at(c).weights_total()
                            + tiles_upto(*material, (yy as int) * (mx as int) + (xx as int)),
                    forall|t: Tile2D<V, 2, 2>, dir: Direction, u: Tile2D<V, 2, 2>|
                        (dir is Up || dir is Right || dir is Down || dir is Left)
                            ==> #[trigger] weight_of(self.spec_allowed(t, dir), u) == weight_of(
                            s0.spec_allowed(t, dir),
                            u,
                        ) + observations_upto(
                            *material,
                            (yy as int) * (mx as int) + (xx as int),
                            t,
                            dir,
                            u,
                        ),
                    forall|t: Tile2D<V, 2, 2>, dir: Direction| #[trigger] self.spec_allowed_total(
                        t,
                        dir,
                    ) <= s0.spec_allowed_total(t, dir) + (yy as nat) * (mx as nat) + (xx as nat),
            {
                let tile_coord = Coord2D { x: xx, y: yy };
                let ghost k = (yy as int) * (mx as int) + (xx as int);
                let ghost sa = *self;
                proof {
                    vstd::arithmetic::div_mod::lemma_fundamental_div_mod_converse(
                        k,
                        mx as int,
                        yy as int,
                        xx as int,
                    );
                    assert(sample_coord(*material, k) == tile_coord);
                }
                let tile_opt = material.get_tile::<2, 2>(tile_coord);
                if let Some(tile) = tile_opt {
                    proof {
                        assert(sample_tile_is(*material, tile_coord, tile));
                        assert forall|t: Tile2D<V, 2, 2>|
                            sample_tile_is(*material, tile_coord, t) implies t == tile by {
                            lemma_sample_tile_unique(*material, tile_coord, t, tile);
                        }
                    }
                    let n_up = tile_coord.get_neighbor_scaled(Direction::Up, tile.x(), tile.y());
                    let up_opt = material.get_tile::<2, 2>(n_up);
                    if let Some(adjacent) = up_opt {
                        self.add_adjacency(tile, Direction::Up, adjacent);
                    }
                    let ghost s1 = *self;
                    proof {
                        assert(n_up == tile_coord.spec_neighbor_scaled(Direction::Up, 2, 2));
                        assert forall|u: Tile2D<V, 2, 2>|
                            sample_tile_is(*material, n_up, u) implies up_opt is Some && u
                            == up_opt->Some_0 by {
                            if up_opt is Some {
                                lemma_sample_tile_unique(*material, n_up, u, up_opt->Some_0);
                            }
                        }
                        assert(up_opt is Some ==> sample_tile_is(*material, n_up, up_opt->Some_0));
                        assert forall|t: Tile2D<V, 2, 2>, dir: Direction|
                            !(t == tile && dir == Direction::Up)
                                implies #[trigger] s1.spec_allowed_total(t, dir)
                            == sa.spec_allowed_total(t, dir) && s1.spec_allowed(t, dir)
                            == sa.spec_allowed(t, dir) by {}
                        assert(s1.spec_allowed_total(tile, Direction::Up)
                            <= sa.spec_allowed_total(tile, Direction::Up) + 1);
                        assert(up_opt is Some ==> s1.spec_allowed(tile, Direction::Up)
                            == spec_add_weight(
                            sa.spec_allowed(tile, Direction::Up),
                            up_opt->Some_0,
                            1,
                        ));
                        assert(up_opt is None ==> s1.spec_allowed(tile, Direction::Up)
                            == sa.spec_allowed(tile, Direction::Up));
                    }
                    let n_right = tile_coord.get_neighbor_scaled(
                        Direction::Right,
                        tile.x(),
                        tile.y(),
                    );
                    let right_opt = material.get_tile::<2, 2>(n_right);
                    if let Some(adjacent) = right_opt {
                        self.add_adjacency(tile, Direction::Right, adjacent);
                    }
                    let ghost s2 = *self;
                    proof {
                        assert(n_right == tile_coord.spec_neighbor_scaled(Direction::Right, 2, 2));
                        assert forall|u: Tile2D<V, 2, 2>|
                            sample_tile_is(*material, n_right, u) implies right_opt is Some && u
                            == right_opt->Some_0 by {
                            if right_opt is Some {
                                lemma_sample_tile_unique(*material, n_right, u, right_opt->Some_0);
                            }
                        }
                        assert(right_opt is Some ==> sample_tile_is(
                            *material,
                            n_right,
                            right_opt->Some_0,
                        ));
                        assert forall|t: Tile2D<V, 2, 2>, dir: Direction|
                            !(t == tile && dir == Direction::Right)
                                implies #[trigger] s2.spec_allowed_total(t, dir)
                            == s1.spec_allowed_total(t, dir) && s2.spec_allowed(t, dir)
                            == s1.spec_allowed(t, dir) by {}
                        assert(s2.spec_allowed_total(tile, Direction::Right)
                            <= s1.spec_allowed_total(tile, Direction::Right) + 1);
                        assert(right_opt is Some ==> s2.spec_allowed(tile, Direction::Right)
                            == spec_add_weight(
                            s1.spec_allowed(tile, Direction::Right),
                            right_opt->Some_0,
                            1,
                        ));
                        assert(right_opt is None ==> s2.spec_allowed(tile, Direction::Right)
                            == s1.spec_allowed(tile, Direction::Right));
                    }
                    let n_down = tile_coord.get_neighbor_scaled(
                        Direction::Down,
                        tile.x(),
                        tile.y(),
                    );
                    let down_opt = material.get_tile::<2, 2>(n_down);
                    if let Some(adjacent) = down_opt {
                        self.add_adjacency(tile, Direction::Down, adjacent);
                    }
                    let ghost s3 = *self;
                    proof {
                        assert(n_down == tile_coord.spec_neighbor_scaled(Direction::Down, 2, 2));
                        assert forall|u: Tile2D<V, 2, 2>|
                            sample_tile_is(*material, n_down, u) implies down_opt is Some && u
                            == down_opt->Some_0 by {
                            if down_opt is Some {
                                lemma_sample_tile_unique(*material, n_down, u, down_opt->Some_0);
                            }
                        }
                        assert(down_opt is Some ==> sample_tile_is(
                            *material,
                            n_down,
                            down_opt->Some_0,
                        ));
                        assert forall|t: Tile2D<V, 2, 2>, dir: Direction|
                            !(t == tile && dir == Direction::Down)
                                implies #[trigger] s3.spec_allowed_total(t, dir)
                            == s2.spec_allowed_total(t, dir) && s3.spec_allowed(t, dir)
                            == s2.spec_allowed(t, dir) by {}
                        assert(s3.spec_allowed_total(tile, Direction::Down)
                            <= s2.spec_allowed_total(tile, Direction::Down) + 1);
                        assert(down_opt is Some ==> s3.spec_allowed(tile, Direction::Down)
                            == spec_add_weight(
                            s2.spec_allowed(tile, Direction::Down),
                            down_opt->Some_0,
                            1,
                        ));
                        assert(down_opt is None ==> s3.spec_allowed(tile, Direction::Down)
                            == s2.spec_allowed(tile, Direction::Down));
                    }
                    let n_left = tile_coord.get_neighbor_scaled(
                        Direction::Left,
                        tile.x(),
                        tile.y(),
                    );
                    let left_opt = material.get_tile::<2, 2>(n_left);
                    if let Some(adjacent) = left_opt {
                        self.add_adjacency(tile, Direction::Left, adjacent);
                    }
                    let ghost s4 = *self;
                    proof {
                        assert(n_left == tile_coord.spec_neighbor_scaled(Direction::Left, 2, 2));
                        assert forall|u: Tile2D<V, 2, 2>|
                            sample_tile_is(*material, n_left, u) implies left_opt is Some && u
                            == left_opt->Some_0 by {
                            if left_opt is Some {
                                lemma_sample_tile_unique(*material, n_left, u, left_opt->Some_0);
                            }
                        }
                        assert(left_opt is Some ==> sample_tile_is(
                            *material,
                            n_left,
                            left_opt->Some_0,
                        ));
                        assert forall|t: Tile2D<V, 2, 2>, dir: Direction|
                            !(t == tile && dir == Direction::Left)
                                implies #[trigger] s4.spec_allowed_total(t, dir)
                            == s3.spec_allowed_total(t, dir) && s4.spec_allowed(t, dir)
                            == s3.spec_allowed(t, dir) by {}
                        assert(s4.spec_allowed_total(tile, Direction::Left)
                            <= s3.spec_allowed_total(tile, Direction::Left) + 1);
                        assert(left_opt is Some ==> s4.spec_allowed(tile, Direction::Left)
                            == spec_add_weight(
                            s3.spec_allowed(tile, Direction::Left),
                            left_opt->Some_0,
                            1,
                        ));
                        assert(left_opt is None ==> s4.spec_allowed(tile, Direction::Left)
                            == s3.spec_allowed(tile, Direction::Left));
                        assert forall|t: Tile2D<V, 2, 2>, dir: Direction|
                            #[trigger] s4.spec_allowed_total(t, dir) <= sa.spec_allowed_total(
                            t,
                            dir,
                        ) + 1 by {
                            assert(s1.spec_allowed_total(t, dir) <= sa.spec_allowed_total(t, dir)
                                + (if t == tile && dir == Direction::Up {
                                1nat
                            } else {
                                0nat
                            }));
                            assert(s2.spec_allowed_total(t, dir) <= s1.spec_allowed_total(t, dir)
                                + (if t == tile && dir == Direction::Right {
                                1nat
                            } else {
                                0nat
                            }));
                            assert(s3.spec_allowed_total(t, dir) <= s2.spec_allowed_total(t, dir)
                                + (if t == tile && dir == Direction::Down {
                                1nat
                            } else {
                                0nat
                            }));
                            assert(s4.spec_allowed_total(t, dir) <= s3.spec_allowed_total(t, dir)
                                + (if t == tile && dir == Direction::Left {
                                1nat
                            } else {
                                0nat
                            }));
                        }
                        assert(s4.spec_layout() == sa.spec_layout());
                    }
                    self.layout.add_possibility(&tile);
                    proof {
                        assert forall|t: Tile2D<V, 2, 2>, dir: Direction|
                            #[trigger] self.spec_allowed(t, dir) == s4.spec_allowed(t, dir)
                            && self.spec_allowed_total(t, dir) == s4.spec_allowed_total(
                            t,
                            dir,
                        ) by {
                            if exists|j: int|
                                0 <= j < self.adj@.len() && (#[trigger] self.adj@[j]).0 == t {
                                let j = choose|j: int|
                                    0 <= j < self.adj@.len() && (#[trigger] self.adj@[j]).0 == t;
                                self.lemma_lookup(t, j);
                                s4.lemma_lookup(t, j);
                            }
                        }
                        assert(self.spec_adjacency_headroom(
                            (budget - (yy as nat) * (mx as nat) - (xx as nat + 1)) as nat,
                        )) by {
                            assert forall|t: Tile2D<V, 2, 2>, dir: Direction|
                                #[trigger] self.spec_allowed_total(t, dir) + ((budget - (
                            yy as nat) * (mx as nat) - (xx as nat + 1)) as nat) <= usize::MAX by {
                                assert(self.spec_allowed_total(t, dir) == s4.spec_allowed_total(
                                    t,
                                    dir,
                                ));
                                assert(sa.spec_allowed_total(t, dir) + ((budget - (yy as nat) * (
                                mx as nat) - (xx as nat)) as nat) <= usize::MAX);
                            }
                        }
                        assert forall|t: Tile2D<V, 2, 2>, dir: Direction|
                            #[trigger] self.spec_allowed_total(t, dir) <= s0.spec_allowed_total(
                            t,
                            dir,
                        ) + (yy as nat) * (mx as nat) + (xx as nat) + 1 by {
                            assert(s4.spec_allowed_total(t, dir) <= sa.spec_allowed_total(t, dir)
                                + 1);
                            assert(sa.spec_allowed_total(t, dir) <= s0.spec_allowed_total(t, dir)
                                + (yy as nat) * (mx as nat) + (xx as nat));
                        }
                        assert forall|t: Tile2D<V, 2, 2>, dir: Direction, u: Tile2D<V, 2, 2>|
                            (dir is Up || dir is Right || dir is Down || dir is Left)
                                implies #[trigger] weight_of(self.spec_allowed(t, dir), u)
                            == weight_of(sa.spec_allowed(t, dir), u) + (if observed_at(
                            *material,
                            k,
                            t,
                            dir,
                            u,
                        ) {
                            1nat
                        } else {
                            0nat
                        }) by {
                            assert(self.spec_allowed(t, dir) == s4.spec_allowed(t, dir));
                            if t == tile {
                                if dir == Direction::Up {
                                    assert(s2.spec_allowed(t, dir) == s1.spec_allowed(t, dir));
                                    assert(s3.spec_allowed(t, dir) == s2.spec_allowed(t, dir));
                                    assert(s4.spec_allowed(t, dir) == s3.spec_allowed(t, dir));
                                    if up_opt is Some && u == up_opt->Some_0 {
                                        assert(observed_at(*material, k, t, dir, u));
                                    } else {
                                        assert(!observed_at(*material, k, t, dir, u));
                                    }
                                } else if dir == Direction::Right {
                                    assert(s1.spec_allowed(t, dir) == sa.spec_allowed(t, dir));
                                    assert(s3.spec_allowed(t, dir) == s2.spec_allowed(t, dir));
                                    assert(s4.spec_allowed(t, dir) == s3.spec_allowed(t, dir));
                                    if right_opt is Some && u == right_opt->Some_0 {
                                        assert(observed_at(*material, k, t, dir, u));
                                    } else {
                                        assert(!observed_at(*material, k, t, dir, u));
                                    }
                                } else if dir == Direction::Down {
                                    assert(s1.spec_allowed(t, dir) == sa.spec_allowed(t, dir));
                                    assert(s2.spec_allowed(t, dir) == s1.spec_allowed(t, dir));
                                    assert(s4.spec_allowed(t, dir) == s3.spec_allowed(t, dir));
                                    if down_opt is Some && u == down_opt->Some_0 {
                                        assert(observed_at(*material, k, t, dir, u));
                                    } else {
                                        assert(!observed_at(*material, k, t, dir, u));
                                    }
                                } else {
                                    assert(dir == Direction::Left);
                                    assert(s1.spec_allowed(t, dir) == sa.spec_allowed(t, dir));
                                    assert(s2.spec_allowed(t, dir) == s1.spec_allowed(t, dir));
                                    assert(s3.spec_allowed(t, dir) == s2.spec_allowed(t, dir));
                                    if left_opt is Some && u == left_opt->Some_0 {
                                        assert(observed_at(*material, k, t, dir, u));
                                    } else {
                                        assert(!observed_at(*material, k, t, dir, u));
                                    }
                                }
                            } else {
                                assert(!sample_tile_is(*material, tile_coord, t));
                                assert(!observed_at(*material, k, t, dir, u));
                                assert(s1.spec_allowed(t, dir) == sa.spec_allowed(t, dir));
                                assert(s2.spec_allowed(t, dir) == s1.spec_allowed(t, dir));
                                assert(s3.spec_allowed(t, dir) == s2.spec_allowed(t, dir));
                                assert(s4.spec_allowed(t, dir) == s3.spec_allowed(t, dir));
                            }
                        }
                        assert(exists|t: Tile2D<V, 2, 2>|
                            sample_tile_is(*material, sample_coord(*material, k), t));
                        assert forall|c: Coord2D|
                            s0.spec_layout().contains_coord(c) && s0.spec_layout().cell_at(
                                c,
                            ) is Uncollapsed implies (#[trigger] self.spec_layout().cell_at(
                            c,
                        )) is Uncollapsed && self.spec_layout().cell_at(c).weights_total() + ((
                        budget - (yy as nat) * (mx as nat) - (xx as nat + 1)) as nat)
                            <= usize::MAX && self.spec_layout().cell_at(c).weights_total()
                            == s0.spec_layout().cell_at(c).weights_total() + tiles_upto(
                            *material,
                            k + 1,
                        ) by {
                            assert(sa.spec_layout().contains_coord(c));
                            assert(sa.spec_layout().cell_at(c) is Uncollapsed);
                            assert(sa.spec_layout().cell_at(c).weights_total() + ((budget - (
                            yy as nat) * (mx as nat) - (xx as nat)) as nat) <= usize::MAX);
                            assert(s4.spec_layout() == sa.spec_layout());
                            assert(self.spec_layout().cell_at(c) is Uncollapsed);
                            assert(self.spec_layout().cell_at(c).weights_total()
                                == sa.spec_layout().cell_at(c).weights_total() + 1);
                        }
                        assert forall|c: Coord2D, t: Tile2D<V, 2, 2>|
                            s0.spec_layout().contains_coord(c) && s0.spec_layout().cell_at(
                                c,
                            ) is Uncollapsed implies #[trigger] weight_of(
                            self.spec_layout().cell_at(c).weights(),
                            t,
                        ) == weight_of(s0.spec_layout().cell_at(c).weights(), t) + sightings_upto(
                            *material,
                            k + 1,
                            t,
                        ) by {
                            assert(sa.spec_layout().cell_at(c) is Uncollapsed);
                            assert(s4.spec_layout() == sa.spec_layout());
                            assert(self.spec_layout().cell_at(c).weights() == spec_add_weight(
                                sa.spec_layout().cell_at(c).weights(),
                                tile,
                                1,
                            ));
                            assert(weight_of(sa.spec_layout().cell_at(c).weights(), t)
                                == weight_of(s0.spec_layout().cell_at(c).weights(), t)
                                + sightings_upto(*material, k, t));
                            assert(weight_of(self.spec_layout().cell_at(c).weights(), t)
                                == weight_of(sa.spec_layout().cell_at(c).weights(), t) + (
                            if t == tile {
                                1nat
                            } else {
                                0nat
                            }));
                            if t == tile {
                                assert(sample_tile_is(*material, sample_coord(*material, k), t));
                            } else {
                                assert(!sample_tile_is(*material, sample_coord(*material, k), t));
                            }
                            assert(sightings_upto(*material, k + 1, t) == sightings_upto(
                                *material,
                                k,
                                t,
                            ) + (if sample_tile_is(*material, sample_coord(*material, k), t) {
                                1nat
                            } else {
                                0nat
                            }));
                        }
                    }
                } else {
                    proof {
                        assert forall|t: Tile2D<V, 2, 2>|
                            !sample_tile_is(*material, tile_coord, t) by {}
                        assert forall|t: Tile2D<V, 2, 2>, dir: Direction|
                            #[trigger] self.spec_allowed_total(t, dir) + ((budget - (yy as nat) * (
                            mx as nat) - (xx as nat + 1)) as nat) <= usize::MAX by {
                            assert(sa.spec_allowed_total(t, dir) + ((budget - (yy as nat) * (
                            mx as nat) - (xx as nat)) as nat) <= usize::MAX);
                        }
                        assert(!(exists|t: Tile2D<V, 2, 2>|
                            #[trigger] sample_tile_is(*material, sample_coord(*material, k), t)));
                        assert forall|t: Tile2D<V, 2, 2>, dir: Direction, u: Tile2D<V, 2, 2>|
                            true implies !observed_at(*material, k, t, dir, u) by {}
                    }
                }
            }
        }
        proof {
            assert((my as int) * (mx as int) == (mx as int) * (my as int)) by (nonlinear_arith);
            assert((my as nat) * (mx as nat) == (mx as nat) * (my as nat)) by (nonlinear_arith);
        }
    }
}

/// Whether the sample grid shows the fully collapsed 2-by-2 tile `t` with
/// its upper-left corner at `c`: the block lies within the sample, every
/// cell of it is collapsed, and the values are `t`'s.
pub open spec fn sample_tile_is<V: CellValue>(
    material: Grid<V>,
    c: Coord2D,
    t: Tile2D<V, 2, 2>,
) -> bool {
    &&& c.x + 2 <= material.spec_x()
    &&& c.y + 2 <= material.spec_y()
    &&& forall|dx: int, dy: int|
        0 <= dx < 2 && 0 <= dy < 2 ==> (#[trigger] material.cell_at(
            Coord2D { x: (c.x + dx) as usize, y: (c.y + dy) as usize },
        )) is Collapsed
    &&& forall|dx: int, dy: int|
        0 <= dx < 2 && 0 <= dy < 2 ==> #[trigger] t.spec_get(dx, dy) == material.cell_at(
            Coord2D { x: (c.x + dx) as usize, y: (c.y + dy) as usize },
        ).spec_value()
}

/// At most one tile stands at any sample coordinate.
pub proof fn lemma_sample_tile_unique<V: CellValue>(
    material: Grid<V>,
    c: Coord2D,
    t1: Tile2D<V, 2, 2>,
    t2: Tile2D<V, 2, 2>,
)
    requires
        sample_tile_is(material, c, t1),
        sample_tile_is(material, c, t2),
    ensures
        t1 == t2,
{
    crate::tile::lemma_tile_ext(t1, t2);
}

/// The sample coordinate at row-major position `k`.
pub open spec fn sample_coord<V: CellValue>(material: Grid<V>, k: int) -> Coord2D {
    Coord2D {
        x: (k % (material.spec_x() as int)) as usize,
        y: (k / (material.spec_x() as int)) as usize,
    }
}

/// Whether, at sample position `k`, the tile `t` stands with the tile `u`
/// beside it in direction `dir`.
pub open spec fn observed_at<V: CellValue>(
    material: Grid<V>,
    k: int,
    t: Tile2D<V, 2, 2>,
    dir: Direction,
    u: Tile2D<V, 2, 2>,
) -> bool {
    sample_tile_is(material, sample_coord(material, k), t) && sample_tile_is(
        material,
        sample_coord(material, k).spec_neighbor_scaled(dir, 2, 2),
        u,
    )
}

/// How many of the first `k` sample positions show `t` with `u` beside it
/// in direction `dir`.
pub open spec fn observations_upto<V: CellValue>(
    material: Grid<V>,
    k: int,
    t: Tile2D<V, 2, 2>,
    dir: Direction,
    u: Tile2D<V, 2, 2>,
) -> nat
    decreases k,
{
    if k <= 0 {
        0
    } else {
        observations_upto(material, k - 1, t, dir, u) + (if observed_at(material, k - 1, t, dir, u) {
            1nat
        } else {
            0nat
        })
    }
}

/// How many of the first `k` sample positions show the tile `t`.
pub open spec fn sightings_upto<V: CellValue>(material: Grid<V>, k: int, t: Tile2D<V, 2, 2>) -> nat
    decreases k,
{
    if k <= 0 {
        0
    } else {
        sightings_upto(material, k - 1, t) + (if sample_tile_is(
            material,
            sample_coord(material, k - 1),
            t,
        ) {
            1nat
        } else {
            0nat
        })
    }
}

/// How many of the first `k` sample positions show any tile at all.
pub open spec fn tiles_upto<V: CellValue>(material: Grid<V>, k: int) -> nat
    decreases k,
{
    if k <= 0 {
        0
    } else {
        tiles_upto(material, k - 1) + (if exists|t: Tile2D<V, 2, 2>|
            #[trigger] sample_tile_is(material, sample_coord(material, k - 1), t) {
            1nat
        } else {
            0nat
        })
    }
}

/// The four orthogonal neighbors of a coordinate are pairwise distinct, even
/// where the coordinates wrap.
proof fn lemma_orthogonal_neighbors_distinct(c: Coord2D)
    ensures
        c.spec_neighbor_scaled(Direction::Up, 1, 1) != c.spec_neighbor_scaled(
            Direction::Left,
            1,
            1,
        ),
        c.spec_neighbor_scaled(Direction::Up, 1, 1) != c.spec_neighbor_scaled(
            Direction::Right,
            1,
            1,
        ),
        c.spec_neighbor_scaled(Direction::Up, 1, 1) != c.spec_neighbor_scaled(
            Direction::Down,
            1,
            1,
        ),
        c.spec_neighbor_scaled(Direction::Left, 1, 1) != c.spec_neighbor_scaled(
            Direction::Right,
            1,
            1,
        ),
        c.spec_neighbor_scaled(Direction::Left, 1, 1) != c.spec_neighbor_scaled(
            Direction::Down,
            1,
            1,
        ),
        c.spec_neighbor_scaled(Direction::Right, 1, 1) != c.spec_neighbor_scaled(
            Direction::Down,
            1,
            1,
        ),
{
}

impl<V: CellValue> Standard2D<V> {
    /// Room for `n` more observations next to any tile in any direction.
    pub open spec fn spec_adjacency_headroom(&self, n: nat) -> bool {
        forall|t: Tile2D<V, 2, 2>, dir: Direction| #[trigger] self.spec_allowed_total(t, dir) + n
            <= usize::MAX
    }
}

impl<V: CellValue> Wavefunction for Standard2D<V> {
    type V = Tile2D<V, 2, 2>;

    type L = Grid<Tile2D<V, 2, 2>>;

    closed spec fn wf(&self) -> bool {
        &&& self.layout.wf()
        &&& forall|a: int, b: int|
            0 <= a < b < self.adj@.len() ==> (#[trigger] self.adj@[a]).0 != (#[trigger] self.adj@[b]).0
    }

    closed spec fn initial_spec(&self) -> Grid<Tile2D<V, 2, 2>> {
        self.spec_layout()
    }

    fn get_initial_state(&self) -> (r: &Grid<Tile2D<V, 2, 2>>) {
        &self.layout
    }

    fn collapse(
        &mut self,
        layout: &mut Grid<Tile2D<V, 2, 2>>,
        coord: Coord2D,
        value: Tile2D<V, 2, 2>,
    ) {
        self.propagate(layout, coord, value);
    }
}

} // verus!
