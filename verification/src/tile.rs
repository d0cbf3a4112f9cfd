//! Fixed-size rectangular blocks of values, themselves usable as cell
//! values.

use crate::cell::CellValue;
use vstd::prelude::*;

verus! {

broadcast use vstd::array::group_array_axioms;

/// A fixed `WIDTH` by `HEIGHT` block of values.
///
/// A tile is itself a [`CellValue`], so a layout can hold superpositions of
/// tiles; the tiled wavefunction works this way.
#[derive(Debug, Clone, Copy)]
pub struct Tile2D<V: CellValue, const WIDTH: usize, const HEIGHT: usize> {
    /// The rows of the tile, top to bottom; each row left to right.
    contents: [[V; WIDTH]; HEIGHT],
}

impl<V: CellValue, const WIDTH: usize, const HEIGHT: usize> Tile2D<V, WIDTH, HEIGHT> {
    /// The value at `(x, y)` of the tile.
    pub closed spec fn spec_get(self, x: int, y: int) -> V
        recommends
            0 <= x < WIDTH,
            0 <= y < HEIGHT,
    {
        self.contents[y][x]
    }

    /// A tile with the given contents: an array of rows, each an array of
    /// values.
    pub fn new(contents: [[V; WIDTH]; HEIGHT]) -> (r: Self)
        ensures
            forall|x: int, y: int|
                0 <= x < WIDTH && 0 <= y < HEIGHT ==> #[trigger] r.spec_get(x, y)
                    == contents[y][x],
    {
        Tile2D { contents }
    }

    /// The width of the tile.
    pub fn x(&self) -> (r: usize)
        ensures
            r == WIDTH,
    {
        WIDTH
    }

    /// The height of the tile.
    pub fn y(&self) -> (r: usize)
        ensures
            r == HEIGHT,
    {
        HEIGHT
    }

    /// The value at `(x, y)`, if it lies within the tile.
    pub fn get(&self, x: usize, y: usize) -> (r: Option<V>)
        ensures
            match r {
                Some(v) => x < WIDTH && y < HEIGHT && v == self.spec_get(x as int, y as int),
                None => x >= WIDTH || y >= HEIGHT,
            },
    {
        if x < WIDTH && y < HEIGHT {
            let row = vstd::array::array_index_get(&self.contents, y);
            Some(*vstd::array::array_index_get(row, x))
        } else {
            None
        }
    }

    /// Every position and value of the tile, row by row, as
    /// `(x, y, value)` triples.
    pub fn values(&self) -> (r: Vec<(usize, usize, V)>)
        ensures
            r@.len() == WIDTH * HEIGHT,
            forall|i: int| 0 <= i < r@.len() ==> {
                &&& (#[trigger] r@[i]).0 < WIDTH
                &&& r@[i].1 < HEIGHT
                &&& r@[i].2 == self.spec_get(r@[i].0 as int, r@[i].1 as int)
            },
            forall|x: int, y: int|
                0 <= x < WIDTH && 0 <= y < HEIGHT ==> #[trigger] r@[y * WIDTH + x] == (
                    x as usize,
                    y as usize,
                    self.spec_get(x, y),
                ),
    {
        let mut out: Vec<(usize, usize, V)> = Vec::new();
        for y in 0..HEIGHT
            invariant
                out@.len() == y * WIDTH,
                out@.len() <= WIDTH * HEIGHT,
                forall|px: int, py: int|
                    0 <= px < WIDTH && 0 <= py < y ==> #[trigger] out@[py * WIDTH + px] == (
                        px as usize,
                        py as usize,
                        self.spec_get(px, py),
                    ),
        {
            let row = vstd::array::array_index_get(&self.contents, y);
            for x in 0..WIDTH
                invariant
                    y < HEIGHT,
                    *row == self.contents[y as int],
                    out@.len() == y * WIDTH + x,
                    forall|px: int, py: int|
                        0 <= px < WIDTH && 0 <= py < y ==> #[trigger] out@[py * WIDTH + px] == (
                            px as usize,
                            py as usize,
                            self.spec_get(px, py),
                        ),
                    forall|px: int|
                        0 <= px < x ==> #[trigger] out@[y * WIDTH + px] == (
                            px as usize,
                            y as usize,
                            self.spec_get(px, y as int),
                        ),
            {
                proof {
                    assert((y as int) * WIDTH + x + 1 <= (y as int) * WIDTH + WIDTH);
                    assert((y as int) * WIDTH + WIDTH == (y + 1) * WIDTH) by (nonlinear_arith);
                    assert((y + 1) * WIDTH <= HEIGHT * WIDTH) by (nonlinear_arith)
                        requires
                            y + 1 <= HEIGHT,
                            WIDTH >= 0,
                    ;
                    assert(HEIGHT * WIDTH == WIDTH * HEIGHT) by (nonlinear_arith);
                }
                let ghost before = out@;
                let v = *vstd::array::array_index_get(row, x);
                out.push((x, y, v));
                proof {
                    assert forall|px: int, py: int|
                        0 <= px < WIDTH && 0 <= py < y as int implies #[trigger] out@[py * WIDTH
                        + px] == (px as usize, py as usize, self.spec_get(px, py)) by {
                        assert(py * WIDTH + WIDTH <= (y as int) * WIDTH) by (nonlinear_arith)
                            requires
                                0 <= py + 1 <= y as int,
                                WIDTH >= 0,
                        ;
                        assert(before[py * WIDTH + px] == (
                            px as usize,
                            py as usize,
                            self.spec_get(px, py),
                        ));
                        assert(out@[py * WIDTH + px] == before[py * WIDTH + px]);
                    }
                }
            }
            proof {
                assert((y as int) * WIDTH + WIDTH == (y + 1) * WIDTH) by (nonlinear_arith);
                assert((y + 1) * WIDTH <= HEIGHT * WIDTH) by (nonlinear_arith)
                    requires
                        y + 1 <= HEIGHT,
                        WIDTH >= 0,
                ;
                assert(HEIGHT * WIDTH == WIDTH * HEIGHT) by (nonlinear_arith);
                assert forall|px: int, py: int|
                    0 <= px < WIDTH && 0 <= py < y + 1 implies #[trigger] out@[py * WIDTH + px]
                    == (px as usize, py as usize, self.spec_get(px, py)) by {
                    if py < y {
                        assert(out@[py * WIDTH + px] == (
                            px as usize,
                            py as usize,
                            self.spec_get(px, py),
                        ));
                    }
                }
            }
        }
        proof {
            assert((HEIGHT as int) * WIDTH == WIDTH * HEIGHT) by (nonlinear_arith);
            assert forall|i: int| 0 <= i < out@.len() implies {
                &&& (#[trigger] out@[i]).0 < WIDTH
                &&& out@[i].1 < HEIGHT
                &&& out@[i].2 == self.spec_get(out@[i].0 as int, out@[i].1 as int)
            } by {
                assert(WIDTH > 0) by (nonlinear_arith)
                    requires
                        0 <= i < WIDTH * HEIGHT,
                ;
                let py = i / (WIDTH as int);
                let px = i % (WIDTH as int);
                vstd::arithmetic::div_mod::lemma_fundamental_div_mod(i, WIDTH as int);
                assert(py < HEIGHT) by (nonlinear_arith)
                    requires
                        i < WIDTH * HEIGHT,
                        WIDTH > 0,
                        i == (WIDTH as int) * py + px,
                        0 <= px < WIDTH,
                ;
                assert(py * WIDTH + px == i) by (nonlinear_arith)
                    requires
                        i == (WIDTH as int) * py + px,
                ;
                assert(out@[py * WIDTH + px] == (
                    px as usize,
                    py as usize,
                    self.spec_get(px, py),
                ));
            }
        }
        out
    }
}

/// Tiles showing the same value at every position are the same tile.
pub proof fn lemma_tile_ext<V: CellValue, const WIDTH: usize, const HEIGHT: usize>(
    a: Tile2D<V, WIDTH, HEIGHT>,
    b: Tile2D<V, WIDTH, HEIGHT>,
)
    requires
        forall|x: int, y: int|
            0 <= x < WIDTH && 0 <= y < HEIGHT ==> #[trigger] a.spec_get(x, y) == b.spec_get(x, y),
    ensures
        a == b,
{
    assert forall|y: int| 0 <= y < HEIGHT implies a.contents[y] == b.contents[y] by {
        assert forall|x: int| 0 <= x < WIDTH implies a.contents[y]@[x] == b.contents[y]@[x] by {
            assert(a.spec_get(x, y) == b.spec_get(x, y));
        }
        assert(a.contents[y] =~= b.contents[y]);
    }
    assert(a.contents =~= b.contents);
}

impl<V: CellValue, const WIDTH: usize, const HEIGHT: usize> CellValue for Tile2D<V, WIDTH, HEIGHT> {
    fn same(&self, other: &Self) -> (r: bool)
        ensures
            r == (*self == *other),
    {
        for y in 0..HEIGHT
            invariant
                forall|py: int| 0 <= py < y ==> self.contents[py] == other.contents[py],
        {
            let row_a = vstd::array::array_index_get(&self.contents, y);
            let row_b = vstd::array::array_index_get(&other.contents, y);
            for x in 0..WIDTH
                invariant
                    y < HEIGHT,
                    *row_a == self.contents[y as int],
                    *row_b == other.contents[y as int],
                    forall|py: int| 0 <= py < y ==> self.contents[py] == other.contents[py],
                    forall|px: int| 0 <= px < x ==> row_a@[px] == row_b@[px],
            {
                let a = vstd::array::array_index_get(row_a, x);
                let b = vstd::array::array_index_get(row_b, x);
                if !a.same(b) {
                    proof {
                        let yy = y as int;
                        assert(self.contents[yy]@[x as int] != other.contents[yy]@[x as int]);
                        assert(self.contents@[y as int] != other.contents@[y as int]);
                        assert(self.contents != other.contents);
                    }
                    return false;
                }
            }
            proof {
                assert(row_a@ =~= row_b@);
                assert(self.contents[y as int] == other.contents[y as int]);
            }
        }
        proof {
            assert(self.contents@ =~= other.contents@);
            assert(self.contents == other.contents);
        }
        true
    }
}

} // verus!
