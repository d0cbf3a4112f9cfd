//! Two-dimensional grid coordinates and compass directions.

use vstd::prelude::*;

verus! {

/// The two-dimensional relationship between neighboring coordinates.
#[derive(Debug, Clone, Copy, PartialEq, Eq, Structural, Hash)]
pub enum Direction {
    /// Up and to the left.
    UpLeft,
    /// Up.
    Up,
    /// Up and to the right.
    UpRight,
    /// Left.
    Left,
    /// Right.
    Right,
    /// Down and to the left.
    DownLeft,
    /// Down.
    Down,
    /// Down and to the right.
    DownRight,
}

/// A two-dimensional coordinate used by the grid layout.
///
/// The pixel convention is used: y grows downward, so `up` lowers y.
/// Coordinates wrap at the edges of `usize`: one step up from y = 0 lands on
/// y = `usize::MAX`. Such out-of-range coordinates are legal; a layout simply
/// reports no cell there, which lets edge cells ask for all their neighbors
/// without special cases.
#[derive(Debug, Clone, Copy, PartialEq, Eq, Structural)]
pub struct Coord2D {
    /// The column, growing rightward.
    pub x: usize,
    /// The row, growing downward.
    pub y: usize,
}

/// `v - n` on `usize`, wrapping below zero.
pub open spec fn spec_wrapping_sub(v: usize, n: usize) -> usize {
    if v >= n {
        (v - n) as usize
    } else {
        (v - n + usize::MAX + 1) as usize
    }
}

/// `v + n` on `usize`, wrapping above `usize::MAX`.
pub open spec fn spec_wrapping_add(v: usize, n: usize) -> usize {
    if v + n <= usize::MAX {
        (v + n) as usize
    } else {
        (v + n - usize::MAX - 1) as usize
    }
}

fn wrap_sub(v: usize, n: usize) -> (r: usize)
    ensures
        r == spec_wrapping_sub(v, n),
{
    if v >= n {
        v - n
    } else {
        v + (usize::MAX - n) + 1
    }
}

fn wrap_add(v: usize, n: usize) -> (r: usize)
    ensures
        r == spec_wrapping_add(v, n),
{
    if n <= usize::MAX - v {
        v + n
    } else {
        n - (usize::MAX - v) - 1
    }
}

impl Coord2D {
    /// The coordinate `(dx, dy)` steps away in the given direction, each
    /// axis wrapping at the edges of `usize`.
    pub open spec fn spec_neighbor_scaled(self, direction: Direction, dx: usize, dy: usize) -> Coord2D {
        match direction {
            Direction::UpLeft => Coord2D {
                x: spec_wrapping_sub(self.x, dx),
                y: spec_wrapping_sub(self.y, dy),
            },
            Direction::Up => Coord2D { x: self.x, y: spec_wrapping_sub(self.y, dy) },
            Direction::UpRight => Coord2D {
                x: spec_wrapping_add(self.x, dx),
                y: spec_wrapping_sub(self.y, dy),
            },
            Direction::Left => Coord2D { x: spec_wrapping_sub(self.x, dx), y: self.y },
            Direction::Right => Coord2D { x: spec_wrapping_add(self.x, dx), y: self.y },
            Direction::DownLeft => Coord2D {
                x: spec_wrapping_sub(self.x, dx),
                y: spec_wrapping_add(self.y, dy),
            },
            Direction::Down => Coord2D { x: self.x, y: spec_wrapping_add(self.y, dy) },
            Direction::DownRight => Coord2D {
                x: spec_wrapping_add(self.x, dx),
                y: spec_wrapping_add(self.y, dy),
            },
        }
    }

    /// A coordinate with the given x and y values.
    pub fn new(x: usize, y: usize) -> (r: Self)
        ensures
            r == (Coord2D { x, y }),
    {
        Coord2D { x, y }
    }

    /// The x value of this coordinate.
    pub fn x(&self) -> (r: usize)
        ensures
            r == self.x,
    {
        self.x
    }

    /// The y value of this coordinate.
    pub fn y(&self) -> (r: usize)
        ensures
            r == self.y,
    {
        self.y
    }

    /// The coordinates of the eight immediately neighboring locations.
    pub fn neighbors(&self) -> (r: Vec<Coord2D>)
        ensures
            r@ == seq![
                self.spec_neighbor_scaled(Direction::UpLeft, 1, 1),
                self.spec_neighbor_scaled(Direction::Up, 1, 1),
                self.spec_neighbor_scaled(Direction::UpRight, 1, 1),
                self.spec_neighbor_scaled(Direction::Left, 1, 1),
                self.spec_neighbor_scaled(Direction::Right, 1, 1),
                self.spec_neighbor_scaled(Direction::DownLeft, 1, 1),
                self.spec_neighbor_scaled(Direction::Down, 1, 1),
                self.spec_neighbor_scaled(Direction::DownRight, 1, 1),
            ],
    {
        let mut v: Vec<Coord2D> = Vec::new();
        v.push(self.up_left());
        v.push(self.up());
        v.push(self.up_right());
        v.push(self.left());
        v.push(self.right());
        v.push(self.down_left());
        v.push(self.down());
        v.push(self.down_right());
        proof {
            assert(v@ =~= seq![
                self.spec_neighbor_scaled(Direction::UpLeft, 1, 1),
                self.spec_neighbor_scaled(Direction::Up, 1, 1),
                self.spec_neighbor_scaled(Direction::UpRight, 1, 1),
                self.spec_neighbor_scaled(Direction::Left, 1, 1),
                self.spec_neighbor_scaled(Direction::Right, 1, 1),
                self.spec_neighbor_scaled(Direction::DownLeft, 1, 1),
                self.spec_neighbor_scaled(Direction::Down, 1, 1),
                self.spec_neighbor_scaled(Direction::DownRight, 1, 1),
            ]);
        }
        v
    }

    /// The coordinates and directions of the eight immediately neighboring
    /// locations.
    pub fn neighbor_directions(&self) -> (r: Vec<(Coord2D, Direction)>)
        ensures
            r@.len() == 8,
            forall|i: int| 0 <= i < 8 ==> #[trigger] r@[i] == (
                self.spec_neighbor_scaled(r@[i].1, 1, 1),
                r@[i].1,
            ),
            r@[0].1 == Direction::UpLeft,
            r@[1].1 == Direction::Up,
            r@[2].1 == Direction::UpRight,
            r@[3].1 == Direction::Left,
            r@[4].1 == Direction::Right,
            r@[5].1 == Direction::DownLeft,
            r@[6].1 == Direction::Down,
            r@[7].1 == Direction::DownRight,
    {
        let mut v: Vec<(Coord2D, Direction)> = Vec::new();
        v.push((self.up_left(), Direction::UpLeft));
        v.push((self.up(), Direction::Up));
        v.push((self.up_right(), Direction::UpRight));
        v.push((self.left(), Direction::Left));
        v.push((self.right(), Direction::Right));
        v.push((self.down_left(), Direction::DownLeft));
        v.push((self.down(), Direction::Down));
        v.push((self.down_right(), Direction::DownRight));
        v
    }

    /// The coordinates and directions of the four orthogonally neighboring
    /// locations.
    pub fn neighbor_directions4(&self) -> (r: Vec<(Coord2D, Direction)>)
        ensures
            r@.len() == 4,
            forall|i: int| 0 <= i < 4 ==> #[trigger] r@[i] == (
                self.spec_neighbor_scaled(r@[i].1, 1, 1),
                r@[i].1,
            ),
            r@[0].1 == Direction::Up,
            r@[1].1 == Direction::Left,
            r@[2].1 == Direction::Right,
            r@[3].1 == Direction::Down,
    {
        let mut v: Vec<(Coord2D, Direction)> = Vec::new();
        v.push((self.up(), Direction::Up));
        v.push((self.left(), Direction::Left));
        v.push((self.right(), Direction::Right));
        v.push((self.down(), Direction::Down));
        v
    }

    /// The coordinate one step away in the given direction.
    pub fn get_neighbor(&self, direction: Direction) -> (r: Self)
        ensures
            r == self.spec_neighbor_scaled(direction, 1, 1),
    {
        match direction {
            Direction::UpLeft => self.up_left(),
            Direction::Up => self.up(),
            Direction::UpRight => self.up_right(),
            Direction::Left => self.left(),
            Direction::Right => self.right(),
            Direction::DownLeft => self.down_left(),
            Direction::Down => self.down(),
            Direction::DownRight => self.down_right(),
        }
    }

    /// The coordinate `(x, y)` steps away in the given direction: each axis
    /// moves by the given amount, wrapping at the edges of `usize`.
    pub fn get_neighbor_scaled(&self, direction: Direction, x: usize, y: usize) -> (r: Self)
        ensures
            r == self.spec_neighbor_scaled(direction, x, y),
    {
        match direction {
            Direction::UpLeft => Coord2D { x: wrap_sub(self.x, x), y: wrap_sub(self.y, y) },
            Direction::Up => Coord2D { x: self.x, y: wrap_sub(self.y, y) },
            Direction::UpRight => Coord2D { x: wrap_add(self.x, x), y: wrap_sub(self.y, y) },
            Direction::Left => Coord2D { x: wrap_sub(self.x, x), y: self.y },
            Direction::Right => Coord2D { x: wrap_add(self.x, x), y: self.y },
            Direction::DownLeft => Coord2D { x: wrap_sub(self.x, x), y: wrap_add(self.y, y) },
            Direction::Down => Coord2D { x: self.x, y: wrap_add(self.y, y) },
            Direction::DownRight => Coord2D { x: wrap_add(self.x, x), y: wrap_add(self.y, y) },
        }
    }

    /// The coordinate offset by the given values, wrapping at the edges of
    /// `usize`.
    pub fn offset(&self, x: usize, y: usize) -> (r: Self)
        ensures
            r == (Coord2D { x: spec_wrapping_add(self.x, x), y: spec_wrapping_add(self.y, y) }),
    {
        Coord2D { x: wrap_add(self.x, x), y: wrap_add(self.y, y) }
    }

    /// The coordinate immediately above: y shrinks by one, wrapping from 0
    /// to `usize::MAX`.
    pub fn up(&self) -> (r: Self)
        ensures
            r == self.spec_neighbor_scaled(Direction::Up, 1, 1),
            r.x == self.x,
            self.y >= 1 ==> r.y == self.y - 1,
            self.y == 0 ==> r.y == usize::MAX,
    {
        Coord2D { x: self.x, y: wrap_sub(self.y, 1) }
    }

    /// The coordinate up and to the left.
    pub fn up_left(&self) -> (r: Self)
        ensures
            r == self.spec_neighbor_scaled(Direction::UpLeft, 1, 1),
    {
        Coord2D { x: wrap_sub(self.x, 1), y: wrap_sub(self.y, 1) }
    }

    /// The coordinate up and to the right.
    pub fn up_right(&self) -> (r: Self)
        ensures
            r == self.spec_neighbor_scaled(Direction::UpRight, 1, 1),
    {
        Coord2D { x: wrap_add(self.x, 1), y: wrap_sub(self.y, 1) }
    }

    /// The coordinate immediately below.
    pub fn down(&self) -> (r: Self)
        ensures
            r == self.spec_neighbor_scaled(Direction::Down, 1, 1),
            r.x == self.x,
            self.y < usize::MAX ==> r.y == self.y + 1,
    {
        Coord2D { x: self.x, y: wrap_add(self.y, 1) }
    }

    /// The coordinate down and to the left.
    pub fn down_left(&self) -> (r: Self)
        ensures
            r == self.spec_neighbor_scaled(Direction::DownLeft, 1, 1),
    {
        Coord2D { x: wrap_sub(self.x, 1), y: wrap_add(self.y, 1) }
    }

    /// The coordinate down and to the right.
    pub fn down_right(&self) -> (r: Self)
        ensures
            r == self.spec_neighbor_scaled(Direction::DownRight, 1, 1),
    {
        Coord2D { x: wrap_add(self.x, 1), y: wrap_add(self.y, 1) }
    }

    /// The coordinate immediately to the left: x shrinks by one, wrapping
    /// from 0 to `usize::MAX`.
    pub fn left(&self) -> (r: Self)
        ensures
            r == self.spec_neighbor_scaled(Direction::Left, 1, 1),
            r.y == self.y,
            self.x >= 1 ==> r.x == self.x - 1,
            self.x == 0 ==> r.x == usize::MAX,
    {
        Coord2D { x: wrap_sub(self.x, 1), y: self.y }
    }

    /// The coordinate immediately to the right.
    pub fn right(&self) -> (r: Self)
        ensures
            r == self.spec_neighbor_scaled(Direction::Right, 1, 1),
            r.y == self.y,
            self.x < usize::MAX ==> r.x == self.x + 1,
    {
        Coord2D { x: wrap_add(self.x, 1), y: self.y }
    }
}

} // verus!
