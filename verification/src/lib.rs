//! A light-cycle arena: cycles race across an integer grid, leave walls
//! behind them and crash into walls or the arena's edge.
use vstd::prelude::*;

pub mod wall;
pub mod cycle;
pub mod arena;
pub mod player;
pub mod render;
pub mod game;
pub mod progress;

verus! {

/// The four headings a cycle can face. North is towards increasing `y`,
/// East towards increasing `x`.
#[derive(Clone, Copy, PartialEq, Eq, Debug, Structural)]
pub enum Cardinal {
    North,
    East,
    South,
    West,
}

/// A relative turn.
#[derive(Clone, Copy, PartialEq, Eq, Debug, Structural)]
pub enum Direction {
    Left,
    Right,
}

/// A point of the integer grid.
#[derive(Clone, Copy, PartialEq, Eq, Debug, Structural)]
pub struct Coordinate {
    pub x: i32,
    pub y: i32,
}

/// The `x` coordinate reached from `p` after moving `speed` units towards `dir`.
pub open spec fn stepped_x(p: Coordinate, dir: Cardinal, speed: int) -> int {
    match dir {
        Cardinal::East => p.x + speed,
        Cardinal::West => p.x - speed,
        _ => p.x as int,
    }
}

/// The `y` coordinate reached from `p` after moving `speed` units towards `dir`.
pub open spec fn stepped_y(p: Coordinate, dir: Cardinal, speed: int) -> int {
    match dir {
        Cardinal::North => p.y + speed,
        Cardinal::South => p.y - speed,
        _ => p.y as int,
    }
}

/// Moving `speed` units from `p` towards `dir` stays within `i32`.
pub open spec fn can_step(p: Coordinate, dir: Cardinal, speed: int) -> bool {
    &&& i32::MIN <= stepped_x(p, dir, speed) <= i32::MAX
    &&& i32::MIN <= stepped_y(p, dir, speed) <= i32::MAX
}

impl Coordinate {
    /// Moves the point `speed` units towards `dir`.
    pub fn step(&mut self, dir: Cardinal, speed: i32)
        requires
            can_step(*old(self), dir, speed as int),
        ensures
            final(self).x == stepped_x(*old(self), dir, speed as int),
            final(self).y == stepped_y(*old(self), dir, speed as int),
    {
        match dir {
            Cardinal::North => self.y = self.y + speed,
            Cardinal::South => self.y = self.y - speed,
            Cardinal::East => self.x = self.x + speed,
            Cardinal::West => self.x = self.x - speed,
        }
    }
}

/// The heading after turning `dir` while facing `facing`: a left turn is a
/// quarter turn counterclockwise, a right turn a quarter turn clockwise.
pub open spec fn turned(facing: Cardinal, dir: Direction) -> Cardinal {
    match (facing, dir) {
        (Cardinal::North, Direction::Left) => Cardinal::West,
        (Cardinal::North, Direction::Right) => Cardinal::East,
        (Cardinal::East, Direction::Left) => Cardinal::North,
        (Cardinal::East, Direction::Right) => Cardinal::South,
        (Cardinal::South, Direction::Left) => Cardinal::East,
        (Cardinal::South, Direction::Right) => Cardinal::West,
        (Cardinal::West, Direction::Left) => Cardinal::South,
        (Cardinal::West, Direction::Right) => Cardinal::North,
    }
}

/// Whether a heading runs along the `y` axis.
pub open spec fn is_vertical_heading(facing: Cardinal) -> bool {
    facing == Cardinal::North || facing == Cardinal::South
}

/// The turn that undoes `dir`.
pub open spec fn opposite_turn(dir: Direction) -> Direction {
    match dir {
        Direction::Left => Direction::Right,
        Direction::Right => Direction::Left,
    }
}

impl Cardinal {
    /// The heading after turning `dir`.
    pub fn turn(self, dir: Direction) -> (r: Cardinal)
        ensures
            r == turned(self, dir),
    {
        match (self, dir) {
            (Cardinal::North, Direction::Left) => Cardinal::West,
            (Cardinal::North, Direction::Right) => Cardinal::East,
            (Cardinal::East, Direction::Left) => Cardinal::North,
            (Cardinal::East, Direction::Right) => Cardinal::South,
            (Cardinal::South, Direction::Left) => Cardinal::East,
            (Cardinal::South, Direction::Right) => Cardinal::West,
            (Cardinal::West, Direction::Left) => Cardinal::South,
            (Cardinal::West, Direction::Right) => Cardinal::North,
        }
    }
}

/// A turn is always a quarter turn: the new heading runs along the other axis.
pub proof fn lemma_turn_is_perpendicular(facing: Cardinal, dir: Direction)
    ensures
        is_vertical_heading(turned(facing, dir)) != is_vertical_heading(facing),
{
}

/// Turning one way and then the other way restores the heading.
pub proof fn lemma_turn_undone(facing: Cardinal, dir: Direction)
    ensures
        turned(turned(facing, dir), opposite_turn(dir)) == facing,
{
}

/// Four turns the same way restore the heading.
pub proof fn lemma_four_turns(facing: Cardinal, dir: Direction)
    ensures
        turned(turned(turned(turned(facing, dir), dir), dir), dir) == facing,
{
}

} // verus!
