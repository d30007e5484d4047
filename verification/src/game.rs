//! The decisions of the terminal game: how typed letters become headings
//! and turns, and where a cycle may be placed.
use vstd::prelude::*;
use crate::{Cardinal, Direction};
use crate::arena::{Arena, magnitude};

verus! {

/// The heading a letter names: `n`, `s`, `e` or `w`; any other letter faces North.
pub open spec fn facing_named(d: char) -> Cardinal {
    if d == 'n' {
        Cardinal::North
    } else if d == 's' {
        Cardinal::South
    } else if d == 'e' {
        Cardinal::East
    } else if d == 'w' {
        Cardinal::West
    } else {
        Cardinal::North
    }
}

/// The heading a letter names.
pub fn facing_from_char(d: char) -> (f: Cardinal)
    ensures
        f == facing_named(d),
{
    match d {
        'n' => Cardinal::North,
        's' => Cardinal::South,
        'e' => Cardinal::East,
        'w' => Cardinal::West,
        _ => Cardinal::North,
    }
}

/// The turn a key names: `f` turns left, `j` turns right, any other key
/// makes no turn.
pub open spec fn turn_named(key: char) -> Option<Direction> {
    if key == 'f' {
        Some(Direction::Left)
    } else if key == 'j' {
        Some(Direction::Right)
    } else {
        None
    }
}

/// The turn a key names.
pub fn turn_from_char(key: char) -> (t: Option<Direction>)
    ensures
        t == turn_named(key),
{
    match key {
        'f' => Some(Direction::Left),
        'j' => Some(Direction::Right),
        _ => None,
    }
}

/// A cycle may be placed at `(x, y)` in an arena of size `arena_size`
/// exactly when `|x| < arena_size` and `|y| < arena_size`.
pub fn spawn_in_bounds(x: i32, y: i32, arena_size: i32) -> (ok: bool)
    requires
        x != i32::MIN,
        magnitude(x as int) < arena_size ==> y != i32::MIN,
    ensures
        ok == (magnitude(x as int) < arena_size && magnitude(y as int) < arena_size),
{
    !(x.abs() >= arena_size || y.abs() >= arena_size)
}

/// The next cycle to ask for a turn in a round: the first living cycle at
/// index `from` or later, if there is one.
pub fn next_to_prompt(arena: &Arena, from: usize) -> (next: Option<usize>)
    ensures
        match next {
            Some(i) => {
                &&& from <= i < arena@.cycles.len()
                &&& arena@.cycles[i as int].alive
                &&& forall|j: int| from <= j < i ==> !(#[trigger] arena@.cycles[j]).alive
            },
            None => forall|j: int|
                from <= j < arena@.cycles.len() ==> !(#[trigger] arena@.cycles[j]).alive,
        },
{
    let cycles = arena.cycles();
    let mut i = from;
    while i < cycles.len()
        invariant
            from <= i,
            crate::arena::views(cycles@) == arena@.cycles,
            forall|j: int| from <= j < i && j < arena@.cycles.len() ==> !(#[trigger] arena@.cycles[j]).alive,
        decreases cycles.len() - i,
    {
        assert(arena@.cycles[i as int] == cycles@[i as int]@);
        if cycles[i].is_alive() {
            return Some(i);
        }
        i += 1;
    }
    None
}

} // verus!
