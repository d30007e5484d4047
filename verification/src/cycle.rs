//! A single light cycle: where it is, where it faces, the turns it has been
//! told to make, and the trail of walls it has laid.
use vstd::prelude::*;
use std::collections::VecDeque;
use crate::{Cardinal, Coordinate, Direction, can_step, stepped_x, stepped_y, turned, is_vertical_heading};
use crate::wall::{Wall, group_wall};

verus! {

broadcast use group_wall;

/// An order given to a cycle.
#[derive(Clone, Copy, PartialEq, Eq, Debug, Structural)]
pub enum Command {
    Direction(Direction),
}

/// The abstract state of a cycle.
pub struct CycleView {
    pub alive: bool,
    pub position: Coordinate,
    pub facing: Cardinal,
    pub speed: int,
    /// Every wall laid so far, the current one last.
    pub walls: Seq<Wall>,
    /// Turns waiting to be made, the next one first.
    pub queued_turns: Seq<Direction>,
}

impl CycleView {
    /// The wall the cycle is currently drawing.
    pub open spec fn current_wall(self) -> Wall {
        self.walls.last()
    }

    /// The position lies on the axis line of the current wall along the
    /// heading: a cycle only ever moves straight ahead from where its
    /// current wall starts.
    pub open spec fn on_current_line(self) -> bool {
        if is_vertical_heading(self.facing) {
            self.position.x == self.current_wall().start().x
        } else {
            self.position.y == self.current_wall().start().y
        }
    }

    /// The position lies at or ahead of the start of the current wall, seen
    /// along the heading.
    pub open spec fn heads_away(self) -> bool {
        let s = self.current_wall().start();
        match self.facing {
            Cardinal::North => s.y <= self.position.y,
            Cardinal::South => self.position.y <= s.y,
            Cardinal::East => s.x <= self.position.x,
            Cardinal::West => self.position.x <= s.x,
        }
    }

    /// What every cycle satisfies: unit speed, at least one wall, every wall
    /// axis-aligned, and the position on the line of the current wall, at or
    /// ahead of its start.
    pub open spec fn inv(self) -> bool {
        &&& self.speed == 1
        &&& self.walls.len() >= 1
        &&& forall|i: int| 0 <= i < self.walls.len() ==> #[trigger] self.walls[i].is_aligned()
        &&& self.on_current_line()
        &&& self.heads_away()
    }

    /// The heading the cycle will move in on its next advance.
    pub open spec fn next_facing(self) -> Cardinal {
        if self.queued_turns.len() > 0 {
            turned(self.facing, self.queued_turns[0])
        } else {
            self.facing
        }
    }

    /// Makes the first queued turn, if any, and starts a new wall there.
    pub open spec fn turn_applied(self) -> CycleView {
        if self.queued_turns.len() > 0 {
            CycleView {
                facing: turned(self.facing, self.queued_turns[0]),
                walls: self.walls.push(Wall::segment(self.position, self.position)),
                queued_turns: self.queued_turns.drop_first(),
                ..self
            }
        } else {
            self
        }
    }

    /// A living cycle can move one step without leaving `i32`.
    pub open spec fn can_advance(self) -> bool {
        self.alive ==> can_step(self.position, self.next_facing(), self.speed)
    }

    /// The position after moving one step along the next heading.
    pub open spec fn next_position(self) -> Coordinate {
        Coordinate {
            x: stepped_x(self.position, self.next_facing(), self.speed) as i32,
            y: stepped_y(self.position, self.next_facing(), self.speed) as i32,
        }
    }

    /// A living cycle makes its first queued turn and moves one step; a
    /// crashed cycle does nothing.
    pub open spec fn advanced(self) -> CycleView {
        if self.alive {
            CycleView { position: self.next_position(), ..self.turn_applied() }
        } else {
            self
        }
    }

    /// A living cycle extends its current wall to its position; a crashed
    /// cycle does nothing.
    pub open spec fn updated(self) -> CycleView {
        if self.alive {
            self.wall_extended()
        } else {
            self
        }
    }

    /// The current wall is extended to the position.
    pub open spec fn wall_extended(self) -> CycleView {
        if self.walls.len() > 0 {
            CycleView {
                walls: self.walls.update(
                    self.walls.len() - 1,
                    Wall::segment(self.current_wall().start(), self.position),
                ),
                ..self
            }
        } else {
            self
        }
    }

    /// A freshly spawned cycle.
    pub open spec fn spawned(position: Coordinate, facing: Cardinal) -> CycleView {
        CycleView {
            alive: true,
            position,
            facing,
            speed: 1,
            walls: seq![Wall::segment(position, position)],
            queued_turns: Seq::empty(),
        }
    }

    /// Each wall ends where the next one starts: the trail is one unbroken line.
    pub open spec fn trail_connected(self) -> bool {
        forall|i: int|
            0 <= i < self.walls.len() - 1 ==> #[trigger] self.walls[i].end() == self.walls[i
                + 1].start()
    }

    /// The current wall reaches the cycle's position.
    pub open spec fn synced(self) -> bool {
        self.current_wall().end() == self.position
    }

    /// The cycle has crashed.
    pub open spec fn killed(self) -> CycleView {
        CycleView { alive: false, ..self }
    }

    /// `dir` is queued behind the turns already waiting.
    pub open spec fn queued(self, dir: Direction) -> CycleView {
        CycleView { queued_turns: self.queued_turns.push(dir), ..self }
    }
}

/// A light cycle.
pub struct Cycle {
    alive: bool,
    position: Coordinate,
    facing: Cardinal,
    speed: i32,
    walls: Vec<Wall>,
    queued_turns: VecDeque<Direction>,
}

impl View for Cycle {
    type V = CycleView;

    closed spec fn view(&self) -> CycleView {
        CycleView {
            alive: self.alive,
            position: self.position,
            facing: self.facing,
            speed: self.speed as int,
            walls: self.walls@,
            queued_turns: self.queued_turns@,
        }
    }
}

impl Cycle {
    /// Every cycle satisfies `CycleView::inv`: unit speed, at least one
    /// wall, every wall axis-aligned, and the position on the line of the
    /// current wall, at or ahead of its start.
    #[verifier::type_invariant]
    pub open spec fn well_formed(self) -> bool {
        self@.inv()
    }

    /// A single point wall at `position`, standing in for the walls while
    /// they are changed.
    fn stand_in_walls(position: Coordinate) -> (walls: Vec<Wall>)
        ensures
            walls@ == seq![Wall::segment(position, position)],
    {
        let mut walls: Vec<Wall> = Vec::new();
        walls.push(Wall::new(position));
        walls
    }

    /// A living cycle at `position` facing `facing`, with unit speed, a
    /// single point wall where it stands and no queued turns.
    pub fn new(position: Coordinate, facing: Cardinal) -> (c: Cycle)
        ensures
            c@ == CycleView::spawned(position, facing),
    {
        let mut walls: Vec<Wall> = Vec::new();
        walls.push(Wall::new(position));
        Cycle {
            alive: true,
            position,
            facing,
            speed: 1,
            walls,
            queued_turns: VecDeque::new(),
        }
    }

    pub fn is_alive(&self) -> (r: bool)
        ensures
            r == self@.alive,
    {
        self.alive
    }

    pub fn position(&self) -> (r: Coordinate)
        ensures
            r == self@.position,
    {
        self.position
    }

    pub fn walls(&self) -> (r: &[Wall])
        ensures
            r@ == self@.walls,
    {
        self.walls.as_slice()
    }

    pub fn kill(&mut self)
        ensures
            final(self)@ == old(self)@.killed(),
    {
        proof { use_type_invariant(&*self); }
        self.alive = false;
    }

    /// Queues a turn, to be made on a later advance.
    pub fn queue_turn(&mut self, dir: Direction)
        ensures
            final(self)@ == old(self)@.queued(dir),
    {
        proof { use_type_invariant(&*self); }
        let mut queued_turns = VecDeque::new();
        std::mem::swap(&mut queued_turns, &mut self.queued_turns);
        queued_turns.push_back(dir);
        std::mem::swap(&mut queued_turns, &mut self.queued_turns);
    }

    /// Carries out a command: a direction command queues that turn.
    pub fn act(&mut self, command: Command)
        ensures
            match command {
                Command::Direction(dir) => final(self)@ == old(self)@.queued(dir),
            },
    {
        match command {
            Command::Direction(dir) => self.queue_turn(dir),
        }
    }

    /// Pre-collision action: a living cycle makes its first queued turn and
    /// moves one step ahead.
    pub fn advance(&mut self)
        requires
            old(self)@.can_advance(),
        ensures
            final(self)@ == old(self)@.advanced(),
    {
        proof { use_type_invariant(&*self); }
        if !self.is_alive() {
            return;
        }
        self.try_turn();
        let mut position = self.position;
        position.step(self.facing, self.speed);
        proof {
            lemma_advance_keeps_inv(old(self)@);
        }
        self.position = position;
    }

    /// Post-collision action: a living cycle extends its current wall to
    /// where it now stands.
    pub fn update(&mut self)
        ensures
            final(self)@ == old(self)@.updated(),
    {
        if !self.is_alive() {
            return;
        }
        self.update_wall();
    }

    fn try_turn(&mut self)
        ensures
            final(self)@ == old(self)@.turn_applied(),
    {
        proof { use_type_invariant(&*self); }
        let mut queued_turns = VecDeque::new();
        std::mem::swap(&mut queued_turns, &mut self.queued_turns);
        let next = queued_turns.pop_front();
        std::mem::swap(&mut queued_turns, &mut self.queued_turns);
        if let Some(dir) = next {
            let mut walls = Cycle::stand_in_walls(self.position);
            std::mem::swap(&mut walls, &mut self.walls);
            self.facing = self.facing.turn(dir);
            walls.push(Wall::new(self.position));
            std::mem::swap(&mut walls, &mut self.walls);
            proof {
                assert(self@.walls == old(self)@.turn_applied().walls);
                assert forall|i: int| 0 <= i < self@.walls.len() implies #[trigger] self@.walls[i].is_aligned() by {
                    if i < old(self)@.walls.len() {
                        assert(self@.walls[i] == old(self)@.walls[i]);
                    }
                }
            }
        }
    }

    fn update_wall(&mut self)
        ensures
            final(self)@ == old(self)@.wall_extended(),
    {
        proof { use_type_invariant(&*self); }
        let n = self.walls.len();
        if n > 0 {
            let mut current_wall = self.walls[n - 1];
            current_wall.update_end_position(self.position);
            let mut walls = Cycle::stand_in_walls(self.position);
            std::mem::swap(&mut walls, &mut self.walls);
            walls.set(n - 1, current_wall);
            std::mem::swap(&mut walls, &mut self.walls);
            proof {
                assert forall|i: int| 0 <= i < self@.walls.len() implies #[trigger] self@.walls[i].is_aligned() by {
                    if i != n - 1 {
                        assert(self@.walls[i] == old(self)@.walls[i]);
                    }
                }
            }
        }
    }
}

/// A freshly spawned cycle satisfies the invariant, its one-wall trail is
/// connected and reaches its position.
pub proof fn lemma_spawned_inv(position: Coordinate, facing: Cardinal)
    ensures
        CycleView::spawned(position, facing).inv(),
        CycleView::spawned(position, facing).trail_connected(),
        CycleView::spawned(position, facing).synced(),
{
}

/// Advancing keeps the invariant: every wall stays axis-aligned and the cycle
/// stays on the line of its current wall.
pub proof fn lemma_advance_keeps_inv(v: CycleView)
    requires
        v.inv(),
        v.can_advance(),
    ensures
        v.advanced().inv(),
{
    if v.alive {
        let t = v.turn_applied();
        assert(t.inv());
        assert forall|i: int| 0 <= i < v.advanced().walls.len() implies #[trigger] v.advanced().walls[i].is_aligned() by {
            assert(v.advanced().walls[i] == t.walls[i]);
        }
    }
}

/// Updating keeps the invariant.
pub proof fn lemma_update_keeps_inv(v: CycleView)
    requires
        v.inv(),
    ensures
        v.updated().inv(),
{
    if v.alive {
        let u = v.updated();
        let n = v.walls.len() - 1;
        assert forall|i: int| 0 <= i < u.walls.len() implies #[trigger] u.walls[i].is_aligned() by {
            if i != n {
                assert(u.walls[i] == v.walls[i]);
            }
        }
    }
}

/// Killing and queueing turns keep the invariant.
pub proof fn lemma_kill_and_queue_keep_inv(v: CycleView, dir: Direction)
    requires
        v.inv(),
    ensures
        v.killed().inv(),
        v.queued(dir).inv(),
{
}

/// A living cycle whose trail is connected and reaches it still has a
/// connected trail reaching it after one advance followed by an update.
pub proof fn lemma_trail_stays_connected(v: CycleView)
    requires
        v.inv(),
        v.can_advance(),
        v.trail_connected(),
        v.synced(),
    ensures
        v.advanced().trail_connected(),
        v.advanced().updated().trail_connected(),
        v.advanced().updated().synced(),
{
    let a = v.advanced();
    let u = a.updated();
    if v.alive {
        let t = v.turn_applied();
        assert(t.trail_connected());
        assert(a.walls == t.walls);
        assert forall|i: int| 0 <= i < u.walls.len() - 1 implies #[trigger] u.walls[i].end() == u.walls[i + 1].start() by {
            assert(a.walls == t.walls);
            if i + 1 == u.walls.len() - 1 {
                assert(u.walls[i] == t.walls[i]);
            } else {
                assert(u.walls[i] == t.walls[i]);
                assert(u.walls[i + 1] == t.walls[i + 1]);
            }
        }
        assert(u.current_wall() == Wall::segment(a.current_wall().start(), a.position));
    }
}

/// Turns are made first in, first out: queueing `dir` puts it behind every
/// turn already waiting, so the next advance of a living cycle makes the turn
/// queued earliest, and makes `dir` only when nothing else was waiting.
pub proof fn lemma_turns_first_in_first_out(v: CycleView, dir: Direction)
    requires
        v.alive,
    ensures
        v.queued(dir).queued_turns.len() == v.queued_turns.len() + 1,
        v.queued(dir).queued_turns[v.queued_turns.len() as int] == dir,
        forall|i: int|
            0 <= i < v.queued_turns.len() ==> #[trigger] v.queued(dir).queued_turns[i] == v.queued_turns[i],
        v.queued_turns.len() == 0 ==> v.queued(dir).advanced().facing == turned(v.facing, dir),
        v.queued_turns.len() == 0 ==> v.queued(dir).advanced().queued_turns.len() == 0,
        v.queued_turns.len() > 0 ==> v.queued(dir).advanced().facing == turned(v.facing, v.queued_turns[0]),
        v.queued_turns.len() > 0 ==> v.queued(dir).advanced().queued_turns.last() == dir,
        v.queued_turns.len() > 0 ==> v.queued(dir).advanced().queued_turns.len() == v.queued_turns.len(),
{
}

/// Advancing and updating never shrinks a wall: every point on one of the
/// cycle's walls stays on that wall. A crashed cycle's walls do not change.
pub proof fn lemma_walls_only_grow(v: CycleView, k: int, p: Coordinate)
    requires
        v.inv(),
        v.can_advance(),
        v.alive ==> v.synced(),
        0 <= k < v.walls.len(),
        v.walls[k].contains(p),
    ensures
        v.advanced().walls[k] == v.walls[k],
        v.advanced().updated().walls[k].contains(p),
        v.advanced().killed().walls[k] == v.walls[k],
{
    let a = v.advanced();
    if v.alive {
        let t = v.turn_applied();
        assert(a.walls == t.walls);
        assert(t.walls[k] == v.walls[k]);
        let last = a.walls.len() - 1;
        if k == last {
            // no turn was made: the current wall is extended straight ahead
            assert(v.queued_turns.len() == 0);
            let w = v.walls[k];
            let s = w.start();
            let n = a.position;
            assert(w == Wall::segment(s, v.position));
            assert(a.updated().walls[k] == Wall::segment(s, n));
        }
    }
}

} // verus!
