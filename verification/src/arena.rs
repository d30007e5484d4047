//! The arena: a bounded field of cycles that all move in lock step.
use vstd::prelude::*;
use crate::{Cardinal, Coordinate, Direction};
use crate::cycle::{Cycle, CycleView, Command, lemma_advance_keeps_inv, lemma_update_keeps_inv, lemma_trail_stays_connected};

verus! {

/// `i32::abs`: the absolute value. It overflows for `i32::MIN`, which is left out.
pub assume_specification[ <i32>::abs ](x: i32) -> (r: i32)
    requires
        x != i32::MIN,
    ensures
        r as int == (if x < 0 { -(x as int) } else { x as int }),
;

/// The index of a cycle in its arena.
pub type CycleId = usize;

/// A command for one cycle, applied at the start of a tick.
#[derive(Clone, Copy, PartialEq, Eq, Debug, Structural)]
pub struct SimInput {
    pub cycle_id: CycleId,
    pub command: Command,
}

/// The absolute value of an integer.
pub open spec fn magnitude(v: int) -> int {
    if v < 0 { -v } else { v }
}

/// The abstract views of a sequence of cycles.
pub open spec fn views(cs: Seq<Cycle>) -> Seq<CycleView> {
    cs.map_values(|c: Cycle| c@)
}

/// The number of living cycles.
pub open spec fn alive_count(cs: Seq<CycleView>) -> nat
    decreases cs.len(),
{
    if cs.len() == 0 {
        0
    } else {
        alive_count(cs.drop_last()) + if cs.last().alive { 1nat } else { 0nat }
    }
}

/// What a command does to a cycle.
pub open spec fn acted(c: CycleView, command: Command) -> CycleView {
    match command {
        Command::Direction(dir) => c.queued(dir),
    }
}

/// The cycles after the commands of `inputs` have been carried out in order.
pub open spec fn inputs_applied(cs: Seq<CycleView>, inputs: Seq<SimInput>) -> Seq<CycleView>
    decreases inputs.len(),
{
    if inputs.len() == 0 {
        cs
    } else {
        let prev = inputs_applied(cs, inputs.drop_last());
        let input = inputs.last();
        prev.update(input.cycle_id as int, acted(prev[input.cycle_id as int], input.command))
    }
}

/// Every input names a cycle of the arena.
pub open spec fn inputs_in_range(cs: Seq<CycleView>, inputs: Seq<SimInput>) -> bool {
    forall|k: int| 0 <= k < inputs.len() ==> #[trigger] inputs[k].cycle_id < cs.len()
}

/// Some wall of some cycle holds `p`.
pub open spec fn hits_wall(cs: Seq<CycleView>, p: Coordinate) -> bool {
    exists|j: int, k: int|
        #![trigger cs[j].walls[k]]
        0 <= j < cs.len() && 0 <= k < cs[j].walls.len() && cs[j].walls[k].contains(p)
}

/// The abstract state of an arena.
pub struct ArenaView {
    pub max_x: i32,
    pub max_y: i32,
    pub cycles: Seq<CycleView>,
    pub next_id: CycleId,
}

impl ArenaView {
    /// `p` is outside the arena: at or past the edge `|x| = max_x` or `|y| = max_y`.
    pub open spec fn out_of_bounds(self, p: Coordinate) -> bool {
        magnitude(p.x as int) >= self.max_x || magnitude(p.y as int) >= self.max_y
    }

    /// The bounds test can be made on `p` without overflowing `i32::abs`.
    pub open spec fn bounds_checkable(self, p: Coordinate) -> bool {
        &&& p.x != i32::MIN
        &&& magnitude(p.x as int) < self.max_x ==> p.y != i32::MIN
    }

    /// Every living cycle is inside the arena.
    pub open spec fn in_bounds(self) -> bool {
        forall|i: int|
            0 <= i < self.cycles.len() && #[trigger] self.cycles[i].alive
                ==> !self.out_of_bounds(self.cycles[i].position)
    }

    /// The cycles after every living one has advanced.
    pub open spec fn advanced(cs: Seq<CycleView>) -> Seq<CycleView> {
        cs.map_values(|c: CycleView| c.advanced())
    }

    /// Cycle `i` of the advanced cycles `cs` crashes: it is alive and it has
    /// left the arena or stands on a wall of any cycle, itself included.
    pub open spec fn crashes(self, cs: Seq<CycleView>, i: int) -> bool {
        &&& cs[i].alive
        &&& self.out_of_bounds(cs[i].position) || hits_wall(cs, cs[i].position)
    }

    /// The cycles at the end of a tick on the advanced cycles `cs`: those that
    /// crash are killed where they stand, the others extend their walls.
    pub open spec fn settled(self, cs: Seq<CycleView>) -> Seq<CycleView> {
        Seq::new(
            cs.len(),
            |i: int|
                if self.crashes(cs, i) {
                    cs[i].killed()
                } else {
                    cs[i].updated()
                },
        )
    }

    /// One tick: commands are carried out, every living cycle advances, then
    /// crashes are detected and the survivors extend their walls.
    pub open spec fn ticked(self, inputs: Seq<SimInput>) -> ArenaView {
        ArenaView {
            cycles: self.settled(ArenaView::advanced(inputs_applied(self.cycles, inputs))),
            ..self
        }
    }

    /// Every cycle moves at unit speed.
    pub open spec fn unit_speeds(self) -> bool {
        forall|i: int| 0 <= i < self.cycles.len() ==> (#[trigger] self.cycles[i]).speed == 1
    }

    /// Every trail is sound: each cycle satisfies `CycleView::inv`, its walls
    /// form one unbroken line, and a living cycle's current wall reaches it.
    pub open spec fn trails_sound(self) -> bool {
        forall|i: int|
            0 <= i < self.cycles.len() ==> {
                &&& (#[trigger] self.cycles[i]).inv()
                &&& self.cycles[i].trail_connected()
                &&& self.cycles[i].alive ==> self.cycles[i].synced()
            }
    }

    /// A tick on `inputs` runs without a fault: every input names a cycle,
    /// no living cycle steps outside `i32`, and the bounds test on its new
    /// position does not overflow.
    pub open spec fn tick_safe(self, inputs: Seq<SimInput>) -> bool {
        let cs = inputs_applied(self.cycles, inputs);
        &&& inputs_in_range(self.cycles, inputs)
        &&& forall|i: int| 0 <= i < cs.len() ==> #[trigger] cs[i].can_advance()
        &&& forall|i: int|
            0 <= i < cs.len() && #[trigger] cs[i].alive ==> self.bounds_checkable(cs[i].next_position())
    }
}

/// The arena.
pub struct Arena {
    max_x: i32,
    max_y: i32,
    cycles: Vec<Cycle>,
    next_id: CycleId,
}

impl View for Arena {
    type V = ArenaView;

    closed spec fn view(&self) -> ArenaView {
        ArenaView {
            max_x: self.max_x,
            max_y: self.max_y,
            cycles: views(self.cycles@),
            next_id: self.next_id,
        }
    }
}

proof fn lemma_inputs_applied_len(cs: Seq<CycleView>, inputs: Seq<SimInput>)
    requires
        inputs_in_range(cs, inputs),
    ensures
        inputs_applied(cs, inputs).len() == cs.len(),
    decreases inputs.len(),
{
    if inputs.len() > 0 {
        assert(inputs_in_range(cs, inputs.drop_last())) by {
            assert forall|k: int| 0 <= k < inputs.drop_last().len() implies #[trigger] inputs.drop_last()[k].cycle_id < cs.len() by {
                assert(inputs.drop_last()[k] == inputs[k]);
            }
        }
        lemma_inputs_applied_len(cs, inputs.drop_last());
        assert(inputs[inputs.len() - 1].cycle_id < cs.len());
    }
}

/// Commands only add queued turns: everything else about every cycle is kept.
pub proof fn lemma_inputs_only_queue(cs: Seq<CycleView>, inputs: Seq<SimInput>)
    requires
        inputs_in_range(cs, inputs),
    ensures
        inputs_applied(cs, inputs).len() == cs.len(),
        forall|i: int|
            0 <= i < cs.len() ==> (#[trigger] inputs_applied(cs, inputs)[i]) == (CycleView {
                queued_turns: inputs_applied(cs, inputs)[i].queued_turns,
                ..cs[i]
            }),
    decreases inputs.len(),
{
    lemma_inputs_applied_len(cs, inputs);
    if inputs.len() > 0 {
        assert(inputs_in_range(cs, inputs.drop_last())) by {
            assert forall|k: int| 0 <= k < inputs.drop_last().len() implies #[trigger] inputs.drop_last()[k].cycle_id < cs.len() by {
                assert(inputs.drop_last()[k] == inputs[k]);
            }
        }
        lemma_inputs_only_queue(cs, inputs.drop_last());
        assert(inputs[inputs.len() - 1].cycle_id < cs.len());
        let prev = inputs_applied(cs, inputs.drop_last());
        assert forall|i: int| 0 <= i < cs.len() implies (#[trigger] inputs_applied(cs, inputs)[i]) == (CycleView {
                queued_turns: inputs_applied(cs, inputs)[i].queued_turns,
                ..cs[i]
            }) by {
            assert(prev[i] == (CycleView { queued_turns: prev[i].queued_turns, ..cs[i] }));
        }
    }
}

/// A tick can always be made on an arena whose living cycles are all inside
/// it and move at unit speed, whatever commands name its cycles.
pub proof fn lemma_in_bounds_tick_is_safe(v: ArenaView, inputs: Seq<SimInput>)
    requires
        v.in_bounds(),
        v.unit_speeds(),
        inputs_in_range(v.cycles, inputs),
    ensures
        v.tick_safe(inputs),
{
    lemma_inputs_only_queue(v.cycles, inputs);
    let cs = inputs_applied(v.cycles, inputs);
    assert forall|i: int| 0 <= i < cs.len() implies #[trigger] cs[i].can_advance() by {
        assert(cs[i].speed == v.cycles[i].speed);
        if cs[i].alive {
            assert(v.cycles[i].alive);
        }
    }
    assert forall|i: int| 0 <= i < cs.len() && #[trigger] cs[i].alive implies v.bounds_checkable(cs[i].next_position()) by {
        assert(v.cycles[i].alive);
    }
}

/// After a tick every living cycle is inside the arena: any that left it crashed.
pub proof fn lemma_tick_keeps_cycles_in_bounds(v: ArenaView, inputs: Seq<SimInput>)
    ensures
        v.ticked(inputs).in_bounds(),
{
    let w = v.ticked(inputs);
    let adv = ArenaView::advanced(inputs_applied(v.cycles, inputs));
    assert forall|i: int| 0 <= i < w.cycles.len() && #[trigger] w.cycles[i].alive implies !w.out_of_bounds(w.cycles[i].position) by {
        assert(!v.crashes(adv, i));
    }
}

/// A tick keeps the arena's size and the number of its cycles, never brings a
/// crashed cycle back, leaves a crashed cycle where it stands with its walls
/// (only commands still queue turns on it), and never raises the number of
/// living cycles.
pub proof fn lemma_tick_never_revives(v: ArenaView, inputs: Seq<SimInput>)
    requires
        inputs_in_range(v.cycles, inputs),
    ensures
        v.ticked(inputs).max_x == v.max_x,
        v.ticked(inputs).max_y == v.max_y,
        v.ticked(inputs).cycles.len() == v.cycles.len(),
        forall|i: int|
            0 <= i < v.cycles.len() && !v.cycles[i].alive ==> !(#[trigger] v.ticked(inputs).cycles[i]).alive,
        forall|i: int|
            0 <= i < v.cycles.len() && !v.cycles[i].alive ==> (#[trigger] v.ticked(inputs).cycles[i]) == (
            CycleView { queued_turns: v.ticked(inputs).cycles[i].queued_turns, ..v.cycles[i] }),
        alive_count(v.ticked(inputs).cycles) <= alive_count(v.cycles),
        v.unit_speeds() ==> v.ticked(inputs).unit_speeds(),
{
    lemma_inputs_only_queue(v.cycles, inputs);
    let w = v.ticked(inputs);
    assert forall|i: int| 0 <= i < v.cycles.len() && (#[trigger] w.cycles[i]).alive implies v.cycles[i].alive by {
        assert(inputs_applied(v.cycles, inputs)[i].alive == v.cycles[i].alive);
    }
    lemma_alive_count_monotone(w.cycles, v.cycles);
}

/// Fewer living cycles, position by position, means a smaller living count.
pub proof fn lemma_alive_count_monotone(a: Seq<CycleView>, b: Seq<CycleView>)
    requires
        a.len() == b.len(),
        forall|i: int| 0 <= i < a.len() ==> (#[trigger] a[i]).alive ==> b[i].alive,
    ensures
        alive_count(a) <= alive_count(b),
    decreases a.len(),
{
    if a.len() > 0 {
        assert forall|i: int| 0 <= i < a.drop_last().len() && (#[trigger] a.drop_last()[i]).alive implies b.drop_last()[i].alive by {
            assert(a.drop_last()[i] == a[i]);
            assert(b.drop_last()[i] == b[i]);
        }
        lemma_alive_count_monotone(a.drop_last(), b.drop_last());
    }
}

/// A tick keeps every trail sound: walls stay axis-aligned and connected, and
/// each surviving cycle's current wall reaches it.
pub proof fn lemma_tick_keeps_trails_sound(v: ArenaView, inputs: Seq<SimInput>)
    requires
        v.trails_sound(),
        v.tick_safe(inputs),
    ensures
        v.ticked(inputs).trails_sound(),
        v.ticked(inputs).unit_speeds(),
{
    lemma_inputs_only_queue(v.cycles, inputs);
    let cs = inputs_applied(v.cycles, inputs);
    let adv = ArenaView::advanced(cs);
    let w = v.ticked(inputs);
    assert forall|i: int| 0 <= i < w.cycles.len() implies {
        &&& (#[trigger] w.cycles[i]).inv()
        &&& w.cycles[i].trail_connected()
        &&& w.cycles[i].alive ==> w.cycles[i].synced()
    } by {
        let c = cs[i];
        assert(v.cycles[i].inv());
        assert(c.inv());
        assert(c.trail_connected());
        assert(c.can_advance());
        lemma_advance_keeps_inv(c);
        if c.alive {
            assert(c.synced());
            lemma_trail_stays_connected(c);
            lemma_update_keeps_inv(c.advanced());
        }
    }
}

/// An arena with a fresh cycle placed strictly inside it stays sound: its
/// living cycles are inside it and every trail is sound.
pub proof fn lemma_spawn_keeps_arena_sound(v: ArenaView, position: Coordinate, facing: Cardinal)
    requires
        v.in_bounds(),
        v.trails_sound(),
        !v.out_of_bounds(position),
    ensures
        (ArenaView { cycles: v.cycles.push(CycleView::spawned(position, facing)), ..v }).in_bounds(),
        (ArenaView { cycles: v.cycles.push(CycleView::spawned(position, facing)), ..v }).trails_sound(),
        (ArenaView { cycles: v.cycles.push(CycleView::spawned(position, facing)), ..v }).unit_speeds(),
{
    let w = ArenaView { cycles: v.cycles.push(CycleView::spawned(position, facing)), ..v };
    crate::cycle::lemma_spawned_inv(position, facing);
    assert forall|i: int| 0 <= i < w.cycles.len() implies (#[trigger] w.cycles[i]).speed == 1 by {
        if i < v.cycles.len() {
            assert(w.cycles[i] == v.cycles[i]);
            assert(v.cycles[i].inv());
        }
    }
    assert forall|i: int| 0 <= i < w.cycles.len() && #[trigger] w.cycles[i].alive implies !w.out_of_bounds(w.cycles[i].position) by {
        if i < v.cycles.len() {
            assert(w.cycles[i] == v.cycles[i]);
        }
    }
    assert forall|i: int| 0 <= i < w.cycles.len() implies {
        &&& (#[trigger] w.cycles[i]).inv()
        &&& w.cycles[i].trail_connected()
        &&& w.cycles[i].alive ==> w.cycles[i].synced()
    } by {
        if i < v.cycles.len() {
            assert(w.cycles[i] == v.cycles[i]);
        }
    }
}

/// The crash rule of a tick. A cycle living after the commands moves to its
/// next position and survives the tick exactly when that position is inside
/// the arena, `-max_x < x < max_x` and `-max_y < y < max_y`, and no wall of
/// any cycle, as the walls stand after every cycle has moved, holds it. A
/// cycle that was already dead does not move and stays dead.
pub proof fn lemma_tick_crash_rule(v: ArenaView, inputs: Seq<SimInput>, i: int)
    requires
        inputs_in_range(v.cycles, inputs),
        0 <= i < v.cycles.len(),
    ensures
        ({
            let c = inputs_applied(v.cycles, inputs)[i];
            let moved = ArenaView::advanced(inputs_applied(v.cycles, inputs));
            let p = c.next_position();
            let after = v.ticked(inputs).cycles[i];
            c.alive ==> {
                &&& after.position == p
                &&& after.alive <==> {
                    &&& -v.max_x < p.x < v.max_x
                    &&& -v.max_y < p.y < v.max_y
                    &&& forall|j: int, k: int|
                        0 <= j < moved.len() && 0 <= k < moved[j].walls.len()
                            ==> !(#[trigger] moved[j].walls[k]).contains(p)
                }
            }
        }),
        !v.cycles[i].alive ==> !v.ticked(inputs).cycles[i].alive && v.ticked(inputs).cycles[i].position
            == v.cycles[i].position,
{
    lemma_inputs_only_queue(v.cycles, inputs);
    let cs = inputs_applied(v.cycles, inputs);
    let moved = ArenaView::advanced(cs);
    let c = cs[i];
    let p = c.next_position();
    if c.alive {
        assert(moved[i].position == p);
        assert(moved[i].alive);
        if hits_wall(moved, p) {
            let (j, k) = choose|j: int, k: int|
                #![trigger moved[j].walls[k]]
                0 <= j < moved.len() && 0 <= k < moved[j].walls.len() && moved[j].walls[k].contains(p);
            assert(moved[j].walls[k].contains(p));
        }
    }
}

/// The indices of the living cycles.
pub open spec fn living_indices(cs: Seq<CycleView>) -> Set<int> {
    Set::new(|i: int| 0 <= i < cs.len() && cs[i].alive)
}

/// The living count is the number of living cycles: the size of the set of
/// their indices.
pub proof fn lemma_alive_count_counts_the_living(cs: Seq<CycleView>)
    ensures
        living_indices(cs).finite(),
        alive_count(cs) == living_indices(cs).len(),
    decreases cs.len(),
{
    if cs.len() == 0 {
        assert(living_indices(cs) =~= Set::<int>::empty());
    } else {
        let rest = cs.drop_last();
        lemma_alive_count_counts_the_living(rest);
        let n = cs.len() - 1;
        assert forall|i: int| 0 <= i < rest.len() implies rest[i] == cs[i] by {}
        if cs.last().alive {
            assert(living_indices(cs) =~= living_indices(rest).insert(n));
            assert(!living_indices(rest).contains(n));
        } else {
            assert(living_indices(cs) =~= living_indices(rest));
        }
    }
}

/// Queueing a turn for a cycle before a tick is the same as commanding that
/// turn in the tick.
pub proof fn lemma_queued_turn_is_a_command(v: ArenaView, id: CycleId, dir: Direction)
    requires
        id < v.cycles.len(),
    ensures
        (ArenaView { cycles: v.cycles.update(id as int, v.cycles[id as int].queued(dir)), ..v }).ticked(
            Seq::empty(),
        ) == v.ticked(seq![SimInput { cycle_id: id, command: Command::Direction(dir) }]),
{
    let inputs = seq![SimInput { cycle_id: id, command: Command::Direction(dir) }];
    let queued = v.cycles.update(id as int, v.cycles[id as int].queued(dir));
    assert(inputs.drop_last() =~= Seq::<SimInput>::empty());
    assert(inputs.last().cycle_id == id);
    assert(inputs_applied(v.cycles, inputs.drop_last()) == v.cycles);
    assert(inputs_applied(v.cycles, inputs) == queued);
    assert(inputs_applied(queued, Seq::empty()) == queued);
    let qv = ArenaView { cycles: queued, ..v };
    let adv = ArenaView::advanced(queued);
    assert(qv.settled(adv) =~= v.settled(adv));
}

impl Arena {
    /// An empty arena whose edges are at `|x| = max_x` and `|y| = max_y`.
    pub fn new(max_x: i32, max_y: i32) -> (a: Arena)
        ensures
            a@ == (ArenaView { max_x, max_y, cycles: Seq::empty(), next_id: 0 }),
    {
        let a = Arena { max_x, max_y, cycles: Vec::new(), next_id: 0 };
        assert(a@.cycles =~= Seq::empty());
        a
    }

    pub fn max_x(&self) -> (r: i32)
        ensures
            r == self@.max_x,
    {
        self.max_x
    }

    pub fn max_y(&self) -> (r: i32)
        ensures
            r == self@.max_y,
    {
        self.max_y
    }

    pub fn cycles(&self) -> (r: &[Cycle])
        ensures
            views(r@) == self@.cycles,
    {
        self.cycles.as_slice()
    }

    /// Whether every living cycle is inside the arena. Every cycle of an arena
    /// satisfies `CycleView::inv`, so in particular moves at unit speed.
    pub fn in_bounds(&self) -> (r: bool)
        ensures
            r == self@.in_bounds(),
            forall|i: int| 0 <= i < self@.cycles.len() ==> (#[trigger] self@.cycles[i]).inv(),
            self@.unit_speeds(),
    {
        let n = self.cycles.len();
        let mut ok = true;
        let mut i: usize = 0;
        while i < n
            invariant
                i <= n,
                n == self.cycles.len(),
                ok == (forall|j: int|
                    0 <= j < i && #[trigger] self@.cycles[j].alive ==> !self@.out_of_bounds(self@.cycles[j].position)),
                forall|j: int| 0 <= j < i ==> (#[trigger] self@.cycles[j]).inv(),
            decreases n - i,
        {
            let c = &self.cycles[i];
            proof {
                use_type_invariant(c);
            }
            assert(self@.cycles[i as int] == c@);
            if c.is_alive() {
                let p = c.position();
                let outside = p.x as i64 <= -(self.max_x as i64) || p.x >= self.max_x || p.y as i64 <= -(self.max_y as i64) || p.y >= self.max_y;
                if outside {
                    ok = false;
                }
            }
            i += 1;
        }
        ok
    }

    /// Hands out the next cycle id.
    pub fn allocate_id(&mut self) -> (id: CycleId)
        requires
            old(self)@.next_id < usize::MAX,
        ensures
            id == old(self)@.next_id,
            final(self)@ == (ArenaView { next_id: (id + 1) as usize, ..old(self)@ }),
    {
        self.next_id += 1;
        self.next_id - 1
    }

    /// The number of living cycles.
    pub fn living_count(&self) -> (n: usize)
        ensures
            n == alive_count(self@.cycles),
    {
        let mut n: usize = 0;
        let mut i: usize = 0;
        while i < self.cycles.len()
            invariant
                i <= self.cycles.len(),
                n == alive_count(views(self.cycles@).take(i as int)),
                n <= i,
            decreases self.cycles.len() - i,
        {
            assert(views(self.cycles@).take(i + 1).drop_last() =~= views(self.cycles@).take(i as int));
            if self.cycles[i].is_alive() {
                n += 1;
            }
            i += 1;
        }
        assert(views(self.cycles@).take(i as int) =~= views(self.cycles@));
        n
    }

    /// Adds a cycle.
    pub fn add_cycle(&mut self, cycle: Cycle)
        ensures
            final(self)@ == (ArenaView { cycles: old(self)@.cycles.push(cycle@), ..old(self)@ }),
            cycle@.inv(),
    {
        proof { use_type_invariant(&cycle); }
        self.cycles.push(cycle);
        assert(views(self.cycles@) =~= views(old(self).cycles@).push(cycle@));
    }

    /// Spawns a new cycle at `position` facing `facing` under the next id.
    pub fn spawn_cycle(&mut self, position: Coordinate, facing: Cardinal) -> (id: CycleId)
        requires
            old(self)@.next_id < usize::MAX,
        ensures
            id == old(self)@.next_id,
            final(self)@ == (ArenaView {
                cycles: old(self)@.cycles.push(CycleView::spawned(position, facing)),
                next_id: (id + 1) as usize,
                ..old(self)@
            }),
    {
        let new_id = self.allocate_id();
        let cycle = Cycle::new(position, facing);
        self.add_cycle(cycle);
        new_id
    }

    /// Queues a turn for the cycle with index `id`.
    pub fn queue_turn(&mut self, id: usize, dir: Direction)
        requires
            id < old(self)@.cycles.len(),
        ensures
            final(self)@ == (ArenaView {
                cycles: old(self)@.cycles.update(id as int, old(self)@.cycles[id as int].queued(dir)),
                ..old(self)@
            }),
    {
        self.cycles[id].queue_turn(dir);
        assert(views(self.cycles@) =~= old(self)@.cycles.update(id as int, old(self)@.cycles[id as int].queued(dir)));
    }

    /// One step of the simulation. Commands are carried out in order; every
    /// living cycle advances; each living cycle that has left the arena or
    /// stands on any wall (walls as they were before this tick's extension)
    /// is killed; the survivors extend their current walls.
    pub fn tick(&mut self, inputs: &[SimInput])
        requires
            old(self)@.tick_safe(inputs@),
        ensures
            final(self)@ == old(self)@.ticked(inputs@),
            final(self)@.cycles.len() == old(self)@.cycles.len(),
            forall|i: int|
                0 <= i < old(self)@.cycles.len() && !old(self)@.cycles[i].alive ==> (#[trigger] final(self)@.cycles[i]) == (CycleView {
                    queued_turns: final(self)@.cycles[i].queued_turns,
                    ..old(self)@.cycles[i]
                }),
            alive_count(final(self)@.cycles) <= alive_count(old(self)@.cycles),
    {
        let ghost v0 = self@;
        // Phase 1: carry out the commands
        let mut k: usize = 0;
        while k < inputs.len()
            invariant
                k <= inputs.len(),
                v0.tick_safe(inputs@),
                self@ == (ArenaView { cycles: inputs_applied(v0.cycles, inputs@.take(k as int)), ..v0 }),
            decreases inputs.len() - k,
        {
            let ghost prefix = inputs@.take(k as int);
            proof {
                assert(inputs_in_range(v0.cycles, prefix)) by {
                    assert forall|m: int| 0 <= m < prefix.len() implies #[trigger] prefix[m].cycle_id < v0.cycles.len() by {
                        assert(prefix[m] == inputs@[m]);
                    }
                }
                lemma_inputs_applied_len(v0.cycles, prefix);
                assert(inputs@[k as int].cycle_id < v0.cycles.len());
            }
            let input = inputs[k];
            self.cycles[input.cycle_id].act(input.command);
            proof {
                assert(inputs@.take(k + 1).drop_last() =~= prefix);
                assert(views(self.cycles@) =~= inputs_applied(v0.cycles, inputs@.take(k + 1)));
            }
            k += 1;
        }
        assert(inputs@.take(inputs@.len() as int) =~= inputs@);
        let ghost applied = self@.cycles;

        // Phase 2: every living cycle advances
        let n = self.cycles.len();
        let mut i: usize = 0;
        while i < n
            invariant
                i <= n,
                n == self.cycles.len(),
                n == applied.len(),
                applied == inputs_applied(v0.cycles, inputs@),
                v0.tick_safe(inputs@),
                self@.max_x == v0.max_x,
                self@.max_y == v0.max_y,
                self@.next_id == v0.next_id,
                forall|j: int| 0 <= j < i ==> #[trigger] self@.cycles[j] == applied[j].advanced(),
                forall|j: int| i <= j < n ==> #[trigger] self@.cycles[j] == applied[j],
            decreases n - i,
        {
            assert(applied[i as int].can_advance());
            assert(self@.cycles[i as int] == self.cycles@[i as int]@);
            let ghost before = self.cycles@;
            if self.cycles[i].is_alive() {
                self.cycles[i].advance();
            }
            proof {
                assert forall|j: int| 0 <= j < n && j != i implies #[trigger] self.cycles@[j] == before[j] by {}
                assert forall|j: int| 0 <= j < i + 1 implies #[trigger] self@.cycles[j] == applied[j].advanced() by {
                    assert(self@.cycles[j] == self.cycles@[j]@);
                    if j < i {
                        assert(views(before)[j] == before[j]@);
                    }
                }
                assert forall|j: int| i + 1 <= j < n implies #[trigger] self@.cycles[j] == applied[j] by {
                    assert(self@.cycles[j] == self.cycles@[j]@);
                    assert(views(before)[j] == before[j]@);
                }
            }
            i += 1;
        }
        let ghost adv = self@.cycles;
        assert(adv =~= ArenaView::advanced(applied));

        // Phase 3: find the crashes
        let mut dead_indices: Vec<usize> = Vec::new();
        let mut i: usize = 0;
        while i < n
            invariant
                i <= n,
                n == self.cycles.len(),
                self@ == (ArenaView { cycles: adv, ..v0 }),
                adv == ArenaView::advanced(applied),
                applied.len() == n,
                applied == inputs_applied(v0.cycles, inputs@),
                v0.tick_safe(inputs@),
                forall|m: int|
                    0 <= m < dead_indices@.len() ==> #[trigger] dead_indices@[m] < i
                        && v0.crashes(adv, dead_indices@[m] as int),
                forall|j: int| 0 <= j < i && v0.crashes(adv, j) ==> dead_indices@.contains(j as usize),
            decreases n - i,
        {
            let ghost before = dead_indices@;
            assert(self@.cycles[i as int] == self.cycles@[i as int]@);
            let mut crashed = false;
            if self.cycles[i].is_alive() {
                let p = self.cycles[i].position();
                assert(adv[i as int] == applied[i as int].advanced());
                assert(applied[i as int].alive);
                // Outside the arena
                if self.out_of_bounds(p) {
                    crashed = true;
                } else if self.hits_wall(p) {
                    // Wall collision
                    crashed = true;
                }
            }
            assert(crashed == v0.crashes(adv, i as int));
            if crashed {
                dead_indices.push(i);
            }
            proof {
                assert forall|j: int| 0 <= j < i + 1 && v0.crashes(adv, j) implies dead_indices@.contains(j as usize) by {
                    if j < i {
                        assert(before.contains(j as usize));
                        let m = choose|m: int| 0 <= m < before.len() && before[m] == j as usize;
                        assert(dead_indices@[m] == j as usize);
                    } else {
                        assert(dead_indices@[dead_indices@.len() - 1] == i);
                    }
                }
            }
            i += 1;
        }

        // Phase 4: kill the crashed cycles, extend the walls of the others
        let mut k: usize = 0;
        while k < dead_indices.len()
            invariant
                k <= dead_indices.len(),
                n == self.cycles.len(),
                self@.max_x == v0.max_x,
                self@.max_y == v0.max_y,
                self@.next_id == v0.next_id,
                adv.len() == n,
                forall|m: int|
                    0 <= m < dead_indices@.len() ==> #[trigger] dead_indices@[m] < n
                        && v0.crashes(adv, dead_indices@[m] as int),
                forall|j: int|
                    0 <= j < n ==> #[trigger] self@.cycles[j] == (if dead_indices@.take(k as int).contains(j as usize) {
                        adv[j].killed()
                    } else {
                        adv[j]
                    }),
            decreases dead_indices.len() - k,
        {
            let index = dead_indices[k];
            let ghost before = self.cycles@;
            assert(self@.cycles[index as int] == self.cycles@[index as int]@);
            self.cycles[index].kill();
            proof {
                assert forall|j: int| 0 <= j < n && j != index implies #[trigger] self@.cycles[j] == views(before)[j] by {
                    assert(self@.cycles[j] == self.cycles@[j]@);
                    assert(views(before)[j] == before[j]@);
                }
                assert(dead_indices@.take(k + 1) =~= dead_indices@.take(k as int).push(index));
                assert(self@.cycles[index as int] == self.cycles@[index as int]@);
                assert forall|j: int| 0 <= j < n implies #[trigger] self@.cycles[j] == (if dead_indices@.take(k + 1).contains(j as usize) {
                        adv[j].killed()
                    } else {
                        adv[j]
                    }) by {
                    let longer = dead_indices@.take(k + 1);
                    let shorter = dead_indices@.take(k as int);
                    if shorter.contains(j as usize) {
                        let m = choose|m: int| 0 <= m < shorter.len() && shorter[m] == j as usize;
                        assert(longer[m] == j as usize);
                    }
                    if j == index {
                        assert(longer[k as int] == index);
                    }
                    if longer.contains(j as usize) {
                        let m = choose|m: int| 0 <= m < longer.len() && longer[m] == j as usize;
                        if m < k {
                            assert(shorter[m] == j as usize);
                        }
                    }
                }
            }
            k += 1;
        }
        assert(dead_indices@.take(dead_indices@.len() as int) =~= dead_indices@);
        let mut i: usize = 0;
        while i < n
            invariant
                i <= n,
                n == self.cycles.len(),
                self@.max_x == v0.max_x,
                self@.max_y == v0.max_y,
                self@.next_id == v0.next_id,
                adv.len() == n,
                forall|j: int| 0 <= j < i ==> #[trigger] self@.cycles[j] == v0.settled(adv)[j],
                forall|j: int|
                    i <= j < n ==> #[trigger] self@.cycles[j] == (if v0.crashes(adv, j) {
                        adv[j].killed()
                    } else {
                        adv[j]
                    }),
            decreases n - i,
        {
            let ghost before = self.cycles@;
            assert(self@.cycles[i as int] == self.cycles@[i as int]@);
            if self.cycles[i].is_alive() {
                self.cycles[i].update();
            }
            proof {
                assert forall|j: int| 0 <= j < n && j != i implies #[trigger] self@.cycles[j] == views(before)[j] by {
                    assert(self@.cycles[j] == self.cycles@[j]@);
                    assert(views(before)[j] == before[j]@);
                }
                assert(self@.cycles[i as int] == self.cycles@[i as int]@);
            }
            i += 1;
        }
        assert(self@.cycles =~= v0.settled(adv));
        proof {
            lemma_tick_never_revives(v0, inputs@);
        }
    }

    /// Whether `point` is outside the arena.
    fn out_of_bounds(&self, point: Coordinate) -> (r: bool)
        requires
            self@.bounds_checkable(point),
        ensures
            r == self@.out_of_bounds(point),
    {
        if point.x.abs() >= self.max_x || point.y.abs() >= self.max_y {
            return true;
        }
        false
    }

    /// Whether some wall of some cycle holds `point`.
    fn hits_wall(&self, point: Coordinate) -> (r: bool)
        ensures
            r == hits_wall(self@.cycles, point),
    {
        let n = self.cycles.len();
        let mut j: usize = 0;
        while j < n
            invariant
                j <= n,
                n == self.cycles.len(),
                forall|jj: int, kk: int|
                    #![trigger self@.cycles[jj].walls[kk]]
                    0 <= jj < j && 0 <= kk < self@.cycles[jj].walls.len()
                        ==> !self@.cycles[jj].walls[kk].contains(point),
            decreases n - j,
        {
            let walls = self.cycles[j].walls();
            let mut k: usize = 0;
            while k < walls.len()
                invariant
                    k <= walls.len(),
                    j < n,
                    n == self.cycles.len(),
                    walls@ == self@.cycles[j as int].walls,
                    forall|jj: int, kk: int|
                        #![trigger self@.cycles[jj].walls[kk]]
                        0 <= jj < j && 0 <= kk < self@.cycles[jj].walls.len()
                            ==> !self@.cycles[jj].walls[kk].contains(point),
                    forall|kk: int| 0 <= kk < k ==> !(#[trigger] walls@[kk]).contains(point),
                decreases walls.len() - k,
            {
                if walls[k].has_point(point) {
                    assert(self@.cycles[j as int].walls[k as int].contains(point));
                    return true;
                }
                k += 1;
            }
            j += 1;
        }
        false
    }
}

} // verus!
