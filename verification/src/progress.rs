//! Every game ends. A living cycle stands on a cell covered by its own wall,
//! each tick after which a cycle still lives covers a new cell inside the
//! arena with wall, walls never shrink, and the inside of the arena has only
//! `(2 max_x - 1) (2 max_y - 1)` cells.
use vstd::prelude::*;
use vstd::set_lib::{set_int_range, lemma_int_range, lemma_len_subset};
use crate::Coordinate;
use crate::arena::{
    ArenaView, SimInput, alive_count, hits_wall, inputs_applied, inputs_in_range,
    lemma_inputs_only_queue, lemma_in_bounds_tick_is_safe, lemma_tick_keeps_cycles_in_bounds,
    lemma_tick_keeps_trails_sound, lemma_tick_never_revives,
};
use crate::cycle::{CycleView, lemma_walls_only_grow};

verus! {

broadcast use crate::wall::group_wall;

/// `p` lies inside the arena: `|x| < max_x` and `|y| < max_y`.
pub open spec fn inside(max_x: i32, max_y: i32, p: Coordinate) -> bool {
    -max_x < p.x < max_x && -max_y < p.y < max_y
}

/// The number of the inside cell at `p`, counted row by row from the bottom
/// left corner of the inside of the arena.
pub open spec fn cell_index(max_x: i32, max_y: i32, p: Coordinate) -> int {
    (p.y + max_y - 1) * (2 * max_x - 1) + (p.x + max_x - 1)
}

/// The number of cells inside an arena.
pub open spec fn cell_count(max_x: i32, max_y: i32) -> int {
    (2 * max_x - 1) * (2 * max_y - 1)
}

/// The cells inside the arena that some wall passes through.
pub open spec fn covered_cells(v: ArenaView) -> Set<int> {
    Set::new(
        |i: int|
            exists|p: Coordinate|
                #![trigger cell_index(v.max_x, v.max_y, p)]
                inside(v.max_x, v.max_y, p) && hits_wall(v.cycles, p) && cell_index(v.max_x, v.max_y, p)
                    == i,
    )
}

/// The arena after one tick per round of commands, in order.
pub open spec fn played(v: ArenaView, rounds: Seq<Seq<SimInput>>) -> ArenaView
    decreases rounds.len(),
{
    if rounds.len() == 0 {
        v
    } else {
        played(v, rounds.drop_last()).ticked(rounds.last())
    }
}

proof fn lemma_row_major(a: int, b: int, c: int, d: int, w: int)
    by (nonlinear_arith)
    requires
        0 <= a,
        0 <= c,
        0 <= b < w,
        0 <= d < w,
        a * w + b == c * w + d,
    ensures
        a == c,
        b == d,
{
    if a < c {
        assert(c * w >= (a + 1) * w);
    } else if c < a {
        assert(a * w >= (c + 1) * w);
    }
}

proof fn lemma_row_major_bound(a: int, b: int, w: int, h: int)
    by (nonlinear_arith)
    requires
        0 <= a < h,
        0 <= b < w,
    ensures
        0 <= a * w + b < h * w,
{
    assert(a * w <= (h - 1) * w);
}

/// Cells inside the arena are numbered `0 .. cell_count` without repeats.
pub proof fn lemma_cell_index(max_x: i32, max_y: i32, p: Coordinate, q: Coordinate)
    requires
        inside(max_x, max_y, p),
        inside(max_x, max_y, q),
    ensures
        0 <= cell_index(max_x, max_y, p) < cell_count(max_x, max_y),
        cell_index(max_x, max_y, p) == cell_index(max_x, max_y, q) ==> p == q,
{
    lemma_row_major_bound(p.y + max_y - 1, p.x + max_x - 1, 2 * max_x - 1, 2 * max_y - 1);
    if cell_index(max_x, max_y, p) == cell_index(max_x, max_y, q) {
        lemma_row_major(p.y + max_y - 1, p.x + max_x - 1, q.y + max_y - 1, q.x + max_x - 1, 2 * max_x - 1);
    }
}

/// The covered cells are finitely many, at most the number of cells.
pub proof fn lemma_covered_cells_bounded(v: ArenaView)
    ensures
        covered_cells(v).finite(),
        covered_cells(v).len() <= if cell_count(v.max_x, v.max_y) >= 0 { cell_count(v.max_x, v.max_y) } else { 0 },
{
    let n = if cell_count(v.max_x, v.max_y) >= 0 { cell_count(v.max_x, v.max_y) } else { 0 };
    assert(covered_cells(v).subset_of(set_int_range(0, n))) by {
        assert forall|i: int| covered_cells(v).contains(i) implies set_int_range(0, n).contains(i) by {
            let p = choose|p: Coordinate|
                #![trigger cell_index(v.max_x, v.max_y, p)]
                inside(v.max_x, v.max_y, p) && hits_wall(v.cycles, p) && cell_index(v.max_x, v.max_y, p) == i;
            lemma_cell_index(v.max_x, v.max_y, p, p);
        }
    }
    lemma_int_range(0, n);
    lemma_len_subset(covered_cells(v), set_int_range(0, n));
}

/// A point on a wall before a tick is on a wall of the advanced cycles and
/// on a wall after the tick.
proof fn lemma_point_stays_walled(v: ArenaView, inputs: Seq<SimInput>, p: Coordinate)
    requires
        v.trails_sound(),
        v.tick_safe(inputs),
        hits_wall(v.cycles, p),
    ensures
        hits_wall(ArenaView::advanced(inputs_applied(v.cycles, inputs)), p),
        hits_wall(v.ticked(inputs).cycles, p),
{
    lemma_inputs_only_queue(v.cycles, inputs);
    let cs = inputs_applied(v.cycles, inputs);
    let adv = ArenaView::advanced(cs);
    let w = v.ticked(inputs);
    let (j, k) = choose|j: int, k: int|
        #![trigger v.cycles[j].walls[k]]
        0 <= j < v.cycles.len() && 0 <= k < v.cycles[j].walls.len() && v.cycles[j].walls[k].contains(p);
    let c = cs[j];
    assert(c == (CycleView { queued_turns: c.queued_turns, ..v.cycles[j] }));
    assert(c.walls[k] == v.cycles[j].walls[k]);
    assert(c.can_advance());
    lemma_walls_only_grow(c, k, p);
    assert(adv[j].walls[k].contains(p));
    assert(w.cycles[j].walls[k].contains(p));
}

/// A tick never uncovers a cell, and every cycle that lives after it stands
/// on a cell that was not covered before.
pub proof fn lemma_tick_covers_more(v: ArenaView, inputs: Seq<SimInput>)
    requires
        v.trails_sound(),
        v.in_bounds(),
        v.tick_safe(inputs),
    ensures
        covered_cells(v).subset_of(covered_cells(v.ticked(inputs))),
        forall|i: int|
            0 <= i < v.cycles.len() && (#[trigger] v.ticked(inputs).cycles[i]).alive ==> {
                let p = v.ticked(inputs).cycles[i].position;
                &&& covered_cells(v.ticked(inputs)).contains(cell_index(v.max_x, v.max_y, p))
                &&& !covered_cells(v).contains(cell_index(v.max_x, v.max_y, p))
            },
{
    lemma_inputs_only_queue(v.cycles, inputs);
    let cs = inputs_applied(v.cycles, inputs);
    let adv = ArenaView::advanced(cs);
    let w = v.ticked(inputs);
    assert(covered_cells(v).subset_of(covered_cells(w))) by {
        assert forall|i: int| covered_cells(v).contains(i) implies covered_cells(w).contains(i) by {
            let p = choose|p: Coordinate|
                #![trigger cell_index(v.max_x, v.max_y, p)]
                inside(v.max_x, v.max_y, p) && hits_wall(v.cycles, p) && cell_index(v.max_x, v.max_y, p) == i;
            lemma_point_stays_walled(v, inputs, p);
        }
    }
    lemma_tick_keeps_cycles_in_bounds(v, inputs);
    assert forall|i: int| 0 <= i < v.cycles.len() && (#[trigger] w.cycles[i]).alive implies {
        let p = w.cycles[i].position;
        &&& covered_cells(w).contains(cell_index(v.max_x, v.max_y, p))
        &&& !covered_cells(v).contains(cell_index(v.max_x, v.max_y, p))
    } by {
        let p = w.cycles[i].position;
        assert(!v.crashes(adv, i));
        assert(adv[i].alive);
        assert(w.cycles[i] == adv[i].updated());
        assert(!w.out_of_bounds(p));
        assert(inside(v.max_x, v.max_y, p));
        // the survivor's current wall now reaches it
        let c = cs[i];
        assert(c == (CycleView { queued_turns: c.queued_turns, ..v.cycles[i] }));
        assert(v.cycles[i].inv());
        let last = w.cycles[i].walls.len() - 1;
        assert(w.cycles[i].walls[last].contains(p));
        assert(hits_wall(w.cycles, p));
        assert(covered_cells(w).contains(cell_index(v.max_x, v.max_y, p)));
        // and it was not covered before: the survivor did not crash
        if covered_cells(v).contains(cell_index(v.max_x, v.max_y, p)) {
            let q = choose|q: Coordinate|
                #![trigger cell_index(v.max_x, v.max_y, q)]
                inside(v.max_x, v.max_y, q) && hits_wall(v.cycles, q) && cell_index(v.max_x, v.max_y, q)
                    == cell_index(v.max_x, v.max_y, p);
            lemma_cell_index(v.max_x, v.max_y, q, p);
            lemma_point_stays_walled(v, inputs, p);
            assert(false);
        }
    }
}

/// There are living cycles exactly when the living count is positive.
pub proof fn lemma_alive_count_positive(cs: Seq<CycleView>)
    ensures
        alive_count(cs) > 0 <==> exists|i: int| 0 <= i < cs.len() && (#[trigger] cs[i]).alive,
    decreases cs.len(),
{
    if cs.len() > 0 {
        let rest = cs.drop_last();
        lemma_alive_count_positive(rest);
        if exists|i: int| 0 <= i < cs.len() && (#[trigger] cs[i]).alive {
            let i = choose|i: int| 0 <= i < cs.len() && (#[trigger] cs[i]).alive;
            if i < cs.len() - 1 {
                assert(rest[i] == cs[i]);
            }
        }
        if exists|i: int| 0 <= i < rest.len() && (#[trigger] rest[i]).alive {
            let i = choose|i: int| 0 <= i < rest.len() && (#[trigger] rest[i]).alive;
            assert(cs[i] == rest[i]);
        }
    }
}

/// A living cycle of a sound arena, inside it, stands on a covered cell.
proof fn lemma_living_cycle_covers_its_cell(v: ArenaView, i: int)
    requires
        v.trails_sound(),
        v.in_bounds(),
        0 <= i < v.cycles.len(),
        v.cycles[i].alive,
    ensures
        covered_cells(v).contains(cell_index(v.max_x, v.max_y, v.cycles[i].position)),
        covered_cells(v).len() >= 1,
{
    let c = v.cycles[i];
    let p = c.position;
    assert(c.inv());
    assert(c.synced());
    let last = c.walls.len() - 1;
    assert(c.walls[last].is_aligned());
    assert(c.walls[last].contains(p));
    assert(hits_wall(v.cycles, p));
    assert(!v.out_of_bounds(p));
    assert(inside(v.max_x, v.max_y, p));
    let cell = cell_index(v.max_x, v.max_y, p);
    assert(covered_cells(v).contains(cell));
    lemma_covered_cells_bounded(v);
    assert(Set::<int>::empty().insert(cell).subset_of(covered_cells(v)));
    lemma_len_subset(Set::<int>::empty().insert(cell), covered_cells(v));
}

/// Playing rounds from a sound arena whose living cycles are inside it keeps
/// it so, and while a cycle still lives at least one cell has been covered
/// at the start and one more per round played.
pub proof fn lemma_played_covers(v: ArenaView, rounds: Seq<Seq<SimInput>>)
    requires
        v.trails_sound(),
        v.in_bounds(),
        forall|k: int| 0 <= k < rounds.len() ==> inputs_in_range(v.cycles, #[trigger] rounds[k]),
    ensures
        played(v, rounds).trails_sound(),
        played(v, rounds).in_bounds(),
        played(v, rounds).cycles.len() == v.cycles.len(),
        played(v, rounds).max_x == v.max_x,
        played(v, rounds).max_y == v.max_y,
        alive_count(played(v, rounds).cycles) > 0 ==> covered_cells(played(v, rounds)).len() >= rounds.len()
            + 1,
    decreases rounds.len(),
{
    if rounds.len() == 0 {
        lemma_alive_count_positive(v.cycles);
        if alive_count(v.cycles) > 0 {
            let i = choose|i: int| 0 <= i < v.cycles.len() && (#[trigger] v.cycles[i]).alive;
            lemma_living_cycle_covers_its_cell(v, i);
        }
    } else {
        let earlier = rounds.drop_last();
        assert forall|k: int| 0 <= k < earlier.len() implies inputs_in_range(v.cycles, #[trigger] earlier[k]) by {
            assert(earlier[k] == rounds[k]);
        }
        lemma_played_covers(v, earlier);
        let u = played(v, earlier);
        let inputs = rounds.last();
        let w = played(v, rounds);
        assert(w == u.ticked(inputs));
        assert(inputs_in_range(v.cycles, rounds[rounds.len() - 1]));
        assert(inputs_in_range(u.cycles, inputs));
        assert(u.unit_speeds()) by {
            assert forall|i: int| 0 <= i < u.cycles.len() implies (#[trigger] u.cycles[i]).speed == 1 by {
                assert(u.cycles[i].inv());
            }
        }
        lemma_in_bounds_tick_is_safe(u, inputs);
        lemma_tick_keeps_trails_sound(u, inputs);
        lemma_tick_keeps_cycles_in_bounds(u, inputs);
        lemma_tick_never_revives(u, inputs);
        lemma_tick_covers_more(u, inputs);
        lemma_alive_count_positive(w.cycles);
        lemma_alive_count_positive(u.cycles);
        if alive_count(w.cycles) > 0 {
            let i = choose|i: int| 0 <= i < w.cycles.len() && (#[trigger] w.cycles[i]).alive;
            assert(u.cycles[i].alive);
            let cell = cell_index(u.max_x, u.max_y, w.cycles[i].position);
            lemma_covered_cells_bounded(w);
            assert(covered_cells(u).insert(cell).subset_of(covered_cells(w)));
            lemma_covered_cells_bounded(u);
            lemma_len_subset(covered_cells(u).insert(cell), covered_cells(w));
        }
    }
}

/// The length of a game: a cycle still alive after `t` rounds, played from
/// a sound arena whose living cycles are inside it, has covered its starting
/// cell and one new cell per round, all inside the arena, so
/// `t + 1 <= (2 max_x - 1) (2 max_y - 1)`, whatever the commands.
pub proof fn lemma_game_length_bound(v: ArenaView, rounds: Seq<Seq<SimInput>>, i: int)
    requires
        v.trails_sound(),
        v.in_bounds(),
        forall|k: int| 0 <= k < rounds.len() ==> inputs_in_range(v.cycles, #[trigger] rounds[k]),
        0 <= i < played(v, rounds).cycles.len(),
        played(v, rounds).cycles[i].alive,
    ensures
        rounds.len() + 1 <= cell_count(v.max_x, v.max_y),
{
    lemma_played_covers(v, rounds);
    let w = played(v, rounds);
    lemma_covered_cells_bounded(w);
    lemma_alive_count_positive(w.cycles);
    assert(!w.out_of_bounds(w.cycles[i].position));
    let mx = v.max_x as int;
    let my = v.max_y as int;
    assert(mx >= 1 && my >= 1);
    assert((2 * mx - 1) * (2 * my - 1) >= 0) by (nonlinear_arith)
        requires
            mx >= 1,
            my >= 1,
    ;
    assert(cell_count(w.max_x, w.max_y) == cell_count(v.max_x, v.max_y));
}

/// Every game ends: from a sound arena whose living cycles are inside it,
/// after as many rounds as there are cells inside the arena no cycle is left
/// alive, whatever the commands.
pub proof fn lemma_every_game_ends(v: ArenaView, rounds: Seq<Seq<SimInput>>)
    requires
        v.trails_sound(),
        v.in_bounds(),
        forall|k: int| 0 <= k < rounds.len() ==> inputs_in_range(v.cycles, #[trigger] rounds[k]),
        rounds.len() >= cell_count(v.max_x, v.max_y),
    ensures
        alive_count(played(v, rounds).cycles) == 0,
{
    let w = played(v, rounds);
    lemma_played_covers(v, rounds);
    lemma_alive_count_positive(w.cycles);
    if alive_count(w.cycles) > 0 {
        let i = choose|i: int| 0 <= i < w.cycles.len() && (#[trigger] w.cycles[i]).alive;
        lemma_game_length_bound(v, rounds, i);
    }
}

} // verus!
