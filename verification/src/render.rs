//! The terminal picture of an arena: borders, trails and cycles on a grid of
//! cells, one cell per integer point.
use vstd::prelude::*;
use crate::{Cardinal, Coordinate};
use crate::wall::Wall;
use crate::cycle::{Cycle, CycleView};
use crate::arena::{Arena, ArenaView, SimInput, views, inputs_applied, lemma_inputs_only_queue};

verus! {

broadcast use crate::wall::group_wall;

/// What a cell of the picture shows.
#[derive(Clone, Copy, PartialEq, Eq, Debug, Structural)]
pub enum Tile {
    Empty,
    Border,
    HorizontalWall,
    VerticalWall,
    /// The living cycle with this index.
    Cycle(usize),
    Crashed,
}

/// What a picture shows of one cycle.
pub struct Trail {
    pub walls: Vec<Wall>,
    pub position: Coordinate,
    pub alive: bool,
}

/// The abstract state of a trail.
pub struct TrailView {
    pub walls: Seq<Wall>,
    pub position: Coordinate,
    pub alive: bool,
}

impl View for Trail {
    type V = TrailView;

    open spec fn view(&self) -> TrailView {
        TrailView { walls: self.walls@, position: self.position, alive: self.alive }
    }
}

/// Everything a picture is drawn from: the arena's extent and the cycles.
pub struct Sketch {
    pub max_x: i32,
    pub max_y: i32,
    pub trails: Vec<Trail>,
}

/// The abstract states of a sequence of trails.
pub open spec fn trail_views(ts: Seq<Trail>) -> Seq<TrailView> {
    ts.map_values(|t: Trail| t@)
}

/// The point that the cell in row `r` and column `c` shows: rows run from
/// `y = max_y` at the top down to `y = -max_y`, columns from `x = -max_x`
/// on the left to `x = max_x`.
pub open spec fn cell_point(max_x: i32, max_y: i32, r: int, c: int) -> Coordinate {
    Coordinate { x: (c - max_x) as i32, y: (max_y - r) as i32 }
}

/// How a wall shows at `p`: a vertical stroke wins over a horizontal one.
pub open spec fn wall_tile(w: Wall, p: Coordinate) -> Option<Tile> {
    if w.covers_vertically(p) {
        Some(Tile::VerticalWall)
    } else if w.covers_horizontally(p) {
        Some(Tile::HorizontalWall)
    } else {
        None
    }
}

/// How the last of `ws` that shows at `p` shows there.
pub open spec fn walls_tile(ws: Seq<Wall>, p: Coordinate) -> Option<Tile>
    decreases ws.len(),
{
    if ws.len() == 0 {
        None
    } else {
        match wall_tile(ws.last(), p) {
            Some(t) => Some(t),
            None => walls_tile(ws.drop_last(), p),
        }
    }
}

/// How the last wall of the last trail with a wall at `p` shows there.
pub open spec fn trails_wall_tile(ts: Seq<TrailView>, p: Coordinate) -> Option<Tile>
    decreases ts.len(),
{
    if ts.len() == 0 {
        None
    } else {
        match walls_tile(ts.last().walls, p) {
            Some(t) => Some(t),
            None => trails_wall_tile(ts.drop_last(), p),
        }
    }
}

/// The last cycle standing at `p`: its index if it lives, a crash mark if not.
pub open spec fn head_tile(ts: Seq<TrailView>, p: Coordinate) -> Option<Tile>
    decreases ts.len(),
{
    if ts.len() == 0 {
        None
    } else if ts.last().position == p {
        if ts.last().alive {
            Some(Tile::Cycle((ts.len() - 1) as usize))
        } else {
            Some(Tile::Crashed)
        }
    } else {
        head_tile(ts.drop_last(), p)
    }
}

/// The cell lies on the edge of the picture.
pub open spec fn is_border(max_x: i32, max_y: i32, r: int, c: int) -> bool {
    r == 0 || r == 2 * max_y || c == 0 || c == 2 * max_x
}

/// The cell in row `r`, column `c`: a cycle if one stands there, else a
/// wall if one passes there, else the border or empty ground. Where several
/// cycles or walls meet, the later one shows.
pub open spec fn tile_of(max_x: i32, max_y: i32, ts: Seq<TrailView>, r: int, c: int) -> Tile {
    let p = cell_point(max_x, max_y, r, c);
    match head_tile(ts, p) {
        Some(t) => t,
        None => match trails_wall_tile(ts, p) {
            Some(t) => t,
            None => if is_border(max_x, max_y, r, c) {
                Tile::Border
            } else {
                Tile::Empty
            },
        },
    }
}

/// `p` lies within `|x| <= max_x`, `|y| <= max_y`.
pub open spec fn in_frame(max_x: i32, max_y: i32, p: Coordinate) -> bool {
    -max_x <= p.x <= max_x && -max_y <= p.y <= max_y
}

/// The picture can be drawn: its extent fits `i32`, and every cycle and
/// every end of every straight wall lies within it.
pub open spec fn drawable(max_x: i32, max_y: i32, ts: Seq<TrailView>) -> bool {
    &&& 0 <= max_x
    &&& 0 <= max_y
    &&& 2 * max_x + 1 <= i32::MAX
    &&& 2 * max_y + 1 <= i32::MAX
    &&& forall|i: int| 0 <= i < ts.len() ==> in_frame(max_x, max_y, (#[trigger] ts[i]).position)
    &&& forall|i: int, k: int|
        0 <= i < ts.len() && 0 <= k < ts[i].walls.len() && (#[trigger] ts[i].walls[k]).is_aligned()
            ==> in_frame(max_x, max_y, ts[i].walls[k].start()) && in_frame(
            max_x,
            max_y,
            ts[i].walls[k].end(),
        )
}

/// An arena's picture can be drawn.
pub open spec fn arena_drawable(v: ArenaView) -> bool {
    drawable(v.max_x, v.max_y, arena_trails(v))
}

/// An empty arena whose extent fits `i32` can be drawn.
pub proof fn lemma_empty_arena_drawable(max_x: i32, max_y: i32, next_id: usize)
    requires
        0 <= max_x,
        0 <= max_y,
        2 * max_x + 1 <= i32::MAX,
        2 * max_y + 1 <= i32::MAX,
    ensures
        arena_drawable(ArenaView { max_x, max_y, cycles: Seq::empty(), next_id }),
{
}

/// Placing a fresh cycle within the frame keeps an arena drawable.
pub proof fn lemma_spawn_keeps_drawable(v: ArenaView, position: Coordinate, facing: Cardinal)
    requires
        arena_drawable(v),
        in_frame(v.max_x, v.max_y, position),
    ensures
        arena_drawable(ArenaView { cycles: v.cycles.push(CycleView::spawned(position, facing)), ..v }),
{
    let w = ArenaView { cycles: v.cycles.push(CycleView::spawned(position, facing)), ..v };
    let ts = arena_trails(v);
    let us = arena_trails(w);
    assert forall|i: int| 0 <= i < us.len() implies in_frame(w.max_x, w.max_y, (#[trigger] us[i]).position) by {
        if i < ts.len() {
            assert(us[i] == ts[i]);
        }
    }
    assert forall|i: int, k: int|
        0 <= i < us.len() && 0 <= k < us[i].walls.len() && (#[trigger] us[i].walls[k]).is_aligned()
            implies in_frame(w.max_x, w.max_y, us[i].walls[k].start()) && in_frame(w.max_x, w.max_y, us[i].walls[k].end()) by {
        if i < ts.len() {
            assert(us[i] == ts[i]);
        }
    }
}

/// A tick keeps a sound arena drawable: every cycle moves at most one step
/// from inside the arena, and walls only ever reach points where cycles stood.
pub proof fn lemma_tick_keeps_drawable(v: ArenaView, inputs: Seq<SimInput>)
    requires
        arena_drawable(v),
        v.in_bounds(),
        v.trails_sound(),
        v.tick_safe(inputs),
    ensures
        arena_drawable(v.ticked(inputs)),
{
    lemma_inputs_only_queue(v.cycles, inputs);
    let cs = inputs_applied(v.cycles, inputs);
    let adv = ArenaView::advanced(cs);
    let w = v.ticked(inputs);
    let ts = arena_trails(v);
    let us = arena_trails(w);
    assert forall|i: int| 0 <= i < us.len() implies in_frame(w.max_x, w.max_y, (#[trigger] us[i]).position) && (
        forall|k: int|
            0 <= k < us[i].walls.len() && (#[trigger] us[i].walls[k]).is_aligned()
                ==> in_frame(w.max_x, w.max_y, us[i].walls[k].start()) && in_frame(w.max_x, w.max_y, us[i].walls[k].end())) by {
        let c = cs[i];
        assert(c == (CycleView { queued_turns: c.queued_turns, ..v.cycles[i] }));
        assert(ts[i].walls == c.walls);
        assert(ts[i].position == c.position);
        assert(v.cycles[i].inv());
        if c.alive {
            assert(v.cycles[i].alive);
            assert(!v.out_of_bounds(c.position));
            let last = c.walls.len() - 1;
            assert(c.walls[last].is_aligned());
            assert(in_frame(v.max_x, v.max_y, c.current_wall().start()));
            assert forall|k: int|
                0 <= k < us[i].walls.len() && (#[trigger] us[i].walls[k]).is_aligned()
                    implies in_frame(w.max_x, w.max_y, us[i].walls[k].start()) && in_frame(w.max_x, w.max_y, us[i].walls[k].end()) by {
                if k < c.walls.len() - 1 {
                    assert(us[i].walls[k] == c.walls[k]);
                    assert(ts[i].walls[k] == c.walls[k]);
                }
            }
        } else {
            assert(us[i] == ts[i]);
            assert forall|k: int|
                0 <= k < us[i].walls.len() && (#[trigger] us[i].walls[k]).is_aligned()
                    implies in_frame(w.max_x, w.max_y, us[i].walls[k].start()) && in_frame(w.max_x, w.max_y, us[i].walls[k].end()) by {
                assert(ts[i].walls[k] == us[i].walls[k]);
            }
        }
    }
}

/// The rows of tiles of a picture of `(2 max_y + 1) x (2 max_x + 1)` cells.
pub open spec fn tiles_match(max_x: i32, max_y: i32, ts: Seq<TrailView>, grid: Seq<Vec<Tile>>) -> bool {
    &&& grid.len() == 2 * max_y + 1
    &&& forall|r: int| 0 <= r < grid.len() ==> (#[trigger] grid[r])@.len() == 2 * max_x + 1
    &&& forall|r: int, c: int|
        0 <= r < grid.len() && 0 <= c < 2 * max_x + 1 ==> (#[trigger] grid[r]@[c]) == tile_of(
            max_x,
            max_y,
            ts,
            r,
            c,
        )
}

/// `p` lies within the frame.
fn point_in_frame(max_x: i32, max_y: i32, p: Coordinate) -> (ok: bool)
    requires
        0 <= max_x,
        0 <= max_y,
    ensures
        ok == in_frame(max_x, max_y, p),
{
    -max_x <= p.x && p.x <= max_x && -max_y <= p.y && p.y <= max_y
}

/// Whether a sketch can be drawn, as `grid_tiles` and
/// `TerminalRenderer::build_grid_map` require.
pub fn can_draw(sketch: &Sketch) -> (ok: bool)
    ensures
        ok == drawable(sketch.max_x, sketch.max_y, trail_views(sketch.trails@)),
{
    let max_x = sketch.max_x;
    let max_y = sketch.max_y;
    if max_x < 0 || max_y < 0 || max_x > (i32::MAX - 1) / 2 || max_y > (i32::MAX - 1) / 2 {
        return false;
    }
    let ghost ts = trail_views(sketch.trails@);
    let n = sketch.trails.len();
    let mut i: usize = 0;
    while i < n
        invariant
            i <= n,
            n == sketch.trails@.len(),
            ts == trail_views(sketch.trails@),
            max_x == sketch.max_x,
            max_y == sketch.max_y,
            0 <= max_x,
            0 <= max_y,
            forall|ii: int| 0 <= ii < i ==> in_frame(max_x, max_y, (#[trigger] ts[ii]).position),
            forall|ii: int, k: int|
                0 <= ii < i && 0 <= k < ts[ii].walls.len() && (#[trigger] ts[ii].walls[k]).is_aligned()
                    ==> in_frame(max_x, max_y, ts[ii].walls[k].start()) && in_frame(
                    max_x,
                    max_y,
                    ts[ii].walls[k].end(),
                ),
        decreases n - i,
    {
        let trail = &sketch.trails[i];
        assert(ts[i as int] == trail@);
        if !point_in_frame(max_x, max_y, trail.position) {
            return false;
        }
        let mut k: usize = 0;
        while k < trail.walls.len()
            invariant
                k <= trail.walls.len(),
                i < n,
                n == sketch.trails@.len(),
                ts == trail_views(sketch.trails@),
                ts[i as int] == trail@,
                max_x == sketch.max_x,
                max_y == sketch.max_y,
                0 <= max_x,
                0 <= max_y,
                forall|kk: int|
                    0 <= kk < k && (#[trigger] ts[i as int].walls[kk]).is_aligned()
                        ==> in_frame(max_x, max_y, ts[i as int].walls[kk].start()) && in_frame(
                        max_x,
                        max_y,
                        ts[i as int].walls[kk].end(),
                    ),
            decreases trail.walls.len() - k,
        {
            let w = trail.walls[k];
            assert(ts[i as int].walls[k as int] == w);
            let s = w.start_position();
            let e = w.end_position();
            if s.x == e.x || s.y == e.y {
                if !point_in_frame(max_x, max_y, s) || !point_in_frame(max_x, max_y, e) {
                    assert(ts[i as int].walls[k as int].is_aligned());
                    assert(!(in_frame(max_x, max_y, ts[i as int].walls[k as int].start()) && in_frame(
                        max_x,
                        max_y,
                        ts[i as int].walls[k as int].end(),
                    )));
                    assert(!drawable(max_x, max_y, ts));
                    return false;
                }
            }
            k += 1;
        }
        i += 1;
    }
    true
}

/// How a wall shows at `p`.
fn wall_tile_at(w: &Wall, p: Coordinate) -> (t: Option<Tile>)
    ensures
        t == wall_tile(*w, p),
{
    let s = w.start_position();
    let e = w.end_position();
    let (min_y, max_y) = if s.y <= e.y { (s.y, e.y) } else { (e.y, s.y) };
    let (min_x, max_x) = if s.x <= e.x { (s.x, e.x) } else { (e.x, s.x) };
    if s.x == e.x && p.x == s.x && min_y <= p.y && p.y <= max_y {
        Some(Tile::VerticalWall)
    } else if s.y == e.y && p.y == s.y && min_x <= p.x && p.x <= max_x {
        Some(Tile::HorizontalWall)
    } else {
        None
    }
}

/// The tile of the cell showing `p` in row `r`, column `c`.
fn tile_at(max_x: i32, max_y: i32, trails: &[Trail], r: usize, c: usize, p: Coordinate) -> (t: Tile)
    requires
        p == cell_point(max_x, max_y, r as int, c as int),
        0 <= max_x,
        0 <= max_y,
        2 * max_x + 1 <= i32::MAX,
        2 * max_y + 1 <= i32::MAX,
        r <= 2 * max_y,
        c <= 2 * max_x,
    ensures
        t == tile_of(max_x, max_y, trail_views(trails@), r as int, c as int),
{
    let ghost ts = trail_views(trails@);
    assert(ts.take(ts.len() as int) =~= ts);
    // Cycles, the last one on top
    let mut i = trails.len();
    while i > 0
        invariant
            i <= trails.len(),
            ts == trail_views(trails@),
            p == cell_point(max_x, max_y, r as int, c as int),
            head_tile(ts, p) == head_tile(ts.take(i as int), p),
        decreases i,
    {
        assert(ts.take(i as int).drop_last() =~= ts.take(i - 1));
        assert(ts.take(i as int).last() == trails@[i - 1]@);
        if trails[i - 1].position == p {
            assert(ts.take(i as int).len() - 1 == i - 1);
            if trails[i - 1].alive {
                return Tile::Cycle(i - 1);
            } else {
                assert(head_tile(ts, p) == Some(Tile::Crashed));
                assert(p == cell_point(max_x, max_y, r as int, c as int));
                assert(tile_of(max_x, max_y, ts, r as int, c as int) == Tile::Crashed);
                return Tile::Crashed;
            }
        }
        i -= 1;
    }
    // Walls, the last one on top
    let mut i = trails.len();
    while i > 0
        invariant
            i <= trails.len(),
            ts == trail_views(trails@),
            p == cell_point(max_x, max_y, r as int, c as int),
            head_tile(ts, p) == None::<Tile>,
            trails_wall_tile(ts, p) == trails_wall_tile(ts.take(i as int), p),
        decreases i,
    {
        assert(ts.take(i as int).drop_last() =~= ts.take(i - 1));
        assert(ts.take(i as int).last() == trails@[i - 1]@);
        let walls = &trails[i - 1].walls;
        let ghost ws = walls@;
        assert(ws.take(ws.len() as int) =~= ws);
        let mut k = walls.len();
        while k > 0
            invariant
                k <= walls.len(),
                ws == walls@,
                i > 0,
                i <= trails.len(),
                ts == trail_views(trails@),
                ws == ts[i - 1].walls,
                p == cell_point(max_x, max_y, r as int, c as int),
                head_tile(ts, p) == None::<Tile>,
                trails_wall_tile(ts, p) == trails_wall_tile(ts.take(i as int), p),
                walls_tile(ws, p) == walls_tile(ws.take(k as int), p),
            decreases k,
        {
            assert(ws.take(k as int).drop_last() =~= ws.take(k - 1));
            if let Some(t) = wall_tile_at(&walls[k - 1], p) {
                assert(ws.take(k as int).last() == ws[k - 1]);
                assert(walls_tile(ws, p) == Some(t));
                assert(trails_wall_tile(ts.take(i as int), p) == Some(t));
                return t;
            }
            k -= 1;
        }
        assert(ws.take(0) =~= Seq::<Wall>::empty());
        i -= 1;
    }
    assert(ts.take(0) =~= Seq::<TrailView>::empty());
    if r == 0 || r as i32 == 2 * max_y || c == 0 || c as i32 == 2 * max_x {
        Tile::Border
    } else {
        Tile::Empty
    }
}

/// The picture of a sketch as rows of tiles, top row first.
pub fn grid_tiles(sketch: &Sketch) -> (grid: Vec<Vec<Tile>>)
    requires
        drawable(sketch.max_x, sketch.max_y, trail_views(sketch.trails@)),
    ensures
        tiles_match(sketch.max_x, sketch.max_y, trail_views(sketch.trails@), grid@),
{
    let max_x = sketch.max_x;
    let max_y = sketch.max_y;
    let ghost ts = trail_views(sketch.trails@);
    let h = 2 * max_y + 1;
    let w = 2 * max_x + 1;
    let mut grid: Vec<Vec<Tile>> = Vec::new();
    let mut r: usize = 0;
    while r < h as usize
        invariant
            r <= h,
            h == 2 * max_y + 1,
            w == 2 * max_x + 1,
            0 <= max_x,
            0 <= max_y,
            ts == trail_views(sketch.trails@),
            max_x == sketch.max_x,
            max_y == sketch.max_y,
            grid@.len() == r,
            forall|rr: int| 0 <= rr < r ==> (#[trigger] grid@[rr])@.len() == w,
            forall|rr: int, c: int|
                0 <= rr < r && 0 <= c < w ==> (#[trigger] grid@[rr]@[c]) == tile_of(max_x, max_y, ts, rr, c),
        decreases h - r,
    {
        let mut row: Vec<Tile> = Vec::new();
        let mut c: usize = 0;
        while c < w as usize
            invariant
                c <= w,
                r < h,
                h == 2 * max_y + 1,
                w == 2 * max_x + 1,
                0 <= max_x,
                0 <= max_y,
                ts == trail_views(sketch.trails@),
                max_x == sketch.max_x,
                max_y == sketch.max_y,
                row@.len() == c,
                forall|cc: int| 0 <= cc < c ==> (#[trigger] row@[cc]) == tile_of(max_x, max_y, ts, r as int, cc),
            decreases w - c,
        {
            let p = Coordinate { x: c as i32 - max_x, y: max_y - r as i32 };
            let t = tile_at(max_x, max_y, sketch.trails.as_slice(), r, c, p);
            row.push(t);
            c += 1;
        }
        grid.push(row);
        r += 1;
    }
    grid
}

/// The letter that names the cycle with index `i`: `A` for the first one,
/// counting on through the Latin-1 characters.
pub open spec fn cycle_letter(i: usize) -> char {
    ((i % 256 + 65) % 256) as char
}

/// The letter that names the cycle with index `id`.
pub fn cycle_name(id: usize) -> (ch: char)
    ensures
        ch == cycle_letter(id),
{
    let code: usize = (id % 256 + 65) % 256;
    (code as u8) as char
}

/// The character a tile shows as on the plain terminal map.
pub open spec fn tile_char(t: Tile) -> char {
    match t {
        Tile::Empty => '.',
        Tile::Border => '#',
        Tile::HorizontalWall => '\u{2014}',
        Tile::VerticalWall => '|',
        Tile::Cycle(i) => cycle_letter(i),
        Tile::Crashed => 'x',
    }
}

/// The character a tile shows as on the plain terminal map.
pub fn tile_to_char(t: Tile) -> (ch: char)
    ensures
        ch == tile_char(t),
{
    match t {
        Tile::Empty => '.',
        Tile::Border => '#',
        Tile::HorizontalWall => '\u{2014}',
        Tile::VerticalWall => '|',
        Tile::Cycle(i) => cycle_name(i),
        Tile::Crashed => 'x',
    }
}

/// What an arena's picture is drawn from.
pub open spec fn arena_trails(v: ArenaView) -> Seq<TrailView> {
    v.cycles.map_values(
        |c: CycleView| TrailView { walls: c.walls, position: c.position, alive: c.alive },
    )
}

/// A copy of what a picture shows of a cycle.
fn trail_of(cycle: &Cycle) -> (t: Trail)
    ensures
        t@ == (TrailView { walls: cycle@.walls, position: cycle@.position, alive: cycle@.alive }),
{
    let src = cycle.walls();
    let mut walls: Vec<Wall> = Vec::new();
    let mut k: usize = 0;
    while k < src.len()
        invariant
            k <= src.len(),
            walls@ == src@.take(k as int),
        decreases src.len() - k,
    {
        walls.push(src[k]);
        k += 1;
        assert(walls@ =~= src@.take(k as int));
    }
    assert(src@.take(k as int) =~= src@);
    Trail { walls, position: cycle.position(), alive: cycle.is_alive() }
}

/// What an arena's picture is drawn from.
pub fn sketch_of(arena: &Arena) -> (s: Sketch)
    ensures
        s.max_x == arena@.max_x,
        s.max_y == arena@.max_y,
        trail_views(s.trails@) == arena_trails(arena@),
{
    let cycles = arena.cycles();
    let mut trails: Vec<Trail> = Vec::new();
    let mut i: usize = 0;
    while i < cycles.len()
        invariant
            i <= cycles.len(),
            views(cycles@) == arena@.cycles,
            arena@.cycles.len() == cycles@.len(),
            trails@.len() == i,
            trail_views(trails@) == arena_trails(arena@).take(i as int),
        decreases cycles.len() - i,
    {
        let t = trail_of(&cycles[i]);
        let ghost prev = trails@;
        trails.push(t);
        assert(arena@.cycles[i as int] == cycles@[i as int]@);
        assert(trail_views(trails@) =~= arena_trails(arena@).take(i + 1)) by {
            assert forall|j: int| 0 <= j < i + 1 implies #[trigger] trail_views(trails@)[j] == arena_trails(arena@).take(i + 1)[j] by {
                if j < i {
                    assert(trails@[j] == prev[j]);
                    assert(trail_views(prev)[j] == arena_trails(arena@).take(i as int)[j]);
                }
            }
        }
        i += 1;
    }
    assert(arena_trails(arena@).take(i as int) =~= arena_trails(arena@));
    Sketch { max_x: arena.max_x(), max_y: arena.max_y(), trails }
}

/// The plain terminal map of an arena, top row first: `#` on the border,
/// a dash and `|` for walls, a letter for each living cycle, `x` for a
/// crashed one and `.` elsewhere.
pub fn arena_map(arena: &Arena) -> (map: Vec<Vec<char>>)
    requires
        drawable(arena@.max_x, arena@.max_y, arena_trails(arena@)),
    ensures
        map@.len() == 2 * arena@.max_y + 1,
        forall|r: int| 0 <= r < map@.len() ==> (#[trigger] map@[r])@.len() == 2 * arena@.max_x + 1,
        forall|r: int, c: int|
            0 <= r < map@.len() && 0 <= c < 2 * arena@.max_x + 1 ==> (#[trigger] map@[r]@[c])
                == tile_char(tile_of(arena@.max_x, arena@.max_y, arena_trails(arena@), r, c)),
{
    let sketch = sketch_of(arena);
    let grid = grid_tiles(&sketch);
    let ghost ts = arena_trails(arena@);
    let mut map: Vec<Vec<char>> = Vec::new();
    let mut r: usize = 0;
    while r < grid.len()
        invariant
            r <= grid.len(),
            tiles_match(arena@.max_x, arena@.max_y, ts, grid@),
            map@.len() == r,
            forall|rr: int| 0 <= rr < r ==> (#[trigger] map@[rr])@.len() == 2 * arena@.max_x + 1,
            forall|rr: int, c: int|
                0 <= rr < r && 0 <= c < 2 * arena@.max_x + 1 ==> (#[trigger] map@[rr]@[c])
                    == tile_char(tile_of(arena@.max_x, arena@.max_y, ts, rr, c)),
        decreases grid.len() - r,
    {
        let tiles = &grid[r];
        let mut row: Vec<char> = Vec::new();
        let mut c: usize = 0;
        while c < tiles.len()
            invariant
                c <= tiles.len(),
                r < grid.len(),
                tiles@ == grid@[r as int]@,
                tiles_match(arena@.max_x, arena@.max_y, ts, grid@),
                row@.len() == c,
                forall|cc: int|
                    0 <= cc < c ==> (#[trigger] row@[cc]) == tile_char(
                        tile_of(arena@.max_x, arena@.max_y, ts, r as int, cc),
                    ),
            decreases tiles.len() - c,
        {
            row.push(tile_to_char(tiles[c]));
            c += 1;
        }
        map.push(row);
        r += 1;
    }
    map
}

/// `String::push`: appends `ch` to `s`.
#[verifier::external_body]
fn push_char(s: &mut String, ch: char)
    ensures
        final(s)@ == old(s)@.push(ch),
{
    s.push(ch)
}

/// The two characters a tile shows as in the terminal renderer.
pub open spec fn tile_glyph(t: Tile) -> Seq<char> {
    match t {
        Tile::Empty => seq!['.', '.'],
        Tile::Border => seq!['#', '#'],
        Tile::HorizontalWall => seq!['\u{2014}', '\u{2014}'],
        Tile::VerticalWall => seq!['|', '|'],
        Tile::Cycle(i) => seq![cycle_letter(i), cycle_letter(i)],
        Tile::Crashed => seq!['X', 'X'],
    }
}

/// `w` runs horizontally through `p`, with distinct ends.
pub open spec fn runs_horizontally_through(w: Wall, p: Coordinate) -> bool {
    &&& w.start().y == p.y
    &&& w.end().y == p.y
    &&& w.start().x != w.end().x
    &&& (w.start().x <= p.x <= w.end().x || w.end().x <= p.x <= w.start().x)
}

/// `w` runs vertically through `p` (or is the point `p`).
pub open spec fn runs_vertically_through(w: Wall, p: Coordinate) -> bool {
    &&& w.start().x == p.x
    &&& w.end().x == p.x
    &&& (w.start().y <= p.y <= w.end().y || w.end().y <= p.y <= w.start().y)
}

proof fn lemma_walls_tile_witness(ws: Seq<Wall>, p: Coordinate)
    ensures
        walls_tile(ws, p) == Some(Tile::HorizontalWall) ==> exists|k: int|
            0 <= k < ws.len() && runs_horizontally_through(#[trigger] ws[k], p),
        walls_tile(ws, p) == Some(Tile::VerticalWall) ==> exists|k: int|
            0 <= k < ws.len() && runs_vertically_through(#[trigger] ws[k], p),
        walls_tile(ws, p) is Some ==> walls_tile(ws, p) == Some(Tile::HorizontalWall) || walls_tile(ws, p)
            == Some(Tile::VerticalWall),
    decreases ws.len(),
{
    if ws.len() > 0 {
        let rest = ws.drop_last();
        lemma_walls_tile_witness(rest, p);
        if wall_tile(ws.last(), p) is None {
            if walls_tile(rest, p) == Some(Tile::HorizontalWall) {
                let k = choose|k: int| 0 <= k < rest.len() && runs_horizontally_through(#[trigger] rest[k], p);
                assert(ws[k] == rest[k]);
            }
            if walls_tile(rest, p) == Some(Tile::VerticalWall) {
                let k = choose|k: int| 0 <= k < rest.len() && runs_vertically_through(#[trigger] rest[k], p);
                assert(ws[k] == rest[k]);
            }
        } else {
            assert(ws[ws.len() - 1] == ws.last());
        }
    }
}

proof fn lemma_trails_wall_tile_witness(ts: Seq<TrailView>, p: Coordinate)
    ensures
        trails_wall_tile(ts, p) == Some(Tile::HorizontalWall) ==> exists|i: int, k: int|
            0 <= i < ts.len() && 0 <= k < ts[i].walls.len() && runs_horizontally_through(
                #[trigger] ts[i].walls[k],
                p,
            ),
        trails_wall_tile(ts, p) == Some(Tile::VerticalWall) ==> exists|i: int, k: int|
            0 <= i < ts.len() && 0 <= k < ts[i].walls.len() && runs_vertically_through(
                #[trigger] ts[i].walls[k],
                p,
            ),
        trails_wall_tile(ts, p) is Some ==> trails_wall_tile(ts, p) == Some(Tile::HorizontalWall)
            || trails_wall_tile(ts, p) == Some(Tile::VerticalWall),
    decreases ts.len(),
{
    if ts.len() > 0 {
        let rest = ts.drop_last();
        let n = ts.len() - 1;
        lemma_trails_wall_tile_witness(rest, p);
        lemma_walls_tile_witness(ts.last().walls, p);
        if walls_tile(ts.last().walls, p) is None {
            if trails_wall_tile(rest, p) == Some(Tile::HorizontalWall) {
                let (i, k) = choose|i: int, k: int|
                    0 <= i < rest.len() && 0 <= k < rest[i].walls.len() && runs_horizontally_through(
                        #[trigger] rest[i].walls[k],
                        p,
                    );
                assert(ts[i] == rest[i]);
            }
            if trails_wall_tile(rest, p) == Some(Tile::VerticalWall) {
                let (i, k) = choose|i: int, k: int|
                    0 <= i < rest.len() && 0 <= k < rest[i].walls.len() && runs_vertically_through(
                        #[trigger] rest[i].walls[k],
                        p,
                    );
                assert(ts[i] == rest[i]);
            }
        } else {
            assert(ts[n] == ts.last());
            if walls_tile(ts.last().walls, p) == Some(Tile::HorizontalWall) {
                let k = choose|k: int| 0 <= k < ts.last().walls.len() && runs_horizontally_through(#[trigger] ts.last().walls[k], p);
                assert(runs_horizontally_through(ts[n].walls[k], p));
            }
            if walls_tile(ts.last().walls, p) == Some(Tile::VerticalWall) {
                let k = choose|k: int| 0 <= k < ts.last().walls.len() && runs_vertically_through(#[trigger] ts.last().walls[k], p);
                assert(runs_vertically_through(ts[n].walls[k], p));
            }
        }
    }
}

proof fn lemma_head_tile_witness(ts: Seq<TrailView>, p: Coordinate)
    requires
        ts.len() <= usize::MAX,
    ensures
        head_tile(ts, p) matches Some(Tile::Cycle(i)) ==> i < ts.len() && ts[i as int].position == p
            && ts[i as int].alive,
        head_tile(ts, p) == Some(Tile::Crashed) ==> exists|i: int|
            0 <= i < ts.len() && (#[trigger] ts[i]).position == p && !ts[i].alive,
        head_tile(ts, p) is Some ==> head_tile(ts, p) is Some && (head_tile(ts, p)->0 is Cycle
            || head_tile(ts, p)->0 == Tile::Crashed),
        head_tile(ts, p) is None ==> forall|i: int| 0 <= i < ts.len() ==> (#[trigger] ts[i]).position != p,
    decreases ts.len(),
{
    if ts.len() > 0 {
        let rest = ts.drop_last();
        lemma_head_tile_witness(rest, p);
        assert forall|i: int| 0 <= i < rest.len() implies rest[i] == ts[i] by {}
        if head_tile(rest, p) == Some(Tile::Crashed) && ts.last().position != p {
            let i = choose|i: int| 0 <= i < rest.len() && (#[trigger] rest[i]).position == p && !rest[i].alive;
            assert(ts[i] == rest[i]);
        }
        if ts.last().position != p {
            if let Some(Tile::Cycle(i)) = head_tile(rest, p) {
                assert(ts[i as int] == rest[i as int]);
            }
        }
        assert(ts[ts.len() - 1] == ts.last());
    }
}

/// Each cell of a picture shows what is at its point: a living cycle's letter
/// only where that cycle stands, a crash mark only where a crashed cycle
/// stands, a dash only where no cycle stands and a wall with two distinct
/// ends runs horizontally through the point, a bar only where no cycle
/// stands and a wall runs vertically through it, and the border or empty
/// ground only where no cycle stands.
pub proof fn lemma_tiles_show_what_is_there(max_x: i32, max_y: i32, ts: Seq<TrailView>, r: int, c: int)
    requires
        ts.len() <= usize::MAX,
    ensures
        ({
            let p = cell_point(max_x, max_y, r, c);
            let t = tile_of(max_x, max_y, ts, r, c);
            &&& t matches Tile::Cycle(i) ==> i < ts.len() && ts[i as int].position == p && ts[i as int].alive
            &&& t == Tile::Crashed ==> exists|i: int|
                0 <= i < ts.len() && (#[trigger] ts[i]).position == p && !ts[i].alive
            &&& t == Tile::HorizontalWall ==> (forall|i: int| 0 <= i < ts.len() ==> (#[trigger] ts[i]).position != p)
                && exists|i: int, k: int|
                0 <= i < ts.len() && 0 <= k < ts[i].walls.len() && runs_horizontally_through(
                    #[trigger] ts[i].walls[k],
                    p,
                )
            &&& t == Tile::VerticalWall ==> (forall|i: int| 0 <= i < ts.len() ==> (#[trigger] ts[i]).position != p)
                && exists|i: int, k: int|
                0 <= i < ts.len() && 0 <= k < ts[i].walls.len() && runs_vertically_through(
                    #[trigger] ts[i].walls[k],
                    p,
                )
            &&& (t == Tile::Border || t == Tile::Empty) ==> forall|i: int|
                0 <= i < ts.len() ==> (#[trigger] ts[i]).position != p
        }),
{
    let p = cell_point(max_x, max_y, r, c);
    lemma_head_tile_witness(ts, p);
    lemma_trails_wall_tile_witness(ts, p);
}

/// The terminal renderer draws every tile as the plain map's character
/// twice, except that a crash shows as `XX`; and on both pictures, among the
/// tiles other than cycles, a dash is exactly a horizontal wall, a bar exactly
/// a vertical wall, `#` exactly the border, `.` exactly empty ground.
pub proof fn lemma_glyphs_match_the_map(t: Tile)
    ensures
        tile_glyph(t).len() == 2,
        t != Tile::Crashed ==> tile_glyph(t) == seq![tile_char(t), tile_char(t)],
        t == Tile::Crashed ==> tile_glyph(t) == seq!['X', 'X'],
        !(t is Cycle) ==> (tile_char(t) == '\u{2014}' <==> t == Tile::HorizontalWall),
        !(t is Cycle) ==> (tile_char(t) == '|' <==> t == Tile::VerticalWall),
        !(t is Cycle) ==> (tile_char(t) == '#' <==> t == Tile::Border),
        !(t is Cycle) ==> (tile_char(t) == '.' <==> t == Tile::Empty),
{
}

/// The two characters a tile shows as in the terminal renderer.
pub fn tile_to_glyph(t: Tile) -> (g: String)
    ensures
        g@ == tile_glyph(t),
{
    let ch = match t {
        Tile::Empty => '.',
        Tile::Border => '#',
        Tile::HorizontalWall => '\u{2014}',
        Tile::VerticalWall => '|',
        Tile::Cycle(i) => cycle_name(i),
        Tile::Crashed => 'X',
    };
    let mut g = String::new();
    push_char(&mut g, ch);
    push_char(&mut g, ch);
    assert(g@ =~= tile_glyph(t));
    g
}

/// The corner offsets of the two triangles of a wall quad.
pub open spec fn quad_corner(j: int) -> int {
    if j == 0 || j == 3 {
        0
    } else if j == 1 {
        1
    } else if j == 2 || j == 4 {
        2
    } else {
        3
    }
}

/// The triangle indices for `count` wall quads of four vertices each: quad
/// `q` uses vertices `4q .. 4q + 3` as the triangles `(0, 1, 2)` and `(0, 2, 3)`.
pub fn wall_mesh_indices(count: usize) -> (indices: Vec<u32>)
    requires
        count <= 0x4000_0000,
    ensures
        indices@.len() == 6 * count,
        forall|q: int, j: int|
            0 <= q < count && 0 <= j < 6 ==> #[trigger] indices@[6 * q + j] == 4 * q + quad_corner(j),
{
    let mut indices: Vec<u32> = Vec::new();
    let mut q: usize = 0;
    while q < count
        invariant
            q <= count,
            count <= 0x4000_0000,
            indices@.len() == 6 * q,
            forall|qq: int, j: int|
                0 <= qq < q && 0 <= j < 6 ==> #[trigger] indices@[6 * qq + j] == 4 * qq + quad_corner(j),
        decreases count - q,
    {
        let i = q as u32 * 4;
        let ghost before = indices@;
        indices.push(i);
        indices.push(i + 1);
        indices.push(i + 2);
        indices.push(i);
        indices.push(i + 2);
        indices.push(i + 3);
        assert forall|qq: int, j: int|
            0 <= qq < q + 1 && 0 <= j < 6 implies #[trigger] indices@[6 * qq + j] == 4 * qq + quad_corner(j) by {
            if qq < q {
                assert(6 * qq + j < 6 * q) by (nonlinear_arith)
                    requires
                        qq < q,
                        0 <= j < 6,
                ;
                assert(indices@[6 * qq + j] == before[6 * qq + j]);
            }
        }
        q += 1;
    }
    indices
}

/// Draws game pictures on a terminal, two characters per cell.
pub struct TerminalRenderer {}

impl TerminalRenderer {
    pub fn new() -> (r: TerminalRenderer)
        ensures
            r == (TerminalRenderer {}),
    {
        TerminalRenderer {}
    }

    /// The picture of a sketch as rows of two-character cells, top row first.
    pub fn build_grid_map(sketch: &Sketch) -> (map: Vec<Vec<String>>)
        requires
            drawable(sketch.max_x, sketch.max_y, trail_views(sketch.trails@)),
        ensures
            map@.len() == 2 * sketch.max_y + 1,
            forall|r: int| 0 <= r < map@.len() ==> (#[trigger] map@[r])@.len() == 2 * sketch.max_x + 1,
            forall|r: int, c: int|
                0 <= r < map@.len() && 0 <= c < 2 * sketch.max_x + 1 ==> (#[trigger] map@[r]@[c])@
                    == tile_glyph(tile_of(sketch.max_x, sketch.max_y, trail_views(sketch.trails@), r, c)),
    {
        let grid = grid_tiles(sketch);
        let ghost ts = trail_views(sketch.trails@);
        let mut map: Vec<Vec<String>> = Vec::new();
        let mut r: usize = 0;
        while r < grid.len()
            invariant
                r <= grid.len(),
                ts == trail_views(sketch.trails@),
                tiles_match(sketch.max_x, sketch.max_y, ts, grid@),
                map@.len() == r,
                forall|rr: int| 0 <= rr < r ==> (#[trigger] map@[rr])@.len() == 2 * sketch.max_x + 1,
                forall|rr: int, c: int|
                    0 <= rr < r && 0 <= c < 2 * sketch.max_x + 1 ==> (#[trigger] map@[rr]@[c])@
                        == tile_glyph(tile_of(sketch.max_x, sketch.max_y, ts, rr, c)),
            decreases grid.len() - r,
        {
            let tiles = &grid[r];
            let mut row: Vec<String> = Vec::new();
            let mut c: usize = 0;
            while c < tiles.len()
                invariant
                    c <= tiles.len(),
                    r < grid.len(),
                    tiles@ == grid@[r as int]@,
                    tiles_match(sketch.max_x, sketch.max_y, ts, grid@),
                    row@.len() == c,
                    forall|cc: int|
                        0 <= cc < c ==> (#[trigger] row@[cc])@ == tile_glyph(
                            tile_of(sketch.max_x, sketch.max_y, ts, r as int, cc),
                        ),
                decreases tiles.len() - c,
            {
                row.push(tile_to_glyph(tiles[c]));
                c += 1;
            }
            map.push(row);
            r += 1;
        }
        map
    }
}

} // verus!
