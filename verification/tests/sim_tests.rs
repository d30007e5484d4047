use sim::arena::{Arena, SimInput};
use sim::cycle::{Command, Cycle};
use sim::game::{facing_from_char, next_to_prompt, spawn_in_bounds, turn_from_char};
use sim::player::{active_uids, Player};
use sim::render::{
    arena_map, cycle_name, grid_tiles, sketch_of, wall_mesh_indices, Sketch, TerminalRenderer,
    Tile, Trail,
};
use sim::wall::Wall;
use sim::{Cardinal, Coordinate, Direction};

fn at(x: i32, y: i32) -> Coordinate {
    Coordinate { x, y }
}

fn rows(map: &[Vec<char>]) -> Vec<String> {
    map.iter().map(|r| r.iter().collect()).collect()
}

#[test]
fn step_moves_along_each_heading() {
    let mut p = at(0, 0);
    p.step(Cardinal::North, 2);
    assert_eq!(p, at(0, 2));
    p.step(Cardinal::East, 3);
    assert_eq!(p, at(3, 2));
    p.step(Cardinal::South, 5);
    assert_eq!(p, at(3, -3));
    p.step(Cardinal::West, 1);
    assert_eq!(p, at(2, -3));
}

#[test]
fn turns_follow_the_compass() {
    assert_eq!(Cardinal::North.turn(Direction::Left), Cardinal::West);
    assert_eq!(Cardinal::North.turn(Direction::Right), Cardinal::East);
    assert_eq!(Cardinal::East.turn(Direction::Left), Cardinal::North);
    assert_eq!(Cardinal::East.turn(Direction::Right), Cardinal::South);
    assert_eq!(Cardinal::South.turn(Direction::Left), Cardinal::East);
    assert_eq!(Cardinal::South.turn(Direction::Right), Cardinal::West);
    assert_eq!(Cardinal::West.turn(Direction::Left), Cardinal::South);
    assert_eq!(Cardinal::West.turn(Direction::Right), Cardinal::North);
}

#[test]
fn turn_then_opposite_turn_restores_heading() {
    for f in [Cardinal::North, Cardinal::East, Cardinal::South, Cardinal::West] {
        assert_eq!(f.turn(Direction::Left).turn(Direction::Right), f);
        assert_eq!(f.turn(Direction::Right).turn(Direction::Left), f);
        let mut g = f;
        for _ in 0..4 {
            g = g.turn(Direction::Left);
        }
        assert_eq!(g, f);
    }
}

#[test]
fn wall_has_point_on_vertical_and_horizontal_segments() {
    let mut v = Wall::new(at(1, 4));
    v.update_end_position(at(1, -2));
    assert!(v.has_point(at(1, 4)));
    assert!(v.has_point(at(1, 0)));
    assert!(v.has_point(at(1, -2)));
    assert!(!v.has_point(at(1, -3)));
    assert!(!v.has_point(at(2, 0)));

    let mut h = Wall::new(at(3, 0));
    h.update_end_position(at(-1, 0));
    assert!(h.has_point(at(0, 0)));
    assert!(h.has_point(at(-1, 0)));
    assert!(!h.has_point(at(4, 0)));
    assert!(!h.has_point(at(0, 1)));
    assert_eq!(h.start_position(), at(3, 0));
    assert_eq!(h.end_position(), at(-1, 0));
}

#[test]
fn point_wall_holds_only_its_point() {
    let w = Wall::new(at(2, 2));
    assert!(w.has_point(at(2, 2)));
    assert!(!w.has_point(at(2, 3)));
    assert!(!w.has_point(at(3, 2)));
}

#[test]
fn misaligned_wall_holds_no_point() {
    let mut w = Wall::new(at(0, 0));
    w.update_end_position(at(2, 2));
    assert!(!w.has_point(at(0, 0)));
    assert!(!w.has_point(at(1, 1)));
    assert!(!w.has_point(at(2, 2)));
}

#[test]
fn new_cycle_has_one_point_wall() {
    let c = Cycle::new(at(3, -1), Cardinal::East);
    assert!(c.is_alive());
    assert_eq!(c.position(), at(3, -1));
    assert_eq!(c.walls().len(), 1);
    assert_eq!(c.walls()[0].start_position(), at(3, -1));
    assert_eq!(c.walls()[0].end_position(), at(3, -1));
}

#[test]
fn advance_and_update_extend_the_trail() {
    let mut c = Cycle::new(at(0, 0), Cardinal::North);
    c.advance();
    assert_eq!(c.position(), at(0, 1));
    assert_eq!(c.walls()[0].end_position(), at(0, 0));
    c.update();
    assert_eq!(c.walls().len(), 1);
    assert_eq!(c.walls()[0].end_position(), at(0, 1));
}

#[test]
fn queued_turn_starts_a_new_wall() {
    let mut c = Cycle::new(at(0, 0), Cardinal::North);
    c.advance();
    c.update();
    c.queue_turn(Direction::Right);
    c.queue_turn(Direction::Right);
    c.advance();
    assert_eq!(c.position(), at(1, 1));
    assert_eq!(c.walls().len(), 2);
    assert_eq!(c.walls()[1].start_position(), at(0, 1));
    c.update();
    assert_eq!(c.walls()[1].end_position(), at(1, 1));
    // the second queued turn is made on the next advance: now heading South
    c.advance();
    c.update();
    assert_eq!(c.position(), at(1, 0));
    assert_eq!(c.walls().len(), 3);
    // the trail is connected
    assert_eq!(c.walls()[0].end_position(), c.walls()[1].start_position());
    assert_eq!(c.walls()[1].end_position(), c.walls()[2].start_position());
    assert_eq!(c.walls()[2].end_position(), c.position());
}

#[test]
fn act_queues_the_turn() {
    let mut c = Cycle::new(at(0, 0), Cardinal::East);
    c.act(Command::Direction(Direction::Left));
    assert_eq!(c.position(), at(0, 0));
    c.advance();
    assert_eq!(c.position(), at(0, 1));
}

#[test]
fn killed_cycle_does_not_move() {
    let mut c = Cycle::new(at(0, 0), Cardinal::East);
    c.kill();
    assert!(!c.is_alive());
    c.queue_turn(Direction::Left);
    c.advance();
    c.update();
    assert_eq!(c.position(), at(0, 0));
    assert_eq!(c.walls().len(), 1);
}

#[test]
fn new_arena_is_empty() {
    let a = Arena::new(5, 7);
    assert_eq!(a.max_x(), 5);
    assert_eq!(a.max_y(), 7);
    assert_eq!(a.cycles().len(), 0);
    assert_eq!(a.living_count(), 0);
}

#[test]
fn allocate_id_counts_up() {
    let mut a = Arena::new(5, 5);
    assert_eq!(a.allocate_id(), 0);
    assert_eq!(a.allocate_id(), 1);
    assert_eq!(a.spawn_cycle(at(0, 0), Cardinal::North), 2);
    assert_eq!(a.cycles().len(), 1);
}

#[test]
fn spawned_ids_index_the_cycles() {
    let mut a = Arena::new(5, 5);
    let id0 = a.spawn_cycle(at(0, 0), Cardinal::North);
    let id1 = a.spawn_cycle(at(2, 2), Cardinal::West);
    assert_eq!(a.cycles()[id0].position(), at(0, 0));
    assert_eq!(a.cycles()[id1].position(), at(2, 2));
}

#[test]
fn tick_moves_every_living_cycle() {
    let mut a = Arena::new(5, 5);
    a.add_cycle(Cycle::new(at(0, 0), Cardinal::North));
    a.add_cycle(Cycle::new(at(2, 0), Cardinal::South));
    a.tick(&[]);
    assert_eq!(a.cycles()[0].position(), at(0, 1));
    assert_eq!(a.cycles()[1].position(), at(2, -1));
    assert_eq!(a.living_count(), 2);
    assert_eq!(a.cycles()[0].walls()[0].end_position(), at(0, 1));
}

#[test]
fn cycle_leaving_the_arena_crashes() {
    let mut a = Arena::new(3, 3);
    a.add_cycle(Cycle::new(at(-1, 0), Cardinal::West));
    a.add_cycle(Cycle::new(at(0, 2), Cardinal::North));
    a.tick(&[]);
    assert!(a.cycles()[0].is_alive());
    assert!(!a.cycles()[1].is_alive());
    assert_eq!(a.cycles()[1].position(), at(0, 3));
    // a crashed cycle's wall is not extended to the crash point
    assert_eq!(a.cycles()[1].walls()[0].end_position(), at(0, 2));
    a.tick(&[]);
    assert!(!a.cycles()[0].is_alive());
    assert_eq!(a.cycles()[0].position(), at(-3, 0));
    assert_eq!(a.living_count(), 0);
}

#[test]
fn cycle_hitting_a_wall_crashes() {
    let mut a = Arena::new(10, 10);
    // A lays a wall going north from (0, 0)
    a.add_cycle(Cycle::new(at(0, 0), Cardinal::North));
    // B heads west along y = 1 towards it
    a.add_cycle(Cycle::new(at(2, 1), Cardinal::West));
    a.tick(&[]);
    assert!(a.cycles()[0].is_alive());
    assert!(a.cycles()[1].is_alive());
    assert_eq!(a.cycles()[1].position(), at(1, 1));
    a.tick(&[]);
    assert!(a.cycles()[0].is_alive());
    assert!(!a.cycles()[1].is_alive());
    assert_eq!(a.cycles()[1].position(), at(0, 1));
    assert_eq!(a.living_count(), 1);
}

#[test]
fn cycle_turning_into_its_own_trail_crashes() {
    let mut a = Arena::new(10, 10);
    a.add_cycle(Cycle::new(at(0, 0), Cardinal::East));
    a.tick(&[]);
    a.tick(&[]);
    a.queue_turn(0, Direction::Left);
    a.tick(&[]);
    a.queue_turn(0, Direction::Left);
    a.tick(&[]);
    assert!(a.cycles()[0].is_alive());
    assert_eq!(a.cycles()[0].position(), at(1, 1));
    a.queue_turn(0, Direction::Left);
    a.tick(&[]);
    assert!(!a.cycles()[0].is_alive());
    assert_eq!(a.cycles()[0].position(), at(1, 0));
}

#[test]
fn cycles_meeting_head_on_in_one_step_both_survive() {
    // Walls are tested before they are extended, so two cycles stepping onto
    // the same empty point in the same tick do not see each other.
    let mut a = Arena::new(10, 10);
    a.add_cycle(Cycle::new(at(-1, 0), Cardinal::East));
    a.add_cycle(Cycle::new(at(1, 0), Cardinal::West));
    a.tick(&[]);
    assert!(a.cycles()[0].is_alive());
    assert!(a.cycles()[1].is_alive());
    assert_eq!(a.cycles()[0].position(), at(0, 0));
    assert_eq!(a.cycles()[1].position(), at(0, 0));
    a.tick(&[]);
    assert_eq!(a.living_count(), 0);
}

#[test]
fn tick_inputs_queue_turns_before_moving() {
    let mut a = Arena::new(10, 10);
    let id = a.spawn_cycle(at(0, 0), Cardinal::North);
    let other = a.spawn_cycle(at(5, 5), Cardinal::South);
    a.tick(&[SimInput { cycle_id: id, command: Command::Direction(Direction::Right) }]);
    assert_eq!(a.cycles()[id].position(), at(1, 0));
    assert_eq!(a.cycles()[other].position(), at(5, 4));
    a.tick(&[
        SimInput { cycle_id: id, command: Command::Direction(Direction::Left) },
        SimInput { cycle_id: id, command: Command::Direction(Direction::Left) },
    ]);
    assert_eq!(a.cycles()[id].position(), at(1, 1));
    a.tick(&[]);
    assert_eq!(a.cycles()[id].position(), at(0, 1));
}

#[test]
fn dead_cycles_stay_dead() {
    let mut a = Arena::new(2, 2);
    a.add_cycle(Cycle::new(at(1, 0), Cardinal::East));
    a.tick(&[]);
    assert!(!a.cycles()[0].is_alive());
    let pos = a.cycles()[0].position();
    for _ in 0..3 {
        a.tick(&[]);
        assert!(!a.cycles()[0].is_alive());
        assert_eq!(a.cycles()[0].position(), pos);
    }
}

#[test]
fn living_count_counts_only_living_cycles() {
    let mut a = Arena::new(4, 4);
    a.add_cycle(Cycle::new(at(0, 0), Cardinal::North));
    let mut dead = Cycle::new(at(1, 1), Cardinal::North);
    dead.kill();
    a.add_cycle(dead);
    a.add_cycle(Cycle::new(at(-2, -2), Cardinal::East));
    assert_eq!(a.living_count(), 2);
}

#[test]
fn arena_map_draws_border_walls_and_cycles() {
    let mut a = Arena::new(2, 2);
    a.add_cycle(Cycle::new(at(0, -1), Cardinal::North));
    a.add_cycle(Cycle::new(at(-1, 0), Cardinal::East));
    a.tick(&[]);
    // Both step onto (0, 0) in the same tick; the later cycle is drawn on top.
    assert_eq!(a.living_count(), 2);
    let map = arena_map(&a);
    assert_eq!(
        rows(&map),
        vec![
            "#####".to_string(),
            "#...#".to_string(),
            "#\u{2014}B.#".to_string(),
            "#.|.#".to_string(),
            "#####".to_string(),
        ]
    );
}

#[test]
fn arena_map_marks_crashed_cycles() {
    let mut a = Arena::new(2, 2);
    a.add_cycle(Cycle::new(at(1, 1), Cardinal::East));
    a.tick(&[]);
    assert_eq!(a.living_count(), 0);
    let map = arena_map(&a);
    assert_eq!(
        rows(&map),
        vec![
            "#####".to_string(),
            "#..|x".to_string(),
            "#...#".to_string(),
            "#...#".to_string(),
            "#####".to_string(),
        ]
    );
}

#[test]
fn sketch_copies_the_arena() {
    let mut a = Arena::new(3, 4);
    a.add_cycle(Cycle::new(at(1, 2), Cardinal::West));
    let s = sketch_of(&a);
    assert_eq!(s.max_x, 3);
    assert_eq!(s.max_y, 4);
    assert_eq!(s.trails.len(), 1);
    assert_eq!(s.trails[0].position, at(1, 2));
    assert!(s.trails[0].alive);
    assert_eq!(s.trails[0].walls.len(), 1);
}

#[test]
fn grid_tiles_of_a_hand_made_sketch() {
    let mut w = Wall::new(at(-1, 1));
    w.update_end_position(at(1, 1));
    let sketch = Sketch {
        max_x: 1,
        max_y: 1,
        trails: vec![Trail { walls: vec![w], position: at(0, 0), alive: false }],
    };
    let g = grid_tiles(&sketch);
    assert_eq!(g.len(), 3);
    assert_eq!(g[0], vec![Tile::HorizontalWall, Tile::HorizontalWall, Tile::HorizontalWall]);
    assert_eq!(g[1], vec![Tile::Border, Tile::Crashed, Tile::Border]);
    assert_eq!(g[2], vec![Tile::Border, Tile::Border, Tile::Border]);
}

#[test]
fn terminal_renderer_doubles_every_cell() {
    let _renderer = TerminalRenderer::new();
    let sketch = Sketch {
        max_x: 1,
        max_y: 1,
        trails: vec![
            Trail { walls: vec![], position: at(0, 0), alive: true },
            Trail { walls: vec![], position: at(1, 0), alive: false },
        ],
    };
    let map = TerminalRenderer::build_grid_map(&sketch);
    let joined: Vec<String> = map.iter().map(|r| r.join("")).collect();
    assert_eq!(joined, vec!["######".to_string(), "##AAXX".to_string(), "######".to_string()]);
}

#[test]
fn later_cycles_are_drawn_on_top() {
    let sketch = Sketch {
        max_x: 1,
        max_y: 1,
        trails: vec![
            Trail { walls: vec![], position: at(0, 0), alive: true },
            Trail { walls: vec![], position: at(0, 0), alive: true },
        ],
    };
    let g = grid_tiles(&sketch);
    assert_eq!(g[1][1], Tile::Cycle(1));
}

#[test]
fn cycle_names_are_letters() {
    assert_eq!(cycle_name(0), 'A');
    assert_eq!(cycle_name(1), 'B');
    assert_eq!(cycle_name(25), 'Z');
    assert_eq!(cycle_name(256), 'A');
}

#[test]
fn wall_mesh_indices_make_two_triangles_per_quad() {
    assert_eq!(wall_mesh_indices(0), Vec::<u32>::new());
    assert_eq!(wall_mesh_indices(2), vec![0, 1, 2, 0, 2, 3, 4, 5, 6, 4, 6, 7]);
}

#[test]
fn letters_name_headings_and_turns() {
    assert_eq!(facing_from_char('n'), Cardinal::North);
    assert_eq!(facing_from_char('s'), Cardinal::South);
    assert_eq!(facing_from_char('e'), Cardinal::East);
    assert_eq!(facing_from_char('w'), Cardinal::West);
    assert_eq!(facing_from_char('q'), Cardinal::North);
    assert_eq!(turn_from_char('f'), Some(Direction::Left));
    assert_eq!(turn_from_char('j'), Some(Direction::Right));
    assert_eq!(turn_from_char('x'), None);
}

#[test]
fn spawn_positions_must_lie_inside_the_arena() {
    assert!(spawn_in_bounds(0, 0, 5));
    assert!(spawn_in_bounds(-4, 4, 5));
    assert!(!spawn_in_bounds(5, 0, 5));
    assert!(!spawn_in_bounds(0, -5, 5));
    assert!(!spawn_in_bounds(-7, 1, 5));
}

#[test]
fn active_uids_lists_players_in_order() {
    let players = vec![Player::new(7), Player::new(3), Player::new(9)];
    assert_eq!(active_uids(&players), vec![7, 3, 9]);
    assert_eq!(players[1].uid(), 3);
    assert!(players[1].is_active());
    assert_eq!(active_uids(&[]), Vec::<u32>::new());
}

#[test]
fn every_game_ends_within_the_cell_count() {
    // The inside of an arena of size 1 is the single cell (0, 0): any step
    // leaves it, so a cycle cannot live through one round.
    let mut a = Arena::new(1, 1);
    a.add_cycle(Cycle::new(at(0, 0), Cardinal::North));
    a.queue_turn(0, Direction::Left);
    a.tick(&[]);
    assert_eq!(a.living_count(), 0);
    // The inside of an arena of size 3 has 5 x 5 = 25 cells: a cycle alive
    // after t rounds has t + 1 <= 25.
    let mut b = Arena::new(3, 3);
    b.spawn_cycle(at(-2, -2), Cardinal::East);
    b.spawn_cycle(at(2, 2), Cardinal::West);
    let mut ticks = 0;
    while b.living_count() > 0 {
        let turn = if ticks % 3 == 2 { Direction::Left } else { Direction::Right };
        b.tick(&[
            SimInput { cycle_id: 0, command: Command::Direction(turn) },
            SimInput { cycle_id: 1, command: Command::Direction(turn) },
        ]);
        ticks += 1;
        if b.living_count() > 0 {
            assert!(ticks + 1 <= 25);
        }
    }
    // A single cycle spiralling left in the 5 x 5 inside.
    let mut c = Arena::new(3, 3);
    c.add_cycle(Cycle::new(at(0, 0), Cardinal::North));
    let mut ticks = 0;
    while c.living_count() > 0 {
        if ticks % 2 == 1 {
            c.queue_turn(0, Direction::Left);
        }
        c.tick(&[]);
        ticks += 1;
        if c.living_count() > 0 {
            assert!(ticks + 1 <= 25);
        }
    }
}

#[test]
fn next_to_prompt_skips_crashed_cycles() {
    let mut a = Arena::new(5, 5);
    a.add_cycle(Cycle::new(at(0, 0), Cardinal::North));
    let mut dead = Cycle::new(at(1, 1), Cardinal::North);
    dead.kill();
    a.add_cycle(dead);
    a.add_cycle(Cycle::new(at(-2, -2), Cardinal::East));
    assert_eq!(next_to_prompt(&a, 0), Some(0));
    assert_eq!(next_to_prompt(&a, 1), Some(2));
    assert_eq!(next_to_prompt(&a, 3), None);
    assert_eq!(next_to_prompt(&a, 7), None);
    assert_eq!(next_to_prompt(&Arena::new(5, 5), 0), None);
}

#[test]
fn living_cycles_stay_inside_and_the_map_can_always_be_drawn() {
    let mut a = Arena::new(4, 4);
    a.spawn_cycle(at(-3, 0), Cardinal::East);
    a.spawn_cycle(at(3, 1), Cardinal::North);
    a.spawn_cycle(at(0, -3), Cardinal::West);
    for round in 0..20 {
        assert!(a.in_bounds());
        let s = sketch_of(&a);
        assert!(sim::render::can_draw(&s));
        let map = arena_map(&a);
        assert_eq!(map.len(), 9);
        if round % 2 == 0 {
            a.queue_turn(round % 3, Direction::Right);
        }
        a.tick(&[]);
    }
    assert!(a.in_bounds());
}

#[test]
fn can_draw_rejects_what_does_not_fit() {
    let inside = Sketch { max_x: 1, max_y: 1, trails: vec![] };
    assert!(sim::render::can_draw(&inside));
    let negative = Sketch { max_x: -1, max_y: 1, trails: vec![] };
    assert!(!sim::render::can_draw(&negative));
    let outside = Sketch {
        max_x: 1,
        max_y: 1,
        trails: vec![Trail { walls: vec![], position: at(2, 0), alive: true }],
    };
    assert!(!sim::render::can_draw(&outside));
    let mut far = Wall::new(at(0, 0));
    far.update_end_position(at(0, 5));
    let long_wall = Sketch {
        max_x: 1,
        max_y: 1,
        trails: vec![Trail { walls: vec![far], position: at(0, 0), alive: true }],
    };
    assert!(!sim::render::can_draw(&long_wall));
    let mut slanted = Wall::new(at(0, 0));
    slanted.update_end_position(at(5, 5));
    let slanted_wall = Sketch {
        max_x: 1,
        max_y: 1,
        trails: vec![Trail { walls: vec![slanted], position: at(0, 0), alive: true }],
    };
    assert!(sim::render::can_draw(&slanted_wall));
}

#[test]
fn in_bounds_sees_cycles_placed_outside() {
    let mut a = Arena::new(2, 2);
    a.add_cycle(Cycle::new(at(0, 0), Cardinal::North));
    assert!(a.in_bounds());
    a.add_cycle(Cycle::new(at(-2, 0), Cardinal::North));
    assert!(!a.in_bounds());
    let mut b = Arena::new(2, 2);
    let mut dead = Cycle::new(at(7, 7), Cardinal::North);
    dead.kill();
    b.add_cycle(dead);
    assert!(b.in_bounds());
}
