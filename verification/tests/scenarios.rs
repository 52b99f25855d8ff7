//! Whole-step scenarios driven through the engine: rule-driven pushing,
//! transmutation, sinking, and the undo/redo history.

use bevy_is_you::engine::Engine;
use bevy_is_you::game_logic_types::{
    Attribute, Block, BlockAttributes, BlockDirection, Constraints, Mover, Pos, Queue, QueueType,
    StepInput, TextBlock, Tile, TileMap, World,
};
use bevy_is_you::resolve::apply_queue;

fn pos(x: i32, y: i32) -> Pos {
    Pos { x, y }
}

fn tile(id: u64, block: Block, p: Pos) -> Tile {
    Tile {
        id,
        block,
        text: None,
        pos: p,
        mover: Mover {
            target: p,
            complete: true,
        },
        flip_x: false,
    }
}

fn word(id: u64, w: TextBlock, p: Pos) -> Tile {
    Tile {
        id,
        block: Block::Text,
        text: Some(w),
        pos: p,
        mover: Mover {
            target: p,
            complete: true,
        },
        flip_x: false,
    }
}

fn still() -> StepInput {
    StepInput {
        direction: BlockDirection::Still,
        undo: false,
        redo: false,
    }
}

fn go(direction: BlockDirection) -> StepInput {
    StepInput {
        direction,
        undo: false,
        redo: false,
    }
}

fn undo_key() -> StepInput {
    StepInput {
        direction: BlockDirection::Still,
        undo: true,
        redo: false,
    }
}

fn redo_key() -> StepInput {
    StepInput {
        direction: BlockDirection::Still,
        undo: false,
        redo: true,
    }
}

fn wide_constraints() -> Constraints {
    Constraints {
        start: pos(-64, -64),
        end: pos(192, 192),
    }
}

fn find(world: &World, id: u64) -> &Tile {
    world
        .tiles
        .iter()
        .find(|t| t.id == id)
        .expect("tile by id")
}

/// The standard board: a player tile and a rock, with `BEVY IS YOU` and
/// `ROCK IS PUSH` written on a word row above them.
fn push_board() -> (Engine, World) {
    let world = World {
        tiles: vec![
            tile(1, Block::Bevy, pos(0, 0)),
            tile(2, Block::Rock, pos(16, 0)),
            word(3, TextBlock::Bevy, pos(0, 64)),
            word(4, TextBlock::Is, pos(16, 64)),
            word(5, TextBlock::You, pos(32, 64)),
            word(6, TextBlock::Rock, pos(0, 48)),
            word(7, TextBlock::Is, pos(16, 48)),
            word(8, TextBlock::Push, pos(32, 48)),
        ],
    };
    (Engine::new(wide_constraints()), world)
}

/// `ROCK IS PUSH` makes a rock pushable: the player walks into it and both
/// advance one cell.
#[test]
fn player_pushes_rock_one_cell() {
    let (mut engine, mut world) = push_board();
    engine.step(&mut world, &still());
    engine.step(&mut world, &go(BlockDirection::Right));
    let bevy = find(&world, 1);
    assert_eq!(bevy.mover.target, pos(16, 0));
    assert!(!bevy.mover.complete);
    let rock = find(&world, 2);
    assert_eq!(rock.mover.target, pos(32, 0));
    assert!(!rock.mover.complete);
}

/// A chain of two rocks in an open corridor: the player and both rocks
/// each advance exactly one cell, and the word row does not move.
#[test]
fn player_pushes_chain_of_two() {
    let (mut engine, mut world) = push_board();
    world.tiles.push(tile(9, Block::Rock, pos(32, 0)));
    engine.step(&mut world, &still());
    engine.step(&mut world, &go(BlockDirection::Right));
    assert_eq!(find(&world, 1).mover.target, pos(16, 0));
    assert_eq!(find(&world, 2).mover.target, pos(32, 0));
    assert_eq!(find(&world, 9).mover.target, pos(48, 0));
    assert!(!find(&world, 1).mover.complete);
    assert!(!find(&world, 2).mover.complete);
    assert!(!find(&world, 9).mover.complete);
    for id in 3..=8u64 {
        assert!(find(&world, id).mover.complete);
    }
}

/// With a blocking tile beyond the rock, the whole push fails and nothing
/// moves.
#[test]
fn player_blocked_behind_rock() {
    let (mut engine, mut world) = push_board();
    world.tiles.push(tile(9, Block::Wall, pos(32, 0)));
    world.tiles.push(word(10, TextBlock::Wall, pos(0, 32)));
    world.tiles.push(word(11, TextBlock::Is, pos(16, 32)));
    world.tiles.push(word(12, TextBlock::Stop, pos(32, 32)));
    engine.step(&mut world, &still());
    engine.step(&mut world, &go(BlockDirection::Right));
    let bevy = find(&world, 1);
    assert_eq!(bevy.pos, pos(0, 0));
    assert!(bevy.mover.complete);
    let rock = find(&world, 2);
    assert_eq!(rock.pos, pos(16, 0));
    assert!(rock.mover.complete);
}

/// A push toward the playfield edge moves nothing.
#[test]
fn player_cannot_push_past_boundary() {
    let (mut engine, mut world) = push_board();
    engine.constraints = Constraints {
        start: pos(0, 0),
        end: pos(16, 64),
    };
    engine.step(&mut world, &still());
    engine.step(&mut world, &go(BlockDirection::Right));
    assert!(find(&world, 1).mover.complete);
    assert!(find(&world, 2).mover.complete);
    assert_eq!(find(&world, 1).pos, pos(0, 0));
}

/// Sideways input flips the player sprite to face its walk.
#[test]
fn player_faces_walking_direction() {
    let (mut engine, mut world) = push_board();
    engine.step(&mut world, &still());
    engine.step(&mut world, &go(BlockDirection::Left));
    assert!(find(&world, 1).flip_x);
    engine.step(&mut world, &go(BlockDirection::Right));
    assert!(!find(&world, 1).flip_x);
}

/// `ROCK IS WALL` transmutes every rock in the same step, and from the next
/// step onward the wall rules govern them.
#[test]
fn rock_is_wall_transmutes_all_rocks() {
    let world_tiles = vec![
        tile(1, Block::Bevy, pos(0, 0)),
        tile(2, Block::Rock, pos(16, 0)),
        tile(3, Block::Rock, pos(64, 16)),
        word(4, TextBlock::Bevy, pos(0, 64)),
        word(5, TextBlock::Is, pos(16, 64)),
        word(6, TextBlock::You, pos(32, 64)),
        word(7, TextBlock::Rock, pos(0, 48)),
        word(8, TextBlock::Is, pos(16, 48)),
        word(9, TextBlock::Wall, pos(32, 48)),
        word(10, TextBlock::Wall, pos(0, 32)),
        word(11, TextBlock::Is, pos(16, 32)),
        word(12, TextBlock::Stop, pos(32, 32)),
    ];
    let mut world = World { tiles: world_tiles };
    let mut engine = Engine::new(wide_constraints());
    engine.step(&mut world, &still());
    assert_eq!(find(&world, 2).block, Block::Wall);
    assert_eq!(find(&world, 3).block, Block::Wall);
    // The transmuted tiles now block: walking into one moves nothing.
    engine.step(&mut world, &go(BlockDirection::Right));
    assert_eq!(find(&world, 1).pos, pos(0, 0));
    assert!(find(&world, 1).mover.complete);
}

/// A sink check on a cell holding a pushable and a blocking tile deletes
/// both from play; on a cell of inert tiles it deletes nothing.
#[test]
fn sink_check_takes_whole_cell_or_nothing() {
    let mut ba = BlockAttributes::new();
    ba.insert(Block::Rock, vec![Attribute::Push]);
    ba.insert(Block::Wall, vec![Attribute::Stop]);
    ba.insert(Block::Water, vec![Attribute::Sink]);
    let mut tm = TileMap::new();
    tm.push((1, pos(0, 0), Block::Rock));
    tm.push((2, pos(0, 0), Block::Wall));
    tm.push((3, pos(16, 0), Block::Path));
    tm.push((4, pos(16, 0), Block::Tree));
    let mut queue = Queue::new();
    queue.push(9, QueueType::Sink(pos(0, 0)));
    queue.push(10, QueueType::Sink(pos(16, 0)));
    let mut world = World {
        tiles: vec![
            tile(1, Block::Rock, pos(0, 0)),
            tile(2, Block::Wall, pos(0, 0)),
            tile(3, Block::Path, pos(16, 0)),
            tile(4, Block::Tree, pos(16, 0)),
        ],
    };
    let signals = apply_queue(&mut world, &queue, &tm, &ba, &wide_constraints());
    assert_eq!(world.tiles.len(), 2);
    assert!(world.tiles.iter().all(|t| t.id != 1 && t.id != 2));
    assert_eq!(find(&world, 3).block, Block::Path);
    assert_eq!(find(&world, 4).block, Block::Tree);
    assert!(signals.wins.is_empty());
    assert!(signals.level_selects.is_empty());
}

/// A kind that is both player-controlled and a win trigger still enqueues
/// its win check on a step with no directional input: only the move is
/// suppressed.
#[test]
fn idle_player_still_triggers_its_checks() {
    let mut world = World {
        tiles: vec![
            tile(1, Block::Bevy, pos(0, 0)),
            word(3, TextBlock::Bevy, pos(0, 64)),
            word(4, TextBlock::Is, pos(16, 64)),
            word(5, TextBlock::You, pos(32, 64)),
            word(6, TextBlock::Bevy, pos(0, 48)),
            word(7, TextBlock::Is, pos(16, 48)),
            word(8, TextBlock::Win, pos(32, 48)),
        ],
    };
    let mut engine = Engine::new(wide_constraints());
    engine.step(&mut world, &still());
    let s = engine.step(&mut world, &still());
    assert_eq!(s.wins.len(), 1);
    // Still no move and no recording: the idle steps left no history.
    assert_eq!(engine.world_recorder.records.len(), 0);
    assert!(find(&world, 1).mover.complete);
}

/// A win check fires exactly when a player-controlled tile shares the cell.
#[test]
fn win_check_needs_player_on_cell() {
    let mut ba = BlockAttributes::new();
    ba.insert(Block::Bevy, vec![Attribute::You]);
    ba.insert(Block::Flag, vec![Attribute::Win]);
    let mut tm = TileMap::new();
    tm.push((1, pos(0, 0), Block::Bevy));
    tm.push((2, pos(0, 0), Block::Flag));
    tm.push((3, pos(16, 0), Block::Flag));
    let mut queue = Queue::new();
    queue.push(2, QueueType::WinOn(pos(0, 0)));
    queue.push(3, QueueType::WinOn(pos(16, 0)));
    let mut world = World {
        tiles: vec![
            tile(1, Block::Bevy, pos(0, 0)),
            tile(2, Block::Flag, pos(0, 0)),
            tile(3, Block::Flag, pos(16, 0)),
        ],
    };
    let signals = apply_queue(&mut world, &queue, &tm, &ba, &wide_constraints());
    assert_eq!(signals.wins.len(), 1);
}

/// A lone level-select tile never triggers itself; a shared cell with a
/// player does, carrying its level number.
#[test]
fn level_select_needs_company() {
    let mut ba = BlockAttributes::new();
    ba.insert(Block::Bevy, vec![Attribute::You]);
    ba.insert(Block::Level02, vec![Attribute::LevelSelect(2)]);
    let mut tm = TileMap::new();
    tm.push((1, pos(0, 0), Block::Level02));
    tm.push((2, pos(16, 0), Block::Level02));
    tm.push((3, pos(16, 0), Block::Bevy));
    let mut queue = Queue::new();
    queue.push(1, QueueType::LevelSelect(pos(0, 0), 2));
    queue.push(2, QueueType::LevelSelect(pos(16, 0), 2));
    let mut world = World {
        tiles: vec![
            tile(1, Block::Level02, pos(0, 0)),
            tile(2, Block::Level02, pos(16, 0)),
            tile(3, Block::Bevy, pos(16, 0)),
        ],
    };
    let signals = apply_queue(&mut world, &queue, &tm, &ba, &wide_constraints());
    assert_eq!(signals.level_selects.len(), 1);
    assert_eq!(signals.level_selects[0].0, 2);
}

/// Walking onto a win-granting tile raises the win signal on the next
/// settled step.
#[test]
fn walking_onto_flag_wins() {
    let mut world = World {
        tiles: vec![
            tile(1, Block::Bevy, pos(0, 0)),
            tile(2, Block::Flag, pos(16, 0)),
            word(3, TextBlock::Bevy, pos(0, 64)),
            word(4, TextBlock::Is, pos(16, 64)),
            word(5, TextBlock::You, pos(32, 64)),
            word(6, TextBlock::Flag, pos(0, 48)),
            word(7, TextBlock::Is, pos(16, 48)),
            word(8, TextBlock::Win, pos(32, 48)),
        ],
    };
    let mut engine = Engine::new(wide_constraints());
    engine.step(&mut world, &still());
    let s = engine.step(&mut world, &go(BlockDirection::Right));
    assert!(s.wins.is_empty());
    let s = engine.step(&mut world, &still());
    assert_eq!(s.wins.len(), 1);
}

/// Walking onto a level-select tile raises its selector; the select kinds
/// need no written rule.
#[test]
fn walking_onto_level_tile_selects_it() {
    let mut world = World {
        tiles: vec![
            tile(1, Block::Bevy, pos(0, 0)),
            tile(2, Block::Level02, pos(16, 0)),
            word(3, TextBlock::Bevy, pos(0, 64)),
            word(4, TextBlock::Is, pos(16, 64)),
            word(5, TextBlock::You, pos(32, 64)),
        ],
    };
    let mut engine = Engine::new(wide_constraints());
    engine.step(&mut world, &still());
    engine.step(&mut world, &go(BlockDirection::Right));
    let s = engine.step(&mut world, &still());
    assert_eq!(s.level_selects.len(), 1);
    assert_eq!(s.level_selects[0].0, 2);
}

/// A board with only the player and its rule row.
fn lone_player_board() -> (Engine, World) {
    let world = World {
        tiles: vec![
            tile(1, Block::Bevy, pos(0, 0)),
            word(3, TextBlock::Bevy, pos(0, 64)),
            word(4, TextBlock::Is, pos(16, 64)),
            word(5, TextBlock::You, pos(32, 64)),
        ],
    };
    (Engine::new(wide_constraints()), world)
}

/// Steps without real directional input never create a history frame.
#[test]
fn idle_steps_record_nothing() {
    let (mut engine, mut world) = lone_player_board();
    for _ in 0..4 {
        engine.step(&mut world, &still());
    }
    assert_eq!(engine.world_recorder.records.len(), 0);
    assert_eq!(engine.world_recorder.head_len, 0);
    assert!(!engine.world_recorder.user_input);
}

/// Undo walks the player back through its recorded positions and redo walks
/// it forward again: the round trip lands exactly where it started.
#[test]
fn undo_redo_round_trip_restores_snapshots() {
    let (mut engine, mut world) = lone_player_board();
    engine.step(&mut world, &still());
    engine.step(&mut world, &go(BlockDirection::Right)); // records (0,0)
    engine.step(&mut world, &go(BlockDirection::Right)); // records (16,0)
    engine.step(&mut world, &go(BlockDirection::Right)); // records (32,0)
    assert_eq!(engine.world_recorder.records.len(), 3);
    assert_eq!(engine.world_recorder.head_len, 3);

    // Two undos: back to the snapshot taken before the second move.
    engine.step(&mut world, &undo_key()); // opens frame 4, head 4 -> 3
    engine.step(&mut world, &undo_key());
    assert_eq!(engine.world_recorder.head_len, 2);
    assert_eq!(find(&world, 1).mover.target, pos(16, 0));

    // Redo: forward to the snapshot taken before the third move.
    engine.step(&mut world, &redo_key());
    assert_eq!(engine.world_recorder.head_len, 3);
    assert_eq!(find(&world, 1).mover.target, pos(32, 0));

    // Undo again: the same snapshot as before the redo, exactly.
    engine.step(&mut world, &undo_key());
    assert_eq!(engine.world_recorder.head_len, 2);
    assert_eq!(find(&world, 1).mover.target, pos(16, 0));

    // Redo all the way up: the top frame was sealed with the post-step
    // state when the first undo arrived, so even it is restored exactly.
    engine.step(&mut world, &redo_key());
    assert_eq!(find(&world, 1).mover.target, pos(32, 0));
    engine.step(&mut world, &redo_key());
    assert_eq!(engine.world_recorder.head_len, 4);
    assert_eq!(find(&world, 1).mover.target, pos(48, 0));

    // The history list itself was never mutated by moving the head.
    assert_eq!(engine.world_recorder.records.len(), 4);
}

/// The round trip after a single recorded step: undo restores the pre-step
/// snapshot, redo after that undo restores the post-step snapshot exactly.
#[test]
fn undo_then_redo_single_step() {
    let (mut engine, mut world) = lone_player_board();
    engine.step(&mut world, &still());
    engine.step(&mut world, &go(BlockDirection::Right));
    assert_eq!(find(&world, 1).mover.target, pos(16, 0));

    engine.step(&mut world, &undo_key());
    assert_eq!(engine.world_recorder.head_len, 1);
    assert_eq!(find(&world, 1).mover.target, pos(0, 0));

    engine.step(&mut world, &redo_key());
    assert_eq!(engine.world_recorder.head_len, 2);
    assert_eq!(find(&world, 1).mover.target, pos(16, 0));
}

/// Fresh input after an undo prunes the redo future (branch pruning).
#[test]
fn new_input_after_undo_prunes_redo_future() {
    let (mut engine, mut world) = lone_player_board();
    engine.step(&mut world, &still());
    engine.step(&mut world, &go(BlockDirection::Right));
    engine.step(&mut world, &go(BlockDirection::Right));
    engine.step(&mut world, &undo_key()); // head 3 -> 2, list still 3 frames
    assert_eq!(engine.world_recorder.records.len(), 3);
    engine.step(&mut world, &go(BlockDirection::Up));
    // The divergent step dropped the frame beyond the head and recorded
    // into the slot under it.
    assert_eq!(engine.world_recorder.records.len(), 2);
    assert_eq!(engine.world_recorder.head_len, 2);
}
