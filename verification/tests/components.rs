//! Unit tests for the containers, the rule parser, the push-chain resolver
//! and the level loader.

use bevy_is_you::game_logic::{
    apply_constraints, apply_mover, check_if_level_changed, check_if_win, setup_world,
};
use bevy_is_you::game_logic_types::{
    AppState, Attribute, Block, BlockAttributes, BlockDirection, Constraints, LevelIndex, Mover,
    PlayerHasWon, PlayerLevelSelect, Pos, Queue, QueueType, StepSignals, TextBlock, Tile, TileMap,
    World, WorldRecorder,
};
use bevy_is_you::loading_levels::{build_level, level_from_json};
use bevy_is_you::push_chain::check_for_pushable_tiles;
use bevy_is_you::rule_parser::evaluate_text;

fn pos(x: i32, y: i32) -> Pos {
    Pos { x, y }
}

fn one(a: Attribute) -> Vec<Attribute> {
    let mut v = Vec::new();
    v.push(a);
    v
}

#[test]
fn queue_dedups_by_id_first_wins() {
    let mut q = Queue::new();
    q.push(7, QueueType::WinOn(pos(0, 0)));
    q.push(7, QueueType::Sink(pos(16, 0)));
    q.push(8, QueueType::Delete);
    assert_eq!(q.len(), 2);
    match q.get(0) {
        Some(e) => {
            assert_eq!(e.id, 7);
            assert!(matches!(e.queue_type, QueueType::WinOn(_)));
        }
        None => panic!("entry missing"),
    }
    match q.get(1) {
        Some(e) => assert_eq!(e.id, 8),
        None => panic!("entry missing"),
    }
    assert!(q.get(2).is_none());
}

#[test]
fn queue_push_type_bypasses_dedup() {
    let mut q = Queue::new();
    q.push_type(QueueType::ChangeBlock(Block::Rock, Block::Wall));
    q.push_type(QueueType::ChangeBlock(Block::Rock, Block::Tree));
    assert_eq!(q.len(), 2);
    q.reset();
    assert_eq!(q.len(), 0);
}

#[test]
fn tile_map_get_filters_by_position() {
    let mut tm = TileMap::new();
    tm.push((1, pos(0, 0), Block::Rock));
    tm.push((2, pos(16, 0), Block::Wall));
    tm.push((3, pos(0, 0), Block::Bevy));
    let here = tm.get(pos(0, 0)).expect("occupied cell");
    assert_eq!(here.len(), 2);
    assert_eq!(here[0].0, 1);
    assert_eq!(here[1].0, 3);
    assert!(tm.get(pos(32, 0)).is_none());
    tm.clear();
    assert!(tm.get(pos(0, 0)).is_none());
}

#[test]
fn attribute_table_insert_and_get() {
    let mut ba = BlockAttributes::new();
    assert!(ba.get(Block::Rock).is_none());
    ba.insert(Block::Rock, one(Attribute::Push));
    let attrs = ba.get(Block::Rock).expect("entry");
    assert_eq!(attrs.len(), 1);
    assert!(matches!(attrs[0], Attribute::Push));
    ba.insert(Block::Rock, one(Attribute::Stop));
    let attrs = ba.get(Block::Rock).expect("entry");
    assert!(matches!(attrs[0], Attribute::Stop));
}

/// A rightward sentence grants the noun's kind the property.
#[test]
fn rule_rock_is_push_rightward() {
    let words = vec![
        (TextBlock::Rock, pos(0, 0)),
        (TextBlock::Is, pos(16, 0)),
        (TextBlock::Push, pos(32, 0)),
    ];
    let mut ba = BlockAttributes::new();
    let mut q = Queue::new();
    evaluate_text(&words, &mut ba, &mut q);
    let attrs = ba.get(Block::Rock).expect("rock parsed");
    assert_eq!(attrs.len(), 1);
    assert!(matches!(attrs[0], Attribute::Push));
    assert_eq!(q.len(), 0);
}

/// The second reading direction goes downward.
#[test]
fn rule_reads_downward_too() {
    let words = vec![
        (TextBlock::Tree, pos(0, 32)),
        (TextBlock::Is, pos(0, 16)),
        (TextBlock::Win, pos(0, 0)),
    ];
    let mut ba = BlockAttributes::new();
    let mut q = Queue::new();
    evaluate_text(&words, &mut ba, &mut q);
    let attrs = ba.get(Block::Tree).expect("tree parsed");
    assert!(matches!(attrs[0], Attribute::Win));
}

/// The base table survives every rebuild: word tiles are always pushable,
/// level-select kinds always carry their selector.
#[test]
fn rule_base_entries_always_present() {
    let words: Vec<(TextBlock, Pos)> = Vec::new();
    let mut ba = BlockAttributes::new();
    let mut q = Queue::new();
    evaluate_text(&words, &mut ba, &mut q);
    let text_attrs = ba.get(Block::Text).expect("text entry");
    assert!(matches!(text_attrs[0], Attribute::Push));
    let lvl = ba.get(Block::Level03).expect("level entry");
    assert!(matches!(lvl[0], Attribute::LevelSelect(3)));
    assert!(ba.get(Block::Rock).is_none());
}

/// Rebuilding twice from the same word-tile layout yields identical tables.
#[test]
fn rule_rebuild_is_deterministic() {
    let words = vec![
        (TextBlock::Rock, pos(0, 0)),
        (TextBlock::Is, pos(16, 0)),
        (TextBlock::Push, pos(32, 0)),
        (TextBlock::Bevy, pos(0, 48)),
        (TextBlock::Is, pos(16, 48)),
        (TextBlock::You, pos(32, 48)),
    ];
    let mut ba1 = BlockAttributes::new();
    let mut q1 = Queue::new();
    evaluate_text(&words, &mut ba1, &mut q1);
    let mut ba2 = BlockAttributes::new();
    let mut q2 = Queue::new();
    evaluate_text(&words, &mut ba2, &mut q2);
    assert_eq!(ba1.entries, ba2.entries);
    assert_eq!(q1.len(), q2.len());
}

/// A noun target is a transmutation, not an attribute.
#[test]
fn rule_noun_target_queues_change() {
    let words = vec![
        (TextBlock::Rock, pos(0, 0)),
        (TextBlock::Is, pos(16, 0)),
        (TextBlock::Wall, pos(32, 0)),
    ];
    let mut ba = BlockAttributes::new();
    let mut q = Queue::new();
    evaluate_text(&words, &mut ba, &mut q);
    assert_eq!(q.len(), 1);
    match q.get(0) {
        Some(e) => match e.queue_type {
            QueueType::ChangeBlock(from, to) => {
                assert_eq!(from, Block::Rock);
                assert_eq!(to, Block::Wall);
            }
            _ => panic!("expected a transmutation edge"),
        },
        None => panic!("edge missing"),
    }
    let attrs = ba.get(Block::Rock).expect("rock still gets an entry");
    assert_eq!(attrs.len(), 0);
}

/// The copula is never a target: `ROCK IS IS` parses to nothing.
#[test]
fn rule_copula_is_no_target() {
    let words = vec![
        (TextBlock::Rock, pos(0, 0)),
        (TextBlock::Is, pos(16, 0)),
        (TextBlock::Is, pos(32, 0)),
    ];
    let mut ba = BlockAttributes::new();
    let mut q = Queue::new();
    evaluate_text(&words, &mut ba, &mut q);
    assert!(ba.get(Block::Rock).is_none());
    assert_eq!(q.len(), 0);
}

fn corridor_setup() -> (TileMap, BlockAttributes, Constraints) {
    let mut tm = TileMap::new();
    tm.push((10, pos(16, 0), Block::Rock));
    tm.push((11, pos(32, 0), Block::Rock));
    let mut ba = BlockAttributes::new();
    ba.insert(Block::Rock, one(Attribute::Push));
    ba.insert(Block::Wall, one(Attribute::Stop));
    let c = Constraints {
        start: pos(0, 0),
        end: pos(64, 0),
    };
    (tm, ba, c)
}

/// A push chain of length 2 against an open corridor gathers both tiles,
/// each bound one cell onward.
#[test]
fn push_chain_open_corridor_moves_each_one_cell() {
    let (tm, ba, c) = corridor_setup();
    let mut pushables = vec![(1u64, pos(16, 0))];
    check_for_pushable_tiles(&mut pushables, &tm, &ba, &c, pos(0, 0), BlockDirection::Right);
    assert_eq!(pushables.len(), 3);
    assert_eq!(pushables[0], (1, pos(16, 0)));
    assert_eq!(pushables[1], (10, pos(32, 0)));
    assert_eq!(pushables[2], (11, pos(48, 0)));
}

/// A blocking occupant anywhere discards the entire chain.
#[test]
fn push_chain_blocked_moves_nothing() {
    let (mut tm, ba, c) = corridor_setup();
    tm.push((12, pos(48, 0), Block::Wall));
    let mut pushables = vec![(1u64, pos(16, 0))];
    check_for_pushable_tiles(&mut pushables, &tm, &ba, &c, pos(0, 0), BlockDirection::Right);
    assert_eq!(pushables.len(), 0);
}

/// A chain that would push the leading tile outside the playfield moves
/// nothing at all.
#[test]
fn push_chain_at_boundary_moves_nothing() {
    let (tm, ba, _) = corridor_setup();
    let tight = Constraints {
        start: pos(0, 0),
        end: pos(32, 0),
    };
    let mut pushables = vec![(1u64, pos(16, 0))];
    check_for_pushable_tiles(&mut pushables, &tm, &ba, &tight, pos(0, 0), BlockDirection::Right);
    assert_eq!(pushables.len(), 0);
}

/// Inert occupants neither block nor join the chain.
#[test]
fn push_chain_ignores_inert_tiles() {
    let (mut tm, ba, c) = corridor_setup();
    tm.push((20, pos(16, 0), Block::Path));
    let mut pushables = vec![(1u64, pos(16, 0))];
    check_for_pushable_tiles(&mut pushables, &tm, &ba, &c, pos(0, 0), BlockDirection::Right);
    assert_eq!(pushables.len(), 3);
}

#[test]
fn recorder_head_round_trip() {
    let mut r = WorldRecorder::new();
    r.push(1, pos(0, 0), Block::Bevy, false);
    r.user_input = true;
    r.reset();
    r.push(1, pos(16, 0), Block::Bevy, false);
    assert_eq!(r.records.len(), 2);
    assert_eq!(r.head_len, 2);
    r.undo();
    assert_eq!(r.head_len, 1);
    r.redo();
    assert_eq!(r.head_len, 2);
    r.redo();
    assert_eq!(r.head_len, 2);
    r.undo();
    r.undo();
    r.undo();
    assert_eq!(r.head_len, 0);
    assert_eq!(r.records.len(), 2);
}

#[test]
fn recorder_reset_without_input_appends_nothing() {
    let mut r = WorldRecorder::new();
    r.reset();
    assert_eq!(r.records.len(), 0);
    assert_eq!(r.head_len, 0);
    assert!(r.record);
    assert!(!r.user_input);
}

#[test]
fn recorder_branch_pruning() {
    let mut r = WorldRecorder::new();
    for i in 0..3 {
        r.user_input = true;
        r.reset();
        r.push(1, pos(16 * i, 0), Block::Bevy, false);
    }
    assert_eq!(r.records.len(), 3);
    r.undo();
    r.undo();
    assert_eq!(r.head_len, 1);
    r.user_input = true;
    r.reset();
    assert_eq!(r.records.len(), 2);
    assert_eq!(r.head_len, 2);
}

#[test]
fn win_signal_returns_to_main_area() {
    let mut signals = StepSignals {
        wins: vec![PlayerHasWon],
        level_selects: Vec::new(),
    };
    let mut state = AppState::Game;
    check_if_win(&mut signals, &mut state);
    assert_eq!(state, AppState::MainArea);
    assert!(signals.wins.is_empty());

    let mut silent = StepSignals {
        wins: Vec::new(),
        level_selects: Vec::new(),
    };
    let mut state2 = AppState::Game;
    check_if_win(&mut silent, &mut state2);
    assert_eq!(state2, AppState::Game);
}

#[test]
fn level_select_signal_enters_level() {
    let mut signals = StepSignals {
        wins: Vec::new(),
        level_selects: vec![PlayerLevelSelect(2), PlayerLevelSelect(5)],
    };
    let mut idx = LevelIndex(0);
    let mut state = AppState::MainArea;
    check_if_level_changed(&mut signals, &mut idx, &mut state);
    assert_eq!(state, AppState::Game);
    assert_eq!(idx.0, 5);
    assert!(signals.level_selects.is_empty());
}

#[test]
fn mover_settles_at_target() {
    let mut world = World {
        tiles: vec![Tile {
            id: 1,
            block: Block::Bevy,
            text: None,
            pos: pos(0, 0),
            mover: Mover {
                target: pos(16, 0),
                complete: false,
            },
            flip_x: false,
        }],
    };
    apply_mover(&mut world);
    assert_eq!(world.tiles[0].pos, pos(16, 0));
    assert!(world.tiles[0].mover.complete);
}

#[test]
fn constraints_stop_out_of_bounds_movers() {
    let c = Constraints {
        start: pos(0, 0),
        end: pos(32, 32),
    };
    let mut world = World {
        tiles: vec![Tile {
            id: 1,
            block: Block::Bevy,
            text: None,
            pos: pos(32, 0),
            mover: Mover {
                target: pos(48, 0),
                complete: false,
            },
            flip_x: false,
        }],
    };
    apply_constraints(&mut world, &c);
    assert_eq!(world.tiles[0].pos, pos(32, 0));
    assert!(world.tiles[0].mover.complete);
}

#[test]
fn build_level_exact_one_cell() {
    let objects = vec![2i64];
    let words = vec![4i64];
    let ld = build_level(16, 16, &objects, &words).expect("valid level");
    assert_eq!(ld.width, 16);
    assert_eq!(ld.height, 16);
    assert_eq!(ld.blocks.len(), 1);
    assert_eq!(ld.blocks[0], (Block::Rock, pos(0, 0)));
    assert_eq!(ld.text_blocks.len(), 1);
    assert_eq!(ld.text_blocks[0], (TextBlock::Push, pos(0, 0)));
}

#[test]
fn build_level_walks_top_row_first() {
    // 2 x 2 cells: codes walk left to right along the top row, then the
    // bottom row; code 16 places nothing.
    let objects = vec![0i64, 1, 16, 3];
    let words = vec![16i64, 16, 16, 16];
    let ld = build_level(32, 32, &objects, &words).expect("valid level");
    assert_eq!(ld.blocks.len(), 3);
    assert_eq!(ld.blocks[0], (Block::Bevy, pos(0, 16)));
    assert_eq!(ld.blocks[1], (Block::Wall, pos(16, 16)));
    assert_eq!(ld.blocks[2], (Block::Flag, pos(16, 0)));
    assert!(ld.text_blocks.is_empty());
}

#[test]
fn build_level_rejects_bad_dimensions() {
    let objects = vec![0i64];
    let words = vec![0i64];
    assert!(build_level(15, 16, &objects, &words).is_none());
    assert!(build_level(0, 16, &objects, &words).is_none());
    assert!(build_level(16, 65552, &objects, &words).is_none());
}

#[test]
fn build_level_rejects_short_layers() {
    let objects = vec![0i64];
    let words = vec![0i64];
    assert!(build_level(32, 32, &objects, &words).is_none());
}

#[test]
fn level_from_json_round_trip() {
    let text = "{\"width\":32,\"height\":16,\"layers\":[{\"data\":[2,16]},{\"data\":[16,0]}]}";
    let ld = level_from_json(text).expect("well-formed level JSON");
    assert_eq!(ld.width, 32);
    assert_eq!(ld.height, 16);
    assert_eq!(ld.blocks, vec![(Block::Rock, pos(0, 0))]);
    assert_eq!(ld.text_blocks, vec![(TextBlock::Is, pos(16, 0))]);
}

#[test]
fn level_from_json_rejects_malformed() {
    assert!(level_from_json("not json").is_none());
    assert!(level_from_json("{\"width\":32}").is_none());
    assert!(level_from_json("{\"width\":32,\"height\":16,\"layers\":[]}").is_none());
    assert!(
        level_from_json("{\"width\":32,\"height\":16,\"layers\":[{\"data\":[2,\"x\"]},{\"data\":[0,0]}]}")
            .is_none()
    );
}

#[test]
fn setup_world_centres_level() {
    let objects = vec![2i64];
    let words = vec![4i64];
    let ld = build_level(16, 16, &objects, &words).expect("valid level");
    let (world, c) = setup_world(&ld);
    // size = (0, 0): offset centres a zero-size field: (320, 180).
    assert_eq!(c.start, pos(320, 180));
    assert_eq!(c.end, pos(320, 180));
    assert_eq!(world.tiles.len(), 2);
    assert_eq!(world.tiles[0].id, 1);
    assert_eq!(world.tiles[0].block, Block::Rock);
    assert_eq!(world.tiles[0].pos, pos(320, 180));
    assert_eq!(world.tiles[1].id, 2);
    assert_eq!(world.tiles[1].block, Block::Text);
    assert_eq!(world.tiles[1].text, Some(TextBlock::Push));
    assert!(world.tiles[0].mover.complete);
}
