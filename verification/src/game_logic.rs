//! Per-step systems around the resolver: boundary clamping, motion
//! completion, tile-index rebuild, world recording and restoration, and the
//! win / level-select signal consumers.

use vstd::prelude::*;

use crate::game_logic_types::{
    all_settled, rec_view, wf_constraints, wf_frame, wf_recorder, wf_tile_map, wf_world, AppState,
    Constraints, LevelIndex, Mover, Pos, RecordData, StepSignals, Tile, TileInfo, TileMap, World,
    WorldRecorder,
};

verus! {

/// Componentwise clamp into `[lo, hi]`.
pub open spec fn clamp_i32(v: i32, lo: i32, hi: i32) -> i32 {
    if v < lo {
        lo
    } else if v > hi {
        hi
    } else {
        v
    }
}

pub open spec fn clamp_pos(p: Pos, c: Constraints) -> Pos {
    Pos { x: clamp_i32(p.x, c.start.x, c.end.x), y: clamp_i32(p.y, c.start.y, c.end.y) }
}

/// A position is inside the playfield exactly when clamping leaves it alone.
pub open spec fn in_bounds(p: Pos, c: Constraints) -> bool {
    clamp_pos(p, c) == p
}

fn clamp_coord(v: i32, lo: i32, hi: i32) -> (r: i32)
    ensures
        r == clamp_i32(v, lo, hi),
{
    if v < lo {
        lo
    } else if v > hi {
        hi
    } else {
        v
    }
}

pub fn clamp_position(p: Pos, c: &Constraints) -> (r: Pos)
    ensures
        r == clamp_pos(p, *c),
{
    Pos { x: clamp_coord(p.x, c.start.x, c.end.x), y: clamp_coord(p.y, c.start.y, c.end.y) }
}

/// A moving tile whose target lies outside the playfield is teleported to
/// the clamped target and settled; everything else is untouched.
pub open spec fn constrain_tile(t: Tile, c: Constraints) -> Tile {
    if !t.mover.complete && clamp_pos(t.mover.target, c) != t.mover.target {
        Tile {
            id: t.id,
            block: t.block,
            text: t.text,
            pos: clamp_pos(t.mover.target, c),
            mover: Mover { target: t.mover.target, complete: true },
            flip_x: t.flip_x,
        }
    } else {
        t
    }
}

/// Safety net of the motion machine: no mover may carry a tile outside the
/// playfield, whatever queued it.
pub fn apply_constraints(world: &mut World, constraints: &Constraints)
    requires
        wf_world(old(world).tiles@),
        wf_constraints(*constraints),
    ensures
        final(world).tiles@ == old(world).tiles@.map_values(
            |t: Tile| constrain_tile(t, *constraints),
        ),
        wf_world(final(world).tiles@),
{
    let n = world.tiles.len();
    for i in 0..n
        invariant
            n == world.tiles@.len(),
            world.tiles@.len() == old(world).tiles@.len(),
            wf_constraints(*constraints),
            wf_world(old(world).tiles@),
            forall|j: int|
                0 <= j < i ==> world.tiles@[j] == constrain_tile(
                    #[trigger] old(world).tiles@[j],
                    *constraints,
                ),
            forall|j: int| i <= j < n ==> world.tiles@[j] == #[trigger] old(world).tiles@[j],
    {
        let t = world.tiles[i];
        if !t.mover.complete {
            let clamped = clamp_position(t.mover.target, constraints);
            if clamped.x != t.mover.target.x || clamped.y != t.mover.target.y {
                world.tiles.set(
                    i,
                    Tile {
                        id: t.id,
                        block: t.block,
                        text: t.text,
                        pos: clamped,
                        mover: Mover { target: t.mover.target, complete: true },
                        flip_x: t.flip_x,
                    },
                );
            }
        }
    }
    proof {
        assert(world.tiles@ =~= old(world).tiles@.map_values(
            |t: Tile| constrain_tile(t, *constraints),
        ));
        assert forall|i: int, j: int|
            0 <= i < world.tiles@.len() && 0 <= j < world.tiles@.len() && i != j implies (
        #[trigger] world.tiles@[i]).id != (#[trigger] world.tiles@[j]).id by {
            assert(old(world).tiles@[i].id != old(world).tiles@[j].id);
        }
    }
}

/// The settled end state of one tile's interpolation: at its target.
pub open spec fn settle_tile(t: Tile) -> Tile {
    if t.mover.complete {
        t
    } else {
        Tile {
            id: t.id,
            block: t.block,
            text: t.text,
            pos: t.mover.target,
            mover: Mover { target: t.mover.target, complete: true },
            flip_x: t.flip_x,
        }
    }
}

/// Advance the motion state machine to its quantized end state: every moving
/// tile arrives at its integer target and reports settled. The smooth
/// interpolation between the two grid cells is a rendering concern and
/// carries no simulation state.
pub fn apply_mover(world: &mut World)
    requires
        wf_world(old(world).tiles@),
    ensures
        final(world).tiles@ == old(world).tiles@.map_values(|t: Tile| settle_tile(t)),
        all_settled(final(world).tiles@),
        wf_world(final(world).tiles@),
{
    let n = world.tiles.len();
    for i in 0..n
        invariant
            n == world.tiles@.len(),
            world.tiles@.len() == old(world).tiles@.len(),
            wf_world(old(world).tiles@),
            forall|j: int|
                0 <= j < i ==> world.tiles@[j] == settle_tile(#[trigger] old(world).tiles@[j]),
            forall|j: int| i <= j < n ==> world.tiles@[j] == #[trigger] old(world).tiles@[j],
    {
        let t = world.tiles[i];
        if !t.mover.complete {
            world.tiles.set(
                i,
                Tile {
                    id: t.id,
                    block: t.block,
                    text: t.text,
                    pos: t.mover.target,
                    mover: Mover { target: t.mover.target, complete: true },
                    flip_x: t.flip_x,
                },
            );
        }
    }
    proof {
        assert(world.tiles@ =~= old(world).tiles@.map_values(|t: Tile| settle_tile(t)));
        assert forall|i: int, j: int|
            0 <= i < world.tiles@.len() && 0 <= j < world.tiles@.len() && i != j implies (
        #[trigger] world.tiles@[i]).id != (#[trigger] world.tiles@[j]).id by {
            assert(old(world).tiles@[i].id != old(world).tiles@[j].id);
        }
    }
}

/// Whether every tile has settled; only then may a step run.
pub fn check_all_settled(world: &World) -> (r: bool)
    ensures
        r == all_settled(world.tiles@),
{
    let n = world.tiles.len();
    for i in 0..n
        invariant
            n == world.tiles@.len(),
            forall|j: int| 0 <= j < i ==> (#[trigger] world.tiles@[j]).mover.complete,
    {
        if !world.tiles[i].mover.complete {
            return false;
        }
    }
    true
}

/// What the tile index holds after a rebuild: one row per tile, in arena
/// order.
pub open spec fn snapshot_index(tiles: Seq<Tile>) -> Seq<TileInfo> {
    tiles.map_values(|t: Tile| (t.id, t.pos, t.block))
}

/// Rebuild the spatial index, but only once every tile has settled; while
/// anything is still moving the stale index is left untouched and unused.
pub fn map_tiles(world: &World, tile_map: &mut TileMap)
    requires
        wf_world(world.tiles@),
    ensures
        all_settled(world.tiles@) ==> final(tile_map).content@ == snapshot_index(world.tiles@),
        !all_settled(world.tiles@) ==> final(tile_map).content@ == old(tile_map).content@,
        all_settled(world.tiles@) ==> wf_tile_map(final(tile_map).content@),
{
    if !check_all_settled(world) {
        return ;
    }
    tile_map.clear();
    let n = world.tiles.len();
    for i in 0..n
        invariant
            n == world.tiles@.len(),
            tile_map.content@ == snapshot_index(world.tiles@.subrange(0, i as int)),
    {
        let t = world.tiles[i];
        tile_map.push((t.id, t.pos, t.block));
        proof {
            assert(snapshot_index(world.tiles@.subrange(0, i + 1)) =~= snapshot_index(
                world.tiles@.subrange(0, i as int),
            ).push((t.id, t.pos, t.block)));
        }
    }
    proof {
        assert(world.tiles@.subrange(0, n as int) =~= world.tiles@);
        assert(tile_map.content@ =~= snapshot_index(world.tiles@));
    }
}

/// Consume pending win signals: any at all sends the outer driver back to
/// the main area.
pub fn check_if_win(signals: &mut StepSignals, app_state: &mut AppState)
    ensures
        old(signals).wins@.len() > 0 ==> *final(app_state) == AppState::MainArea,
        old(signals).wins@.len() == 0 ==> *final(app_state) == *old(app_state),
        final(signals).wins@.len() == 0,
        final(signals).level_selects@ == old(signals).level_selects@,
{
    if wins_pending(signals) {
        *app_state = AppState::MainArea;
    }
    signals.wins.clear();
}

fn wins_pending(signals: &StepSignals) -> (r: bool)
    ensures
        r == (signals.wins@.len() > 0),
{
    signals.wins.len() > 0
}

/// Consume pending level-select signals: the last one wins, the outer
/// driver enters that level.
pub fn check_if_level_changed(
    signals: &mut StepSignals,
    level_idx: &mut LevelIndex,
    app_state: &mut AppState,
)
    ensures
        old(signals).level_selects@.len() > 0 ==> *final(app_state) == AppState::Game
            && final(level_idx).0 == old(signals).level_selects@.last().0,
        old(signals).level_selects@.len() == 0 ==> *final(app_state) == *old(app_state)
            && *final(level_idx) == *old(level_idx),
        final(signals).level_selects@.len() == 0,
        final(signals).wins@ == old(signals).wins@,
{
    let n = signals.level_selects.len();
    if n > 0 {
        *app_state = AppState::Game;
        level_idx.0 = signals.level_selects[n - 1].0;
    }
    signals.level_selects.clear();
}

/// The snapshot one recording pass appends: every tile's id, position, kind
/// and flip flag, in arena order.
pub open spec fn snapshot_frame(tiles: Seq<Tile>) -> Seq<RecordData> {
    tiles.map_values(
        |t: Tile| RecordData { id: t.id, pos: t.pos, block_type: t.block, flip_sprite: t.flip_x },
    )
}

/// The history after one recording pass over `tiles`: the snapshot is
/// appended to the frame under the head (pruning any redo future); with no
/// open frame a fresh one is opened.
pub open spec fn recorded_frames(frames: Seq<Seq<RecordData>>, head: int, tiles: Seq<Tile>) -> Seq<
    Seq<RecordData>,
> {
    if tiles.len() == 0 {
        frames
    } else if head > 0 {
        frames.subrange(0, head).update(head - 1, frames[head - 1] + snapshot_frame(tiles))
    } else {
        seq![snapshot_frame(tiles)]
    }
}

pub open spec fn recorded_head(head: int, tiles: Seq<Tile>) -> int {
    if tiles.len() > 0 && head == 0 {
        1
    } else {
        head
    }
}

/// Write one snapshot of every tile into the frame under the head,
/// pruning any redo future; with no open frame, one is opened. This is
/// the raw capture; `record_world` guards it with the step protocol.
pub fn capture_world(world: &World, world_recorder: &mut WorldRecorder)
    requires
        wf_world(world.tiles@),
        wf_recorder(*old(world_recorder)),
    ensures
        wf_recorder(*final(world_recorder)),
        final(world_recorder).record == old(world_recorder).record,
        final(world_recorder).user_input == old(world_recorder).user_input,
        rec_view(final(world_recorder).records@) == recorded_frames(
            rec_view(old(world_recorder).records@),
            old(world_recorder).head_len as int,
            world.tiles@,
        ),
        final(world_recorder).head_len == recorded_head(
            old(world_recorder).head_len as int,
            world.tiles@,
        ),
{
    let n = world.tiles.len();
    let ghost h0: int = if old(world_recorder).head_len > 0 {
        old(world_recorder).head_len as int
    } else {
        1
    };
    let ghost pre: Seq<Seq<RecordData>> = if old(world_recorder).head_len > 0 {
        rec_view(old(world_recorder).records@).subrange(0, h0)
    } else {
        seq![Seq::<RecordData>::empty()]
    };
    for i in 0..n
        invariant
            n == world.tiles@.len(),
            wf_world(world.tiles@),
            wf_recorder(*world_recorder),
            world_recorder.user_input == old(world_recorder).user_input,
            world_recorder.record == old(world_recorder).record,
            pre.len() == h0,
            h0 >= 1,
            old(world_recorder).head_len > 0 ==> h0 == old(world_recorder).head_len && pre
                == rec_view(old(world_recorder).records@).subrange(0, h0),
            old(world_recorder).head_len == 0 ==> h0 == 1 && pre == seq![
                Seq::<RecordData>::empty(),
            ],
            i == 0 ==> *world_recorder == *old(world_recorder),
            i > 0 ==> world_recorder.head_len == h0 && rec_view(world_recorder.records@)
                == pre.update(
                h0 - 1,
                pre[h0 - 1] + snapshot_frame(world.tiles@.subrange(0, i as int)),
            ),
    {
        let t = world.tiles[i];
        let ghost before = *world_recorder;
        world_recorder.push(t.id, t.pos, t.block, t.flip_x);
        proof {
            let d = RecordData { id: t.id, pos: t.pos, block_type: t.block, flip_sprite: t.flip_x };
            let snap_next = snapshot_frame(world.tiles@.subrange(0, i + 1));
            if i == 0 {
                if before.head_len > 0 {
                    assert(pre[h0 - 1] == rec_view(before.records@)[h0 - 1]);
                    assert(pre[h0 - 1] + snap_next =~= rec_view(before.records@)[h0 - 1].push(d));
                    assert(rec_view(world_recorder.records@) =~= pre.update(
                        h0 - 1,
                        pre[h0 - 1] + snap_next,
                    ));
                } else {
                    assert(pre[0] + snap_next =~= seq![d]);
                    assert(rec_view(world_recorder.records@) =~= pre.update(
                        h0 - 1,
                        pre[0] + snap_next,
                    ));
                }
            } else {
                let g = pre[h0 - 1] + snapshot_frame(world.tiles@.subrange(0, i as int));
                assert(rec_view(before.records@) == pre.update(h0 - 1, g));
                assert(rec_view(before.records@).len() == h0);
                assert(rec_view(before.records@).subrange(0, h0) =~= rec_view(before.records@));
                assert(rec_view(before.records@)[h0 - 1] == g);
                assert(g.push(d) =~= pre[h0 - 1] + snap_next);
                assert(rec_view(world_recorder.records@) =~= pre.update(h0 - 1, pre[h0 - 1]
                    + snap_next));
            }
        }
    }
    proof {
        if n > 0 {
            assert(world.tiles@.subrange(0, n as int) =~= world.tiles@);
        }
    }
}

/// Capture one full-world snapshot, but only in a step that both saw real
/// user input and is still armed for recording; each history slot is
/// recorded at most once.
pub fn record_world(world: &World, world_recorder: &mut WorldRecorder)
    requires
        wf_world(world.tiles@),
        wf_recorder(*old(world_recorder)),
    ensures
        wf_recorder(*final(world_recorder)),
        !(old(world_recorder).user_input && old(world_recorder).record) ==> *final(world_recorder)
            == *old(world_recorder),
        (old(world_recorder).user_input && old(world_recorder).record) ==> {
            &&& final(world_recorder).record == false
            &&& final(world_recorder).user_input == old(world_recorder).user_input
            &&& rec_view(final(world_recorder).records@) == recorded_frames(
                rec_view(old(world_recorder).records@),
                old(world_recorder).head_len as int,
                world.tiles@,
            )
            &&& final(world_recorder).head_len == recorded_head(
                old(world_recorder).head_len as int,
                world.tiles@,
            )
        },
{
    if !world_recorder.user_input || !world_recorder.record {
        return ;
    }
    capture_world(world, world_recorder);
    world_recorder.record = false;
}

/// The last snapshot row for `id` inside a frame, if any.
pub open spec fn last_record_for(frame: Seq<RecordData>, id: u64) -> Option<RecordData>
    decreases frame.len(),
{
    if frame.len() == 0 {
        None
    } else if frame.last().id == id {
        Some(frame.last())
    } else {
        last_record_for(frame.drop_last(), id)
    }
}

/// One tile after a frame is force-applied: kind, flip flag and motion
/// target come from its recorded row (the tile animates back, so only the
/// target moves), or the tile is untouched when the frame never knew it.
pub open spec fn restore_tile(t: Tile, frame: Seq<RecordData>) -> Tile {
    match last_record_for(frame, t.id) {
        Option::Some(d) => Tile {
            id: t.id,
            block: d.block_type,
            text: t.text,
            pos: t.pos,
            mover: Mover { target: d.pos, complete: false },
            flip_x: d.flip_sprite,
        },
        Option::None => t,
    }
}

fn find_last_record(frame: &Vec<RecordData>, id: u64) -> (r: Option<RecordData>)
    ensures
        r == last_record_for(frame@, id),
{
    let m = frame.len();
    let mut found: Option<RecordData> = None;
    proof {
        assert(frame@.subrange(0, 0) =~= Seq::<RecordData>::empty());
    }
    for j in 0..m
        invariant
            m == frame@.len(),
            found == last_record_for(frame@.subrange(0, j as int), id),
    {
        proof {
            assert(frame@.subrange(0, j + 1).drop_last() =~= frame@.subrange(0, j as int));
            assert(frame@.subrange(0, j + 1).last() == frame@[j as int]);
        }
        if frame[j].id == id {
            found = Some(frame[j]);
        }
    }
    proof {
        assert(frame@.subrange(0, m as int) =~= frame@);
    }
    found
}

/// Rewrite the world from the frame under the recorder's head. Runs only
/// when the step neither recorded nor saw fresh input (undo/redo steps),
/// so a restoration never piles up on a recording in progress.
pub fn apply_record_to_world(world: &mut World, world_recorder: &WorldRecorder)
    requires
        wf_world(old(world).tiles@),
        wf_recorder(*world_recorder),
    ensures
        wf_world(final(world).tiles@),
        (world_recorder.user_input || world_recorder.record || world_recorder.head_len == 0)
            ==> final(world).tiles@ == old(world).tiles@,
        (!world_recorder.user_input && !world_recorder.record && world_recorder.head_len > 0)
            ==> final(world).tiles@ == old(world).tiles@.map_values(
            |t: Tile|
                restore_tile(t, rec_view(world_recorder.records@)[world_recorder.head_len - 1]),
        ),
{
    if world_recorder.user_input || world_recorder.record {
        return ;
    }
    let frame = match world_recorder.get() {
        Option::Some(f) => f,
        Option::None => {
            return ;
        },
    };
    let ghost fr = rec_view(world_recorder.records@)[world_recorder.head_len - 1];
    let n = world.tiles.len();
    for i in 0..n
        invariant
            n == world.tiles@.len(),
            world.tiles@.len() == old(world).tiles@.len(),
            wf_world(old(world).tiles@),
            frame@ == fr,
            wf_frame(fr),
            forall|j: int|
                0 <= j < world.tiles@.len() ==> crate::game_logic_types::tile_ok(
                    #[trigger] world.tiles@[j],
                ),
            forall|j: int|
                0 <= j < i ==> world.tiles@[j] == restore_tile(#[trigger] old(world).tiles@[j], fr),
            forall|j: int| i <= j < n ==> world.tiles@[j] == #[trigger] old(world).tiles@[j],
    {
        let t = world.tiles[i];
        match find_last_record(frame, t.id) {
            Option::Some(d) => {
                proof {
                    lemma_last_record_in_frame(fr, t.id);
                    let k = choose|k: int| 0 <= k < fr.len() && fr[k] == d;
                    assert(crate::game_logic_types::pos_ok(fr[k].pos));
                }
                world.tiles.set(
                    i,
                    Tile {
                        id: t.id,
                        block: d.block_type,
                        text: t.text,
                        pos: t.pos,
                        mover: Mover { target: d.pos, complete: false },
                        flip_x: d.flip_sprite,
                    },
                );
            },
            Option::None => {},
        }
    }
    proof {
        assert(world.tiles@ =~= old(world).tiles@.map_values(|t: Tile| restore_tile(t, fr)));
        assert forall|i: int, j: int|
            0 <= i < world.tiles@.len() && 0 <= j < world.tiles@.len() && i != j implies (
        #[trigger] world.tiles@[i]).id != (#[trigger] world.tiles@[j]).id by {
            assert(old(world).tiles@[i].id != old(world).tiles@[j].id);
        }
    }
}

/// The fixed viewport the playfield is centred in, in position units.
pub const CAMERA_WIDTH: i32 = 640;

pub const CAMERA_HEIGHT: i32 = 360;

/// The offset that centres a playfield axis of pixel size `size + 16` in a
/// viewport axis of size `cam`: `-(size - cam) / 2`.
pub open spec fn centre_offset(size: int, cam: int) -> int {
    -((size - cam) / 2)
}

pub open spec fn level_offset(width: int, height: int) -> Pos {
    Pos {
        x: centre_offset(width - 16, CAMERA_WIDTH as int) as i32,
        y: centre_offset(height - 16, CAMERA_HEIGHT as int) as i32,
    }
}

pub open spec fn add_pos(p: Pos, off: Pos) -> Pos {
    Pos { x: (p.x + off.x) as i32, y: (p.y + off.y) as i32 }
}

/// The constraint region a level spans: its lower-left cell at the centring
/// offset, its upper-right cell at offset plus size.
pub open spec fn level_constraints(width: int, height: int) -> Constraints {
    Constraints {
        start: level_offset(width, height),
        end: add_pos(
            Pos { x: (width - 16) as i32, y: (height - 16) as i32 },
            level_offset(width, height),
        ),
    }
}

/// The object tiles a level spawns, ids handed out from `base` in list
/// order, every tile settled at its own cell.
pub open spec fn spawn_block_tiles(
    bs: Seq<(crate::game_logic_types::Block, Pos)>,
    off: Pos,
    base: int,
) -> Seq<Tile> {
    Seq::new(
        bs.len(),
        |i: int|
            Tile {
                id: (base + i) as u64,
                block: bs[i].0,
                text: Option::None,
                pos: add_pos(bs[i].1, off),
                mover: Mover { target: add_pos(bs[i].1, off), complete: true },
                flip_x: false,
            },
    )
}

/// The word tiles a level spawns, after the object tiles.
pub open spec fn spawn_text_tiles(
    ts: Seq<(crate::game_logic_types::TextBlock, Pos)>,
    off: Pos,
    base: int,
) -> Seq<Tile> {
    Seq::new(
        ts.len(),
        |i: int|
            Tile {
                id: (base + i) as u64,
                block: crate::game_logic_types::Block::Text,
                text: Option::Some(ts[i].0),
                pos: add_pos(ts[i].1, off),
                mover: Mover { target: add_pos(ts[i].1, off), complete: true },
                flip_x: false,
            },
    )
}

fn centre_coord(size_px: usize, cam: i32) -> (r: i32)
    requires
        16 <= size_px <= 65536,
        size_px % 16 == 0,
        cam == 640 || cam == 360,
    ensures
        r == centre_offset(size_px - 16, cam as int),
{
    let size = size_px - 16;
    if size >= cam as usize {
        let d = (size - cam as usize) / 2;
        proof {
            assert(size % 2 == 0 && cam % 2 == 0);
        }
        0i32 - (d as i32)
    } else {
        let d = (cam as usize - size) / 2;
        proof {
            assert(size % 2 == 0 && cam % 2 == 0);
        }
        d as i32
    }
}

/// Build the live world and playfield constraints for one loaded level:
/// the level is centred in the viewport, its object tiles spawn first and
/// its word tiles after, with fresh ids from 1 (id 0 stays reserved for
/// intents not tied to a tile), and everything starts settled.
pub fn setup_world(level: &crate::loading_levels::LevelData) -> (r: (World, Constraints))
    requires
        crate::loading_levels::wf_level(*level),
    ensures
        r.1 == level_constraints(level.width as int, level.height as int),
        wf_constraints(r.1),
        r.0.tiles@ == spawn_block_tiles(
            level.blocks@,
            level_offset(level.width as int, level.height as int),
            1,
        ) + spawn_text_tiles(
            level.text_blocks@,
            level_offset(level.width as int, level.height as int),
            1 + level.blocks@.len() as int,
        ),
        wf_world(r.0.tiles@),
        all_settled(r.0.tiles@),
{
    let off_x = centre_coord(level.width, CAMERA_WIDTH);
    let off_y = centre_coord(level.height, CAMERA_HEIGHT);
    let off = Pos { x: off_x, y: off_y };
    let ghost offs = level_offset(level.width as int, level.height as int);
    proof {
        assert(off == offs);
        assert(-33000 <= off.x as int <= 33000 && -33000 <= off.y as int <= 33000);
    }
    let constraints = Constraints {
        start: off,
        end: Pos { x: (level.width - 16) as i32 + off_x, y: (level.height - 16) as i32 + off_y },
    };
    let mut tiles: Vec<Tile> = Vec::new();
    let mut next_id: u64 = 1;
    let nb = level.blocks.len();
    for i in 0..nb
        invariant
            nb == level.blocks@.len(),
            crate::loading_levels::wf_level(*level),
            off == offs,
            -33000 <= off.x as int <= 33000,
            -33000 <= off.y as int <= 33000,
            next_id == 1 + i,
            tiles@ == spawn_block_tiles(level.blocks@.subrange(0, i as int), offs, 1),
    {
        let (b, p) = level.blocks[i];
        tiles.push(
            Tile {
                id: next_id,
                block: b,
                text: None,
                pos: Pos { x: p.x + off.x, y: p.y + off.y },
                mover: Mover {
                    target: Pos { x: p.x + off.x, y: p.y + off.y },
                    complete: true,
                },
                flip_x: false,
            },
        );
        next_id = next_id + 1;
        proof {
            assert(tiles@ =~= spawn_block_tiles(level.blocks@.subrange(0, i + 1), offs, 1));
        }
    }
    proof {
        assert(level.blocks@.subrange(0, nb as int) =~= level.blocks@);
    }
    let nt = level.text_blocks.len();
    for i in 0..nt
        invariant
            nt == level.text_blocks@.len(),
            nb == level.blocks@.len(),
            crate::loading_levels::wf_level(*level),
            off == offs,
            -33000 <= off.x as int <= 33000,
            -33000 <= off.y as int <= 33000,
            next_id == 1 + nb + i,
            tiles@ == spawn_block_tiles(level.blocks@, offs, 1) + spawn_text_tiles(
                level.text_blocks@.subrange(0, i as int),
                offs,
                1 + nb as int,
            ),
    {
        let (w, p) = level.text_blocks[i];
        tiles.push(
            Tile {
                id: next_id,
                block: crate::game_logic_types::Block::Text,
                text: Some(w),
                pos: Pos { x: p.x + off.x, y: p.y + off.y },
                mover: Mover {
                    target: Pos { x: p.x + off.x, y: p.y + off.y },
                    complete: true,
                },
                flip_x: false,
            },
        );
        next_id = next_id + 1;
        proof {
            assert(tiles@ =~= spawn_block_tiles(level.blocks@, offs, 1) + spawn_text_tiles(
                level.text_blocks@.subrange(0, i + 1),
                offs,
                1 + nb as int,
            ));
        }
    }
    proof {
        assert(level.text_blocks@.subrange(0, nt as int) =~= level.text_blocks@);
        let all = spawn_block_tiles(level.blocks@, offs, 1) + spawn_text_tiles(
            level.text_blocks@,
            offs,
            1 + nb as int,
        );
        assert(tiles@ =~= all);
        assert forall|i: int, j: int|
            0 <= i < all.len() && 0 <= j < all.len() && i != j implies (#[trigger] all[i]).id != (
        #[trigger] all[j]).id by {
            assert(all[i].id == 1 + i && all[j].id == 1 + j);
        }
        assert forall|i: int| 0 <= i < all.len() implies crate::game_logic_types::tile_ok(
            #[trigger] all[i],
        ) by {}
        assert forall|i: int| 0 <= i < all.len() implies (#[trigger] all[i]).mover.complete by {}
    }
    (World { tiles }, constraints)
}

/// The snapshot of a well-formed arena answers each tile's id with that
/// tile's own recorded row.
pub proof fn lemma_snapshot_lookup(ts: Seq<Tile>, i: int)
    requires
        wf_world(ts),
        0 <= i < ts.len(),
    ensures
        last_record_for(snapshot_frame(ts), ts[i].id) == Some(
            RecordData {
                id: ts[i].id,
                pos: ts[i].pos,
                block_type: ts[i].block,
                flip_sprite: ts[i].flip_x,
            },
        ),
    decreases ts.len(),
{
    let frame = snapshot_frame(ts);
    assert(frame.last() == RecordData {
        id: ts[ts.len() - 1].id,
        pos: ts[ts.len() - 1].pos,
        block_type: ts[ts.len() - 1].block,
        flip_sprite: ts[ts.len() - 1].flip_x,
    });
    if i == ts.len() - 1 {
    } else {
        assert(ts[ts.len() - 1].id != ts[i].id);
        assert(wf_world(ts.drop_last())) by {
            assert(forall|j: int|
                0 <= j < ts.drop_last().len() ==> ts.drop_last()[j] == #[trigger] ts[j]);
        }
        assert(frame.drop_last() =~= snapshot_frame(ts.drop_last()));
        lemma_snapshot_lookup(ts.drop_last(), i);
        assert(ts.drop_last()[i] == ts[i]);
    }
}

/// Law: undo after one recorded step restores the pre-step snapshot. If a
/// frame was captured from arena `before`, force-applying that frame to any
/// later arena with the same tiles (same ids, same order) hands every tile
/// its recorded kind and flip flag back and sends its motion to the
/// recorded position, so that once the motion settles each tile stands
/// exactly where the snapshot had it.
pub proof fn lemma_restore_recorded(before: Seq<Tile>, now: Seq<Tile>)
    requires
        wf_world(before),
        now.len() == before.len(),
        forall|i: int| 0 <= i < now.len() ==> (#[trigger] now[i]).id == before[i].id,
    ensures
        forall|i: int|
            0 <= i < now.len() ==> {
                let rt = restore_tile(#[trigger] now[i], snapshot_frame(before));
                rt.block == before[i].block && rt.flip_x == before[i].flip_x && rt.mover.target
                    == before[i].pos && rt.mover.complete == false && settle_tile(rt).pos
                    == before[i].pos
            },
{
    assert forall|i: int| 0 <= i < now.len() implies {
        let rt = restore_tile(#[trigger] now[i], snapshot_frame(before));
        rt.block == before[i].block && rt.flip_x == before[i].flip_x && rt.mover.target
            == before[i].pos && rt.mover.complete == false && settle_tile(rt).pos == before[i].pos
    } by {
        lemma_snapshot_lookup(before, i);
    }
}

/// Law: moving the history head never mutates the frame list, and with
/// history on both sides the two orders of undo and redo both return to
/// the starting head: the round trip is the identity.
pub proof fn lemma_undo_redo_round_trip(h: int, len: int)
    requires
        1 <= h < len,
    ensures
        ({
            let hu = if h > 0 {
                h - 1
            } else {
                0int
            };
            let hur = if hu < len {
                hu + 1
            } else {
                hu
            };
            hur == h
        }),
        ({
            let hr = if h < len {
                h + 1
            } else {
                h
            };
            let hru = if hr > 0 {
                hr - 1
            } else {
                0int
            };
            hru == h
        }),
{
}

/// Law: recording only ever captures a step that saw real directional
/// input. A step whose input flag stayed clear neither prunes the history
/// nor opens a new frame: the step protocol leaves the frame list exactly
/// as it was.
pub proof fn lemma_no_input_no_frame(r: WorldRecorder)
    requires
        !r.user_input,
    ensures
        crate::resolve::reset_frames(r) == rec_view(r.records@),
        crate::resolve::reset_head(r) == r.head_len,
{
}

/// A row found for an id really sits in the frame (so its position obeys
/// the frame's bounds).
pub proof fn lemma_last_record_in_frame(frame: Seq<RecordData>, id: u64)
    ensures
        match last_record_for(frame, id) {
            Option::Some(d) => frame.contains(d) && d.id == id,
            Option::None => true,
        },
    decreases frame.len(),
{
    if frame.len() > 0 {
        if frame.last().id == id {
            assert(frame[frame.len() - 1] == frame.last());
        } else {
            lemma_last_record_in_frame(frame.drop_last(), id);
            match last_record_for(frame.drop_last(), id) {
                Option::Some(d) => {
                    let k = choose|k: int|
                        0 <= k < frame.drop_last().len() && frame.drop_last()[k] == d;
                    assert(frame[k] == d);
                },
                Option::None => {},
            }
        }
    }
}

} // verus!
