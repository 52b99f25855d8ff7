//! Resolution of one step's action queue: push chains, sink and win checks,
//! level selection, kind transmutation, and the atomic commit that writes
//! motion targets, rewrites kinds and removes deleted tiles.

use vstd::prelude::*;

use crate::game_logic::{check_all_settled, in_bounds, snapshot_index};
use crate::game_logic_types::{
    all_settled, ba_view, entries_at, has_attr, pos_ok, rec_view, tile_ok, wf_constraints,
    wf_queue, wf_recorder, wf_tile_map, wf_world, Attribute, Block, BlockAttributes,
    BlockDirection, Constraints, Mover, PlayerHasWon, PlayerLevelSelect, Pos, Queue, QueueEntry,
    QueueType, RecordData, StepInput, StepSignals, Tile, TileInfo, TileMap, World, WorldRecorder,
};
use crate::push_chain::{chain_from, check_for_pushable_tiles, step_pos, step_position};

verus! {

/// The movers one queue entry contributes: a directionless move re-targets
/// the tile at its own cell; a directional move contributes its whole chain,
/// or nothing when the chain is discarded.
pub open spec fn entry_moveables(
    tm: Seq<TileInfo>,
    ba: Seq<(Block, Seq<Attribute>)>,
    c: Constraints,
    e: QueueEntry,
) -> Seq<(u64, Pos)> {
    match e.queue_type {
        QueueType::Move(d, origin) => {
            if d == BlockDirection::Still {
                seq![(e.id, origin)]
            } else {
                match chain_from(tm, ba, c, step_pos(origin, d), d) {
                    Option::Some(rest) => seq![(e.id, step_pos(origin, d))] + rest,
                    Option::None => Seq::empty(),
                }
            }
        },
        _ => Seq::empty(),
    }
}

pub open spec fn moveables_spec(
    tm: Seq<TileInfo>,
    ba: Seq<(Block, Seq<Attribute>)>,
    c: Constraints,
    q: Seq<QueueEntry>,
) -> Seq<(u64, Pos)>
    decreases q.len(),
{
    if q.len() == 0 {
        Seq::empty()
    } else {
        moveables_spec(tm, ba, c, q.drop_last()) + entry_moveables(tm, ba, c, q.last())
    }
}

/// A sink check fires when any occupant of the cell carries a player,
/// pushable or blocking attribute; it then marks every occupant of the
/// cell for deletion.
pub open spec fn sink_relevant(ba: Seq<(Block, Seq<Attribute>)>, b: Block) -> bool {
    has_attr(ba, b, Attribute::You) || has_attr(ba, b, Attribute::Push) || has_attr(
        ba,
        b,
        Attribute::Stop,
    )
}

pub open spec fn sink_fires(tm: Seq<TileInfo>, ba: Seq<(Block, Seq<Attribute>)>, p: Pos) -> bool {
    exists|i: int|
        0 <= i < entries_at(tm, p).len() && sink_relevant(ba, (#[trigger] entries_at(tm, p)[i]).2)
}

pub open spec fn entry_sink(
    tm: Seq<TileInfo>,
    ba: Seq<(Block, Seq<Attribute>)>,
    e: QueueEntry,
) -> Seq<u64> {
    match e.queue_type {
        QueueType::Sink(p) => if sink_fires(tm, ba, p) {
            entries_at(tm, p).map_values(|t: TileInfo| t.0)
        } else {
            Seq::empty()
        },
        _ => Seq::empty(),
    }
}

pub open spec fn sink_spec(
    tm: Seq<TileInfo>,
    ba: Seq<(Block, Seq<Attribute>)>,
    q: Seq<QueueEntry>,
) -> Seq<u64>
    decreases q.len(),
{
    if q.len() == 0 {
        Seq::empty()
    } else {
        sink_spec(tm, ba, q.drop_last()) + entry_sink(tm, ba, q.last())
    }
}

pub open spec fn delete_spec(q: Seq<QueueEntry>) -> Seq<u64>
    decreases q.len(),
{
    if q.len() == 0 {
        Seq::empty()
    } else {
        delete_spec(q.drop_last()) + (match q.last().queue_type {
            QueueType::Delete => seq![q.last().id],
            _ => Seq::empty(),
        })
    }
}

/// A win check fires when any occupant of the cell is player-controlled.
pub open spec fn win_fires(tm: Seq<TileInfo>, ba: Seq<(Block, Seq<Attribute>)>, p: Pos) -> bool {
    exists|i: int|
        0 <= i < entries_at(tm, p).len() && has_attr(
            ba,
            (#[trigger] entries_at(tm, p)[i]).2,
            Attribute::You,
        )
}

pub open spec fn wins_spec(
    tm: Seq<TileInfo>,
    ba: Seq<(Block, Seq<Attribute>)>,
    q: Seq<QueueEntry>,
) -> nat
    decreases q.len(),
{
    if q.len() == 0 {
        0
    } else {
        wins_spec(tm, ba, q.drop_last()) + (match q.last().queue_type {
            QueueType::WinOn(p) => if win_fires(tm, ba, p) {
                1nat
            } else {
                0nat
            },
            _ => 0nat,
        })
    }
}

/// A level-select check fires only on a cell shared by more than one tile,
/// one of which is player-controlled: a lone select tile never triggers
/// itself.
pub open spec fn select_fires(tm: Seq<TileInfo>, ba: Seq<(Block, Seq<Attribute>)>, p: Pos) -> bool {
    entries_at(tm, p).len() >= 2 && win_fires(tm, ba, p)
}

pub open spec fn selects_spec(
    tm: Seq<TileInfo>,
    ba: Seq<(Block, Seq<Attribute>)>,
    q: Seq<QueueEntry>,
) -> Seq<usize>
    decreases q.len(),
{
    if q.len() == 0 {
        Seq::empty()
    } else {
        selects_spec(tm, ba, q.drop_last()) + (match q.last().queue_type {
            QueueType::LevelSelect(p, n) => if select_fires(tm, ba, p) {
                seq![n]
            } else {
                Seq::empty()
            },
            _ => Seq::empty(),
        })
    }
}

/// The target of the first transmutation queued for `from`; later edges for
/// the same source kind are ignored, never overwriting the first.
pub open spec fn first_change_for(q: Seq<QueueEntry>, from: Block) -> Option<Block>
    decreases q.len(),
{
    if q.len() == 0 {
        None
    } else {
        match q[0].queue_type {
            QueueType::ChangeBlock(f, t) => if f == from {
                Some(t)
            } else {
                first_change_for(q.skip(1), from)
            },
            _ => first_change_for(q.skip(1), from),
        }
    }
}

/// The last mover entry naming `id`.
pub open spec fn last_move_for(ms: Seq<(u64, Pos)>, id: u64) -> Option<Pos>
    decreases ms.len(),
{
    if ms.len() == 0 {
        None
    } else if ms.last().0 == id {
        Some(ms.last().1)
    } else {
        last_move_for(ms.drop_last(), id)
    }
}

/// One tile after the commit phase: its kind follows the first transmutation
/// queued for it, and a mover entry re-targets it unless it is still
/// mid-motion, in which case the command is dropped. Removal by delete
/// intents and sink marks happens after this rewrite.
pub open spec fn commit_tile(
    t: Tile,
    q: Seq<QueueEntry>,
    tm: Seq<TileInfo>,
    ba: Seq<(Block, Seq<Attribute>)>,
    c: Constraints,
) -> Tile {
    let b1 = match first_change_for(q, t.block) {
        Option::Some(to) => to,
        Option::None => t.block,
    };
    let mover = match last_move_for(moveables_spec(tm, ba, c, q), t.id) {
        Option::Some(pnew) => if t.mover.complete {
            Mover { target: pnew, complete: false }
        } else {
            t.mover
        },
        Option::None => t.mover,
    };
    Tile { id: t.id, block: b1, text: t.text, pos: t.pos, mover, flip_x: t.flip_x }
}

/// The arena once every tile named by a delete intent is removed.
pub open spec fn remove_deleted(ts: Seq<Tile>, dels: Seq<u64>) -> Seq<Tile>
    decreases ts.len(),
{
    if ts.len() == 0 {
        Seq::empty()
    } else {
        let rest = remove_deleted(ts.drop_last(), dels);
        if dels.contains(ts.last().id) {
            rest
        } else {
            rest.push(ts.last())
        }
    }
}

/// A mover entry found for an id is one of the list's entries.
pub proof fn lemma_last_move_in(ms: Seq<(u64, Pos)>, id: u64)
    ensures
        match last_move_for(ms, id) {
            Option::Some(p) => exists|i: int| 0 <= i < ms.len() && #[trigger] ms[i] == (id, p),
            Option::None => true,
        },
    decreases ms.len(),
{
    if ms.len() > 0 {
        if ms.last().0 == id {
            assert(ms[ms.len() - 1] == (id, ms.last().1));
        } else {
            lemma_last_move_in(ms.drop_last(), id);
            match last_move_for(ms.drop_last(), id) {
                Option::Some(p) => {
                    let i = choose|i: int|
                        0 <= i < ms.drop_last().len() && #[trigger] ms.drop_last()[i] == (id, p);
                    assert(ms[i] == (id, p));
                },
                Option::None => {},
            }
        }
    }
}

/// Every mover entry the queue resolution produces names a legal position.
pub proof fn lemma_moveables_ok(
    tm: Seq<TileInfo>,
    ba: Seq<(Block, Seq<Attribute>)>,
    c: Constraints,
    q: Seq<QueueEntry>,
)
    requires
        wf_constraints(c),
        wf_queue(q),
    ensures
        forall|i: int|
            0 <= i < moveables_spec(tm, ba, c, q).len() ==> pos_ok(
                (#[trigger] moveables_spec(tm, ba, c, q)[i]).1,
            ),
    decreases q.len(),
{
    if q.len() > 0 {
        assert(wf_queue(q.drop_last())) by {
            assert(forall|i: int|
                0 <= i < q.drop_last().len() ==> q.drop_last()[i] == #[trigger] q[i]);
        }
        lemma_moveables_ok(tm, ba, c, q.drop_last());
        let e = q.last();
        assert(e == q[q.len() - 1]);
        assert(crate::game_logic_types::entry_ok(e));
        let pre = moveables_spec(tm, ba, c, q.drop_last());
        let em = entry_moveables(tm, ba, c, e);
        assert(moveables_spec(tm, ba, c, q) == pre + em);
        assert forall|i: int|
            0 <= i < em.len() implies pos_ok((#[trigger] em[i]).1) by {
            match e.queue_type {
                QueueType::Move(d, origin) => {
                    if d == BlockDirection::Still {
                        assert(em[0] == (e.id, origin));
                    } else {
                        let p0 = step_pos(origin, d);
                        match chain_from(tm, ba, c, p0, d) {
                            Option::Some(rest) => {
                                assert(crate::game_logic::in_bounds(p0, c));
                                assert(pos_ok(p0));
                                crate::push_chain::lemma_chain_positions_ok(tm, ba, c, p0, d);
                                assert(em == seq![(e.id, p0)] + rest);
                                if i > 0 {
                                    assert(em[i] == rest[i - 1]);
                                }
                            },
                            Option::None => {},
                        }
                    }
                },
                _ => {},
            }
        }
        assert forall|i: int|
            0 <= i < moveables_spec(tm, ba, c, q).len() implies pos_ok(
            (#[trigger] moveables_spec(tm, ba, c, q)[i]).1,
        ) by {
            if i < pre.len() {
                assert(moveables_spec(tm, ba, c, q)[i] == pre[i]);
            } else {
                assert(moveables_spec(tm, ba, c, q)[i] == em[i - pre.len()]);
            }
        }
    }
}

fn find_last_move(ms: &Vec<(u64, Pos)>, id: u64) -> (r: Option<Pos>)
    ensures
        r == last_move_for(ms@, id),
{
    let n = ms.len();
    let mut found: Option<Pos> = None;
    proof {
        assert(ms@.subrange(0, 0) =~= Seq::<(u64, Pos)>::empty());
    }
    for j in 0..n
        invariant
            n == ms@.len(),
            found == last_move_for(ms@.subrange(0, j as int), id),
    {
        proof {
            assert(ms@.subrange(0, j + 1).drop_last() =~= ms@.subrange(0, j as int));
            assert(ms@.subrange(0, j + 1).last() == ms@[j as int]);
        }
        if ms[j].0 == id {
            found = Some(ms[j].1);
        }
    }
    proof {
        assert(ms@.subrange(0, n as int) =~= ms@);
    }
    found
}

fn ids_contain(ids: &Vec<u64>, id: u64) -> (r: bool)
    ensures
        r == ids@.contains(id),
{
    let n = ids.len();
    for i in 0..n
        invariant
            n == ids@.len(),
            forall|j: int| 0 <= j < i ==> ids@[j] != id,
    {
        if ids[i] == id {
            proof {
                assert(ids@[i as int] == id);
            }
            return true;
        }
    }
    false
}

/// The first transmutation target queued for `from`, if any.
pub fn first_change_for_block(queue: &Queue, from: Block) -> (r: Option<Block>)
    ensures
        r == first_change_for(queue.entries@, from),
{
    let n = queue.len();
    proof {
        assert(queue.entries@.skip(0) =~= queue.entries@);
    }
    for i in 0..n
        invariant
            n == queue.entries@.len(),
            first_change_for(queue.entries@, from) == first_change_for(
                queue.entries@.skip(i as int),
                from,
            ),
    {
        proof {
            assert(queue.entries@.skip(i as int)[0] == queue.entries@[i as int]);
            assert(queue.entries@.skip(i as int).skip(1) =~= queue.entries@.skip(i + 1));
        }
        match queue.entries[i].queue_type {
            QueueType::ChangeBlock(f, t) => {
                if matches_block(f, from) {
                    return Some(t);
                }
            },
            _ => {},
        }
    }
    proof {
        assert(queue.entries@.skip(n as int) =~= Seq::<QueueEntry>::empty());
    }
    None
}

fn matches_block(a: Block, b: Block) -> (r: bool)
    ensures
        r == (a == b),
{
    a == b
}

fn rows_any_attr(block_attributes: &BlockAttributes, rows: &Vec<TileInfo>, a: Attribute) -> (r:
    bool)
    ensures
        r == exists|j: int|
            0 <= j < rows@.len() && has_attr(
                ba_view(block_attributes.entries@),
                (#[trigger] rows@[j]).2,
                a,
            ),
{
    let n = rows.len();
    for i in 0..n
        invariant
            n == rows@.len(),
            forall|j: int|
                0 <= j < i ==> !has_attr(
                    ba_view(block_attributes.entries@),
                    (#[trigger] rows@[j]).2,
                    a,
                ),
    {
        if crate::push_chain::block_has_attribute(block_attributes, rows[i].2, a) {
            return true;
        }
    }
    false
}

fn rows_any_sinkable(block_attributes: &BlockAttributes, rows: &Vec<TileInfo>) -> (r: bool)
    ensures
        r == exists|j: int|
            0 <= j < rows@.len() && sink_relevant(
                ba_view(block_attributes.entries@),
                (#[trigger] rows@[j]).2,
            ),
{
    let n = rows.len();
    for i in 0..n
        invariant
            n == rows@.len(),
            forall|j: int|
                0 <= j < i ==> !sink_relevant(
                    ba_view(block_attributes.entries@),
                    (#[trigger] rows@[j]).2,
                ),
    {
        let b = rows[i].2;
        if crate::push_chain::block_has_attribute(block_attributes, b, Attribute::You)
            || crate::push_chain::block_has_attribute(block_attributes, b, Attribute::Push)
            || crate::push_chain::block_has_attribute(block_attributes, b, Attribute::Stop) {
            return true;
        }
    }
    false
}

fn push_row_ids(air: &mut Vec<u64>, rows: &Vec<TileInfo>)
    ensures
        final(air)@ == old(air)@ + rows@.map_values(|t: TileInfo| t.0),
{
    let n = rows.len();
    for i in 0..n
        invariant
            n == rows@.len(),
            air@ == old(air)@ + rows@.subrange(0, i as int).map_values(|t: TileInfo| t.0),
    {
        air.push(rows[i].0);
        proof {
            assert(air@ =~= old(air)@ + rows@.subrange(0, i + 1).map_values(|t: TileInfo| t.0));
        }
    }
    proof {
        assert(rows@.subrange(0, n as int) =~= rows@);
    }
}

/// Every index row at a position comes from a tile standing there.
pub proof fn lemma_entries_from_tiles(tiles: Seq<Tile>, p: Pos)
    ensures
        forall|i: int|
            0 <= i < entries_at(snapshot_index(tiles), p).len() ==> exists|j: int|
                0 <= j < tiles.len() && #[trigger] entries_at(snapshot_index(tiles), p)[i] == (
                tiles[j].id,
                tiles[j].pos,
                tiles[j].block,
            ) && tiles[j].pos == p,
    decreases tiles.len(),
{
    if tiles.len() > 0 {
        assert(snapshot_index(tiles).drop_last() =~= snapshot_index(tiles.drop_last()));
        lemma_entries_from_tiles(tiles.drop_last(), p);
        let es = entries_at(snapshot_index(tiles), p);
        let rest = entries_at(snapshot_index(tiles.drop_last()), p);
        let last = snapshot_index(tiles).last();
        assert(last == (tiles[tiles.len() - 1].id, tiles[tiles.len() - 1].pos, tiles[tiles.len()
            - 1].block));
        assert forall|i: int| 0 <= i < es.len() implies exists|j: int|
            0 <= j < tiles.len() && #[trigger] es[i] == (tiles[j].id, tiles[j].pos, tiles[j].block)
                && tiles[j].pos == p by {
            if i < rest.len() {
                assert(es[i] == rest[i]);
                let j = choose|j: int|
                    0 <= j < tiles.drop_last().len() && rest[i] == (
                    tiles.drop_last()[j].id,
                    tiles.drop_last()[j].pos,
                    tiles.drop_last()[j].block,
                ) && tiles.drop_last()[j].pos == p;
                assert(tiles.drop_last()[j] == tiles[j]);
            } else {
                assert(es[i] == last);
            }
        }
    }
}

/// Every pushable row is one of the cell's rows, and pushable.
pub proof fn lemma_pushables_sub(es: Seq<TileInfo>, ba: Seq<(Block, Seq<Attribute>)>)
    ensures
        forall|i: int|
            0 <= i < crate::push_chain::pushables_of(es, ba).len() ==> exists|j: int|
                0 <= j < es.len() && #[trigger] crate::push_chain::pushables_of(es, ba)[i]
                    == es[j],
    decreases es.len(),
{
    if es.len() > 0 {
        lemma_pushables_sub(es.drop_last(), ba);
        let ps = crate::push_chain::pushables_of(es, ba);
        let rest = crate::push_chain::pushables_of(es.drop_last(), ba);
        assert forall|i: int| 0 <= i < ps.len() implies exists|j: int|
            0 <= j < es.len() && #[trigger] ps[i] == es[j] by {
            if i < rest.len() {
                assert(ps[i] == rest[i]);
                let j = choose|j: int| 0 <= j < es.drop_last().len() && rest[i] == es.drop_last()[j];
                assert(ps[i] == es[j]);
            } else {
                assert(ps[i] == es[es.len() - 1]);
            }
        }
    }
}

/// When exactly one mover entry names an id, that entry decides.
pub proof fn lemma_last_move_unique(ms: Seq<(u64, Pos)>, id: u64, idx: int)
    requires
        0 <= idx < ms.len(),
        ms[idx].0 == id,
        forall|j: int| 0 <= j < ms.len() && j != idx ==> (#[trigger] ms[j]).0 != id,
    ensures
        last_move_for(ms, id) == Some(ms[idx].1),
    decreases ms.len(),
{
    if ms.last().0 == id {
        assert(ms[ms.len() - 1].0 == id);
        assert(idx == ms.len() - 1);
    } else {
        assert(idx != ms.len() - 1);
        assert(forall|j: int|
            0 <= j < ms.drop_last().len() ==> (#[trigger] ms.drop_last()[j]) == ms[j]);
        lemma_last_move_unique(ms.drop_last(), id, idx);
    }
}

/// An id no mover entry names keeps its motion record.
pub proof fn lemma_last_move_absent(ms: Seq<(u64, Pos)>, id: u64)
    requires
        forall|j: int| 0 <= j < ms.len() ==> (#[trigger] ms[j]).0 != id,
    ensures
        last_move_for(ms, id) is None,
    decreases ms.len(),
{
    if ms.len() > 0 {
        assert(ms[ms.len() - 1].0 != id);
        assert(forall|j: int|
            0 <= j < ms.drop_last().len() ==> (#[trigger] ms.drop_last()[j]) == ms[j]);
        lemma_last_move_absent(ms.drop_last(), id);
    }
}

/// The id of the single pushable occupant of corridor cell `m`.
pub open spec fn corridor_pushable_id(
    tm: Seq<TileInfo>,
    ba: Seq<(Block, Seq<Attribute>)>,
    p0: Pos,
    d: BlockDirection,
    m: nat,
) -> u64 {
    crate::push_chain::pushables_at(tm, ba, crate::push_chain::cell_n(p0, d, m))[0].0
}

/// An open corridor: cells `1..=k` beyond the origin each lie inside the
/// playfield, hold no blocker and exactly one pushable occupant, and cell
/// `k + 1` is inside the playfield and empty.
pub open spec fn open_corridor(
    tm: Seq<TileInfo>,
    ba: Seq<(Block, Seq<Attribute>)>,
    c: Constraints,
    p0: Pos,
    d: BlockDirection,
    k: nat,
) -> bool {
    &&& forall|m: nat|
        1 <= m <= k ==> in_bounds(#[trigger] crate::push_chain::cell_n(p0, d, m), c)
            && !crate::push_chain::cell_blocked(tm, ba, crate::push_chain::cell_n(p0, d, m))
            && crate::push_chain::pushables_at(tm, ba, crate::push_chain::cell_n(p0, d, m)).len()
            == 1
    &&& in_bounds(crate::push_chain::cell_n(p0, d, (k + 1) as nat), c)
    &&& entries_at(tm, crate::push_chain::cell_n(p0, d, (k + 1) as nat)).len() == 0
}

/// Against an open corridor, the single move intent resolves to exactly
/// `k + 1` mover entries: the mover bound for cell 1, and cell `m`'s
/// occupant bound for cell `m + 1`.
pub proof fn lemma_corridor_moveables(
    tm: Seq<TileInfo>,
    ba: Seq<(Block, Seq<Attribute>)>,
    c: Constraints,
    e: QueueEntry,
    d: BlockDirection,
    p0: Pos,
    k: nat,
)
    requires
        wf_constraints(c),
        pos_ok(p0),
        d != BlockDirection::Still,
        e.queue_type == QueueType::Move(d, p0),
        open_corridor(tm, ba, c, p0, d, k),
    ensures
        moveables_spec(tm, ba, c, seq![e]).len() == 1 + k,
        moveables_spec(tm, ba, c, seq![e])[0] == (e.id, crate::push_chain::cell_n(p0, d, 1)),
        forall|m: nat|
            1 <= m <= k ==> #[trigger] moveables_spec(tm, ba, c, seq![e])[m as int] == (
                corridor_pushable_id(tm, ba, p0, d, m),
                crate::push_chain::cell_n(p0, d, (m + 1) as nat),
            ),
{
    let q = seq![e];
    let emptyq = Seq::<QueueEntry>::empty();
    assert(q.drop_last() =~= emptyq);
    assert(q.last() == e);
    let p1 = step_pos(p0, d);
    assert(crate::push_chain::cell_n(p0, d, 0) == p0);
    assert(crate::push_chain::cell_n(p0, d, 1) == p1);
    assert forall|i: nat| i < k implies crate::push_chain::corridor_cell(
        tm,
        ba,
        c,
        #[trigger] crate::push_chain::cell_n(p1, d, i),
    ) by {
        crate::push_chain::lemma_cell_shift(p0, d, i);
        assert(crate::push_chain::cell_n(p1, d, i) == crate::push_chain::cell_n(p0, d, i + 1));
    }
    crate::push_chain::lemma_cell_shift(p0, d, k);
    assert(crate::push_chain::cell_n(p1, d, k) == crate::push_chain::cell_n(
        p0,
        d,
        (k + 1) as nat,
    ));
    let free = crate::push_chain::cell_n(p1, d, k);
    assert(entries_at(tm, free) =~= Seq::<TileInfo>::empty());
    assert(!crate::push_chain::cell_blocked(tm, ba, free));
    assert(crate::push_chain::pushables_at(tm, ba, free) =~= Seq::<TileInfo>::empty());
    crate::push_chain::lemma_open_corridor_chain(tm, ba, c, p1, d, k);
    assert forall|i: nat| i < k implies crate::push_chain::pushables_at(
        tm,
        ba,
        #[trigger] crate::push_chain::cell_n(p1, d, i),
    ).len() == 1 by {
        crate::push_chain::lemma_cell_shift(p0, d, i);
    }
    crate::push_chain::lemma_corridor_chain_one_each(tm, ba, p1, d, k);
    let chain = crate::push_chain::corridor_chain(tm, ba, p1, d, k);
    let movs = moveables_spec(tm, ba, c, q);
    assert(chain_from(tm, ba, c, p1, d) == Some(chain));
    assert(entry_moveables(tm, ba, c, e) == seq![(e.id, p1)] + chain);
    assert(moveables_spec(tm, ba, c, emptyq) =~= Seq::<(u64, Pos)>::empty());
    assert(movs == moveables_spec(tm, ba, c, q.drop_last()) + entry_moveables(tm, ba, c, q.last()));
    assert(movs =~= seq![(e.id, p1)] + chain);
    assert forall|m: nat| 1 <= m <= k implies #[trigger] movs[m as int] == (
        corridor_pushable_id(tm, ba, p0, d, m),
        crate::push_chain::cell_n(p0, d, (m + 1) as nat),
    ) by {
        assert(movs[m as int] == chain[m - 1]);
        crate::push_chain::lemma_cell_shift(p0, d, (m - 1) as nat);
        crate::push_chain::lemma_cell_shift(p0, d, m);
        assert(chain[m - 1] == (
            crate::push_chain::pushables_at(
                tm,
                ba,
                crate::push_chain::cell_n(p1, d, (m - 1) as nat),
            )[0].0,
            crate::push_chain::cell_n(p1, d, m),
        ));
    }
}

/// The corridor's pushable occupants are distinct tiles, one per cell, and
/// none of them stands where the mover does.
pub proof fn lemma_corridor_occupants(
    tiles: Seq<Tile>,
    ba: Seq<(Block, Seq<Attribute>)>,
    c: Constraints,
    d: BlockDirection,
    p0: Pos,
    k: nat,
    mover_id: u64,
)
    requires
        wf_world(tiles),
        wf_constraints(c),
        pos_ok(p0),
        d != BlockDirection::Still,
        forall|j: int|
            0 <= j < tiles.len() && (#[trigger] tiles[j]).id == mover_id ==> tiles[j].pos == p0,
        open_corridor(snapshot_index(tiles), ba, c, p0, d, k),
    ensures
        forall|j: int, m: nat|
            0 <= j < tiles.len() && 1 <= m <= k && (#[trigger] tiles[j]).id
                == corridor_pushable_id(
                snapshot_index(tiles),
                ba,
                p0,
                d,
                m,
            ) ==> tiles[j].pos == #[trigger] crate::push_chain::cell_n(p0, d, m)
                && tiles[j].id != mover_id,
        forall|m1: nat, m2: nat|
            1 <= m1 <= k && 1 <= m2 <= k && m1 != m2 ==> #[trigger] corridor_pushable_id(
                snapshot_index(tiles),
                ba,
                p0,
                d,
                m1,
            ) != #[trigger] corridor_pushable_id(snapshot_index(tiles), ba, p0, d, m2),
        forall|m: nat|
            1 <= m <= k ==> #[trigger] corridor_pushable_id(snapshot_index(tiles), ba, p0, d, m)
                != mover_id,
{
    let tm = snapshot_index(tiles);
    crate::push_chain::lemma_walk_cells_distinct(p0, d, c, k);
    assert forall|m: nat| 1 <= m <= k implies exists|j: int|
        0 <= j < tiles.len() && (#[trigger] tiles[j]).id == #[trigger] corridor_pushable_id(
            tm,
            ba,
            p0,
            d,
            m,
        ) && tiles[j].pos == crate::push_chain::cell_n(p0, d, m) by {
        let cm = crate::push_chain::cell_n(p0, d, m);
        lemma_pushables_sub(entries_at(tm, cm), ba);
        let i = choose|i: int|
            0 <= i < entries_at(tm, cm).len() && crate::push_chain::pushables_at(tm, ba, cm)[0]
                == entries_at(tm, cm)[i];
        lemma_entries_from_tiles(tiles, cm);
        let j = choose|j: int|
            0 <= j < tiles.len() && entries_at(tm, cm)[i] == (
            tiles[j].id,
            tiles[j].pos,
            tiles[j].block,
        ) && tiles[j].pos == cm;
        assert(tiles[j].id == corridor_pushable_id(tm, ba, p0, d, m));
    }
    assert forall|j: int, m: nat|
        0 <= j < tiles.len() && 1 <= m <= k && (#[trigger] tiles[j]).id == corridor_pushable_id(
            tm,
            ba,
            p0,
            d,
            m,
        ) implies tiles[j].pos == #[trigger] crate::push_chain::cell_n(p0, d, m) && tiles[j].id
        != mover_id by {
        let cm = crate::push_chain::cell_n(p0, d, m);
        let jm = choose|jm: int|
            0 <= jm < tiles.len() && tiles[jm].id == corridor_pushable_id(tm, ba, p0, d, m)
                && tiles[jm].pos == cm;
        if j != jm {
            assert(tiles[j].id != tiles[jm].id);
        }
        if tiles[j].id == mover_id {
            assert(tiles[j].pos == p0);
            assert(cm != crate::push_chain::cell_n(p0, d, 0));
        }
    }
    assert forall|m1: nat, m2: nat|
        1 <= m1 <= k && 1 <= m2 <= k && m1 != m2 implies #[trigger] corridor_pushable_id(
        tm,
        ba,
        p0,
        d,
        m1,
    ) != #[trigger] corridor_pushable_id(tm, ba, p0, d, m2) by {
        let c1 = crate::push_chain::cell_n(p0, d, m1);
        let c2 = crate::push_chain::cell_n(p0, d, m2);
        let j1 = choose|j: int|
            0 <= j < tiles.len() && (#[trigger] tiles[j]).id == corridor_pushable_id(
                tm,
                ba,
                p0,
                d,
                m1,
            ) && tiles[j].pos == c1;
        let j2 = choose|j: int|
            0 <= j < tiles.len() && (#[trigger] tiles[j]).id == corridor_pushable_id(
                tm,
                ba,
                p0,
                d,
                m2,
            ) && tiles[j].pos == c2;
        assert(c1 != c2);
        if j1 == j2 {
            assert(false);
        } else {
            assert(tiles[j1].id != tiles[j2].id);
        }
    }
    assert forall|m: nat| 1 <= m <= k implies #[trigger] corridor_pushable_id(tm, ba, p0, d, m)
        != mover_id by {
        let cm = crate::push_chain::cell_n(p0, d, m);
        let jm = choose|j: int|
            0 <= j < tiles.len() && (#[trigger] tiles[j]).id == corridor_pushable_id(
                tm,
                ba,
                p0,
                d,
                m,
            ) && tiles[j].pos == cm;
        if tiles[jm].id == mover_id {
            assert(tiles[jm].pos == p0);
            assert(cm != crate::push_chain::cell_n(p0, d, 0));
        }
    }
}

/// Law: a push chain of length `k` against an open corridor moves all `k`
/// pushed tiles, and the pushing tile itself, exactly one cell in the push
/// direction — and nothing else. Stated at commit level over a settled
/// arena and its fresh index: with the queue holding the one move intent,
/// the mover's commit re-targets it into the first corridor cell, the
/// single pushable occupant of corridor cell `m` is re-targeted into cell
/// `m + 1` with its motion restarted, nothing is deleted, and every other
/// tile commits unchanged.
#[verifier::rlimit(100)]
#[verifier::spinoff_prover]
pub proof fn lemma_open_corridor_push_commits(
    tiles: Seq<Tile>,
    ba: Seq<(Block, Seq<Attribute>)>,
    c: Constraints,
    e: QueueEntry,
    d: BlockDirection,
    p0: Pos,
    k: nat,
)
    requires
        wf_world(tiles),
        all_settled(tiles),
        wf_constraints(c),
        pos_ok(p0),
        d != BlockDirection::Still,
        e.queue_type == QueueType::Move(d, p0),
        forall|j: int|
            0 <= j < tiles.len() && (#[trigger] tiles[j]).id == e.id ==> tiles[j].pos == p0,
        open_corridor(snapshot_index(tiles), ba, c, p0, d, k),
    ensures
        delete_spec(seq![e]) + sink_spec(snapshot_index(tiles), ba, seq![e]) == Seq::<u64>::empty(),
        forall|j: int|
            0 <= j < tiles.len() && (#[trigger] tiles[j]).id == e.id ==> commit_tile(
                tiles[j],
                seq![e],
                snapshot_index(tiles),
                ba,
                c,
            ) == (Tile {
                id: tiles[j].id,
                block: tiles[j].block,
                text: tiles[j].text,
                pos: tiles[j].pos,
                mover: Mover { target: crate::push_chain::cell_n(p0, d, 1), complete: false },
                flip_x: tiles[j].flip_x,
            }),
        forall|j: int, m: nat|
            0 <= j < tiles.len() && 1 <= m <= k && (#[trigger] tiles[j]).id
                == #[trigger] corridor_pushable_id(
                snapshot_index(tiles),
                ba,
                p0,
                d,
                m,
            ) ==> tiles[j].pos == crate::push_chain::cell_n(p0, d, m) && commit_tile(
                tiles[j],
                seq![e],
                snapshot_index(tiles),
                ba,
                c,
            ) == (Tile {
                id: tiles[j].id,
                block: tiles[j].block,
                text: tiles[j].text,
                pos: tiles[j].pos,
                mover: Mover {
                    target: crate::push_chain::cell_n(p0, d, (m + 1) as nat),
                    complete: false,
                },
                flip_x: tiles[j].flip_x,
            }),
        forall|j: int|
            0 <= j < tiles.len() && (#[trigger] tiles[j]).id != e.id && (forall|m: nat|
                1 <= m <= k ==> tiles[j].id != corridor_pushable_id(
                    snapshot_index(tiles),
                    ba,
                    p0,
                    d,
                    m,
                )) ==> commit_tile(tiles[j], seq![e], snapshot_index(tiles), ba, c) == tiles[j],
{
    let tm = snapshot_index(tiles);
    let q = seq![e];
    let emptyq = Seq::<QueueEntry>::empty();
    assert(q.drop_last() =~= emptyq);
    assert(q.last() == e);
    assert(delete_spec(emptyq) =~= Seq::<u64>::empty());
    assert(sink_spec(tm, ba, emptyq) =~= Seq::<u64>::empty());
    assert(delete_spec(q) =~= Seq::<u64>::empty());
    assert(sink_spec(tm, ba, q) =~= Seq::<u64>::empty());
    assert(delete_spec(q) + sink_spec(tm, ba, q) =~= Seq::<u64>::empty());
    lemma_corridor_moveables(tm, ba, c, e, d, p0, k);
    lemma_corridor_occupants(tiles, ba, c, d, p0, k, e.id);
    let movs = moveables_spec(tm, ba, c, q);
    assert forall|b: Block| #[trigger] first_change_for(q, b) is None by {
        assert(q.skip(1) =~= emptyq);
        assert(q[0] == e);
        assert(first_change_for(emptyq, b) is None);
    }
    assert forall|j: int|
        0 <= j < tiles.len() && (#[trigger] tiles[j]).id == e.id implies commit_tile(
        tiles[j],
        q,
        tm,
        ba,
        c,
    ) == (Tile {
        id: tiles[j].id,
        block: tiles[j].block,
        text: tiles[j].text,
        pos: tiles[j].pos,
        mover: Mover { target: crate::push_chain::cell_n(p0, d, 1), complete: false },
        flip_x: tiles[j].flip_x,
    }) by {
        assert forall|x: int| 0 <= x < movs.len() && x != 0 implies (#[trigger] movs[x]).0
            != e.id by {
            assert(movs[x].0 == corridor_pushable_id(tm, ba, p0, d, x as nat));
        }
        lemma_last_move_unique(movs, e.id, 0);
        assert(tiles[j].mover.complete);
    }
    assert forall|j: int, m: nat|
        0 <= j < tiles.len() && 1 <= m <= k && (#[trigger] tiles[j]).id
            == #[trigger] corridor_pushable_id(
            tm,
            ba,
            p0,
            d,
            m,
        ) implies commit_tile(tiles[j], q, tm, ba, c) == (Tile {
        id: tiles[j].id,
        block: tiles[j].block,
        text: tiles[j].text,
        pos: tiles[j].pos,
        mover: Mover {
            target: crate::push_chain::cell_n(p0, d, (m + 1) as nat),
            complete: false,
        },
        flip_x: tiles[j].flip_x,
    }) by {
        let pid = corridor_pushable_id(tm, ba, p0, d, m);
        assert forall|x: int| 0 <= x < movs.len() && x != m implies (#[trigger] movs[x]).0
            != pid by {
            if x == 0 {
                assert(movs[0].0 == e.id);
            } else {
                assert(movs[x].0 == corridor_pushable_id(tm, ba, p0, d, x as nat));
            }
        }
        assert(movs[m as int].0 == pid);
        lemma_last_move_unique(movs, pid, m as int);
        assert(tiles[j].mover.complete);
    }
    assert forall|j: int|
        0 <= j < tiles.len() && (#[trigger] tiles[j]).id != e.id && (forall|m: nat|
            1 <= m <= k ==> tiles[j].id != corridor_pushable_id(
                tm,
                ba,
                p0,
                d,
                m,
            )) implies commit_tile(tiles[j], q, tm, ba, c) == tiles[j] by {
        assert forall|x: int| 0 <= x < movs.len() implies (#[trigger] movs[x]).0
            != tiles[j].id by {
            if x == 0 {
                assert(movs[0].0 == e.id);
            } else {
                assert(movs[x].0 == corridor_pushable_id(tm, ba, p0, d, x as nat));
                assert(1 <= x as nat <= k);
            }
        }
        lemma_last_move_absent(movs, tiles[j].id);
        let t = tiles[j];
        assert(commit_tile(t, q, tm, ba, c) == (Tile {
            id: t.id,
            block: t.block,
            text: t.text,
            pos: t.pos,
            mover: t.mover,
            flip_x: t.flip_x,
        }));
        assert((Tile {
            id: t.id,
            block: t.block,
            text: t.text,
            pos: t.pos,
            mover: t.mover,
            flip_x: t.flip_x,
        }) == t);
    }
}

/// Law: a sink check on a cell holding any occupant with a player,
/// pushable or blocking attribute deletes every occupant of that cell —
/// the triggering tile included; a sink check on a cell of only inert
/// occupants deletes none at all.
pub proof fn lemma_sink_check(
    tm: Seq<TileInfo>,
    ba: Seq<(Block, Seq<Attribute>)>,
    p: Pos,
    id: u64,
)
    ensures
        sink_fires(tm, ba, p) ==> entry_sink(tm, ba, QueueEntry { id, queue_type: QueueType::Sink(p) })
            == entries_at(tm, p).map_values(|t: TileInfo| t.0),
        !sink_fires(tm, ba, p) ==> entry_sink(
            tm,
            ba,
            QueueEntry { id, queue_type: QueueType::Sink(p) },
        ) == Seq::<u64>::empty(),
{
}

/// Every survivor of the delete pass is one of the committed tiles.
pub proof fn lemma_remove_deleted_sub(ts: Seq<Tile>, dels: Seq<u64>)
    ensures
        forall|i: int|
            0 <= i < remove_deleted(ts, dels).len() ==> exists|j: int|
                0 <= j < ts.len() && #[trigger] remove_deleted(ts, dels)[i] == ts[j],
    decreases ts.len(),
{
    if ts.len() > 0 {
        lemma_remove_deleted_sub(ts.drop_last(), dels);
        let rd = remove_deleted(ts, dels);
        let rest = remove_deleted(ts.drop_last(), dels);
        assert forall|i: int| 0 <= i < rd.len() implies exists|j: int|
            0 <= j < ts.len() && #[trigger] rd[i] == ts[j] by {
            if i < rest.len() {
                assert(rd[i] == rest[i]);
                let j = choose|j: int| 0 <= j < ts.drop_last().len() && rest[i] == ts.drop_last()[j];
                assert(rd[i] == ts[j]);
            } else {
                assert(rd[i] == ts.last());
                assert(rd[i] == ts[ts.len() - 1]);
            }
        }
    }
}

/// Removing deleted tiles keeps the arena well formed.
pub proof fn lemma_remove_deleted_wf(ts: Seq<Tile>, dels: Seq<u64>)
    requires
        wf_world(ts),
    ensures
        wf_world(remove_deleted(ts, dels)),
    decreases ts.len(),
{
    if ts.len() > 0 {
        assert(wf_world(ts.drop_last())) by {
            assert(forall|i: int|
                0 <= i < ts.drop_last().len() ==> ts.drop_last()[i] == #[trigger] ts[i]);
        }
        lemma_remove_deleted_wf(ts.drop_last(), dels);
        lemma_remove_deleted_sub(ts.drop_last(), dels);
        let rd = remove_deleted(ts, dels);
        let rest = remove_deleted(ts.drop_last(), dels);
        if !dels.contains(ts.last().id) {
            assert forall|i: int, j: int|
                0 <= i < rd.len() && 0 <= j < rd.len() && i != j implies (#[trigger] rd[i]).id != (
            #[trigger] rd[j]).id by {
                if i < rest.len() && j < rest.len() {
                    assert(rd[i] == rest[i] && rd[j] == rest[j]);
                } else if i < rest.len() {
                    assert(rd[j] == ts.last());
                    let k = choose|k: int|
                        0 <= k < ts.drop_last().len() && rest[i] == ts.drop_last()[k];
                    assert(rd[i] == ts[k]);
                    assert(ts[k].id != ts[ts.len() - 1].id);
                } else {
                    assert(rd[i] == ts.last());
                    let k = choose|k: int|
                        0 <= k < ts.drop_last().len() && rest[j] == ts.drop_last()[k];
                    assert(rd[j] == ts[k]);
                    assert(ts[k].id != ts[ts.len() - 1].id);
                }
            }
            assert forall|i: int| 0 <= i < rd.len() implies tile_ok(#[trigger] rd[i]) by {
                if i < rest.len() {
                    assert(rd[i] == rest[i]);
                } else {
                    assert(rd[i] == ts[ts.len() - 1]);
                }
            }
        }
    }
}

/// Resolve the whole per-step queue. Intents are walked in submission
/// order: moves grow the mover list through chain resolution, sink checks
/// mark whole cells for deletion, win and level-select checks raise
/// signals, and the first transmutation per source kind wins. The commit
/// then rewrites every tile at once — transmutation first, then the motion
/// target (unless the tile is still mid-motion, which drops the command) —
/// and finally removes every tile named by a delete intent or a sink mark.
pub fn apply_queue(
    world: &mut World,
    queue: &Queue,
    tile_map: &TileMap,
    block_attributes: &BlockAttributes,
    constraints: &Constraints,
) -> (signals: StepSignals)
    requires
        wf_world(old(world).tiles@),
        wf_queue(queue.entries@),
        wf_tile_map(tile_map.content@),
        wf_constraints(*constraints),
    ensures
        final(world).tiles@ == remove_deleted(
            old(world).tiles@.map_values(
                |t: Tile|
                    commit_tile(
                        t,
                        queue.entries@,
                        tile_map.content@,
                        ba_view(block_attributes.entries@),
                        *constraints,
                    ),
            ),
            delete_spec(queue.entries@) + sink_spec(
                tile_map.content@,
                ba_view(block_attributes.entries@),
                queue.entries@,
            ),
        ),
        wf_world(final(world).tiles@),
        signals.wins@.len() == wins_spec(
            tile_map.content@,
            ba_view(block_attributes.entries@),
            queue.entries@,
        ),
        signals.level_selects@.map_values(|s: PlayerLevelSelect| s.0) == selects_spec(
            tile_map.content@,
            ba_view(block_attributes.entries@),
            queue.entries@,
        ),
{
    let ghost tm = tile_map.content@;
    let ghost ba = ba_view(block_attributes.entries@);
    let ghost qv = queue.entries@;
    let ghost c = *constraints;
    let mut moveables: Vec<(u64, Pos)> = Vec::new();
    let mut sink_marked: Vec<u64> = Vec::new();
    let mut deletes: Vec<u64> = Vec::new();
    let mut wins: Vec<PlayerHasWon> = Vec::new();
    let mut level_selects: Vec<PlayerLevelSelect> = Vec::new();
    let nq = queue.len();
    proof {
        assert(qv.subrange(0, 0) =~= Seq::<QueueEntry>::empty());
        assert(moveables@ =~= moveables_spec(tm, ba, c, qv.subrange(0, 0)));
        assert(sink_marked@ =~= sink_spec(tm, ba, qv.subrange(0, 0)));
        assert(deletes@ =~= delete_spec(qv.subrange(0, 0)));
        assert(level_selects@.map_values(|s: PlayerLevelSelect| s.0) =~= selects_spec(
            tm,
            ba,
            qv.subrange(0, 0),
        ));
    }
    for qi in 0..nq
        invariant
            nq == qv.len(),
            qv == queue.entries@,
            tm == tile_map.content@,
            ba == ba_view(block_attributes.entries@),
            c == *constraints,
            wf_queue(qv),
            wf_tile_map(tm),
            wf_constraints(c),
            moveables@ == moveables_spec(tm, ba, c, qv.subrange(0, qi as int)),
            sink_marked@ == sink_spec(tm, ba, qv.subrange(0, qi as int)),
            deletes@ == delete_spec(qv.subrange(0, qi as int)),
            wins@.len() == wins_spec(tm, ba, qv.subrange(0, qi as int)),
            level_selects@.map_values(|s: PlayerLevelSelect| s.0) == selects_spec(
                tm,
                ba,
                qv.subrange(0, qi as int),
            ),
    {
        let entry = queue.entries[qi];
        let ghost sub1 = qv.subrange(0, qi + 1);
        proof {
            assert(sub1.drop_last() =~= qv.subrange(0, qi as int));
            assert(sub1.last() == qv[qi as int]);
            assert(entry == qv[qi as int]);
            assert(crate::game_logic_types::entry_ok(entry));
        }
        match entry.queue_type {
            QueueType::Delete => {
                deletes.push(entry.id);
                proof {
                    assert(deletes@ =~= delete_spec(sub1));
                }
            },
            QueueType::Sink(pos) => {
                match tile_map.get(pos) {
                    Option::Some(rows) => {
                        if rows_any_sinkable(block_attributes, &rows) {
                            push_row_ids(&mut sink_marked, &rows);
                            proof {
                                assert(sink_fires(tm, ba, pos));
                                assert(sink_marked@ =~= sink_spec(tm, ba, sub1));
                            }
                        } else {
                            proof {
                                assert(!sink_fires(tm, ba, pos));
                                assert(sink_marked@ =~= sink_spec(tm, ba, sub1));
                            }
                        }
                    },
                    Option::None => {
                        proof {
                            assert(entries_at(tm, pos).len() == 0);
                            assert(!sink_fires(tm, ba, pos));
                            assert(sink_marked@ =~= sink_spec(tm, ba, sub1));
                        }
                    },
                }
            },
            QueueType::WinOn(pos) => {
                match tile_map.get(pos) {
                    Option::Some(rows) => {
                        if rows_any_attr(block_attributes, &rows, Attribute::You) {
                            wins.push(PlayerHasWon);
                            proof {
                                assert(win_fires(tm, ba, pos));
                            }
                        } else {
                            proof {
                                assert(!win_fires(tm, ba, pos));
                            }
                        }
                    },
                    Option::None => {
                        proof {
                            assert(entries_at(tm, pos).len() == 0);
                            assert(!win_fires(tm, ba, pos));
                        }
                    },
                }
            },
            QueueType::LevelSelect(pos, level_id) => {
                let mut fired = false;
                match tile_map.get(pos) {
                    Option::Some(rows) => {
                        if rows.len() >= 2 {
                            if rows_any_attr(block_attributes, &rows, Attribute::You) {
                                level_selects.push(PlayerLevelSelect(level_id));
                                fired = true;
                                proof {
                                    assert(select_fires(tm, ba, pos));
                                }
                            } else {
                                proof {
                                    assert(!win_fires(tm, ba, pos));
                                }
                            }
                        } else {
                            proof {
                                assert(entries_at(tm, pos).len() < 2);
                            }
                        }
                    },
                    Option::None => {
                        proof {
                            assert(entries_at(tm, pos).len() == 0);
                        }
                    },
                }
                proof {
                    if fired {
                        assert(level_selects@.map_values(|s: PlayerLevelSelect| s.0)
                            =~= selects_spec(tm, ba, sub1));
                    } else {
                        assert(!select_fires(tm, ba, pos));
                        assert(level_selects@.map_values(|s: PlayerLevelSelect| s.0)
                            =~= selects_spec(tm, ba, sub1));
                    }
                }
            },
            QueueType::ChangeBlock(_, _) => {},
            QueueType::Move(direction, position) => {
                if matches!(direction, BlockDirection::Still) {
                    moveables.push((entry.id, position));
                    proof {
                        assert(entry_moveables(tm, ba, c, entry) =~= seq![(entry.id, position)]);
                        assert(moveables@ =~= moveables_spec(tm, ba, c, sub1));
                    }
                } else {
                    let mut pushables: Vec<(u64, Pos)> = Vec::new();
                    let next = step_position(position, direction);
                    pushables.push((entry.id, next));
                    check_for_pushable_tiles(
                        &mut pushables,
                        tile_map,
                        block_attributes,
                        constraints,
                        position,
                        direction,
                    );
                    moveables.append(&mut pushables);
                    proof {
                        match chain_from(tm, ba, c, step_pos(position, direction), direction) {
                            Option::Some(rest) => {
                                assert(entry_moveables(tm, ba, c, entry) =~= seq![
                                    (entry.id, next),
                                ] + rest);
                            },
                            Option::None => {
                                assert(entry_moveables(tm, ba, c, entry) =~= Seq::<(
                                    u64,
                                    Pos,
                                )>::empty());
                            },
                        }
                        assert(moveables@ =~= moveables_spec(tm, ba, c, sub1));
                    }
                }
            },
        }
        proof {
            assert(moveables@ =~= moveables_spec(tm, ba, c, sub1));
            assert(sink_marked@ =~= sink_spec(tm, ba, sub1));
            assert(deletes@ =~= delete_spec(sub1));
            assert(wins@.len() == wins_spec(tm, ba, sub1));
            assert(level_selects@.map_values(|s: PlayerLevelSelect| s.0) =~= selects_spec(
                tm,
                ba,
                sub1,
            ));
        }
    }
    proof {
        assert(qv.subrange(0, nq as int) =~= qv);
    }
    let ghost movs = moveables_spec(tm, ba, c, qv);
    let ghost dels = delete_spec(qv) + sink_spec(tm, ba, qv);
    proof {
        lemma_moveables_ok(tm, ba, c, qv);
    }
    let n = world.tiles.len();
    for i in 0..n
        invariant
            n == world.tiles@.len(),
            world.tiles@.len() == old(world).tiles@.len(),
            qv == queue.entries@,
            tm == tile_map.content@,
            ba == ba_view(block_attributes.entries@),
            c == *constraints,
            moveables@ == movs,
            movs == moveables_spec(tm, ba, c, qv),
            wf_world(old(world).tiles@),
            forall|k: int| 0 <= k < movs.len() ==> pos_ok((#[trigger] movs[k]).1),
            forall|j: int|
                0 <= j < i ==> world.tiles@[j] == commit_tile(
                    #[trigger] old(world).tiles@[j],
                    qv,
                    tm,
                    ba,
                    c,
                ),
            forall|j: int| i <= j < n ==> world.tiles@[j] == #[trigger] old(world).tiles@[j],
            forall|j: int| 0 <= j < n ==> tile_ok(#[trigger] world.tiles@[j]),
    {
        let t = world.tiles[i];
        let b1 = match first_change_for_block(queue, t.block) {
            Option::Some(to) => to,
            Option::None => t.block,
        };
        let mover = match find_last_move(&moveables, t.id) {
            Option::Some(pnew) => {
                proof {
                    lemma_last_move_in(movs, t.id);
                }
                if t.mover.complete {
                    Mover { target: pnew, complete: false }
                } else {
                    t.mover
                }
            },
            Option::None => t.mover,
        };
        world.tiles.set(
            i,
            Tile { id: t.id, block: b1, text: t.text, pos: t.pos, mover, flip_x: t.flip_x },
        );
        proof {
            assert(world.tiles@[i as int] == commit_tile(old(world).tiles@[i as int], qv, tm, ba, c));
        }
    }
    let ghost mapped = old(world).tiles@.map_values(|t: Tile| commit_tile(t, qv, tm, ba, c));
    proof {
        assert(world.tiles@ =~= mapped);
        assert forall|i: int, j: int|
            0 <= i < mapped.len() && 0 <= j < mapped.len() && i != j implies (
        #[trigger] mapped[i]).id != (#[trigger] mapped[j]).id by {
            assert(old(world).tiles@[i].id != old(world).tiles@[j].id);
        }
        assert(wf_world(mapped));
    }
    let mut kept: Vec<Tile> = Vec::new();
    let n2 = world.tiles.len();
    proof {
        assert(mapped.subrange(0, 0) =~= Seq::<Tile>::empty());
        assert(kept@ =~= remove_deleted(mapped.subrange(0, 0), dels));
    }
    for i in 0..n2
        invariant
            n2 == world.tiles@.len(),
            world.tiles@ == mapped,
            dels == deletes@ + sink_marked@,
            kept@ == remove_deleted(mapped.subrange(0, i as int), dels),
    {
        let t = world.tiles[i];
        proof {
            assert(mapped.subrange(0, i + 1).drop_last() =~= mapped.subrange(0, i as int));
            assert(mapped.subrange(0, i + 1).last() == mapped[i as int]);
        }
        let gone = ids_contain(&deletes, t.id) || ids_contain(&sink_marked, t.id);
        proof {
            if deletes@.contains(t.id) {
                let k = choose|k: int| 0 <= k < deletes@.len() && deletes@[k] == t.id;
                assert(dels[k] == t.id);
                assert(dels.contains(t.id));
            } else if sink_marked@.contains(t.id) {
                let k = choose|k: int|
                    0 <= k < sink_marked@.len() && sink_marked@[k] == t.id;
                assert(dels[deletes@.len() + k] == t.id);
                assert(dels.contains(t.id));
            } else {
                assert(!dels.contains(t.id)) by {
                    if dels.contains(t.id) {
                        let k = choose|k: int| 0 <= k < dels.len() && dels[k] == t.id;
                        if k < deletes@.len() {
                            assert(deletes@[k] == t.id);
                        } else {
                            assert(sink_marked@[k - deletes@.len()] == t.id);
                        }
                    }
                }
            }
        }
        if !gone {
            kept.push(t);
        }
        proof {
            assert(kept@ =~= remove_deleted(mapped.subrange(0, i + 1), dels));
        }
    }
    proof {
        assert(mapped.subrange(0, n2 as int) =~= mapped);
    }
    world.tiles = kept;
    proof {
        lemma_remove_deleted_wf(mapped, dels);
    }
    StepSignals { wins, level_selects }
}

/// The first intent a tile's attribute list yields, walking the list in
/// order. With no directional input this step, the player-controlled
/// attribute contributes no move and the walk goes on: any win, sink or
/// level-select attribute further down still enqueues its check.
pub open spec fn tile_intent(p: Pos, attrs: Seq<Attribute>, dir: BlockDirection) -> Option<
    QueueType,
>
    decreases attrs.len(),
{
    if attrs.len() == 0 {
        None
    } else {
        match attrs[0] {
            Attribute::You => if dir == BlockDirection::Still {
                tile_intent(p, attrs.skip(1), dir)
            } else {
                Some(QueueType::Move(dir, p))
            },
            Attribute::Win => Some(QueueType::WinOn(p)),
            Attribute::Sink => Some(QueueType::Sink(p)),
            Attribute::LevelSelect(n) => Some(QueueType::LevelSelect(p, n)),
            Attribute::Stop => tile_intent(p, attrs.skip(1), dir),
            Attribute::Push => tile_intent(p, attrs.skip(1), dir),
        }
    }
}

/// The queue one production pass fills: at most one entry per tile, in
/// arena order (the queue's dedup-by-id admits only the first).
pub open spec fn produced_queue(
    tiles: Seq<Tile>,
    ba: Seq<(Block, Seq<Attribute>)>,
    dir: BlockDirection,
) -> Seq<QueueEntry>
    decreases tiles.len(),
{
    if tiles.len() == 0 {
        Seq::empty()
    } else {
        produced_queue(tiles.drop_last(), ba, dir) + (match tile_intent(
            tiles.last().pos,
            crate::game_logic_types::attrs_of(ba, tiles.last().block),
            dir,
        ) {
            Option::Some(qt) => seq![QueueEntry { id: tiles.last().id, queue_type: qt }],
            Option::None => Seq::empty(),
        })
    }
}

/// Whether any tile is player-controlled under the current table.
pub open spec fn any_you(tiles: Seq<Tile>, ba: Seq<(Block, Seq<Attribute>)>) -> bool {
    exists|i: int|
        0 <= i < tiles.len() && has_attr(ba, (#[trigger] tiles[i]).block, Attribute::You)
}

/// The cosmetic facing update: sideways input flips every player-controlled
/// tile to face the way it walks.
pub open spec fn flip_tile(t: Tile, ba: Seq<(Block, Seq<Attribute>)>, dir: BlockDirection) -> Tile {
    if has_attr(ba, t.block, Attribute::You) && dir == BlockDirection::Left {
        Tile { id: t.id, block: t.block, text: t.text, pos: t.pos, mover: t.mover, flip_x: true }
    } else if has_attr(ba, t.block, Attribute::You) && dir == BlockDirection::Right {
        Tile { id: t.id, block: t.block, text: t.text, pos: t.pos, mover: t.mover, flip_x: false }
    } else {
        t
    }
}

/// Every produced entry names one of the scanned tiles.
pub proof fn lemma_produced_ids(
    tiles: Seq<Tile>,
    ba: Seq<(Block, Seq<Attribute>)>,
    dir: BlockDirection,
)
    ensures
        forall|k: int|
            0 <= k < produced_queue(tiles, ba, dir).len() ==> exists|j: int|
                0 <= j < tiles.len() && (#[trigger] produced_queue(tiles, ba, dir)[k]).id
                    == tiles[j].id,
    decreases tiles.len(),
{
    if tiles.len() > 0 {
        lemma_produced_ids(tiles.drop_last(), ba, dir);
        let pq = produced_queue(tiles, ba, dir);
        let pre = produced_queue(tiles.drop_last(), ba, dir);
        assert forall|k: int| 0 <= k < pq.len() implies exists|j: int|
            0 <= j < tiles.len() && (#[trigger] pq[k]).id == tiles[j].id by {
            if k < pre.len() {
                assert(pq[k] == pre[k]);
                let j = choose|j: int|
                    0 <= j < tiles.drop_last().len() && pre[k].id == tiles.drop_last()[j].id;
                assert(pq[k].id == tiles[j].id);
            } else {
                assert(pq[k].id == tiles.last().id);
                assert(pq[k].id == tiles[tiles.len() - 1].id);
            }
        }
    }
}

/// The first intent of one attribute list under the given input direction.
fn first_intent(p: Pos, attrs: &Vec<Attribute>, dir: BlockDirection) -> (r: Option<QueueType>)
    ensures
        r == tile_intent(p, attrs@, dir),
{
    let n = attrs.len();
    proof {
        assert(attrs@.skip(0) =~= attrs@);
    }
    for i in 0..n
        invariant
            n == attrs@.len(),
            tile_intent(p, attrs@, dir) == tile_intent(p, attrs@.skip(i as int), dir),
    {
        proof {
            assert(attrs@.skip(i as int)[0] == attrs@[i as int]);
            assert(attrs@.skip(i as int).skip(1) =~= attrs@.skip(i + 1));
        }
        match attrs[i] {
            Attribute::You => {
                if !matches!(dir, BlockDirection::Still) {
                    return Some(QueueType::Move(dir, p));
                }
            },
            Attribute::Win => {
                return Some(QueueType::WinOn(p));
            },
            Attribute::Sink => {
                return Some(QueueType::Sink(p));
            },
            Attribute::LevelSelect(n2) => {
                return Some(QueueType::LevelSelect(p, n2));
            },
            Attribute::Stop => {},
            Attribute::Push => {},
        }
    }
    proof {
        assert(attrs@.skip(n as int) =~= Seq::<Attribute>::empty());
    }
    None
}

/// Produce this step's intents, but only once every tile has settled.
/// The queue is cleared and the recorder's step protocol runs first; an
/// undo or redo key suppresses all input processing for the step, redo
/// taking precedence, and first seals any freshly opened frame with the
/// current world so the head never leaves an uncaptured state behind.
/// Otherwise every tile is scanned against the table: player-controlled
/// tiles read the directional input (arming the recorder when there is
/// one; no input means no move, while the tile's other trigger attributes
/// still count), win, sink and level-select carriers enqueue their checks,
/// and the queue keeps only the first intent per tile.
pub fn apply_attributes(
    world: &mut World,
    queue: &mut Queue,
    world_recorder: &mut WorldRecorder,
    block_attributes: &BlockAttributes,
    input: &StepInput,
)
    requires
        wf_world(old(world).tiles@),
        wf_recorder(*old(world_recorder)),
        old(world_recorder).head_len < usize::MAX,
    ensures
        wf_world(final(world).tiles@),
        wf_recorder(*final(world_recorder)),
        !all_settled(old(world).tiles@) ==> final(world).tiles@ == old(world).tiles@
            && final(queue).entries@ == old(queue).entries@
            && *final(world_recorder) == *old(world_recorder),
        all_settled(old(world).tiles@) ==> {
            &&& rec_view(final(world_recorder).records@) == (if input.redo || input.undo {
                undo_step_frames(*old(world_recorder), old(world).tiles@)
            } else {
                reset_frames(*old(world_recorder))
            })
            &&& final(world_recorder).head_len == (if input.redo {
                if reset_head(*old(world_recorder)) < undo_step_frames(
                    *old(world_recorder),
                    old(world).tiles@,
                ).len() {
                    reset_head(*old(world_recorder)) + 1
                } else {
                    reset_head(*old(world_recorder))
                }
            } else if input.undo {
                if reset_head(*old(world_recorder)) > 0 {
                    reset_head(*old(world_recorder)) - 1
                } else {
                    0
                }
            } else {
                reset_head(*old(world_recorder))
            })
            &&& final(world_recorder).record == (!input.redo && !input.undo)
            &&& final(world_recorder).user_input == (!input.redo && !input.undo
                && input.direction != BlockDirection::Still && any_you(
                old(world).tiles@,
                ba_view(block_attributes.entries@),
            ))
            &&& (input.redo || input.undo) ==> final(world).tiles@ == old(world).tiles@
                && final(queue).entries@ == Seq::<QueueEntry>::empty()
            &&& (!input.redo && !input.undo) ==> final(world).tiles@ == old(world).tiles@.map_values(
                |t: Tile|
                    flip_tile(t, ba_view(block_attributes.entries@), input.direction),
            ) && final(queue).entries@ == produced_queue(
                old(world).tiles@,
                ba_view(block_attributes.entries@),
                input.direction,
            )
        },
{
    if !check_all_settled(world) {
        return ;
    }
    queue.reset();
    let had_input = world_recorder.user_input;
    world_recorder.reset();
    if input.redo || input.undo {
        if had_input {
            // Seal the frame the reset just opened with the current world,
            // so the head always sits under a real snapshot and a later
            // redo restores the post-step state exactly.
            crate::game_logic::capture_world(world, world_recorder);
        }
        if input.redo {
            world_recorder.redo();
        } else {
            world_recorder.undo();
        }
        return ;
    }
    let ghost ba = ba_view(block_attributes.entries@);
    let ghost r1 = *world_recorder;
    let dir = input.direction;
    let n = world.tiles.len();
    proof {
        assert(old(world).tiles@.subrange(0, 0) =~= Seq::<Tile>::empty());
    }
    for i in 0..n
        invariant
            n == world.tiles@.len(),
            world.tiles@.len() == old(world).tiles@.len(),
            ba == ba_view(block_attributes.entries@),
            dir == input.direction,
            wf_world(old(world).tiles@),
            queue.entries@ == produced_queue(old(world).tiles@.subrange(0, i as int), ba, dir),
            world_recorder.records@ == r1.records@,
            world_recorder.head_len == r1.head_len,
            world_recorder.record == r1.record,
            wf_recorder(r1),
            world_recorder.user_input == (dir != BlockDirection::Still && any_you(
                old(world).tiles@.subrange(0, i as int),
                ba,
            )),
            forall|j: int|
                0 <= j < i ==> world.tiles@[j] == flip_tile(#[trigger] old(world).tiles@[j], ba, dir),
            forall|j: int| i <= j < n ==> world.tiles@[j] == #[trigger] old(world).tiles@[j],
    {
        let t = world.tiles[i];
        let ghost pre = old(world).tiles@.subrange(0, i as int);
        let ghost sub1 = old(world).tiles@.subrange(0, i + 1);
        proof {
            assert(sub1.drop_last() =~= pre);
            assert(sub1.last() == old(world).tiles@[i as int]);
            assert(t == old(world).tiles@[i as int]);
        }
        let has_you = crate::push_chain::block_has_attribute(
            block_attributes,
            t.block,
            Attribute::You,
        );
        if has_you && (matches!(dir, BlockDirection::Left) || matches!(
            dir,
            BlockDirection::Right,
        )) {
            let newflip = matches!(dir, BlockDirection::Left);
            world.tiles.set(
                i,
                Tile {
                    id: t.id,
                    block: t.block,
                    text: t.text,
                    pos: t.pos,
                    mover: t.mover,
                    flip_x: newflip,
                },
            );
        }
        if has_you && !matches!(dir, BlockDirection::Still) {
            world_recorder.user_input = true;
        }
        let intent = match block_attributes.get(t.block) {
            Option::Some(attrs) => first_intent(t.pos, attrs, dir),
            Option::None => {
                proof {
                    assert(crate::game_logic_types::attrs_of(ba, t.block) =~= Seq::<
                        Attribute,
                    >::empty());
                }
                None
            },
        };
        match intent {
            Option::Some(qt) => {
                proof {
                    lemma_produced_ids(pre, ba, dir);
                    assert forall|k: int| 0 <= k < queue.entries@.len() implies (
                    #[trigger] queue.entries@[k]).id != t.id by {
                        let j = choose|j: int|
                            0 <= j < pre.len() && queue.entries@[k].id == pre[j].id;
                        assert(pre[j] == old(world).tiles@[j]);
                        assert(old(world).tiles@[j].id != old(world).tiles@[i as int].id);
                    }
                    assert(!crate::game_logic_types::queue_has_id(queue.entries@, t.id));
                }
                queue.push(t.id, qt);
            },
            Option::None => {},
        }
        proof {
            assert(queue.entries@ =~= produced_queue(sub1, ba, dir));
            if world_recorder.user_input {
                assert(dir != BlockDirection::Still && any_you(sub1, ba)) by {
                    if !any_you(pre, ba) {
                        assert(has_attr(ba, sub1[i as int].block, Attribute::You));
                    }
                }
            } else {
                assert(!(dir != BlockDirection::Still && any_you(sub1, ba))) by {
                    if any_you(sub1, ba) && dir != BlockDirection::Still {
                        let j = choose|j: int|
                            0 <= j < sub1.len() && has_attr(
                                ba,
                                (#[trigger] sub1[j]).block,
                                Attribute::You,
                            );
                        if j < i {
                            assert(has_attr(ba, pre[j].block, Attribute::You));
                            assert(any_you(pre, ba));
                        }
                    }
                }
            }
        }
    }
    proof {
        assert(old(world).tiles@.subrange(0, n as int) =~= old(world).tiles@);
        assert(world.tiles@ =~= old(world).tiles@.map_values(|t: Tile| flip_tile(t, ba, dir)));
        assert forall|i: int, j: int|
            0 <= i < world.tiles@.len() && 0 <= j < world.tiles@.len() && i != j implies (
        #[trigger] world.tiles@[i]).id != (#[trigger] world.tiles@[j]).id by {
            assert(old(world).tiles@[i].id != old(world).tiles@[j].id);
        }
    }
}

/// The history after the step protocol ran: with user input seen, the redo
/// future is pruned and a fresh empty frame is opened.
pub open spec fn reset_frames(r: WorldRecorder) -> Seq<Seq<RecordData>> {
    if r.user_input {
        rec_view(r.records@).subrange(0, r.head_len as int).push(Seq::<RecordData>::empty())
    } else {
        rec_view(r.records@)
    }
}

pub open spec fn reset_head(r: WorldRecorder) -> int {
    if r.user_input {
        r.head_len + 1
    } else {
        r.head_len as int
    }
}

/// The history as an undo or redo step sees it before the head moves: the
/// step protocol runs first, and if it opened a fresh frame (the previous
/// step had input) that frame is sealed with the current world, so the
/// post-step state is captured before the head leaves it.
pub open spec fn undo_step_frames(r: WorldRecorder, tiles: Seq<Tile>) -> Seq<Seq<RecordData>> {
    if r.user_input {
        crate::game_logic::recorded_frames(reset_frames(r), reset_head(r), tiles)
    } else {
        reset_frames(r)
    }
}

/// Law: sealing keeps the head in place and puts the current world's
/// snapshot under it, so redo after undo restores the post-step snapshot
/// exactly — the frame under the sealed head is the snapshot itself.
pub proof fn lemma_undo_seals_post_step(r: WorldRecorder, tiles: Seq<Tile>)
    requires
        r.user_input,
        wf_recorder(r),
    ensures
        undo_step_frames(r, tiles).len() == reset_head(r),
        undo_step_frames(r, tiles)[reset_head(r) - 1]
            == crate::game_logic::snapshot_frame(tiles),
{
    let f1 = reset_frames(r);
    let h1 = reset_head(r);
    assert(f1.len() == h1);
    if tiles.len() == 0 {
        assert(f1[h1 - 1] =~= crate::game_logic::snapshot_frame(tiles));
    } else {
        let f2 = crate::game_logic::recorded_frames(f1, h1, tiles);
        assert(f1.subrange(0, h1) =~= f1);
        assert(f1[h1 - 1] + crate::game_logic::snapshot_frame(tiles)
            =~= crate::game_logic::snapshot_frame(tiles));
    }
}

} // verus!
