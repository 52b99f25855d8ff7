//! The step driver: owns the shared per-step state (attribute table, tile
//! index, action queue, recorder, playfield constraints) and runs the
//! components in their fixed order — settle motion, rebuild the index,
//! produce intents, parse rules, record or restore, resolve the queue.

use vstd::prelude::*;

use crate::game_logic::{
    apply_constraints, apply_mover, apply_record_to_world, constrain_tile, map_tiles, record_world,
    recorded_frames, recorded_head, restore_tile, settle_tile, snapshot_index,
};
use crate::game_logic_types::{
    all_settled, ba_view, entry_ok, pos_ok, rec_view, wf_constraints, wf_queue, wf_recorder,
    wf_world, Attribute, Block, BlockAttributes, BlockDirection, Constraints, Pos, Queue,
    QueueEntry, QueueType, StepInput, StepSignals, TextBlock, Tile, TileMap, World, WorldRecorder,
};
use crate::resolve::{
    any_you, apply_attributes, apply_queue, commit_tile, delete_spec, flip_tile, produced_queue,
    remove_deleted, reset_frames, reset_head, selects_spec, sink_spec, tile_intent,
    undo_step_frames, wins_spec,
};
use crate::rule_parser::{
    change_edges, changes_from_targets, changes_of_order, evaluate_text, rule_table, wf_words,
};

verus! {

/// The word tiles of the arena with their positions, in arena order: the
/// rule parser's input.
pub open spec fn text_tiles(tiles: Seq<Tile>) -> Seq<(TextBlock, Pos)>
    decreases tiles.len(),
{
    if tiles.len() == 0 {
        Seq::empty()
    } else {
        text_tiles(tiles.drop_last()) + (match tiles.last().text {
            Option::Some(w) => if tiles.last().block == Block::Text {
                seq![(w, tiles.last().pos)]
            } else {
                Seq::empty()
            },
            Option::None => Seq::empty(),
        })
    }
}

/// Gather the word tiles the rule parser reads.
pub fn collect_text(world: &World) -> (r: Vec<(TextBlock, Pos)>)
    ensures
        r@ == text_tiles(world.tiles@),
        wf_world(world.tiles@) ==> wf_words(r@),
{
    let mut r: Vec<(TextBlock, Pos)> = Vec::new();
    let n = world.tiles.len();
    proof {
        assert(world.tiles@.subrange(0, 0) =~= Seq::<Tile>::empty());
    }
    for i in 0..n
        invariant
            n == world.tiles@.len(),
            r@ == text_tiles(world.tiles@.subrange(0, i as int)),
            forall|k: int|
                0 <= k < r@.len() ==> exists|j: int|
                    0 <= j < i && (#[trigger] r@[k]).1 == world.tiles@[j].pos,
    {
        let t = world.tiles[i];
        proof {
            assert(world.tiles@.subrange(0, i + 1).drop_last() =~= world.tiles@.subrange(
                0,
                i as int,
            ));
            assert(world.tiles@.subrange(0, i + 1).last() == world.tiles@[i as int]);
        }
        if matches!(t.block, Block::Text) {
            match t.text {
                Option::Some(w) => {
                    r.push((w, t.pos));
                },
                Option::None => {},
            }
        }
        proof {
            assert(r@ =~= text_tiles(world.tiles@.subrange(0, i + 1)));
        }
    }
    proof {
        assert(world.tiles@.subrange(0, n as int) =~= world.tiles@);
        if wf_world(world.tiles@) {
            assert forall|k: int| 0 <= k < r@.len() implies pos_ok((#[trigger] r@[k]).1) by {
                let j = choose|j: int| 0 <= j < n && r@[k].1 == world.tiles@[j].pos;
                assert(crate::game_logic_types::tile_ok(world.tiles@[j]));
            }
        }
    }
    r
}

/// The intents a tile list produces all name legal positions.
pub proof fn lemma_produced_wf(
    tiles: Seq<Tile>,
    ba: Seq<(Block, Seq<Attribute>)>,
    dir: BlockDirection,
)
    requires
        forall|i: int| 0 <= i < tiles.len() ==> pos_ok((#[trigger] tiles[i]).pos),
    ensures
        wf_queue(produced_queue(tiles, ba, dir)),
    decreases tiles.len(),
{
    if tiles.len() > 0 {
        assert(forall|i: int|
            0 <= i < tiles.drop_last().len() ==> (#[trigger] tiles.drop_last()[i]) == tiles[i]);
        lemma_produced_wf(tiles.drop_last(), ba, dir);
        let t = tiles.last();
        assert(t == tiles[tiles.len() - 1]);
        lemma_tile_intent_ok(t.pos, crate::game_logic_types::attrs_of(ba, t.block), dir);
        let pq = produced_queue(tiles, ba, dir);
        let pre = produced_queue(tiles.drop_last(), ba, dir);
        assert forall|k: int| 0 <= k < pq.len() implies entry_ok(#[trigger] pq[k]) by {
            if k < pre.len() {
                assert(pq[k] == pre[k]);
            } else {
                assert(pq[k].queue_type == tile_intent(
                    t.pos,
                    crate::game_logic_types::attrs_of(ba, t.block),
                    dir,
                )->Some_0);
            }
        }
    }
}

/// Any intent an attribute list yields points at the scanned tile's own
/// legal position.
pub proof fn lemma_tile_intent_ok(p: Pos, attrs: Seq<Attribute>, dir: BlockDirection)
    requires
        pos_ok(p),
    ensures
        match tile_intent(p, attrs, dir) {
            Option::Some(qt) => entry_ok(QueueEntry { id: 0u64, queue_type: qt }) && forall|
                id: u64,
            | entry_ok(QueueEntry { id, queue_type: qt }),
            Option::None => true,
        },
    decreases attrs.len(),
{
    if attrs.len() > 0 {
        match attrs[0] {
            Attribute::You => {
                if dir == BlockDirection::Still {
                    lemma_tile_intent_ok(p, attrs.skip(1), dir);
                }
            },
            Attribute::Stop => lemma_tile_intent_ok(p, attrs.skip(1), dir),
            Attribute::Push => lemma_tile_intent_ok(p, attrs.skip(1), dir),
            _ => {},
        }
    }
}

/// Every queued transmutation edge is a well-formed entry.
pub proof fn lemma_changes_wf(words: Seq<(TextBlock, Pos)>)
    ensures
        wf_queue(change_edges(words)),
{
    lemma_changes_of_order_wf(words, crate::rule_parser::noun_order(words, words.len() as int));
}

pub proof fn lemma_changes_of_order_wf(words: Seq<(TextBlock, Pos)>, order: Seq<TextBlock>)
    ensures
        wf_queue(changes_of_order(words, order)),
    decreases order.len(),
{
    if order.len() > 0 {
        lemma_changes_of_order_wf(words, order.drop_last());
        lemma_changes_from_targets_wf(
            crate::rule_parser::noun_block(order.last()),
            crate::rule_parser::noun_targets(words, order.last(), words.len() as int),
        );
        let co = changes_of_order(words, order);
        let pre = changes_of_order(words, order.drop_last());
        let tail = changes_from_targets(
            crate::rule_parser::noun_block(order.last()),
            crate::rule_parser::noun_targets(words, order.last(), words.len() as int),
        );
        assert forall|k: int| 0 <= k < co.len() implies entry_ok(#[trigger] co[k]) by {
            if k < pre.len() {
                assert(co[k] == pre[k]);
            } else {
                assert(co[k] == tail[k - pre.len()]);
            }
        }
    }
}

pub proof fn lemma_changes_from_targets_wf(from: Block, ts: Seq<TextBlock>)
    ensures
        wf_queue(changes_from_targets(from, ts)),
    decreases ts.len(),
{
    if ts.len() > 0 {
        lemma_changes_from_targets_wf(from, ts.drop_last());
        let cf = changes_from_targets(from, ts);
        let pre = changes_from_targets(from, ts.drop_last());
        assert forall|k: int| 0 <= k < cf.len() implies entry_ok(#[trigger] cf[k]) by {
            if k < pre.len() {
                assert(cf[k] == pre[k]);
            }
        }
    }
}

/// Concatenating well-formed queues keeps them well formed.
pub proof fn lemma_wf_queue_concat(a: Seq<QueueEntry>, b: Seq<QueueEntry>)
    requires
        wf_queue(a),
        wf_queue(b),
    ensures
        wf_queue(a + b),
{
    assert forall|k: int| 0 <= k < (a + b).len() implies entry_ok(#[trigger] (a + b)[k]) by {
        if k < a.len() {
            assert((a + b)[k] == a[k]);
        } else {
            assert((a + b)[k] == b[k - a.len()]);
        }
    }
}

/// The shared state one step driver owns.
pub struct Engine {
    pub block_attributes: BlockAttributes,
    pub tile_map: TileMap,
    pub queue: Queue,
    pub world_recorder: WorldRecorder,
    pub constraints: Constraints,
}

impl Engine {
    pub fn new(constraints: Constraints) -> (e: Engine)
        ensures
            e.constraints == constraints,
            ba_view(e.block_attributes.entries@) == Seq::<(Block, Seq<Attribute>)>::empty(),
            e.tile_map.content@ == Seq::<crate::game_logic_types::TileInfo>::empty(),
            e.queue.entries@ == Seq::<QueueEntry>::empty(),
            e.world_recorder.records@.len() == 0,
            e.world_recorder.head_len == 0,
            e.world_recorder.user_input == false,
            e.world_recorder.record == false,
            wf_recorder(e.world_recorder),
    {
        Engine {
            block_attributes: BlockAttributes::new(),
            tile_map: TileMap::new(),
            queue: Queue::new(),
            world_recorder: WorldRecorder::new(),
            constraints,
        }
    }

    /// Run one simulation step: clamp and settle all motion, rebuild the
    /// tile index, take the recorder's step decision and produce intents,
    /// re-parse the rules, record the pre-resolution snapshot when real
    /// input arrived, restore a snapshot instead on undo or redo, and
    /// resolve the queue. Returns the win / level-select signals the step
    /// raised.
    pub fn step(&mut self, world: &mut World, input: &StepInput) -> (signals: StepSignals)
        requires
            wf_world(old(world).tiles@),
            wf_constraints(old(self).constraints),
            wf_recorder(old(self).world_recorder),
            old(self).world_recorder.head_len < usize::MAX,
        ensures
            wf_world(final(world).tiles@),
            wf_recorder(final(self).world_recorder),
            final(self).constraints == old(self).constraints,
            final(self).world_recorder.head_len <= final(self).world_recorder.records@.len(),
            ({
                let c = old(self).constraints;
                let w2 = old(world).tiles@.map_values(
                    |t: Tile| settle_tile(constrain_tile(t, c)),
                );
                let tm2 = snapshot_index(w2);
                let f1 = reset_frames(old(self).world_recorder);
                let h1 = reset_head(old(self).world_recorder);
                if input.redo {
                    let f2 = undo_step_frames(old(self).world_recorder, w2);
                    let h2 = if h1 < f2.len() {
                        h1 + 1
                    } else {
                        h1
                    };
                    &&& final(self).tile_map.content@ == tm2
                    &&& final(self).queue.entries@ == Seq::<QueueEntry>::empty()
                    &&& rec_view(final(self).world_recorder.records@) == f2
                    &&& final(self).world_recorder.head_len == h2
                    &&& final(self).world_recorder.user_input == false
                    &&& final(self).world_recorder.record == false
                    &&& final(world).tiles@ == (if h2 > 0 {
                        w2.map_values(|t: Tile| restore_tile(t, f2[h2 - 1]))
                    } else {
                        w2
                    })
                    &&& signals.wins@.len() == 0
                    &&& signals.level_selects@.len() == 0
                } else if input.undo {
                    let f2 = undo_step_frames(old(self).world_recorder, w2);
                    let h2 = if h1 > 0 {
                        h1 - 1
                    } else {
                        0int
                    };
                    &&& final(self).tile_map.content@ == tm2
                    &&& final(self).queue.entries@ == Seq::<QueueEntry>::empty()
                    &&& rec_view(final(self).world_recorder.records@) == f2
                    &&& final(self).world_recorder.head_len == h2
                    &&& final(self).world_recorder.user_input == false
                    &&& final(self).world_recorder.record == false
                    &&& final(world).tiles@ == (if h2 > 0 {
                        w2.map_values(|t: Tile| restore_tile(t, f2[h2 - 1]))
                    } else {
                        w2
                    })
                    &&& signals.wins@.len() == 0
                    &&& signals.level_selects@.len() == 0
                } else {
                    let ba0 = ba_view(old(self).block_attributes.entries@);
                    let dir = input.direction;
                    let w3 = w2.map_values(|t: Tile| flip_tile(t, ba0, dir));
                    let words = text_tiles(w3);
                    let ba1 = rule_table(words);
                    let q2 = produced_queue(w2, ba0, dir) + change_edges(words);
                    let ui = dir != BlockDirection::Still && any_you(w2, ba0);
                    &&& final(self).tile_map.content@ == tm2
                    &&& ba_view(final(self).block_attributes.entries@) == ba1
                    &&& final(self).queue.entries@ == q2
                    &&& rec_view(final(self).world_recorder.records@) == (if ui {
                        recorded_frames(f1, h1, w3)
                    } else {
                        f1
                    })
                    &&& final(self).world_recorder.head_len == (if ui {
                        recorded_head(h1, w3)
                    } else {
                        h1
                    })
                    &&& final(self).world_recorder.user_input == ui
                    &&& final(self).world_recorder.record == !ui
                    &&& final(world).tiles@ == remove_deleted(
                        w3.map_values(|t: Tile| commit_tile(t, q2, tm2, ba1, c)),
                        delete_spec(q2) + sink_spec(tm2, ba1, q2),
                    )
                    &&& signals.wins@.len() == wins_spec(tm2, ba1, q2)
                    &&& signals.level_selects@.map_values(|s: crate::game_logic_types::PlayerLevelSelect| s.0)
                        == selects_spec(tm2, ba1, q2)
                }
            }),
    {
        let ghost c = self.constraints;
        apply_constraints(world, &self.constraints);
        apply_mover(world);
        let ghost w2 = world.tiles@;
        proof {
            assert(w2 =~= old(world).tiles@.map_values(
                |t: Tile| settle_tile(constrain_tile(t, c)),
            ));
        }
        map_tiles(world, &mut self.tile_map);
        apply_attributes(
            world,
            &mut self.queue,
            &mut self.world_recorder,
            &self.block_attributes,
            input,
        );
        if input.redo || input.undo {
            apply_record_to_world(world, &self.world_recorder);
            return StepSignals { wins: Vec::new(), level_selects: Vec::new() };
        }
        let ghost w3 = world.tiles@;
        let words = collect_text(world);
        evaluate_text(&words, &mut self.block_attributes, &mut self.queue);
        record_world(world, &mut self.world_recorder);
        apply_record_to_world(world, &self.world_recorder);
        proof {
            lemma_produced_wf(w2, ba_view(old(self).block_attributes.entries@), input.direction);
            lemma_changes_wf(words@);
            lemma_wf_queue_concat(
                produced_queue(w2, ba_view(old(self).block_attributes.entries@), input.direction),
                change_edges(words@),
            );
        }
        apply_queue(
            world,
            &self.queue,
            &self.tile_map,
            &self.block_attributes,
            &self.constraints,
        )
    }
}

} // verus!
