//! The data model: tile kinds, word kinds, attributes, grid positions,
//! motion records, the action queue, the tile index, the attribute table
//! and the undo/redo recorder.

use vstd::prelude::*;

verus! {

/// One grid cell is this many position units wide.
pub const GRID_STEP: i32 = 16;

/// Every position the engine handles stays within this bound, which leaves
/// ample room in `i32` for single-cell arithmetic.
pub const MAX_COORD: i32 = 0x1000_0000;

/// A grid position: two integer coordinates, sixteen units per cell.
/// Drawing order is a display concern and carries no simulation meaning,
/// so it has no place here.
#[derive(Clone, Copy, PartialEq, Eq, Structural, Hash, Debug)]
pub struct Pos {
    pub x: i32,
    pub y: i32,
}

pub open spec fn coord_ok(x: int) -> bool {
    -(MAX_COORD as int) <= x <= MAX_COORD as int
}

pub open spec fn pos_ok(p: Pos) -> bool {
    coord_ok(p.x as int) && coord_ok(p.y as int)
}

/// The kind of an object tile (word tiles all share the `Text` kind).
#[derive(Clone, Copy, PartialEq, Eq, Structural, Hash, Debug)]
pub enum Block {
    Bevy,
    Wall,
    Rock,
    Text,
    Flag,
    Tree,
    Path,
    Water,
    Level01,
    Level02,
    Level03,
    Level04,
    Level05,
    Level06,
    Level07,
    Level08,
    Level09,
    Air,
}

/// The word carried by a word tile: nouns, properties and the copula `Is`.
#[derive(Clone, Copy, PartialEq, Eq, Structural, Hash, Debug)]
pub enum TextBlock {
    Bevy,
    Is,
    You,
    Rock,
    Push,
    Wall,
    Stop,
    Flag,
    Win,
    Tree,
    Sink,
    Water,
}

/// A directional intent; `Still` means no motion this step.
#[derive(Clone, Copy, PartialEq, Eq, Structural, Debug)]
pub enum BlockDirection {
    Right,
    Left,
    Up,
    Down,
    Still,
}

/// Per-tile motion record. `complete == true` means the tile is settled:
/// it is not interpolating and occupies its target.
#[derive(Clone, Copy, PartialEq, Eq, Structural, Debug)]
pub struct Mover {
    pub target: Pos,
    pub complete: bool,
}

/// A behaviour granted to a tile kind by the rule parser.
#[derive(Clone, Copy, PartialEq, Eq, Structural, Debug)]
pub enum Attribute {
    You,
    Stop,
    Push,
    Win,
    Sink,
    LevelSelect(usize),
}

/// One tile of the live world: stable id, kind, the word it carries if it is
/// a word tile, current position, motion record and the cosmetic flip flag.
#[derive(Clone, Copy, Debug)]
pub struct Tile {
    pub id: u64,
    pub block: Block,
    pub text: Option<TextBlock>,
    pub pos: Pos,
    pub mover: Mover,
    pub flip_x: bool,
}

/// The whole set of live tiles, the arena every step works over.
#[derive(Clone, Debug)]
pub struct World {
    pub tiles: Vec<Tile>,
}

pub open spec fn tile_ok(t: Tile) -> bool {
    pos_ok(t.pos) && pos_ok(t.mover.target)
}

/// Well-formedness of the arena: bounded positions and pairwise distinct ids.
pub open spec fn wf_world(tiles: Seq<Tile>) -> bool {
    &&& forall|i: int| 0 <= i < tiles.len() ==> tile_ok(#[trigger] tiles[i])
    &&& forall|i: int, j: int|
        0 <= i < tiles.len() && 0 <= j < tiles.len() && i != j ==> #[trigger] tiles[i].id
            != #[trigger] tiles[j].id
}

/// Every tile settled: the step boundary of the motion state machine.
pub open spec fn all_settled(tiles: Seq<Tile>) -> bool {
    forall|i: int| 0 <= i < tiles.len() ==> (#[trigger] tiles[i]).mover.complete
}

/// The rectangular playfield `[start, end]`, both corners inclusive.
#[derive(Clone, Copy, Debug)]
pub struct Constraints {
    pub start: Pos,
    pub end: Pos,
}

/// A coordinate one full cell away from the playfield edge still satisfies
/// `coord_ok`, so chain resolution can step one cell past any corner.
pub open spec fn inner_coord_ok(x: int) -> bool {
    -(MAX_COORD as int) + GRID_STEP <= x <= MAX_COORD as int - GRID_STEP
}

pub open spec fn inner_pos_ok(p: Pos) -> bool {
    inner_coord_ok(p.x as int) && inner_coord_ok(p.y as int)
}

pub open spec fn wf_constraints(c: Constraints) -> bool {
    inner_pos_ok(c.start) && inner_pos_ok(c.end)
}

/// A position at most two cells beyond the legal range; stepping such a
/// position one more cell still cannot overflow `i32`.
pub open spec fn near_coord_ok(x: int) -> bool {
    -(MAX_COORD as int) - 32 <= x <= MAX_COORD as int + 32
}

pub open spec fn near_pos_ok(p: Pos) -> bool {
    near_coord_ok(p.x as int) && near_coord_ok(p.y as int)
}

/// Raised when a player-controlled tile stands on a win-trigger cell.
#[derive(Clone, Copy, Debug)]
pub struct PlayerHasWon;

/// Raised when a player-controlled tile stands on a shared level-select cell.
#[derive(Clone, Copy, Debug)]
pub struct PlayerLevelSelect(pub usize);

/// Index of the level the outer driver is currently in.
#[derive(Clone, Copy, Debug)]
pub struct LevelIndex(pub usize);

/// The outer application state the win / level-select signals steer.
#[derive(Clone, Copy, PartialEq, Eq, Structural, Hash, Debug)]
pub enum AppState {
    MainArea,
    Game,
}

/// The already-decoded player input sampled once per step.
#[derive(Clone, Copy, Debug)]
pub struct StepInput {
    pub direction: BlockDirection,
    pub undo: bool,
    pub redo: bool,
}

/// The signals one resolved step hands to the outer driver.
#[derive(Clone, Debug)]
pub struct StepSignals {
    pub wins: Vec<PlayerHasWon>,
    pub level_selects: Vec<PlayerLevelSelect>,
}

/// A pending intent for one tile.
#[derive(Clone, Copy, Debug)]
pub enum QueueType {
    Move(BlockDirection, Pos),
    ChangeBlock(Block, Block),
    WinOn(Pos),
    Sink(Pos),
    LevelSelect(Pos, usize),
    Delete,
}

#[derive(Clone, Copy, Debug)]
pub struct QueueEntry {
    pub id: u64,
    pub queue_type: QueueType,
}

/// Positions named by an intent stay bounded, so chain resolution can step
/// one cell beyond them without overflow.
pub open spec fn entry_ok(e: QueueEntry) -> bool {
    match e.queue_type {
        QueueType::Move(_, p) => pos_ok(p),
        QueueType::WinOn(p) => pos_ok(p),
        QueueType::Sink(p) => pos_ok(p),
        QueueType::LevelSelect(p, _) => pos_ok(p),
        QueueType::ChangeBlock(_, _) => true,
        QueueType::Delete => true,
    }
}

pub open spec fn wf_queue(q: Seq<QueueEntry>) -> bool {
    forall|i: int| 0 <= i < q.len() ==> entry_ok(#[trigger] q[i])
}

pub open spec fn queue_has_id(q: Seq<QueueEntry>, id: u64) -> bool {
    exists|i: int| 0 <= i < q.len() && (#[trigger] q[i]).id == id
}

/// The per-step action queue: ordered by submission, deduplicated by tile id
/// (the first intent submitted for an id wins, later ones are dropped).
#[derive(Clone, Debug)]
pub struct Queue {
    pub entries: Vec<QueueEntry>,
}

impl Queue {
    pub fn new() -> (q: Queue)
        ensures
            q.entries@ == Seq::<QueueEntry>::empty(),
    {
        Queue { entries: Vec::new() }
    }

    /// Submit an intent for a tile; dropped if the tile already has one.
    pub fn push(&mut self, entity_id: u64, queue_type: QueueType)
        ensures
            queue_has_id(old(self).entries@, entity_id) ==> final(self).entries@ == old(
                self,
            ).entries@,
            !queue_has_id(old(self).entries@, entity_id) ==> final(self).entries@ == old(
                self,
            ).entries@.push(QueueEntry { id: entity_id, queue_type }),
    {
        let n = self.entries.len();
        for i in 0..n
            invariant
                n == self.entries.len(),
                forall|j: int| 0 <= j < i ==> (#[trigger] self.entries@[j]).id != entity_id,
        {
            if self.entries[i].id == entity_id {
                return ;
            }
        }
        self.entries.push(QueueEntry { id: entity_id, queue_type });
    }

    /// Submit an intent that is not tied to a live tile (kind transmutations);
    /// these carry the reserved id 0 and bypass deduplication.
    pub fn push_type(&mut self, queue_type: QueueType)
        ensures
            final(self).entries@ == old(self).entries@.push(
                QueueEntry { id: 0u64, queue_type },
            ),
    {
        self.entries.push(QueueEntry { id: 0u64, queue_type });
    }

    pub fn get(&self, index: usize) -> (r: Option<QueueEntry>)
        ensures
            index < self.entries@.len() ==> r == Some(self.entries@[index as int]),
            index >= self.entries@.len() ==> r is None,
    {
        if index < self.entries.len() {
            Some(self.entries[index])
        } else {
            None
        }
    }

    pub fn len(&self) -> (n: usize)
        ensures
            n == self.entries@.len(),
    {
        self.entries.len()
    }

    pub fn reset(&mut self)
        ensures
            final(self).entries@ == Seq::<QueueEntry>::empty(),
    {
        self.entries.clear();
    }
}

/// One tile-index row: id, position and kind snapshot of a settled tile.
pub type TileInfo = (u64, Pos, Block);

/// The rows of `s` whose position equals `p`, in order.
pub open spec fn entries_at(s: Seq<TileInfo>, p: Pos) -> Seq<TileInfo>
    decreases s.len(),
{
    if s.len() == 0 {
        Seq::empty()
    } else {
        let rest = entries_at(s.drop_last(), p);
        if s.last().1 == p {
            rest.push(s.last())
        } else {
            rest
        }
    }
}

pub open spec fn wf_tile_map(s: Seq<TileInfo>) -> bool {
    forall|i: int| 0 <= i < s.len() ==> pos_ok((#[trigger] s[i]).1)
}

/// The rebuildable spatial index: position to the tiles standing there.
/// Valid only between "all motion settled" and the next motion.
#[derive(Clone, Debug)]
pub struct TileMap {
    pub content: Vec<TileInfo>,
}

impl TileMap {
    pub fn new() -> (m: TileMap)
        ensures
            m.content@ == Seq::<TileInfo>::empty(),
    {
        TileMap { content: Vec::new() }
    }

    /// All occupants of the cell at `translation`, or `None` if it is empty.
    pub fn get(&self, translation: Pos) -> (r: Option<Vec<TileInfo>>)
        ensures
            match r {
                Option::Some(v) => v@ == entries_at(self.content@, translation) && v@.len() > 0,
                Option::None => entries_at(self.content@, translation).len() == 0,
            },
    {
        let mut found: Vec<TileInfo> = Vec::new();
        let n = self.content.len();
        for i in 0..n
            invariant
                n == self.content.len(),
                found@ == entries_at(self.content@.subrange(0, i as int), translation),
        {
            proof {
                assert(self.content@.subrange(0, i + 1).drop_last() =~= self.content@.subrange(
                    0,
                    i as int,
                ));
                assert(self.content@.subrange(0, i + 1).last() == self.content@[i as int]);
            }
            let item = self.content[i];
            if item.1 == translation {
                found.push(item);
            }
        }
        proof {
            assert(self.content@.subrange(0, n as int) =~= self.content@);
        }
        if found.len() == 0 {
            None
        } else {
            Some(found)
        }
    }

    #[inline]
    pub fn push(&mut self, item: TileInfo)
        ensures
            final(self).content@ == old(self).content@.push(item),
    {
        self.content.push(item);
    }

    #[inline]
    pub fn clear(&mut self)
        ensures
            final(self).content@ == Seq::<TileInfo>::empty(),
    {
        self.content.clear();
    }
}

/// Deep view of the attribute table: kind with its attribute list.
pub open spec fn ba_view(entries: Seq<(Block, Vec<Attribute>)>) -> Seq<(Block, Seq<Attribute>)> {
    entries.map_values(|e: (Block, Vec<Attribute>)| (e.0, e.1@))
}

/// First entry for `b`, if any.
pub open spec fn lookup_attrs(s: Seq<(Block, Seq<Attribute>)>, b: Block) -> Option<Seq<Attribute>>
    decreases s.len(),
{
    if s.len() == 0 {
        None
    } else if s[0].0 == b {
        Some(s[0].1)
    } else {
        lookup_attrs(s.skip(1), b)
    }
}

/// The attributes of a kind; a kind without an entry has none.
pub open spec fn attrs_of(s: Seq<(Block, Seq<Attribute>)>, b: Block) -> Seq<Attribute> {
    match lookup_attrs(s, b) {
        Option::Some(a) => a,
        Option::None => Seq::empty(),
    }
}

pub open spec fn has_attr(s: Seq<(Block, Seq<Attribute>)>, b: Block, a: Attribute) -> bool {
    attrs_of(s, b).contains(a)
}

pub open spec fn ba_has_key(s: Seq<(Block, Seq<Attribute>)>, b: Block) -> bool {
    exists|i: int| 0 <= i < s.len() && (#[trigger] s[i]).0 == b
}

/// Rewriting the first entry of a key changes that key's lookup and no
/// other.
pub proof fn lemma_lookup_update(
    s: Seq<(Block, Seq<Attribute>)>,
    i: int,
    b: Block,
    a: Seq<Attribute>,
)
    requires
        0 <= i < s.len(),
        s[i].0 == b,
        forall|j: int| 0 <= j < i ==> (#[trigger] s[j]).0 != b,
    ensures
        lookup_attrs(s.update(i, (b, a)), b) == Some(a),
        forall|b2: Block|
            b2 != b ==> #[trigger] lookup_attrs(s.update(i, (b, a)), b2) == lookup_attrs(s, b2),
    decreases s.len(),
{
    let u = s.update(i, (b, a));
    if i == 0 {
        assert(u[0] == (b, a));
        assert forall|b2: Block| b2 != b implies #[trigger] lookup_attrs(u, b2) == lookup_attrs(
            s,
            b2,
        ) by {
            assert(u.skip(1) =~= s.skip(1));
            assert(lookup_attrs(u, b2) == lookup_attrs(u.skip(1), b2));
            assert(lookup_attrs(s, b2) == lookup_attrs(s.skip(1), b2));
        }
    } else {
        assert(u[0] == s[0]);
        assert(u.skip(1) =~= s.skip(1).update(i - 1, (b, a)));
        lemma_lookup_update(s.skip(1), i - 1, b, a);
        assert(lookup_attrs(u, b) == lookup_attrs(u.skip(1), b));
        assert(lookup_attrs(u.skip(1), b) == Some(a));
        assert forall|b2: Block| b2 != b implies #[trigger] lookup_attrs(u, b2) == lookup_attrs(
            s,
            b2,
        ) by {
            if s[0].0 == b2 {
                assert(lookup_attrs(u, b2) == Some(u[0].1));
                assert(lookup_attrs(s, b2) == Some(s[0].1));
            } else {
                assert(lookup_attrs(u, b2) == lookup_attrs(u.skip(1), b2));
                assert(lookup_attrs(s, b2) == lookup_attrs(s.skip(1), b2));
            }
        }
    }
}

/// The attribute table: kind to its active attributes, rebuilt from scratch
/// by the rule parser before every evaluation.
#[derive(Clone, Debug)]
pub struct BlockAttributes {
    pub entries: Vec<(Block, Vec<Attribute>)>,
}

impl BlockAttributes {
    pub fn new() -> (b: BlockAttributes)
        ensures
            ba_view(b.entries@) == Seq::<(Block, Seq<Attribute>)>::empty(),
    {
        let b = BlockAttributes { entries: Vec::new() };
        proof {
            assert(ba_view(b.entries@) =~= Seq::<(Block, Seq<Attribute>)>::empty());
        }
        b
    }

    pub fn clear(&mut self)
        ensures
            ba_view(final(self).entries@) == Seq::<(Block, Seq<Attribute>)>::empty(),
    {
        self.entries.clear();
        proof {
            assert(ba_view(self.entries@) =~= Seq::<(Block, Seq<Attribute>)>::empty());
        }
    }

    /// Give `b` exactly the attributes `attrs`, replacing any earlier entry.
    pub fn insert(&mut self, b: Block, attrs: Vec<Attribute>)
        ensures
            !ba_has_key(ba_view(old(self).entries@), b) ==> ba_view(final(self).entries@)
                == ba_view(old(self).entries@).push((b, attrs@)),
            ba_has_key(ba_view(old(self).entries@), b) ==> {
                &&& ba_view(final(self).entries@).len() == ba_view(old(self).entries@).len()
                &&& lookup_attrs(ba_view(final(self).entries@), b) == Some(attrs@)
                &&& forall|b2: Block|
                    b2 != b ==> #[trigger] lookup_attrs(ba_view(final(self).entries@), b2)
                        == lookup_attrs(ba_view(old(self).entries@), b2)
            },
    {
        let n = self.entries.len();
        for i in 0..n
            invariant
                n == self.entries@.len(),
                self.entries@ == old(self).entries@,
                forall|j: int| 0 <= j < i ==> (#[trigger] ba_view(self.entries@)[j]).0 != b,
        {
            if self.entries[i].0 == b {
                let ghost av = attrs@;
                self.entries.set(i, (b, attrs));
                proof {
                    assert(ba_view(old(self).entries@)[i as int].0 == b);
                    assert(ba_has_key(ba_view(old(self).entries@), b));
                    assert(ba_view(self.entries@) =~= ba_view(old(self).entries@).update(
                        i as int,
                        (b, av),
                    ));
                    lemma_lookup_update(ba_view(old(self).entries@), i as int, b, av);
                }
                return ;
            }
        }
        self.entries.push((b, attrs));
        proof {
            assert(ba_view(self.entries@) =~= ba_view(old(self).entries@).push((b, attrs@)));
        }
    }

    /// The attribute list of `b`, or `None` when the table has no entry.
    pub fn get(&self, b: Block) -> (r: Option<&Vec<Attribute>>)
        ensures
            match r {
                Option::Some(v) => lookup_attrs(ba_view(self.entries@), b) == Some(v@),
                Option::None => lookup_attrs(ba_view(self.entries@), b) is None,
            },
    {
        let n = self.entries.len();
        proof {
            assert(ba_view(self.entries@).skip(0) =~= ba_view(self.entries@));
        }
        for i in 0..n
            invariant
                n == self.entries.len(),
                lookup_attrs(ba_view(self.entries@), b) == lookup_attrs(
                    ba_view(self.entries@).skip(i as int),
                    b,
                ),
        {
            proof {
                assert(ba_view(self.entries@).skip(i as int)[0] == ba_view(self.entries@)[i as int]);
                assert(ba_view(self.entries@).skip(i as int).skip(1) =~= ba_view(
                    self.entries@,
                ).skip(i + 1));
            }
            if self.entries[i].0 == b {
                return Some(&self.entries[i].1);
            }
        }
        proof {
            assert(ba_view(self.entries@).skip(n as int) =~= Seq::<(Block, Seq<Attribute>)>::empty());
        }
        None
    }
}

/// One recorded tile snapshot inside a history frame.
#[derive(Clone, Copy, Debug)]
pub struct RecordData {
    pub id: u64,
    pub pos: Pos,
    pub block_type: Block,
    pub flip_sprite: bool,
}

/// Deep view of the history: a sequence of frames, each a sequence of rows.
pub open spec fn rec_view(records: Seq<Vec<RecordData>>) -> Seq<Seq<RecordData>> {
    records.map_values(|f: Vec<RecordData>| f@)
}

pub open spec fn wf_frame(f: Seq<RecordData>) -> bool {
    forall|i: int| 0 <= i < f.len() ==> pos_ok((#[trigger] f[i]).pos)
}

pub open spec fn wf_recorder(r: WorldRecorder) -> bool {
    &&& r.head_len <= r.records@.len()
    &&& forall|i: int| 0 <= i < r.records@.len() ==> wf_frame(#[trigger] rec_view(r.records@)[i])
}

/// The undo/redo history: an ordered list of full-world snapshot frames and
/// a head pointer in `[0, length]`. Moving the head never mutates the list;
/// only recording past the head truncates it (branch pruning).
#[derive(Clone, Debug)]
pub struct WorldRecorder {
    pub records: Vec<Vec<RecordData>>,
    pub head_len: usize,
    pub user_input: bool,
    pub record: bool,
}

impl WorldRecorder {
    pub fn new() -> (r: WorldRecorder)
        ensures
            r.records@.len() == 0,
            r.head_len == 0,
            r.user_input == false,
            r.record == false,
            wf_recorder(r),
    {
        WorldRecorder { records: Vec::new(), head_len: 0, user_input: false, record: false }
    }

    /// Step protocol: if the previous step saw user input, prune the redo
    /// future, open a fresh empty frame and advance the head; then arm
    /// recording and clear the input flag.
    pub fn reset(&mut self)
        requires
            wf_recorder(*old(self)),
            old(self).head_len < usize::MAX,
        ensures
            wf_recorder(*final(self)),
            old(self).user_input ==> rec_view(final(self).records@) == rec_view(
                old(self).records@,
            ).subrange(0, old(self).head_len as int).push(Seq::<RecordData>::empty())
                && final(self).head_len == old(self).head_len + 1,
            !old(self).user_input ==> final(self).records@ == old(self).records@
                && final(self).head_len == old(self).head_len,
            final(self).record == true,
            final(self).user_input == false,
    {
        if self.user_input {
            self.records.truncate(self.head_len);
            self.head_len = self.head_len + 1;
            self.records.push(Vec::new());
            proof {
                assert(rec_view(self.records@) =~= rec_view(old(self).records@).subrange(
                    0,
                    old(self).head_len as int,
                ).push(Seq::<RecordData>::empty()));
            }
        }
        self.record = true;
        self.user_input = false;
    }

    /// The frame under the head, if the head points into the list.
    pub fn get(&self) -> (r: Option<&Vec<RecordData>>)
        ensures
            match r {
                Option::Some(f) => 0 < self.head_len <= self.records@.len() && f@ == rec_view(
                    self.records@,
                )[self.head_len - 1],
                Option::None => self.head_len == 0 || self.head_len > self.records@.len(),
            },
    {
        if self.head_len == 0 || self.head_len > self.records.len() {
            None
        } else {
            Some(&self.records[self.head_len - 1])
        }
    }

    /// Append one tile snapshot to the frame under the head, pruning any
    /// redo future first; with no open frame, one is opened.
    pub fn push(&mut self, id: u64, pos: Pos, block_type: Block, flip_sprite: bool)
        requires
            wf_recorder(*old(self)),
            pos_ok(pos),
        ensures
            wf_recorder(*final(self)),
            final(self).user_input == old(self).user_input,
            final(self).record == old(self).record,
            old(self).head_len > 0 ==> final(self).head_len == old(self).head_len && rec_view(
                final(self).records@,
            ) == rec_view(old(self).records@).subrange(0, old(self).head_len as int).update(
                old(self).head_len - 1,
                rec_view(old(self).records@)[old(self).head_len - 1].push(
                    RecordData { id, pos, block_type, flip_sprite },
                ),
            ),
            old(self).head_len == 0 ==> final(self).head_len == 1 && rec_view(
                final(self).records@,
            ) == seq![
                seq![RecordData { id, pos, block_type, flip_sprite }],
            ],
    {
        self.records.truncate(self.head_len);
        if self.head_len == 0 {
            self.records.push(Vec::new());
            self.head_len = 1;
        }
        let data = RecordData { id, pos, block_type, flip_sprite };
        let mut frame = match self.records.pop() {
            Option::Some(f) => f,
            Option::None => Vec::new(),
        };
        frame.push(data);
        self.records.push(frame);
        proof {
            if old(self).head_len > 0 {
                assert(rec_view(self.records@) =~= rec_view(old(self).records@).subrange(
                    0,
                    old(self).head_len as int,
                ).update(
                    old(self).head_len - 1,
                    rec_view(old(self).records@)[old(self).head_len - 1].push(data),
                ));
            } else {
                assert(rec_view(self.records@) =~= seq![seq![data]]);
            }
        }
    }

    /// Move the head one frame back, floored at zero; disarm recording.
    pub fn undo(&mut self)
        ensures
            final(self).records@ == old(self).records@,
            final(self).user_input == old(self).user_input,
            final(self).record == false,
            final(self).head_len == if old(self).head_len > 0 {
                (old(self).head_len - 1) as int
            } else {
                0int
            },
    {
        self.record = false;
        if self.head_len > 0 {
            self.head_len = self.head_len - 1;
        }
    }

    /// Move the head one frame forward, capped at the list length; disarm
    /// recording.
    pub fn redo(&mut self)
        ensures
            final(self).records@ == old(self).records@,
            final(self).user_input == old(self).user_input,
            final(self).record == false,
            final(self).head_len == if old(self).head_len < old(self).records@.len() {
                old(self).head_len + 1
            } else {
                old(self).head_len as int
            },
    {
        self.record = false;
        if self.head_len < self.records.len() {
            self.head_len = self.head_len + 1;
        }
    }

    /// Drop the whole history.
    pub fn clear(&mut self)
        ensures
            final(self).records@.len() == 0,
            final(self).head_len == 0,
            final(self).record == false,
            final(self).user_input == old(self).user_input,
            wf_recorder(*final(self)),
    {
        self.record = false;
        self.head_len = 0;
        self.records.clear();
    }
}

} // verus!
