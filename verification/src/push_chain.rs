//! The push-chain resolver: starting one cell beyond a mover, walk cell by
//! cell in the push direction, gathering every pushable occupant; a blocking
//! occupant or the playfield edge discards the whole chain, an empty cell
//! commits it.

use vstd::prelude::*;

use crate::game_logic::{clamp_position, in_bounds};
use crate::game_logic_types::{
    ba_view, entries_at, has_attr, near_pos_ok, pos_ok, wf_constraints, wf_tile_map, Attribute,
    BlockAttributes, BlockDirection, Constraints, Pos, TileInfo, TileMap,
};

verus! {

pub open spec fn dir_dx(d: BlockDirection) -> int {
    match d {
        BlockDirection::Right => 16,
        BlockDirection::Left => -16,
        _ => 0,
    }
}

pub open spec fn dir_dy(d: BlockDirection) -> int {
    match d {
        BlockDirection::Up => 16,
        BlockDirection::Down => -16,
        _ => 0,
    }
}

/// One grid cell further in direction `d`.
pub open spec fn step_pos(p: Pos, d: BlockDirection) -> Pos {
    Pos { x: (p.x + dir_dx(d)) as i32, y: (p.y + dir_dy(d)) as i32 }
}

pub fn step_position(p: Pos, d: BlockDirection) -> (r: Pos)
    requires
        near_pos_ok(p),
    ensures
        r == step_pos(p, d),
{
    match d {
        BlockDirection::Right => Pos { x: p.x + 16, y: p.y },
        BlockDirection::Left => Pos { x: p.x - 16, y: p.y },
        BlockDirection::Up => Pos { x: p.x, y: p.y + 16 },
        BlockDirection::Down => Pos { x: p.x, y: p.y - 16 },
        BlockDirection::Still => p,
    }
}

/// Whether any occupant of cell `p` carries the blocking attribute.
pub open spec fn cell_blocked(
    tm: Seq<TileInfo>,
    ba: Seq<(crate::game_logic_types::Block, Seq<Attribute>)>,
    p: Pos,
) -> bool {
    exists|i: int|
        0 <= i < entries_at(tm, p).len() && has_attr(
            ba,
            (#[trigger] entries_at(tm, p)[i]).2,
            Attribute::Stop,
        )
}

/// The occupants of a row list that carry the pushable attribute, in order.
pub open spec fn pushables_of(
    es: Seq<TileInfo>,
    ba: Seq<(crate::game_logic_types::Block, Seq<Attribute>)>,
) -> Seq<TileInfo>
    decreases es.len(),
{
    if es.len() == 0 {
        Seq::empty()
    } else {
        let rest = pushables_of(es.drop_last(), ba);
        if has_attr(ba, es.last().2, Attribute::Push) {
            rest.push(es.last())
        } else {
            rest
        }
    }
}

/// The pushable occupants of cell `p`.
pub open spec fn pushables_at(
    tm: Seq<TileInfo>,
    ba: Seq<(crate::game_logic_types::Block, Seq<Attribute>)>,
    p: Pos,
) -> Seq<TileInfo> {
    pushables_of(entries_at(tm, p), ba)
}

/// An upper bound on how many cells remain before the walk leaves the
/// playfield in direction `d`; it shrinks with every step.
pub open spec fn steps_to_edge(c: Constraints, p: Pos, d: BlockDirection) -> nat {
    match d {
        BlockDirection::Right => if p.x <= c.end.x {
            (c.end.x - p.x + 16) as nat
        } else {
            0
        },
        BlockDirection::Left => if p.x >= c.start.x {
            (p.x - c.start.x + 16) as nat
        } else {
            0
        },
        BlockDirection::Up => if p.y <= c.end.y {
            (c.end.y - p.y + 16) as nat
        } else {
            0
        },
        BlockDirection::Down => if p.y >= c.start.y {
            (p.y - c.start.y + 16) as nat
        } else {
            0
        },
        BlockDirection::Still => 0,
    }
}

/// The chain gathered from cell `p` outward: `None` discards the whole push
/// (edge or blocker), `Some` lists every pushed occupant with its new cell.
pub open spec fn chain_from(
    tm: Seq<TileInfo>,
    ba: Seq<(crate::game_logic_types::Block, Seq<Attribute>)>,
    c: Constraints,
    p: Pos,
    d: BlockDirection,
) -> Option<Seq<(u64, Pos)>>
    decreases steps_to_edge(c, p, d),
    when wf_constraints(c)
{
    if d == BlockDirection::Still || !in_bounds(p, c) {
        None
    } else if cell_blocked(tm, ba, p) {
        None
    } else if pushables_at(tm, ba, p).len() == 0 {
        Some(Seq::empty())
    } else {
        match chain_from(tm, ba, c, step_pos(p, d), d) {
            Option::Some(rest) => Some(
                pushables_at(tm, ba, p).map_values(|e: TileInfo| (e.0, step_pos(p, d))) + rest,
            ),
            Option::None => None,
        }
    }
}

/// Every new cell a committed chain names is a legal position.
pub proof fn lemma_chain_positions_ok(
    tm: Seq<TileInfo>,
    ba: Seq<(crate::game_logic_types::Block, Seq<Attribute>)>,
    c: Constraints,
    p: Pos,
    d: BlockDirection,
)
    requires
        wf_constraints(c),
    ensures
        match chain_from(tm, ba, c, p, d) {
            Option::Some(rest) => forall|i: int|
                0 <= i < rest.len() ==> pos_ok((#[trigger] rest[i]).1),
            Option::None => true,
        },
    decreases steps_to_edge(c, p, d),
{
    if d != BlockDirection::Still && in_bounds(p, c) && !cell_blocked(tm, ba, p) && pushables_at(
        tm,
        ba,
        p,
    ).len() > 0 {
        lemma_chain_positions_ok(tm, ba, c, step_pos(p, d), d);
    }
}

pub fn block_has_attribute(block_attributes: &BlockAttributes, b: crate::game_logic_types::Block, a: Attribute) -> (r:
    bool)
    ensures
        r == has_attr(ba_view(block_attributes.entries@), b, a),
{
    match block_attributes.get(b) {
        Option::Some(v) => {
            let n = v.len();
            for i in 0..n
                invariant
                    n == v@.len(),
                    lookup_same(ba_view(block_attributes.entries@), b, v@),
                    forall|j: int| 0 <= j < i ==> v@[j] != a,
            {
                if matches_attr(v[i], a) {
                    return true;
                }
            }
            false
        },
        Option::None => false,
    }
}

/// The attribute list the table gives `b` is exactly `s`.
pub open spec fn lookup_same(
    view: Seq<(crate::game_logic_types::Block, Seq<Attribute>)>,
    b: crate::game_logic_types::Block,
    s: Seq<Attribute>,
) -> bool {
    crate::game_logic_types::lookup_attrs(view, b) == Some(s)
}

fn matches_attr(a: Attribute, b: Attribute) -> (r: bool)
    ensures
        r == (a == b),
{
    a == b
}

/// Whether any row of `rows` carries the blocking attribute.
fn rows_any_stop(block_attributes: &BlockAttributes, rows: &Vec<TileInfo>) -> (r: bool)
    ensures
        r == exists|j: int|
            0 <= j < rows@.len() && has_attr(
                ba_view(block_attributes.entries@),
                (#[trigger] rows@[j]).2,
                Attribute::Stop,
            ),
{
    let n = rows.len();
    for i in 0..n
        invariant
            n == rows@.len(),
            forall|j: int|
                0 <= j < i ==> !has_attr(
                    ba_view(block_attributes.entries@),
                    (#[trigger] rows@[j]).2,
                    Attribute::Stop,
                ),
    {
        if block_has_attribute(block_attributes, rows[i].2, Attribute::Stop) {
            return true;
        }
    }
    false
}

/// Append every pushable row of `rows`, targeted one cell onward, and say
/// whether there was any.
fn gather_pushables(
    pushables: &mut Vec<(u64, Pos)>,
    block_attributes: &BlockAttributes,
    rows: &Vec<TileInfo>,
    next: Pos,
) -> (found: bool)
    ensures
        final(pushables)@ == old(pushables)@ + pushables_of(
            rows@,
            ba_view(block_attributes.entries@),
        ).map_values(|e: TileInfo| (e.0, next)),
        found == (pushables_of(rows@, ba_view(block_attributes.entries@)).len() > 0),
{
    let ghost ba = ba_view(block_attributes.entries@);
    let n = rows.len();
    let mut found = false;
    proof {
        assert(pushables@ =~= old(pushables)@ + pushables_of(rows@.subrange(0, 0), ba).map_values(
            |e: TileInfo| (e.0, next),
        ));
    }
    for i in 0..n
        invariant
            n == rows@.len(),
            ba == ba_view(block_attributes.entries@),
            pushables@ == old(pushables)@ + pushables_of(rows@.subrange(0, i as int), ba)
                .map_values(|e: TileInfo| (e.0, next)),
            found == (pushables_of(rows@.subrange(0, i as int), ba).len() > 0),
    {
        proof {
            assert(rows@.subrange(0, i + 1).drop_last() =~= rows@.subrange(0, i as int));
            assert(rows@.subrange(0, i + 1).last() == rows@[i as int]);
        }
        if block_has_attribute(block_attributes, rows[i].2, Attribute::Push) {
            pushables.push((rows[i].0, next));
            found = true;
            proof {
                assert(pushables@ =~= old(pushables)@ + pushables_of(
                    rows@.subrange(0, i + 1),
                    ba,
                ).map_values(|e: TileInfo| (e.0, next)));
            }
        } else {
            proof {
                assert(pushables@ =~= old(pushables)@ + pushables_of(
                    rows@.subrange(0, i + 1),
                    ba,
                ).map_values(|e: TileInfo| (e.0, next)));
            }
        }
    }
    proof {
        assert(rows@.subrange(0, n as int) =~= rows@);
    }
    found
}

/// Walk the cells beyond `position` in direction `increment`, appending
/// every pushable occupant with the cell it will be pushed into. An edge or
/// a blocking occupant anywhere discards the entire list, the caller's
/// already-queued mover included: the push is all-or-nothing.
pub fn check_for_pushable_tiles(
    pushables: &mut Vec<(u64, Pos)>,
    tile_map: &TileMap,
    block_attributes: &BlockAttributes,
    constraints: &Constraints,
    position: Pos,
    increment: BlockDirection,
)
    requires
        wf_tile_map(tile_map.content@),
        wf_constraints(*constraints),
        pos_ok(position),
        increment != BlockDirection::Still,
    ensures
        match chain_from(
            tile_map.content@,
            ba_view(block_attributes.entries@),
            *constraints,
            step_pos(position, increment),
            increment,
        ) {
            Option::Some(rest) => final(pushables)@ == old(pushables)@ + rest,
            Option::None => final(pushables)@.len() == 0,
        },
{
    let ghost tm = tile_map.content@;
    let ghost ba = ba_view(block_attributes.entries@);
    let ghost p0 = step_pos(position, increment);
    let mut p = step_position(position, increment);
    let ghost mut acc: Seq<(u64, Pos)> = Seq::empty();
    proof {
        assert(pushables@ =~= old(pushables)@ + acc);
    }
    loop
        invariant
            tm == tile_map.content@,
            ba == ba_view(block_attributes.entries@),
            p0 == step_pos(position, increment),
            wf_tile_map(tm),
            wf_constraints(*constraints),
            increment != BlockDirection::Still,
            near_pos_ok(p),
            pushables@ == old(pushables)@ + acc,
            match chain_from(tm, ba, *constraints, p, increment) {
                Option::Some(rest) => chain_from(tm, ba, *constraints, p0, increment) == Some(
                    acc + rest,
                ),
                Option::None => chain_from(tm, ba, *constraints, p0, increment) is None,
            },
        ensures
            match chain_from(tm, ba, *constraints, p0, increment) {
                Option::Some(rest) => pushables@ == old(pushables)@ + rest,
                Option::None => pushables@.len() == 0,
            },
        decreases steps_to_edge(*constraints, p, increment),
    {
        let clamped = clamp_position(p, constraints);
        if clamped.x != p.x || clamped.y != p.y {
            pushables.clear();
            proof {
                assert(!in_bounds(p, *constraints));
                assert(chain_from(tm, ba, *constraints, p, increment) is None);
            }
            return ;
        }
        proof {
            assert(in_bounds(p, *constraints));
            assert(pos_ok(p));
        }
        let occupants = tile_map.get(p);
        let rows = match occupants {
            Option::None => {
                proof {
                    assert(entries_at(tm, p).len() == 0);
                    assert(pushables_at(tm, ba, p) =~= Seq::<TileInfo>::empty());
                    assert(!cell_blocked(tm, ba, p));
                    assert(chain_from(tm, ba, *constraints, p, increment) == Some(Seq::<(
                        u64,
                        Pos,
                    )>::empty()));
                    assert(acc + Seq::<(u64, Pos)>::empty() =~= acc);
                }
                return ;
            },
            Option::Some(rows) => rows,
        };
        if rows_any_stop(block_attributes, &rows) {
            pushables.clear();
            proof {
                assert(cell_blocked(tm, ba, p));
                assert(chain_from(tm, ba, *constraints, p, increment) is None);
            }
            return ;
        }
        proof {
            assert(!cell_blocked(tm, ba, p));
        }
        let next = step_position(p, increment);
        let found_push = gather_pushables(pushables, block_attributes, &rows, next);
        proof {
            let pm = pushables_at(tm, ba, p).map_values(|e: TileInfo| (e.0, step_pos(p, increment)));
            let acc_before = acc;
            acc = acc + pm;
            assert(pushables@ =~= old(pushables)@ + acc);
            if !found_push {
                assert(pushables_at(tm, ba, p).len() == 0);
                assert(chain_from(tm, ba, *constraints, p, increment) == Some(Seq::<(
                    u64,
                    Pos,
                )>::empty()));
                assert(acc_before + Seq::<(u64, Pos)>::empty() =~= acc_before);
                assert(pm.len() == 0);
                assert(acc =~= acc_before);
            } else {
                assert(pushables_at(tm, ba, p).len() > 0);
                match chain_from(tm, ba, *constraints, step_pos(p, increment), increment) {
                    Option::Some(rest2) => {
                        assert(chain_from(tm, ba, *constraints, p, increment) == Some(pm + rest2));
                        assert(acc_before + (pm + rest2) =~= (acc_before + pm) + rest2);
                    },
                    Option::None => {
                        assert(chain_from(tm, ba, *constraints, p, increment) is None);
                    },
                }
            }
        }
        if !found_push {
            return ;
        }
        p = next;
    }
}

/// The cell `i` steps beyond `p` in direction `d`.
pub open spec fn cell_n(p: Pos, d: BlockDirection, i: nat) -> Pos
    decreases i,
{
    if i == 0 {
        p
    } else {
        step_pos(cell_n(p, d, (i - 1) as nat), d)
    }
}

pub proof fn lemma_cell_shift(p: Pos, d: BlockDirection, i: nat)
    ensures
        cell_n(p, d, i + 1) == cell_n(step_pos(p, d), d, i),
    decreases i,
{
    if i == 0 {
        assert(cell_n(p, d, 1) == step_pos(cell_n(p, d, 0), d));
        assert(cell_n(p, d, 0) == p);
        assert(cell_n(step_pos(p, d), d, 0) == step_pos(p, d));
    } else {
        lemma_cell_shift(p, d, (i - 1) as nat);
        assert(cell_n(p, d, i + 1) == step_pos(cell_n(p, d, i), d));
        assert(cell_n(step_pos(p, d), d, i) == step_pos(cell_n(step_pos(p, d), d, (i - 1) as nat), d));
    }
}

/// A cell of the walk that is free to take a push chain through: inside the
/// playfield, nothing blocking, at least one pushable occupant.
pub open spec fn corridor_cell(
    tm: Seq<TileInfo>,
    ba: Seq<(crate::game_logic_types::Block, Seq<Attribute>)>,
    c: Constraints,
    p: Pos,
) -> bool {
    in_bounds(p, c) && !cell_blocked(tm, ba, p) && pushables_at(tm, ba, p).len() > 0
}

/// If the walk passes `j` corridor cells and then meets the playfield edge
/// or a blocking occupant, the whole chain is discarded: nothing at all is
/// pushed. This is the all-or-nothing boundary and blocker rule.
pub proof fn lemma_chain_aborts(
    tm: Seq<TileInfo>,
    ba: Seq<(crate::game_logic_types::Block, Seq<Attribute>)>,
    c: Constraints,
    p: Pos,
    d: BlockDirection,
    j: nat,
)
    requires
        wf_constraints(c),
        d != BlockDirection::Still,
        forall|i: nat| i < j ==> corridor_cell(tm, ba, c, #[trigger] cell_n(p, d, i)),
        !in_bounds(cell_n(p, d, j), c) || cell_blocked(tm, ba, cell_n(p, d, j)),
    ensures
        chain_from(tm, ba, c, p, d) is None,
    decreases j,
{
    if j == 0 {
        assert(cell_n(p, d, 0) == p);
    } else {
        assert(corridor_cell(tm, ba, c, cell_n(p, d, 0)));
        assert(cell_n(p, d, 0) == p);
        assert forall|i: nat| i < j - 1 implies corridor_cell(
            tm,
            ba,
            c,
            #[trigger] cell_n(step_pos(p, d), d, i),
        ) by {
            lemma_cell_shift(p, d, i);
            assert(corridor_cell(tm, ba, c, cell_n(p, d, i + 1)));
        }
        lemma_cell_shift(p, d, (j - 1) as nat);
        lemma_chain_aborts(tm, ba, c, step_pos(p, d), d, (j - 1) as nat);
    }
}

/// The chain an open corridor yields: the pushable occupants of each of the
/// `k` corridor cells, each bound for the next cell onward.
pub open spec fn corridor_chain(
    tm: Seq<TileInfo>,
    ba: Seq<(crate::game_logic_types::Block, Seq<Attribute>)>,
    p: Pos,
    d: BlockDirection,
    k: nat,
) -> Seq<(u64, Pos)>
    decreases k,
{
    if k == 0 {
        Seq::empty()
    } else {
        pushables_at(tm, ba, p).map_values(|e: TileInfo| (e.0, step_pos(p, d)))
            + corridor_chain(tm, ba, step_pos(p, d), d, (k - 1) as nat)
    }
}

/// A walk through `k` corridor cells that then reaches a free in-bounds
/// cell commits, and what it commits is exactly the corridor's occupants,
/// each moved one cell onward.
pub proof fn lemma_open_corridor_chain(
    tm: Seq<TileInfo>,
    ba: Seq<(crate::game_logic_types::Block, Seq<Attribute>)>,
    c: Constraints,
    p: Pos,
    d: BlockDirection,
    k: nat,
)
    requires
        wf_constraints(c),
        d != BlockDirection::Still,
        forall|i: nat| i < k ==> corridor_cell(tm, ba, c, #[trigger] cell_n(p, d, i)),
        in_bounds(cell_n(p, d, k), c),
        !cell_blocked(tm, ba, cell_n(p, d, k)),
        pushables_at(tm, ba, cell_n(p, d, k)).len() == 0,
    ensures
        chain_from(tm, ba, c, p, d) == Some(corridor_chain(tm, ba, p, d, k)),
    decreases k,
{
    if k == 0 {
        assert(cell_n(p, d, 0) == p);
        assert(corridor_chain(tm, ba, p, d, 0) =~= Seq::<(u64, Pos)>::empty());
    } else {
        assert(corridor_cell(tm, ba, c, cell_n(p, d, 0)));
        assert(cell_n(p, d, 0) == p);
        assert forall|i: nat| i < k - 1 implies corridor_cell(
            tm,
            ba,
            c,
            #[trigger] cell_n(step_pos(p, d), d, i),
        ) by {
            lemma_cell_shift(p, d, i);
            assert(corridor_cell(tm, ba, c, cell_n(p, d, i + 1)));
        }
        lemma_cell_shift(p, d, (k - 1) as nat);
        lemma_open_corridor_chain(tm, ba, c, step_pos(p, d), d, (k - 1) as nat);
    }
}

/// As long as every visited cell lies inside the playfield, the walk's
/// arithmetic never truncates: cell `i` sits exactly `i` grid steps from
/// the origin.
pub proof fn lemma_walk_coord(p0: Pos, d: BlockDirection, c: Constraints, k: nat, i: nat)
    requires
        wf_constraints(c),
        pos_ok(p0),
        d != BlockDirection::Still,
        i <= k + 1,
        forall|m: nat| 1 <= m <= k ==> in_bounds(#[trigger] cell_n(p0, d, m), c),
    ensures
        cell_n(p0, d, i).x as int == p0.x + i * dir_dx(d),
        cell_n(p0, d, i).y as int == p0.y + i * dir_dy(d),
    decreases i,
{
    if i == 0 {
        assert(cell_n(p0, d, 0) == p0);
        assert(i * dir_dx(d) == 0) by (nonlinear_arith)
            requires
                i == 0,
        ;
        assert(i * dir_dy(d) == 0) by (nonlinear_arith)
            requires
                i == 0,
        ;
    } else {
        lemma_walk_coord(p0, d, c, k, (i - 1) as nat);
        let q = cell_n(p0, d, (i - 1) as nat);
        if i - 1 == 0 {
            assert(q == p0);
        } else {
            assert(in_bounds(cell_n(p0, d, (i - 1) as nat), c));
        }
        assert(cell_n(p0, d, i) == step_pos(q, d));
        assert(i * dir_dx(d) == (i - 1) * dir_dx(d) + dir_dx(d)) by (nonlinear_arith);
        assert(i * dir_dy(d) == (i - 1) * dir_dy(d) + dir_dy(d)) by (nonlinear_arith);
    }
}

/// The cells of an in-bounds walk are pairwise distinct, the origin
/// included: the walk always advances along its axis.
pub proof fn lemma_walk_cells_distinct(p0: Pos, d: BlockDirection, c: Constraints, k: nat)
    requires
        wf_constraints(c),
        pos_ok(p0),
        d != BlockDirection::Still,
        forall|m: nat| 1 <= m <= k ==> in_bounds(#[trigger] cell_n(p0, d, m), c),
    ensures
        forall|i: nat, j: nat|
            i < j <= k + 1 ==> #[trigger] cell_n(p0, d, i) != #[trigger] cell_n(p0, d, j),
{
    assert forall|i: nat, j: nat|
        i < j <= k + 1 implies #[trigger] cell_n(p0, d, i) != #[trigger] cell_n(p0, d, j) by {
        lemma_walk_coord(p0, d, c, k, i);
        lemma_walk_coord(p0, d, c, k, j);
        match d {
            BlockDirection::Right => {
                assert(j * 16 - i * 16 >= 16) by (nonlinear_arith)
                    requires
                        j - i >= 1,
                ;
            },
            BlockDirection::Left => {
                assert(i * (-16) - j * (-16) >= 16) by (nonlinear_arith)
                    requires
                        j - i >= 1,
                ;
            },
            BlockDirection::Up => {
                assert(j * 16 - i * 16 >= 16) by (nonlinear_arith)
                    requires
                        j - i >= 1,
                ;
            },
            BlockDirection::Down => {
                assert(i * (-16) - j * (-16) >= 16) by (nonlinear_arith)
                    requires
                        j - i >= 1,
                ;
            },
            BlockDirection::Still => {},
        }
    }
}

/// With exactly one pushable occupant per corridor cell, the chain holds
/// exactly `k` tiles and tile `i` moves from cell `i` to cell `i + 1`: each
/// pushed tile advances exactly one cell in the push direction.
pub proof fn lemma_corridor_chain_one_each(
    tm: Seq<TileInfo>,
    ba: Seq<(crate::game_logic_types::Block, Seq<Attribute>)>,
    p: Pos,
    d: BlockDirection,
    k: nat,
)
    requires
        forall|i: nat| i < k ==> pushables_at(tm, ba, #[trigger] cell_n(p, d, i)).len() == 1,
    ensures
        corridor_chain(tm, ba, p, d, k).len() == k,
        forall|i: nat|
            i < k ==> #[trigger] corridor_chain(tm, ba, p, d, k)[i as int] == (
                pushables_at(tm, ba, cell_n(p, d, i))[0].0,
                cell_n(p, d, i + 1),
            ),
    decreases k,
{
    if k > 0 {
        assert(pushables_at(tm, ba, cell_n(p, d, 0)).len() == 1);
        assert(cell_n(p, d, 0) == p);
        assert forall|i: nat| i < k - 1 implies pushables_at(
            tm,
            ba,
            #[trigger] cell_n(step_pos(p, d), d, i),
        ).len() == 1 by {
            lemma_cell_shift(p, d, i);
            assert(pushables_at(tm, ba, cell_n(p, d, i + 1)).len() == 1);
        }
        lemma_corridor_chain_one_each(tm, ba, step_pos(p, d), d, (k - 1) as nat);
        let ch = corridor_chain(tm, ba, p, d, k);
        let head = pushables_at(tm, ba, p).map_values(|e: TileInfo| (e.0, step_pos(p, d)));
        assert(head.len() == 1);
        assert forall|i: nat| i < k implies #[trigger] ch[i as int] == (
            pushables_at(tm, ba, cell_n(p, d, i))[0].0,
            cell_n(p, d, i + 1),
        ) by {
            if i == 0 {
                assert(ch[0] == head[0]);
                assert(cell_n(p, d, 1) == step_pos(p, d));
            } else {
                assert(ch[i as int] == corridor_chain(tm, ba, step_pos(p, d), d, (k - 1) as nat)[
                    i - 1]);
                lemma_cell_shift(p, d, (i - 1) as nat);
                lemma_cell_shift(p, d, i);
            }
        }
    }
}

} // verus!
