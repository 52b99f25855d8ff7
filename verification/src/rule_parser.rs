//! The rule parser: scans the word tiles for `<noun> IS <target>` sentences
//! read rightward and downward, rebuilds the attribute table from scratch
//! and queues a kind transmutation for every `<noun> IS <other noun>` edge.

use vstd::prelude::*;

use crate::game_logic_types::{
    ba_has_key, ba_view, lookup_attrs, pos_ok, Attribute, Block, BlockAttributes, Pos, Queue,
    QueueEntry, QueueType, TextBlock,
};

verus! {

pub open spec fn wf_words(words: Seq<(TextBlock, Pos)>) -> bool {
    forall|i: int| 0 <= i < words.len() ==> pos_ok((#[trigger] words[i]).1)
}

/// Words that denote an object kind and may head a sentence.
pub open spec fn is_noun(w: TextBlock) -> bool {
    match w {
        TextBlock::Bevy => true,
        TextBlock::Wall => true,
        TextBlock::Rock => true,
        TextBlock::Flag => true,
        TextBlock::Water => true,
        TextBlock::Tree => true,
        _ => false,
    }
}

/// The object kind a noun word names (non-nouns map to the empty kind and
/// never reach this in a sentence).
pub open spec fn noun_block(w: TextBlock) -> Block {
    match w {
        TextBlock::Bevy => Block::Bevy,
        TextBlock::Wall => Block::Wall,
        TextBlock::Rock => Block::Rock,
        TextBlock::Flag => Block::Flag,
        TextBlock::Water => Block::Water,
        TextBlock::Tree => Block::Tree,
        _ => Block::Air,
    }
}

/// Words that denote a behaviour.
pub open spec fn is_property(w: TextBlock) -> bool {
    match w {
        TextBlock::You => true,
        TextBlock::Stop => true,
        TextBlock::Push => true,
        TextBlock::Win => true,
        TextBlock::Sink => true,
        _ => false,
    }
}

/// The attribute a property word grants.
pub open spec fn property_attr(w: TextBlock) -> Attribute {
    match w {
        TextBlock::You => Attribute::You,
        TextBlock::Stop => Attribute::Stop,
        TextBlock::Push => Attribute::Push,
        TextBlock::Win => Attribute::Win,
        TextBlock::Sink => Attribute::Sink,
        _ => Attribute::Push,
    }
}

fn word_is_noun(w: TextBlock) -> (r: bool)
    ensures
        r == is_noun(w),
{
    match w {
        TextBlock::Bevy => true,
        TextBlock::Wall => true,
        TextBlock::Rock => true,
        TextBlock::Flag => true,
        TextBlock::Water => true,
        TextBlock::Tree => true,
        _ => false,
    }
}

fn noun_to_block(w: TextBlock) -> (r: Block)
    ensures
        r == noun_block(w),
{
    match w {
        TextBlock::Bevy => Block::Bevy,
        TextBlock::Wall => Block::Wall,
        TextBlock::Rock => Block::Rock,
        TextBlock::Flag => Block::Flag,
        TextBlock::Water => Block::Water,
        TextBlock::Tree => Block::Tree,
        _ => Block::Air,
    }
}

/// The word standing at `p`, going by the first word tile listed there.
pub open spec fn word_at(words: Seq<(TextBlock, Pos)>, p: Pos) -> Option<TextBlock>
    decreases words.len(),
{
    if words.len() == 0 {
        None
    } else if words[0].1 == p {
        Some(words[0].0)
    } else {
        word_at(words.skip(1), p)
    }
}

fn word_at_list(words: &Vec<(TextBlock, Pos)>, p: Pos) -> (r: Option<TextBlock>)
    ensures
        r == word_at(words@, p),
{
    let n = words.len();
    proof {
        assert(words@.skip(0) =~= words@);
    }
    for i in 0..n
        invariant
            n == words@.len(),
            word_at(words@, p) == word_at(words@.skip(i as int), p),
    {
        proof {
            assert(words@.skip(i as int)[0] == words@[i as int]);
            assert(words@.skip(i as int).skip(1) =~= words@.skip(i + 1));
        }
        if words[i].1.x == p.x && words[i].1.y == p.y {
            return Some(words[i].0);
        }
    }
    proof {
        assert(words@.skip(n as int) =~= Seq::<(TextBlock, Pos)>::empty());
    }
    None
}

/// One reading direction of a sentence: the cell at `pis` must hold the
/// copula, and the cell at `pt` then contributes its word as a target
/// unless that word is the copula again.
pub open spec fn dir_targets(words: Seq<(TextBlock, Pos)>, pis: Pos, pt: Pos) -> Seq<TextBlock> {
    if word_at(words, pis) == Some(TextBlock::Is) {
        match word_at(words, pt) {
            Option::Some(t) => if t != TextBlock::Is {
                seq![t]
            } else {
                Seq::empty()
            },
            Option::None => Seq::empty(),
        }
    } else {
        Seq::empty()
    }
}

pub open spec fn right1(p: Pos) -> Pos {
    Pos { x: (p.x + 16) as i32, y: p.y }
}

pub open spec fn right2(p: Pos) -> Pos {
    Pos { x: (p.x + 32) as i32, y: p.y }
}

pub open spec fn down1(p: Pos) -> Pos {
    Pos { x: p.x, y: (p.y - 16) as i32 }
}

pub open spec fn down2(p: Pos) -> Pos {
    Pos { x: p.x, y: (p.y - 32) as i32 }
}

/// The targets a noun tile at `p` reads, rightward first, then downward.
pub open spec fn targets_at(words: Seq<(TextBlock, Pos)>, p: Pos) -> Seq<TextBlock> {
    dir_targets(words, right1(p), right2(p)) + dir_targets(words, down1(p), down2(p))
}

fn dir_targets_list(words: &Vec<(TextBlock, Pos)>, pis: Pos, pt: Pos, acc: &mut Vec<TextBlock>)
    ensures
        final(acc)@ == old(acc)@ + dir_targets(words@, pis, pt),
{
    let is_here = word_at_list(words, pis);
    let mut extended = false;
    match is_here {
        Option::Some(TextBlock::Is) => {
            match word_at_list(words, pt) {
                Option::Some(t) => {
                    if !matches!(t, TextBlock::Is) {
                        acc.push(t);
                        extended = true;
                    }
                },
                Option::None => {},
            }
        },
        _ => {},
    }
    proof {
        if extended {
            assert(final(acc)@ =~= old(acc)@ + dir_targets(words@, pis, pt));
        } else {
            assert(final(acc)@ =~= old(acc)@ + dir_targets(words@, pis, pt));
        }
    }
}

/// All targets the noun tile at `p` reads, in reading order.
fn targets_at_list(words: &Vec<(TextBlock, Pos)>, p: Pos) -> (r: Vec<TextBlock>)
    requires
        pos_ok(p),
    ensures
        r@ == targets_at(words@, p),
{
    let mut r: Vec<TextBlock> = Vec::new();
    let r1 = Pos { x: p.x + 16, y: p.y };
    let r2 = Pos { x: p.x + 32, y: p.y };
    let d1 = Pos { x: p.x, y: p.y - 16 };
    let d2 = Pos { x: p.x, y: p.y - 32 };
    dir_targets_list(words, r1, r2, &mut r);
    dir_targets_list(words, d1, d2, &mut r);
    proof {
        assert(r@ =~= targets_at(words@, p));
    }
    r
}

/// All targets read by tiles bearing the word `w` among the first `i` word
/// tiles, concatenated in tile order.
pub open spec fn noun_targets(words: Seq<(TextBlock, Pos)>, w: TextBlock, i: int) -> Seq<TextBlock>
    decreases i,
{
    if i <= 0 {
        Seq::empty()
    } else {
        noun_targets(words, w, i - 1) + (if words[i - 1].0 == w {
            targets_at(words, words[i - 1].1)
        } else {
            Seq::empty()
        })
    }
}

/// The nouns that head at least one sentence, in the order their first
/// sentence-bearing tile appears.
pub open spec fn noun_order(words: Seq<(TextBlock, Pos)>, i: int) -> Seq<TextBlock>
    decreases i,
{
    if i <= 0 {
        Seq::empty()
    } else {
        let prev = noun_order(words, i - 1);
        let w = words[i - 1].0;
        if is_noun(w) && targets_at(words, words[i - 1].1).len() > 0 && !prev.contains(w) {
            prev.push(w)
        } else {
            prev
        }
    }
}

/// The discovered nouns are nouns, and each appears once.
pub proof fn lemma_noun_order_props(words: Seq<(TextBlock, Pos)>, i: int)
    ensures
        forall|k: int|
            0 <= k < noun_order(words, i).len() ==> is_noun(#[trigger] noun_order(words, i)[k]),
        forall|k1: int, k2: int|
            0 <= k1 < k2 < noun_order(words, i).len() ==> noun_order(words, i)[k1] != noun_order(
                words,
                i,
            )[k2],
    decreases i,
{
    if i > 0 {
        lemma_noun_order_props(words, i - 1);
        let prev = noun_order(words, i - 1);
        let cur = noun_order(words, i);
        if cur != prev {
            assert forall|k1: int, k2: int|
                0 <= k1 < k2 < cur.len() implies cur[k1] != cur[k2] by {
                if k2 == cur.len() - 1 {
                    assert(prev.contains(prev[k1]));
                }
            }
        }
    }
}

/// A noun the scan has not discovered yet has read no targets at all.
pub proof fn lemma_absent_noun_empty(words: Seq<(TextBlock, Pos)>, w: TextBlock, i: int)
    requires
        is_noun(w),
        !noun_order(words, i).contains(w),
    ensures
        noun_targets(words, w, i) == Seq::<TextBlock>::empty(),
    decreases i,
{
    if i > 0 {
        let prev = noun_order(words, i - 1);
        if noun_order(words, i) == prev {
            lemma_absent_noun_empty(words, w, i - 1);
        } else {
            assert forall|x: TextBlock| prev.contains(x) implies noun_order(
                words,
                i,
            ).contains(x) by {
                let k = choose|k: int| 0 <= k < prev.len() && prev[k] == x;
                assert(noun_order(words, i)[k] == x);
            }
            lemma_absent_noun_empty(words, w, i - 1);
        }
        if words[i - 1].0 == w {
            if is_noun(w) && targets_at(words, words[i - 1].1).len() > 0 {
                if !prev.contains(w) {
                    assert(noun_order(words, i) == prev.push(w));
                    assert(noun_order(words, i)[prev.len() as int] == w);
                    assert(false);
                } else {
                    let k = choose|k: int| 0 <= k < prev.len() && prev[k] == w;
                    assert(noun_order(words, i)[k] == w || noun_order(words, i) == prev.push(
                        words[i - 1].0,
                    ));
                    assert(false);
                }
            }
            assert(targets_at(words, words[i - 1].1).len() == 0);
            assert(noun_targets(words, w, i) =~= Seq::<TextBlock>::empty());
        } else {
            assert(noun_targets(words, w, i) =~= Seq::<TextBlock>::empty());
        }
    }
}

/// The attributes a target list grants: its property words, in order.
pub open spec fn attrs_from_targets(ts: Seq<TextBlock>) -> Seq<Attribute>
    decreases ts.len(),
{
    if ts.len() == 0 {
        Seq::empty()
    } else {
        attrs_from_targets(ts.drop_last()) + (if is_property(ts.last()) {
            seq![property_attr(ts.last())]
        } else {
            Seq::empty()
        })
    }
}

/// The transmutations a target list emits: one edge per noun target.
pub open spec fn changes_from_targets(from: Block, ts: Seq<TextBlock>) -> Seq<QueueEntry>
    decreases ts.len(),
{
    if ts.len() == 0 {
        Seq::empty()
    } else {
        changes_from_targets(from, ts.drop_last()) + (if is_noun(ts.last()) {
            seq![
                QueueEntry {
                    id: 0u64,
                    queue_type: QueueType::ChangeBlock(from, noun_block(ts.last())),
                },
            ]
        } else {
            Seq::empty()
        })
    }
}

/// The entries every rebuild starts from: word tiles are always pushable,
/// and the level-select kinds always carry their hard-coded selector.
pub open spec fn base_table() -> Seq<(Block, Seq<Attribute>)> {
    seq![
        (Block::Text, seq![Attribute::Push]),
        (Block::Level01, seq![Attribute::LevelSelect(1usize)]),
        (Block::Level02, seq![Attribute::LevelSelect(2usize)]),
        (Block::Level03, seq![Attribute::LevelSelect(3usize)]),
        (Block::Level04, seq![Attribute::LevelSelect(4usize)]),
        (Block::Level05, seq![Attribute::LevelSelect(5usize)]),
        (Block::Level06, seq![Attribute::LevelSelect(6usize)]),
        (Block::Level07, seq![Attribute::LevelSelect(7usize)]),
        (Block::Level08, seq![Attribute::LevelSelect(8usize)]),
        (Block::Level09, seq![Attribute::LevelSelect(9usize)]),
    ]
}

pub open spec fn table_entry(words: Seq<(TextBlock, Pos)>, w: TextBlock) -> (Block, Seq<
    Attribute,
>) {
    (noun_block(w), attrs_from_targets(noun_targets(words, w, words.len() as int)))
}

/// The whole attribute table one rebuild produces.
pub open spec fn rule_table(words: Seq<(TextBlock, Pos)>) -> Seq<(Block, Seq<Attribute>)> {
    base_table() + noun_order(words, words.len() as int).map_values(
        |w: TextBlock| table_entry(words, w),
    )
}

pub open spec fn changes_of_order(words: Seq<(TextBlock, Pos)>, order: Seq<TextBlock>) -> Seq<
    QueueEntry,
>
    decreases order.len(),
{
    if order.len() == 0 {
        Seq::empty()
    } else {
        changes_of_order(words, order.drop_last()) + changes_from_targets(
            noun_block(order.last()),
            noun_targets(words, order.last(), words.len() as int),
        )
    }
}

/// Every transmutation intent one rebuild queues, in submission order.
pub open spec fn change_edges(words: Seq<(TextBlock, Pos)>) -> Seq<QueueEntry> {
    changes_of_order(words, noun_order(words, words.len() as int))
}

/// Law: rebuilding the attribute table is deterministic. The table and the
/// queued transmutation edges are functions of the word-tile layout alone,
/// so two rebuilds from the same layout yield identical results — there is
/// no hidden state to drift.
pub proof fn lemma_rule_rebuild_deterministic(w1: Seq<(TextBlock, Pos)>, w2: Seq<(TextBlock, Pos)>)
    requires
        w1 == w2,
    ensures
        rule_table(w1) == rule_table(w2),
        change_edges(w1) == change_edges(w2),
{
}

pub proof fn lemma_noun_block_injective(w1: TextBlock, w2: TextBlock)
    requires
        is_noun(w1),
        is_noun(w2),
        w1 != w2,
    ensures
        noun_block(w1) != noun_block(w2),
{
}

pub proof fn lemma_noun_block_not_base(w: TextBlock)
    requires
        is_noun(w),
    ensures
        forall|idx: int| 0 <= idx < base_table().len() ==> base_table()[idx].0 != noun_block(w),
{
    assert forall|idx: int|
        0 <= idx < base_table().len() implies base_table()[idx].0 != noun_block(w) by {
        if idx == 0 {
            assert(base_table()[0].0 == Block::Text);
        }
    }
}

fn one_attr(a: Attribute) -> (v: Vec<Attribute>)
    ensures
        v@ == seq![a],
{
    let mut v: Vec<Attribute> = Vec::new();
    v.push(a);
    proof {
        assert(v@ =~= seq![a]);
    }
    v
}

/// View of the scratch association list as its key sequence.
pub open spec fn ta_keys(ta: Seq<(TextBlock, Vec<TextBlock>)>) -> Seq<TextBlock> {
    ta.map_values(|e: (TextBlock, Vec<TextBlock>)| e.0)
}

fn find_key(ta: &Vec<(TextBlock, Vec<TextBlock>)>, w: TextBlock) -> (r: Option<usize>)
    ensures
        match r {
            Option::Some(k) => k < ta@.len() && ta@[k as int].0 == w && forall|j: int|
                0 <= j < k ==> (#[trigger] ta@[j]).0 != w,
            Option::None => forall|j: int| 0 <= j < ta@.len() ==> (#[trigger] ta@[j]).0 != w,
        },
{
    let n = ta.len();
    for i in 0..n
        invariant
            n == ta@.len(),
            forall|j: int| 0 <= j < i ==> (#[trigger] ta@[j]).0 != w,
    {
        if matches_word(ta[i].0, w) {
            return Some(i);
        }
    }
    None
}

fn matches_word(a: TextBlock, b: TextBlock) -> (r: bool)
    ensures
        r == (a == b),
{
    a == b
}

fn copy_words(src: &Vec<TextBlock>) -> (r: Vec<TextBlock>)
    ensures
        r@ == src@,
{
    let mut r: Vec<TextBlock> = Vec::new();
    let n = src.len();
    for i in 0..n
        invariant
            n == src@.len(),
            r@ == src@.subrange(0, i as int),
    {
        r.push(src[i]);
        proof {
            assert(r@ =~= src@.subrange(0, i + 1));
        }
    }
    proof {
        assert(src@.subrange(0, n as int) =~= src@);
    }
    r
}

fn append_words(dst: &mut Vec<TextBlock>, src: &Vec<TextBlock>)
    ensures
        final(dst)@ == old(dst)@ + src@,
{
    let n = src.len();
    for i in 0..n
        invariant
            n == src@.len(),
            dst@ == old(dst)@ + src@.subrange(0, i as int),
    {
        dst.push(src[i]);
        proof {
            assert(dst@ =~= old(dst)@ + src@.subrange(0, i + 1));
        }
    }
    proof {
        assert(src@.subrange(0, n as int) =~= src@);
        assert(dst@ =~= old(dst)@ + src@);
    }
}

/// Rebuild the attribute table from the word tiles and queue one kind
/// transmutation for every `<noun> IS <other noun>` sentence. The previous
/// table is discarded wholesale: no stale entry survives a rebuild.
pub fn evaluate_text(
    words: &Vec<(TextBlock, Pos)>,
    block_attributes: &mut BlockAttributes,
    queue: &mut Queue,
)
    requires
        wf_words(words@),
    ensures
        ba_view(final(block_attributes).entries@) == rule_table(words@),
        final(queue).entries@ == old(queue).entries@ + change_edges(words@),
{
    let mut base: Vec<(Block, Vec<Attribute>)> = Vec::new();
    base.push((Block::Text, one_attr(Attribute::Push)));
    base.push((Block::Level01, one_attr(Attribute::LevelSelect(1))));
    base.push((Block::Level02, one_attr(Attribute::LevelSelect(2))));
    base.push((Block::Level03, one_attr(Attribute::LevelSelect(3))));
    base.push((Block::Level04, one_attr(Attribute::LevelSelect(4))));
    base.push((Block::Level05, one_attr(Attribute::LevelSelect(5))));
    base.push((Block::Level06, one_attr(Attribute::LevelSelect(6))));
    base.push((Block::Level07, one_attr(Attribute::LevelSelect(7))));
    base.push((Block::Level08, one_attr(Attribute::LevelSelect(8))));
    base.push((Block::Level09, one_attr(Attribute::LevelSelect(9))));
    block_attributes.entries = base;
    proof {
        assert(ba_view(block_attributes.entries@) =~= base_table());
    }
    let mut text_attributes: Vec<(TextBlock, Vec<TextBlock>)> = Vec::new();
    let n = words.len();
    for i in 0..n
        invariant
            n == words@.len(),
            wf_words(words@),
            ba_view(block_attributes.entries@) == base_table(),
            queue.entries@ == old(queue).entries@,
            ta_keys(text_attributes@) == noun_order(words@, i as int),
            forall|k: int|
                0 <= k < text_attributes@.len() ==> (#[trigger] text_attributes@[k]).1@
                    == noun_targets(words@, text_attributes@[k].0, i as int),
    {
        let w = words[i].0;
        let p = words[i].1;
        let ghost prev_ta = text_attributes@;
        let ghost ii = i as int;
        proof {
            lemma_noun_order_props(words@, ii);
        }
        if word_is_noun(w) {
            let ts = targets_at_list(words, p);
            if ts.len() > 0 {
                match find_key(&text_attributes, w) {
                    Option::Some(k) => {
                        let entry = text_attributes.remove(k);
                        let (key, mut val) = entry;
                        append_words(&mut val, &ts);
                        text_attributes.insert(k, (key, val));
                        proof {
                            assert(prev_ta[k as int].0 == w);
                            assert(ta_keys(prev_ta)[k as int] == w);
                            assert(noun_order(words@, ii).contains(w));
                            assert(noun_order(words@, ii + 1) == noun_order(words@, ii));
                            assert(text_attributes@ =~= prev_ta.update(
                                k as int,
                                (w, text_attributes@[k as int].1),
                            ));
                            assert(ta_keys(text_attributes@) =~= ta_keys(prev_ta));
                            assert forall|kk: int|
                                0 <= kk < text_attributes@.len() implies (
                            #[trigger] text_attributes@[kk]).1@ == noun_targets(
                                words@,
                                text_attributes@[kk].0,
                                ii + 1,
                            ) by {
                                if kk == k {
                                    assert(text_attributes@[kk].1@ == prev_ta[kk].1@ + ts@);
                                    assert(noun_targets(words@, w, ii + 1) == noun_targets(
                                        words@,
                                        w,
                                        ii,
                                    ) + targets_at(words@, p));
                                } else {
                                    assert(text_attributes@[kk] == prev_ta[kk]);
                                    assert(ta_keys(prev_ta)[kk] == prev_ta[kk].0);
                                    assert(noun_order(words@, ii)[kk] != noun_order(
                                        words@,
                                        ii,
                                    )[k as int]);
                                    assert(prev_ta[kk].0 != w);
                                    assert(noun_targets(words@, text_attributes@[kk].0, ii + 1)
                                        =~= noun_targets(words@, text_attributes@[kk].0, ii));
                                }
                            }
                        }
                    },
                    Option::None => {
                        let ghost tsv = ts@;
                        text_attributes.push((w, ts));
                        proof {
                            assert forall|j: int|
                                0 <= j < ta_keys(prev_ta).len() implies ta_keys(prev_ta)[j]
                                != w by {
                                assert(prev_ta[j].0 != w);
                            }
                            assert(!noun_order(words@, ii).contains(w));
                            assert(noun_order(words@, ii + 1) == noun_order(words@, ii).push(w));
                            assert(ta_keys(text_attributes@) =~= ta_keys(prev_ta).push(w));
                            lemma_absent_noun_empty(words@, w, ii);
                            assert forall|kk: int|
                                0 <= kk < text_attributes@.len() implies (
                            #[trigger] text_attributes@[kk]).1@ == noun_targets(
                                words@,
                                text_attributes@[kk].0,
                                ii + 1,
                            ) by {
                                if kk == text_attributes@.len() - 1 {
                                    assert(text_attributes@[kk] == (w, ts));
                                    assert(noun_targets(words@, w, ii + 1) =~= Seq::<
                                        TextBlock,
                                    >::empty() + targets_at(words@, p));
                                    assert(noun_targets(words@, w, ii + 1) =~= tsv);
                                } else {
                                    assert(text_attributes@[kk] == prev_ta[kk]);
                                    assert(prev_ta[kk].0 != w);
                                    assert(noun_targets(words@, text_attributes@[kk].0, ii + 1)
                                        =~= noun_targets(words@, text_attributes@[kk].0, ii));
                                }
                            }
                        }
                    },
                }
            } else {
                proof {
                    assert(targets_at(words@, p).len() == 0);
                    assert(noun_order(words@, ii + 1) == noun_order(words@, ii));
                    assert forall|kk: int|
                        0 <= kk < text_attributes@.len() implies (
                    #[trigger] text_attributes@[kk]).1@ == noun_targets(
                        words@,
                        text_attributes@[kk].0,
                        ii + 1,
                    ) by {
                        assert(noun_targets(words@, text_attributes@[kk].0, ii + 1) =~= noun_targets(
                            words@,
                            text_attributes@[kk].0,
                            ii,
                        ));
                    }
                }
            }
        } else {
            proof {
                assert(noun_order(words@, ii + 1) == noun_order(words@, ii));
                assert forall|kk: int|
                    0 <= kk < text_attributes@.len() implies (#[trigger] text_attributes@[kk]).1@
                    == noun_targets(words@, text_attributes@[kk].0, ii + 1) by {
                    assert(ta_keys(text_attributes@)[kk] == text_attributes@[kk].0);
                    assert(is_noun(text_attributes@[kk].0));
                    assert(text_attributes@[kk].0 != w);
                    assert(noun_targets(words@, text_attributes@[kk].0, ii + 1) =~= noun_targets(
                        words@,
                        text_attributes@[kk].0,
                        ii,
                    ));
                }
            }
        }
    }
    let ghost ord = noun_order(words@, n as int);
    let m = text_attributes.len();
    proof {
        lemma_noun_order_props(words@, n as int);
        assert(ord.subrange(0, 0) =~= Seq::<TextBlock>::empty());
        assert(base_table() + ord.subrange(0, 0).map_values(|w: TextBlock| table_entry(words@, w))
            =~= base_table());
        assert(old(queue).entries@ + changes_of_order(words@, ord.subrange(0, 0)) =~= old(
            queue,
        ).entries@);
    }
    for k in 0..m
        invariant
            n == words@.len(),
            wf_words(words@),
            m == text_attributes@.len(),
            ta_keys(text_attributes@) == ord,
            ord == noun_order(words@, n as int),
            forall|kk: int|
                0 <= kk < text_attributes@.len() ==> (#[trigger] text_attributes@[kk]).1@
                    == noun_targets(words@, text_attributes@[kk].0, n as int),
            ba_view(block_attributes.entries@) == base_table() + ord.subrange(0, k as int)
                .map_values(|w: TextBlock| table_entry(words@, w)),
            queue.entries@ == old(queue).entries@ + changes_of_order(
                words@,
                ord.subrange(0, k as int),
            ),
    {
        let key = text_attributes[k].0;
        let ts_local = copy_words(&text_attributes[k].1);
        let block_type = noun_to_block(key);
        proof {
            assert(ta_keys(text_attributes@)[k as int] == key);
            lemma_noun_order_props(words@, n as int);
        }
        let tl = ts_local.len();
        let ghost qbase = queue.entries@;
        let mut attributes: Vec<Attribute> = Vec::new();
        proof {
            assert(ts_local@.subrange(0, 0) =~= Seq::<TextBlock>::empty());
            assert(qbase + changes_from_targets(block_type, ts_local@.subrange(0, 0)) =~= qbase);
        }
        for j in 0..tl
            invariant
                tl == ts_local@.len(),
                block_type == noun_block(key),
                attributes@ == attrs_from_targets(ts_local@.subrange(0, j as int)),
                queue.entries@ == qbase + changes_from_targets(
                    block_type,
                    ts_local@.subrange(0, j as int),
                ),
        {
            proof {
                assert(ts_local@.subrange(0, j + 1).drop_last() =~= ts_local@.subrange(0, j as int));
                assert(ts_local@.subrange(0, j + 1).last() == ts_local@[j as int]);
            }
            let t = ts_local[j];
            match t {
                TextBlock::Push => attributes.push(Attribute::Push),
                TextBlock::Stop => attributes.push(Attribute::Stop),
                TextBlock::You => attributes.push(Attribute::You),
                TextBlock::Win => attributes.push(Attribute::Win),
                TextBlock::Sink => attributes.push(Attribute::Sink),
                TextBlock::Bevy => queue.push_type(QueueType::ChangeBlock(block_type, Block::Bevy)),
                TextBlock::Rock => queue.push_type(QueueType::ChangeBlock(block_type, Block::Rock)),
                TextBlock::Wall => queue.push_type(QueueType::ChangeBlock(block_type, Block::Wall)),
                TextBlock::Flag => queue.push_type(QueueType::ChangeBlock(block_type, Block::Flag)),
                TextBlock::Tree => queue.push_type(QueueType::ChangeBlock(block_type, Block::Tree)),
                TextBlock::Water => queue.push_type(
                    QueueType::ChangeBlock(block_type, Block::Water),
                ),
                TextBlock::Is => {},
            }
            proof {
                assert(attributes@ =~= attrs_from_targets(ts_local@.subrange(0, j + 1)));
                assert(queue.entries@ =~= qbase + changes_from_targets(
                    block_type,
                    ts_local@.subrange(0, j + 1),
                ));
            }
        }
        proof {
            assert(ts_local@.subrange(0, tl as int) =~= ts_local@);
        }
        let ghost v_old = ba_view(block_attributes.entries@);
        let ghost av = attributes@;
        block_attributes.insert(block_type, attributes);
        proof {
            let prefix = ord.subrange(0, k as int).map_values(|w: TextBlock| table_entry(words@, w));
            assert(is_noun(ord[k as int]));
            lemma_noun_block_not_base(ord[k as int]);
            assert forall|idx: int| 0 <= idx < v_old.len() implies (#[trigger] v_old[idx]).0
                != block_type by {
                if idx < base_table().len() {
                    assert(v_old[idx] == base_table()[idx]);
                } else {
                    let kk = idx - base_table().len();
                    assert(v_old[idx] == prefix[kk]);
                    assert(prefix[kk].0 == noun_block(ord[kk]));
                    assert(ord[kk] != ord[k as int]);
                    assert(is_noun(ord[kk]));
                    lemma_noun_block_injective(ord[kk], ord[k as int]);
                }
            }
            assert(!ba_has_key(v_old, block_type));
            assert(ord.subrange(0, k + 1).drop_last() =~= ord.subrange(0, k as int));
            assert(ord.subrange(0, k + 1).last() == ord[k as int]);
            assert(av == attrs_from_targets(noun_targets(words@, ord[k as int], n as int)));
            assert(ba_view(block_attributes.entries@) =~= base_table() + ord.subrange(0, k + 1)
                .map_values(|w: TextBlock| table_entry(words@, w)));
            assert(queue.entries@ =~= old(queue).entries@ + changes_of_order(
                words@,
                ord.subrange(0, k + 1),
            ));
        }
    }
    proof {
        assert(ord.subrange(0, m as int) =~= ord);
        assert(ba_view(block_attributes.entries@) == rule_table(words@));
        assert(queue.entries@ == old(queue).entries@ + change_edges(words@));
    }
}

} // verus!
