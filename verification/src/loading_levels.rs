//! Level loading: the tile grid is decoded from the two integer layers of a
//! JSON map (an object layer and a word layer), walked row by row from the
//! top-left corner. Malformed data never yields a partial level: the whole
//! load fails instead.

use vstd::prelude::*;

use crate::game_logic_types::{Block, Pos, TextBlock};

verus! {

/// Declares serde_json::Value so signatures may carry it; the verifier
/// treats such a value as opaque and the decoders below pull plain
/// integers out of it through the declared accessors.
#[verifier::external_type_specification]
#[verifier::external_body]
pub struct ExValue(serde_json::Value);

/// Relies on serde_json::Value::get: indexes into a JSON object or array,
/// `None` when the key or index is absent or the value is of another shape.
pub assume_specification<I: serde_json::value::Index>[ serde_json::Value::get ](
    v: &serde_json::Value,
    index: I,
) -> Option<&serde_json::Value>;

/// Relies on serde_json::Value::as_u64: the value as an unsigned integer,
/// `None` when it is not one.
pub assume_specification[ serde_json::Value::as_u64 ](v: &serde_json::Value) -> Option<u64>;

/// Relies on serde_json::Value::as_i64: the value as a signed integer,
/// `None` when it is not one.
pub assume_specification[ serde_json::Value::as_i64 ](v: &serde_json::Value) -> Option<i64>;

/// Relies on serde_json::Value::as_array: the value's element list when it
/// is a JSON array, `None` otherwise.
pub assume_specification[ serde_json::Value::as_array ](v: &serde_json::Value) -> Option<
    &Vec<serde_json::Value>,
>;

/// Relies on serde_json::from_str: parses JSON text into a tree, `None` on
/// a syntax error.
#[verifier::external_body]
pub fn parse_json(s: &str) -> (r: Option<serde_json::Value>) {
    serde_json::from_str(s).ok()
}

/// One loaded level: pixel dimensions and the two placed tile lists.
pub struct LevelData {
    pub width: usize,
    pub height: usize,
    pub blocks: Vec<(Block, Pos)>,
    pub text_blocks: Vec<(TextBlock, Pos)>,
}

/// All loaded levels, in selection order.
pub struct Levels(pub Vec<LevelData>);

/// The object kind a layer code places, if any.
pub open spec fn code_block(code: i64) -> Option<Block> {
    match code {
        0 => Some(Block::Bevy),
        1 => Some(Block::Wall),
        2 => Some(Block::Rock),
        3 => Some(Block::Flag),
        4 => Some(Block::Tree),
        5 => Some(Block::Level01),
        6 => Some(Block::Level02),
        7 => Some(Block::Level03),
        8 => Some(Block::Level04),
        9 => Some(Block::Level05),
        10 => Some(Block::Level06),
        11 => Some(Block::Level07),
        12 => Some(Block::Level08),
        13 => Some(Block::Level09),
        14 => Some(Block::Path),
        15 => Some(Block::Water),
        _ => None,
    }
}

/// The word a layer code places, if any.
pub open spec fn code_text(code: i64) -> Option<TextBlock> {
    match code {
        0 => Some(TextBlock::Is),
        1 => Some(TextBlock::Bevy),
        2 => Some(TextBlock::You),
        3 => Some(TextBlock::Stop),
        4 => Some(TextBlock::Push),
        5 => Some(TextBlock::Wall),
        6 => Some(TextBlock::Rock),
        7 => Some(TextBlock::Flag),
        8 => Some(TextBlock::Win),
        9 => Some(TextBlock::Sink),
        10 => Some(TextBlock::Tree),
        11 => Some(TextBlock::Water),
        _ => None,
    }
}

/// The cell a walk state addresses, one grid step per unit.
pub open spec fn cell_pos(row: int, col: int) -> Pos {
    Pos { x: (row * 16) as i32, y: (col * 16) as i32 }
}

/// The object tiles a layer places, walked left to right from the top row
/// (the highest `col`) downward.
pub open spec fn walk_blocks(data: Seq<i64>, w: int, row: int, col: int) -> Seq<(Block, Pos)>
    decreases data.len(),
{
    if data.len() == 0 {
        Seq::empty()
    } else {
        let head = match code_block(data[0]) {
            Option::Some(b) => seq![(b, cell_pos(row, col))],
            Option::None => Seq::empty(),
        };
        head + (if row + 1 >= w {
            walk_blocks(data.skip(1), w, 0, col - 1)
        } else {
            walk_blocks(data.skip(1), w, row + 1, col)
        })
    }
}

/// The word tiles a layer places, same walk as the objects.
pub open spec fn walk_texts(data: Seq<i64>, w: int, row: int, col: int) -> Seq<(TextBlock, Pos)>
    decreases data.len(),
{
    if data.len() == 0 {
        Seq::empty()
    } else {
        let head = match code_text(data[0]) {
            Option::Some(t) => seq![(t, cell_pos(row, col))],
            Option::None => Seq::empty(),
        };
        head + (if row + 1 >= w {
            walk_texts(data.skip(1), w, 0, col - 1)
        } else {
            walk_texts(data.skip(1), w, row + 1, col)
        })
    }
}

/// Acceptable pixel dimensions: whole cells, at least one, at most 4096 per
/// axis.
pub open spec fn level_dims_ok(width: int, height: int) -> bool {
    16 <= width <= 65536 && width % 16 == 0 && 16 <= height <= 65536 && height % 16 == 0
}

pub open spec fn level_pos_ok(p: Pos) -> bool {
    -16 <= p.x as int <= 65536 && -16 <= p.y as int <= 65536
}

/// A level whose dimensions are legal and whose tiles all sit inside the
/// grid the dimensions span.
pub open spec fn wf_level(ld: LevelData) -> bool {
    &&& level_dims_ok(ld.width as int, ld.height as int)
    &&& ld.blocks@.len() <= 0x100_0000
    &&& ld.text_blocks@.len() <= 0x100_0000
    &&& forall|i: int| 0 <= i < ld.blocks@.len() ==> level_pos_ok((#[trigger] ld.blocks@[i]).1)
    &&& forall|i: int|
        0 <= i < ld.text_blocks@.len() ==> level_pos_ok((#[trigger] ld.text_blocks@[i]).1)
}

fn block_of_code(code: i64) -> (r: Option<Block>)
    ensures
        r == code_block(code),
{
    match code {
        0 => Some(Block::Bevy),
        1 => Some(Block::Wall),
        2 => Some(Block::Rock),
        3 => Some(Block::Flag),
        4 => Some(Block::Tree),
        5 => Some(Block::Level01),
        6 => Some(Block::Level02),
        7 => Some(Block::Level03),
        8 => Some(Block::Level04),
        9 => Some(Block::Level05),
        10 => Some(Block::Level06),
        11 => Some(Block::Level07),
        12 => Some(Block::Level08),
        13 => Some(Block::Level09),
        14 => Some(Block::Path),
        15 => Some(Block::Water),
        _ => None,
    }
}

fn text_of_code(code: i64) -> (r: Option<TextBlock>)
    ensures
        r == code_text(code),
{
    match code {
        0 => Some(TextBlock::Is),
        1 => Some(TextBlock::Bevy),
        2 => Some(TextBlock::You),
        3 => Some(TextBlock::Stop),
        4 => Some(TextBlock::Push),
        5 => Some(TextBlock::Wall),
        6 => Some(TextBlock::Rock),
        7 => Some(TextBlock::Flag),
        8 => Some(TextBlock::Win),
        9 => Some(TextBlock::Sink),
        10 => Some(TextBlock::Tree),
        11 => Some(TextBlock::Water),
        _ => None,
    }
}

fn walk_block_layer(data: &Vec<i64>, gw: i32, gh: i32) -> (r: Vec<(Block, Pos)>)
    requires
        1 <= gw <= 4096,
        1 <= gh <= 4096,
        data@.len() == gw * gh,
    ensures
        r@ == walk_blocks(data@, gw as int, 0, gh - 1),
        forall|i: int| 0 <= i < r@.len() ==> level_pos_ok((#[trigger] r@[i]).1),
        r@.len() <= data@.len(),
{
    let mut r: Vec<(Block, Pos)> = Vec::new();
    let n = data.len();
    let mut row: i32 = 0;
    let mut col: i32 = gh - 1;
    proof {
        assert(data@.skip(0) =~= data@);
    }
    for i in 0..n
        invariant
            n == data@.len(),
            n == gw * gh,
            1 <= gw <= 4096,
            1 <= gh <= 4096,
            0 <= row < gw,
            -1 <= col <= gh - 1,
            gw * (gh - 1 - col) + row == i,
            walk_blocks(data@, gw as int, 0, gh - 1) == r@ + walk_blocks(
                data@.skip(i as int),
                gw as int,
                row as int,
                col as int,
            ),
            forall|k: int| 0 <= k < r@.len() ==> level_pos_ok((#[trigger] r@[k]).1),
            r@.len() <= i,
    {
        proof {
            assert(col >= 0) by (nonlinear_arith)
                requires
                    gw * (gh - 1 - col) + row == i,
                    i < gw * gh,
                    0 <= row < gw,
                    gw >= 1,
                    col >= -1,
            ;
            assert(data@.skip(i as int)[0] == data@[i as int]);
            assert(data@.skip(i as int).skip(1) =~= data@.skip(i + 1));
        }
        let code = data[i];
        match block_of_code(code) {
            Option::Some(b) => {
                let p = Pos { x: row * 16, y: col * 16 };
                proof {
                    assert(p == cell_pos(row as int, col as int));
                }
                r.push((b, p));
            },
            Option::None => {},
        }
        if row + 1 >= gw {
            proof {
                assert(gw * (gh - 1 - (col - 1)) == gw * (gh - 1 - col) + gw) by (nonlinear_arith);
            }
            col = col - 1;
            row = 0;
        } else {
            row = row + 1;
        }
        proof {
            assert(walk_blocks(data@, gw as int, 0, gh - 1) =~= r@ + walk_blocks(
                data@.skip(i + 1),
                gw as int,
                row as int,
                col as int,
            ));
        }
    }
    proof {
        assert(data@.skip(n as int) =~= Seq::<i64>::empty());
        assert(r@ + walk_blocks(data@.skip(n as int), gw as int, row as int, col as int) =~= r@);
    }
    r
}

fn walk_text_layer(data: &Vec<i64>, gw: i32, gh: i32) -> (r: Vec<(TextBlock, Pos)>)
    requires
        1 <= gw <= 4096,
        1 <= gh <= 4096,
        data@.len() == gw * gh,
    ensures
        r@ == walk_texts(data@, gw as int, 0, gh - 1),
        forall|i: int| 0 <= i < r@.len() ==> level_pos_ok((#[trigger] r@[i]).1),
        r@.len() <= data@.len(),
{
    let mut r: Vec<(TextBlock, Pos)> = Vec::new();
    let n = data.len();
    let mut row: i32 = 0;
    let mut col: i32 = gh - 1;
    proof {
        assert(data@.skip(0) =~= data@);
    }
    for i in 0..n
        invariant
            n == data@.len(),
            n == gw * gh,
            1 <= gw <= 4096,
            1 <= gh <= 4096,
            0 <= row < gw,
            -1 <= col <= gh - 1,
            gw * (gh - 1 - col) + row == i,
            walk_texts(data@, gw as int, 0, gh - 1) == r@ + walk_texts(
                data@.skip(i as int),
                gw as int,
                row as int,
                col as int,
            ),
            forall|k: int| 0 <= k < r@.len() ==> level_pos_ok((#[trigger] r@[k]).1),
            r@.len() <= i,
    {
        proof {
            assert(col >= 0) by (nonlinear_arith)
                requires
                    gw * (gh - 1 - col) + row == i,
                    i < gw * gh,
                    0 <= row < gw,
                    gw >= 1,
                    col >= -1,
            ;
            assert(data@.skip(i as int)[0] == data@[i as int]);
            assert(data@.skip(i as int).skip(1) =~= data@.skip(i + 1));
        }
        let code = data[i];
        match text_of_code(code) {
            Option::Some(t) => {
                let p = Pos { x: row * 16, y: col * 16 };
                proof {
                    assert(p == cell_pos(row as int, col as int));
                }
                r.push((t, p));
            },
            Option::None => {},
        }
        if row + 1 >= gw {
            proof {
                assert(gw * (gh - 1 - (col - 1)) == gw * (gh - 1 - col) + gw) by (nonlinear_arith);
            }
            col = col - 1;
            row = 0;
        } else {
            row = row + 1;
        }
        proof {
            assert(walk_texts(data@, gw as int, 0, gh - 1) =~= r@ + walk_texts(
                data@.skip(i + 1),
                gw as int,
                row as int,
                col as int,
            ));
        }
    }
    proof {
        assert(data@.skip(n as int) =~= Seq::<i64>::empty());
        assert(r@ + walk_texts(data@.skip(n as int), gw as int, row as int, col as int) =~= r@);
    }
    r
}

/// Build a level from its pixel dimensions and the two decoded layers.
/// Succeeds exactly when the dimensions are whole cells in range and each
/// layer holds one code per cell; the placed tiles are then the two layer
/// walks.
pub fn build_level(
    width: usize,
    height: usize,
    object_codes: &Vec<i64>,
    word_codes: &Vec<i64>,
) -> (r: Option<LevelData>)
    ensures
        (r is Some) <==> (level_dims_ok(width as int, height as int) && object_codes@.len() == (
        width as int / 16) * (height as int / 16) && word_codes@.len() == (width as int / 16) * (
        height as int / 16)),
        match r {
            Option::Some(ld) => ld.width == width && ld.height == height && ld.blocks@
                == walk_blocks(
                object_codes@,
                width as int / 16,
                0,
                height as int / 16 - 1,
            ) && ld.text_blocks@ == walk_texts(
                word_codes@,
                width as int / 16,
                0,
                height as int / 16 - 1,
            ) && wf_level(ld),
            Option::None => true,
        },
{
    if width < 16 || width > 65536 || width % 16 != 0 || height < 16 || height > 65536 || height
        % 16 != 0 {
        return None;
    }
    let gw = (width / 16) as i32;
    let gh = (height / 16) as i32;
    proof {
        assert(width as int / 16 <= 4096 && height as int / 16 <= 4096);
        assert((width as int / 16) * (height as int / 16) <= 4096 * 4096) by (nonlinear_arith)
            requires
                0 <= width as int / 16 <= 4096,
                0 <= height as int / 16 <= 4096,
        ;
    }
    let cells = (width / 16) * (height / 16);
    if object_codes.len() != cells || word_codes.len() != cells {
        return None;
    }
    let blocks = walk_block_layer(object_codes, gw, gh);
    let text_blocks = walk_text_layer(word_codes, gw, gh);
    Some(LevelData { width, height, blocks, text_blocks })
}

/// Decode one JSON layer's `data` array into plain codes; `None` if the
/// layer or any element is not an integer array.
fn layer_codes(layer: &serde_json::Value) -> (r: Option<Vec<i64>>) {
    let data = match layer.get("data") {
        Option::Some(d) => d,
        Option::None => {
            return None;
        },
    };
    let arr = match data.as_array() {
        Option::Some(a) => a,
        Option::None => {
            return None;
        },
    };
    let mut codes: Vec<i64> = Vec::new();
    let n = arr.len();
    for i in 0..n
        invariant
            n == arr@.len(),
    {
        match arr[i].as_i64() {
            Option::Some(v) => codes.push(v),
            Option::None => {
                return None;
            },
        }
    }
    Some(codes)
}

/// Decode a whole level from its JSON tree: `width`, `height` and the first
/// two layers' `data` arrays, handed on to `build_level`. Any missing or
/// ill-typed field, like any dimension `build_level` refuses, fails the
/// load as a whole.
pub fn create_level_data(value: &serde_json::Value) -> (r: Option<LevelData>)
    ensures
        match r {
            Option::Some(ld) => wf_level(ld),
            Option::None => true,
        },
{
    let width64 = match value.get("width") {
        Option::Some(v) => match v.as_u64() {
            Option::Some(u) => u,
            Option::None => {
                return None;
            },
        },
        Option::None => {
            return None;
        },
    };
    let height64 = match value.get("height") {
        Option::Some(v) => match v.as_u64() {
            Option::Some(u) => u,
            Option::None => {
                return None;
            },
        },
        Option::None => {
            return None;
        },
    };
    if width64 > 65536 || height64 > 65536 {
        return None;
    }
    let width = width64 as usize;
    let height = height64 as usize;
    let layers = match value.get("layers") {
        Option::Some(l) => match l.as_array() {
            Option::Some(a) => a,
            Option::None => {
                return None;
            },
        },
        Option::None => {
            return None;
        },
    };
    if layers.len() < 2 {
        return None;
    }
    let object_codes = match layer_codes(&layers[0]) {
        Option::Some(c) => c,
        Option::None => {
            return None;
        },
    };
    let word_codes = match layer_codes(&layers[1]) {
        Option::Some(c) => c,
        Option::None => {
            return None;
        },
    };
    build_level(width, height, &object_codes, &word_codes)
}

/// Decode a level straight from JSON text.
pub fn level_from_json(s: &str) -> (r: Option<LevelData>)
    ensures
        match r {
            Option::Some(ld) => wf_level(ld),
            Option::None => true,
        },
{
    match parse_json(s) {
        Option::Some(value) => create_level_data(&value),
        Option::None => None,
    }
}

} // verus!
