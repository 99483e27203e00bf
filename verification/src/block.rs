use vstd::prelude::*;

use rand::seq::SliceRandom;
use rand::Rng;

use crate::tile::{I, J, L, O, S, T, Z};

verus! {

pub const BLOCK_KINDS: usize = 7;

/// The seven piece kinds, in the canonical order of the shape table.
#[derive(Clone, Copy, PartialEq, Eq, Structural, Debug)]
pub enum BlockKind {
    I,
    O,
    S,
    Z,
    J,
    L,
    T,
}

/// A piece shape: a 4-by-4 mask of tile colors, `tile::NONE` outside the
/// occupied cells.
pub type BlockShape = [[usize; 4]; 4];

/// The seven canonical shape templates, indexed in the order of `BlockKind`.
/// Rotation always produces fresh values; this table is never mutated.
pub const BLOCKS: [BlockShape; BLOCK_KINDS] = [
    [[0, 0, 0, 0], [0, 0, 0, 0], [I, I, I, I], [0, 0, 0, 0]],
    [[0, 0, 0, 0], [0, O, O, 0], [0, O, O, 0], [0, 0, 0, 0]],
    [[0, 0, 0, 0], [0, S, S, 0], [S, S, 0, 0], [0, 0, 0, 0]],
    [[0, 0, 0, 0], [Z, Z, 0, 0], [0, Z, Z, 0], [0, 0, 0, 0]],
    [[0, 0, 0, 0], [J, 0, 0, 0], [J, J, J, 0], [0, 0, 0, 0]],
    [[0, 0, 0, 0], [0, 0, L, 0], [L, L, L, 0], [0, 0, 0, 0]],
    [[0, 0, 0, 0], [0, T, 0, 0], [T, T, T, 0], [0, 0, 0, 0]],
];

/// The position a kind holds in the canonical order.
pub open spec fn spec_kind_index(k: BlockKind) -> int {
    match k {
        BlockKind::I => 0,
        BlockKind::O => 1,
        BlockKind::S => 2,
        BlockKind::Z => 3,
        BlockKind::J => 4,
        BlockKind::L => 5,
        BlockKind::T => 6,
    }
}

/// The canonical shape of a kind, as a mathematical grid of tile colors.
pub open spec fn spec_block(k: BlockKind) -> Seq<Seq<usize>> {
    BLOCKS.deep_view()[spec_kind_index(k)]
}

/// A bag holds the seven canonical shapes, each exactly once, in some order.
pub open spec fn is_full_bag(s: Seq<Seq<Seq<usize>>>) -> bool {
    &&& s.len() == BLOCK_KINDS
    &&& s.to_multiset() == BLOCKS.deep_view().to_multiset()
}

/// The kind drawn for a uniformly random index below seven.
pub open spec fn spec_kind_of_index(i: int) -> BlockKind {
    if i == 0 {
        BlockKind::I
    } else if i == 1 {
        BlockKind::O
    } else if i == 2 {
        BlockKind::S
    } else if i == 3 {
        BlockKind::Z
    } else if i == 4 {
        BlockKind::J
    } else if i == 5 {
        BlockKind::L
    } else {
        BlockKind::T
    }
}

pub fn kind_of_index(i: usize) -> (k: BlockKind)
    requires
        i < BLOCK_KINDS,
    ensures
        k == spec_kind_of_index(i as int),
{
    match i {
        0 => BlockKind::I,
        1 => BlockKind::O,
        2 => BlockKind::S,
        3 => BlockKind::Z,
        4 => BlockKind::J,
        5 => BlockKind::L,
        _ => BlockKind::T,
    }
}

/// The canonical shape template of a kind, copied out of the table.
pub fn block_of(k: BlockKind) -> (r: BlockShape)
    ensures
        r.deep_view() == spec_block(k),
{
    match k {
        BlockKind::I => BLOCKS[0],
        BlockKind::O => BLOCKS[1],
        BlockKind::S => BLOCKS[2],
        BlockKind::Z => BLOCKS[3],
        BlockKind::J => BLOCKS[4],
        BlockKind::L => BLOCKS[5],
        BlockKind::T => BLOCKS[6],
    }
}

/// The thread-local random generator of the rand crate, opaque here: every
/// contract below holds whatever values it yields.
#[verifier::external_type_specification]
#[verifier::external_body]
pub struct ExThreadRng(rand::rngs::ThreadRng);

/// Relies on rand::thread_rng: hands out the thread-local random generator.
#[verifier::external_body]
fn new_rng() -> rand::rngs::ThreadRng {
    rand::thread_rng()
}

/// Relies on rand::seq::SliceRandom::shuffle: a Fisher-Yates pass that only
/// swaps elements in place, so the length and the multiset of elements are
/// kept whatever permutation comes out.
#[verifier::external_body]
fn shuffle_blocks(v: &mut Vec<BlockShape>, rng: &mut rand::rngs::ThreadRng)
    ensures
        final(v)@.len() == old(v)@.len(),
        final(v).deep_view().to_multiset() == old(v).deep_view().to_multiset(),
{
    v.shuffle(rng)
}

/// Relies on rand::Rng::gen_range: returns a value drawn from the half-open
/// range below `n`, and panics only when the range is empty.
#[verifier::external_body]
fn rand_below(rng: &mut rand::rngs::ThreadRng, n: usize) -> (r: usize)
    requires
        n > 0,
    ensures
        r < n,
{
    rng.gen_range(0..n)
}

/// One uniformly random piece kind.
pub fn random_kind() -> (k: BlockKind)
    ensures
        exists|i: int| 0 <= i < 7 && k == spec_kind_of_index(i),
{
    let mut rng = new_rng();
    let i = rand_below(&mut rng, BLOCK_KINDS);
    let k = kind_of_index(i);
    proof {
        assert(0 <= (i as int) && (i as int) < 7 && k == spec_kind_of_index(i as int));
    }
    k
}

/// A freshly shuffled bag: the seven canonical shapes, each exactly once,
/// in a random order.
pub fn gen_block_7() -> (r: [BlockShape; BLOCK_KINDS])
    ensures
        is_full_bag(r.deep_view()),
{
    let mut rng = new_rng();
    let mut que: Vec<BlockShape> = Vec::new();
    que.push(block_of(BlockKind::I));
    que.push(block_of(BlockKind::O));
    que.push(block_of(BlockKind::S));
    que.push(block_of(BlockKind::Z));
    que.push(block_of(BlockKind::J));
    que.push(block_of(BlockKind::L));
    que.push(block_of(BlockKind::T));
    proof {
        assert(que.deep_view() =~~= BLOCKS.deep_view());
    }
    shuffle_blocks(&mut que, &mut rng);
    let r: [BlockShape; BLOCK_KINDS] = [que[0], que[1], que[2], que[3], que[4], que[5], que[6]];
    proof {
        assert(r.deep_view() =~~= que.deep_view());
    }
    r
}

} // verus!
