use vstd::prelude::*;

use crate::block::{is_full_bag, spec_block, BlockKind, BlockShape, BLOCKS, BLOCK_KINDS};
use crate::game::{
    cell_hit, collides, erase_count, erase_from, erase_result, field_wf, init_field, kick_try,
    lemma_erase_none, lemma_erase_skip, lemma_spawn_on_empty, rot_ccw, rot_cw, rotate_outcome,
    row_full, shift_rows_down, spec_kick, Game, FIELD_HEIGHT, FIELD_WIDTH,
};
use crate::tile;

verus! {

/// Spawning any of the seven kinds into an otherwise empty field at the
/// fixed spawn position never collides: the spawn box covers clear interior
/// cells only.
pub proof fn lemma_spawn_never_collides(k: BlockKind)
    ensures
        !collides(init_field(), 4, 0, spec_block(k)),
{
    lemma_spawn_on_empty(spec_block(k));
}

/// The seven canonical shapes are pairwise distinct: each carries its own
/// color in the cell one right of the bottom-left of its box.
proof fn lemma_blocks_no_duplicates()
    ensures
        BLOCKS.deep_view().no_duplicates(),
{
    let s = BLOCKS.deep_view();
    assert(s[0][2][1] == tile::I);
    assert(s[1][2][1] == tile::O);
    assert(s[2][2][1] == tile::S);
    assert(s[3][2][1] == tile::Z);
    assert(s[4][2][1] == tile::J);
    assert(s[5][2][1] == tile::L);
    assert(s[6][2][1] == tile::T);
    assert forall|i: int, j: int| 0 <= i < s.len() && 0 <= j < s.len() && i != j implies s[i]
        != s[j] by {
        assert(s[i][2][1] != s[j][2][1]);
    }
}

/// Seven consecutive spawns drawn while consuming one bag deliver the seven
/// canonical shapes, each exactly once. A spawn pops the front of the
/// next-queue stream, so the shapes of those spawns are the stream's first
/// seven entries: one full bag.
pub proof fn lemma_one_bag_spawns_each_shape_once(stream: Seq<Seq<Seq<usize>>>)
    requires
        stream.len() >= BLOCK_KINDS,
        is_full_bag(stream.subrange(0, BLOCK_KINDS as int)),
    ensures
        Seq::new(BLOCK_KINDS as nat, |i: int| stream[i]).to_multiset()
            == BLOCKS.deep_view().to_multiset(),
        forall|k: BlockKind|
            Seq::new(BLOCK_KINDS as nat, |i: int| stream[i]).to_multiset().count(
                #[trigger] spec_block(k),
            ) == 1,
{
    broadcast use vstd::seq_lib::group_to_multiset_ensures;

    let drawn = Seq::new(BLOCK_KINDS as nat, |i: int| stream[i]);
    assert(drawn =~= stream.subrange(0, BLOCK_KINDS as int));
    lemma_blocks_no_duplicates();
    BLOCKS.deep_view().lemma_multiset_has_no_duplicates();
    assert forall|k: BlockKind| drawn.to_multiset().count(#[trigger] spec_block(k)) == 1 by {
        assert(BLOCKS.deep_view().contains(spec_block(k)));
        assert(BLOCKS.deep_view().to_multiset().count(spec_block(k)) == 1);
    }
}

/// The active piece of a fresh game and the first six entries of its
/// visible queue together form one full bag: the game's first seven pieces
/// deliver the seven canonical shapes, each exactly once.
pub proof fn lemma_new_game_first_bag(g: Game)
    requires
        exists|b1: Seq<BlockShape>, b2: Seq<BlockShape>|
            {
                &&& b1.len() == BLOCK_KINDS
                &&& b2.len() == BLOCK_KINDS
                &&& is_full_bag(Seq::new(BLOCK_KINDS as nat, |i: int| b1[i].deep_view()))
                &&& is_full_bag(Seq::new(BLOCK_KINDS as nat, |i: int| b2[i].deep_view()))
                &&& g.block == b1[0]
                &&& g.next@ == #[trigger] b1.subrange(1, BLOCK_KINDS as int).push(b2[0])
                &&& g.next_buf@ == #[trigger] b2.subrange(1, BLOCK_KINDS as int)
            },
    ensures
        (seq![g.block.deep_view()] + Seq::new((BLOCK_KINDS - 1) as nat, |i: int| g.next@[i].deep_view())).to_multiset()
            == BLOCKS.deep_view().to_multiset(),
{
    let (b1, b2) = choose|b1: Seq<BlockShape>, b2: Seq<BlockShape>|
        {
            &&& b1.len() == BLOCK_KINDS
            &&& b2.len() == BLOCK_KINDS
            &&& is_full_bag(Seq::new(BLOCK_KINDS as nat, |i: int| b1[i].deep_view()))
            &&& is_full_bag(Seq::new(BLOCK_KINDS as nat, |i: int| b2[i].deep_view()))
            &&& g.block == b1[0]
            &&& g.next@ == #[trigger] b1.subrange(1, BLOCK_KINDS as int).push(b2[0])
            &&& g.next_buf@ == #[trigger] b2.subrange(1, BLOCK_KINDS as int)
        };
    let first = seq![g.block.deep_view()] + Seq::new(
        (BLOCK_KINDS - 1) as nat,
        |i: int| g.next@[i].deep_view(),
    );
    assert(first =~= Seq::new(BLOCK_KINDS as nat, |i: int| b1[i].deep_view()));
}

/// Clearing a field whose single clearable interior row is `r` removes
/// exactly that row: the pass counts one, every row from the field's second
/// row down to `r` takes the row above it, and every other row, the top row
/// and the field height included, is unchanged.
pub proof fn lemma_erase_single_row(f: Seq<Seq<usize>>, r: int)
    requires
        f.len() == FIELD_HEIGHT,
        1 <= r < FIELD_HEIGHT - 1,
        row_full(f, r),
        forall|j: int| 0 <= j < FIELD_HEIGHT - 1 && j != r ==> !row_full(f, j),
    ensures
        erase_count(f) == 1,
        erase_result(f).len() == FIELD_HEIGHT,
        forall|j: int| 1 <= j <= r ==> erase_result(f)[j] == f[j - 1],
        erase_result(f)[0] == f[0],
        forall|j: int| r < j < FIELD_HEIGHT ==> erase_result(f)[j] == f[j],
{
    lemma_erase_skip(f, 0, r);
    let g = shift_rows_down(f, r);
    assert(forall|j: int| r + 1 <= j < FIELD_HEIGHT - 1 ==> g[j] == f[j]);
    assert forall|j: int| r + 1 <= j < FIELD_HEIGHT - 1 implies !row_full(g, j) by {
        assert(g[j] == f[j]);
        if row_full(g, j) {
            assert forall|x: int| 1 <= x < FIELD_WIDTH - 1 implies f[j][x] != tile::NONE by {
                assert(g[j][x] != tile::NONE);
            }
            assert(row_full(f, j));
        }
    }
    lemma_erase_none(g, r + 1);
    assert(erase_from(g, r + 1) == (g, 0int));
    assert(erase_from(f, r) == (g, 1int));
    assert(erase_result(f) == g);
}

/// Clearing a field with no clearable row at all, for instance one where a
/// row is complete except for a single interior cell, counts zero rows and
/// leaves the field exactly as it was.
pub proof fn lemma_erase_no_full_row(f: Seq<Seq<usize>>)
    requires
        f.len() == FIELD_HEIGHT,
        forall|j: int| 0 <= j < FIELD_HEIGHT - 1 ==> !row_full(f, j),
    ensures
        erase_count(f) == 0,
        erase_result(f) == f,
{
    lemma_erase_none(f, 0);
}

/// Rotating a 4-by-4 shape clockwise and then counter-clockwise, or the
/// other way round, returns it unchanged, cell for cell.
pub proof fn lemma_rotation_round_trip(b: Seq<Seq<usize>>)
    requires
        b.len() == 4,
        forall|y: int| 0 <= y < 4 ==> (#[trigger] b[y]).len() == 4,
    ensures
        rot_ccw(rot_cw(b)) == b,
        rot_cw(rot_ccw(b)) == b,
{
    assert(rot_ccw(rot_cw(b)) =~~= b);
    assert(rot_cw(rot_ccw(b)) =~~= b);
}

/// Rotating the active piece clockwise and then counter-clockwise from a
/// position where neither rotation collides in place restores the shape bit
/// for bit and keeps the position.
pub proof fn lemma_rotate_right_left_round_trip(g0: Game, g1: Game, g2: Game)
    requires
        rotate_outcome(g0, g1, rot_cw(g0.block.deep_view())),
        !collides(
            g0.field.deep_view(),
            g0.pos.x as int,
            g0.pos.y as int,
            rot_cw(g0.block.deep_view()),
        ),
        g1.field.deep_view() == g0.field.deep_view(),
        rotate_outcome(g1, g2, rot_ccw(g1.block.deep_view())),
        !collides(
            g1.field.deep_view(),
            g1.pos.x as int,
            g1.pos.y as int,
            rot_ccw(g1.block.deep_view()),
        ),
    ensures
        g2.block.deep_view() == g0.block.deep_view(),
        g2.pos == g0.pos,
{
    lemma_rotation_round_trip(g0.block.deep_view());
}

/// Rotating against the left wall: when an occupied cell of the rotated
/// shape sits in the shape's leftmost column, the rotation collides in
/// place at `x = 0`, and the kick search either commits exactly one column
/// to the right or rejects the rotation: the up, down and left kicks leave
/// that cell in the wall column.
pub proof fn lemma_left_wall_kick(f: Seq<Seq<usize>>, py: int, b: Seq<Seq<usize>>)
    requires
        field_wf(f),
        0 <= py,
        exists|cy: int| 0 <= cy < 4 && #[trigger] b[cy][0] != tile::NONE && py + cy + 1 < FIELD_HEIGHT,
    ensures
        collides(f, 0, py, b),
        match spec_kick(f, 0, py, b) {
            Some(q) => q == (1int, py) && !collides(f, 1, py, b),
            None => collides(f, 1, py, b),
        },
{
    let cy = choose|cy: int| 0 <= cy < 4 && #[trigger] b[cy][0] != tile::NONE && py + cy + 1
        < FIELD_HEIGHT;
    assert(f[py + cy][0] == tile::WALL);
    assert(cell_hit(f, 0, py, b, cy, 0));
    assert(collides(f, 0, py, b));
    if py > 0 {
        assert(f[py - 1 + cy][0] == tile::WALL);
        assert(cell_hit(f, 0, py - 1, b, cy, 0));
        assert(collides(f, kick_try(0, py, 0).0, kick_try(0, py, 0).1, b));
    } else {
        assert(kick_try(0, py, 0) == (0int, py));
    }
    assert(f[py + 1 + cy][0] == tile::WALL);
    assert(cell_hit(f, 0, py + 1, b, cy, 0));
    assert(collides(f, kick_try(0, py, 2).0, kick_try(0, py, 2).1, b));
    assert(kick_try(0, py, 3) == (0int, py));
}

/// The whole rotation operation at the left wall: when the rotated shape
/// keeps an occupied cell in its leftmost column, the rotation either
/// commits that shape exactly one column to the right or leaves shape and
/// position untouched.
pub proof fn lemma_rotate_at_left_wall(g0: Game, g1: Game, ns: Seq<Seq<usize>>)
    requires
        field_wf(g0.field.deep_view()),
        g0.pos.x == 0,
        rotate_outcome(g0, g1, ns),
        exists|cy: int|
            0 <= cy < 4 && #[trigger] ns[cy][0] != tile::NONE && g0.pos.y as int + cy + 1
                < FIELD_HEIGHT,
    ensures
        (g1.pos.x == 1 && g1.pos.y == g0.pos.y && g1.block.deep_view() == ns) || (g1.pos == g0.pos
            && g1.block == g0.block),
{
    lemma_left_wall_kick(g0.field.deep_view(), g0.pos.y as int, ns);
}

} // verus!
