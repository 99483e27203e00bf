use vstd::prelude::*;

use crate::block::{BlockShape, BLOCK_KINDS};
use crate::tile;

verus! {

pub const FIELD_WIDTH: usize = 11 + 2;

pub const FIELD_HEIGHT: usize = 20 + 1;

/// The playing field: a grid of tile colors with a one-cell wall border on
/// the left, the right and the bottom.
pub type Field = [[tile::TileColor; FIELD_WIDTH]; FIELD_HEIGHT];

/// Offset of a shape's 4-by-4 bounding box within the field, measured from
/// the field's top-left corner.
#[derive(Clone, Copy, PartialEq, Eq, Structural, Debug)]
pub struct Position {
    pub x: usize,
    pub y: usize,
}

impl Position {
    /// The fixed spawn position: top row, centered over the interior.
    pub fn init() -> (p: Position)
        ensures
            p.x == 4 && p.y == 0,
    {
        Position { x: 4, y: 0 }
    }
}

pub const NEXT_LENGTH: usize = 3;

pub const SCORE_TABLE: [usize; 5] = [0, 1, 5, 25, 100];

/// The whole game state: field, active piece, hold slot, the visible next
/// queue, its backing reserve bag, and the running totals.
pub struct Game {
    pub field: Field,
    pub pos: Position,
    pub block: BlockShape,
    pub hold: Option<BlockShape>,
    pub holded: bool,
    pub next: Vec<BlockShape>,
    pub next_buf: Vec<BlockShape>,
    pub score: usize,
    pub line: usize,
}

/// A shape is a 4-by-4 grid whose cells are either empty or a piece color,
/// with at least one occupied cell.
pub open spec fn shape_wf(b: Seq<Seq<usize>>) -> bool {
    &&& b.len() == 4
    &&& forall|y: int| 0 <= y < 4 ==> (#[trigger] b[y]).len() == 4
    &&& forall|y: int, x: int|
        0 <= y < 4 && 0 <= x < 4 ==> (#[trigger] b[y][x] == tile::NONE || tile::I <= b[y][x]
            <= tile::T)
    &&& exists|y: int, x: int| 0 <= y < 4 && 0 <= x < 4 && #[trigger] b[y][x] != tile::NONE
}

/// The field invariant: full border walls on the left, the right and the
/// bottom, and interior cells that are empty or hold a locked piece color.
pub open spec fn field_wf(f: Seq<Seq<usize>>) -> bool {
    &&& f.len() == FIELD_HEIGHT
    &&& forall|y: int| 0 <= y < FIELD_HEIGHT ==> (#[trigger] f[y]).len() == FIELD_WIDTH
    &&& forall|y: int|
        0 <= y < FIELD_HEIGHT ==> (#[trigger] f[y][0] == tile::WALL && f[y][FIELD_WIDTH - 1]
            == tile::WALL)
    &&& forall|x: int| 0 <= x < FIELD_WIDTH ==> #[trigger] f[FIELD_HEIGHT - 1][x] == tile::WALL
    &&& forall|y: int, x: int|
        0 <= y < FIELD_HEIGHT - 1 && 1 <= x < FIELD_WIDTH - 1 ==> (#[trigger] f[y][x]
            == tile::NONE || tile::I <= f[y][x] <= tile::T)
}

/// A single shape cell overlaps a non-empty field cell. Offsets that fall
/// outside the field never hit: the wall border and the callers' position
/// discipline make that safe, as the field invariant records.
pub open spec fn cell_hit(
    f: Seq<Seq<usize>>,
    px: int,
    py: int,
    b: Seq<Seq<usize>>,
    y: int,
    x: int,
) -> bool {
    &&& py + y < FIELD_HEIGHT
    &&& px + x < FIELD_WIDTH
    &&& b[y][x] != tile::NONE
    &&& f[py + y][px + x] != tile::NONE
}

/// The collision test between a shape at an offset and the field.
pub open spec fn collides(f: Seq<Seq<usize>>, px: int, py: int, b: Seq<Seq<usize>>) -> bool {
    exists|y: int, x: int| 0 <= y < 4 && 0 <= x < 4 && #[trigger] cell_hit(f, px, py, b, y, x)
}

/// Every occupied cell of the shape lies inside the field grid.
pub open spec fn piece_in_bounds(px: int, py: int, b: Seq<Seq<usize>>) -> bool {
    forall|y: int, x: int|
        0 <= y < 4 && 0 <= x < 4 && #[trigger] b[y][x] != tile::NONE ==> py + y < FIELD_HEIGHT && px
            + x < FIELD_WIDTH
}

/// Every occupied cell of the shape lies strictly inside the interior:
/// never over the side walls or the floor. This is the position discipline
/// that keeps the border permanent when a piece is locked.
pub open spec fn piece_interior(px: int, py: int, b: Seq<Seq<usize>>) -> bool {
    forall|y: int, x: int|
        0 <= y < 4 && 0 <= x < 4 && #[trigger] b[y][x] != tile::NONE ==> 0 < px + x < FIELD_WIDTH
            - 1 && py + y < FIELD_HEIGHT - 1
}

/// The points a single lock earns for clearing `k` rows at once.
pub open spec fn spec_score(k: int) -> int {
    if k <= 0 {
        0
    } else if k == 1 {
        1
    } else if k == 2 {
        5
    } else if k == 3 {
        25
    } else {
        100
    }
}

/// The field with the shape written over it at the given offset: occupied
/// shape cells overwrite, empty ones leave the field cell alone.
pub open spec fn overlay(f: Seq<Seq<usize>>, px: int, py: int, b: Seq<Seq<usize>>) -> Seq<
    Seq<usize>,
> {
    Seq::new(
        f.len(),
        |r: int|
            Seq::new(
                f[r].len(),
                |c: int|
                    if py <= r < py + 4 && px <= c < px + 4 && b[r - py][c - px] != tile::NONE {
                        b[r - py][c - px]
                    } else {
                        f[r][c]
                    },
            ),
    )
}

/// A row is clearable when every interior cell (the side walls excluded) is
/// occupied.
pub open spec fn row_full(f: Seq<Seq<usize>>, y: int) -> bool {
    forall|x: int| 1 <= x < FIELD_WIDTH - 1 ==> #[trigger] f[y][x] != tile::NONE
}

/// Rows from the field's second row down to row `y` each take the value of
/// the row above; everything else is unchanged. This is the single shift
/// that deletes row `y` when it is cleared, the old top row re-entering as
/// the fresh row below the top. The top row itself has no row above it, so
/// it is the one row a shift cannot delete.
pub open spec fn shift_rows_down(f: Seq<Seq<usize>>, y: int) -> Seq<Seq<usize>> {
    Seq::new(f.len(), |r: int| if 1 <= r <= y { f[r - 1] } else { f[r] })
}

/// One top-to-bottom clearing pass starting at row `y`: each clearable row
/// is counted and shifted away as soon as it is found. Every interior row
/// is scanned, the top row included.
pub open spec fn erase_from(f: Seq<Seq<usize>>, y: int) -> (Seq<Seq<usize>>, int)
    decreases FIELD_HEIGHT - 1 - y,
{
    if !(0 <= y < FIELD_HEIGHT - 1) {
        (f, 0)
    } else if row_full(f, y) {
        let rest = erase_from(shift_rows_down(f, y), y + 1);
        (rest.0, rest.1 + 1)
    } else {
        erase_from(f, y + 1)
    }
}

/// The field after a full clearing pass.
pub open spec fn erase_result(f: Seq<Seq<usize>>) -> Seq<Seq<usize>> {
    erase_from(f, 0).0
}

/// How many rows a full clearing pass removes.
pub open spec fn erase_count(f: Seq<Seq<usize>>) -> int {
    erase_from(f, 0).1
}

/// The row on which the active piece would come to rest: the last offset,
/// probing downward, at which the shape does not collide.
pub open spec fn landing_row(f: Seq<Seq<usize>>, px: int, py: int, b: Seq<Seq<usize>>) -> int
    decreases FIELD_HEIGHT - py,
{
    if py >= FIELD_HEIGHT {
        py
    } else if collides(f, px, py + 1, b) {
        py
    } else {
        landing_row(f, px, py + 1, b)
    }
}

/// The clockwise rotation of a 4-by-4 shape: the cell that was in row
/// `3 - x`, column `y` moves to row `y`, column `x`.
pub open spec fn rot_cw(b: Seq<Seq<usize>>) -> Seq<Seq<usize>> {
    Seq::new(4, |y: int| Seq::new(4, |x: int| b[3 - x][y]))
}

/// The counter-clockwise rotation of a 4-by-4 shape: the inverse transform
/// of the clockwise one.
pub open spec fn rot_ccw(b: Seq<Seq<usize>>) -> Seq<Seq<usize>> {
    Seq::new(4, |y: int| Seq::new(4, |x: int| b[x][3 - y]))
}

/// The kick offsets, tried in this fixed order: one row up (clamped at the
/// top), one column right, one row down, one column left (clamped at the
/// left edge).
pub open spec fn kick_try(px: int, py: int, i: int) -> (int, int) {
    if i == 0 {
        (px, if py > 0 {
            py - 1
        } else {
            py
        })
    } else if i == 1 {
        (px + 1, py)
    } else if i == 2 {
        (px, py + 1)
    } else {
        (
            if px > 0 {
                px - 1
            } else {
                px
            },
            py,
        )
    }
}

/// The bounded kick search: the first offset, in the fixed order, at which
/// the rotated shape does not collide; none if all four collide.
pub open spec fn spec_kick(f: Seq<Seq<usize>>, px: int, py: int, b: Seq<Seq<usize>>) -> Option<
    (int, int),
> {
    if !collides(f, kick_try(px, py, 0).0, kick_try(px, py, 0).1, b) {
        Some(kick_try(px, py, 0))
    } else if !collides(f, kick_try(px, py, 1).0, kick_try(px, py, 1).1, b) {
        Some(kick_try(px, py, 1))
    } else if !collides(f, kick_try(px, py, 2).0, kick_try(px, py, 2).1, b) {
        Some(kick_try(px, py, 2))
    } else if !collides(f, kick_try(px, py, 3).0, kick_try(px, py, 3).1, b) {
        Some(kick_try(px, py, 3))
    } else {
        None
    }
}

/// What a committed rotation leaves behind: the rotated shape `ns` at the
/// current position when it fits there, else at the first fitting kick
/// offset; when every candidate collides, the rotation is a silent no-op.
pub open spec fn rotate_outcome(pre: Game, post: Game, ns: Seq<Seq<usize>>) -> bool {
    let f = pre.field.deep_view();
    let px = pre.pos.x as int;
    let py = pre.pos.y as int;
    if !collides(f, px, py, ns) {
        &&& post.block.deep_view() == ns
        &&& post.pos == pre.pos
    } else {
        match spec_kick(f, px, py, ns) {
            Some(q) => {
                &&& post.block.deep_view() == ns
                &&& post.pos.x as int == q.0
                &&& post.pos.y as int == q.1
            },
            None => {
                &&& post.block == pre.block
                &&& post.pos == pre.pos
            },
        }
    }
}

/// Rotation permutes the cells of a shape, so a well-formed shape stays
/// well formed either way round.
pub proof fn lemma_rot_shape_wf(b: Seq<Seq<usize>>)
    requires
        shape_wf(b),
    ensures
        shape_wf(rot_cw(b)),
        shape_wf(rot_ccw(b)),
{
    let (cy, cx) = choose|cy: int, cx: int|
        0 <= cy < 4 && 0 <= cx < 4 && #[trigger] b[cy][cx] != tile::NONE;
    assert(rot_cw(b)[cx][3 - cy] == b[cy][cx]);
    assert(rot_ccw(b)[3 - cx][cy] == b[cy][cx]);
}

/// How one spawn advances the queues: the visible queue drops its front and
/// gains the reserve's front; when the reserve was empty, a fresh full bag
/// takes its place and hands over its own front instead.
pub open spec fn spawn_queue_shift(pre: Game, post: Game) -> bool {
    if pre.next_buf@.len() > 0 {
        &&& post.next@ == pre.next@.subrange(1, BLOCK_KINDS as int).push(pre.next_buf@[0])
        &&& post.next_buf@ == pre.next_buf@.subrange(1, pre.next_buf@.len() as int)
    } else {
        exists|bag: Seq<BlockShape>|
            {
                &&& bag.len() == BLOCK_KINDS
                &&& crate::block::is_full_bag(
                    Seq::new(BLOCK_KINDS as nat, |i: int| bag[i].deep_view()),
                )
                &&& post.next@ == pre.next@.subrange(1, BLOCK_KINDS as int).push(bag[0])
                &&& post.next_buf@ == #[trigger] bag.subrange(1, BLOCK_KINDS as int)
            }
    }
}

/// The structural invariant of a game: well-formed field and shapes, a
/// visible queue of exactly one bag, and a reserve of at most one bag.
pub open spec fn game_wf(g: Game) -> bool {
    &&& field_wf(g.field.deep_view())
    &&& shape_wf(g.block.deep_view())
    &&& match g.hold {
        Some(h) => shape_wf(h.deep_view()),
        None => true,
    }
    &&& g.next@.len() == BLOCK_KINDS
    &&& g.next_buf@.len() <= BLOCK_KINDS
    &&& forall|i: int| 0 <= i < g.next@.len() ==> shape_wf((#[trigger] g.next@[i]).deep_view())
    &&& forall|i: int|
        0 <= i < g.next_buf@.len() ==> shape_wf((#[trigger] g.next_buf@[i]).deep_view())
}

/// The active piece can be probed and locked: it does not overlap the field
/// and every occupied cell lies inside the grid.
pub open spec fn active_ok(g: Game) -> bool {
    &&& !collides(g.field.deep_view(), g.pos.x as int, g.pos.y as int, g.block.deep_view())
    &&& piece_in_bounds(g.pos.x as int, g.pos.y as int, g.block.deep_view())
}

/// Pure collision test: true exactly when an occupied shape cell lies over a
/// non-empty field cell. Cells whose offset leaves the field are skipped.
#[verifier::loop_isolation(false)]
pub fn is_collision(field: &Field, pos: &Position, block: &BlockShape) -> (r: bool)
    ensures
        r == collides(field.deep_view(), pos.x as int, pos.y as int, block.deep_view()),
{
    let ghost f = field.deep_view();
    let ghost b = block.deep_view();
    let ghost px = pos.x as int;
    let ghost py = pos.y as int;
    let mut y: usize = 0;
    while y < 4
        invariant
            y <= 4,
            forall|yy: int, xx: int| 0 <= yy < y && 0 <= xx < 4 ==> !cell_hit(f, px, py, b, yy, xx),
        decreases 4 - y,
    {
        let mut x: usize = 0;
        while x < 4
            invariant
                y < 4,
                x <= 4,
                forall|yy: int, xx: int|
                    0 <= yy < y && 0 <= xx < 4 ==> !cell_hit(f, px, py, b, yy, xx),
                forall|xx: int| 0 <= xx < x ==> !cell_hit(f, px, py, b, y as int, xx),
            decreases 4 - x,
        {
            let in_bounds = pos.y < FIELD_HEIGHT && y < FIELD_HEIGHT - pos.y && pos.x < FIELD_WIDTH
                && x < FIELD_WIDTH - pos.x;
            if in_bounds {
                if block[y][x] != tile::NONE && field[y + pos.y][x + pos.x] != tile::NONE {
                    proof {
                        assert(cell_hit(f, px, py, b, y as int, x as int));
                    }
                    return true;
                }
            }
            proof {
                assert(!cell_hit(f, px, py, b, y as int, x as int));
            }
            x = x + 1;
        }
        y = y + 1;
    }
    false
}

/// The intermediate states of the shifting loop: rows strictly between `k`
/// and `y` (inclusive) already hold the row above them.
spec fn shift_upto(f: Seq<Seq<usize>>, y: int, k: int) -> Seq<Seq<usize>> {
    Seq::new(f.len(), |r: int| if k < r <= y { f[r - 1] } else { f[r] })
}

/// The overlay restricted to the first `n` cells of the shape's box in
/// row-major order: the intermediate states of the writing loop.
spec fn overlay_upto(f: Seq<Seq<usize>>, px: int, py: int, b: Seq<Seq<usize>>, n: int) -> Seq<
    Seq<usize>,
> {
    Seq::new(
        f.len(),
        |r: int|
            Seq::new(
                f[r].len(),
                |c: int|
                    if py <= r < py + 4 && px <= c < px + 4 && 4 * (r - py) + (c - px) < n && b[r
                        - py][c - px] != tile::NONE {
                        b[r - py][c - px]
                    } else {
                        f[r][c]
                    },
            ),
    )
}

/// Write every occupied cell of the active shape into the field at the
/// active position; empty shape cells leave the field alone.
#[verifier::loop_isolation(false)]
pub fn fix_block(game: &mut Game)
    requires
        piece_in_bounds(
            old(game).pos.x as int,
            old(game).pos.y as int,
            old(game).block.deep_view(),
        ),
    ensures
        final(game).field.deep_view() == overlay(
            old(game).field.deep_view(),
            old(game).pos.x as int,
            old(game).pos.y as int,
            old(game).block.deep_view(),
        ),
        final(game).pos == old(game).pos,
        final(game).block == old(game).block,
        final(game).hold == old(game).hold,
        final(game).holded == old(game).holded,
        final(game).next == old(game).next,
        final(game).next_buf == old(game).next_buf,
        final(game).score == old(game).score,
        final(game).line == old(game).line,
{
    let p = game.pos;
    stamp(&mut game.field, &p, &game.block, false);
}

/// Scan the interior rows from top to bottom; count each clearable row and
/// shift the rows above it down by one as soon as it is found. Returns how
/// many rows were cleared by this call.
#[verifier::loop_isolation(false)]
pub fn erase_line(field: &mut Field) -> (count: usize)
    ensures
        final(field).deep_view() == erase_result(old(field).deep_view()),
        count as int == erase_count(old(field).deep_view()),
        count <= FIELD_HEIGHT - 1,
{
    let ghost f0 = old(field).deep_view();
    let mut count: usize = 0;
    let mut y: usize = 0;
    while y < FIELD_HEIGHT - 1
        invariant
            0 <= y <= FIELD_HEIGHT - 1,
            count <= y,
            erase_from(f0, 0).0 == erase_from(field.deep_view(), y as int).0,
            erase_from(f0, 0).1 == count + erase_from(field.deep_view(), y as int).1,
        decreases FIELD_HEIGHT - 1 - y,
    {
        let mut can_erase = true;
        let mut x: usize = 1;
        while x < FIELD_WIDTH - 1
            invariant
                1 <= x <= FIELD_WIDTH - 1,
                can_erase <==> (forall|xx: int|
                    1 <= xx < x ==> field.deep_view()[y as int][xx] != tile::NONE),
            decreases FIELD_WIDTH - 1 - x,
        {
            if field[y][x] == tile::NONE {
                can_erase = false;
                proof {
                    assert(field.deep_view()[y as int][x as int] == tile::NONE);
                }
            } else {
                proof {
                    assert(field.deep_view()[y as int][x as int] != tile::NONE);
                }
            }
            x = x + 1;
        }
        assert(can_erase == row_full(field.deep_view(), y as int));
        if can_erase {
            count = count + 1;
            let ghost fb = field.deep_view();
            proof {
                assert(field.deep_view() =~~= shift_upto(fb, y as int, y as int));
            }
            let mut y2: usize = y;
            while y2 >= 1
                invariant
                    0 <= y2 <= y,
                    field.deep_view() == shift_upto(fb, y as int, y2 as int),
                decreases y2,
            {
                let ghost before = field.deep_view();
                field[y2] = field[y2 - 1];
                proof {
                    assert(field.deep_view()[y2 as int] == before[y2 as int - 1]);
                    assert(forall|r: int|
                        0 <= r < FIELD_HEIGHT && r != y2 as int ==> field.deep_view()[r]
                            == before[r]);
                    assert(fb.len() == FIELD_HEIGHT);
                    assert forall|r: int| 0 <= r < FIELD_HEIGHT implies field.deep_view()[r]
                        == shift_upto(fb, y as int, y2 as int - 1)[r] by {
                        if r == y2 as int {
                            assert(field.deep_view()[r] == before[y2 as int - 1]);
                            assert(before[y2 as int - 1] == shift_upto(fb, y as int, y2 as int)[y2
                                as int - 1]);
                            assert(shift_upto(fb, y as int, y2 as int)[y2 as int - 1] == fb[y2
                                as int - 1]);
                        } else {
                            assert(field.deep_view()[r] == before[r]);
                            assert(before[r] == shift_upto(fb, y as int, y2 as int)[r]);
                        }
                    }
                    assert(field.deep_view() =~= shift_upto(fb, y as int, y2 as int - 1));
                }
                y2 = y2 - 1;
            }
            proof {
                assert(field.deep_view() =~~= shift_rows_down(fb, y as int));
            }
        }
        y = y + 1;
    }
    count
}

/// Commit the candidate position when it is collision-free; otherwise the
/// move is a silent no-op and the game is unchanged.
pub fn move_block(game: &mut Game, new_pos: Position)
    ensures
        final(game).pos == if !collides(
            old(game).field.deep_view(),
            new_pos.x as int,
            new_pos.y as int,
            old(game).block.deep_view(),
        ) {
            new_pos
        } else {
            old(game).pos
        },
        final(game).field == old(game).field,
        final(game).block == old(game).block,
        final(game).hold == old(game).hold,
        final(game).holded == old(game).holded,
        final(game).next == old(game).next,
        final(game).next_buf == old(game).next_buf,
        final(game).score == old(game).score,
        final(game).line == old(game).line,
        game_wf(*old(game)) ==> game_wf(*final(game)),
{
    if !is_collision(&game.field, &new_pos, &game.block) {
        game.pos = new_pos;
    }
}

/// The bounded kick search itself: try the four offsets in the fixed order
/// and return the first collision-free one, or report that none fits.
pub fn super_rotation(field: &Field, pos: &Position, block: &BlockShape) -> (r: Result<
    Position,
    (),
>)
    requires
        pos.x < usize::MAX,
        pos.y < usize::MAX,
    ensures
        match r {
            Ok(p) => spec_kick(
                field.deep_view(),
                pos.x as int,
                pos.y as int,
                block.deep_view(),
            ) == Some((p.x as int, p.y as int)),
            Err(_) => spec_kick(
                field.deep_view(),
                pos.x as int,
                pos.y as int,
                block.deep_view(),
            ) is None,
        },
{
    let cand0 = Position { x: pos.x, y: if pos.y > 0 { (pos.y - 1) } else { pos.y } };
    let cand1 = Position { x: pos.x + 1, y: pos.y };
    let cand2 = Position { x: pos.x, y: pos.y + 1 };
    let cand3 = Position { x: if pos.x > 0 { (pos.x - 1) } else { pos.x }, y: pos.y };
    if !is_collision(field, &cand0, block) {
        Ok(cand0)
    } else if !is_collision(field, &cand1, block) {
        Ok(cand1)
    } else if !is_collision(field, &cand2, block) {
        Ok(cand2)
    } else if !is_collision(field, &cand3, block) {
        Ok(cand3)
    } else {
        Err(())
    }
}

/// Rotate the active shape clockwise, committing it at the current position
/// when it fits, else at the first fitting kick offset, else not at all.
#[verifier::loop_isolation(false)]
pub fn rotate_right(game: &mut Game)
    requires
        old(game).pos.x < usize::MAX,
        old(game).pos.y < usize::MAX,
    ensures
        rotate_outcome(*old(game), *final(game), rot_cw(old(game).block.deep_view())),
        game_wf(*old(game)) ==> game_wf(*final(game)),
        final(game).field == old(game).field,
        final(game).hold == old(game).hold,
        final(game).holded == old(game).holded,
        final(game).next == old(game).next,
        final(game).next_buf == old(game).next_buf,
        final(game).score == old(game).score,
        final(game).line == old(game).line,
{
    let ghost b = old(game).block.deep_view();
    let mut new_shape: BlockShape = [[0, 0, 0, 0], [0, 0, 0, 0], [0, 0, 0, 0], [0, 0, 0, 0]];
    let mut y: usize = 0;
    while y < 4
        invariant
            y <= 4,
            game == old(game),
            forall|a: int, c: int|
                0 <= a < 4 && 0 <= c < 4 ==> #[trigger] new_shape.deep_view()[a][c] == (if 4 * a
                    + c < 4 * y {
                    b[3 - c][a]
                } else {
                    0usize
                }),
        decreases 4 - y,
    {
        let mut x: usize = 0;
        while x < 4
            invariant
                y < 4,
                x <= 4,
                game == old(game),
                forall|a: int, c: int|
                    0 <= a < 4 && 0 <= c < 4 ==> #[trigger] new_shape.deep_view()[a][c] == (if 4
                        * a + c < 4 * y + x {
                        b[3 - c][a]
                    } else {
                        0usize
                    }),
            decreases 4 - x,
        {
            let ghost before = new_shape.deep_view();
            let mut row = new_shape[y];
            row[x] = game.block[3 - x][y];
            new_shape[y] = row;
            proof {
                assert(new_shape.deep_view()[y as int] =~= before[y as int].update(
                    x as int,
                    b[3 - x as int][y as int],
                ));
                assert(forall|r: int|
                    0 <= r < 4 && r != y as int ==> new_shape.deep_view()[r] =~= before[r]);
                assert forall|a: int, c: int| 0 <= a < 4 && 0 <= c < 4 implies
                    #[trigger] new_shape.deep_view()[a][c] == (if 4 * a + c < 4 * (y as int) + x
                        as int + 1 {
                        b[3 - c][a]
                    } else {
                        0usize
                    }) by {
                    if a != y as int {
                        assert(new_shape.deep_view()[a][c] == before[a][c]);
                    }
                }
            }
            x = x + 1;
        }
        y = y + 1;
    }
    proof {
        assert(new_shape.deep_view() =~~= rot_cw(b));
        if shape_wf(b) {
            lemma_rot_shape_wf(b);
        }
    }
    if !is_collision(&game.field, &game.pos, &new_shape) {
        game.block = new_shape;
    } else {
        let kicked = super_rotation(&game.field, &game.pos, &new_shape);
        match kicked {
            Ok(new_pos) => {
                game.pos = new_pos;
                game.block = new_shape;
            },
            Err(_) => {},
        }
    }
}

/// Rotate the active shape counter-clockwise, with the same commit and kick
/// discipline as the clockwise rotation.
#[verifier::loop_isolation(false)]
pub fn rotate_left(game: &mut Game)
    requires
        old(game).pos.x < usize::MAX,
        old(game).pos.y < usize::MAX,
    ensures
        rotate_outcome(*old(game), *final(game), rot_ccw(old(game).block.deep_view())),
        game_wf(*old(game)) ==> game_wf(*final(game)),
        final(game).field == old(game).field,
        final(game).hold == old(game).hold,
        final(game).holded == old(game).holded,
        final(game).next == old(game).next,
        final(game).next_buf == old(game).next_buf,
        final(game).score == old(game).score,
        final(game).line == old(game).line,
{
    let ghost b = old(game).block.deep_view();
    let mut new_shape: BlockShape = [[0, 0, 0, 0], [0, 0, 0, 0], [0, 0, 0, 0], [0, 0, 0, 0]];
    let mut y: usize = 0;
    while y < 4
        invariant
            y <= 4,
            game == old(game),
            forall|a: int, c: int|
                0 <= a < 4 && 0 <= c < 4 ==> #[trigger] new_shape.deep_view()[a][c] == (if 4 * c
                    + 3 - a < 4 * y {
                    b[c][3 - a]
                } else {
                    0usize
                }),
        decreases 4 - y,
    {
        let mut x: usize = 0;
        while x < 4
            invariant
                y < 4,
                x <= 4,
                game == old(game),
                forall|a: int, c: int|
                    0 <= a < 4 && 0 <= c < 4 ==> #[trigger] new_shape.deep_view()[a][c] == (if 4
                        * c + 3 - a < 4 * y + x {
                        b[c][3 - a]
                    } else {
                        0usize
                    }),
            decreases 4 - x,
        {
            let ghost before = new_shape.deep_view();
            let mut row = new_shape[3 - x];
            row[y] = game.block[y][x];
            new_shape[3 - x] = row;
            proof {
                assert(new_shape.deep_view()[3 - x as int] =~= before[3 - x as int].update(
                    y as int,
                    b[y as int][x as int],
                ));
                assert(forall|r: int|
                    0 <= r < 4 && r != 3 - x as int ==> new_shape.deep_view()[r] =~= before[r]);
                assert forall|a: int, c: int| 0 <= a < 4 && 0 <= c < 4 implies
                    #[trigger] new_shape.deep_view()[a][c] == (if 4 * c + 3 - a < 4 * (y as int)
                        + x as int + 1 {
                        b[c][3 - a]
                    } else {
                        0usize
                    }) by {
                    if a != 3 - x as int {
                        assert(new_shape.deep_view()[a][c] == before[a][c]);
                    }
                }
            }
            x = x + 1;
        }
        y = y + 1;
    }
    proof {
        assert(new_shape.deep_view() =~~= rot_ccw(b));
        if shape_wf(b) {
            lemma_rot_shape_wf(b);
        }
    }
    if !is_collision(&game.field, &game.pos, &new_shape) {
        game.block = new_shape;
    } else {
        let kicked = super_rotation(&game.field, &game.pos, &new_shape);
        match kicked {
            Ok(new_pos) => {
                game.pos = new_pos;
                game.block = new_shape;
            },
            Err(_) => {},
        }
    }
}

/// Where the active piece would land: probe one row further down while the
/// probe stays collision-free and return the last free position. Read-only;
/// recomputed for every frame.
#[verifier::loop_isolation(false)]
pub fn ghost_pos(field: &Field, pos: &Position, block: &BlockShape) -> (r: Position)
    requires
        field_wf(field.deep_view()),
        shape_wf(block.deep_view()),
        !collides(field.deep_view(), pos.x as int, pos.y as int, block.deep_view()),
        piece_in_bounds(pos.x as int, pos.y as int, block.deep_view()),
    ensures
        r.x == pos.x,
        r.y as int == landing_row(
            field.deep_view(),
            pos.x as int,
            pos.y as int,
            block.deep_view(),
        ),
        !collides(field.deep_view(), r.x as int, r.y as int, block.deep_view()),
        piece_in_bounds(r.x as int, r.y as int, block.deep_view()),
{
    let ghost f = field.deep_view();
    let ghost b = block.deep_view();
    let ghost px = pos.x as int;
    proof {
        assert forall|cy: int, cx: int|
            0 <= cy < 4 && 0 <= cx < 4 && b[cy][cx] != tile::NONE implies pos.y as int + cy
            <= FIELD_HEIGHT - 2 by {
            assert(!cell_hit(f, px, pos.y as int, b, cy, cx));
            assert(pos.y as int + cy < FIELD_HEIGHT && px + cx < FIELD_WIDTH);
            if pos.y as int + cy == FIELD_HEIGHT - 1 {
                assert(f[FIELD_HEIGHT - 1][px + cx] == tile::WALL);
                assert(false);
            }
        }
        let (cy, cx) = choose|cy: int, cx: int|
            0 <= cy < 4 && 0 <= cx < 4 && #[trigger] b[cy][cx] != tile::NONE;
        assert(pos.y as int + cy <= FIELD_HEIGHT - 2);
    }
    let mut gp = Position { x: pos.x, y: pos.y };
    let mut blocked = is_collision(field, &Position { x: gp.x, y: gp.y + 1 }, block);
    while !blocked
        invariant
            gp.x == pos.x,
            gp.y < FIELD_HEIGHT - 1,
            !collides(f, px, gp.y as int, b),
            piece_in_bounds(px, gp.y as int, b),
            landing_row(f, px, gp.y as int, b) == landing_row(f, px, pos.y as int, b),
            blocked == collides(f, px, gp.y as int + 1, b),
        decreases FIELD_HEIGHT - gp.y,
    {
        gp.y = gp.y + 1;
        proof {
            assert forall|cy: int, cx: int|
                0 <= cy < 4 && 0 <= cx < 4 && b[cy][cx] != tile::NONE implies gp.y as int + cy
                < FIELD_HEIGHT by {
                assert(!cell_hit(f, px, gp.y as int - 1, b, cy, cx));
                assert(gp.y as int - 1 + cy < FIELD_HEIGHT && px + cx < FIELD_WIDTH);
                if gp.y as int - 1 + cy == FIELD_HEIGHT - 1 {
                    assert(f[FIELD_HEIGHT - 1][px + cx] == tile::WALL);
                    assert(false);
                }
            }
            assert(piece_in_bounds(px, gp.y as int, b));
            assert forall|cy: int, cx: int|
                0 <= cy < 4 && 0 <= cx < 4 && b[cy][cx] != tile::NONE implies gp.y as int + cy
                <= FIELD_HEIGHT - 2 by {
                assert(!cell_hit(f, px, gp.y as int, b, cy, cx));
                assert(gp.y as int + cy < FIELD_HEIGHT && px + cx < FIELD_WIDTH);
                if gp.y as int + cy == FIELD_HEIGHT - 1 {
                    assert(f[FIELD_HEIGHT - 1][px + cx] == tile::WALL);
                    assert(false);
                }
            }
            let (cy, cx) = choose|cy: int, cx: int|
                0 <= cy < 4 && 0 <= cx < 4 && #[trigger] b[cy][cx] != tile::NONE;
            assert(gp.y as int + cy <= FIELD_HEIGHT - 2);
        }
        blocked = is_collision(field, &Position { x: gp.x, y: gp.y + 1 }, block);
    }
    gp
}

/// Drop the active piece straight down to its landing row. The caller locks
/// it immediately afterwards.
pub fn hard_drop(game: &mut Game)
    requires
        field_wf(old(game).field.deep_view()),
        shape_wf(old(game).block.deep_view()),
        active_ok(*old(game)),
    ensures
        final(game).pos.x == old(game).pos.x,
        final(game).pos.y as int == landing_row(
            old(game).field.deep_view(),
            old(game).pos.x as int,
            old(game).pos.y as int,
            old(game).block.deep_view(),
        ),
        active_ok(*final(game)),
        game_wf(*old(game)) ==> game_wf(*final(game)),
        final(game).field == old(game).field,
        final(game).block == old(game).block,
        final(game).hold == old(game).hold,
        final(game).holded == old(game).holded,
        final(game).next == old(game).next,
        final(game).next_buf == old(game).next_buf,
        final(game).score == old(game).score,
        final(game).line == old(game).line,
{
    let landed = ghost_pos(&game.field, &game.pos, &game.block);
    game.pos = landed;
}


/// Each of the seven canonical shape templates is well formed.
proof fn lemma_canonical_shapes_wf()
    ensures
        forall|j: int| 0 <= j < 7 ==> shape_wf(#[trigger] crate::block::BLOCKS.deep_view()[j]),
{
    let s0 = crate::block::BLOCKS.deep_view()[0];
    assert(s0 =~~= seq![seq![tile::NONE, tile::NONE, tile::NONE, tile::NONE], seq![tile::NONE, tile::NONE, tile::NONE, tile::NONE], seq![tile::I, tile::I, tile::I, tile::I], seq![tile::NONE, tile::NONE, tile::NONE, tile::NONE]]);
    assert(s0[2][1] != tile::NONE);
    assert(shape_wf(s0));
    let s1 = crate::block::BLOCKS.deep_view()[1];
    assert(s1 =~~= seq![seq![tile::NONE, tile::NONE, tile::NONE, tile::NONE], seq![tile::NONE, tile::O, tile::O, tile::NONE], seq![tile::NONE, tile::O, tile::O, tile::NONE], seq![tile::NONE, tile::NONE, tile::NONE, tile::NONE]]);
    assert(s1[2][1] != tile::NONE);
    assert(shape_wf(s1));
    let s2 = crate::block::BLOCKS.deep_view()[2];
    assert(s2 =~~= seq![seq![tile::NONE, tile::NONE, tile::NONE, tile::NONE], seq![tile::NONE, tile::S, tile::S, tile::NONE], seq![tile::S, tile::S, tile::NONE, tile::NONE], seq![tile::NONE, tile::NONE, tile::NONE, tile::NONE]]);
    assert(s2[2][1] != tile::NONE);
    assert(shape_wf(s2));
    let s3 = crate::block::BLOCKS.deep_view()[3];
    assert(s3 =~~= seq![seq![tile::NONE, tile::NONE, tile::NONE, tile::NONE], seq![tile::Z, tile::Z, tile::NONE, tile::NONE], seq![tile::NONE, tile::Z, tile::Z, tile::NONE], seq![tile::NONE, tile::NONE, tile::NONE, tile::NONE]]);
    assert(s3[2][1] != tile::NONE);
    assert(shape_wf(s3));
    let s4 = crate::block::BLOCKS.deep_view()[4];
    assert(s4 =~~= seq![seq![tile::NONE, tile::NONE, tile::NONE, tile::NONE], seq![tile::J, tile::NONE, tile::NONE, tile::NONE], seq![tile::J, tile::J, tile::J, tile::NONE], seq![tile::NONE, tile::NONE, tile::NONE, tile::NONE]]);
    assert(s4[2][1] != tile::NONE);
    assert(shape_wf(s4));
    let s5 = crate::block::BLOCKS.deep_view()[5];
    assert(s5 =~~= seq![seq![tile::NONE, tile::NONE, tile::NONE, tile::NONE], seq![tile::NONE, tile::NONE, tile::L, tile::NONE], seq![tile::L, tile::L, tile::L, tile::NONE], seq![tile::NONE, tile::NONE, tile::NONE, tile::NONE]]);
    assert(s5[2][1] != tile::NONE);
    assert(shape_wf(s5));
    let s6 = crate::block::BLOCKS.deep_view()[6];
    assert(s6 =~~= seq![seq![tile::NONE, tile::NONE, tile::NONE, tile::NONE], seq![tile::NONE, tile::T, tile::NONE, tile::NONE], seq![tile::T, tile::T, tile::T, tile::NONE], seq![tile::NONE, tile::NONE, tile::NONE, tile::NONE]]);
    assert(s6[2][1] != tile::NONE);
    assert(shape_wf(s6));
}

/// Every shape of a full bag is one of the seven canonical shapes, hence
/// well formed.
proof fn lemma_full_bag_shapes_wf(s: Seq<Seq<Seq<usize>>>)
    requires
        crate::block::is_full_bag(s),
    ensures
        forall|i: int| 0 <= i < s.len() ==> shape_wf(#[trigger] s[i]),
{
    broadcast use vstd::seq_lib::group_to_multiset_ensures;

    assert forall|i: int| 0 <= i < s.len() implies shape_wf(#[trigger] s[i]) by {
        assert(s.contains(s[i]));
        assert(s.to_multiset().count(s[i]) > 0);
        assert(crate::block::BLOCKS.deep_view().to_multiset().count(s[i]) > 0);
        assert(crate::block::BLOCKS.deep_view().contains(s[i]));
        let j = choose|j: int|
            0 <= j < crate::block::BLOCKS.deep_view().len() && crate::block::BLOCKS.deep_view()[j]
                == s[i];
        lemma_canonical_shapes_wf();
        assert(shape_wf(crate::block::BLOCKS.deep_view()[j]));
    }
}

/// A freshly shuffled bag as a queue, front at index zero.
fn fresh_bag() -> (v: Vec<BlockShape>)
    ensures
        v@.len() == BLOCK_KINDS,
        crate::block::is_full_bag(v.deep_view()),
        forall|i: int| 0 <= i < v@.len() ==> shape_wf((#[trigger] v@[i]).deep_view()),
{
    let bag = crate::block::gen_block_7();
    let mut v: Vec<BlockShape> = Vec::new();
    v.push(bag[0]);
    v.push(bag[1]);
    v.push(bag[2]);
    v.push(bag[3]);
    v.push(bag[4]);
    v.push(bag[5]);
    v.push(bag[6]);
    proof {
        assert(v.deep_view() =~~= bag.deep_view());
        lemma_full_bag_shapes_wf(v.deep_view());
        assert(forall|i: int|
            0 <= i < v@.len() ==> (#[trigger] v@[i]).deep_view() == v.deep_view()[i]);
    }
    v
}

/// Reset the position to the spawn point and install the front of the next
/// queue as the active piece, refilling the queue from the reserve; a fresh
/// bag replaces the reserve when it runs out. An `Err` reports the
/// spawn-collision that ends the game; the piece is installed either way so
/// the final frame can still be rendered.
pub fn spawn_block(game: &mut Game) -> (r: Result<(), ()>)
    requires
        game_wf(*old(game)),
    ensures
        game_wf(*final(game)),
        final(game).pos.x == 4 && final(game).pos.y == 0,
        final(game).block == old(game).next@[0],
        final(game).field == old(game).field,
        final(game).hold == old(game).hold,
        final(game).holded == old(game).holded,
        final(game).score == old(game).score,
        final(game).line == old(game).line,
        spawn_queue_shift(*old(game), *final(game)),
        r is Ok <==> !collides(
            final(game).field.deep_view(),
            4,
            0,
            final(game).block.deep_view(),
        ),
{
    game.pos = Position::init();
    game.block = game.next.remove(0);
    if game.next_buf.len() > 0 {
        let head = game.next_buf.remove(0);
        game.next.push(head);
        proof {
            assert(final(game).next@ =~= old(game).next@.subrange(1, BLOCK_KINDS as int).push(
                old(game).next_buf@[0],
            ));
            assert(final(game).next_buf@ =~= old(game).next_buf@.subrange(
                1,
                old(game).next_buf@.len() as int,
            ));
        }
    } else {
        game.next_buf = fresh_bag();
        let ghost bagseq = game.next_buf@;
        proof {
            lemma_full_bag_shapes_wf(game.next_buf.deep_view());
        }
        let head = game.next_buf.remove(0);
        game.next.push(head);
        proof {
            assert(final(game).next@ =~= old(game).next@.subrange(1, BLOCK_KINDS as int).push(
                bagseq[0],
            ));
            assert(final(game).next_buf@ =~= bagseq.subrange(1, BLOCK_KINDS as int));
            assert(Seq::new(bagseq.len(), |i: int| bagseq[i].deep_view()) =~~= Seq::new(
                BLOCK_KINDS as nat,
                |i: int| bagseq[i].deep_view(),
            ));
        }
    }
    if is_collision(&game.field, &game.pos, &game.block) {
        Err(())
    } else {
        Ok(())
    }
}


/// Park or swap the active piece, at most once per spawned piece. A second
/// hold before the next lock is a silent no-op. Parking into an empty slot
/// consumes the queue through a spawn; a swap does not.
pub fn hold(game: &mut Game)
    requires
        game_wf(*old(game)),
    ensures
        game_wf(*final(game)),
        old(game).holded ==> *final(game) == *old(game),
        !old(game).holded ==> {
            &&& final(game).holded == true
            &&& final(game).field == old(game).field
            &&& final(game).score == old(game).score
            &&& final(game).line == old(game).line
            &&& final(game).pos.x == 4 && final(game).pos.y == 0
            &&& final(game).hold == Some(old(game).block)
            &&& match old(game).hold {
                Some(h) => {
                    &&& final(game).block == h
                    &&& final(game).next == old(game).next
                    &&& final(game).next_buf == old(game).next_buf
                },
                None => {
                    &&& final(game).block == old(game).next@[0]
                    &&& spawn_queue_shift(*old(game), *final(game))
                },
            }
        },
{
    if game.holded {
        return ;
    }
    match game.hold {
        Some(parked) => {
            game.hold = Some(game.block);
            game.block = parked;
            game.pos = Position::init();
        },
        None => {
            game.hold = Some(game.block);
            let _ = spawn_block(game);
        },
    }
    game.holded = true;
}


/// Counting the clearable rows from `y` down, without shifting anything.
pub open spec fn full_rows_from(f: Seq<Seq<usize>>, y: int) -> int
    decreases FIELD_HEIGHT - 1 - y,
{
    if !(0 <= y < FIELD_HEIGHT - 1) {
        0
    } else {
        (if row_full(f, y) {
            1int
        } else {
            0int
        }) + full_rows_from(f, y + 1)
    }
}

/// Two fields that agree on the rows from `y` down have the same clearable
/// rows there.
pub proof fn lemma_full_rows_agree(f: Seq<Seq<usize>>, g: Seq<Seq<usize>>, y: int)
    requires
        0 <= y <= FIELD_HEIGHT - 1,
        forall|r: int| y <= r < FIELD_HEIGHT - 1 ==> f[r] == g[r],
    ensures
        full_rows_from(f, y) == full_rows_from(g, y),
    decreases FIELD_HEIGHT - 1 - y,
{
    if y < FIELD_HEIGHT - 1 {
        assert(f[y] == g[y]);
        assert(row_full(f, y) == row_full(g, y));
        lemma_full_rows_agree(f, g, y + 1);
    }
}

/// The clearing pass removes exactly the rows that are clearable when it
/// reaches them, and each shift only rewrites rows it has already passed:
/// the count equals the number of clearable rows of the starting field.
pub proof fn lemma_erase_count_is_full_rows(f: Seq<Seq<usize>>, y: int)
    requires
        f.len() == FIELD_HEIGHT,
        0 <= y <= FIELD_HEIGHT - 1,
    ensures
        erase_from(f, y).1 == full_rows_from(f, y),
    decreases FIELD_HEIGHT - 1 - y,
{
    if y < FIELD_HEIGHT - 1 {
        if row_full(f, y) {
            let g = shift_rows_down(f, y);
            assert(forall|r: int| y + 1 <= r < FIELD_HEIGHT - 1 ==> g[r] == f[r]);
            lemma_erase_count_is_full_rows(g, y + 1);
            lemma_full_rows_agree(g, f, y + 1);
        } else {
            lemma_erase_count_is_full_rows(f, y + 1);
        }
    }
}

/// When every clearable row lies inside one window of four consecutive
/// rows, at most four rows are counted in a pass.
pub proof fn lemma_full_rows_window(f: Seq<Seq<usize>>, y: int, w: int)
    requires
        0 <= y <= FIELD_HEIGHT - 1,
        forall|r: int| 0 <= r < FIELD_HEIGHT - 1 && #[trigger] row_full(f, r) ==> w <= r < w + 4,
    ensures
        full_rows_from(f, y) <= if y <= w {
            4
        } else if y < w + 4 {
            w + 4 - y
        } else {
            0
        },
    decreases FIELD_HEIGHT - 1 - y,
{
    if y < FIELD_HEIGHT - 1 {
        lemma_full_rows_window(f, y + 1, w);
    }
}

/// A stretch without clearable rows is passed over without any change.
pub proof fn lemma_erase_skip(f: Seq<Seq<usize>>, y: int, z: int)
    requires
        0 <= y <= z <= FIELD_HEIGHT - 1,
        forall|r: int| y <= r < z ==> !row_full(f, r),
    ensures
        erase_from(f, y) == erase_from(f, z),
    decreases z - y,
{
    if y < z {
        lemma_erase_skip(f, y + 1, z);
    }
}

/// A field without any clearable row from `y` down is left unchanged and
/// counts zero.
pub proof fn lemma_erase_none(f: Seq<Seq<usize>>, y: int)
    requires
        0 <= y <= FIELD_HEIGHT - 1,
        forall|r: int| y <= r < FIELD_HEIGHT - 1 ==> !row_full(f, r),
    ensures
        erase_from(f, y) == (f, 0int),
    decreases FIELD_HEIGHT - 1 - y,
{
    if y < FIELD_HEIGHT - 1 {
        lemma_erase_none(f, y + 1);
    }
}

/// Locking a piece that respects the interior discipline keeps the field
/// invariant.
pub proof fn lemma_overlay_field_wf(f: Seq<Seq<usize>>, px: int, py: int, b: Seq<Seq<usize>>)
    requires
        field_wf(f),
        shape_wf(b),
        piece_interior(px, py, b),
    ensures
        field_wf(overlay(f, px, py, b)),
{
    let g = overlay(f, px, py, b);
    assert forall|y: int| 0 <= y < FIELD_HEIGHT implies (#[trigger] g[y]).len() == FIELD_WIDTH
        && g[y][0] == tile::WALL && g[y][FIELD_WIDTH - 1] == tile::WALL by {
        if py <= y < py + 4 && px <= 0 < px + 4 && b[y - py][0 - px] != tile::NONE {
            assert(false);
        }
        if py <= y < py + 4 && px <= FIELD_WIDTH - 1 < px + 4 && b[y - py][FIELD_WIDTH - 1 - px]
            != tile::NONE {
            assert(false);
        }
    }
    assert forall|x: int| 0 <= x < FIELD_WIDTH implies #[trigger] g[FIELD_HEIGHT - 1][x]
        == tile::WALL by {
        if py <= FIELD_HEIGHT - 1 < py + 4 && px <= x < px + 4 && b[FIELD_HEIGHT - 1 - py][x - px]
            != tile::NONE {
            assert(false);
        }
    }
    assert forall|y: int, x: int|
        0 <= y < FIELD_HEIGHT - 1 && 1 <= x < FIELD_WIDTH - 1 implies (#[trigger] g[y][x]
        == tile::NONE || tile::I <= g[y][x] <= tile::T) by {
        if py <= y < py + 4 && px <= x < px + 4 && b[y - py][x - px] != tile::NONE {
            assert(tile::I <= b[y - py][x - px] <= tile::T);
        }
    }
}

/// The shifts of a clearing pass only copy rows, so the field invariant
/// survives the pass.
pub proof fn lemma_erase_field_wf(f: Seq<Seq<usize>>, y: int)
    requires
        field_wf(f),
        0 <= y <= FIELD_HEIGHT - 1,
    ensures
        field_wf(erase_from(f, y).0),
    decreases FIELD_HEIGHT - 1 - y,
{
    if y < FIELD_HEIGHT - 1 {
        if row_full(f, y) {
            let g = shift_rows_down(f, y);
            assert(field_wf(g));
            lemma_erase_field_wf(g, y + 1);
        } else {
            lemma_erase_field_wf(f, y + 1);
        }
    }
}

/// Lock the active piece: write it into the field, clear and count the
/// completed rows, add the scored points from the fixed table, and spawn
/// the next piece. `Err` surfaces the spawn-collision (game over); only a
/// successful lock re-arms the hold.
pub fn landing(game: &mut Game) -> (r: Result<(), ()>)
    requires
        game_wf(*old(game)),
        piece_interior(old(game).pos.x as int, old(game).pos.y as int, old(game).block.deep_view()),
        forall|rr: int|
            0 <= rr < FIELD_HEIGHT - 1 && #[trigger] row_full(
                overlay(
                    old(game).field.deep_view(),
                    old(game).pos.x as int,
                    old(game).pos.y as int,
                    old(game).block.deep_view(),
                ),
                rr,
            ) ==> old(game).pos.y as int <= rr < old(game).pos.y as int + 4,
        old(game).score + 100 <= usize::MAX,
        old(game).line + 4 <= usize::MAX,
    ensures
        game_wf(*final(game)),
        ({
            let f1 = overlay(
                old(game).field.deep_view(),
                old(game).pos.x as int,
                old(game).pos.y as int,
                old(game).block.deep_view(),
            );
            let k = erase_count(f1);
            &&& 0 <= k <= 4
            &&& final(game).field.deep_view() == erase_result(f1)
            &&& final(game).line == old(game).line + k
            &&& final(game).score == old(game).score + spec_score(k)
            &&& final(game).hold == old(game).hold
            &&& final(game).pos.x == 4 && final(game).pos.y == 0
            &&& final(game).block == old(game).next@[0]
            &&& spawn_queue_shift(*old(game), *final(game))
            &&& final(game).holded == false
            &&& (r is Ok <==> !collides(
                final(game).field.deep_view(),
                4,
                0,
                final(game).block.deep_view(),
            ))
        }),
{
    let ghost f1 = overlay(
        old(game).field.deep_view(),
        old(game).pos.x as int,
        old(game).pos.y as int,
        old(game).block.deep_view(),
    );
    fix_block(game);
    proof {
        lemma_overlay_field_wf(
            old(game).field.deep_view(),
            old(game).pos.x as int,
            old(game).pos.y as int,
            old(game).block.deep_view(),
        );
        lemma_erase_count_is_full_rows(f1, 0);
        lemma_full_rows_window(f1, 0, old(game).pos.y as int);
        lemma_erase_field_wf(f1, 0);
    }
    let cleared = erase_line(&mut game.field);
    assert(cleared <= 4);
    game.line = game.line + cleared;
    proof {
        if cleared == 0 {
            assert(SCORE_TABLE@[0] == 0);
        } else if cleared == 1 {
            assert(SCORE_TABLE@[1] == 1);
        } else if cleared == 2 {
            assert(SCORE_TABLE@[2] == 5);
        } else if cleared == 3 {
            assert(SCORE_TABLE@[3] == 25);
        } else {
            assert(SCORE_TABLE@[4] == 100);
        }
    }
    let pts = SCORE_TABLE[cleared];
    game.score = game.score + pts;
    game.holded = false;
    let spawned = spawn_block(game);
    match spawned {
        Ok(_) => Ok(()),
        Err(_) => Err(()),
    }
}


/// The empty starting field: wall borders left, right and bottom, interior
/// clear.
pub open spec fn init_field() -> Seq<Seq<usize>> {
    Seq::new(
        FIELD_HEIGHT as nat,
        |r: int|
            Seq::new(
                FIELD_WIDTH as nat,
                |c: int|
                    if c == 0 || c == FIELD_WIDTH - 1 || r == FIELD_HEIGHT - 1 {
                        tile::WALL
                    } else {
                        tile::NONE
                    },
            ),
    )
}

/// Any shape placed at the fixed spawn position over the empty field fits:
/// its whole box covers clear interior cells.
pub proof fn lemma_spawn_on_empty(b: Seq<Seq<usize>>)
    ensures
        !collides(init_field(), 4, 0, b),
{
    assert forall|y: int, x: int| 0 <= y < 4 && 0 <= x < 4 implies !cell_hit(
        init_field(),
        4,
        0,
        b,
        y,
        x,
    ) by {
        assert(init_field()[0 + y][4 + x] == tile::NONE);
    }
}

impl Game {
    /// A fresh game: empty field, two freshly shuffled bags, and the first
    /// piece already spawned at the spawn position.
    pub fn new() -> (g: Game)
        ensures
            game_wf(g),
            g.field.deep_view() == init_field(),
            g.pos.x == 4 && g.pos.y == 0,
            g.hold is None,
            !g.holded,
            g.score == 0,
            g.line == 0,
            active_ok(g),
            piece_interior(4, 0, g.block.deep_view()),
            exists|b1: Seq<BlockShape>, b2: Seq<BlockShape>|
                {
                    &&& b1.len() == BLOCK_KINDS
                    &&& b2.len() == BLOCK_KINDS
                    &&& crate::block::is_full_bag(
                        Seq::new(BLOCK_KINDS as nat, |i: int| b1[i].deep_view()),
                    )
                    &&& crate::block::is_full_bag(
                        Seq::new(BLOCK_KINDS as nat, |i: int| b2[i].deep_view()),
                    )
                    &&& g.block == b1[0]
                    &&& g.next@ == #[trigger] b1.subrange(1, BLOCK_KINDS as int).push(b2[0])
                    &&& g.next_buf@ == #[trigger] b2.subrange(1, BLOCK_KINDS as int)
                },
    {
        let mut game = Game {
            field: [
            [tile::WALL, 0, 0, 0, 0, 0, 0, 0, 0, 0, 0, 0, tile::WALL],
            [tile::WALL, 0, 0, 0, 0, 0, 0, 0, 0, 0, 0, 0, tile::WALL],
            [tile::WALL, 0, 0, 0, 0, 0, 0, 0, 0, 0, 0, 0, tile::WALL],
            [tile::WALL, 0, 0, 0, 0, 0, 0, 0, 0, 0, 0, 0, tile::WALL],
            [tile::WALL, 0, 0, 0, 0, 0, 0, 0, 0, 0, 0, 0, tile::WALL],
            [tile::WALL, 0, 0, 0, 0, 0, 0, 0, 0, 0, 0, 0, tile::WALL],
            [tile::WALL, 0, 0, 0, 0, 0, 0, 0, 0, 0, 0, 0, tile::WALL],
            [tile::WALL, 0, 0, 0, 0, 0, 0, 0, 0, 0, 0, 0, tile::WALL],
            [tile::WALL, 0, 0, 0, 0, 0, 0, 0, 0, 0, 0, 0, tile::WALL],
            [tile::WALL, 0, 0, 0, 0, 0, 0, 0, 0, 0, 0, 0, tile::WALL],
            [tile::WALL, 0, 0, 0, 0, 0, 0, 0, 0, 0, 0, 0, tile::WALL],
            [tile::WALL, 0, 0, 0, 0, 0, 0, 0, 0, 0, 0, 0, tile::WALL],
            [tile::WALL, 0, 0, 0, 0, 0, 0, 0, 0, 0, 0, 0, tile::WALL],
            [tile::WALL, 0, 0, 0, 0, 0, 0, 0, 0, 0, 0, 0, tile::WALL],
            [tile::WALL, 0, 0, 0, 0, 0, 0, 0, 0, 0, 0, 0, tile::WALL],
            [tile::WALL, 0, 0, 0, 0, 0, 0, 0, 0, 0, 0, 0, tile::WALL],
            [tile::WALL, 0, 0, 0, 0, 0, 0, 0, 0, 0, 0, 0, tile::WALL],
            [tile::WALL, 0, 0, 0, 0, 0, 0, 0, 0, 0, 0, 0, tile::WALL],
            [tile::WALL, 0, 0, 0, 0, 0, 0, 0, 0, 0, 0, 0, tile::WALL],
            [tile::WALL, 0, 0, 0, 0, 0, 0, 0, 0, 0, 0, 0, tile::WALL],
            [tile::WALL, tile::WALL, tile::WALL, tile::WALL, tile::WALL, tile::WALL, tile::WALL, tile::WALL, tile::WALL, tile::WALL, tile::WALL, tile::WALL, tile::WALL]
            ],
            pos: Position::init(),
            block: crate::block::block_of(crate::block::random_kind()),
            hold: None,
            holded: false,
            next: fresh_bag(),
            next_buf: fresh_bag(),
            score: 0,
            line: 0,
        };
        proof {
            assert(game.field.deep_view() =~~= init_field());
            lemma_canonical_shapes_wf();
            assert(shape_wf(game.block.deep_view()));
            assert(game_wf(game));
        }
        let ghost b1 = game.next@;
        let ghost b2 = game.next_buf@;
        let _ = spawn_block(&mut game);
        proof {
            lemma_spawn_on_empty(game.block.deep_view());
            assert(game.next@ == b1.subrange(1, BLOCK_KINDS as int).push(b2[0]));
            assert(game.next_buf@ == b2.subrange(1, BLOCK_KINDS as int));
            assert(Seq::new(BLOCK_KINDS as nat, |i: int| b1[i].deep_view()) =~~= Seq::new(
                b1.len(),
                |i: int| b1[i].deep_view(),
            ));
            assert forall|y: int, x: int|
                0 <= y < 4 && 0 <= x < 4 && game.block.deep_view()[y][x] != tile::NONE implies 0
                < 4 + x < FIELD_WIDTH - 1 && 0 + y < FIELD_HEIGHT - 1 by {}
        }
        game
    }
}

/// The display-only projection of a shape: every occupied cell becomes a
/// ghost cell.
pub open spec fn ghost_mask(b: Seq<Seq<usize>>) -> Seq<Seq<usize>> {
    Seq::new(
        4,
        |y: int|
            Seq::new(
                4,
                |x: int|
                    if b[y][x] != tile::NONE {
                        tile::GHOST
                    } else {
                        tile::NONE
                    },
            ),
    )
}

/// Write one shape into a frame buffer, either with its own colors or as a
/// ghost silhouette.
#[verifier::loop_isolation(false)]
fn stamp(buf: &mut Field, pos: &Position, block: &BlockShape, as_ghost: bool)
    requires
        piece_in_bounds(pos.x as int, pos.y as int, block.deep_view()),
    ensures
        final(buf).deep_view() == overlay(
            old(buf).deep_view(),
            pos.x as int,
            pos.y as int,
            if as_ghost {
                ghost_mask(block.deep_view())
            } else {
                block.deep_view()
            },
        ),
{
    let ghost f0 = old(buf).deep_view();
    let ghost b = if as_ghost {
        ghost_mask(block.deep_view())
    } else {
        block.deep_view()
    };
    let ghost px = pos.x as int;
    let ghost py = pos.y as int;
    proof {
        assert(overlay_upto(f0, px, py, b, 0) =~~= f0);
    }
    let mut y: usize = 0;
    while y < 4
        invariant
            y <= 4,
            buf.deep_view() == overlay_upto(f0, px, py, b, 4 * y),
        decreases 4 - y,
    {
        let mut x: usize = 0;
        while x < 4
            invariant
                y < 4,
                x <= 4,
                buf.deep_view() == overlay_upto(f0, px, py, b, 4 * y + x),
            decreases 4 - x,
        {
            let ghost before = buf.deep_view();
            if block[y][x] != tile::NONE {
                proof {
                    assert(block.deep_view()[y as int][x as int] != tile::NONE);
                    assert(b[y as int][x as int] != tile::NONE);
                    assert(py + y < FIELD_HEIGHT && px + x < FIELD_WIDTH);
                }
                let row_y = y + pos.y;
                let col_x = x + pos.x;
                let mut row = buf[row_y];
                row[col_x] = if as_ghost {
                    tile::GHOST
                } else {
                    block[y][x]
                };
                buf[row_y] = row;
                proof {
                    assert(buf.deep_view()[row_y as int] =~= before[row_y as int].update(
                        col_x as int,
                        b[y as int][x as int],
                    ));
                    assert(forall|r: int|
                        0 <= r < FIELD_HEIGHT && r != row_y as int ==> buf.deep_view()[r]
                            =~= before[r]);
                }
            } else {
                proof {
                    assert(b[y as int][x as int] == tile::NONE);
                }
            }
            proof {
                let n = 4 * (y as int) + (x as int);
                assert forall|r: int| 0 <= r < FIELD_HEIGHT implies buf.deep_view()[r]
                    =~= overlay_upto(f0, px, py, b, n + 1)[r] by {
                    assert(before[r] == overlay_upto(f0, px, py, b, n)[r]);
                }
                assert(buf.deep_view() =~= overlay_upto(f0, px, py, b, n + 1));
            }
            x = x + 1;
        }
        y = y + 1;
    }
    proof {
        assert(overlay_upto(f0, px, py, b, 16) =~~= overlay(f0, px, py, b));
    }
}

/// The render snapshot of the moving parts: the field with the ghost
/// silhouette at the landing row and the active piece composited over it.
/// Pure; the caller draws the buffer.
pub fn compose_frame(field: &Field, pos: &Position, block: &BlockShape) -> (buf: Field)
    requires
        field_wf(field.deep_view()),
        shape_wf(block.deep_view()),
        !collides(field.deep_view(), pos.x as int, pos.y as int, block.deep_view()),
        piece_in_bounds(pos.x as int, pos.y as int, block.deep_view()),
    ensures
        ({
            let f = field.deep_view();
            let b = block.deep_view();
            let gy = landing_row(f, pos.x as int, pos.y as int, b);
            buf.deep_view() == overlay(
                overlay(f, pos.x as int, gy, ghost_mask(b)),
                pos.x as int,
                pos.y as int,
                b,
            )
        }),
{
    let mut buf: Field = *field;
    let gp = ghost_pos(field, pos, block);
    stamp(&mut buf, &gp, block, true);
    stamp(&mut buf, pos, block, false);
    buf
}


/// Executable test of the active-piece discipline: the piece overlaps
/// nothing and every occupied cell lies inside the grid.
#[verifier::loop_isolation(false)]
pub fn active_piece_ok(game: &Game) -> (r: bool)
    ensures
        r == active_ok(*game),
{
    let ghost b = game.block.deep_view();
    let ghost px = game.pos.x as int;
    let ghost py = game.pos.y as int;
    if is_collision(&game.field, &game.pos, &game.block) {
        return false;
    }
    let mut y: usize = 0;
    while y < 4
        invariant
            y <= 4,
            forall|yy: int, xx: int|
                0 <= yy < y && 0 <= xx < 4 && #[trigger] b[yy][xx] != tile::NONE ==> py + yy
                    < FIELD_HEIGHT && px + xx < FIELD_WIDTH,
        decreases 4 - y,
    {
        let mut x: usize = 0;
        while x < 4
            invariant
                y < 4,
                x <= 4,
                forall|yy: int, xx: int|
                    0 <= yy < y && 0 <= xx < 4 && #[trigger] b[yy][xx] != tile::NONE ==> py + yy
                        < FIELD_HEIGHT && px + xx < FIELD_WIDTH,
                forall|xx: int|
                    0 <= xx < x && #[trigger] b[y as int][xx] != tile::NONE ==> py + y
                        < FIELD_HEIGHT && px + xx < FIELD_WIDTH,
            decreases 4 - x,
        {
            if game.block[y][x] != tile::NONE {
                let inside = game.pos.y < FIELD_HEIGHT && y < FIELD_HEIGHT - game.pos.y
                    && game.pos.x < FIELD_WIDTH && x < FIELD_WIDTH - game.pos.x;
                if !inside {
                    proof {
                        assert(b[y as int][x as int] != tile::NONE);
                        assert(!(py + y < FIELD_HEIGHT && px + x < FIELD_WIDTH));
                    }
                    return false;
                }
            }
            x = x + 1;
        }
        y = y + 1;
    }
    true
}

/// A row outside the shape's four-row box is untouched by the lock overlay.
proof fn lemma_overlay_row_outside(f: Seq<Seq<usize>>, px: int, py: int, b: Seq<Seq<usize>>, rr: int)
    requires
        0 <= rr < f.len(),
        !(py <= rr < py + 4),
    ensures
        overlay(f, px, py, b)[rr] == f[rr],
{
    assert(overlay(f, px, py, b)[rr] =~= f[rr]);
}

/// Two fields with the same content in one row agree on whether it is
/// clearable.
proof fn lemma_row_full_same_row(f: Seq<Seq<usize>>, g: Seq<Seq<usize>>, rr: int)
    requires
        f[rr] == g[rr],
    ensures
        row_full(f, rr) == row_full(g, rr),
{
    if row_full(f, rr) {
        assert forall|x: int| 1 <= x < FIELD_WIDTH - 1 implies g[rr][x] != tile::NONE by {
            assert(f[rr][x] != tile::NONE);
        }
    }
    if row_full(g, rr) {
        assert forall|x: int| 1 <= x < FIELD_WIDTH - 1 implies f[rr][x] != tile::NONE by {
            assert(g[rr][x] != tile::NONE);
        }
    }
}

/// Executable test of everything a lock needs: the piece sits strictly in
/// the interior, every row that would be complete after the write lies in
/// the piece's own four-row window, and the running totals cannot
/// overflow. In ordinary play this always holds.
#[verifier::loop_isolation(false)]
pub fn lock_ready(game: &Game) -> (r: bool)
    ensures
        r == ({
            &&& piece_interior(game.pos.x as int, game.pos.y as int, game.block.deep_view())
            &&& (forall|rr: int|
                0 <= rr < FIELD_HEIGHT - 1 && #[trigger] row_full(
                    overlay(
                        game.field.deep_view(),
                        game.pos.x as int,
                        game.pos.y as int,
                        game.block.deep_view(),
                    ),
                    rr,
                ) ==> game.pos.y as int <= rr < game.pos.y as int + 4)
            &&& game.score + 100 <= usize::MAX
            &&& game.line + 4 <= usize::MAX
        }),
{
    let ghost f = game.field.deep_view();
    let ghost b = game.block.deep_view();
    let ghost px = game.pos.x as int;
    let ghost py = game.pos.y as int;
    let ghost f1 = overlay(f, px, py, b);
    if !(game.score <= usize::MAX - 100 && game.line <= usize::MAX - 4) {
        return false;
    }
    let mut y: usize = 0;
    while y < 4
        invariant
            y <= 4,
            forall|yy: int, xx: int|
                0 <= yy < y && 0 <= xx < 4 && #[trigger] b[yy][xx] != tile::NONE ==> 0 < px + xx
                    < FIELD_WIDTH - 1 && py + yy < FIELD_HEIGHT - 1,
        decreases 4 - y,
    {
        let mut x: usize = 0;
        while x < 4
            invariant
                y < 4,
                x <= 4,
                forall|yy: int, xx: int|
                    0 <= yy < y && 0 <= xx < 4 && #[trigger] b[yy][xx] != tile::NONE ==> 0 < px
                        + xx < FIELD_WIDTH - 1 && py + yy < FIELD_HEIGHT - 1,
                forall|xx: int|
                    0 <= xx < x && #[trigger] b[y as int][xx] != tile::NONE ==> 0 < px + xx
                        < FIELD_WIDTH - 1 && py + y < FIELD_HEIGHT - 1,
            decreases 4 - x,
        {
            if game.block[y][x] != tile::NONE {
                let interior = (game.pos.x > 0 || x > 0) && game.pos.x < FIELD_WIDTH - 1 && x
                    < FIELD_WIDTH - 1 - game.pos.x && game.pos.y < FIELD_HEIGHT - 1 && y
                    < FIELD_HEIGHT - 1 - game.pos.y;
                if !interior {
                    proof {
                        assert(b[y as int][x as int] != tile::NONE);
                        assert(!(0 < px + x < FIELD_WIDTH - 1 && py + y < FIELD_HEIGHT - 1));
                    }
                    return false;
                }
            }
            x = x + 1;
        }
        y = y + 1;
    }
    let mut rr: usize = 0;
    while rr < FIELD_HEIGHT - 1
        invariant
            0 <= rr <= FIELD_HEIGHT - 1,
            forall|j: int|
                0 <= j < rr && #[trigger] row_full(f1, j) ==> py <= j < py + 4,
        decreases FIELD_HEIGHT - 1 - rr,
    {
        let in_window = rr >= game.pos.y && rr - game.pos.y < 4;
        if !in_window {
            let mut full = true;
            let mut x: usize = 1;
            while x < FIELD_WIDTH - 1
                invariant
                    1 <= x <= FIELD_WIDTH - 1,
                    rr < FIELD_HEIGHT - 1,
                    full <==> (forall|xx: int| 1 <= xx < x ==> f[rr as int][xx] != tile::NONE),
                decreases FIELD_WIDTH - 1 - x,
            {
                if game.field[rr][x] == tile::NONE {
                    full = false;
                    proof {
                        assert(f[rr as int][x as int] == tile::NONE);
                    }
                } else {
                    proof {
                        assert(f[rr as int][x as int] != tile::NONE);
                    }
                }
                x = x + 1;
            }
            proof {
                lemma_overlay_row_outside(f, px, py, b, rr as int);
                lemma_row_full_same_row(f1, f, rr as int);
            }
            if full {
                proof {
                    assert(row_full(f, rr as int));
                    assert(row_full(f1, rr as int) && !(py <= rr as int && (rr as int) < py + 4));
                }
                return false;
            }
        }
        rr = rr + 1;
    }
    true
}

} // verus!
