use tetris_core::block::{gen_block_7, BlockShape, BLOCKS};
use tetris_core::game::{
    compose_frame, erase_line, hard_drop, hold, is_collision, landing, lock_ready, move_block,
    rotate_left, rotate_right, spawn_block, Field, Game, Position, FIELD_HEIGHT, FIELD_WIDTH,
};
use tetris_core::tile;

fn empty_field() -> Field {
    let mut f: Field = [[tile::NONE; FIELD_WIDTH]; FIELD_HEIGHT];
    let mut y: usize = 0;
    while y < FIELD_HEIGHT {
        f[y][0] = tile::WALL;
        f[y][FIELD_WIDTH - 1] = tile::WALL;
        y += 1;
    }
    let mut x: usize = 0;
    while x < FIELD_WIDTH {
        f[FIELD_HEIGHT - 1][x] = tile::WALL;
        x += 1;
    }
    f
}

fn vertical_i() -> BlockShape {
    [
        [0, tile::I, 0, 0],
        [0, tile::I, 0, 0],
        [0, tile::I, 0, 0],
        [0, tile::I, 0, 0],
    ]
}

#[test]
fn spawning_into_empty_field_never_collides() {
    let f: Field = empty_field();
    let spawn: Position = Position::init();
    for k in 0..7 {
        assert!(!is_collision(&f, &spawn, &BLOCKS[k]));
    }
}

#[test]
fn new_game_starts_clean() {
    let g: Game = Game::new();
    assert_eq!(g.field, empty_field());
    assert_eq!(g.pos.x, 4);
    assert_eq!(g.pos.y, 0);
    assert_eq!(g.score, 0);
    assert_eq!(g.line, 0);
    assert!(g.hold.is_none());
    assert!(!g.holded);
    assert_eq!(g.next.len(), 7);
    assert!(!is_collision(&g.field, &g.pos, &g.block));
}

#[test]
fn one_bag_holds_each_shape_exactly_once() {
    let bag: [BlockShape; 7] = gen_block_7();
    for canonical in BLOCKS.iter() {
        let count = bag.iter().filter(|s| *s == canonical).count();
        assert_eq!(count, 1);
    }
}

#[test]
fn seven_consecutive_spawns_consume_one_bag() {
    let mut g: Game = Game::new();
    let mut drawn: Vec<BlockShape> = vec![g.block];
    for _ in 0..6 {
        spawn_block(&mut g).expect("spawning over an empty field");
        drawn.push(g.block);
    }
    for canonical in BLOCKS.iter() {
        let count = drawn.iter().filter(|s| *s == canonical).count();
        assert_eq!(count, 1);
    }
}

#[test]
fn erase_line_clears_a_single_full_row() {
    let mut f: Field = empty_field();
    for x in 1..FIELD_WIDTH - 1 {
        f[19][x] = tile::I;
    }
    f[18][5] = tile::J;
    let before: Field = f;
    let cleared: usize = erase_line(&mut f);
    assert_eq!(cleared, 1);
    // every row above the cleared one shifts down one step
    for j in 1..20 {
        assert_eq!(f[j], before[j - 1]);
    }
    assert_eq!(f[18][5], tile::NONE);
    assert_eq!(f[19][5], tile::J);
    // the wall floor and the top row are untouched
    assert_eq!(f[20], before[20]);
    assert_eq!(f[0], before[0]);
}

#[test]
fn erase_line_clears_the_second_row() {
    let mut f: Field = empty_field();
    for x in 1..FIELD_WIDTH - 1 {
        f[1][x] = tile::Z;
    }
    f[0][5] = tile::T;
    let before: Field = f;
    let cleared: usize = erase_line(&mut f);
    assert_eq!(cleared, 1);
    // the second row takes the old top row; the top row re-enters unchanged
    assert_eq!(f[1], before[0]);
    assert_eq!(f[0], before[0]);
    for j in 2..21 {
        assert_eq!(f[j], before[j]);
    }
}

#[test]
fn erase_line_counts_a_full_top_row_without_moving_it() {
    let mut f: Field = empty_field();
    for x in 1..FIELD_WIDTH - 1 {
        f[0][x] = tile::O;
    }
    let before: Field = f;
    let cleared: usize = erase_line(&mut f);
    // the top row is scanned and counted; with no row above it, the shift
    // has nothing to move into it
    assert_eq!(cleared, 1);
    assert_eq!(f, before);
}

#[test]
fn erase_line_ignores_an_almost_full_row() {
    let mut f: Field = empty_field();
    for x in 1..FIELD_WIDTH - 1 {
        f[19][x] = tile::S;
    }
    f[19][6] = tile::NONE;
    let before: Field = f;
    let cleared: usize = erase_line(&mut f);
    assert_eq!(cleared, 0);
    assert_eq!(f, before);
}

#[test]
fn lock_without_clear_scores_nothing() {
    let mut g: Game = Game::new();
    g.block = BLOCKS[0];
    g.pos = Position { x: 4, y: 17 };
    assert!(lock_ready(&g));
    landing(&mut g).expect("spawn after a quiet lock");
    assert_eq!(g.score, 0);
    assert_eq!(g.line, 0);
    assert!(!g.holded);
    assert_eq!(g.field[19][4], tile::I);
}

#[test]
fn lock_clearing_one_row_scores_one() {
    let mut g: Game = Game::new();
    for x in 1..FIELD_WIDTH - 1 {
        g.field[19][x] = tile::J;
    }
    for x in 4..8 {
        g.field[19][x] = tile::NONE;
    }
    g.block = BLOCKS[0];
    g.pos = Position { x: 4, y: 17 };
    assert!(lock_ready(&g));
    landing(&mut g).expect("spawn after a single clear");
    assert_eq!(g.score, 1);
    assert_eq!(g.line, 1);
}

#[test]
fn lock_clearing_two_rows_scores_five() {
    let mut g: Game = Game::new();
    for y in [18usize, 19usize] {
        for x in 1..FIELD_WIDTH - 1 {
            g.field[y][x] = tile::J;
        }
        g.field[y][5] = tile::NONE;
    }
    // the O piece fills column 5 and 6 of rows 18 and 19
    g.field[18][6] = tile::NONE;
    g.field[19][6] = tile::NONE;
    g.block = BLOCKS[1];
    g.pos = Position { x: 4, y: 17 };
    assert!(lock_ready(&g));
    landing(&mut g).expect("spawn after a double clear");
    assert_eq!(g.score, 5);
    assert_eq!(g.line, 2);
}

#[test]
fn lock_clearing_four_rows_scores_hundred() {
    let mut g: Game = Game::new();
    for y in 16..20 {
        for x in 1..FIELD_WIDTH - 1 {
            g.field[y][x] = tile::L;
        }
        g.field[y][5] = tile::NONE;
    }
    g.block = vertical_i();
    g.pos = Position { x: 4, y: 16 };
    assert!(lock_ready(&g));
    landing(&mut g).expect("spawn after a quadruple clear");
    assert_eq!(g.score, 100);
    assert_eq!(g.line, 4);
}

#[test]
fn lock_clearing_three_rows_scores_twenty_five() {
    let mut g: Game = Game::new();
    for y in 17..20 {
        for x in 1..FIELD_WIDTH - 1 {
            g.field[y][x] = tile::S;
        }
        g.field[y][5] = tile::NONE;
    }
    // the vertical bar covers rows 16..=19 of column 5; row 16 stays open
    g.block = vertical_i();
    g.pos = Position { x: 4, y: 16 };
    assert!(lock_ready(&g));
    landing(&mut g).expect("spawn after a triple clear");
    assert_eq!(g.score, 25);
    assert_eq!(g.line, 3);
}

#[test]
fn holding_twice_changes_nothing_the_second_time() {
    let mut g: Game = Game::new();
    let original: BlockShape = g.block;
    hold(&mut g);
    assert!(g.holded);
    assert_eq!(g.hold, Some(original));
    let active_after_first: BlockShape = g.block;
    let hold_after_first: Option<BlockShape> = g.hold;
    hold(&mut g);
    assert_eq!(g.block, active_after_first);
    assert_eq!(g.hold, hold_after_first);
    assert!(g.holded);
}

#[test]
fn hold_swaps_once_a_piece_is_parked() {
    let mut g: Game = Game::new();
    g.hold = Some(BLOCKS[6]);
    g.holded = false;
    g.block = BLOCKS[0];
    g.pos = Position { x: 2, y: 7 };
    let queue_before: Vec<BlockShape> = g.next.clone();
    hold(&mut g);
    assert_eq!(g.block, BLOCKS[6]);
    assert_eq!(g.hold, Some(BLOCKS[0]));
    assert_eq!(g.pos.x, 4);
    assert_eq!(g.pos.y, 0);
    assert_eq!(g.next, queue_before);
}

#[test]
fn rotating_right_then_left_restores_every_shape() {
    for k in 0..7 {
        let mut g: Game = Game::new();
        g.block = BLOCKS[k];
        g.pos = Position { x: 4, y: 8 };
        rotate_right(&mut g);
        rotate_left(&mut g);
        assert_eq!(g.block, BLOCKS[k]);
        assert_eq!(g.pos.x, 4);
        assert_eq!(g.pos.y, 8);
    }
}

#[test]
fn rotating_left_then_right_restores_every_shape() {
    for k in 0..7 {
        let mut g: Game = Game::new();
        g.block = BLOCKS[k];
        g.pos = Position { x: 4, y: 8 };
        rotate_left(&mut g);
        rotate_right(&mut g);
        assert_eq!(g.block, BLOCKS[k]);
        assert_eq!(g.pos.x, 4);
        assert_eq!(g.pos.y, 8);
    }
}

#[test]
fn rotation_against_the_left_wall_kicks_right() {
    let mut g: Game = Game::new();
    g.block = vertical_i();
    g.pos = Position { x: 0, y: 5 };
    assert!(!is_collision(&g.field, &g.pos, &g.block));
    rotate_right(&mut g);
    // the horizontal shape cannot sit at x = 0; the kick moves it one right
    assert_eq!(g.pos.x, 1);
    assert_eq!(g.pos.y, 5);
    assert_eq!(g.block[1], [tile::I, tile::I, tile::I, tile::I]);
}

#[test]
fn blocked_rotation_is_a_silent_no_op() {
    let mut g: Game = Game::new();
    // box a vertical bar in so tightly that no kick offset is free
    for y in 4..10 {
        for x in 1..FIELD_WIDTH - 1 {
            g.field[y][x] = tile::Z;
        }
    }
    g.field[5][2] = tile::NONE;
    g.field[6][2] = tile::NONE;
    g.field[7][2] = tile::NONE;
    g.field[8][2] = tile::NONE;
    g.block = vertical_i();
    g.pos = Position { x: 1, y: 5 };
    assert!(!is_collision(&g.field, &g.pos, &g.block));
    let pos_before: Position = g.pos;
    let block_before: BlockShape = g.block;
    rotate_right(&mut g);
    assert_eq!(g.pos, pos_before);
    assert_eq!(g.block, block_before);
}

#[test]
fn moving_commits_only_collision_free_positions() {
    let mut g: Game = Game::new();
    g.block = BLOCKS[0];
    g.pos = Position { x: 4, y: 5 };
    move_block(&mut g, Position { x: 3, y: 5 });
    assert_eq!(g.pos.x, 3);
    move_block(&mut g, Position { x: 3, y: 6 });
    assert_eq!(g.pos.y, 6);
    // at x = 8 the bar touches the right side; one more step hits the wall
    move_block(&mut g, Position { x: 8, y: 6 });
    assert_eq!(g.pos.x, 8);
    move_block(&mut g, Position { x: 9, y: 6 });
    assert_eq!(g.pos.x, 8);
}

#[test]
fn hard_drop_rests_the_bar_on_the_floor() {
    let mut g: Game = Game::new();
    g.block = BLOCKS[0];
    g.pos = Position { x: 4, y: 0 };
    hard_drop(&mut g);
    // the bar lives in the third row of its box: 17 + 2 is the last interior row
    assert_eq!(g.pos.y, 17);
    assert_eq!(g.pos.x, 4);
}

#[test]
fn composed_frame_shows_piece_and_ghost() {
    let g_field: Field = empty_field();
    let pos: Position = Position { x: 4, y: 0 };
    let block: BlockShape = BLOCKS[0];
    let frame: Field = compose_frame(&g_field, &pos, &block);
    for x in 4..8 {
        assert_eq!(frame[2][x], tile::I);
        assert_eq!(frame[19][x], tile::GHOST);
    }
    assert_eq!(frame[10][5], tile::NONE);
    assert_eq!(frame[20][5], tile::WALL);
}

#[test]
fn spawn_keeps_the_visible_queue_filled() {
    let mut g: Game = Game::new();
    for _ in 0..20 {
        assert_eq!(g.next.len(), 7);
        assert!(g.next_buf.len() <= 7);
        let expected: BlockShape = g.next[0];
        spawn_block(&mut g).expect("spawning over an empty field");
        assert_eq!(g.block, expected);
    }
}

#[test]
fn game_over_lock_still_rearms_hold() {
    let mut g: Game = Game::new();
    // a plug under the spawn box makes every respawn collide
    for x in 4..8 {
        g.field[1][x] = tile::T;
        g.field[2][x] = tile::T;
    }
    g.holded = true;
    g.block = BLOCKS[0];
    g.pos = Position { x: 4, y: 17 };
    assert!(lock_ready(&g));
    assert!(landing(&mut g).is_err());
    // the flag is reset before the spawn, so the final frame shows it clear
    assert!(!g.holded);
    assert_eq!(g.field[19][4], tile::I);
}

#[test]
fn spawn_collision_reports_game_over() {
    let mut g: Game = Game::new();
    // a ceiling right under the spawn box forces the collision
    for x in 1..FIELD_WIDTH - 1 {
        for y in 0..4 {
            g.field[y][x] = tile::T;
        }
    }
    assert!(spawn_block(&mut g).is_err());
}
