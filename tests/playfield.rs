use std::collections::VecDeque;
use terminal_blocks::game::{piece_template, piece_templates, PF_HEIGHT, PF_WIDTH};
use terminal_blocks::{Block, CollisionResult, Command, Game, GravityOutcome, RenderableObject};

const SCALE: (isize, isize) = (2, 1);
const OFFSET: isize = 2;

fn empty_board() -> RenderableObject {
    RenderableObject::new([OFFSET, 0], VecDeque::from(vec![vec![0u8; PF_WIDTH]; PF_HEIGHT]), SCALE, true)
}

fn rows(o: &RenderableObject) -> Vec<Vec<u8>> {
    o.shape.iter().cloned().collect()
}

fn game_with(board: RenderableObject, current: Block) -> Game {
    let held = Block::new(vec![vec![0u8; 4]; 4], [3, 3], SCALE, OFFSET + 10 * SCALE.0);
    Game { board, current, held, held_used: false, templates: piece_templates(SCALE, OFFSET) }
}

fn piece(i: usize) -> Block {
    piece_template(i, SCALE, OFFSET)
}

#[test]
fn translate_then_back_restores_position() {
    let board = empty_board();
    let mut b = piece(5);
    let start = b.obj.pos;
    assert_eq!(b.mov(2, 1, &board), CollisionResult::NoCollision);
    assert_eq!(b.obj.pos, [start[0] + 2, start[1] + 1]);
    assert_eq!(b.mov(-2, -1, &board), CollisionResult::NoCollision);
    assert_eq!(b.obj.pos, start);
}

#[test]
fn blocked_translate_leaves_piece_unchanged() {
    let board = empty_board();
    let mut b = piece(0);
    let start = b.obj.pos;
    let shape = rows(&b.obj);
    assert_eq!(b.mov(-40, 0, &board), CollisionResult::OutOfBounds);
    assert_eq!(b.obj.pos, start);
    assert_eq!(rows(&b.obj), shape);
}

#[test]
fn four_rotations_give_the_shape_back() {
    let board = empty_board();
    for i in 0..7 {
        for d in [1isize, -1] {
            let mut b = piece(i);
            b.mov(0, 5, &board);
            let shape = rows(&b.obj);
            for _ in 0..4 {
                assert_eq!(b.rotate(d, &board), CollisionResult::NoCollision);
            }
            assert_eq!(rows(&b.obj), shape, "template {} direction {}", i, d);
        }
    }
}

#[test]
fn rotation_turns_i_piece_upright() {
    let board = empty_board();
    let mut b = piece(0);
    b.mov(0, 5, &board);
    assert_eq!(b.rotate(1, &board), CollisionResult::NoCollision);
    assert_eq!(rows(&b.obj), vec![vec![0, 0, 1, 0], vec![0, 0, 1, 0], vec![0, 0, 1, 0], vec![0, 0, 1, 0]]);
}

#[test]
fn rotation_turns_t_piece_clockwise() {
    let board = empty_board();
    let mut b = piece(5);
    b.mov(0, 5, &board);
    assert_eq!(b.rotate(1, &board), CollisionResult::NoCollision);
    assert_eq!(rows(&b.obj), vec![vec![0, 1, 0, 0], vec![0, 1, 1, 0], vec![0, 1, 0, 0], vec![0, 0, 0, 0]]);
}

#[test]
fn blocked_rotation_keeps_shape() {
    let mut board = empty_board();
    let mut b = piece(0);
    b.mov(0, 5, &board);
    // fill the cell the upright I piece would take in row 5 + 3
    board.shape[8][5] = 1;
    let shape = rows(&b.obj);
    assert_eq!(b.rotate(1, &board), CollisionResult::BlockCollision);
    assert_eq!(rows(&b.obj), shape);
}

#[test]
fn rotation_out_of_frame_is_refused() {
    let board = empty_board();
    let mut b = Block::new(vec![vec![0, 0, 0, 1], vec![0; 4], vec![0; 4], vec![0; 4]], [2, 2], SCALE, OFFSET);
    b.mov(0, 5, &board);
    assert_eq!(b.rotate(-1, &board), CollisionResult::OutOfBounds);
    assert_eq!(rows(&b.obj), vec![vec![0, 0, 0, 1], vec![0; 4], vec![0; 4], vec![0; 4]]);
}

#[test]
fn line_clear_is_idempotent() {
    let mut board = empty_board();
    board.shape[19] = vec![1; 10];
    board.shape[18] = vec![1, 1, 1, 0, 1, 1, 1, 1, 1, 1];
    board.shape[17] = vec![1; 10];
    board.check_line_fills();
    let once = rows(&board);
    board.check_line_fills();
    assert_eq!(rows(&board), once);
    assert_eq!(once[19], vec![1, 1, 1, 0, 1, 1, 1, 1, 1, 1]);
    assert_eq!(once.len(), 20);
    assert!(once[..19].iter().all(|r| r == &vec![0u8; 10]));
}

#[test]
fn line_clear_without_full_rows_changes_nothing() {
    let mut board = empty_board();
    board.shape[19] = vec![1, 1, 1, 1, 1, 1, 1, 1, 1, 0];
    board.shape[10] = vec![2; 10];
    let before = rows(&board);
    board.check_line_fills();
    assert_eq!(rows(&board), before);
}

#[test]
fn line_clear_with_all_rows_full_empties_grid() {
    let mut board = RenderableObject::new([0, 0], VecDeque::from(vec![vec![1u8; 4]; 3]), (1, 1), true);
    board.check_line_fills();
    assert_eq!(rows(&board), vec![vec![0u8; 4]; 3]);
}

#[test]
fn line_clear_keeps_order_of_remaining_rows() {
    let mut board = RenderableObject::new(
        [0, 0],
        VecDeque::from(vec![vec![0, 1, 0], vec![1, 1, 1], vec![1, 0, 0], vec![1, 1, 1], vec![0, 0, 1]]),
        (1, 1),
        false,
    );
    board.check_line_fills();
    assert_eq!(rows(&board), vec![vec![0, 0, 0], vec![0, 0, 0], vec![0, 1, 0], vec![1, 0, 0], vec![0, 0, 1]]);
}

#[test]
fn collision_with_walls_is_out_of_bounds() {
    let board = empty_board();
    let mut b = piece(0);
    b.mov(0, 5, &board);
    assert_eq!(b.mov(-8, 0, &board), CollisionResult::OutOfBounds);
    assert_eq!(b.mov(-6, 0, &board), CollisionResult::NoCollision);
    let mut r = piece(0);
    r.mov(0, 5, &board);
    assert_eq!(r.mov(8, 0, &board), CollisionResult::OutOfBounds);
    assert_eq!(r.mov(6, 0, &board), CollisionResult::NoCollision);
    let mut d = piece(0);
    assert_eq!(d.mov(0, 19, &board), CollisionResult::OutOfBounds);
    assert_eq!(d.mov(0, 18, &board), CollisionResult::NoCollision);
}

#[test]
fn collision_with_filled_cell_below_spawn_is_block_collision() {
    let mut board = empty_board();
    board.shape[10][4] = 1;
    let mut b = piece(0);
    assert_eq!(b.mov(0, 9, &board), CollisionResult::BlockCollision);
    assert_eq!(b.obj.pos[1], 2);
    assert_eq!(b.mov(0, 8, &board), CollisionResult::NoCollision);
}

#[test]
fn collision_at_spawn_is_game_over() {
    let mut board = empty_board();
    board.shape[1][4] = 1;
    let b = piece(0);
    assert_eq!(b.obj.check_collision(&board), CollisionResult::GameOver);
    let mut g = game_with(board, b);
    assert_eq!(g.gravity_step(0), GravityOutcome::GameOver);
}

#[test]
fn first_failing_cell_decides_outcome() {
    let mut board = empty_board();
    board.shape[3][3] = 1;
    board.shape[4][3] = 1;
    let free = RenderableObject::new([9, 4], VecDeque::from(vec![vec![1u8, 0, 0, 0]]), SCALE, false);
    assert_eq!(free.check_collision(&board), CollisionResult::NoCollision);
    let mut block_first = vec![vec![1u8, 0, 0, 0]];
    block_first.extend(vec![vec![0u8; 4]; 20]);
    block_first.push(vec![1, 0, 0, 0]);
    let p = RenderableObject::new([9, 5], VecDeque::from(block_first), SCALE, false);
    assert_eq!(p.check_collision(&board), CollisionResult::BlockCollision);
    let q = RenderableObject::new(
        [9, 5],
        VecDeque::from(vec![vec![0u8, 0, 0, 0, 0, 0, 0, 0, 0, 0, 0, 1], vec![1, 0, 0, 0, 0, 0, 0, 0, 0, 0, 0, 0]]),
        SCALE,
        false,
    );
    assert_eq!(q.check_collision(&board), CollisionResult::OutOfBounds);
    let r = RenderableObject::new([9, 1], VecDeque::from(vec![vec![1u8, 0, 0, 0], vec![1, 0, 0, 0]]), SCALE, false);
    assert_eq!(r.check_collision(&board), CollisionResult::OutOfBounds);
}

#[test]
fn hard_drop_of_i_piece_lands_on_bottom_row() {
    let mut g = game_with(empty_board(), piece(0));
    g.apply(Command::HardDrop, 3);
    let cells = rows(&g.board);
    assert_eq!(cells[19], vec![0, 0, 0, 1, 1, 1, 1, 0, 0, 0]);
    assert!(cells[..19].iter().all(|r| r == &vec![0u8; 10]));
    assert_eq!(g.current.obj.pos, [9, 2]);
    assert_eq!(rows(&g.current.obj), rows(&g.templates[3].obj));
}

#[test]
fn completing_bottom_row_clears_it() {
    let mut board = empty_board();
    board.shape[19] = vec![1, 1, 1, 0, 0, 0, 0, 1, 1, 1];
    board.shape[18] = vec![1, 0, 0, 0, 0, 0, 0, 0, 0, 0];
    let mut b = piece(0);
    assert_eq!(b.mov(0, 18, &board), CollisionResult::NoCollision);
    b.obj.imprint_to(&mut board);
    assert_eq!(rows(&board)[19], vec![1; 10]);
    board.check_line_fills();
    let cells = rows(&board);
    assert_eq!(cells.len(), 20);
    assert_eq!(cells[19], vec![1, 0, 0, 0, 0, 0, 0, 0, 0, 0]);
    assert!(cells[..19].iter().all(|r| r == &vec![0u8; 10]));
}

#[test]
fn imprint_skips_cells_outside_the_board() {
    let mut board = empty_board();
    let p = RenderableObject::new([1, 20], VecDeque::from(vec![vec![1u8, 1], vec![1, 1], vec![1, 1]]), SCALE, false);
    p.imprint_to(&mut board);
    let cells = rows(&board);
    assert_eq!(cells[18], vec![1, 0, 0, 0, 0, 0, 0, 0, 0, 0]);
    assert_eq!(cells[19], vec![1, 0, 0, 0, 0, 0, 0, 0, 0, 0]);
}

#[test]
fn gravity_moves_piece_down_then_locks_it() {
    let mut g = game_with(empty_board(), piece(3));
    for _ in 0..18 {
        assert_eq!(g.gravity_step(1), GravityOutcome::Fell);
    }
    assert_eq!(g.current.obj.pos[1], 20);
    assert_eq!(g.gravity_step(1), GravityOutcome::Locked);
    let cells = rows(&g.board);
    assert_eq!(cells[18], vec![0, 0, 0, 0, 1, 1, 0, 0, 0, 0]);
    assert_eq!(cells[19], vec![0, 0, 0, 0, 1, 1, 0, 0, 0, 0]);
    assert_eq!(g.current.obj.pos, [9, 2]);
    assert_eq!(g.current.pivot, [2, 2]);
}

#[test]
fn interleaved_moves_and_gravity_never_commit_a_collision() {
    let mut g = game_with(empty_board(), piece(0));
    let commands = [
        Command::MoveLeft,
        Command::RotateRight,
        Command::MoveRight,
        Command::MoveRight,
        Command::RotateLeft,
        Command::SoftDrop,
        Command::MoveLeft,
        Command::MoveLeft,
        Command::MoveLeft,
        Command::RotateRight,
    ];
    let mut over = false;
    for n in 0..400usize {
        g.apply(commands[n % commands.len()], n % 7);
        if n % 3 == 0 {
            if g.gravity_step((n / 3) % 7) == GravityOutcome::GameOver {
                over = true;
                break;
            }
        }
        let c = g.current.obj.check_collision(&g.board);
        assert!(c == CollisionResult::NoCollision || c == CollisionResult::GameOver, "step {}", n);
    }
    assert!(over || g.current.obj.check_collision(&g.board) == CollisionResult::NoCollision);
}

#[test]
fn hold_swaps_with_template_first_then_with_held() {
    let mut g = game_with(empty_board(), piece(0));
    g.current.mov(2, 3, &g.board);
    g.apply(Command::Hold, 4);
    assert!(g.held_used);
    assert_eq!(rows(&g.current.obj), rows(&g.templates[4].obj));
    assert_eq!(g.current.pivot, [3, 3]);
    assert_eq!(g.current.obj.pos, [9, 2]);
    assert_eq!(rows(&g.held.obj), rows(&g.templates[0].obj));
    assert_eq!(g.held.pivot, [3, 3]);
    g.apply(Command::Hold, 6);
    assert_eq!(rows(&g.current.obj), rows(&g.templates[0].obj));
    assert_eq!(rows(&g.held.obj), rows(&g.templates[4].obj));
}

#[test]
fn ghost_shows_landing_place_dimmed() {
    let mut board = empty_board();
    board.shape[12][5] = 1;
    let g = game_with(board, piece(0));
    let ghost = g.ghost();
    assert_eq!(ghost.pos, [9, 12]);
    assert_eq!(rows(&ghost), vec![vec![0, 0, 0, 0], vec![2, 2, 2, 2], vec![0, 0, 0, 0], vec![0, 0, 0, 0]]);
    assert_eq!(g.current.obj.pos, [9, 2]);
}

#[test]
fn new_game_starts_empty_with_a_template_piece() {
    let g = Game::new(SCALE, OFFSET);
    assert_eq!(rows(&g.board), vec![vec![0u8; 10]; 20]);
    assert!(g.board.is_bordered);
    assert_eq!(g.held.obj.pos, [29, 0]);
    assert!(!g.held_used);
    assert_eq!(g.current.obj.pos, [9, 2]);
    assert!((0..7).any(|i| rows(&g.templates[i].obj) == rows(&g.current.obj) && g.templates[i].pivot == g.current.pivot));
}

#[test]
fn random_pieces_come_from_templates() {
    let defs = piece_templates(SCALE, OFFSET);
    for _ in 0..50 {
        let b = Block::new_random(&defs);
        assert!((0..7).any(|i| rows(&defs[i].obj) == rows(&b.obj) && defs[i].pivot == b.pivot));
        assert_eq!(b.obj.pos, [9, 2]);
    }
}
