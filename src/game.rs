//! The state that the gravity loop, the input loop and the renderer share:
//! the playfield, the falling piece, the held piece and the templates new
//! pieces are copied from. Each operation here is one step that the
//! caller runs under a single lock.

use crate::grid::{
    collision, empty_row, empty_rows, imprinted, lines_cleared, placed_imprint, placement_hit, rows_of,
    CollisionResult, RenderableObject, EMPTY, SPAWN_Y,
};
use crate::piece::{
    copy_rows, drop_distance, fits_isize, random_below, rotation, same_block, spawn_x, translation, Block,
};
use std::collections::VecDeque;
use vstd::prelude::*;

verus! {

/// Width of the playfield in logical cells.
pub const PF_WIDTH: usize = 10;

/// Height of the playfield in logical cells.
pub const PF_HEIGHT: usize = 20;

/// Cell code of a cell of the ghost piece.
pub const GHOST: u8 = 2;

/// What one tick of gravity did.
#[derive(Debug, Clone, Copy, PartialEq, Eq, Structural)]
pub enum GravityOutcome {
    /// The piece fell one row.
    Fell,
    /// The piece could not fall: it was merged into the playfield, full
    /// rows were cleared and a new piece appeared.
    Locked,
    /// The piece stands on filled cells at the spawn line: the game is over.
    GameOver,
}

/// A player's request.
#[derive(Debug, Clone, Copy, PartialEq, Eq, Structural)]
pub enum Command {
    MoveLeft,
    MoveRight,
    RotateLeft,
    RotateRight,
    Hold,
    SoftDrop,
    HardDrop,
    Quit,
}

/// The playfield, the falling piece, the held piece and the templates.
#[derive(Debug)]
pub struct Game {
    pub board: RenderableObject,
    pub current: Block,
    pub held: Block,
    /// The held slot has been filled once.
    pub held_used: bool,
    pub templates: [Block; 7],
}

/// `rows` with every non-empty cell turned into a ghost cell.
pub open spec fn ghost_cells(rows: Seq<Seq<u8>>) -> Seq<Seq<u8>> {
    Seq::new(
        rows.len(),
        |r: int|
            Seq::new(
                rows[r].len(),
                |c: int|
                    if rows[r][c] != EMPTY {
                        GHOST
                    } else {
                        EMPTY
                    },
            ),
    )
}

/// Rows of the seven piece shapes: I, J, L, O, S, T, Z.
pub open spec fn template_cells(i: int) -> Seq<Seq<u8>> {
    if i == 0 {
        seq![seq![0u8, 0, 0, 0], seq![1u8, 1, 1, 1], seq![0u8, 0, 0, 0], seq![0u8, 0, 0, 0]]
    } else if i == 1 {
        seq![seq![1u8, 0, 0, 0], seq![1u8, 1, 1, 0], seq![0u8, 0, 0, 0], seq![0u8, 0, 0, 0]]
    } else if i == 2 {
        seq![seq![0u8, 0, 1, 0], seq![1u8, 1, 1, 0], seq![0u8, 0, 0, 0], seq![0u8, 0, 0, 0]]
    } else if i == 3 {
        seq![seq![0u8, 1, 1, 0], seq![0u8, 1, 1, 0], seq![0u8, 0, 0, 0], seq![0u8, 0, 0, 0]]
    } else if i == 4 {
        seq![seq![0u8, 1, 1, 0], seq![1u8, 1, 0, 0], seq![0u8, 0, 0, 0], seq![0u8, 0, 0, 0]]
    } else if i == 5 {
        seq![seq![0u8, 1, 0, 0], seq![1u8, 1, 1, 0], seq![0u8, 0, 0, 0], seq![0u8, 0, 0, 0]]
    } else {
        seq![seq![1u8, 1, 0, 0], seq![0u8, 1, 1, 0], seq![0u8, 0, 0, 0], seq![0u8, 0, 0, 0]]
    }
}

/// Doubled pivots of the seven piece shapes.
pub open spec fn template_pivot(i: int) -> [usize; 2] {
    if i == 0 {
        [3usize, 3]
    } else if i == 3 {
        [3usize, 1]
    } else {
        [2usize, 2]
    }
}

impl Game {
    /// Scales are positive everywhere a move or a new piece takes them from.
    pub open spec fn wf(&self) -> bool {
        &&& self.board.scale.0 >= 1
        &&& self.board.scale.1 >= 1
        &&& self.current.obj.scale.0 >= 1
        &&& self.current.obj.scale.1 >= 1
        &&& forall|i: int| 0 <= i < 7 ==> (#[trigger] self.templates[i]).obj.scale.0 >= 1 && self.templates[i].obj.scale.1 >= 1
    }

    /// `after` is `before` once the falling piece was merged into the
    /// playfield, full rows cleared and template `next` put in its place.
    pub open spec fn locked(before: Game, after: Game, next: int) -> bool {
        &&& after.board.cells() == lines_cleared(imprinted(before.current.obj, before.board))
        &&& after.board.pos == before.board.pos
        &&& after.board.scale == before.board.scale
        &&& after.board.is_bordered == before.board.is_bordered
        &&& same_block(after.current, before.templates[next])
        &&& after.held == before.held
        &&& after.held_used == before.held_used
        &&& after.templates == before.templates
    }

    /// Only the falling piece differs between `a` and `b`.
    pub open spec fn same_but_piece(a: Game, b: Game) -> bool {
        &&& a.board == b.board
        &&& a.held == b.held
        &&& a.held_used == b.held_used
        &&& a.templates == b.templates
    }

    /// `after` and `r` are what one gravity tick on `before` gives when
    /// template `next` is the one that would replace a landed piece.
    pub open spec fn gravity_rule(before: Game, after: Game, r: GravityOutcome, next: int) -> bool {
        if collision(before.current.obj, before.board) == CollisionResult::GameOver {
            r == GravityOutcome::GameOver && after == before
        } else {
            let fall = placement_hit(
                before.current.obj.cells(),
                before.current.obj.pos[0] as int,
                before.current.obj.pos[1] + before.current.obj.scale.1,
                before.current.obj.scale.0 as int,
                before.current.obj.scale.1 as int,
                before.board,
            );
            if fits_isize(before.current.obj.pos[1] + before.current.obj.scale.1) && fall
                == CollisionResult::NoCollision {
                &&& r == GravityOutcome::Fell
                &&& translation(
                    before.current,
                    after.current,
                    CollisionResult::NoCollision,
                    0,
                    before.current.obj.scale.1 as int,
                    before.board,
                )
                &&& Game::same_but_piece(before, after)
            } else {
                r == GravityOutcome::Locked && Game::locked(before, after, next)
            }
        }
    }

    /// Merges the falling piece into the playfield, puts a copy of
    /// template `next` in its place and clears full rows.
    pub fn lock_piece(&mut self, next: usize)
        requires
            old(self).wf(),
            next < 7,
        ensures
            Game::locked(*old(self), *final(self), next as int),
            final(self).wf(),
    {
        self.current.obj.imprint_to(&mut self.board);
        self.current = self.templates[next].duplicate();
        self.board.check_line_fills();
    }

    /// One tick of gravity: the game is over if the piece stands on filled
    /// cells at the spawn line; otherwise the piece falls one row, or,
    /// when it cannot, is locked and replaced by a copy of template `next`.
    pub fn gravity_step(&mut self, next: usize) -> (r: GravityOutcome)
        requires
            old(self).wf(),
            next < 7,
        ensures
            Game::gravity_rule(*old(self), *final(self), r, next as int),
            final(self).wf(),
    {
        if self.current.obj.check_collision(&self.board) == CollisionResult::GameOver {
            return GravityOutcome::GameOver;
        }
        let dy = self.current.obj.scale.1;
        if self.current.mov(0, dy, &self.board) == CollisionResult::NoCollision {
            GravityOutcome::Fell
        } else {
            self.lock_piece(next);
            GravityOutcome::Locked
        }
    }

    /// One tick of gravity, with the next piece drawn at random.
    pub fn tick(&mut self) -> (r: GravityOutcome)
        requires
            old(self).wf(),
        ensures
            exists|next: int| 0 <= next < 7 && Game::gravity_rule(*old(self), *final(self), r, next),
            final(self).wf(),
    {
        let next = random_below(7);
        self.gravity_step(next)
    }
    /// `after` is `before` once the falling piece was dropped as far as it
    /// goes, merged into the playfield, full rows cleared and template
    /// `next` put in its place.
    pub open spec fn hard_dropped(before: Game, after: Game, next: int) -> bool {
        let piece = before.current.obj;
        &&& after.board.cells() == lines_cleared(
            placed_imprint(
                piece.cells(),
                piece.pos[0] as int,
                piece.pos[1] + drop_distance(before.current, before.board),
                piece.scale.0 as int,
                piece.scale.1 as int,
                before.board,
            ),
        )
        &&& after.board.pos == before.board.pos
        &&& after.board.scale == before.board.scale
        &&& after.board.is_bordered == before.board.is_bordered
        &&& same_block(after.current, before.templates[next])
        &&& after.held == before.held
        &&& after.held_used == before.held_used
        &&& after.templates == before.templates
    }

    /// `after` is `before` once the falling piece and the held one traded
    /// shapes and pivots; a held slot never filled before first takes the
    /// shape of template `next`. The piece that comes in goes back to the
    /// spawn place.
    pub open spec fn held_swap(before: Game, after: Game, next: int) -> bool {
        let incoming = if before.held_used {
            before.held.obj.cells()
        } else {
            before.templates[next].obj.cells()
        };
        &&& after.current.obj.cells() == incoming
        &&& after.current.pivot == before.held.pivot
        &&& after.current.obj.pos == before.templates[0].obj.pos
        &&& after.current.obj.scale == before.current.obj.scale
        &&& after.current.obj.is_bordered == before.current.obj.is_bordered
        &&& after.held.obj.cells() == before.current.obj.cells()
        &&& after.held.pivot == before.current.pivot
        &&& after.held.obj.pos == before.held.obj.pos
        &&& after.held.obj.scale == before.held.obj.scale
        &&& after.held.obj.is_bordered == before.held.obj.is_bordered
        &&& after.held_used
        &&& after.board == before.board
        &&& after.templates == before.templates
    }

    /// `after` is what `command` does to `before`, with template `next` as
    /// the piece that would replace a locked one or fill an empty held slot.
    pub open spec fn command_rule(before: Game, after: Game, command: Command, next: int) -> bool {
        let sx = before.current.obj.scale.0 as int;
        let sy = before.current.obj.scale.1 as int;
        let moved = |dx: int, dy: int|
            (exists|r: CollisionResult| translation(before.current, after.current, r, dx, dy, before.board))
                && Game::same_but_piece(before, after);
        let turned = |d: int|
            (exists|r: CollisionResult| rotation(before.current, after.current, r, d, before.board))
                && Game::same_but_piece(before, after);
        match command {
            Command::MoveLeft => moved(-sx, 0),
            Command::MoveRight => moved(sx, 0),
            Command::RotateLeft => turned(-1),
            Command::RotateRight => turned(1),
            Command::Hold => Game::held_swap(before, after, next),
            Command::SoftDrop => moved(0, sy),
            Command::HardDrop => Game::hard_dropped(before, after, next),
            Command::Quit => after == before,
        }
    }

    /// Drops the falling piece as far as it goes, merges it into the
    /// playfield, puts a copy of template `next` in its place and clears
    /// full rows.
    pub fn hard_drop(&mut self, next: usize)
        requires
            old(self).wf(),
            next < 7,
        ensures
            Game::hard_dropped(*old(self), *final(self), next as int),
            final(self).wf(),
    {
        self.current.drop_to_rest(&self.board);
        self.lock_piece(next);
    }

    /// Trades the falling piece's shape and pivot with the held piece's,
    /// filling a held slot that was never used with the shape of template
    /// `next` first, and puts the incoming piece back at the spawn place.
    pub fn hold(&mut self, next: usize)
        requires
            old(self).wf(),
            next < 7,
        ensures
            Game::held_swap(*old(self), *final(self), next as int),
            final(self).wf(),
    {
        if !self.held_used {
            self.held.obj.shape = copy_rows(&self.templates[next].obj.shape);
            self.held_used = true;
        }
        std::mem::swap(&mut self.current.obj.shape, &mut self.held.obj.shape);
        std::mem::swap(&mut self.current.pivot, &mut self.held.pivot);
        self.current.obj.pos = self.templates[0].obj.pos;
    }

    /// Carries out one player request; `next` is the template used if the
    /// request locks the piece or fills the held slot for the first time.
    pub fn apply(&mut self, command: Command, next: usize)
        requires
            old(self).wf(),
            next < 7,
        ensures
            Game::command_rule(*old(self), *final(self), command, next as int),
            final(self).wf(),
    {
        let sx = self.current.obj.scale.0;
        let sy = self.current.obj.scale.1;
        match command {
            Command::MoveLeft => {
                self.current.mov(-sx, 0, &self.board);
            },
            Command::MoveRight => {
                self.current.mov(sx, 0, &self.board);
            },
            Command::RotateLeft => {
                self.current.rotate(-1, &self.board);
            },
            Command::RotateRight => {
                self.current.rotate(1, &self.board);
            },
            Command::Hold => self.hold(next),
            Command::SoftDrop => {
                self.current.mov(0, sy, &self.board);
            },
            Command::HardDrop => self.hard_drop(next),
            Command::Quit => {},
        }
    }

    /// Carries out one player request, drawing at random the template used
    /// if the request locks the piece or fills the held slot.
    pub fn perform(&mut self, command: Command)
        requires
            old(self).wf(),
        ensures
            exists|next: int| 0 <= next < 7 && Game::command_rule(*old(self), *final(self), command, next),
            final(self).wf(),
    {
        let next = random_below(7);
        self.apply(command, next);
    }

    /// The falling piece as a ghost: dropped as far as it goes, with every
    /// non-empty cell drawn dimmed.
    pub fn ghost(&self) -> (r: RenderableObject)
        requires
            self.wf(),
        ensures
            r.cells() == ghost_cells(self.current.obj.cells()),
            r.pos[0] == self.current.obj.pos[0],
            r.pos[1] == self.current.obj.pos[1] + drop_distance(self.current, self.board),
            r.scale == self.current.obj.scale,
            r.is_bordered == self.current.obj.is_bordered,
    {
        let mut piece = self.current.duplicate();
        assert(drop_distance(piece, self.board) == drop_distance(self.current, self.board));
        piece.drop_to_rest(&self.board);
        let shape = ghost_rows(&piece.obj.shape);
        RenderableObject::new(piece.obj.pos, shape, piece.obj.scale, piece.obj.is_bordered)
    }
}

/// Moves, turns and soft drops never leave the falling piece where it
/// meets something: either the piece is as it was, or it stands where it
/// overlaps no filled cell and stays inside the playfield.
pub proof fn lemma_requests_commit_free_places(before: Game, after: Game, command: Command, next: int)
    requires
        Game::command_rule(before, after, command, next),
        command != Command::Hold,
        command != Command::HardDrop,
    ensures
        after.current == before.current || collision(after.current.obj, after.board) == CollisionResult::NoCollision,
{
    let sx = before.current.obj.scale.0 as int;
    let sy = before.current.obj.scale.1 as int;
    match command {
        Command::RotateLeft | Command::RotateRight => {
            let d: int = if command == Command::RotateLeft { -1 } else { 1 };
            let r = choose|r: CollisionResult| rotation(before.current, after.current, r, d, before.board);
        },
        Command::Quit => {},
        _ => {
            let (dx, dy) = if command == Command::MoveLeft {
                (-sx, 0int)
            } else if command == Command::MoveRight {
                (sx, 0int)
            } else {
                (0int, sy)
            };
            let r = choose|r: CollisionResult| translation(before.current, after.current, r, dx, dy, before.board);
            if r == CollisionResult::NoCollision {
                assert(after.current.obj.cells() == before.current.obj.cells());
            }
        },
    }
}

/// A gravity tick in which the piece fell leaves it where it meets
/// nothing.
pub proof fn lemma_fall_commits_free_place(before: Game, after: Game, next: int)
    requires
        Game::gravity_rule(before, after, GravityOutcome::Fell, next),
    ensures
        collision(after.current.obj, after.board) == CollisionResult::NoCollision,
{
    assert(after.current.obj.cells() == before.current.obj.cells());
}

fn row4(a: u8, b: u8, c: u8, d: u8) -> (r: Vec<u8>)
    ensures
        r@ == seq![a, b, c, d],
{
    let mut r: Vec<u8> = Vec::new();
    r.push(a);
    r.push(b);
    r.push(c);
    r.push(d);
    assert(r@ =~= seq![a, b, c, d]);
    r
}

fn grid4(r0: Vec<u8>, r1: Vec<u8>, r2: Vec<u8>, r3: Vec<u8>) -> (g: Vec<Vec<u8>>)
    ensures
        g@.map_values(|row: Vec<u8>| row@) == seq![r0@, r1@, r2@, r3@],
{
    let ghost s = seq![r0@, r1@, r2@, r3@];
    let mut g: Vec<Vec<u8>> = Vec::new();
    g.push(r0);
    g.push(r1);
    g.push(r2);
    g.push(r3);
    assert(g@.map_values(|row: Vec<u8>| row@) =~= s);
    g
}

fn empty_grid(height: usize, width: usize) -> (g: VecDeque<Vec<u8>>)
    ensures
        rows_of(g) == empty_rows(height as nat, width as nat),
{
    let mut g: VecDeque<Vec<u8>> = VecDeque::new();
    while g.len() < height
        invariant
            rows_of(g).len() <= height,
            rows_of(g) == empty_rows(rows_of(g).len(), width as nat),
        decreases height - rows_of(g).len(),
    {
        let ghost g0 = rows_of(g);
        g.push_back(empty_row(width));
        assert(rows_of(g) =~= g0.push(Seq::new(width as nat, |j: int| EMPTY)));
        assert(rows_of(g) =~= empty_rows(rows_of(g).len(), width as nat));
    }
    g
}

/// Template `i` of the seven piece shapes, at the spawn place of a
/// playfield drawn from column `offset` with scale `scale`.
pub fn piece_template(i: usize, scale: (isize, isize), offset: isize) -> (r: Block)
    requires
        i < 7,
        fits_isize(spawn_x(scale.0 as int, offset as int)),
    ensures
        r.obj.cells() == template_cells(i as int),
        r.pivot == template_pivot(i as int),
        r.obj.pos[0] == spawn_x(scale.0 as int, offset as int),
        r.obj.pos[1] == SPAWN_Y,
        r.obj.scale == scale,
        !r.obj.is_bordered,
{
    let (shape, pivot) = if i == 0 {
        (grid4(row4(0, 0, 0, 0), row4(1, 1, 1, 1), row4(0, 0, 0, 0), row4(0, 0, 0, 0)), [3usize, 3])
    } else if i == 1 {
        (grid4(row4(1, 0, 0, 0), row4(1, 1, 1, 0), row4(0, 0, 0, 0), row4(0, 0, 0, 0)), [2usize, 2])
    } else if i == 2 {
        (grid4(row4(0, 0, 1, 0), row4(1, 1, 1, 0), row4(0, 0, 0, 0), row4(0, 0, 0, 0)), [2usize, 2])
    } else if i == 3 {
        (grid4(row4(0, 1, 1, 0), row4(0, 1, 1, 0), row4(0, 0, 0, 0), row4(0, 0, 0, 0)), [3usize, 1])
    } else if i == 4 {
        (grid4(row4(0, 1, 1, 0), row4(1, 1, 0, 0), row4(0, 0, 0, 0), row4(0, 0, 0, 0)), [2usize, 2])
    } else if i == 5 {
        (grid4(row4(0, 1, 0, 0), row4(1, 1, 1, 0), row4(0, 0, 0, 0), row4(0, 0, 0, 0)), [2usize, 2])
    } else {
        (grid4(row4(1, 1, 0, 0), row4(0, 1, 1, 0), row4(0, 0, 0, 0), row4(0, 0, 0, 0)), [2usize, 2])
    };
    Block::new(shape, pivot, scale, offset)
}

/// The seven piece templates, I, J, L, O, S, T, Z, in that order.
pub fn piece_templates(scale: (isize, isize), offset: isize) -> (r: [Block; 7])
    requires
        fits_isize(spawn_x(scale.0 as int, offset as int)),
    ensures
        forall|i: int|
            0 <= i < 7 ==> {
                &&& (#[trigger] r[i]).obj.cells() == template_cells(i)
                &&& r[i].pivot == template_pivot(i)
                &&& r[i].obj.pos[0] == spawn_x(scale.0 as int, offset as int)
                &&& r[i].obj.pos[1] == SPAWN_Y
                &&& r[i].obj.scale == scale
                &&& !r[i].obj.is_bordered
            },
{
    let t0 = piece_template(0, scale, offset);
    let t1 = piece_template(1, scale, offset);
    let t2 = piece_template(2, scale, offset);
    let t3 = piece_template(3, scale, offset);
    let t4 = piece_template(4, scale, offset);
    let t5 = piece_template(5, scale, offset);
    let t6 = piece_template(6, scale, offset);
    [t0, t1, t2, t3, t4, t5, t6]
}

impl Game {
    /// A new game: an empty bordered playfield of `PF_WIDTH` x `PF_HEIGHT`
    /// cells drawn from column `offset`, an empty held slot to its right, and
    /// a falling piece copied from a template picked at random.
    pub fn new(scale: (isize, isize), offset: isize) -> (r: Game)
        requires
            1 <= scale.0 <= u16::MAX,
            1 <= scale.1 <= u16::MAX,
            0 <= offset <= u16::MAX,
        ensures
            r.wf(),
            r.board.cells() == empty_rows(PF_HEIGHT as nat, PF_WIDTH as nat),
            r.board.pos[0] == offset,
            r.board.pos[1] == 0,
            r.board.scale == scale,
            r.board.is_bordered,
            forall|i: int|
                0 <= i < 7 ==> {
                    &&& (#[trigger] r.templates[i]).obj.cells() == template_cells(i)
                    &&& r.templates[i].pivot == template_pivot(i)
                    &&& r.templates[i].obj.pos[0] == spawn_x(scale.0 as int, offset as int)
                    &&& r.templates[i].obj.pos[1] == SPAWN_Y
                    &&& r.templates[i].obj.scale == scale
                    &&& !r.templates[i].obj.is_bordered
                },
            exists|i: int| 0 <= i < 7 && same_block(r.current, #[trigger] r.templates[i]),
            r.held.obj.cells() == empty_rows(4, 4),
            r.held.pivot == [3usize, 3],
            r.held.obj.pos[0] == spawn_x(scale.0 as int, offset + PF_WIDTH * scale.0),
            r.held.obj.pos[1] == 0,
            r.held.obj.scale == scale,
            r.held.obj.is_bordered,
            !r.held_used,
    {
        let board = RenderableObject::new([offset, 0], empty_grid(PF_HEIGHT, PF_WIDTH), scale, true);
        let templates = piece_templates(scale, offset);
        let current = Block::new_random(&templates);
        let held_x = (3 * scale.0 + 1 + offset + (PF_WIDTH as isize) * scale.0) as isize;
        let held_obj = RenderableObject::new([held_x, 0], empty_grid(4, 4), scale, true);
        let held = Block { obj: held_obj, pivot: [3usize, 3] };
        let ghost k = choose|i: int| 0 <= i < 7 && same_block(current, #[trigger] templates[i]);
        let game = Game { board, current, held, held_used: false, templates };
        assert(same_block(game.current, game.templates[k]));
        game
    }
}

fn ghost_rows(shape: &VecDeque<Vec<u8>>) -> (r: VecDeque<Vec<u8>>)
    ensures
        rows_of(r) == ghost_cells(rows_of(*shape)),
{
    let ghost rows = rows_of(*shape);
    let mut out: VecDeque<Vec<u8>> = VecDeque::new();
    let n = shape.len();
    let mut i: usize = 0;
    assert(rows_of(out) =~= ghost_cells(rows).subrange(0, 0));
    while i < n
        invariant
            n == rows.len(),
            rows == rows_of(*shape),
            0 <= i <= n,
            rows_of(out) == ghost_cells(rows).subrange(0, i as int),
        decreases n - i,
    {
        let line: &Vec<u8> = &shape[i];
        assert(line@ == rows[i as int]);
        let mut g: Vec<u8> = Vec::new();
        let mut j: usize = 0;
        while j < line.len()
            invariant
                line@ == rows[i as int],
                0 <= j <= line@.len(),
                g@.len() == j,
                forall|k: int| 0 <= k < j ==> #[trigger] g@[k] == (if line@[k] != EMPTY { GHOST } else { EMPTY }),
            decreases line@.len() - j,
        {
            if line[j] != EMPTY {
                g.push(GHOST);
            } else {
                g.push(EMPTY);
            }
            j += 1;
        }
        let ghost o0 = rows_of(out);
        out.push_back(g);
        assert(g@ =~= ghost_cells(rows)[i as int]);
        assert(rows_of(out) =~= o0.push(g@));
        assert(rows_of(out) =~= ghost_cells(rows).subrange(0, i + 1));
        i += 1;
    }
    assert(ghost_cells(rows).subrange(0, n as int) =~= ghost_cells(rows));
    out
}

} // verus!
