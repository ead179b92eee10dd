//! Occupancy grids placed on the terminal: collision, line clearing and
//! merging one grid into another.

use std::collections::VecDeque;
use vstd::prelude::*;

verus! {

/// Cell code of an empty cell.
pub const EMPTY: u8 = 0;

/// Cell code of a filled cell.
pub const FILLED: u8 = 1;

/// Terminal row at which freshly spawned pieces stand.
pub const SPAWN_Y: isize = 2;

/// What a grid meets when it is placed over a reference grid.
#[derive(Debug, Clone, Copy, PartialEq, Eq, Structural)]
pub enum CollisionResult {
    NoCollision,
    OutOfBounds,
    BlockCollision,
    GameOver,
}

/// A grid of cell codes drawn at a terminal position, each logical cell
/// covering `scale.0` columns and `scale.1` lines.
#[derive(Debug)]
pub struct RenderableObject {
    pub pos: [isize; 2],
    pub shape: VecDeque<Vec<u8>>,
    pub scale: (isize, isize),
    pub is_bordered: bool,
}

/// The rows of a grid as sequences.
pub open spec fn rows_of(shape: VecDeque<Vec<u8>>) -> Seq<Seq<u8>> {
    rows_of_seq(shape@)
}

/// The rows of a sequence of rows as sequences.
pub open spec fn rows_of_seq(rows: Seq<Vec<u8>>) -> Seq<Seq<u8>> {
    rows.map_values(|r: Vec<u8>| r@)
}

/// All rows of `cells` have length `width`.
pub open spec fn is_rectangular(cells: Seq<Seq<u8>>, width: int) -> bool {
    forall|r: int| 0 <= r < cells.len() ==> #[trigger] cells[r].len() == width
}

/// `cells[y][x]` exists and is filled.
pub open spec fn is_filled(cells: Seq<Seq<u8>>, y: int, x: int) -> bool {
    &&& 0 <= y < cells.len()
    &&& 0 <= x < cells[y].len()
    &&& cells[y][x] == FILLED
}

impl RenderableObject {
    pub open spec fn cells(&self) -> Seq<Seq<u8>> {
        rows_of(self.shape)
    }

    /// Width of the border drawn around the grid, in terminal cells.
    pub open spec fn border(&self) -> int {
        if self.is_bordered {
            1
        } else {
            0
        }
    }

    /// Terminal column of the first logical column.
    pub open spec fn content_left(&self) -> int {
        self.pos[0] + self.border()
    }

    /// Terminal line of the first logical row: a bordered grid starts two
    /// lines below its origin, below the border and the line the cursor
    /// comes back to.
    pub open spec fn content_top(&self) -> int {
        self.pos[1] + 2 * self.border()
    }

    /// Logical column under terminal column `ax`.
    pub open spec fn column_under(&self, ax: int) -> int {
        (ax - self.content_left()) / (self.scale.0 as int)
    }

    /// Logical row under terminal line `ay`.
    pub open spec fn row_under(&self, ay: int) -> int {
        (ay - self.content_top()) / (self.scale.1 as int)
    }

    /// The terminal cell `(ax, ay)` lies over a cell of this grid.
    pub open spec fn covers(&self, ax: int, ay: int) -> bool {
        &&& ax >= self.content_left()
        &&& ay >= self.content_top()
        &&& self.row_under(ay) < self.cells().len()
        &&& self.column_under(ax) < self.cells()[self.row_under(ay)].len()
    }

    /// Scales are positive and all rows have the same length.
    pub open spec fn wf(&self) -> bool {
        &&& self.scale.0 >= 1
        &&& self.scale.1 >= 1
        &&& self.cells().len() > 0 ==> is_rectangular(self.cells(), self.cells()[0].len() as int)
    }

    pub fn new(pos: [isize; 2], shape: VecDeque<Vec<u8>>, scale: (isize, isize), is_bordered: bool) -> (r: Self)
        ensures
            r.pos == pos,
            r.shape == shape,
            r.scale == scale,
            r.is_bordered == is_bordered,
    {
        Self { pos, shape, scale, is_bordered }
    }
}

/// Outcome for the cell at row `y`, column `x` of a grid with rows
/// `cells`, origin `(ox, oy)` and scale `(sx, sy)`, placed over `reference`.
pub open spec fn cell_hit(
    cells: Seq<Seq<u8>>,
    ox: int,
    oy: int,
    sx: int,
    sy: int,
    reference: RenderableObject,
    y: int,
    x: int,
) -> CollisionResult {
    let ax = ox + sx * x;
    let ay = oy + sy * y;
    if !is_filled(cells, y, x) {
        CollisionResult::NoCollision
    } else if !reference.covers(ax, ay) {
        CollisionResult::OutOfBounds
    } else if reference.cells()[reference.row_under(ay)][reference.column_under(ax)] == FILLED {
        if oy == SPAWN_Y {
            CollisionResult::GameOver
        } else {
            CollisionResult::BlockCollision
        }
    } else {
        CollisionResult::NoCollision
    }
}

/// First outcome other than `NoCollision` among the cells of row `y` from
/// column `x` on.
pub open spec fn row_hit(
    cells: Seq<Seq<u8>>,
    ox: int,
    oy: int,
    sx: int,
    sy: int,
    reference: RenderableObject,
    y: int,
    x: int,
) -> CollisionResult
    decreases cells[y].len() - x,
{
    if x < 0 || x >= cells[y].len() {
        CollisionResult::NoCollision
    } else if cell_hit(cells, ox, oy, sx, sy, reference, y, x) != CollisionResult::NoCollision {
        cell_hit(cells, ox, oy, sx, sy, reference, y, x)
    } else {
        row_hit(cells, ox, oy, sx, sy, reference, y, x + 1)
    }
}

/// First outcome other than `NoCollision` among the rows from `y` on, in
/// row-major order.
pub open spec fn rows_hit(
    cells: Seq<Seq<u8>>,
    ox: int,
    oy: int,
    sx: int,
    sy: int,
    reference: RenderableObject,
    y: int,
) -> CollisionResult
    decreases cells.len() - y,
{
    if y < 0 || y >= cells.len() {
        CollisionResult::NoCollision
    } else if row_hit(cells, ox, oy, sx, sy, reference, y, 0) != CollisionResult::NoCollision {
        row_hit(cells, ox, oy, sx, sy, reference, y, 0)
    } else {
        rows_hit(cells, ox, oy, sx, sy, reference, y + 1)
    }
}

/// Outcome of placing rows `cells` at origin `(ox, oy)` with scale
/// `(sx, sy)` over `reference`: that of the first filled cell, in
/// row-major order, that leaves the reference or meets one of its filled
/// cells.
pub open spec fn placement_hit(
    cells: Seq<Seq<u8>>,
    ox: int,
    oy: int,
    sx: int,
    sy: int,
    reference: RenderableObject,
) -> CollisionResult {
    rows_hit(cells, ox, oy, sx, sy, reference, 0)
}

/// Outcome of placing `moving`, as it stands, over `reference`.
pub open spec fn collision(moving: RenderableObject, reference: RenderableObject) -> CollisionResult {
    placement_hit(
        moving.cells(),
        moving.pos[0] as int,
        moving.pos[1] as int,
        moving.scale.0 as int,
        moving.scale.1 as int,
        reference,
    )
}

/// Every cell of `row` is filled; ghost cells and glyphs do not count.
pub open spec fn row_full(row: Seq<u8>) -> bool {
    forall|i: int| 0 <= i < row.len() ==> row[i] == FILLED
}

/// The rows of `rows` that are not full, in their order.
pub open spec fn unfilled_rows(rows: Seq<Seq<u8>>) -> Seq<Seq<u8>>
    decreases rows.len(),
{
    if rows.len() == 0 {
        Seq::empty()
    } else {
        let init = unfilled_rows(rows.drop_last());
        if row_full(rows.last()) {
            init
        } else {
            init.push(rows.last())
        }
    }
}

/// `n` rows of `width` empty cells.
pub open spec fn empty_rows(n: nat, width: nat) -> Seq<Seq<u8>> {
    Seq::new(n, |i: int| Seq::new(width, |j: int| EMPTY))
}

/// Length of the first row, taken as the width of the grid.
pub open spec fn grid_width(rows: Seq<Seq<u8>>) -> nat {
    if rows.len() > 0 {
        rows[0].len()
    } else {
        0
    }
}

/// `rows` with every full row removed at once and as many empty rows
/// added on top, so that the number of rows stays the same.
pub open spec fn lines_cleared(rows: Seq<Seq<u8>>) -> Seq<Seq<u8>> {
    let kept = unfilled_rows(rows);
    empty_rows((rows.len() - kept.len()) as nat, grid_width(rows)) + kept
}

proof fn lemma_unfilled_rows_len(rows: Seq<Seq<u8>>)
    ensures
        unfilled_rows(rows).len() <= rows.len(),
    decreases rows.len(),
{
    if rows.len() > 0 {
        lemma_unfilled_rows_len(rows.drop_last());
    }
}

fn is_full_row(row: &Vec<u8>) -> (r: bool)
    ensures
        r == row_full(row@),
{
    let mut i: usize = 0;
    while i < row.len()
        invariant
            0 <= i <= row@.len(),
            forall|k: int| 0 <= k < i ==> row@[k] == FILLED,
        decreases row@.len() - i,
    {
        if row[i] != FILLED {
            return false;
        }
        i += 1;
    }
    true
}

pub(crate) fn empty_row(width: usize) -> (r: Vec<u8>)
    ensures
        r@ == Seq::new(width as nat, |j: int| EMPTY),
{
    let mut r: Vec<u8> = Vec::new();
    while r.len() < width
        invariant
            r@.len() <= width,
            forall|k: int| 0 <= k < r@.len() ==> r@[k] == EMPTY,
        decreases width - r@.len(),
    {
        r.push(EMPTY);
    }
    assert(r@ =~= Seq::new(width as nat, |j: int| EMPTY));
    r
}

/// Filled cell `(y, x)` of rows `cells` placed at `(ox, oy)` with scale
/// `(sx, sy)` lands on cell `(r, c)` of `board`.
pub open spec fn stamps(
    cells: Seq<Seq<u8>>,
    ox: int,
    oy: int,
    sx: int,
    sy: int,
    board: RenderableObject,
    y: int,
    x: int,
    r: int,
    c: int,
) -> bool {
    let ax = ox + sx * x;
    let ay = oy + sy * y;
    &&& is_filled(cells, y, x)
    &&& board.covers(ax, ay)
    &&& board.row_under(ay) == r
    &&& board.column_under(ax) == c
}

/// Some filled cell before `(y0, x0)` in row-major order lands on cell
/// `(r, c)` of `board`.
pub open spec fn stamped_before(
    cells: Seq<Seq<u8>>,
    ox: int,
    oy: int,
    sx: int,
    sy: int,
    board: RenderableObject,
    y0: int,
    x0: int,
    r: int,
    c: int,
) -> bool {
    exists|y: int, x: int| (y < y0 || (y == y0 && x < x0)) && #[trigger] stamps(cells, ox, oy, sx, sy, board, y, x, r, c)
}

/// Some filled cell lands on cell `(r, c)` of `board`.
pub open spec fn stamped(
    cells: Seq<Seq<u8>>,
    ox: int,
    oy: int,
    sx: int,
    sy: int,
    board: RenderableObject,
    r: int,
    c: int,
) -> bool {
    exists|y: int, x: int| #[trigger] stamps(cells, ox, oy, sx, sy, board, y, x, r, c)
}

/// The rows of `board` after the filled cells before `(y0, x0)` were
/// merged into it.
pub open spec fn imprinted_before(
    cells: Seq<Seq<u8>>,
    ox: int,
    oy: int,
    sx: int,
    sy: int,
    board: RenderableObject,
    y0: int,
    x0: int,
) -> Seq<Seq<u8>> {
    Seq::new(
        board.cells().len(),
        |r: int|
            Seq::new(
                board.cells()[r].len(),
                |c: int|
                    if stamped_before(cells, ox, oy, sx, sy, board, y0, x0, r, c) {
                        FILLED
                    } else {
                        board.cells()[r][c]
                    },
            ),
    )
}

/// The rows of `board` once every filled cell of rows `cells` placed at
/// `(ox, oy)` with scale `(sx, sy)` that lands on the board has been
/// marked filled there.
pub open spec fn placed_imprint(
    cells: Seq<Seq<u8>>,
    ox: int,
    oy: int,
    sx: int,
    sy: int,
    board: RenderableObject,
) -> Seq<Seq<u8>> {
    Seq::new(
        board.cells().len(),
        |r: int|
            Seq::new(
                board.cells()[r].len(),
                |c: int|
                    if stamped(cells, ox, oy, sx, sy, board, r, c) {
                        FILLED
                    } else {
                        board.cells()[r][c]
                    },
            ),
    )
}

/// The rows of `board` once `piece`, as it stands, was merged into it.
pub open spec fn imprinted(piece: RenderableObject, board: RenderableObject) -> Seq<Seq<u8>> {
    placed_imprint(
        piece.cells(),
        piece.pos[0] as int,
        piece.pos[1] as int,
        piece.scale.0 as int,
        piece.scale.1 as int,
        board,
    )
}

pub(crate) fn fill_cell(shape: &mut VecDeque<Vec<u8>>, r: usize, c: usize)
    requires
        r < rows_of(*old(shape)).len(),
        c < rows_of(*old(shape))[r as int].len(),
    ensures
        rows_of(*final(shape)) == rows_of(*old(shape)).update(r as int, rows_of(*old(shape))[r as int].update(c as int, FILLED)),
{
    let ghost before = rows_of(*shape);
    let mut line = shape.remove(r).unwrap();
    line[c] = FILLED;
    shape.insert(r, line);
    assert(rows_of(*shape) =~= before.update(r as int, before[r as int].update(c as int, FILLED)));
}

proof fn lemma_unfilled_rows_keep_all(rows: Seq<Seq<u8>>)
    requires
        forall|i: int| 0 <= i < rows.len() ==> !row_full(#[trigger] rows[i]),
    ensures
        unfilled_rows(rows) == rows,
    decreases rows.len(),
{
    if rows.len() > 0 {
        lemma_unfilled_rows_keep_all(rows.drop_last());
        assert(rows.drop_last().push(rows.last()) =~= rows);
    }
}

proof fn lemma_unfilled_rows_drop_all(rows: Seq<Seq<u8>>)
    requires
        forall|i: int| 0 <= i < rows.len() ==> row_full(#[trigger] rows[i]),
    ensures
        unfilled_rows(rows) == Seq::<Seq<u8>>::empty(),
    decreases rows.len(),
{
    if rows.len() > 0 {
        lemma_unfilled_rows_drop_all(rows.drop_last());
    }
}

proof fn lemma_unfilled_rows_shape(rows: Seq<Seq<u8>>, width: int)
    requires
        is_rectangular(rows, width),
    ensures
        is_rectangular(unfilled_rows(rows), width),
        forall|i: int| 0 <= i < unfilled_rows(rows).len() ==> !row_full(#[trigger] unfilled_rows(rows)[i]),
    decreases rows.len(),
{
    if rows.len() > 0 {
        lemma_unfilled_rows_shape(rows.drop_last(), width);
    }
}

proof fn lemma_unfilled_rows_append(a: Seq<Seq<u8>>, b: Seq<Seq<u8>>)
    ensures
        unfilled_rows(a + b) == unfilled_rows(a) + unfilled_rows(b),
    decreases b.len(),
{
    if b.len() == 0 {
        assert(a + b =~= a);
        assert(unfilled_rows(a) + unfilled_rows(b) =~= unfilled_rows(a));
    } else {
        lemma_unfilled_rows_append(a, b.drop_last());
        assert((a + b).drop_last() =~= a + b.drop_last());
        assert((a + b).last() == b.last());
        if !row_full(b.last()) {
            assert(unfilled_rows(a) + unfilled_rows(b.drop_last()).push(b.last()) =~= (unfilled_rows(a)
                + unfilled_rows(b.drop_last())).push(b.last()));
        }
    }
}

/// Clearing lines on a grid without full rows leaves it as it is.
pub proof fn lemma_clear_without_full_rows(rows: Seq<Seq<u8>>)
    requires
        forall|i: int| 0 <= i < rows.len() ==> !row_full(#[trigger] rows[i]),
    ensures
        lines_cleared(rows) == rows,
{
    lemma_unfilled_rows_keep_all(rows);
    assert(lines_cleared(rows) =~= rows);
}

/// Clearing lines on a grid whose rows are all full leaves a grid of empty
/// rows of the same dimensions.
pub proof fn lemma_clear_all_full_rows(rows: Seq<Seq<u8>>)
    requires
        rows.len() > 0 ==> is_rectangular(rows, rows[0].len() as int),
        forall|i: int| 0 <= i < rows.len() ==> row_full(#[trigger] rows[i]),
    ensures
        lines_cleared(rows) == empty_rows(rows.len(), grid_width(rows)),
        lines_cleared(rows).len() == rows.len(),
        forall|i: int| 0 <= i < rows.len() ==> #[trigger] lines_cleared(rows)[i].len() == rows[i].len(),
{
    lemma_unfilled_rows_drop_all(rows);
    assert(lines_cleared(rows) =~= empty_rows(rows.len(), grid_width(rows)));
}

/// Clearing lines twice in a row is the same as clearing them once.
pub proof fn lemma_clear_idempotent(rows: Seq<Seq<u8>>)
    requires
        rows.len() > 0 ==> is_rectangular(rows, rows[0].len() as int),
    ensures
        lines_cleared(lines_cleared(rows)) == lines_cleared(rows),
{
    let w = grid_width(rows);
    let kept = unfilled_rows(rows);
    lemma_unfilled_rows_len(rows);
    lemma_unfilled_rows_shape(rows, w as int);
    let k = (rows.len() - kept.len()) as nat;
    let e = empty_rows(k, w);
    let once = lines_cleared(rows);
    if w == 0 {
        assert forall|i: int| 0 <= i < rows.len() implies row_full(#[trigger] rows[i]) by {
            assert(rows[i].len() == 0);
        }
        lemma_clear_all_full_rows(rows);
        assert forall|i: int| 0 <= i < once.len() implies row_full(#[trigger] once[i]) by {
            assert(once[i].len() == 0);
        }
        lemma_clear_all_full_rows(once);
        assert(lines_cleared(once) =~= once);
    } else {
        assert forall|i: int| 0 <= i < e.len() implies !row_full(#[trigger] e[i]) by {
            assert(e[i][0] == EMPTY);
        }
        lemma_unfilled_rows_keep_all(e);
        lemma_unfilled_rows_keep_all(kept);
        lemma_unfilled_rows_append(e, kept);
        assert(unfilled_rows(once) == once);
        assert(lines_cleared(once) =~= once);
    }
}

proof fn lemma_row_hit(
    cells: Seq<Seq<u8>>,
    ox: int,
    oy: int,
    sx: int,
    sy: int,
    reference: RenderableObject,
    y: int,
    x0: int,
)
    requires
        0 <= y < cells.len(),
        0 <= x0,
    ensures
        (row_hit(cells, ox, oy, sx, sy, reference, y, x0) == CollisionResult::NoCollision) == (forall|x: int|
            x0 <= x < cells[y].len() ==> #[trigger] cell_hit(cells, ox, oy, sx, sy, reference, y, x)
                == CollisionResult::NoCollision),
        row_hit(cells, ox, oy, sx, sy, reference, y, x0) != CollisionResult::NoCollision ==> exists|x: int|
            x0 <= x < cells[y].len() && #[trigger] cell_hit(cells, ox, oy, sx, sy, reference, y, x)
                == row_hit(cells, ox, oy, sx, sy, reference, y, x0),
    decreases cells[y].len() - x0,
{
    if x0 < cells[y].len() {
        lemma_row_hit(cells, ox, oy, sx, sy, reference, y, x0 + 1);
    }
}

proof fn lemma_rows_hit(
    cells: Seq<Seq<u8>>,
    ox: int,
    oy: int,
    sx: int,
    sy: int,
    reference: RenderableObject,
    y0: int,
)
    requires
        0 <= y0,
    ensures
        (rows_hit(cells, ox, oy, sx, sy, reference, y0) == CollisionResult::NoCollision) == (forall|y: int, x: int|
            y0 <= y < cells.len() && 0 <= x < cells[y].len() ==> #[trigger] cell_hit(cells, ox, oy, sx, sy, reference, y, x)
                == CollisionResult::NoCollision),
        rows_hit(cells, ox, oy, sx, sy, reference, y0) != CollisionResult::NoCollision ==> exists|y: int, x: int|
            y0 <= y < cells.len() && 0 <= x < cells[y].len() && #[trigger] cell_hit(cells, ox, oy, sx, sy, reference, y, x)
                == rows_hit(cells, ox, oy, sx, sy, reference, y0),
    decreases cells.len() - y0,
{
    if y0 < cells.len() {
        lemma_row_hit(cells, ox, oy, sx, sy, reference, y0, 0);
        lemma_rows_hit(cells, ox, oy, sx, sy, reference, y0 + 1);
        if rows_hit(cells, ox, oy, sx, sy, reference, y0) == CollisionResult::NoCollision {
            assert forall|y: int, x: int|
                y0 <= y < cells.len() && 0 <= x < cells[y].len() implies #[trigger] cell_hit(cells, ox, oy, sx, sy, reference, y, x)
                == CollisionResult::NoCollision by {
                if y == y0 {
                    assert(cell_hit(cells, ox, oy, sx, sy, reference, y0, x) == CollisionResult::NoCollision);
                }
            }
        }
    }
}

/// Terminal cell `(ax, ay)` lies over a filled cell of `reference`.
pub open spec fn lands_on_filled(reference: RenderableObject, ax: int, ay: int) -> bool {
    reference.covers(ax, ay) && reference.cells()[reference.row_under(ay)][reference.column_under(ax)] == FILLED
}

/// What a placement meets: nothing exactly when every filled cell lands
/// on a cell of the reference that is not filled; `OutOfBounds` only when
/// some filled cell lands outside the reference; `BlockCollision` and
/// `GameOver` only when some filled cell lands on a filled cell, `GameOver`
/// while the grid stands at the spawn line and `BlockCollision` elsewhere.
pub proof fn lemma_collision_outcomes(
    cells: Seq<Seq<u8>>,
    ox: int,
    oy: int,
    sx: int,
    sy: int,
    reference: RenderableObject,
)
    ensures
        (placement_hit(cells, ox, oy, sx, sy, reference) == CollisionResult::NoCollision) == (forall|y: int, x: int|
            #[trigger] is_filled(cells, y, x) ==> reference.covers(ox + sx * x, oy + sy * y) && !lands_on_filled(
                reference,
                ox + sx * x,
                oy + sy * y,
            )),
        placement_hit(cells, ox, oy, sx, sy, reference) == CollisionResult::OutOfBounds ==> exists|y: int, x: int|
            #[trigger] is_filled(cells, y, x) && !reference.covers(ox + sx * x, oy + sy * y),
        placement_hit(cells, ox, oy, sx, sy, reference) == CollisionResult::BlockCollision ==> oy != SPAWN_Y
            && exists|y: int, x: int| #[trigger] is_filled(cells, y, x) && lands_on_filled(reference, ox + sx * x, oy + sy * y),
        placement_hit(cells, ox, oy, sx, sy, reference) == CollisionResult::GameOver ==> oy == SPAWN_Y
            && exists|y: int, x: int| #[trigger] is_filled(cells, y, x) && lands_on_filled(reference, ox + sx * x, oy + sy * y),
{
    lemma_rows_hit(cells, ox, oy, sx, sy, reference, 0);
    let h = placement_hit(cells, ox, oy, sx, sy, reference);
    if h == CollisionResult::NoCollision {
        assert forall|y: int, x: int| #[trigger] is_filled(cells, y, x) implies reference.covers(ox + sx * x, oy + sy * y)
            && !lands_on_filled(reference, ox + sx * x, oy + sy * y) by {
            assert(cell_hit(cells, ox, oy, sx, sy, reference, y, x) == CollisionResult::NoCollision);
        }
    } else {
        let (y, x) = choose|y: int, x: int|
            0 <= y < cells.len() && 0 <= x < cells[y].len() && #[trigger] cell_hit(cells, ox, oy, sx, sy, reference, y, x) == h;
        assert(is_filled(cells, y, x));
        assert(!(reference.covers(ox + sx * x, oy + sy * y) && !lands_on_filled(reference, ox + sx * x, oy + sy * y)));
    }
}

proof fn lemma_terminal_offset_fits(s: int, x: int)
    requires
        -0x8000_0000_0000_0000 <= s < 0x8000_0000_0000_0000,
        0 <= x < 0x1_0000_0000_0000_0000,
    ensures
        -0x7fff_ffff_ffff_ffff_8000_0000_0000_0000 <= s * x,
        s * x <= 0x7fff_ffff_ffff_fffe_8000_0000_0000_0001,
{
    if s >= 0 {
        assert(s * x <= 0x7fff_ffff_ffff_ffff * x) by (nonlinear_arith)
            requires 0 <= s <= 0x7fff_ffff_ffff_ffff, 0 <= x;
        assert(0x7fff_ffff_ffff_ffff * x <= 0x7fff_ffff_ffff_ffff * 0xffff_ffff_ffff_ffff) by (nonlinear_arith)
            requires 0 <= x <= 0xffff_ffff_ffff_ffff;
        assert(0 <= s * x) by (nonlinear_arith)
            requires 0 <= s, 0 <= x;
    } else {
        assert(s * x >= -0x8000_0000_0000_0000 * x) by (nonlinear_arith)
            requires -0x8000_0000_0000_0000 <= s < 0, 0 <= x;
        assert(-0x8000_0000_0000_0000 * x >= -0x8000_0000_0000_0000 * 0xffff_ffff_ffff_ffff) by (nonlinear_arith)
            requires 0 <= x <= 0xffff_ffff_ffff_ffff;
        assert(s * x <= 0) by (nonlinear_arith)
            requires s < 0, 0 <= x;
    }
}

/// Terminal coordinate `origin + scale * index`.
fn terminal_coord(origin: isize, scale: isize, index: usize) -> (r: i128)
    ensures
        r == origin + scale * index,
        r <= 0x7fff_ffff_ffff_ffff_0000_0000_0000_0000,
{
    proof {
        lemma_terminal_offset_fits(scale as int, index as int);
    }
    origin as i128 + (scale as i128) * (index as i128)
}

impl RenderableObject {
    /// Outcome for one filled cell at terminal position `(ax, ay)` when
    /// `self` stands at terminal line `oy`.
    fn filled_cell_hit(&self, ax: i128, ay: i128, oy: isize) -> (r: CollisionResult)
        requires
            self.scale.0 >= 1,
            self.scale.1 >= 1,
            ax <= 0x7fff_ffff_ffff_ffff_0000_0000_0000_0000,
            ay <= 0x7fff_ffff_ffff_ffff_0000_0000_0000_0000,
        ensures
            r == (if !self.covers(ax as int, ay as int) {
                CollisionResult::OutOfBounds
            } else if self.cells()[self.row_under(ay as int)][self.column_under(ax as int)] == FILLED {
                if oy == SPAWN_Y {
                    CollisionResult::GameOver
                } else {
                    CollisionResult::BlockCollision
                }
            } else {
                CollisionResult::NoCollision
            }),
    {
        let b: i128 = if self.is_bordered { 1 } else { 0 };
        let left: i128 = self.pos[0] as i128 + b;
        let top: i128 = self.pos[1] as i128 + 2 * b;
        if ax < left || ay < top {
            return CollisionResult::OutOfBounds;
        }
        let col: u128 = ((ax - left) as u128) / (self.scale.0 as u128);
        let row: u128 = ((ay - top) as u128) / (self.scale.1 as u128);
        assert(col == self.column_under(ax as int));
        assert(row == self.row_under(ay as int));
        if row >= self.shape.len() as u128 {
            return CollisionResult::OutOfBounds;
        }
        let line: &Vec<u8> = &self.shape[row as usize];
        assert(line@ == self.cells()[row as int]);
        if col >= line.len() as u128 {
            return CollisionResult::OutOfBounds;
        }
        if line[col as usize] == FILLED {
            if oy == SPAWN_Y {
                CollisionResult::GameOver
            } else {
                CollisionResult::BlockCollision
            }
        } else {
            CollisionResult::NoCollision
        }
    }
    /// Places `self` over `other`: every filled cell of `self` is mapped to
    /// terminal coordinates and from there into `other`'s logical cells.
    /// The first filled cell, in row-major order, that falls outside `other`
    /// gives `OutOfBounds`; one that falls on a filled cell of `other` gives
    /// `GameOver` while `self` stands at the spawn line and `BlockCollision`
    /// otherwise.
    pub fn check_collision(&self, other: &Self) -> (r: CollisionResult)
        requires
            other.scale.0 >= 1,
            other.scale.1 >= 1,
        ensures
            r == collision(*self, *other),
    {
        let ghost cells = self.cells();
        let ghost ox = self.pos[0] as int;
        let ghost oy = self.pos[1] as int;
        let ghost sx = self.scale.0 as int;
        let ghost sy = self.scale.1 as int;
        let n = self.shape.len();
        let mut y: usize = 0;
        while y < n
            invariant
                n == cells.len(),
                cells == self.cells(),
                ox == self.pos[0],
                oy == self.pos[1],
                sx == self.scale.0,
                sy == self.scale.1,
                other.scale.0 >= 1,
                other.scale.1 >= 1,
                0 <= y <= n,
                rows_hit(cells, ox, oy, sx, sy, *other, 0) == rows_hit(cells, ox, oy, sx, sy, *other, y as int),
            decreases n - y,
        {
            let line: &Vec<u8> = &self.shape[y];
            assert(line@ == cells[y as int]);
            let m = line.len();
            let mut x: usize = 0;
            while x < m
                invariant
                    n == cells.len(),
                    cells == self.cells(),
                    ox == self.pos[0],
                    oy == self.pos[1],
                    sx == self.scale.0,
                    sy == self.scale.1,
                    other.scale.0 >= 1,
                    other.scale.1 >= 1,
                    0 <= y < n,
                    line@ == cells[y as int],
                    m == line@.len(),
                    0 <= x <= m,
                    rows_hit(cells, ox, oy, sx, sy, *other, 0) == rows_hit(cells, ox, oy, sx, sy, *other, y as int),
                    row_hit(cells, ox, oy, sx, sy, *other, y as int, 0) == row_hit(cells, ox, oy, sx, sy, *other, y as int, x as int),
                decreases m - x,
            {
                if line[x] == FILLED {
                    let ax = terminal_coord(self.pos[0], self.scale.0, x);
                    let ay = terminal_coord(self.pos[1], self.scale.1, y);
                    let h = other.filled_cell_hit(ax, ay, self.pos[1]);
                    if h != CollisionResult::NoCollision {
                        return h;
                    }
                }
                x += 1;
            }
            y += 1;
        }
        CollisionResult::NoCollision
    }
    /// Removes every full row and adds as many empty rows on top, keeping
    /// the other rows in their order and the number of rows unchanged.
    pub fn check_line_fills(&mut self)
        ensures
            final(self).cells() == lines_cleared(old(self).cells()),
            old(self).wf() ==> final(self).wf(),
            final(self).pos == old(self).pos,
            final(self).scale == old(self).scale,
            final(self).is_bordered == old(self).is_bordered,
    {
        let ghost rows = self.cells();
        let n = self.shape.len();
        let width = if n > 0 {
            self.shape[0].len()
        } else {
            0
        };
        let mut kept: VecDeque<Vec<u8>> = VecDeque::new();
        let mut i: usize = 0;
        assert(rows.subrange(0, 0) =~= Seq::<Seq<u8>>::empty());
        assert(rows_of(kept) =~= Seq::<Seq<u8>>::empty());
        assert(rows_of(self.shape) =~= rows.subrange(0, n as int));
        while i < n
            invariant
                n == rows.len(),
                0 <= i <= n,
                rows_of(self.shape) == rows.subrange(i as int, n as int),
                rows_of(kept) == unfilled_rows(rows.subrange(0, i as int)),
                self.pos == old(self).pos,
                self.scale == old(self).scale,
                self.is_bordered == old(self).is_bordered,
            decreases n - i,
        {
            let ghost before = self.shape@;
            assert(rows_of(self.shape).len() > 0);
            let row = self.shape.pop_front().unwrap();
            assert(rows_of_seq(before)[0] == rows[i as int]);
            assert(row@ == rows[i as int]);
            assert(rows_of(self.shape) =~= rows_of_seq(before).drop_first());
            assert(rows_of(self.shape) =~= rows.subrange(i + 1, n as int));
            let ghost prefix = rows.subrange(0, i + 1);
            assert(prefix.drop_last() =~= rows.subrange(0, i as int));
            assert(prefix.last() == row@);
            if !is_full_row(&row) {
                let ghost k0 = rows_of(kept);
                kept.push_back(row);
                assert(rows_of(kept) =~= k0.push(row@));
            }
            i += 1;
        }
        assert(rows.subrange(0, n as int) =~= rows);
        proof {
            lemma_unfilled_rows_len(rows);
        }
        let removed = n - kept.len();
        let mut j: usize = 0;
        while j < removed
            invariant
                0 <= j <= removed,
                removed == n - unfilled_rows(rows).len(),
                rows_of(kept) == empty_rows(j as nat, width as nat) + unfilled_rows(rows),
                width == grid_width(rows),
            decreases removed - j,
        {
            let ghost k0 = rows_of(kept);
            let e = empty_row(width);
            kept.push_front(e);
            assert(rows_of(kept) =~= seq![e@] + k0);
            assert(empty_rows((j + 1) as nat, width as nat) =~= seq![e@] + empty_rows(j as nat, width as nat));
            j += 1;
        }
        self.shape = kept;
        proof {
            if old(self).wf() && rows.len() > 0 {
                lemma_unfilled_rows_shape(rows, width as int);
                assert(is_rectangular(self.cells(), width as int));
            }
        }
    }
    /// Marks filled, in `other`, every cell on which a filled cell of
    /// `self` lands. Cells of `self` that land outside `other` are passed
    /// over, and nothing checks that the cells marked were empty.
    pub fn imprint_to(&self, other: &mut Self) -> (r: &Self)
        requires
            old(other).scale.0 >= 1,
            old(other).scale.1 >= 1,
        ensures
            r == self,
            final(other).cells() == imprinted(*self, *old(other)),
            old(other).wf() ==> final(other).wf(),
            final(other).pos == old(other).pos,
            final(other).scale == old(other).scale,
            final(other).is_bordered == old(other).is_bordered,
    {
        let ghost orig = *other;
        let ghost pc = self.cells();
        let ghost ox = self.pos[0] as int;
        let ghost oy = self.pos[1] as int;
        let ghost sx = self.scale.0 as int;
        let ghost sy = self.scale.1 as int;
        let n = self.shape.len();
        let mut y: usize = 0;
        assert forall|r: int, c: int| !stamped_before(pc, ox, oy, sx, sy, orig, 0, 0, r, c) by {
            if stamped_before(pc, ox, oy, sx, sy, orig, 0, 0, r, c) {
                let (yy, xx) = choose|yy: int, xx: int|
                    (yy < 0 || (yy == 0 && xx < 0)) && #[trigger] stamps(pc, ox, oy, sx, sy, orig, yy, xx, r, c);
            }
        }
        assert(other.cells() =~~= imprinted_before(pc, ox, oy, sx, sy, orig, 0, 0));
        while y < n
            invariant
                n == self.cells().len(),
                pc == self.cells(),
                ox == self.pos[0],
                oy == self.pos[1],
                sx == self.scale.0,
                sy == self.scale.1,
                0 <= y <= n,
                other.cells() == imprinted_before(pc, ox, oy, sx, sy, orig, y as int, 0),
                other.pos == orig.pos,
                other.scale == orig.scale,
                other.is_bordered == orig.is_bordered,
                orig.scale.0 >= 1,
                orig.scale.1 >= 1,
            decreases n - y,
        {
            let line: &Vec<u8> = &self.shape[y];
            assert(line@ == self.cells()[y as int]);
            let m = line.len();
            let mut x: usize = 0;
            while x < m
                invariant
                    n == self.cells().len(),
                pc == self.cells(),
                ox == self.pos[0],
                oy == self.pos[1],
                sx == self.scale.0,
                sy == self.scale.1,
                    0 <= y < n,
                    line@ == self.cells()[y as int],
                    m == line@.len(),
                    0 <= x <= m,
                    other.cells() == imprinted_before(pc, ox, oy, sx, sy, orig, y as int, x as int),
                    other.pos == orig.pos,
                    other.scale == orig.scale,
                    other.is_bordered == orig.is_bordered,
                    orig.scale.0 >= 1,
                    orig.scale.1 >= 1,
                decreases m - x,
            {
                let ghost cur = other.cells();
                if line[x] == FILLED {
                    let ax = terminal_coord(self.pos[0], self.scale.0, x);
                    let ay = terminal_coord(self.pos[1], self.scale.1, y);
                    let spot = other.cell_under(ax, ay);
                    match spot {
                        Some((row, col)) => {
                            fill_cell(&mut other.shape, row, col);
                            assert(stamps(pc, ox, oy, sx, sy, orig, y as int, x as int, row as int, col as int));
                            assert forall|r: int, c: int|
                                stamped_before(pc, ox, oy, sx, sy, orig, y as int, x + 1, r, c) == (stamped_before(pc, ox, oy, sx, sy, orig,
                                    y as int,
                                    x as int,
                                    r,
                                    c,
                                ) || (r == row && c == col)) by {
                                if stamped_before(pc, ox, oy, sx, sy, orig, y as int, x + 1, r, c) {
                                    let (yy, xx) = choose|yy: int, xx: int|
                                        (yy < y || (yy == y && xx < x + 1)) && #[trigger] stamps(pc, ox, oy, sx, sy, orig, yy, xx, r, c);
                                    if !(yy < y || (yy == y && xx < x)) {
                                        assert(yy == y && xx == x);
                                    }
                                }
                                if r == row && c == col {
                                    assert(stamps(pc, ox, oy, sx, sy, orig, y as int, x as int, r, c));
                                }
                            }
                            assert(other.cells() =~~= imprinted_before(pc, ox, oy, sx, sy, orig, y as int, x + 1));
                        },
                        None => {
                            assert forall|r: int, c: int|
                                stamped_before(pc, ox, oy, sx, sy, orig, y as int, x + 1, r, c) == stamped_before(pc, ox, oy, sx, sy, orig,
                                    y as int,
                                    x as int,
                                    r,
                                    c,
                                ) by {
                                if stamped_before(pc, ox, oy, sx, sy, orig, y as int, x + 1, r, c) {
                                    let (yy, xx) = choose|yy: int, xx: int|
                                        (yy < y || (yy == y && xx < x + 1)) && #[trigger] stamps(pc, ox, oy, sx, sy, orig, yy, xx, r, c);
                                    if !(yy < y || (yy == y && xx < x)) {
                                        assert(yy == y && xx == x);
                                    }
                                }
                            }
                            assert(other.cells() =~~= imprinted_before(pc, ox, oy, sx, sy, orig, y as int, x + 1));
                        },
                    }
                } else {
                    assert forall|r: int, c: int|
                        stamped_before(pc, ox, oy, sx, sy, orig, y as int, x + 1, r, c) == stamped_before(pc, ox, oy, sx, sy, orig,
                            y as int,
                            x as int,
                            r,
                            c,
                        ) by {
                        if stamped_before(pc, ox, oy, sx, sy, orig, y as int, x + 1, r, c) {
                            let (yy, xx) = choose|yy: int, xx: int|
                                (yy < y || (yy == y && xx < x + 1)) && #[trigger] stamps(pc, ox, oy, sx, sy, orig, yy, xx, r, c);
                            if !(yy < y || (yy == y && xx < x)) {
                                assert(yy == y && xx == x);
                            }
                        }
                    }
                    assert(other.cells() =~~= imprinted_before(pc, ox, oy, sx, sy, orig, y as int, x + 1));
                }
                x += 1;
            }
            assert forall|r: int, c: int|
                stamped_before(pc, ox, oy, sx, sy, orig, y + 1, 0, r, c) == stamped_before(pc, ox, oy, sx, sy, orig, y as int, m as int, r, c) by {
                if stamped_before(pc, ox, oy, sx, sy, orig, y + 1, 0, r, c) {
                    let (yy, xx) = choose|yy: int, xx: int|
                        (yy < y + 1 || (yy == y + 1 && xx < 0)) && #[trigger] stamps(pc, ox, oy, sx, sy, orig, yy, xx, r, c);
                    assert(yy < y || (yy == y && xx < m));
                }
                if stamped_before(pc, ox, oy, sx, sy, orig, y as int, m as int, r, c) {
                    let (yy, xx) = choose|yy: int, xx: int|
                        (yy < y || (yy == y && xx < m)) && #[trigger] stamps(pc, ox, oy, sx, sy, orig, yy, xx, r, c);
                    assert(yy < y + 1 || (yy == y + 1 && xx < 0));
                }
            }
            assert(other.cells() =~~= imprinted_before(pc, ox, oy, sx, sy, orig, y + 1, 0));
            y += 1;
        }
        assert forall|r: int, c: int|
            stamped_before(pc, ox, oy, sx, sy, orig, n as int, 0, r, c) == stamped(pc, ox, oy, sx, sy, orig, r, c) by {
            if stamped(pc, ox, oy, sx, sy, orig, r, c) {
                let (yy, xx) = choose|yy: int, xx: int| #[trigger] stamps(pc, ox, oy, sx, sy, orig, yy, xx, r, c);
                assert(yy < n);
            }
        }
        assert(other.cells() =~~= imprinted(*self, orig));
        self
    }

    /// The logical cell `(row, column)` under terminal cell `(ax, ay)`, if
    /// there is one.
    fn cell_under(&self, ax: i128, ay: i128) -> (r: Option<(usize, usize)>)
        requires
            self.scale.0 >= 1,
            self.scale.1 >= 1,
            ax <= 0x7fff_ffff_ffff_ffff_0000_0000_0000_0000,
            ay <= 0x7fff_ffff_ffff_ffff_0000_0000_0000_0000,
        ensures
            match r {
                Some((row, col)) => {
                    &&& self.covers(ax as int, ay as int)
                    &&& row == self.row_under(ay as int)
                    &&& col == self.column_under(ax as int)
                },
                None => !self.covers(ax as int, ay as int),
            },
    {
        let b: i128 = if self.is_bordered { 1 } else { 0 };
        let left: i128 = self.pos[0] as i128 + b;
        let top: i128 = self.pos[1] as i128 + 2 * b;
        if ax < left || ay < top {
            return None;
        }
        let col: u128 = ((ax - left) as u128) / (self.scale.0 as u128);
        let row: u128 = ((ay - top) as u128) / (self.scale.1 as u128);
        if row >= self.shape.len() as u128 {
            return None;
        }
        let line: &Vec<u8> = &self.shape[row as usize];
        assert(line@ == self.cells()[row as int]);
        if col >= line.len() as u128 {
            return None;
        }
        Some((row as usize, col as usize))
    }
}

} // verus!
