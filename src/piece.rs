//! The falling piece: a small grid with a rotation pivot that moves and
//! turns over the playfield, undoing any move that does not fit.

use crate::grid::{
    empty_row, fill_cell, is_filled, placement_hit, rows_of, CollisionResult, RenderableObject, EMPTY, FILLED, SPAWN_Y,
};
use std::collections::VecDeque;
use vstd::prelude::*;

verus! {

/// A piece: its grid and its pivot, stored doubled so that a pivot in
/// the middle of a cell needs no fraction.
#[derive(Debug)]
pub struct Block {
    pub obj: RenderableObject,
    pub pivot: [usize; 2],
}

/// `v` can be held in an `isize`.
pub open spec fn fits_isize(v: int) -> bool {
    isize::MIN <= v <= isize::MAX
}

/// Terminal column at which pieces of a playfield drawn from column
/// `offset` with horizontal scale `scale0` appear.
pub open spec fn spawn_x(scale0: int, offset: int) -> int {
    3 * scale0 + 1 + offset
}

/// `a` and `b` are the same piece: same cells, place, scale, border and
/// pivot.
pub open spec fn same_block(a: Block, b: Block) -> bool {
    &&& a.obj.cells() == b.obj.cells()
    &&& a.obj.pos == b.obj.pos
    &&& a.obj.scale == b.obj.scale
    &&& a.obj.is_bordered == b.obj.is_bordered
    &&& a.pivot == b.pivot
}

/// `after` and outcome `r` are what moving `before` by `(dx, dy)` over
/// `board` gives: the move is kept when it meets nothing and undone
/// otherwise; a place that an `isize` cannot hold is out of bounds.
pub open spec fn translation(
    before: Block,
    after: Block,
    r: CollisionResult,
    dx: int,
    dy: int,
    board: RenderableObject,
) -> bool {
    let tx = before.obj.pos[0] + dx;
    let ty = before.obj.pos[1] + dy;
    if fits_isize(tx) && fits_isize(ty) {
        &&& r == placement_hit(
            before.obj.cells(),
            tx,
            ty,
            before.obj.scale.0 as int,
            before.obj.scale.1 as int,
            board,
        )
        &&& if r == CollisionResult::NoCollision {
            &&& after.obj.pos[0] == tx
            &&& after.obj.pos[1] == ty
            &&& after.obj.shape == before.obj.shape
            &&& after.obj.scale == before.obj.scale
            &&& after.obj.is_bordered == before.obj.is_bordered
            &&& after.pivot == before.pivot
        } else {
            after == before
        }
    } else {
        r == CollisionResult::OutOfBounds && after == before
    }
}

/// Doubled column to which source cell `(x, y)` goes when turned a
/// quarter about doubled pivot `pivot`: clockwise for `d == 1`,
/// counter-clockwise for `d == -1`.
pub open spec fn turn_col2(pivot: [usize; 2], d: int, x: int, y: int) -> int {
    if d == 1 {
        pivot[0] + (pivot[1] - 2 * y)
    } else {
        pivot[0] - (pivot[1] - 2 * y)
    }
}

/// Doubled row to which source cell `(x, y)` goes in the same turn.
pub open spec fn turn_row2(pivot: [usize; 2], d: int, x: int, y: int) -> int {
    if d == 1 {
        pivot[1] + (2 * x - pivot[0])
    } else {
        pivot[1] - (2 * x - pivot[0])
    }
}

/// Source cell `(x, y)` goes to a cell of the 4 x 4 frame.
pub open spec fn turn_lands(pivot: [usize; 2], d: int, x: int, y: int) -> bool {
    &&& 0 <= turn_col2(pivot, d, x, y) < 8
    &&& 0 <= turn_row2(pivot, d, x, y) < 8
}

/// Every filled cell of `cells` goes to a cell of the 4 x 4 frame.
pub open spec fn turn_fits(cells: Seq<Seq<u8>>, pivot: [usize; 2], d: int) -> bool {
    forall|y: int, x: int| #[trigger] is_filled(cells, y, x) ==> turn_lands(pivot, d, x, y)
}

/// Filled cell `(x, y)` of `cells` goes to cell `(c, r)`.
pub open spec fn turns_onto(cells: Seq<Seq<u8>>, pivot: [usize; 2], d: int, y: int, x: int, r: int, c: int) -> bool {
    &&& is_filled(cells, y, x)
    &&& turn_row2(pivot, d, x, y) / 2 == r
    &&& turn_col2(pivot, d, x, y) / 2 == c
}

/// Some filled cell of `cells` before `(y0, x0)`, in row-major order,
/// goes to cell `(c, r)`.
pub open spec fn reaches_before(cells: Seq<Seq<u8>>, pivot: [usize; 2], d: int, y0: int, x0: int, r: int, c: int) -> bool {
    exists|y: int, x: int| (y < y0 || (y == y0 && x < x0)) && #[trigger] turns_onto(cells, pivot, d, y, x, r, c)
}

/// Some filled cell of `cells` goes to cell `(c, r)`.
pub open spec fn reaches(cells: Seq<Seq<u8>>, pivot: [usize; 2], d: int, r: int, c: int) -> bool {
    exists|y: int, x: int| #[trigger] turns_onto(cells, pivot, d, y, x, r, c)
}

/// The 4 x 4 frame with every cell to which a filled cell of `cells`
/// before `(y0, x0)`, in row-major order, goes marked filled.
pub open spec fn turned_before(cells: Seq<Seq<u8>>, pivot: [usize; 2], d: int, y0: int, x0: int) -> Seq<Seq<u8>> {
    Seq::new(
        4,
        |r: int|
            Seq::new(
                4,
                |c: int|
                    if reaches_before(cells, pivot, d, y0, x0, r, c) {
                        FILLED
                    } else {
                        EMPTY
                    },
            ),
    )
}

/// The 4 x 4 frame that turning `cells` a quarter about `pivot` gives.
pub open spec fn turned(cells: Seq<Seq<u8>>, pivot: [usize; 2], d: int) -> Seq<Seq<u8>> {
    Seq::new(
        4,
        |r: int|
            Seq::new(
                4,
                |c: int|
                    if reaches(cells, pivot, d, r, c) {
                        FILLED
                    } else {
                        EMPTY
                    },
            ),
    )
}

/// `after` and outcome `r` are what turning `before` a quarter in
/// direction `d` over `board` gives: a shape that leaves its frame is out
/// of bounds, and a turned shape that meets anything is turned back.
pub open spec fn rotation(before: Block, after: Block, r: CollisionResult, d: int, board: RenderableObject) -> bool {
    let cells = before.obj.cells();
    if !turn_fits(cells, before.pivot, d) {
        r == CollisionResult::OutOfBounds && after == before
    } else {
        &&& r == placement_hit(
            turned(cells, before.pivot, d),
            before.obj.pos[0] as int,
            before.obj.pos[1] as int,
            before.obj.scale.0 as int,
            before.obj.scale.1 as int,
            board,
        )
        &&& if r == CollisionResult::NoCollision {
            &&& after.obj.cells() == turned(cells, before.pivot, d)
            &&& after.obj.pos == before.obj.pos
            &&& after.obj.scale == before.obj.scale
            &&& after.obj.is_bordered == before.obj.is_bordered
            &&& after.pivot == before.pivot
        } else {
            after == before
        }
    }
}

/// The shape `shape` turned a quarter about `pivot`, if every filled cell
/// stays in the 4 x 4 frame.
fn turned_shape(shape: &VecDeque<Vec<u8>>, pivot: [usize; 2], d: isize) -> (r: Option<VecDeque<Vec<u8>>>)
    requires
        d == 1 || d == -1,
    ensures
        match r {
            None => !turn_fits(rows_of(*shape), pivot, d as int),
            Some(s) => turn_fits(rows_of(*shape), pivot, d as int) && rows_of(s) == turned(
                rows_of(*shape),
                pivot,
                d as int,
            ),
        },
{
    let ghost cells = rows_of(*shape);
    let ghost dd = d as int;
    let mut out: VecDeque<Vec<u8>> = VecDeque::new();
    let mut k: usize = 0;
    while k < 4
        invariant
            0 <= k <= 4,
            rows_of(out).len() == k,
            forall|i: int| 0 <= i < k ==> #[trigger] rows_of(out)[i] == Seq::new(4, |c: int| EMPTY),
        decreases 4 - k,
    {
        let ghost o0 = rows_of(out);
        out.push_back(empty_row(4));
        assert(rows_of(out) =~= o0.push(Seq::new(4, |c: int| EMPTY)));
        k += 1;
    }
    assert forall|r: int, c: int| !reaches_before(cells, pivot, dd, 0, 0, r, c) by {
        if reaches_before(cells, pivot, dd, 0, 0, r, c) {
            let (y, x) = choose|y: int, x: int|
                (y < 0 || (y == 0 && x < 0)) && #[trigger] turns_onto(cells, pivot, dd, y, x, r, c);
        }
    }
    assert(rows_of(out) =~~= turned_before(cells, pivot, dd, 0, 0));
    let p0 = pivot[0] as i128;
    let p1 = pivot[1] as i128;
    let n = shape.len();
    let mut y: usize = 0;
    while y < n
        invariant
            n == cells.len(),
            cells == rows_of(*shape),
            dd == d,
            d == 1 || d == -1,
            p0 == pivot[0],
            p1 == pivot[1],
            0 <= y <= n,
            rows_of(out) == turned_before(cells, pivot, dd, y as int, 0),
            forall|yy: int, xx: int| yy < y && #[trigger] is_filled(cells, yy, xx) ==> turn_lands(pivot, dd, xx, yy),
        decreases n - y,
    {
        let line: &Vec<u8> = &shape[y];
        assert(line@ == cells[y as int]);
        let m = line.len();
        let mut x: usize = 0;
        while x < m
            invariant
                n == cells.len(),
                cells == rows_of(*shape),
                dd == d,
                d == 1 || d == -1,
                p0 == pivot[0],
                p1 == pivot[1],
                0 <= y < n,
                line@ == cells[y as int],
                m == line@.len(),
                0 <= x <= m,
                rows_of(out) == turned_before(cells, pivot, dd, y as int, x as int),
                forall|yy: int, xx: int|
                    (yy < y || (yy == y && xx < x)) && #[trigger] is_filled(cells, yy, xx) ==> turn_lands(
                        pivot,
                        dd,
                        xx,
                        yy,
                    ),
            decreases m - x,
        {
            if line[x] == FILLED {
                let yi = y as i128;
                let xi = x as i128;
                let c2: i128 = if d == 1 {
                    p0 + (p1 - 2 * yi)
                } else {
                    p0 - (p1 - 2 * yi)
                };
                let r2: i128 = if d == 1 {
                    p1 + (2 * xi - p0)
                } else {
                    p1 - (2 * xi - p0)
                };
                assert(c2 == turn_col2(pivot, dd, x as int, y as int));
                assert(r2 == turn_row2(pivot, dd, x as int, y as int));
                assert(is_filled(cells, y as int, x as int));
                if c2 < 0 || c2 >= 8 || r2 < 0 || r2 >= 8 {
                    return None;
                }
                let row = (r2 / 2) as usize;
                let col = (c2 / 2) as usize;
                fill_cell(&mut out, row, col);
                assert(turns_onto(cells, pivot, dd, y as int, x as int, row as int, col as int));
                assert forall|r: int, c: int|
                                        reaches_before(cells, pivot, dd, y as int, x + 1, r, c)
                        == (reaches_before(cells, pivot, dd, y as int, x as int, r, c)
                        || (r == row && c == col)) by {
                    if reaches_before(cells, pivot, dd, y as int, x + 1, r, c) {
                        let (yy, xx) = choose|yy: int, xx: int|
                            (yy < y || (yy == y && xx < x + 1)) && #[trigger] turns_onto(cells, pivot, dd, yy, xx, r, c);
                        if !(yy < y || (yy == y && xx < x)) {
                            assert(yy == y && xx == x);
                        }
                    }
                    if r == row && c == col {
                        assert(turns_onto(cells, pivot, dd, y as int, x as int, r, c));
                    }
                }
                assert(rows_of(out) =~~= turned_before(cells, pivot, dd, y as int, x + 1));
            } else {
                assert forall|r: int, c: int|
                                        reaches_before(cells, pivot, dd, y as int, x + 1, r, c)
                        == reaches_before(cells, pivot, dd, y as int, x as int, r, c) by {
                    if reaches_before(cells, pivot, dd, y as int, x + 1, r, c) {
                        let (yy, xx) = choose|yy: int, xx: int|
                            (yy < y || (yy == y && xx < x + 1)) && #[trigger] turns_onto(cells, pivot, dd, yy, xx, r, c);
                        if !(yy < y || (yy == y && xx < x)) {
                            assert(yy == y && xx == x);
                        }
                    }
                }
                assert(rows_of(out) =~~= turned_before(cells, pivot, dd, y as int, x + 1));
            }
            x += 1;
        }
        assert forall|r: int, c: int|
                        reaches_before(cells, pivot, dd, y + 1, 0, r, c)
                == reaches_before(cells, pivot, dd, y as int, m as int, r, c) by {
            if reaches_before(cells, pivot, dd, y as int, m as int, r, c) {
                let (yy, xx) = choose|yy: int, xx: int|
                    (yy < y || (yy == y && xx < m)) && #[trigger] turns_onto(cells, pivot, dd, yy, xx, r, c);
                assert(yy < y + 1 || (yy == y + 1 && xx < 0));
            }
            if reaches_before(cells, pivot, dd, y + 1, 0, r, c) {
                let (yy, xx) = choose|yy: int, xx: int|
                    (yy < y + 1 || (yy == y + 1 && xx < 0)) && #[trigger] turns_onto(cells, pivot, dd, yy, xx, r, c);
                assert(yy < y || (yy == y && xx < m));
            }
        }
        assert(rows_of(out) =~~= turned_before(cells, pivot, dd, y + 1, 0));
        y += 1;
    }
    assert forall|r: int, c: int|
                reaches_before(cells, pivot, dd, n as int, 0, r, c) == reaches(cells, pivot, dd, r, c) by {
        if reaches(cells, pivot, dd, r, c) {
            let (yy, xx) = choose|yy: int, xx: int| #[trigger] turns_onto(cells, pivot, dd, yy, xx, r, c);
            assert(yy < n);
        }
    }
    assert(rows_of(out) =~~= turned(cells, pivot, dd));
    Some(out)
}

/// A 4 x 4 frame of empty and filled cells.
pub open spec fn is_frame(cells: Seq<Seq<u8>>) -> bool {
    &&& cells.len() == 4
    &&& forall|r: int| 0 <= r < 4 ==> (#[trigger] cells[r]).len() == 4
    &&& forall|r: int, c: int| 0 <= r < 4 && 0 <= c < 4 ==> (#[trigger] cells[r][c] == EMPTY || cells[r][c] == FILLED)
}

/// Column to which source cell `(x, y)` goes.
pub open spec fn turn_x(pivot: [usize; 2], d: int, x: int, y: int) -> int {
    turn_col2(pivot, d, x, y) / 2
}

/// Row to which source cell `(x, y)` goes.
pub open spec fn turn_y(pivot: [usize; 2], d: int, x: int, y: int) -> int {
    turn_row2(pivot, d, x, y) / 2
}

proof fn lemma_turn_forward(cells: Seq<Seq<u8>>, pivot: [usize; 2], d: int, x: int, y: int)
    requires
        is_filled(cells, y, x),
        turn_fits(cells, pivot, d),
    ensures
        is_filled(turned(cells, pivot, d), turn_y(pivot, d, x, y), turn_x(pivot, d, x, y)),
{
    assert(turn_lands(pivot, d, x, y));
    let r = turn_y(pivot, d, x, y);
    let c = turn_x(pivot, d, x, y);
    assert(turns_onto(cells, pivot, d, y, x, r, c));
    assert(reaches(cells, pivot, d, r, c));
}

proof fn lemma_quarter_exact(pivot: [usize; 2], d: int, x: int, y: int)
    requires
        d == 1 || d == -1,
        (pivot[0] + pivot[1]) % 2 == 0,
    ensures
        2 * turn_x(pivot, d, x, y) == turn_col2(pivot, d, x, y),
        2 * turn_y(pivot, d, x, y) == turn_row2(pivot, d, x, y),
{
}

proof fn lemma_four_quarters(pivot: [usize; 2], d: int, x: int, y: int)
    requires
        d == 1 || d == -1,
        (pivot[0] + pivot[1]) % 2 == 0,
    ensures
        ({
            let x1 = turn_x(pivot, d, x, y);
            let y1 = turn_y(pivot, d, x, y);
            let x2 = turn_x(pivot, d, x1, y1);
            let y2 = turn_y(pivot, d, x1, y1);
            let x3 = turn_x(pivot, d, x2, y2);
            let y3 = turn_y(pivot, d, x2, y2);
            turn_x(pivot, d, x3, y3) == x && turn_y(pivot, d, x3, y3) == y
        }),
{
    let x1 = turn_x(pivot, d, x, y);
    let y1 = turn_y(pivot, d, x, y);
    let x2 = turn_x(pivot, d, x1, y1);
    let y2 = turn_y(pivot, d, x1, y1);
    let x3 = turn_x(pivot, d, x2, y2);
    let y3 = turn_y(pivot, d, x2, y2);
    lemma_quarter_exact(pivot, d, x, y);
    lemma_quarter_exact(pivot, d, x1, y1);
    lemma_quarter_exact(pivot, d, x2, y2);
    lemma_quarter_exact(pivot, d, x3, y3);
}

/// Turning a 4 x 4 shape a quarter four times in the same direction gives
/// the shape back, when the pivot's doubled coordinates have the same
/// parity (so that every cell goes to a whole cell) and no turn takes a
/// filled cell out of the frame.
pub proof fn lemma_four_turns(cells: Seq<Seq<u8>>, pivot: [usize; 2], d: int)
    requires
        is_frame(cells),
        d == 1 || d == -1,
        (pivot[0] + pivot[1]) % 2 == 0,
        turn_fits(cells, pivot, d),
        turn_fits(turned(cells, pivot, d), pivot, d),
        turn_fits(turned(turned(cells, pivot, d), pivot, d), pivot, d),
        turn_fits(turned(turned(turned(cells, pivot, d), pivot, d), pivot, d), pivot, d),
    ensures
        turned(turned(turned(turned(cells, pivot, d), pivot, d), pivot, d), pivot, d) == cells,
{
    let t1 = turned(cells, pivot, d);
    let t2 = turned(t1, pivot, d);
    let t3 = turned(t2, pivot, d);
    let t4 = turned(t3, pivot, d);
    assert forall|r: int, c: int| 0 <= r < 4 && 0 <= c < 4 implies #[trigger] t4[r][c] == cells[r][c] by {
        if cells[r][c] == FILLED {
            lemma_turn_forward(cells, pivot, d, c, r);
            let x1 = turn_x(pivot, d, c, r);
            let y1 = turn_y(pivot, d, c, r);
            lemma_turn_forward(t1, pivot, d, x1, y1);
            let x2 = turn_x(pivot, d, x1, y1);
            let y2 = turn_y(pivot, d, x1, y1);
            lemma_turn_forward(t2, pivot, d, x2, y2);
            let x3 = turn_x(pivot, d, x2, y2);
            let y3 = turn_y(pivot, d, x2, y2);
            lemma_turn_forward(t3, pivot, d, x3, y3);
            lemma_four_quarters(pivot, d, c, r);
        }
        if t4[r][c] == FILLED {
            assert(reaches(t3, pivot, d, r, c));
            let (y3, x3) = choose|y: int, x: int| #[trigger] turns_onto(t3, pivot, d, y, x, r, c);
            assert(reaches(t2, pivot, d, y3, x3));
            let (y2, x2) = choose|y: int, x: int| #[trigger] turns_onto(t2, pivot, d, y, x, y3, x3);
            assert(reaches(t1, pivot, d, y2, x2));
            let (y1, x1) = choose|y: int, x: int| #[trigger] turns_onto(t1, pivot, d, y, x, y2, x2);
            assert(reaches(cells, pivot, d, y1, x1));
            let (y0, x0) = choose|y: int, x: int| #[trigger] turns_onto(cells, pivot, d, y, x, y1, x1);
            lemma_four_quarters(pivot, d, x0, y0);
        }
    }
    assert(t4 =~~= cells);
}

/// How far, in terminal lines, rows `cells` at `(x, y)` with scale
/// `(sx, sy)` fall over `board` one line at a time before the next line
/// down meets something.
pub open spec fn fall_distance(cells: Seq<Seq<u8>>, x: int, y: int, sx: int, sy: int, board: RenderableObject) -> int
    decreases isize::MAX - y,
{
    if y + 1 > isize::MAX || placement_hit(cells, x, y + 1, sx, sy, board) != CollisionResult::NoCollision {
        0
    } else {
        1 + fall_distance(cells, x, y + 1, sx, sy, board)
    }
}

/// How far `b` falls over `board`.
pub open spec fn drop_distance(b: Block, board: RenderableObject) -> int {
    fall_distance(
        b.obj.cells(),
        b.obj.pos[0] as int,
        b.obj.pos[1] as int,
        b.obj.scale.0 as int,
        b.obj.scale.1 as int,
        board,
    )
}

/// Relies on rand::thread_rng and rand::Rng::gen_range: a number drawn
/// from `0..n`, which is not empty.
#[verifier::external_body]
pub(crate) fn random_below(n: usize) -> (r: usize)
    requires
        n > 0,
    ensures
        r < n,
{
    rand::Rng::gen_range(&mut rand::thread_rng(), 0..n)
}

fn copy_row(row: &Vec<u8>) -> (r: Vec<u8>)
    ensures
        r@ == row@,
{
    let mut r: Vec<u8> = Vec::new();
    while r.len() < row.len()
        invariant
            r@.len() <= row@.len(),
            r@ == row@.subrange(0, r@.len() as int),
        decreases row@.len() - r@.len(),
    {
        r.push(row[r.len()]);
        assert(r@ =~= row@.subrange(0, r@.len() as int));
    }
    assert(r@ =~= row@);
    r
}

pub(crate) fn copy_rows(shape: &VecDeque<Vec<u8>>) -> (r: VecDeque<Vec<u8>>)
    ensures
        rows_of(r) == rows_of(*shape),
{
    let mut r: VecDeque<Vec<u8>> = VecDeque::new();
    let n = shape.len();
    let mut i: usize = 0;
    assert(rows_of(r) =~= rows_of(*shape).subrange(0, 0));
    while i < n
        invariant
            n == rows_of(*shape).len(),
            0 <= i <= n,
            rows_of(r) == rows_of(*shape).subrange(0, i as int),
        decreases n - i,
    {
        let ghost r0 = rows_of(r);
        let row = copy_row(&shape[i]);
        r.push_back(row);
        assert(rows_of(r) =~= r0.push(row@));
        assert(rows_of(r) =~= rows_of(*shape).subrange(0, i + 1));
        i += 1;
    }
    assert(rows_of(*shape).subrange(0, n as int) =~= rows_of(*shape));
    r
}

impl RenderableObject {
    /// A separate object with the same cells, place, scale and border.
    pub fn duplicate(&self) -> (r: Self)
        ensures
            r.cells() == self.cells(),
            r.pos == self.pos,
            r.scale == self.scale,
            r.is_bordered == self.is_bordered,
    {
        RenderableObject { pos: self.pos, shape: copy_rows(&self.shape), scale: self.scale, is_bordered: self.is_bordered }
    }
}

impl Block {
    /// A piece with rows `shape` and doubled pivot `pivot`, standing at the
    /// spawn place of a playfield drawn from column `offset`.
    pub fn new(shape: Vec<Vec<u8>>, pivot: [usize; 2], scale: (isize, isize), offset: isize) -> (r: Self)
        requires
            fits_isize(spawn_x(scale.0 as int, offset as int)),
        ensures
            r.obj.cells() == shape@.map_values(|row: Vec<u8>| row@),
            r.obj.pos[0] == spawn_x(scale.0 as int, offset as int),
            r.obj.pos[1] == SPAWN_Y,
            r.obj.scale == scale,
            !r.obj.is_bordered,
            r.pivot == pivot,
    {
        let ghost rows = shape@.map_values(|row: Vec<u8>| row@);
        let n = shape.len();
        let mut shape = shape;
        let mut rows_deque: VecDeque<Vec<u8>> = VecDeque::new();
        assert(rows_of(rows_deque) =~= rows.subrange(n as int, n as int));
        while shape.len() > 0
            invariant
                n == rows.len(),
                shape@.len() <= n,
                shape@.map_values(|row: Vec<u8>| row@) == rows.subrange(0, shape@.len() as int),
                rows_of(rows_deque) == rows.subrange(shape@.len() as int, n as int),
            decreases shape@.len(),
        {
            let ghost k = shape@.len();
            let ghost d0 = rows_of(rows_deque);
            let ghost before = shape@;
            let row = shape.pop().unwrap();
            assert(before.map_values(|row: Vec<u8>| row@)[k - 1] == before[k - 1]@);
            assert(row@ == rows[k - 1]);
            rows_deque.push_front(row);
            assert(rows_of(rows_deque) =~= seq![row@] + d0);
            assert(rows_of(rows_deque) =~= rows.subrange(k - 1, n as int));
            assert(shape@.map_values(|row: Vec<u8>| row@) =~= rows.subrange(0, k - 1));
        }
        assert(rows.subrange(0, n as int) =~= rows);
        let x = (3 * (scale.0 as i128) + 1 + offset as i128) as isize;
        let obj = RenderableObject::new([x, SPAWN_Y], rows_deque, scale, false);
        Block { obj, pivot }
    }

    /// A separate piece equal to this one.
    pub fn duplicate(&self) -> (r: Self)
        ensures
            same_block(r, *self),
    {
        Block { obj: self.obj.duplicate(), pivot: self.pivot }
    }

    /// A fresh copy of one of the seven templates, picked at random.
    pub fn new_random(defs: &[Block; 7]) -> (r: Self)
        ensures
            exists|i: int| 0 <= i < 7 && same_block(r, #[trigger] defs[i]),
    {
        let i = random_below(7);
        let r = defs[i].duplicate();
        assert(same_block(r, defs[i as int]));
        r
    }

    /// Moves the piece by `(x, y)` terminal cells; if it then leaves the
    /// playfield or meets a filled cell, the move is undone and the
    /// outcome returned.
    pub fn mov(&mut self, x: isize, y: isize, playfield: &RenderableObject) -> (r: CollisionResult)
        requires
            playfield.scale.0 >= 1,
            playfield.scale.1 >= 1,
        ensures
            translation(*old(self), *final(self), r, x as int, y as int, *playfield),
    {
        let nx = match self.obj.pos[0].checked_add(x) {
            Some(v) => v,
            None => return CollisionResult::OutOfBounds,
        };
        let ny = match self.obj.pos[1].checked_add(y) {
            Some(v) => v,
            None => return CollisionResult::OutOfBounds,
        };
        let old_pos = self.obj.pos;
        self.obj.pos = [nx, ny];
        let collision = self.obj.check_collision(playfield);
        if collision != CollisionResult::NoCollision {
            self.obj.pos = old_pos;
        }
        collision
    }
    /// Turns the piece a quarter about its pivot, clockwise for
    /// `direction == 1` and counter-clockwise for `direction == -1`. A turn
    /// that takes a filled cell out of the 4 x 4 frame, or that leaves the
    /// playfield or meets a filled cell, is undone and its outcome
    /// returned. No other place is tried.
    pub fn rotate(&mut self, direction: isize, playfield: &RenderableObject) -> (r: CollisionResult)
        requires
            direction == 1 || direction == -1,
            playfield.scale.0 >= 1,
            playfield.scale.1 >= 1,
        ensures
            rotation(*old(self), *final(self), r, direction as int, *playfield),
    {
        match turned_shape(&self.obj.shape, self.pivot, direction) {
            None => CollisionResult::OutOfBounds,
            Some(new_shape) => {
                let mut shape = new_shape;
                std::mem::swap(&mut self.obj.shape, &mut shape);
                let collision = self.obj.check_collision(playfield);
                if collision != CollisionResult::NoCollision {
                    std::mem::swap(&mut self.obj.shape, &mut shape);
                }
                collision
            },
        }
    }
    /// Lets the piece fall one terminal line at a time until the next line
    /// down would meet something.
    pub fn drop_to_rest(&mut self, playfield: &RenderableObject)
        requires
            playfield.scale.0 >= 1,
            playfield.scale.1 >= 1,
        ensures
            final(self).obj.pos[1] == old(self).obj.pos[1] + drop_distance(*old(self), *playfield),
            final(self).obj.pos[0] == old(self).obj.pos[0],
            final(self).obj.shape == old(self).obj.shape,
            final(self).obj.scale == old(self).obj.scale,
            final(self).obj.is_bordered == old(self).obj.is_bordered,
            final(self).pivot == old(self).pivot,
    {
        let ghost target = old(self).obj.pos[1] + drop_distance(*old(self), *playfield);
        let mut falling = true;
        while falling
            invariant
                playfield.scale.0 >= 1,
                playfield.scale.1 >= 1,
                self.obj.pos[1] + drop_distance(*self, *playfield) == target,
                !falling ==> drop_distance(*self, *playfield) == 0,
                self.obj.pos[0] == old(self).obj.pos[0],
                self.obj.shape == old(self).obj.shape,
                self.obj.scale == old(self).obj.scale,
                self.obj.is_bordered == old(self).obj.is_bordered,
                self.pivot == old(self).pivot,
            decreases isize::MAX - self.obj.pos[1] + (if falling { 1int } else { 0int }),
        {
            let r = self.mov(0, 1, playfield);
            if r != CollisionResult::NoCollision {
                falling = false;
            }
        }
    }
}

/// Moving a piece by a vector and then by its opposite puts it back where
/// it was when both moves went through; a move that was blocked leaves the
/// piece as it was.
pub proof fn lemma_translate_inverse(
    b0: Block,
    b1: Block,
    b2: Block,
    r1: CollisionResult,
    r2: CollisionResult,
    dx: int,
    dy: int,
    board: RenderableObject,
)
    requires
        translation(b0, b1, r1, dx, dy, board),
        translation(b1, b2, r2, -dx, -dy, board),
    ensures
        r1 != CollisionResult::NoCollision ==> b1 == b0,
        r1 == CollisionResult::NoCollision && r2 == CollisionResult::NoCollision ==> b2 == b0,
{
    if r1 == CollisionResult::NoCollision && r2 == CollisionResult::NoCollision {
        assert(b2.obj.pos@ =~= b0.obj.pos@);
        assert(b2.obj.pos == b0.obj.pos);
        assert(b2.obj == b0.obj);
    }
}

} // verus!
