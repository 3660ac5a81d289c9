use vstd::prelude::*;

verus! {

/// The value of one cell, on the solution grid or on the visible board.
///
/// The solution grid holds only `Mine` and `Number` cells; the visible board
/// starts all `Unknown` and moves through the player-facing states.
#[derive(Copy, Clone, PartialEq, Eq, Structural, Debug)]
pub enum Element {
    Flag,
    Number(u8),
    Explosion,
    QuestionMark,
    Mine,
    Unknown,
}

/// Mathematical view of a grid: the sequence of its rows' contents.
pub open spec fn grid_view(b: &Vec<Vec<Element>>) -> Seq<Seq<Element>> {
    Seq::new(b@.len(), |i: int| b@[i]@)
}

/// A square grid: every row is as long as the column of rows.
pub open spec fn square(g: Seq<Seq<Element>>) -> bool {
    forall|y: int| 0 <= y < g.len() ==> #[trigger] g[y].len() == g.len()
}

/// `(x, y)` lies on a grid of side `size`.
pub open spec fn in_bounds(x: int, y: int, size: int) -> bool {
    0 <= x < size && 0 <= y < size
}

/// `(nx, ny)` is one of the up-to-8 cells around `(x, y)` (Chebyshev distance 1).
pub open spec fn is_neighbor(x: int, y: int, nx: int, ny: int) -> bool {
    !(nx == x && ny == y) && -1 <= nx - x <= 1 && -1 <= ny - y <= 1
}

/// The grid with the cell at `(x, y)` replaced by `v`.
pub open spec fn update_cell(g: Seq<Seq<Element>>, x: int, y: int, v: Element) -> Seq<Seq<Element>> {
    g.update(y, g[y].update(x, v))
}

/// 1 if `(x, y)` is on the grid and holds a mine, else 0.
pub open spec fn mine_at(g: Seq<Seq<Element>>, x: int, y: int) -> nat {
    if in_bounds(x, y, g.len() as int) && g[y][x] == Element::Mine {
        1nat
    } else {
        0nat
    }
}

/// The number of mines among the up-to-8 neighbors of `(x, y)`, grid-clipped.
pub open spec fn mine_count(g: Seq<Seq<Element>>, x: int, y: int) -> nat {
    mine_at(g, x - 1, y - 1) + mine_at(g, x, y - 1) + mine_at(g, x + 1, y - 1) + mine_at(
        g,
        x - 1,
        y,
    ) + mine_at(g, x + 1, y) + mine_at(g, x - 1, y + 1) + mine_at(g, x, y + 1) + mine_at(
        g,
        x + 1,
        y + 1,
    )
}

/// Every cell of the grid is a mine or a number: what the generator produces.
pub open spec fn mine_or_number(g: Seq<Seq<Element>>) -> bool {
    forall|x: int, y: int|
        in_bounds(x, y, g.len() as int) ==> ((#[trigger] g[y][x]) is Mine || g[y][x] is Number)
}

/// A generated solution grid: square, and every non-mine cell carries the
/// exact count of its mine neighbors.
pub open spec fn solution_ok(g: Seq<Seq<Element>>) -> bool {
    &&& square(g)
    &&& forall|x: int, y: int|
        in_bounds(x, y, g.len() as int) ==> ((#[trigger] g[y][x]) == Element::Mine || g[y][x]
            == Element::Number(mine_count(g, x, y) as u8))
}

/// 1 if the element is `Unknown`, else 0.
pub open spec fn unknown_weight(e: Element) -> nat {
    if e == Element::Unknown {
        1nat
    } else {
        0nat
    }
}

/// How many cells of one row are `Unknown`.
pub open spec fn row_unknowns(r: Seq<Element>) -> nat
    decreases r.len(),
{
    if r.len() == 0 {
        0nat
    } else {
        row_unknowns(r.drop_last()) + unknown_weight(r.last())
    }
}

/// How many cells of the grid are `Unknown`: the measure the flood fill shrinks.
pub open spec fn grid_unknowns(g: Seq<Seq<Element>>) -> nat
    decreases g.len(),
{
    if g.len() == 0 {
        0nat
    } else {
        grid_unknowns(g.drop_last()) + row_unknowns(g.last())
    }
}

/// 1 if the element is `Mine`, else 0.
pub open spec fn mine_weight(e: Element) -> nat {
    if e == Element::Mine {
        1nat
    } else {
        0nat
    }
}

/// How many cells of one row hold a mine.
pub open spec fn row_mines(r: Seq<Element>) -> nat
    decreases r.len(),
{
    if r.len() == 0 {
        0nat
    } else {
        row_mines(r.drop_last()) + mine_weight(r.last())
    }
}

/// How many cells of the grid hold a mine.
pub open spec fn grid_mines(g: Seq<Seq<Element>>) -> nat
    decreases g.len(),
{
    if g.len() == 0 {
        0nat
    } else {
        grid_mines(g.drop_last()) + row_mines(g.last())
    }
}

/// Law: overwriting one cell of a row changes the row's mine count by
/// exactly the weights of the old and new values.
pub proof fn lemma_row_mines_update(r: Seq<Element>, i: int, v: Element)
    requires
        0 <= i < r.len(),
    ensures
        row_mines(r.update(i, v)) + mine_weight(r[i]) == row_mines(r) + mine_weight(v),
    decreases r.len(),
{
    let ru = r.update(i, v);
    if i == r.len() - 1 {
        assert(ru.drop_last() =~= r.drop_last());
        assert(ru.last() == v);
    } else {
        assert(ru.drop_last() =~= r.drop_last().update(i, v));
        assert(ru.last() == r.last());
        lemma_row_mines_update(r.drop_last(), i, v);
    }
}

/// Law: overwriting one cell of a grid changes the grid's mine count by
/// exactly the weights of the old and new values.
pub proof fn lemma_grid_mines_update(g: Seq<Seq<Element>>, x: int, y: int, v: Element)
    requires
        0 <= y < g.len(),
        0 <= x < g[y].len(),
    ensures
        grid_mines(update_cell(g, x, y, v)) + mine_weight(g[y][x]) == grid_mines(g) + mine_weight(
            v,
        ),
    decreases g.len(),
{
    let gu = update_cell(g, x, y, v);
    if y == g.len() - 1 {
        assert(gu.drop_last() =~= g.drop_last());
        assert(gu.last() == g[y].update(x, v));
        lemma_row_mines_update(g[y], x, v);
    } else {
        assert(gu.drop_last() =~= update_cell(g.drop_last(), x, y, v));
        assert(gu.last() == g.last());
        lemma_grid_mines_update(g.drop_last(), x, y, v);
    }
}

/// Law: overwriting one cell of a row changes the row's `Unknown` count by
/// exactly the weights of the old and new values.
pub proof fn lemma_row_unknowns_update(r: Seq<Element>, i: int, v: Element)
    requires
        0 <= i < r.len(),
    ensures
        row_unknowns(r.update(i, v)) + unknown_weight(r[i]) == row_unknowns(r) + unknown_weight(v),
    decreases r.len(),
{
    let ru = r.update(i, v);
    if i == r.len() - 1 {
        assert(ru.drop_last() =~= r.drop_last());
        assert(ru.last() == v);
    } else {
        assert(ru.drop_last() =~= r.drop_last().update(i, v));
        assert(ru.last() == r.last());
        lemma_row_unknowns_update(r.drop_last(), i, v);
    }
}

/// Law: overwriting one cell of a grid changes the grid's `Unknown` count by
/// exactly the weights of the old and new values.
pub proof fn lemma_grid_unknowns_update(g: Seq<Seq<Element>>, x: int, y: int, v: Element)
    requires
        0 <= y < g.len(),
        0 <= x < g[y].len(),
    ensures
        grid_unknowns(update_cell(g, x, y, v)) + unknown_weight(g[y][x]) == grid_unknowns(g)
            + unknown_weight(v),
    decreases g.len(),
{
    let gu = update_cell(g, x, y, v);
    if y == g.len() - 1 {
        assert(gu.drop_last() =~= g.drop_last());
        assert(gu.last() == g[y].update(x, v));
        lemma_row_unknowns_update(g[y], x, v);
    } else {
        assert(gu.drop_last() =~= update_cell(g.drop_last(), x, y, v));
        assert(gu.last() == g.last());
        lemma_grid_unknowns_update(g.drop_last(), x, y, v);
    }
}

/// Write `v` into the cell `(x, y)` of the grid.
pub fn set_cell(board: &mut Vec<Vec<Element>>, x: usize, y: usize, v: Element)
    requires
        in_bounds(x as int, y as int, grid_view(old(board)).len() as int),
        square(grid_view(old(board))),
    ensures
        grid_view(final(board)) == update_cell(grid_view(old(board)), x as int, y as int, v),
        square(grid_view(final(board))),
        grid_view(final(board)).len() == grid_view(old(board)).len(),
{
    let ghost g0 = grid_view(board);
    proof {
        assert(board@[y as int]@ == g0[y as int]);
    }
    board[y][x] = v;
    proof {
        assert(grid_view(board) =~~= update_cell(g0, x as int, y as int, v));
    }
}

/// `(x, y)` lies on a board of side `size`.
pub fn is_valid_pos(x: i8, y: i8, size: i8) -> (r: bool)
    ensures
        r == in_bounds(x as int, y as int, size as int),
{
    x >= 0 && y >= 0 && x < size && y < size
}

/// 1 if `(x, y)` is on the board and holds a mine, else 0.
fn mine_at_exec(board: &Vec<Vec<Element>>, x: i8, y: i8) -> (r: u8)
    requires
        square(grid_view(board)),
        grid_view(board).len() <= 127,
    ensures
        r as nat == mine_at(grid_view(board), x as int, y as int),
        r <= 1,
{
    if is_valid_pos(x, y, board.len() as i8) {
        proof {
            assert(board@[y as int]@ == grid_view(board)[y as int]);
        }
        if board[y as usize][x as usize] == Element::Mine {
            1
        } else {
            0
        }
    } else {
        0
    }
}

/// The number of mines among the up-to-8 neighbors of `(x, y)`.
pub fn get_mines(x: i8, y: i8, board: &Vec<Vec<Element>>) -> (r: u8)
    requires
        square(grid_view(board)),
        grid_view(board).len() <= 127,
        in_bounds(x as int, y as int, grid_view(board).len() as int),
    ensures
        r as nat == mine_count(grid_view(board), x as int, y as int),
        r <= 8,
{
    let mut amount: u8 = 0;
    amount = amount + mine_at_exec(board, x - 1, y - 1);
    amount = amount + mine_at_exec(board, x, y - 1);
    amount = amount + mine_at_exec(board, x + 1, y - 1);
    amount = amount + mine_at_exec(board, x - 1, y);
    amount = amount + mine_at_exec(board, x + 1, y);
    amount = amount + mine_at_exec(board, x - 1, y + 1);
    amount = amount + mine_at_exec(board, x, y + 1);
    amount = amount + mine_at_exec(board, x + 1, y + 1);
    amount
}

} // verus!
