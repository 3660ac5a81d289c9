use vstd::prelude::*;
use crate::board::{
    Element,
    grid_view,
    square,
    in_bounds,
    is_neighbor,
    update_cell,
    mine_or_number,
    set_cell,
    is_valid_pos,
    grid_unknowns,
    lemma_grid_unknowns_update,
};

verus! {

/// Whether the game is still running or has ended.
#[derive(Copy, Clone, PartialEq, Eq, Structural, Debug)]
pub enum State {
    Won,
    Lost,
    Playing,
}

/// What the player asks to do with a cell.
#[derive(Copy, Clone, PartialEq, Eq, Structural, Debug)]
pub enum Operation {
    Click,
    FlagOp,
    QuestionMarkOp,
}

/// One display cell counts toward a win: it equals the solution cell, or it
/// is a flag standing on a mine.
pub open spec fn cell_matches(d: Element, s: Element) -> bool {
    d == s || (d == Element::Flag && s == Element::Mine)
}

/// The win predicate: every display cell matches its solution cell.
pub open spec fn solved(g: Seq<Seq<Element>>, sol: Seq<Seq<Element>>) -> bool {
    forall|x: int, y: int|
        in_bounds(x, y, g.len() as int) ==> cell_matches(#[trigger] g[y][x], sol[y][x])
}

/// The cell shows a revealed number.
pub open spec fn revealed(g: Seq<Seq<Element>>, x: int, y: int) -> bool {
    g[y][x] is Number
}

/// A revealed cell has no `Unknown` neighbor whose solution is a zero count:
/// the flood fill has run to completion around it.
pub open spec fn cell_closed(g: Seq<Seq<Element>>, sol: Seq<Seq<Element>>, x: int, y: int) -> bool {
    revealed(g, x, y) ==> forall|nx: int, ny: int|
        is_neighbor(x, y, nx, ny) && in_bounds(nx, ny, g.len() as int) && sol[ny][nx]
            == Element::Number(0) ==> #[trigger] g[ny][nx] != Element::Unknown
}

/// `cell_closed` holds of every cell of the board.
pub open spec fn grid_closed(g: Seq<Seq<Element>>, sol: Seq<Seq<Element>>) -> bool {
    forall|x: int, y: int|
        in_bounds(x, y, g.len() as int) ==> #[trigger] cell_closed(g, sol, x, y)
}

/// Whether the board matches the solution everywhere: the win check.
pub fn is_solved(board: &Vec<Vec<Element>>, solution: &Vec<Vec<Element>>) -> (r: bool)
    requires
        square(grid_view(board)),
        square(grid_view(solution)),
        grid_view(solution).len() == grid_view(board).len(),
    ensures
        r == solved(grid_view(board), grid_view(solution)),
{
    let ghost g = grid_view(board);
    let ghost sol = grid_view(solution);
    let size = board.len();
    let mut y: usize = 0;
    while y < size
        invariant
            size == g.len(),
            g == grid_view(board),
            sol == grid_view(solution),
            square(g),
            square(sol),
            sol.len() == g.len(),
            0 <= y <= size,
            forall|xx: int, yy: int|
                0 <= yy < y && 0 <= xx < size ==> cell_matches(#[trigger] g[yy][xx], sol[yy][xx]),
        decreases size - y,
    {
        let mut x: usize = 0;
        while x < size
            invariant
                size == g.len(),
                g == grid_view(board),
                sol == grid_view(solution),
                square(g),
                square(sol),
                sol.len() == g.len(),
                0 <= y < size,
                0 <= x <= size,
                forall|xx: int, yy: int|
                    0 <= yy < y && 0 <= xx < size ==> cell_matches(
                        #[trigger] g[yy][xx],
                        sol[yy][xx],
                    ),
                forall|xx: int| 0 <= xx < x ==> cell_matches(#[trigger] g[y as int][xx], sol[y as int][xx]),
            decreases size - x,
        {
            proof {
                assert(board@[y as int]@ == g[y as int]);
                assert(solution@[y as int]@ == sol[y as int]);
            }
            let b = board[y][x];
            let s = solution[y][x];
            if !(b == s || (b == Element::Flag && s == Element::Mine)) {
                proof {
                    assert(!cell_matches(g[y as int][x as int], sol[y as int][x as int]));
                }
                return false;
            }
            x += 1;
        }
        y += 1;
    }
    true
}

/// Law: a board that only changes by copying solution values into cells
/// stays solved.
proof fn lemma_solved_preserved(g1: Seq<Seq<Element>>, g2: Seq<Seq<Element>>, sol: Seq<Seq<Element>>)
    requires
        g1.len() == g2.len(),
        forall|px: int, py: int|
            in_bounds(px, py, g1.len() as int) && #[trigger] g2[py][px] != g1[py][px]
                ==> g2[py][px] == sol[py][px],
        solved(g1, sol),
    ensures
        solved(g2, sol),
{
    assert forall|px: int, py: int|
        in_bounds(px, py, g2.len() as int) implies cell_matches(
        #[trigger] g2[py][px],
        sol[py][px],
    ) by {
        assert(cell_matches(g1[py][px], sol[py][px]));
        if g2[py][px] != g1[py][px] {
            assert(g2[py][px] == sol[py][px]);
        }
    }
}

/// Cells only move out of `Unknown`, and every change below copies the
/// solution value of a cell whose count is zero, except the clicked cell
/// itself, which may take any solution number.
pub open spec fn reveal_changes(
    g: Seq<Seq<Element>>,
    g2: Seq<Seq<Element>>,
    sol: Seq<Seq<Element>>,
    x: int,
    y: int,
) -> bool {
    &&& forall|px: int, py: int|
        in_bounds(px, py, g.len() as int) && #[trigger] g[py][px] != Element::Unknown ==> g2[py][px]
            == g[py][px]
    &&& forall|px: int, py: int|
        in_bounds(px, py, g.len() as int) && #[trigger] g2[py][px] != g[py][px] ==> g[py][px]
            == Element::Unknown && (g2[py][px] == sol[py][px] || (px == x && py == y && g2[py][px]
            == Element::Explosion))
    &&& forall|px: int, py: int|
        in_bounds(px, py, g.len() as int) && #[trigger] g2[py][px] != g[py][px] && !(px == x && py
            == y) ==> sol[py][px] == Element::Number(0)
}

/// Resolve a click at `location`: reveal the cell, explode on a mine, and
/// cascade into neighboring zero-count cells, exactly as the dispatcher's
/// reveal arm demands.
pub fn click(
    board: &mut Vec<Vec<Element>>,
    location: (u8, u8),
    solution: &Vec<Vec<Element>>,
    state: &mut State,
)
    requires
        square(grid_view(old(board))),
        grid_view(old(board)).len() <= 127,
        square(grid_view(solution)),
        grid_view(solution).len() == grid_view(old(board)).len(),
        in_bounds(location.0 as int, location.1 as int, grid_view(old(board)).len() as int),
        mine_or_number(grid_view(solution)),
    ensures
        ({
            let g = grid_view(old(board));
            let g2 = grid_view(final(board));
            let sol = grid_view(solution);
            let x = location.0 as int;
            let y = location.1 as int;
            &&& square(g2)
            &&& g2.len() == g.len()
            &&& reveal_changes(g, g2, sol, x, y)
            &&& g[y][x] != Element::Unknown ==> g2 == g && *final(state) == *old(state)
            &&& (g[y][x] == Element::Unknown && sol[y][x] is Mine) ==> g2 == update_cell(
                g,
                x,
                y,
                Element::Explosion,
            ) && *final(state) == State::Lost
            &&& (g[y][x] == Element::Unknown && sol[y][x] is Number) ==> g2[y][x] == sol[y][x] && (
            *final(state) == *old(state) || (*final(state) == State::Won && solved(g2, sol)))
            &&& grid_unknowns(g2) <= grid_unknowns(g)
            &&& (g[y][x] == Element::Unknown && sol[y][x] is Number) ==> grid_unknowns(g2)
                < grid_unknowns(g)
            &&& forall|cx: int, cy: int|
                in_bounds(cx, cy, g.len() as int) && #[trigger] cell_closed(g, sol, cx, cy)
                    ==> cell_closed(g2, sol, cx, cy)
            &&& forall|cx: int, cy: int|
                in_bounds(cx, cy, g.len() as int) && revealed(g2, cx, cy) && !revealed(g, cx, cy)
                    ==> #[trigger] cell_closed(g2, sol, cx, cy)
            &&& forall|px: int, py: int|
                in_bounds(px, py, g.len() as int) && #[trigger] g2[py][px] != g[py][px] && !(px
                    == x && py == y) ==> zero_linked(sol, x, y, px, py)
        }),
    decreases grid_unknowns(grid_view(old(board))),
{
    let ghost g = grid_view(board);
    let ghost sol = grid_view(solution);
    let (x, y) = location;
    let xu = x as usize;
    let yu = y as usize;
    proof {
        assert(board@[yu as int]@ == g[yu as int]);
        assert(solution@[yu as int]@ == sol[yu as int]);
    }
    let guess = board[yu][xu];
    let sol_cell = solution[yu][xu];
    match (guess, sol_cell) {
        (Element::Unknown, Element::Number(_)) => {
            set_cell(board, xu, yu, sol_cell);
            proof {
                lemma_grid_unknowns_update(g, x as int, y as int, sol_cell);
            }
            if is_solved(board, solution) {
                *state = State::Won;
            }
            proof {
                let g1 = grid_view(board);
                assert forall|cx: int, cy: int|
                    in_bounds(cx, cy, g.len() as int) && !(cx == x as int && cy == y as int)
                        && #[trigger] cell_closed(g, sol, cx, cy) implies cell_closed(
                    g1,
                    sol,
                    cx,
                    cy,
                ) by {
                    if revealed(g1, cx, cy) {
                        assert(g1[cy][cx] == g[cy][cx]);
                        assert forall|nx2: int, ny2: int|
                            is_neighbor(cx, cy, nx2, ny2) && in_bounds(nx2, ny2, g1.len() as int)
                                && sol[ny2][nx2] == Element::Number(0) implies #[trigger] g1[ny2][nx2]
                            != Element::Unknown by {
                            assert(g[ny2][nx2] != Element::Unknown);
                        }
                    }
                }
                assert forall|cx: int, cy: int|
                    in_bounds(cx, cy, g.len() as int) && revealed(g1, cx, cy) && !revealed(
                    g,
                    cx,
                    cy,
                ) && !(cx == x as int && cy == y as int) implies #[trigger] cell_closed(
                    g1,
                    sol,
                    cx,
                    cy,
                ) by {
                    assert(g1[cy][cx] == g[cy][cx]);
                }
            }
            let size = board.len();
            let mut dx: i8 = -1;
            while dx < 2
                invariant
                    -1 <= dx <= 2,
                    g == grid_view(old(board)),
                    size == g.len(),
                    g.len() <= 127,
                    sol == grid_view(solution),
                    square(g),
                    square(sol),
                    sol.len() == g.len(),
                    mine_or_number(sol),
                    in_bounds(x as int, y as int, g.len() as int),
                    g[y as int][x as int] == Element::Unknown,
                    sol[y as int][x as int] is Number,
                    square(grid_view(board)),
                    grid_view(board).len() == g.len(),
                    reveal_changes(g, grid_view(board), sol, x as int, y as int),
                    grid_view(board)[y as int][x as int] == sol[y as int][x as int],
                    grid_unknowns(grid_view(board)) < grid_unknowns(g),
                    *state == *old(state) || (*state == State::Won && solved(
                        grid_view(board),
                        sol,
                    )),
                    forall|cx: int, cy: int|
                        in_bounds(cx, cy, g.len() as int) && !(cx == x as int && cy == y as int)
                            && #[trigger] cell_closed(g, sol, cx, cy) ==> cell_closed(
                            grid_view(board),
                            sol,
                            cx,
                            cy,
                        ),
                    forall|cx: int, cy: int|
                        in_bounds(cx, cy, g.len() as int) && revealed(grid_view(board), cx, cy)
                            && !revealed(g, cx, cy) && !(cx == x as int && cy == y as int)
                            ==> #[trigger] cell_closed(grid_view(board), sol, cx, cy),
                    forall|nx: int, ny: int|
                        is_neighbor(x as int, y as int, nx, ny) && in_bounds(nx, ny, g.len() as int)
                            && #[trigger] sol[ny][nx] == Element::Number(0) && nx - x < dx
                            ==> grid_view(board)[ny][nx] != Element::Unknown,
                    forall|px: int, py: int|
                        in_bounds(px, py, g.len() as int) && #[trigger] grid_view(board)[py][px]
                            != g[py][px] && !(px == x as int && py == y as int) ==> zero_linked(
                            sol,
                            x as int,
                            y as int,
                            px,
                            py,
                        ),
                decreases 2 - dx,
            {
                let mut dy: i8 = -1;
                while dy < 2
                    invariant
                        -1 <= dx < 2,
                        -1 <= dy <= 2,
                        g == grid_view(old(board)),
                        size == g.len(),
                        g.len() <= 127,
                        sol == grid_view(solution),
                        square(g),
                        square(sol),
                        sol.len() == g.len(),
                        mine_or_number(sol),
                        in_bounds(x as int, y as int, g.len() as int),
                        g[y as int][x as int] == Element::Unknown,
                        sol[y as int][x as int] is Number,
                        square(grid_view(board)),
                        grid_view(board).len() == g.len(),
                        reveal_changes(g, grid_view(board), sol, x as int, y as int),
                        grid_view(board)[y as int][x as int] == sol[y as int][x as int],
                        grid_unknowns(grid_view(board)) < grid_unknowns(g),
                        *state == *old(state) || (*state == State::Won && solved(
                            grid_view(board),
                            sol,
                        )),
                        forall|cx: int, cy: int|
                            in_bounds(cx, cy, g.len() as int) && !(cx == x as int && cy
                                == y as int) && #[trigger] cell_closed(g, sol, cx, cy)
                                ==> cell_closed(grid_view(board), sol, cx, cy),
                        forall|cx: int, cy: int|
                            in_bounds(cx, cy, g.len() as int) && revealed(grid_view(board), cx, cy)
                                && !revealed(g, cx, cy) && !(cx == x as int && cy == y as int)
                                ==> #[trigger] cell_closed(grid_view(board), sol, cx, cy),
                        forall|nx: int, ny: int|
                            is_neighbor(x as int, y as int, nx, ny) && in_bounds(
                                nx,
                                ny,
                                g.len() as int,
                            ) && #[trigger] sol[ny][nx] == Element::Number(0) && (nx - x < dx || (nx
                                - x == dx && ny - y < dy)) ==> grid_view(board)[ny][nx]
                                != Element::Unknown,
                        forall|px: int, py: int|
                            in_bounds(px, py, g.len() as int) && #[trigger] grid_view(
                                board,
                            )[py][px] != g[py][px] && !(px == x as int && py == y as int)
                                ==> zero_linked(sol, x as int, y as int, px, py),
                    decreases 2 - dy,
                {
                    let ghost gm = grid_view(board);
                    if dx != 0 || dy != 0 {
                        let nx = x as i8 + dx;
                        let ny = y as i8 + dy;
                        if is_valid_pos(nx, ny, size as i8) {
                            proof {
                                assert(solution@[ny as int]@ == sol[ny as int]);
                            }
                            let s = solution[ny as usize][nx as usize];
                            if s == Element::Number(0) {
                                click(board, (nx as u8, ny as u8), solution, state);
                                proof {
                                    let gm2 = grid_view(board);
                                    assert(gm2[ny as int][nx as int] != Element::Unknown);
                                    assert forall|px: int, py: int|
                                        in_bounds(px, py, g.len() as int) && #[trigger] gm2[py][px]
                                            != g[py][px] implies g[py][px] == Element::Unknown
                                        && gm2[py][px] == sol[py][px] && (!(px == x as int && py
                                        == y as int) ==> sol[py][px] == Element::Number(0)) by {
                                        if gm2[py][px] != gm[py][px] {
                                            assert(gm[py][px] == Element::Unknown);
                                            if px == nx as int && py == ny as int {
                                                assert(gm2[py][px] == sol[py][px]);
                                            }
                                        } else {
                                            assert(gm[py][px] != g[py][px]);
                                        }
                                    }
                                    assert forall|px: int, py: int|
                                        in_bounds(px, py, g.len() as int) && #[trigger] g[py][px]
                                            != Element::Unknown implies gm2[py][px] == g[py][px] by {
                                        assert(gm[py][px] == g[py][px]);
                                    }
                                    assert forall|cx: int, cy: int|
                                        in_bounds(cx, cy, g.len() as int) && !(cx == x as int && cy
                                            == y as int) && #[trigger] cell_closed(g, sol, cx, cy)
                                        implies cell_closed(gm2, sol, cx, cy) by {
                                        assert(cell_closed(gm, sol, cx, cy));
                                    }
                                    assert forall|cx: int, cy: int|
                                        in_bounds(cx, cy, g.len() as int) && revealed(gm2, cx, cy)
                                            && !revealed(g, cx, cy) && !(cx == x as int && cy
                                            == y as int) implies #[trigger] cell_closed(
                                        gm2,
                                        sol,
                                        cx,
                                        cy,
                                    ) by {
                                        if revealed(gm, cx, cy) {
                                            assert(cell_closed(gm, sol, cx, cy));
                                        }
                                    }
                                    if solved(gm, sol) {
                                        lemma_solved_preserved(gm, gm2, sol);
                                    }
                                    assert(gm2[y as int][x as int] == sol[y as int][x as int]);
                                    assert forall|px: int, py: int|
                                        in_bounds(px, py, g.len() as int) && #[trigger] gm2[py][px]
                                            != g[py][px] && !(px == x as int && py == y as int)
                                        implies zero_linked(sol, x as int, y as int, px, py) by {
                                        if gm2[py][px] != gm[py][px] {
                                            if px == nx as int && py == ny as int {
                                                lemma_zero_linked_base(
                                                    sol,
                                                    x as int,
                                                    y as int,
                                                    px,
                                                    py,
                                                );
                                            } else {
                                                assert(zero_linked(
                                                    sol,
                                                    nx as int,
                                                    ny as int,
                                                    px,
                                                    py,
                                                ));
                                                lemma_zero_linked_step(
                                                    sol,
                                                    x as int,
                                                    y as int,
                                                    nx as int,
                                                    ny as int,
                                                    px,
                                                    py,
                                                );
                                            }
                                        }
                                    }
                                }
                            }
                        }
                    }
                    proof {
                        let gm2 = grid_view(board);
                        assert forall|nx2: int, ny2: int|
                            is_neighbor(x as int, y as int, nx2, ny2) && in_bounds(
                                nx2,
                                ny2,
                                g.len() as int,
                            ) && #[trigger] sol[ny2][nx2] == Element::Number(0) && (nx2 - x < dx || (
                            nx2 - x == dx && ny2 - y < dy + 1)) implies gm2[ny2][nx2]
                            != Element::Unknown by {
                            if nx2 - x < dx || (nx2 - x == dx && ny2 - y < dy) {
                                assert(gm[ny2][nx2] != Element::Unknown);
                            }
                        }
                    }
                    dy = dy + 1;
                }
                dx = dx + 1;
            }
            proof {
                let g2 = grid_view(board);
                assert(cell_closed(g2, sol, x as int, y as int)) by {
                    assert forall|nx: int, ny: int|
                        is_neighbor(x as int, y as int, nx, ny) && in_bounds(nx, ny, g.len() as int)
                            && sol[ny][nx] == Element::Number(0) implies #[trigger] g2[ny][nx]
                        != Element::Unknown by {
                        assert(nx - x < 2);
                    }
                }
                assert forall|cx: int, cy: int|
                    in_bounds(cx, cy, g.len() as int) && revealed(g2, cx, cy) && !revealed(
                    g,
                    cx,
                    cy,
                ) implies #[trigger] cell_closed(g2, sol, cx, cy) by {
                    if !(cx == x as int && cy == y as int) {
                        assert(cell_closed(g2, sol, cx, cy));
                    }
                }
            }
        }
        (Element::Unknown, Element::Mine) => {
            set_cell(board, xu, yu, Element::Explosion);
            *state = State::Lost;
            proof {
                let g2 = grid_view(board);
                lemma_grid_unknowns_update(g, x as int, y as int, Element::Explosion);
                assert(g2 == update_cell(g, x as int, y as int, Element::Explosion));
                assert forall|cx: int, cy: int|
                    in_bounds(cx, cy, g.len() as int) && #[trigger] cell_closed(g, sol, cx, cy)
                        implies cell_closed(g2, sol, cx, cy) by {
                    if revealed(g2, cx, cy) {
                        assert(g2[cy][cx] == g[cy][cx]);
                        assert forall|nx: int, ny: int|
                            is_neighbor(cx, cy, nx, ny) && in_bounds(nx, ny, g2.len() as int)
                                && sol[ny][nx] == Element::Number(0) implies #[trigger] g2[ny][nx]
                            != Element::Unknown by {
                            assert(g[ny][nx] != Element::Unknown);
                        }
                    }
                }
                assert forall|cx: int, cy: int|
                    in_bounds(cx, cy, g.len() as int) && revealed(g2, cx, cy) && !revealed(
                    g,
                    cx,
                    cy,
                ) implies #[trigger] cell_closed(g2, sol, cx, cy) by {
                    assert(g2[cy][cx] == g[cy][cx]);
                }
            }
        }
        _ => {
            proof {
                assert(grid_view(board) == g);
            }
        }
    }
}

/// The board a flag request leaves behind: `Unknown` and `Flag` toggle into
/// each other, every other cell state refuses the request.
pub open spec fn flag_step(g: Seq<Seq<Element>>, x: int, y: int) -> Seq<Seq<Element>> {
    if g[y][x] == Element::Unknown {
        update_cell(g, x, y, Element::Flag)
    } else if g[y][x] == Element::Flag {
        update_cell(g, x, y, Element::Unknown)
    } else {
        g
    }
}

/// The board a question-mark request leaves behind: `Unknown` and
/// `QuestionMark` toggle into each other, every other cell state refuses it.
pub open spec fn mark_step(g: Seq<Seq<Element>>, x: int, y: int) -> Seq<Seq<Element>> {
    if g[y][x] == Element::Unknown {
        update_cell(g, x, y, Element::QuestionMark)
    } else if g[y][x] == Element::QuestionMark {
        update_cell(g, x, y, Element::Unknown)
    } else {
        g
    }
}

/// The dispatcher's transition table accepts the operation in this cell state.
pub open spec fn op_applicable(g: Seq<Seq<Element>>, op: Operation, x: int, y: int) -> bool {
    match op {
        Operation::Click => g[y][x] == Element::Unknown,
        Operation::FlagOp => g[y][x] == Element::Unknown || g[y][x] == Element::Flag,
        Operation::QuestionMarkOp => g[y][x] == Element::Unknown || g[y][x]
            == Element::QuestionMark,
    }
}

/// Dispatch one player operation on the cell at `location`, then run the win
/// check, whether or not the operation was accepted. Returns whether the
/// transition table accepted it.
pub fn operate(
    board: &mut Vec<Vec<Element>>,
    operation: &Operation,
    location: (u8, u8),
    solution: &Vec<Vec<Element>>,
    state: &mut State,
) -> (valid: bool)
    requires
        square(grid_view(old(board))),
        grid_view(old(board)).len() <= 127,
        square(grid_view(solution)),
        grid_view(solution).len() == grid_view(old(board)).len(),
        in_bounds(location.0 as int, location.1 as int, grid_view(old(board)).len() as int),
        mine_or_number(grid_view(solution)),
    ensures
        ({
            let g = grid_view(old(board));
            let g2 = grid_view(final(board));
            let sol = grid_view(solution);
            let x = location.0 as int;
            let y = location.1 as int;
            &&& square(g2)
            &&& g2.len() == g.len()
            &&& valid == op_applicable(g, *operation, x, y)
            &&& *operation is FlagOp ==> g2 == flag_step(g, x, y)
            &&& *operation is QuestionMarkOp ==> g2 == mark_step(g, x, y)
            &&& *operation is Click ==> reveal_changes(g, g2, sol, x, y)
            &&& (*operation is Click && g[y][x] != Element::Unknown) ==> g2 == g
            &&& (*operation is Click && g[y][x] == Element::Unknown && sol[y][x] is Mine) ==> g2
                == update_cell(g, x, y, Element::Explosion)
            &&& (*operation is Click && g[y][x] == Element::Unknown && sol[y][x] is Number)
                ==> g2[y][x] == sol[y][x]
            &&& solved(g2, sol) ==> *final(state) == State::Won
            &&& (!solved(g2, sol) && *operation is Click && g[y][x] == Element::Unknown
                && sol[y][x] is Mine) ==> *final(state) == State::Lost
            &&& (!solved(g2, sol) && !(*operation is Click && g[y][x] == Element::Unknown
                && sol[y][x] is Mine)) ==> *final(state) == *old(state)
            &&& *operation is Click ==> forall|cx: int, cy: int|
                in_bounds(cx, cy, g.len() as int) && #[trigger] cell_closed(g, sol, cx, cy)
                    ==> cell_closed(g2, sol, cx, cy)
            &&& *operation is Click ==> forall|cx: int, cy: int|
                in_bounds(cx, cy, g.len() as int) && revealed(g2, cx, cy) && !revealed(g, cx, cy)
                    ==> #[trigger] cell_closed(g2, sol, cx, cy)
        }),
{
    let ghost g = grid_view(board);
    let ghost sol = grid_view(solution);
    let (x, y) = location;
    let xu = x as usize;
    let yu = y as usize;
    proof {
        assert(board@[yu as int]@ == g[yu as int]);
    }
    let current = board[yu][xu];
    let mut valid = true;
    match (operation, current) {
        (Operation::FlagOp, Element::Unknown) => {
            set_cell(board, xu, yu, Element::Flag);
        }
        (Operation::QuestionMarkOp, Element::Unknown) => {
            set_cell(board, xu, yu, Element::QuestionMark);
        }
        (Operation::Click, Element::Unknown) => {
            click(board, location, solution, state);
        }
        (Operation::QuestionMarkOp, Element::QuestionMark) | (
            Operation::FlagOp,
            Element::Flag,
        ) => {
            set_cell(board, xu, yu, Element::Unknown);
        }
        _ => {
            valid = false;
        }
    }
    if is_solved(board, solution) {
        *state = State::Won;
    }
    valid
}

/// Law: flagging a cell twice returns the board to where it began, whatever
/// state the cell was in.
pub proof fn lemma_flag_toggle(g: Seq<Seq<Element>>, x: int, y: int)
    requires
        square(g),
        in_bounds(x, y, g.len() as int),
    ensures
        flag_step(flag_step(g, x, y), x, y) == g,
{
    let g1 = flag_step(g, x, y);
    if g[y][x] == Element::Unknown {
        assert(g1[y][x] == Element::Flag);
        assert(flag_step(g1, x, y) =~~= g);
    } else if g[y][x] == Element::Flag {
        assert(g1[y][x] == Element::Unknown);
        assert(flag_step(g1, x, y) =~~= g);
    } else {
        assert(flag_step(g1, x, y) == g);
    }
}

/// Law: marking a cell twice returns the board to where it began, whatever
/// state the cell was in.
pub proof fn lemma_mark_toggle(g: Seq<Seq<Element>>, x: int, y: int)
    requires
        square(g),
        in_bounds(x, y, g.len() as int),
    ensures
        mark_step(mark_step(g, x, y), x, y) == g,
{
    let g1 = mark_step(g, x, y);
    if g[y][x] == Element::Unknown {
        assert(g1[y][x] == Element::QuestionMark);
        assert(mark_step(g1, x, y) =~~= g);
    } else if g[y][x] == Element::QuestionMark {
        assert(g1[y][x] == Element::Unknown);
        assert(mark_step(g1, x, y) =~~= g);
    } else {
        assert(mark_step(g1, x, y) == g);
    }
}

/// Law: a board with no revealed cell at all — in particular the fresh
/// all-`Unknown` board — is closed.
pub proof fn lemma_unrevealed_closed(g: Seq<Seq<Element>>, sol: Seq<Seq<Element>>)
    requires
        forall|x: int, y: int| in_bounds(x, y, g.len() as int) ==> !revealed(g, x, y),
    ensures
        grid_closed(g, sol),
{
    assert forall|x: int, y: int|
        in_bounds(x, y, g.len() as int) implies #[trigger] cell_closed(g, sol, x, y) by {
        assert(!revealed(g, x, y));
    }
}

/// Law: a click on a closed board leaves a closed board. The hypotheses are
/// exactly what `click` ensures of the boards before and after the call:
/// closed cells stay closed, and freshly revealed cells come out closed.
pub proof fn lemma_click_preserves_closed(
    g: Seq<Seq<Element>>,
    g2: Seq<Seq<Element>>,
    sol: Seq<Seq<Element>>,
)
    requires
        g2.len() == g.len(),
        forall|cx: int, cy: int|
            in_bounds(cx, cy, g.len() as int) && #[trigger] cell_closed(g, sol, cx, cy)
                ==> cell_closed(g2, sol, cx, cy),
        forall|cx: int, cy: int|
            in_bounds(cx, cy, g.len() as int) && revealed(g2, cx, cy) && !revealed(g, cx, cy)
                ==> #[trigger] cell_closed(g2, sol, cx, cy),
        grid_closed(g, sol),
    ensures
        grid_closed(g2, sol),
{
    assert forall|cx: int, cy: int|
        in_bounds(cx, cy, g2.len() as int) implies #[trigger] cell_closed(g2, sol, cx, cy) by {
        if revealed(g2, cx, cy) && !revealed(g, cx, cy) {
            assert(cell_closed(g2, sol, cx, cy));
        } else {
            assert(cell_closed(g, sol, cx, cy));
        }
    }
}

/// A chain of positions, each a neighbor of the one before it, all lying on
/// zero-count solution cells: a path through one connected zero region.
pub open spec fn zero_path(sol: Seq<Seq<Element>>, p: Seq<(int, int)>) -> bool {
    &&& forall|i: int|
        0 <= i < p.len() ==> in_bounds((#[trigger] p[i]).0, p[i].1, sol.len() as int)
            && sol[p[i].1][p[i].0] == Element::Number(0)
    &&& forall|i: int|
        0 < i < p.len() ==> is_neighbor(p[i - 1].0, p[i - 1].1, (#[trigger] p[i]).0, p[i].1)
}

/// `(px, py)` is joined to `(x, y)` by a chain of adjacent zero-count
/// solution cells that starts at a neighbor of `(x, y)`: the shape of every
/// cascade step away from a click.
pub open spec fn zero_linked(sol: Seq<Seq<Element>>, x: int, y: int, px: int, py: int) -> bool {
    exists|p: Seq<(int, int)>|
        #[trigger] zero_path(sol, p) && p.len() >= 1 && is_neighbor(x, y, p[0].0, p[0].1) && p[p.len()
            - 1] == (px, py)
}

/// Law: a zero-count neighbor of a cell is linked to it.
pub proof fn lemma_zero_linked_base(sol: Seq<Seq<Element>>, x: int, y: int, nx: int, ny: int)
    requires
        in_bounds(nx, ny, sol.len() as int),
        sol[ny][nx] == Element::Number(0),
        is_neighbor(x, y, nx, ny),
    ensures
        zero_linked(sol, x, y, nx, ny),
{
    let p = seq![(nx, ny)];
    assert(p[0] == (nx, ny));
    assert(zero_path(sol, p));
    assert(p[p.len() - 1] == (nx, ny));
}

/// Law: linkage extends backward across one cascade step: what is linked to
/// a zero-count neighbor `(nx, ny)` of `(x, y)` is linked to `(x, y)`.
pub proof fn lemma_zero_linked_step(
    sol: Seq<Seq<Element>>,
    x: int,
    y: int,
    nx: int,
    ny: int,
    px: int,
    py: int,
)
    requires
        in_bounds(nx, ny, sol.len() as int),
        sol[ny][nx] == Element::Number(0),
        is_neighbor(x, y, nx, ny),
        zero_linked(sol, nx, ny, px, py),
    ensures
        zero_linked(sol, x, y, px, py),
{
    let p = choose|p: Seq<(int, int)>|
        #[trigger] zero_path(sol, p) && p.len() >= 1 && is_neighbor(nx, ny, p[0].0, p[0].1)
            && p[p.len() - 1] == (px, py);
    let q = seq![(nx, ny)] + p;
    assert(q[0] == (nx, ny));
    assert(forall|i: int| 0 < i < q.len() ==> #[trigger] q[i] == p[i - 1]);
    assert(zero_path(sol, q)) by {
        assert forall|i: int|
            0 <= i < q.len() implies in_bounds((#[trigger] q[i]).0, q[i].1, sol.len() as int)
            && sol[q[i].1][q[i].0] == Element::Number(0) by {
            if i > 0 {
                assert(q[i] == p[i - 1]);
                assert(in_bounds((p[i - 1]).0, p[i - 1].1, sol.len() as int));
            }
        }
        assert forall|i: int|
            0 < i < q.len() implies is_neighbor(q[i - 1].0, q[i - 1].1, (#[trigger] q[i]).0, q[i].1) by {
            if i == 1 {
                assert(q[1] == p[0]);
            } else {
                assert(q[i] == p[i - 1] && q[i - 1] == p[i - 2]);
                assert(is_neighbor(p[i - 2].0, p[i - 2].1, (p[i - 1]).0, p[i - 1].1));
            }
        }
    }
    assert(q[q.len() - 1] == p[p.len() - 1]);
}

/// Law: on a closed board, revealing reaches the whole connected zero
/// region — if one end of a zero path is revealed and the player has not
/// flagged or marked the cells along it, every cell on the path is revealed.
pub proof fn lemma_zero_cascade(g: Seq<Seq<Element>>, sol: Seq<Seq<Element>>, p: Seq<(int, int)>)
    requires
        square(g),
        sol.len() == g.len(),
        grid_closed(g, sol),
        zero_path(sol, p),
        p.len() > 0,
        revealed(g, p[0].0, p[0].1),
        forall|i: int|
            0 < i < p.len() ==> (#[trigger] g[p[i].1][p[i].0]) == Element::Unknown
                || g[p[i].1][p[i].0] is Number,
    ensures
        forall|i: int| 0 <= i < p.len() ==> revealed(g, (#[trigger] p[i]).0, p[i].1),
    decreases p.len(),
{
    if p.len() > 1 {
        let q = p.drop_last();
        assert(forall|i: int| 0 <= i < q.len() ==> #[trigger] q[i] == p[i]);
        assert(zero_path(sol, q));
        lemma_zero_cascade(g, sol, q);
        let k = p.len() - 1;
        assert(revealed(g, q[k - 1].0, q[k - 1].1));
        assert(q[k - 1] == p[k - 1]);
        assert(cell_closed(g, sol, p[k - 1].0, p[k - 1].1));
        assert(is_neighbor(p[k - 1].0, p[k - 1].1, p[k].0, p[k].1));
        assert(g[p[k].1][p[k].0] != Element::Unknown);
        assert(revealed(g, p[k].0, p[k].1));
        assert forall|i: int| 0 <= i < p.len() implies revealed(g, (#[trigger] p[i]).0, p[i].1) by {
            if i < k {
                assert(revealed(g, (#[trigger] q[i]).0, q[i].1));
                assert(q[i] == p[i]);
            }
        }
    }
}


} // verus!
