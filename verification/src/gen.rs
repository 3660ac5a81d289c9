use vstd::prelude::*;
use crate::board::{
    Element,
    grid_view,
    square,
    in_bounds,
    mine_at,
    mine_count,
    mine_weight,
    row_mines,
    grid_mines,
    lemma_grid_mines_update,
    solution_ok,
    set_cell,
    get_mines,
};

verus! {

/// Relies on rand's `random_range`: on the range `0..size` it returns a value
/// in that range, and panics only when the range is empty.
#[verifier::external_body]
fn random_below(size: usize) -> (r: usize)
    requires
        size > 0,
    ensures
        r < size,
{
    rand::random_range(0..size)
}

/// Law: two grids of one shape with mines in the same cells give every cell
/// the same neighbor mine count.
proof fn lemma_same_mines_count(g1: Seq<Seq<Element>>, g2: Seq<Seq<Element>>, x: int, y: int)
    requires
        g1.len() == g2.len(),
        square(g1),
        square(g2),
        forall|px: int, py: int|
            in_bounds(px, py, g1.len() as int) ==> (((#[trigger] g1[py][px]) == Element::Mine) <==> (
            g2[py][px] == Element::Mine)),
    ensures
        mine_count(g1, x, y) == mine_count(g2, x, y),
{
    assert(mine_at(g1, x - 1, y - 1) == mine_at(g2, x - 1, y - 1));
    assert(mine_at(g1, x, y - 1) == mine_at(g2, x, y - 1));
    assert(mine_at(g1, x + 1, y - 1) == mine_at(g2, x + 1, y - 1));
    assert(mine_at(g1, x - 1, y) == mine_at(g2, x - 1, y));
    assert(mine_at(g1, x + 1, y) == mine_at(g2, x + 1, y));
    assert(mine_at(g1, x - 1, y + 1) == mine_at(g2, x - 1, y + 1));
    assert(mine_at(g1, x, y + 1) == mine_at(g2, x, y + 1));
    assert(mine_at(g1, x + 1, y + 1) == mine_at(g2, x + 1, y + 1));
}

/// Build the hidden solution grid: place five mines at random positions,
/// drawn independently (duplicate draws silently leave fewer mines), then
/// store in every non-mine cell the exact count of its mine neighbors.
pub fn create_solution(size: usize) -> (r: Vec<Vec<Element>>)
    requires
        1 <= size <= 127,
    ensures
        solution_ok(grid_view(&r)),
        grid_view(&r).len() == size,
        exists|x: int, y: int|
            in_bounds(x, y, size as int) && (#[trigger] grid_view(&r)[y][x]) == Element::Mine,
        grid_mines(grid_view(&r)) <= 5,
{
    let mut board: Vec<Vec<Element>> = Vec::new();
    let mut y: usize = 0;
    while y < size
        invariant
            0 <= y <= size,
            board@.len() == y,
            forall|i: int| 0 <= i < y ==> (#[trigger] board@[i]@).len() == size,
            forall|i: int, j: int|
                0 <= i < y && 0 <= j < size ==> (#[trigger] board@[i]@[j]) == Element::Unknown,
            grid_mines(grid_view(&board)) == 0,
        decreases size - y,
    {
        let mut row: Vec<Element> = Vec::new();
        let mut x: usize = 0;
        while x < size
            invariant
                0 <= x <= size,
                row@.len() == x,
                forall|j: int| 0 <= j < x ==> (#[trigger] row@[j]) == Element::Unknown,
                row_mines(row@) == 0,
            decreases size - x,
        {
            let ghost r0 = row@;
            row.push(Element::Unknown);
            proof {
                assert(row@.drop_last() =~= r0);
                assert(row_mines(row@) == row_mines(r0) + mine_weight(Element::Unknown));
            }
            x += 1;
        }
        let ghost g_before = grid_view(&board);
        let ghost r_new = row@;
        board.push(row);
        proof {
            assert(grid_view(&board).drop_last() =~= g_before);
            assert(grid_view(&board).last() == r_new);
            assert(grid_mines(grid_view(&board)) == grid_mines(g_before) + row_mines(r_new));
        }
        y += 1;
    }
    proof {
        assert(square(grid_view(&board)));
    }
    let mut i: usize = 0;
    while i < 5
        invariant
            0 <= i <= 5,
            1 <= size <= 127,
            grid_view(&board).len() == size,
            square(grid_view(&board)),
            forall|px: int, py: int|
                in_bounds(px, py, size as int) ==> ((#[trigger] grid_view(&board)[py][px])
                    == Element::Mine || grid_view(&board)[py][px] == Element::Unknown),
            i >= 1 ==> exists|px: int, py: int|
                in_bounds(px, py, size as int) && (#[trigger] grid_view(&board)[py][px])
                    == Element::Mine,
            grid_mines(grid_view(&board)) <= i,
        decreases 5 - i,
    {
        let mx = random_below(size);
        let my = random_below(size);
        let ghost g_before = grid_view(&board);
        set_cell(&mut board, mx, my, Element::Mine);
        proof {
            assert(grid_view(&board)[my as int][mx as int] == Element::Mine);
            lemma_grid_mines_update(g_before, mx as int, my as int, Element::Mine);
        }
        i += 1;
    }
    let ghost g0 = grid_view(&board);
    proof {
        assert(exists|px: int, py: int|
            in_bounds(px, py, size as int) && (#[trigger] g0[py][px]) == Element::Mine);
    }
    let mut yy: usize = 0;
    while yy < size
        invariant
            0 <= yy <= size,
            1 <= size <= 127,
            grid_view(&board).len() == size,
            square(grid_view(&board)),
            g0.len() == size,
            square(g0),
            forall|px: int, py: int|
                in_bounds(px, py, size as int) ==> (((#[trigger] grid_view(&board)[py][px])
                    == Element::Mine) <==> (g0[py][px] == Element::Mine)),
            forall|px: int, py: int|
                in_bounds(px, py, size as int) && py >= yy ==> (#[trigger] grid_view(
                    &board,
                )[py][px]) == g0[py][px],
            forall|px: int, py: int|
                in_bounds(px, py, size as int) && py < yy && g0[py][px] != Element::Mine
                    ==> (#[trigger] grid_view(&board)[py][px]) == Element::Number(
                    mine_count(g0, px, py) as u8,
                ),
            grid_mines(grid_view(&board)) <= 5,
        decreases size - yy,
    {
        let mut xx: usize = 0;
        while xx < size
            invariant
                0 <= xx <= size,
                0 <= yy < size,
                1 <= size <= 127,
                grid_view(&board).len() == size,
                square(grid_view(&board)),
                g0.len() == size,
                square(g0),
                forall|px: int, py: int|
                    in_bounds(px, py, size as int) ==> (((#[trigger] grid_view(&board)[py][px])
                        == Element::Mine) <==> (g0[py][px] == Element::Mine)),
                forall|px: int, py: int|
                    in_bounds(px, py, size as int) && (py > yy || (py == yy && px >= xx))
                        ==> (#[trigger] grid_view(&board)[py][px]) == g0[py][px],
                forall|px: int, py: int|
                    in_bounds(px, py, size as int) && (py < yy || (py == yy && px < xx))
                        && g0[py][px] != Element::Mine ==> (#[trigger] grid_view(&board)[py][px])
                        == Element::Number(mine_count(g0, px, py) as u8),
                grid_mines(grid_view(&board)) <= 5,
            decreases size - xx,
        {
            proof {
                assert(board@[yy as int]@ == grid_view(&board)[yy as int]);
            }
            let c = board[yy][xx];
            if !(c == Element::Mine) {
                let n = get_mines(xx as i8, yy as i8, &board);
                let ghost gm_before = grid_view(&board);
                proof {
                    lemma_same_mines_count(grid_view(&board), g0, xx as int, yy as int);
                }
                set_cell(&mut board, xx, yy, Element::Number(n));
                proof {
                    lemma_grid_mines_update(gm_before, xx as int, yy as int, Element::Number(n));
                }
            }
            xx += 1;
        }
        yy += 1;
    }
    proof {
        let g = grid_view(&board);
        let (wx, wy) = choose|px: int, py: int|
            in_bounds(px, py, size as int) && (#[trigger] g0[py][px]) == Element::Mine;
        assert(g[wy][wx] == Element::Mine);
        assert forall|px: int, py: int|
            in_bounds(px, py, g.len() as int) implies ((#[trigger] g[py][px]) == Element::Mine
            || g[py][px] == Element::Number(mine_count(g, px, py) as u8)) by {
            if g0[py][px] != Element::Mine {
                lemma_same_mines_count(g, g0, px, py);
            }
        }
    }
    board
}

} // verus!
