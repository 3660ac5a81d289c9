use minesweeper::board::{get_mines, is_valid_pos, Element};
use minesweeper::game::{click, is_solved, operate, Operation, State};
use minesweeper::gen::create_solution;

fn sol3() -> Vec<Vec<Element>> {
    vec![
        vec![Element::Mine, Element::Number(1), Element::Number(0)],
        vec![Element::Number(1), Element::Number(1), Element::Number(0)],
        vec![Element::Number(0), Element::Number(0), Element::Number(0)],
    ]
}

fn board3() -> Vec<Vec<Element>> {
    vec![vec![Element::Unknown; 3]; 3]
}

#[test]
fn generation_counts_match_neighbors() {
    let sol = create_solution(8);
    assert_eq!(sol.len(), 8);
    for y in 0..8usize {
        assert_eq!(sol[y].len(), 8);
        for x in 0..8usize {
            match sol[y][x] {
                Element::Mine => {}
                Element::Number(n) => {
                    assert!(n <= 8);
                    assert_eq!(n, get_mines(x as i8, y as i8, &sol));
                }
                other => panic!("solution holds {:?}", other),
            }
        }
    }
}

#[test]
fn cascade_reveals_zero_region() {
    let sol = sol3();
    let mut board = board3();
    let mut state = State::Playing;
    click(&mut board, (2, 2), &sol, &mut state);
    assert_eq!(state, State::Playing);
    // the connected zero region of (2,2)
    for &(x, y) in &[(2usize, 2usize), (1, 2), (0, 2), (2, 1), (2, 0)] {
        assert_eq!(board[y][x], Element::Number(0), "({}, {})", x, y);
    }
    // the cells whose counts are not zero stay hidden
    for &(x, y) in &[(0usize, 0usize), (1, 0), (0, 1), (1, 1)] {
        assert_eq!(board[y][x], Element::Unknown, "({}, {})", x, y);
    }
}

#[test]
fn generation_places_one_to_five_mines() {
    let sol = create_solution(8);
    let mines = sol
        .iter()
        .flat_map(|row| row.iter())
        .filter(|e| **e == Element::Mine)
        .count();
    assert!(1 <= mines && mines <= 5);
}

#[test]
fn a_flag_blocks_the_cascade() {
    let sol = sol3();
    let mut board = board3();
    let mut state = State::Playing;
    board[1][2] = Element::Flag; // flag (2,1), inside the zero region
    click(&mut board, (2, 2), &sol, &mut state);
    assert_eq!(state, State::Playing);
    // the cascade runs through (1,2) but stops at the flag
    for &(x, y) in &[(2usize, 2usize), (1, 2), (0, 2)] {
        assert_eq!(board[y][x], Element::Number(0), "({}, {})", x, y);
    }
    assert_eq!(board[1][2], Element::Flag);
    // (2,0) is only reachable through the flagged cell and stays hidden
    assert_eq!(board[0][2], Element::Unknown);
}

#[test]
fn clicking_twice_is_a_noop() {
    let sol = sol3();
    let mut board = board3();
    let mut state = State::Playing;
    click(&mut board, (1, 0), &sol, &mut state);
    assert_eq!(board[0][1], Element::Number(1));
    let before = board.clone();
    let state_before = state;
    click(&mut board, (1, 0), &sol, &mut state);
    assert_eq!(board, before);
    assert_eq!(state, state_before);
}

#[test]
fn is_solved_iff_every_cell_matches() {
    let sol = sol3();
    // every cell equals the solution, with a flag standing on the mine
    let solved_board = vec![
        vec![Element::Flag, Element::Number(1), Element::Number(0)],
        vec![Element::Number(1), Element::Number(1), Element::Number(0)],
        vec![Element::Number(0), Element::Number(0), Element::Number(0)],
    ];
    assert!(is_solved(&solved_board, &sol));
    // one cell still hidden
    let mut one_hidden = solved_board.clone();
    one_hidden[2][2] = Element::Unknown;
    assert!(!is_solved(&one_hidden, &sol));
    // a flag on a cell that holds no mine breaks the match
    let mut wrong_flag = solved_board.clone();
    wrong_flag[2][2] = Element::Flag;
    assert!(!is_solved(&wrong_flag, &sol));
    // a display that literally equals the solution counts as well
    let mut literal = solved_board.clone();
    literal[0][0] = Element::Mine;
    assert!(is_solved(&literal, &sol));
    // the fresh board does not
    assert!(!is_solved(&board3(), &sol));
}

#[test]
fn flagging_twice_toggles_back() {
    let sol = sol3();
    let mut board = board3();
    let mut state = State::Playing;
    let valid = operate(&mut board, &Operation::FlagOp, (1, 0), &sol, &mut state);
    assert!(valid);
    assert_eq!(board[0][1], Element::Flag);
    let valid = operate(&mut board, &Operation::FlagOp, (1, 0), &sol, &mut state);
    assert!(valid);
    assert_eq!(board[0][1], Element::Unknown);
    assert_eq!(board, board3());
}

#[test]
fn marking_twice_toggles_back() {
    let sol = sol3();
    let mut board = board3();
    let mut state = State::Playing;
    let valid = operate(&mut board, &Operation::QuestionMarkOp, (0, 1), &sol, &mut state);
    assert!(valid);
    assert_eq!(board[1][0], Element::QuestionMark);
    let valid = operate(&mut board, &Operation::QuestionMarkOp, (0, 1), &sol, &mut state);
    assert!(valid);
    assert_eq!(board[1][0], Element::Unknown);
    assert_eq!(board, board3());
}

#[test]
fn marking_a_flag_is_refused() {
    let sol = sol3();
    let mut board = board3();
    let mut state = State::Playing;
    assert!(operate(&mut board, &Operation::FlagOp, (1, 0), &sol, &mut state));
    let valid = operate(&mut board, &Operation::QuestionMarkOp, (1, 0), &sol, &mut state);
    assert!(!valid);
    assert_eq!(board[0][1], Element::Flag);
}

#[test]
fn clicking_a_mine_explodes_and_loses() {
    let sol = sol3();
    let mut board = board3();
    let mut state = State::Playing;
    click(&mut board, (0, 0), &sol, &mut state);
    assert_eq!(board[0][0], Element::Explosion);
    assert_eq!(state, State::Lost);
    // no other cell moved that turn
    for y in 0..3usize {
        for x in 0..3usize {
            if (x, y) != (0, 0) {
                assert_eq!(board[y][x], Element::Unknown);
            }
        }
    }
}

#[test]
fn three_by_three_game_is_won() {
    let sol = sol3();
    let mut board = board3();
    let mut state = State::Playing;
    assert!(operate(&mut board, &Operation::Click, (2, 2), &sol, &mut state));
    assert_eq!(state, State::Playing);
    // reveal the numbered cells the cascade does not reach
    assert!(operate(&mut board, &Operation::Click, (1, 0), &sol, &mut state));
    assert!(operate(&mut board, &Operation::Click, (0, 1), &sol, &mut state));
    assert!(operate(&mut board, &Operation::Click, (1, 1), &sol, &mut state));
    assert_eq!(state, State::Playing);
    // flagging the one mine completes the board
    assert!(operate(&mut board, &Operation::FlagOp, (0, 0), &sol, &mut state));
    assert_eq!(state, State::Won);
}

#[test]
fn win_check_runs_even_after_a_refused_operation() {
    let sol = sol3();
    let mut board = vec![
        vec![Element::Flag, Element::Number(1), Element::Number(0)],
        vec![Element::Number(1), Element::Number(1), Element::Number(0)],
        vec![Element::Number(0), Element::Number(0), Element::Number(0)],
    ];
    let mut state = State::Playing;
    let valid = operate(&mut board, &Operation::Click, (1, 0), &sol, &mut state);
    assert!(!valid);
    assert_eq!(state, State::Won);
}

#[test]
fn valid_positions_lie_on_the_board() {
    assert!(is_valid_pos(0, 0, 8));
    assert!(is_valid_pos(7, 7, 8));
    assert!(!is_valid_pos(-1, 0, 8));
    assert!(!is_valid_pos(0, -1, 8));
    assert!(!is_valid_pos(8, 0, 8));
    assert!(!is_valid_pos(0, 8, 8));
}

#[test]
fn neighbor_counts_are_exact() {
    let sol = sol3();
    assert_eq!(get_mines(1, 0, &sol), 1);
    assert_eq!(get_mines(2, 2, &sol), 0);
    assert_eq!(get_mines(1, 1, &sol), 1);
    // counting ignores what the asked cell itself holds
    assert_eq!(get_mines(0, 0, &sol), 0);
}
