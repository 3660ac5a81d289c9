use minesweeper::board::Element;
use minesweeper::game::Operation;
use minesweeper::parse::{parse_location, parse_operation, LocationError};
use minesweeper::render::{elem_to_string, render_row};

#[test]
fn operation_tokens_parse_exactly() {
    assert_eq!(parse_operation("C"), Some(Operation::Click));
    assert_eq!(parse_operation("F"), Some(Operation::FlagOp));
    assert_eq!(parse_operation("Q"), Some(Operation::QuestionMarkOp));
    assert_eq!(parse_operation("C\n"), Some(Operation::Click));
    assert_eq!(parse_operation("  F \t\n"), Some(Operation::FlagOp));
}

#[test]
fn operation_tokens_trim_all_whitespace() {
    assert_eq!(parse_operation("C\u{000B}"), Some(Operation::Click));
    assert_eq!(parse_operation("\u{000C}Q\r\n"), Some(Operation::QuestionMarkOp));
    assert_eq!(parse_operation("\u{00A0}F\u{3000}"), Some(Operation::FlagOp));
    assert_eq!(parse_operation("\u{2003}C\u{2028}"), Some(Operation::Click));
}

#[test]
fn bad_operation_tokens_are_refused() {
    assert_eq!(parse_operation(""), None);
    assert_eq!(parse_operation("\n"), None);
    assert_eq!(parse_operation("c"), None);
    assert_eq!(parse_operation("CC"), None);
    assert_eq!(parse_operation("C F"), None);
    assert_eq!(parse_operation("reveal"), None);
}

#[test]
fn coordinates_parse_to_their_values() {
    assert_eq!(parse_location("3 4", 8), Ok((3, 4)));
    assert_eq!(parse_location("0 0\n", 8), Ok((0, 0)));
    assert_eq!(parse_location("  7 \t 7  \n", 8), Ok((7, 7)));
    assert_eq!(parse_location("12 3", 64), Ok((12, 3)));
}

#[test]
fn coordinates_accept_a_leading_plus() {
    assert_eq!(parse_location("+3 4", 8), Ok((3, 4)));
    assert_eq!(parse_location("3 +4", 8), Ok((3, 4)));
    assert_eq!(parse_location("+3 +4", 8), Ok((3, 4)));
    assert_eq!(parse_location("+007 0", 8), Ok((7, 0)));
    assert_eq!(parse_location("++3 4", 8), Err(LocationError::Malformed));
    assert_eq!(parse_location("+ 3 4", 8), Err(LocationError::Malformed));
    assert_eq!(parse_location("3+ 4", 8), Err(LocationError::Malformed));
}

#[test]
fn coordinates_split_on_any_whitespace() {
    assert_eq!(parse_location("3\u{000B}4", 8), Ok((3, 4)));
    assert_eq!(parse_location("3\u{000C}4", 8), Ok((3, 4)));
    assert_eq!(parse_location("3\u{00A0}4", 8), Ok((3, 4)));
    assert_eq!(parse_location("\u{3000}3\u{2003}4\u{2029}", 8), Ok((3, 4)));
    assert_eq!(parse_location("3\u{0085}4", 8), Ok((3, 4)));
}

#[test]
fn out_of_range_coordinates_are_rejected() {
    let board = vec![vec![Element::Unknown; 8]; 8];
    assert_eq!(parse_location("9 9", 8), Err(LocationError::OutOfRange));
    // the rejected line never reaches the dispatcher: the board stays fresh
    assert!(board.iter().all(|row| row.iter().all(|e| *e == Element::Unknown)));
    assert_eq!(parse_location("8 0", 8), Err(LocationError::OutOfRange));
    assert_eq!(parse_location("0 8", 8), Err(LocationError::OutOfRange));
}

#[test]
fn malformed_coordinate_lines_are_rejected() {
    assert_eq!(parse_location("", 8), Err(LocationError::Malformed));
    assert_eq!(parse_location("3", 8), Err(LocationError::Malformed));
    assert_eq!(parse_location("3 4 5", 8), Err(LocationError::Malformed));
    assert_eq!(parse_location("a b", 8), Err(LocationError::Malformed));
    assert_eq!(parse_location("3,4", 8), Err(LocationError::Malformed));
    assert_eq!(parse_location("-1 2", 8), Err(LocationError::Malformed));
    assert_eq!(parse_location("300 1", 8), Err(LocationError::Malformed));
    assert_eq!(parse_location("999999999999 1", 8), Err(LocationError::Malformed));
}

#[test]
fn cells_draw_as_their_glyphs() {
    assert_eq!(elem_to_string(&Element::Flag), "F");
    assert_eq!(elem_to_string(&Element::QuestionMark), "?");
    assert_eq!(elem_to_string(&Element::Unknown), " ");
    assert_eq!(elem_to_string(&Element::Explosion), "#");
    assert_eq!(elem_to_string(&Element::Mine), "*");
    assert_eq!(elem_to_string(&Element::Number(0)), "0");
    assert_eq!(elem_to_string(&Element::Number(5)), "5");
    assert_eq!(elem_to_string(&Element::Number(8)), "8");
}

#[test]
fn rows_draw_as_glyph_lines() {
    let row = vec![
        Element::Unknown,
        Element::Flag,
        Element::Number(3),
        Element::Mine,
        Element::Explosion,
        Element::QuestionMark,
    ];
    assert_eq!(render_row(&row), " F3*#?");
    assert_eq!(render_row(&Vec::new()), "");
}
