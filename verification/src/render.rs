use vstd::prelude::*;
use vstd::string::StringExecFns;
use crate::board::Element;

verus! {

/// The digit glyph for a neighbor count, which is at most eight.
pub open spec fn digit_glyph(n: u8) -> char {
    if n == 0 {
        '0'
    } else if n == 1 {
        '1'
    } else if n == 2 {
        '2'
    } else if n == 3 {
        '3'
    } else if n == 4 {
        '4'
    } else if n == 5 {
        '5'
    } else if n == 6 {
        '6'
    } else if n == 7 {
        '7'
    } else {
        '8'
    }
}

/// The glyph a cell is drawn with: space for `Unknown`, `F`, `?`, `#`, `*`,
/// and the digit of a revealed count.
pub open spec fn elem_glyph(e: Element) -> char {
    match e {
        Element::Flag => 'F',
        Element::QuestionMark => '?',
        Element::Unknown => ' ',
        Element::Explosion => '#',
        Element::Mine => '*',
        Element::Number(n) => digit_glyph(n),
    }
}

/// A cell value a game board can actually hold: a number cell carries a
/// neighbor count, which is at most eight.
pub open spec fn elem_ok(e: Element) -> bool {
    match e {
        Element::Number(n) => n <= 8,
        _ => true,
    }
}

/// The one-character text a cell is drawn with.
pub fn elem_to_string(elem: &Element) -> (r: String)
    requires
        elem_ok(*elem),
    ensures
        r@ == seq![elem_glyph(*elem)],
{
    let r = match elem {
        Element::Flag => {
            proof {
                reveal_strlit("F");
            }
            String::from_str("F")
        }
        Element::QuestionMark => {
            proof {
                reveal_strlit("?");
            }
            String::from_str("?")
        }
        Element::Unknown => {
            proof {
                reveal_strlit(" ");
            }
            String::from_str(" ")
        }
        Element::Explosion => {
            proof {
                reveal_strlit("#");
            }
            String::from_str("#")
        }
        Element::Mine => {
            proof {
                reveal_strlit("*");
            }
            String::from_str("*")
        }
        Element::Number(n) => {
            if *n == 0 {
                proof {
                    reveal_strlit("0");
                }
                String::from_str("0")
            } else if *n == 1 {
                proof {
                    reveal_strlit("1");
                }
                String::from_str("1")
            } else if *n == 2 {
                proof {
                    reveal_strlit("2");
                }
                String::from_str("2")
            } else if *n == 3 {
                proof {
                    reveal_strlit("3");
                }
                String::from_str("3")
            } else if *n == 4 {
                proof {
                    reveal_strlit("4");
                }
                String::from_str("4")
            } else if *n == 5 {
                proof {
                    reveal_strlit("5");
                }
                String::from_str("5")
            } else if *n == 6 {
                proof {
                    reveal_strlit("6");
                }
                String::from_str("6")
            } else if *n == 7 {
                proof {
                    reveal_strlit("7");
                }
                String::from_str("7")
            } else {
                proof {
                    reveal_strlit("8");
                }
                String::from_str("8")
            }
        }
    };
    proof {
        assert(r@ =~= seq![elem_glyph(*elem)]);
    }
    r
}

/// The line of glyphs one board row is drawn as.
pub fn render_row(row: &Vec<Element>) -> (r: String)
    requires
        forall|i: int| 0 <= i < row@.len() ==> elem_ok(#[trigger] row@[i]),
    ensures
        r@.len() == row@.len(),
        forall|i: int| 0 <= i < row@.len() ==> r@[i] == elem_glyph(#[trigger] row@[i]),
{
    let mut out = String::new();
    let mut i: usize = 0;
    while i < row.len()
        invariant
            0 <= i <= row@.len(),
            out@.len() == i,
            forall|k: int| 0 <= k < i ==> out@[k] == elem_glyph(#[trigger] row@[k]),
            forall|k: int| 0 <= k < row@.len() ==> elem_ok(#[trigger] row@[k]),
        decreases row@.len() - i,
    {
        let t = elem_to_string(&row[i]);
        out.append(t.as_str());
        i += 1;
    }
    out
}

} // verus!
