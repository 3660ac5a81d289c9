use vstd::prelude::*;
use vstd::string::StringSliceAdditionalSpecFns;
use crate::game::Operation;

verus! {

/// Why a coordinate line was rejected: the two integers parsed but lie off
/// the board, or the line does not have the `X Y` shape at all.
#[derive(Copy, Clone, PartialEq, Eq, Structural, Debug)]
pub enum LocationError {
    OutOfRange,
    Malformed,
}

/// An ASCII decimal digit byte.
pub open spec fn is_digit(b: u8) -> bool {
    48 <= b <= 57
}

/// The byte length of the whitespace character that starts at `i`, or 0 if
/// none does. Whitespace is Unicode's, as the input splitting and trimming
/// have it: the ASCII range (tab through carriage return, and space), NEL,
/// NO-BREAK SPACE, OGHAM SPACE MARK, the EN QUAD through HAIR SPACE run,
/// LINE and PARAGRAPH SEPARATOR, NARROW NO-BREAK SPACE, MEDIUM MATHEMATICAL
/// SPACE and IDEOGRAPHIC SPACE, each matched by its UTF-8 bytes. The bytes
/// come from `str`, so they are valid UTF-8, and no whitespace encoding can
/// begin inside another character.
pub open spec fn ws_len_at(s: Seq<u8>, i: int) -> int {
    if i < s.len() && (s[i] == 32 || (9 <= s[i] && s[i] <= 13)) {
        1
    } else if i + 1 < s.len() && s[i] == 0xc2 && (s[i + 1] == 0x85 || s[i + 1] == 0xa0) {
        2
    } else if i + 2 < s.len() && s[i] == 0xe1 && s[i + 1] == 0x9a && s[i + 2] == 0x80 {
        3
    } else if i + 2 < s.len() && s[i] == 0xe2 && s[i + 1] == 0x80 && ((0x80 <= s[i + 2] && s[i + 2]
        <= 0x8a) || s[i + 2] == 0xa8 || s[i + 2] == 0xa9 || s[i + 2] == 0xaf) {
        3
    } else if i + 2 < s.len() && s[i] == 0xe2 && s[i + 1] == 0x81 && s[i + 2] == 0x9f {
        3
    } else if i + 2 < s.len() && s[i] == 0xe3 && s[i + 1] == 0x80 && s[i + 2] == 0x80 {
        3
    } else {
        0
    }
}

/// The first index at or after `i` where no whitespace character starts.
pub open spec fn skip_ws(s: Seq<u8>, i: int) -> int
    decreases s.len() - i
    when 0 <= i <= s.len()
{
    if ws_len_at(s, i) > 0 {
        skip_ws(s, i + ws_len_at(s, i))
    } else {
        i
    }
}

/// The first index at or after `i` that does not hold a digit.
pub open spec fn skip_digits(s: Seq<u8>, i: int) -> int
    decreases s.len() - i
    when 0 <= i <= s.len()
{
    if i < s.len() && is_digit(s[i]) {
        skip_digits(s, i + 1)
    } else {
        i
    }
}

/// The value of one decimal digit byte; 0 on anything else.
pub open spec fn digit_val(b: u8) -> nat {
    if is_digit(b) {
        (b - 48) as nat
    } else {
        0nat
    }
}

/// The value of a string of decimal digits, most significant first.
pub open spec fn digits_val(s: Seq<u8>) -> nat
    decreases s.len(),
{
    if s.len() == 0 {
        0nat
    } else {
        digits_val(s.drop_last()) * 10 + digit_val(s.last())
    }
}

/// The line, once trimmed of whitespace on both sides, is exactly the one
/// byte `b`.
pub open spec fn op_token(s: Seq<u8>, b: u8) -> bool {
    let i = skip_ws(s, 0);
    i < s.len() && s[i] == b && skip_ws(s, i + 1) == s.len()
}

/// Where the first number of a coordinate line starts, sign included.
pub open spec fn loc_i1(s: Seq<u8>) -> int {
    skip_ws(s, 0)
}

/// Where the digits of the first number start: one optional leading `+` is
/// accepted, as integer parsing accepts it.
pub open spec fn loc_d1(s: Seq<u8>) -> int {
    if loc_i1(s) < s.len() && s[loc_i1(s)] == 43 {
        loc_i1(s) + 1
    } else {
        loc_i1(s)
    }
}

/// Where the digits of the first number end.
pub open spec fn loc_j1(s: Seq<u8>) -> int {
    skip_digits(s, loc_d1(s))
}

/// Where the second number starts, sign included.
pub open spec fn loc_i2(s: Seq<u8>) -> int {
    skip_ws(s, loc_j1(s))
}

/// Where the digits of the second number start, past an optional `+`.
pub open spec fn loc_d2(s: Seq<u8>) -> int {
    if loc_i2(s) < s.len() && s[loc_i2(s)] == 43 {
        loc_i2(s) + 1
    } else {
        loc_i2(s)
    }
}

/// Where the digits of the second number end.
pub open spec fn loc_j2(s: Seq<u8>) -> int {
    skip_digits(s, loc_d2(s))
}

/// The line has the shape `X Y`: optional whitespace, a number, whitespace,
/// a number, optional whitespace, and nothing else, where a number is an
/// optional `+` followed by at least one digit.
pub open spec fn loc_shape_ok(s: Seq<u8>) -> bool {
    &&& loc_d1(s) < loc_j1(s)
    &&& loc_j1(s) < loc_i2(s)
    &&& loc_d2(s) < loc_j2(s)
    &&& skip_ws(s, loc_j2(s)) == s.len()
}

/// The first coordinate the line carries.
pub open spec fn loc_x(s: Seq<u8>) -> nat {
    digits_val(s.subrange(loc_d1(s), loc_j1(s)))
}

/// The second coordinate the line carries.
pub open spec fn loc_y(s: Seq<u8>) -> nat {
    digits_val(s.subrange(loc_d2(s), loc_j2(s)))
}

/// Both coordinates fit in a byte.
pub open spec fn loc_fits(s: Seq<u8>) -> bool {
    loc_x(s) <= 255 && loc_y(s) <= 255
}

fn ws_len_at_exec(bytes: &[u8], i: usize) -> (w: usize)
    requires
        i < bytes@.len(),
    ensures
        w as int == ws_len_at(bytes@, i as int),
        i + w <= bytes@.len(),
{
    let n = bytes.len();
    let b = bytes[i];
    if b == 32 || (9 <= b && b <= 13) {
        1
    } else if n - i > 1 && b == 0xc2 && (bytes[i + 1] == 0x85 || bytes[i + 1] == 0xa0) {
        2
    } else if n - i > 2 && b == 0xe1 && bytes[i + 1] == 0x9a && bytes[i + 2] == 0x80 {
        3
    } else if n - i > 2 && b == 0xe2 && bytes[i + 1] == 0x80 && ((0x80 <= bytes[i + 2] && bytes[i
        + 2] <= 0x8a) || bytes[i + 2] == 0xa8 || bytes[i + 2] == 0xa9 || bytes[i + 2] == 0xaf) {
        3
    } else if n - i > 2 && b == 0xe2 && bytes[i + 1] == 0x81 && bytes[i + 2] == 0x9f {
        3
    } else if n - i > 2 && b == 0xe3 && bytes[i + 1] == 0x80 && bytes[i + 2] == 0x80 {
        3
    } else {
        0
    }
}

fn is_digit_byte(b: u8) -> (r: bool)
    ensures
        r == is_digit(b),
{
    48 <= b && b <= 57
}

/// Advance `from` past every whitespace character.
fn skip_ws_exec(bytes: &[u8], from: usize) -> (r: usize)
    requires
        from <= bytes@.len(),
    ensures
        r as int == skip_ws(bytes@, from as int),
        from <= r <= bytes@.len(),
{
    let ghost s = bytes@;
    let n = bytes.len();
    let mut i = from;
    while i < n && ws_len_at_exec(bytes, i) > 0
        invariant
            from <= i <= n,
            n == s.len(),
            bytes@ == s,
            skip_ws(s, from as int) == skip_ws(s, i as int),
        decreases n - i,
    {
        let w = ws_len_at_exec(bytes, i);
        proof {
            assert(skip_ws(s, i as int) == skip_ws(s, i as int + w as int));
        }
        i += w;
    }
    proof {
        assert(ws_len_at(s, i as int) == 0);
        assert(skip_ws(s, i as int) == i as int);
    }
    i
}

/// Read the operation token: the line, once trimmed, must be exactly `C`,
/// `F` or `Q`.
pub fn parse_operation(input: &str) -> (r: Option<Operation>)
    ensures
        ({
            let s = input.spec_bytes();
            &&& (r == Some(Operation::Click)) <==> op_token(s, 67)
            &&& (r == Some(Operation::FlagOp)) <==> op_token(s, 70)
            &&& (r == Some(Operation::QuestionMarkOp)) <==> op_token(s, 81)
        }),
{
    let bytes = input.as_bytes();
    let ghost s = input.spec_bytes();
    let n = bytes.len();
    let i = skip_ws_exec(bytes, 0);
    if i == n {
        return None;
    }
    let b = bytes[i];
    let t = skip_ws_exec(bytes, i + 1);
    if t != n {
        return None;
    }
    if b == 67 {
        Some(Operation::Click)
    } else if b == 70 {
        Some(Operation::FlagOp)
    } else if b == 81 {
        Some(Operation::QuestionMarkOp)
    } else {
        None
    }
}

/// Read a coordinate line `X Y` against a board of side `size`: two
/// whitespace-separated decimal numbers (an optional leading `+` each),
/// both under `size`.
pub fn parse_location(input: &str, size: u8) -> (r: Result<(u8, u8), LocationError>)
    ensures
        ({
            let s = input.spec_bytes();
            &&& (r is Ok) <==> (loc_shape_ok(s) && loc_fits(s) && loc_x(s) < size && loc_y(s)
                < size)
            &&& (r matches Ok(p) ==> p.0 as nat == loc_x(s) && p.1 as nat == loc_y(s))
            &&& (r == Err::<(u8, u8), LocationError>(LocationError::OutOfRange)) <==> (loc_shape_ok(
                s,
            ) && loc_fits(s) && !(loc_x(s) < size && loc_y(s) < size))
            &&& (r == Err::<(u8, u8), LocationError>(LocationError::Malformed)) <==> !(loc_shape_ok(
                s,
            ) && loc_fits(s))
        }),
{
    let bytes = input.as_bytes();
    let ghost s = input.spec_bytes();
    let n = bytes.len();
    let i = skip_ws_exec(bytes, 0);
    let mut d: usize = i;
    if i < n && bytes[i] == 43 {
        d = i + 1;
    }
    proof {
        assert(loc_d1(s) == d as int);
    }
    let mut j: usize = d;
    let mut vx: u32 = 0;
    while j < n && is_digit_byte(bytes[j])
        invariant
            d <= j <= n,
            n == s.len(),
            bytes@ == s,
            loc_d1(s) == d as int,
            skip_digits(s, d as int) == skip_digits(s, j as int),
            (vx as nat == digits_val(s.subrange(d as int, j as int)) && vx <= 255) || (vx == 256
                && digits_val(s.subrange(d as int, j as int)) > 255),
        decreases n - j,
    {
        let dv = bytes[j] - 48;
        proof {
            let sub1 = s.subrange(d as int, j as int + 1);
            assert(sub1.drop_last() =~= s.subrange(d as int, j as int));
            assert(sub1.last() == s[j as int]);
            assert(digits_val(sub1) == digits_val(s.subrange(d as int, j as int)) * 10 + digit_val(
                s[j as int],
            ));
        }
        if vx > 255 {
            vx = 256;
        } else {
            vx = vx * 10 + dv as u32;
            if vx > 255 {
                vx = 256;
            }
        }
        j += 1;
    }
    proof {
        assert(skip_digits(s, j as int) == j as int);
        assert(loc_j1(s) == j as int);
    }
    if j == d {
        return Err(LocationError::Malformed);
    }
    let k = skip_ws_exec(bytes, j);
    proof {
        assert(loc_i2(s) == k as int);
    }
    if k == j {
        return Err(LocationError::Malformed);
    }
    let mut d2: usize = k;
    if k < n && bytes[k] == 43 {
        d2 = k + 1;
    }
    proof {
        assert(loc_d2(s) == d2 as int);
    }
    let mut m: usize = d2;
    let mut vy: u32 = 0;
    while m < n && is_digit_byte(bytes[m])
        invariant
            d2 <= m <= n,
            n == s.len(),
            bytes@ == s,
            loc_d2(s) == d2 as int,
            skip_digits(s, d2 as int) == skip_digits(s, m as int),
            (vy as nat == digits_val(s.subrange(d2 as int, m as int)) && vy <= 255) || (vy == 256
                && digits_val(s.subrange(d2 as int, m as int)) > 255),
        decreases n - m,
    {
        let dv = bytes[m] - 48;
        proof {
            let sub1 = s.subrange(d2 as int, m as int + 1);
            assert(sub1.drop_last() =~= s.subrange(d2 as int, m as int));
            assert(sub1.last() == s[m as int]);
            assert(digits_val(sub1) == digits_val(s.subrange(d2 as int, m as int)) * 10
                + digit_val(s[m as int]));
        }
        if vy > 255 {
            vy = 256;
        } else {
            vy = vy * 10 + dv as u32;
            if vy > 255 {
                vy = 256;
            }
        }
        m += 1;
    }
    proof {
        assert(skip_digits(s, m as int) == m as int);
        assert(loc_j2(s) == m as int);
    }
    if m == d2 {
        return Err(LocationError::Malformed);
    }
    let t = skip_ws_exec(bytes, m);
    if t != n {
        return Err(LocationError::Malformed);
    }
    if vx > 255 || vy > 255 {
        return Err(LocationError::Malformed);
    }
    let xv = vx as u8;
    let yv = vy as u8;
    if xv < size && yv < size {
        Ok((xv, yv))
    } else {
        Err(LocationError::OutOfRange)
    }
}

} // verus!
