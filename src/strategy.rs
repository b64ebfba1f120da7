//! Scoring a rock-paper-scissors strategy guide. Each round is a line such
//! as `"A Y"`: the opponent's shape `A`, `B` or `C`, a space, and a column
//! `X`, `Y` or `Z` whose meaning differs between the two readings.

use crate::text::to_chars;
use vstd::prelude::*;

verus! {

/// The two letters of a well-formed round, as numbers 1 to 3; `None` for
/// any other line.
pub open spec fn round_letters(s: Seq<char>) -> Option<(u32, u32)> {
    if s.len() == 3 && s[1] == ' ' && 'A' <= s[0] && s[0] <= 'C' && 'X' <= s[2] && s[2] <= 'Z' {
        Some((((s[0] as int) - ('A' as int) + 1) as u32, ((s[2] as int) - ('X' as int) + 1) as u32))
    } else {
        None
    }
}

/// The round read as two shapes (1 rock, 2 paper, 3 scissors); `(0, 0)` for
/// a line that is no round.
pub open spec fn shapes_spec(s: Seq<char>) -> (u32, u32) {
    match round_letters(s) {
        Some((a, b)) => (a, b),
        None => (0, 0),
    }
}

/// The round read as the opponent's shape and the outcome that the column
/// asks for (0 loss, 3 draw, 6 win); `(0, 0)` for a line that is no round.
pub open spec fn shape_and_outcome_spec(s: Seq<char>) -> (u32, u32) {
    match round_letters(s) {
        Some((a, b)) => (a, ((b - 1) * 3) as u32),
        None => (0, 0),
    }
}

/// The score of playing shape `b` against shape `a`: the shape's value plus
/// 6 for a win and 3 for a draw.
pub open spec fn score_one(a: u32, b: u32) -> u32 {
    if 1 <= a <= 3 && b == a % 3 + 1 {
        (6 + b) as u32
    } else if 1 <= a <= 3 && a == b {
        (3 + b) as u32
    } else {
        b
    }
}

/// The score of reaching outcome `o` against shape `a`: the outcome plus the
/// value of the shape that reaches it.
pub open spec fn score_two(a: u32, o: u32) -> u32 {
    if o == 3 {
        (a + 3) as u32
    } else if 1 <= a <= 3 && o == 0 {
        ((a + 1) % 3 + 1) as u32
    } else if 1 <= a <= 3 && o == 6 {
        (6 + a % 3 + 1) as u32
    } else {
        0
    }
}

fn letters(round: &str) -> (r: Option<(u32, u32)>)
    ensures
        r == round_letters(round@),
{
    let s = to_chars(round);
    if s.len() == 3 && s[1] == ' ' && 'A' <= s[0] && s[0] <= 'C' && 'X' <= s[2] && s[2] <= 'Z' {
        Some(((s[0] as u32) - ('A' as u32) + 1, (s[2] as u32) - ('X' as u32) + 1))
    } else {
        None
    }
}

/// Reads a round as the two players' shapes.
pub fn chars_to_tuple_one(round: &str) -> (r: (u32, u32))
    ensures
        r == shapes_spec(round@),
{
    match letters(round) {
        Some((a, b)) => (a, b),
        None => (0, 0),
    }
}

/// Reads a round as the opponent's shape and the outcome to reach.
pub fn chars_to_tuple_two(round: &str) -> (r: (u32, u32))
    ensures
        r == shape_and_outcome_spec(round@),
{
    match letters(round) {
        Some((a, b)) => (a, (b - 1) * 3),
        None => (0, 0),
    }
}

/// The score of a round where the column is the shape to play.
pub fn evaulate_round_one(round: &str) -> (r: u32)
    ensures
        r == score_one(shapes_spec(round@).0, shapes_spec(round@).1),
{
    match chars_to_tuple_one(round) {
        (1, 2) => 6 + 2,
        (2, 3) => 6 + 3,
        (3, 1) => 6 + 1,
        (1, 1) => 3 + 1,
        (2, 2) => 3 + 2,
        (3, 3) => 3 + 3,
        (_, b) => b,
    }
}

/// The score of a round where the column is the outcome to reach.
pub fn evaulate_round_two(round: &str) -> (r: u32)
    ensures
        r == score_two(
            shape_and_outcome_spec(round@).0,
            shape_and_outcome_spec(round@).1,
        ),
{
    let (a, o) = chars_to_tuple_two(round);
    assert(a <= 3);
    match (a, o) {
        (a, 3) => a + 3,
        (1, 0) => 3,
        (2, 0) => 1,
        (3, 0) => 2,
        (1, 6) => 2 + 6,
        (2, 6) => 3 + 6,
        (3, 6) => 1 + 6,
        _ => 0,
    }
}

} // verus!
