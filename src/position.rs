use vstd::prelude::*;

verus! {

/// Number of newline characters among the first `k` characters of `s`.
pub open spec fn newlines_before(s: Seq<char>, k: int) -> int
    decreases k,
{
    if k <= 0 {
        0
    } else {
        newlines_before(s, k - 1) + if s[k - 1] == '\n' { 1int } else { 0int }
    }
}

/// 1-based column of position `k`: one more than the number of characters
/// between the last newline before `k` (or the start) and `k`.
pub open spec fn column_at(s: Seq<char>, k: int) -> int
    decreases k,
{
    if k <= 0 {
        1
    } else if s[k - 1] == '\n' {
        1
    } else {
        column_at(s, k - 1) + 1
    }
}

/// 1-based line of position `k`.
pub open spec fn line_at(s: Seq<char>, k: int) -> int {
    1 + newlines_before(s, k)
}

proof fn lemma_position_bounds(s: Seq<char>, k: int)
    requires
        0 <= k,
    ensures
        0 <= newlines_before(s, k) <= k,
        1 <= column_at(s, k) <= k + 1,
    decreases k,
{
    if k > 0 {
        lemma_position_bounds(s, k - 1);
    }
}

/// Line and column (both 1-based) of position `i` of `code`, or `None` when
/// `i` is not a position of `code`.
pub fn line_char_of(code: &Vec<char>, i: usize) -> (r: Option<(usize, usize)>)
    ensures
        i < code@.len() ==> r == Some(
            (line_at(code@, i as int) as usize, column_at(code@, i as int) as usize),
        ),
        i >= code@.len() ==> r is None,
        r matches Some((l, c)) ==> l == line_at(code@, i as int) && c == column_at(code@, i as int),
{
    if i >= code.len() {
        return None;
    }
    let n: usize = code.len();
    let mut line: usize = 1;
    let mut col: usize = 1;
    let mut j: usize = 0;
    while j < i
        invariant
            n == code@.len(),
            i < n,
            j <= i,
            line == line_at(code@, j as int),
            col == column_at(code@, j as int),
        decreases i - j,
    {
        proof {
            lemma_position_bounds(code@, j as int);
        }
        if code[j] == '\n' {
            line += 1;
            col = 1;
        } else {
            col += 1;
        }
        j += 1;
    }
    Some((line, col))
}

/// Line and column (both 1-based) of the character at position `i` of
/// `code`, counted in characters; `None` when `i` is past the end.
pub fn get_line_char(code: &str, i: usize) -> (r: Option<(usize, usize)>)
    ensures
        i < code@.len() ==> r == Some(
            (line_at(code@, i as int) as usize, column_at(code@, i as int) as usize),
        ),
        i >= code@.len() ==> r is None,
{
    let chars = crate::text::chars_of(code);
    line_char_of(&chars, i)
}

} // verus!
