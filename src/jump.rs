use vstd::prelude::*;
use crate::error::ExecError;

verus! {

/// How a character changes the loop nesting depth.
pub open spec fn delta(c: char) -> int {
    if c == '[' {
        1
    } else if c == ']' {
        -1
    } else {
        0
    }
}

/// Loop-opens minus loop-closes among the first `k` characters of `s`.
pub open spec fn depth(s: Seq<char>, k: int) -> int
    decreases k,
{
    if k <= 0 {
        0
    } else {
        depth(s, k - 1) + delta(s[k - 1])
    }
}

pub open spec fn is_delim(c: char) -> bool {
    c == '[' || c == ']'
}

/// The loop-close at `c` is the one that pairs with the loop-open at `o`:
/// the depth first falls back to the depth before `o` right after `c`.
pub open spec fn matches_at(s: Seq<char>, o: int, c: int) -> bool {
    &&& 0 <= o < c < s.len()
    &&& s[o] == '['
    &&& s[c] == ']'
    &&& depth(s, c + 1) == depth(s, o)
    &&& forall|k: int| o < k <= c ==> #[trigger] depth(s, k) > depth(s, o)
}

/// No prefix of `s` holds more loop-closes than loop-opens.
pub open spec fn closes_covered(s: Seq<char>) -> bool {
    forall|k: int| 0 <= k <= s.len() ==> #[trigger] depth(s, k) >= 0
}

/// Every loop delimiter of `s` has a partner.
pub open spec fn balanced(s: Seq<char>) -> bool {
    closes_covered(s) && depth(s, s.len() as int) == 0
}

/// `pos` is the first loop-close with no loop-open before it to pair with.
pub open spec fn first_unmatched_close(s: Seq<char>, pos: int) -> bool {
    &&& 0 <= pos < s.len()
    &&& s[pos] == ']'
    &&& depth(s, pos) == 0
    &&& forall|k: int| 0 <= k <= pos ==> #[trigger] depth(s, k) >= 0
}

/// The structural error of a program, if it has one: the first unmatched
/// loop-close, else the presence of an unmatched loop-open.
pub open spec fn structure_error(s: Seq<char>) -> Option<ExecError> {
    if exists|p: int| first_unmatched_close(s, p) {
        Some(ExecError::UnmatchedClose { pos: (choose|p: int| first_unmatched_close(s, p)) as usize })
    } else if depth(s, s.len() as int) != 0 {
        Some(ExecError::UnmatchedOpen)
    } else {
        None
    }
}

/// The delimiter paired with the delimiter at `x`.
pub open spec fn partner(s: Seq<char>, x: int) -> int {
    if s[x] == '[' {
        choose|c: int| matches_at(s, x, c)
    } else {
        choose|o: int| matches_at(s, o, x)
    }
}

/// `t` holds, at each delimiter of `s`, the position of its partner, and
/// nothing elsewhere.
pub open spec fn is_jump_table(s: Seq<char>, t: Seq<Option<usize>>) -> bool {
    &&& t.len() == s.len()
    &&& forall|x: int|
        0 <= x < s.len() ==> #[trigger] t[x] == if is_delim(s[x]) {
            Some(partner(s, x) as usize)
        } else {
            None
        }
}

pub(crate) proof fn lemma_depth_step(s: Seq<char>, k: int)
    requires
        0 <= k,
    ensures
        depth(s, k + 1) == depth(s, k) + delta(s[k]),
{
}

proof fn lemma_depth_bound(s: Seq<char>, k: int)
    requires
        0 <= k,
    ensures
        -k <= depth(s, k) <= k,
    decreases k,
{
    if k > 0 {
        lemma_depth_bound(s, k - 1);
    }
}

proof fn lemma_close_unique(s: Seq<char>, o: int, c1: int, c2: int)
    requires
        matches_at(s, o, c1),
        matches_at(s, o, c2),
    ensures
        c1 == c2,
{
    if c1 < c2 {
        assert(depth(s, c1 + 1) > depth(s, o));
    } else if c2 < c1 {
        assert(depth(s, c2 + 1) > depth(s, o));
    }
}

pub(crate) proof fn lemma_open_unique(s: Seq<char>, o1: int, o2: int, c: int)
    requires
        matches_at(s, o1, c),
        matches_at(s, o2, c),
    ensures
        o1 == o2,
{
    if o1 < o2 {
        assert(depth(s, o2) > depth(s, o1));
    } else if o2 < o1 {
        assert(depth(s, o1) > depth(s, o2));
    }
}

proof fn lemma_first_unmatched_unique(s: Seq<char>, p1: int, p2: int)
    requires
        first_unmatched_close(s, p1),
        first_unmatched_close(s, p2),
    ensures
        p1 == p2,
{
    if p1 < p2 {
        lemma_depth_step(s, p1);
        assert(depth(s, p1 + 1) >= 0);
    } else if p2 < p1 {
        lemma_depth_step(s, p2);
        assert(depth(s, p2 + 1) >= 0);
    }
}

proof fn lemma_covered_no_unmatched(s: Seq<char>)
    requires
        closes_covered(s),
    ensures
        !exists|p: int| first_unmatched_close(s, p),
{
    assert forall|p: int| !first_unmatched_close(s, p) by {
        if first_unmatched_close(s, p) {
            lemma_depth_step(s, p);
            assert(depth(s, p + 1) >= 0);
        }
    }
}

/// The first prefix that goes below zero ends in an unmatched loop-close.
proof fn lemma_uncovered_has_unmatched(s: Seq<char>, k: int)
    requires
        0 <= k <= s.len(),
        depth(s, k) < 0,
    ensures
        exists|p: int| first_unmatched_close(s, p),
    decreases k,
{
    if k > 0 {
        if exists|j: int| 0 <= j < k && #[trigger] depth(s, j) < 0 {
            let j = choose|j: int| 0 <= j < k && #[trigger] depth(s, j) < 0;
            lemma_uncovered_has_unmatched(s, j);
        } else {
            lemma_depth_step(s, k - 1);
            assert(depth(s, k - 1) >= 0);
            assert(first_unmatched_close(s, k - 1));
        }
    }
}

/// Scanning right from a loop-open, the depth returns to its level.
proof fn lemma_open_finds_close(s: Seq<char>, o: int, k: int)
    requires
        0 <= o < k <= s.len(),
        forall|j: int| o < j <= k ==> #[trigger] depth(s, j) > depth(s, o),
        depth(s, s.len() as int) <= depth(s, o),
    ensures
        exists|c: int| matches_at(s, o, c),
    decreases s.len() - k,
{
    lemma_depth_step(s, k);
    lemma_depth_step(s, o);
    if depth(s, k + 1) == depth(s, o) {
        assert(matches_at(s, o, k));
    } else {
        assert forall|j: int| o < j <= k + 1 implies #[trigger] depth(s, j) > depth(s, o) by {
            if j <= k {
            }
        }
        lemma_open_finds_close(s, o, k + 1);
    }
}

/// Scanning left from a loop-close, the depth returns to its level.
proof fn lemma_close_finds_open(s: Seq<char>, c: int, k: int)
    requires
        0 <= k <= c < s.len(),
        forall|j: int| k <= j <= c ==> #[trigger] depth(s, j) > depth(s, c + 1),
        depth(s, c + 1) >= 0,
    ensures
        exists|o: int| matches_at(s, o, c),
    decreases k,
{
    lemma_depth_step(s, c);
    if k == 0 {
        assert(depth(s, 0) == 0);
    } else {
        lemma_depth_step(s, k - 1);
        if depth(s, k - 1) == depth(s, c + 1) {
            assert(matches_at(s, k - 1, c));
        } else {
            lemma_close_finds_open(s, c, k - 1);
        }
    }
}

proof fn lemma_partner_of_open(s: Seq<char>, o: int)
    requires
        balanced(s),
        0 <= o < s.len(),
        s[o] == '[',
    ensures
        matches_at(s, o, partner(s, o)),
{
    lemma_depth_step(s, o);
    lemma_open_finds_close(s, o, o + 1);
}

proof fn lemma_partner_of_close(s: Seq<char>, c: int)
    requires
        balanced(s),
        0 <= c < s.len(),
        s[c] == ']',
    ensures
        matches_at(s, partner(s, c), c),
{
    lemma_depth_step(s, c);
    lemma_close_finds_open(s, c, c);
}

/// A program is free of structural errors exactly when every loop delimiter
/// has a partner.
pub proof fn lemma_no_error_iff_balanced(s: Seq<char>)
    ensures
        structure_error(s) is None <==> balanced(s),
{
    if balanced(s) {
        lemma_covered_no_unmatched(s);
    } else if !closes_covered(s) {
        let k = choose|k: int| 0 <= k <= s.len() && !(#[trigger] depth(s, k) >= 0);
        lemma_uncovered_has_unmatched(s, k);
    }
}

/// In a program whose delimiters all pair up, the partner of a delimiter is
/// a delimiter whose partner is the first one: the jump table is its own
/// inverse.
pub proof fn lemma_jump_pairs_mutual(s: Seq<char>, x: int)
    requires
        balanced(s),
        0 <= x < s.len(),
        is_delim(s[x]),
    ensures
        0 <= partner(s, x) < s.len(),
        is_delim(s[partner(s, x)]),
        partner(s, partner(s, x)) == x,
{
    if s[x] == '[' {
        lemma_partner_of_open(s, x);
        let c = partner(s, x);
        lemma_partner_of_close(s, c);
        lemma_open_unique(s, x, partner(s, c), c);
    } else {
        lemma_partner_of_close(s, x);
        let o = partner(s, x);
        lemma_partner_of_open(s, o);
        lemma_close_unique(s, o, x, partner(s, o));
    }
}

/// A loop-close with no unmatched loop-open before it, and no such close
/// earlier, is the one the structural error names.
pub proof fn lemma_unmatched_close_reported(s: Seq<char>, c: int)
    requires
        0 <= c < s.len(),
        s[c] == ']',
        depth(s, c) == 0,
        forall|k: int| 0 <= k < c ==> #[trigger] depth(s, k) >= 0,
    ensures
        structure_error(s) == Some(ExecError::UnmatchedClose { pos: c as usize }),
{
    assert(first_unmatched_close(s, c));
    let p = choose|p: int| first_unmatched_close(s, p);
    lemma_first_unmatched_unique(s, p, c);
}

/// A loop-open that nothing after it closes, with no unmatched loop-close
/// before it, makes the program fail with an unmatched-open error.
pub proof fn lemma_unmatched_open_reported(s: Seq<char>, o: int)
    requires
        0 <= o < s.len(),
        s[o] == '[',
        forall|k: int| o < k <= s.len() ==> #[trigger] depth(s, k) > depth(s, o),
        forall|k: int| 0 <= k <= o ==> #[trigger] depth(s, k) >= 0,
    ensures
        structure_error(s) == Some(ExecError::UnmatchedOpen),
{
    assert forall|k: int| 0 <= k <= s.len() implies #[trigger] depth(s, k) >= 0 by {
        if k > o {
            assert(depth(s, o) >= 0);
        }
    }
    lemma_covered_no_unmatched(s);
    assert(depth(s, s.len() as int) > depth(s, o));
}

/// No delimiter before position `i` is left without its partner in `t` or a
/// place on the stack of pending loop-opens.
spec fn pending_or_paired(s: Seq<char>, t: Seq<Option<usize>>, stack: Seq<usize>, i: int) -> bool {
    forall|x: int|
        0 <= x < i && is_delim(#[trigger] s[x]) ==> t[x] is Some || (s[x] == '[' && stack.contains(
            x as usize,
        ))
}

/// Pairs every loop-open of `code` with its loop-close, in both directions.
/// Fails with the first loop-close that has no loop-open before it, or, when
/// loop-opens are left over at the end, with an unmatched-open error.
pub fn build_jump_table(code: &Vec<char>) -> (r: Result<Vec<Option<usize>>, ExecError>)
    ensures
        match r {
            Ok(t) => structure_error(code@) is None && is_jump_table(code@, t@),
            Err(e) => structure_error(code@) == Some(e),
        },
{
    let ghost s = code@;
    let n: usize = code.len();
    let mut table: Vec<Option<usize>> = vec![None; n];
    let mut stack: Vec<usize> = Vec::new();
    let mut i: usize = 0;
    while i < n
        invariant
            n == s.len(),
            s == code@,
            i <= n,
            table@.len() == n,
            stack@.len() == depth(s, i as int),
            forall|k: int| 0 <= k <= i ==> #[trigger] depth(s, k) >= 0,
            forall|j: int|
                0 <= j < stack@.len() ==> {
                    &&& #[trigger] stack@[j] < i
                    &&& s[stack@[j] as int] == '['
                    &&& depth(s, stack@[j] as int) == j
                    &&& forall|k: int| stack@[j] < k <= i ==> #[trigger] depth(s, k) > j
                },
            forall|x: int|
                0 <= x < n && (#[trigger] table@[x]) is Some ==> x < i && {
                    let y = table@[x]->Some_0 as int;
                    matches_at(s, x, y) || matches_at(s, y, x)
                },
            pending_or_paired(s, table@, stack@, i as int),
        decreases n - i,
    {
        proof {
            lemma_depth_step(s, i as int);
        }
        let c = code[i];
        if c == '[' {
            proof {
                lemma_depth_bound(s, i as int);
            }
            let ghost old_stack = stack@;
            stack.push(i);
            assert forall|j: int| 0 <= j < stack@.len() implies ({
                &&& #[trigger] stack@[j] < i + 1
                &&& s[stack@[j] as int] == '['
                &&& depth(s, stack@[j] as int) == j
                &&& forall|k: int| stack@[j] < k <= i + 1 ==> #[trigger] depth(s, k) > j
            }) by {
                if j < old_stack.len() {
                    assert(stack@[j] == old_stack[j]);
                }
            }
            assert forall|x: int| 0 <= x < i + 1 && is_delim(#[trigger] s[x]) implies table@[x] is Some
                || (s[x] == '[' && stack@.contains(x as usize)) by {
                if x < i {
                    if !(table@[x] is Some) {
                        let w = choose|w: int| 0 <= w < old_stack.len() && old_stack[w] == x as usize;
                        assert(stack@[w] == x as usize);
                    }
                } else {
                    assert(stack@[stack@.len() - 1] == x as usize);
                }
            }
        } else if c == ']' {
            if stack.len() == 0 {
                proof {
                    assert(first_unmatched_close(s, i as int));
                    let p = choose|p: int| first_unmatched_close(s, p);
                    lemma_first_unmatched_unique(s, p, i as int);
                }
                return Err(ExecError::UnmatchedClose { pos: i });
            }
            let ghost old_stack = stack@;
            let ghost old_table = table@;
            let open = stack.pop().unwrap();
            let ghost top = old_stack.len() - 1;
            assert(open == old_stack[top]);
            assert(matches_at(s, open as int, i as int)) by {
                assert forall|k: int| open < k <= i implies #[trigger] depth(s, k) > depth(s, open as int) by {
                    assert(depth(s, k) > top);
                }
            }
            table.set(open, Some(i));
            table.set(i, Some(open));
            assert forall|j: int| 0 <= j < stack@.len() implies ({
                &&& #[trigger] stack@[j] < i + 1
                &&& s[stack@[j] as int] == '['
                &&& depth(s, stack@[j] as int) == j
                &&& forall|k: int| stack@[j] < k <= i + 1 ==> #[trigger] depth(s, k) > j
            }) by {
                assert(stack@[j] == old_stack[j]);
            }
            assert forall|x: int| 0 <= x < i + 1 && is_delim(#[trigger] s[x]) implies table@[x] is Some
                || (s[x] == '[' && stack@.contains(x as usize)) by {
                if x < i && x != open && !(old_table[x] is Some) {
                    let w = choose|w: int| 0 <= w < old_stack.len() && old_stack[w] == x as usize;
                    if w == top {
                        assert(x == open);
                    }
                    assert(stack@[w] == x as usize);
                }
            }
        } else {
            assert forall|x: int| 0 <= x < i + 1 && is_delim(#[trigger] s[x]) implies table@[x] is Some
                || (s[x] == '[' && stack@.contains(x as usize)) by {
                if x < i {
                }
            }
        }
        i += 1;
    }
    if stack.len() > 0 {
        proof {
            lemma_covered_no_unmatched(s);
        }
        return Err(ExecError::UnmatchedOpen);
    }
    proof {
        lemma_covered_no_unmatched(s);
        assert forall|x: int| 0 <= x < s.len() implies #[trigger] table@[x] == if is_delim(s[x]) {
            Some(partner(s, x) as usize)
        } else {
            None
        } by {
            if is_delim(s[x]) {
                assert(table@[x] is Some);
                let y = table@[x]->Some_0 as int;
                if s[x] == '[' {
                    assert(matches_at(s, x, y));
                    lemma_partner_of_open(s, x);
                    lemma_close_unique(s, x, y, partner(s, x));
                } else {
                    assert(matches_at(s, y, x));
                    lemma_partner_of_close(s, x);
                    lemma_open_unique(s, y, partner(s, x), x);
                }
            } else if table@[x] is Some {
                let y = table@[x]->Some_0 as int;
                assert(matches_at(s, x, y) || matches_at(s, y, x));
            }
        }
    }
    Ok(table)
}

} // verus!
