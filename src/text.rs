use vstd::prelude::*;

verus! {

/// The characters of `s`, one element per code point.
pub fn chars_of(s: &str) -> (r: Vec<char>)
    ensures
        r@ == s@,
{
    let mut r: Vec<char> = Vec::new();
    for c in it: s.chars()
        invariant
            it.seq() == s@,
            r@ == it.seq().take(it.index() as int),
    {
        r.push(c);
        assert(r@ =~= it.seq().take(it.index() + 1));
    }
    assert(r@ =~= s@);
    r
}

/// What the input instruction stores when the surrounding tool hands over a
/// whole line: the first byte of the line, or zero for an empty line. A
/// cell holds one byte, so later bytes are not used.
pub fn cell_from_line(line: &Vec<u8>) -> (r: u8)
    ensures
        r == (if line@.len() == 0 { 0u8 } else { line@[0] }),
{
    if line.len() == 0 {
        0
    } else {
        line[0]
    }
}

} // verus!
