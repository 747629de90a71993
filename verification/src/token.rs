//! Extraction of the token under a cursor from one line of text.
//!
//! A token is a maximal run of non-delimiter bytes. Given a byte offset into
//! a line, `extract` returns the token around that offset; an offset that
//! sits exactly on a delimiter yields the empty token.

use vstd::prelude::*;

verus! {

/// The fixed delimiter set, as byte values: space (32), the punctuation set
/// `{ } ( ) [ ] , # + - / * ; < > & ! " ' % $ ? ~ ^ |`, and the line breaks
/// `\n` (10) and `\r` (13).
pub open spec fn is_delimiter(b: u8) -> bool {
    ||| b == 32u8  // ' '
    ||| b == 123u8  // '{'
    ||| b == 125u8  // '}'
    ||| b == 40u8  // '('
    ||| b == 41u8  // ')'
    ||| b == 91u8  // '['
    ||| b == 93u8  // ']'
    ||| b == 44u8  // ','
    ||| b == 35u8  // '#'
    ||| b == 43u8  // '+'
    ||| b == 45u8  // '-'
    ||| b == 47u8  // '/'
    ||| b == 42u8  // '*'
    ||| b == 59u8  // ';'
    ||| b == 60u8  // '<'
    ||| b == 62u8  // '>'
    ||| b == 38u8  // '&'
    ||| b == 33u8  // '!'
    ||| b == 34u8  // '"'
    ||| b == 39u8  // '\''
    ||| b == 37u8  // '%'
    ||| b == 36u8  // '$'
    ||| b == 63u8  // '?'
    ||| b == 126u8  // '~'
    ||| b == 94u8  // '^'
    ||| b == 124u8  // '|'
    ||| b == 10u8  // '\n'
    ||| b == 13u8  // '\r'
}

pub fn delimiter(b: u8) -> (r: bool)
    ensures
        r == is_delimiter(b),
{
    match b {
        32u8 | 123u8 | 125u8 | 40u8 | 41u8 | 91u8 | 93u8 | 44u8 | 35u8 | 43u8 | 45u8 | 47u8
            | 42u8 | 59u8 | 60u8 | 62u8 | 38u8 | 33u8 | 34u8 | 39u8 | 37u8 | 36u8 | 63u8
            | 126u8 | 94u8 | 124u8 | 10u8 | 13u8 => true,
        _ => false,
    }
}

/// Leftmost index of the token around `off`: scan left while the preceding
/// byte is not a delimiter.
pub open spec fn token_start(s: Seq<u8>, off: int) -> int
    decreases off,
{
    if off <= 0 {
        0
    } else if is_delimiter(s[off - 1]) {
        off
    } else {
        token_start(s, off - 1)
    }
}

/// One past the rightmost index of the token around `off`: scan right while
/// the byte at the cursor is not a delimiter.
pub open spec fn token_end(s: Seq<u8>, off: int) -> int
    decreases s.len() - off,
{
    if off >= s.len() {
        s.len() as int
    } else if is_delimiter(s[off]) {
        off
    } else {
        token_end(s, off + 1)
    }
}

/// What `extract` returns: empty when the cursor sits exactly on a
/// delimiter, otherwise the maximal delimiter-free span around the cursor.
pub open spec fn spec_extract(s: Seq<u8>, off: int) -> Seq<u8> {
    if 0 <= off < s.len() && is_delimiter(s[off]) {
        Seq::empty()
    } else {
        s.subrange(token_start(s, off), token_end(s, off))
    }
}

/// The token around a cursor offset in a line of text.
pub fn extract(line: &Vec<u8>, offset: usize) -> (token: Vec<u8>)
    requires
        offset <= line.len(),
    ensures
        token@ == spec_extract(line@, offset as int),
{
    if offset < line.len() && delimiter(line[offset]) {
        return Vec::new();
    }

    let mut start: usize = offset;
    loop
        invariant_except_break
            start <= offset <= line.len(),
            token_start(line@, offset as int) == token_start(line@, start as int),
        ensures
            start <= offset,
            start as int == token_start(line@, offset as int),
        decreases start,
    {
        if start == 0 {
            break;
        }
        if delimiter(line[start - 1]) {
            break;
        }
        assert(token_start(line@, start as int) == token_start(line@, start as int - 1));
        start = start - 1;
    }

    let mut end: usize = offset;
    loop
        invariant_except_break
            offset <= end <= line.len(),
            token_end(line@, offset as int) == token_end(line@, end as int),
        ensures
            offset <= end <= line.len(),
            end as int == token_end(line@, offset as int),
        decreases line.len() - end,
    {
        if end == line.len() {
            break;
        }
        if delimiter(line[end]) {
            break;
        }
        assert(token_end(line@, end as int) == token_end(line@, end as int + 1));
        end = end + 1;
    }

    let mut token: Vec<u8> = Vec::new();
    assert(token@ =~= line@.subrange(start as int, start as int));
    let mut i: usize = start;
    while i < end
        invariant
            start <= i <= end <= line.len(),
            token@ == line@.subrange(start as int, i as int),
        decreases end - i,
    {
        token.push(line[i]);
        assert(token@ =~= line@.subrange(start as int, i as int + 1));
        i = i + 1;
    }
    token
}

} // verus!
