//! Places in a text, by bytes and by lines.

use crate::graph::SourceSpan;
use crate::hex::code_of;
use crate::text::{chars_of, cut, text_of};
use vstd::prelude::*;

verus! {

/// How many bytes a character takes in UTF-8.
pub open spec fn width(c: char) -> nat {
    if (c as u32) < 0x80 {
        1
    } else if (c as u32) < 0x800 {
        2
    } else if (c as u32) < 0x10000 {
        3
    } else {
        4
    }
}

/// How many bytes a character takes in UTF-8.
pub fn char_width(c: char) -> (r: usize)
    ensures
        r == width(c),
{
    let n = code_of(c);
    if n < 0x80 {
        1
    } else if n < 0x800 {
        2
    } else if n < 0x10000 {
        3
    } else {
        4
    }
}

/// How many bytes a text takes.
pub open spec fn byte_len(s: Seq<char>) -> nat
    decreases s.len(),
{
    if s.len() == 0 {
        0
    } else {
        byte_len(s.drop_last()) + width(s.last())
    }
}

/// The first characters have no more bytes than all.
proof fn lemma_byte_len_front(s: Seq<char>, n: int)
    requires
        0 <= n <= s.len(),
    ensures
        byte_len(s.take(n)) <= byte_len(s),
    decreases s.len() - n,
{
    if n < s.len() {
        assert(s.take(n + 1).drop_last() =~= s.take(n));
        lemma_byte_len_front(s, n + 1);
    } else {
        assert(s.take(n) =~= s);
    }
}

/// Counts the bytes of a text.
pub fn byte_length(s: &Vec<char>) -> (n: usize)
    requires
        byte_len(s@) <= usize::MAX,
    ensures
        n == byte_len(s@),
{
    let mut n: usize = 0;
    let mut i: usize = 0;
    assert(s@.take(0) =~= Seq::<char>::empty());
    while i < s.len()
        invariant
            i <= s.len(),
            byte_len(s@) <= usize::MAX,
            n == byte_len(s@.take(i as int)),
        decreases s.len() - i,
    {
        proof {
            assert(s@.take(i + 1).drop_last() =~= s@.take(i as int));
            assert(s@.take(i + 1).last() == s@[i as int]);
            lemma_byte_len_front(s@, i + 1);
        }
        n = n + char_width(s[i]);
        i = i + 1;
    }
    assert(s@.take(s@.len() as int) =~= s@);
    n
}

/// How many characters stand in front of a byte; none where the byte is not the first of one.
pub open spec fn index_at(s: Seq<char>, byte: nat) -> Option<nat>
    decreases s.len(),
{
    if byte == 0 {
        Some(0)
    } else if s.len() == 0 || width(s[0]) > byte {
        None
    } else {
        match index_at(s.skip(1), (byte - width(s[0])) as nat) {
            Some(k) => Some(k + 1),
            None => None,
        }
    }
}

/// An index is within the text.
pub proof fn lemma_index_at(s: Seq<char>, byte: nat)
    ensures
        index_at(s, byte) matches Some(k) ==> k <= s.len(),
    decreases s.len(),
{
    if byte > 0 && s.len() > 0 && width(s[0]) <= byte {
        lemma_index_at(s.skip(1), (byte - width(s[0])) as nat);
    }
}

/// Finds how many characters stand in front of a byte.
pub fn find_index(s: &Vec<char>, byte: usize) -> (r: Option<usize>)
    ensures
        match r {
            Some(k) => index_at(s@, byte as nat) == Some(k as nat) && k <= s@.len(),
            None => index_at(s@, byte as nat) is None,
        },
{
    let mut i: usize = 0;
    let mut left: usize = byte;
    assert(s@.skip(0) =~= s@);
    while left > 0
        invariant
            i <= s.len(),
            index_at(s@, byte as nat) == (match index_at(s@.skip(i as int), left as nat) {
                Some(k) => Some(k + i as nat),
                None => None,
            }),
        decreases left,
    {
        if i >= s.len() {
            return None;
        }
        let w = char_width(s[i]);
        assert(s@.skip(i as int)[0] == s@[i as int]);
        assert(s@.skip(i as int).skip(1) =~= s@.skip(i + 1));
        if w > left {
            return None;
        }
        left = left - w;
        i = i + 1;
    }
    Some(i)
}

/// The text between two bytes; empty where one of them is not the first of a character.
pub open spec fn text_between(s: Seq<char>, from: nat, to: nat) -> Seq<char> {
    match (index_at(s, from), index_at(s, to)) {
        (Some(i), Some(j)) => if i <= j {
            s.subrange(i as int, j as int)
        } else {
            Seq::empty()
        },
        _ => Seq::empty(),
    }
}

/// The text from a byte on; empty where the byte is not the first of a character.
pub open spec fn text_from(s: Seq<char>, from: nat) -> Seq<char> {
    match index_at(s, from) {
        Some(i) => s.skip(i as int),
        None => Seq::empty(),
    }
}

/// Reads the text from a byte on.
pub fn cut_from(s: &Vec<char>, from: usize) -> (r: String)
    ensures
        r@ == text_from(s@, from as nat),
{
    match find_index(s, from) {
        Some(i) => {
            assert(s@.skip(i as int) =~= s@.subrange(i as int, s@.len() as int));
            text_of(&cut(s, i, s.len()))
        },
        None => {
            let none = String::new();
            assert(none@ =~= Seq::<char>::empty());
            none
        },
    }
}

/// Reads the text between two bytes.
pub fn cut_bytes(s: &Vec<char>, from: usize, to: usize) -> (r: String)
    ensures
        r@ == text_between(s@, from as nat, to as nat),
{
    match (find_index(s, from), find_index(s, to)) {
        (Some(i), Some(j)) => {
            if i <= j {
                return text_of(&cut(s, i, j));
            }
            String::new()
        },
        _ => String::new(),
    }
}

/// A line or a column as far as a span holds it.
pub open spec fn next_capped(n: u32, by: nat) -> u32 {
    if n + by <= u32::MAX {
        (n + by) as u32
    } else {
        u32::MAX
    }
}

/// The line and the column that a byte lies at, on from a line and a column. Lines are counted from
/// one; columns are counted in bytes, from zero.
pub open spec fn point_from(s: Seq<char>, byte: nat, line: u32, col: u32) -> (u32, u32)
    decreases s.len(),
{
    if byte == 0 || s.len() == 0 || width(s[0]) > byte {
        (line, col)
    } else {
        let left = (byte - width(s[0])) as nat;
        if s[0] == '\n' {
            point_from(s.skip(1), left, next_capped(line, 1), 0)
        } else {
            point_from(s.skip(1), left, line, next_capped(col, width(s[0])))
        }
    }
}

/// The line and the column that a byte lies at.
pub open spec fn point_at(s: Seq<char>, byte: nat) -> (u32, u32) {
    point_from(s, byte, 1, 0)
}

/// Finds the line and the column that a byte lies at.
pub fn find_point(s: &Vec<char>, byte: usize) -> (r: (u32, u32))
    ensures
        r == point_at(s@, byte as nat),
{
    let mut i: usize = 0;
    let mut left: usize = byte;
    let mut line: u32 = 1;
    let mut col: u32 = 0;
    assert(s@.skip(0) =~= s@);
    while left > 0 && i < s.len()
        invariant
            i <= s.len(),
            point_from(s@.skip(i as int), left as nat, line, col) == point_at(s@, byte as nat),
        decreases s.len() - i,
    {
        let w = char_width(s[i]);
        assert(s@.skip(i as int)[0] == s@[i as int]);
        assert(s@.skip(i as int).skip(1) =~= s@.skip(i + 1));
        if w > left {
            return (line, col);
        }
        left = left - w;
        if s[i] == '\n' {
            line = if line < u32::MAX {
                line + 1
            } else {
                line
            };
            col = 0;
        } else {
            col = if col <= u32::MAX - w as u32 {
                col + w as u32
            } else {
                u32::MAX
            };
        }
        i = i + 1;
    }
    (line, col)
}

/// The span between two bytes.
pub open spec fn span_between(s: Seq<char>, from: nat, to: nat) -> SourceSpan {
    SourceSpan {
        start_line: point_at(s, from).0,
        start_col: point_at(s, from).1,
        end_line: point_at(s, to).0,
        end_col: point_at(s, to).1,
    }
}

/// Finds the span between two bytes.
pub fn span_from_byte_range(s: &Vec<char>, from: usize, to: usize) -> (r: SourceSpan)
    ensures
        r == span_between(s@, from as nat, to as nat),
{
    let (start_line, start_col) = find_point(s, from);
    let (end_line, end_col) = find_point(s, to);
    SourceSpan { start_line, start_col, end_line, end_col }
}

/// The point behind a whole text.
pub open spec fn end_point(s: Seq<char>, line: u32, col: u32) -> (u32, u32)
    decreases s.len(),
{
    if s.len() == 0 {
        (line, col)
    } else if s[0] == '\n' {
        end_point(s.skip(1), next_capped(line, 1), 0)
    } else {
        end_point(s.skip(1), line, next_capped(col, width(s[0])))
    }
}

/// The span of a whole text.
pub open spec fn whole_span(s: Seq<char>) -> SourceSpan {
    SourceSpan {
        start_line: 1,
        start_col: 0,
        end_line: end_point(s, 1, 0).0,
        end_col: end_point(s, 1, 0).1,
    }
}

/// Finds the span of a whole text.
pub fn whole_file_span(content: &str) -> (r: SourceSpan)
    ensures
        r == whole_span(content@),
{
    let s = chars_of(content);
    let mut i: usize = 0;
    let mut line: u32 = 1;
    let mut col: u32 = 0;
    assert(s@.skip(0) =~= s@);
    while i < s.len()
        invariant
            i <= s.len(),
            s@ == content@,
            end_point(s@.skip(i as int), line, col) == end_point(s@, 1, 0),
        decreases s.len() - i,
    {
        let w = char_width(s[i]);
        assert(s@.skip(i as int)[0] == s@[i as int]);
        assert(s@.skip(i as int).skip(1) =~= s@.skip(i + 1));
        if s[i] == '\n' {
            line = if line < u32::MAX {
                line + 1
            } else {
                line
            };
            col = 0;
        } else {
            col = if col <= u32::MAX - w as u32 {
                col + w as u32
            } else {
                u32::MAX
            };
        }
        i = i + 1;
    }
    SourceSpan { start_line: 1, start_col: 0, end_line: line, end_col: col }
}

} // verus!
