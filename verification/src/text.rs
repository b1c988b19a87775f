//! Text going in and out: the lines of a text, and lines joined into one
//! string.

use vstd::prelude::*;

use crate::board::grid_of;
use itertools::Itertools;

verus! {

/// A line without the carriage return that it ends with, if it ends with
/// one.
pub open spec fn trimmed(line: Seq<char>) -> Seq<char> {
    if line.len() > 0 && line.last() == '\r' {
        line.drop_last()
    } else {
        line
    }
}

/// The state of reading the first `n` characters of a text: the lines that
/// a line feed has ended, and the characters read since the last line feed.
pub open spec fn scan(text: Seq<char>, n: nat) -> (Seq<Seq<char>>, Seq<char>)
    decreases n,
{
    if n == 0 {
        (Seq::empty(), Seq::empty())
    } else {
        let (done, line) = scan(text, (n - 1) as nat);
        if text[n - 1] == '\n' {
            (done.push(trimmed(line)), Seq::empty())
        } else {
            (done, line.push(text[n - 1]))
        }
    }
}

/// The lines of a text. A line feed ends a line; a carriage return just
/// before that line feed does not belong to the line. What follows the last
/// line feed is a line too, unless it is empty.
pub open spec fn lines_of(text: Seq<char>) -> Seq<Seq<char>> {
    let (done, line) = scan(text, text.len());
    if line.len() > 0 {
        done.push(line)
    } else {
        done
    }
}

/// The lines of a text, each as a vector of its characters.
pub fn split_lines(text: &str) -> (lines: Vec<Vec<char>>)
    ensures
        grid_of(lines@) == lines_of(text@),
{
    let n = text.unicode_len();
    let mut done: Vec<Vec<char>> = Vec::new();
    let mut line: Vec<char> = Vec::new();
    let mut i: usize = 0;
    while i < n
        invariant
            i <= n,
            n == text@.len(),
            grid_of(done@) == scan(text@, i as nat).0,
            line@ == scan(text@, i as nat).1,
        decreases n - i,
    {
        let c = text.get_char(i);
        let ghost before = grid_of(done@);
        if c == '\n' {
            if line.len() > 0 && line[line.len() - 1] == '\r' {
                line.pop();
            }
            assert(line@ =~= trimmed(scan(text@, i as nat).1));
            done.push(line);
            line = Vec::new();
            assert(grid_of(done@) =~= before.push(trimmed(scan(text@, i as nat).1)));
        } else {
            line.push(c);
        }
        i += 1;
    }
    if line.len() > 0 {
        let ghost before = grid_of(done@);
        done.push(line);
        assert(grid_of(done@) =~= before.push(scan(text@, n as nat).1));
    }
    done
}

/// Whether a character is an uppercase letter of any script, as
/// `char::is_uppercase` tells.
pub uninterp spec fn unicode_uppercase(c: char) -> bool;

/// `char::is_uppercase`: whether the character has the Unicode property
/// `Uppercase`.
#[verifier::external_body]
pub(crate) fn is_uppercase(c: char) -> (r: bool)
    ensures
        r == unicode_uppercase(c),
{
    c.is_uppercase()
}

/// One of the letters `A` to `Z`.
pub open spec fn is_capital(c: char) -> bool {
    65 <= c as u32 <= 90
}

/// One of the letters `a` to `z` or `A` to `Z`, or one of the digits.
pub open spec fn is_alphanumeric(c: char) -> bool {
    (97 <= c as u32 <= 122) || (65 <= c as u32 <= 90) || (48 <= c as u32 <= 57)
}

/// The small letter for one of the letters `A` to `Z`; any other character
/// as it is.
pub open spec fn lowered(c: char) -> char {
    if is_capital(c) {
        ((c as u32 + 32) as u8) as char
    } else {
        c
    }
}

/// Whether `c` is one of the letters `A` to `Z`.
pub fn capital(c: char) -> (r: bool)
    ensures
        r == is_capital(c),
{
    let code = c as u32;
    65 <= code && code <= 90
}

/// Whether `c` is a letter of the English alphabet or a digit.
pub fn alphanumeric(c: char) -> (r: bool)
    ensures
        r == is_alphanumeric(c),
{
    let code = c as u32;
    (97 <= code && code <= 122) || (65 <= code && code <= 90) || (48 <= code && code <= 57)
}

/// The small letter for a capital one; any other character as it is.
pub fn lower(c: char) -> (r: char)
    ensures
        r == lowered(c),
{
    if capital(c) {
        let code = c as u32 + 32;
        (code as u8) as char
    } else {
        c
    }
}

/// The lines written one after the other, with `sep` between every two.
pub open spec fn joined(lines: Seq<Seq<char>>, sep: Seq<char>) -> Seq<char>
    decreases lines.len(),
{
    if lines.len() == 0 {
        Seq::empty()
    } else if lines.len() == 1 {
        lines[0]
    } else {
        joined(lines.drop_last(), sep) + sep + lines.last()
    }
}

/// The texts that a vector of strings holds.
pub open spec fn texts_of(lines: Seq<String>) -> Seq<Seq<char>> {
    Seq::new(lines.len(), |i: int| lines[i]@)
}

/// `Itertools::join` on the strings of `lines`: every string as it is
/// displayed, which for a string is its own text, with `sep` between every
/// two of them, and nothing for no string.
#[verifier::external_body]
pub(crate) fn join_lines(lines: &Vec<String>, sep: &str) -> (text: String)
    ensures
        text@ == joined(texts_of(lines@), sep@),
{
    lines.iter().join(sep)
}

/// `String::push` appends one character to the string.
pub assume_specification[ String::push ](s: &mut String, ch: char)
    ensures
        final(s)@ == old(s)@.push(ch),
;

/// The string that spells the characters of `chars`.
pub fn string_of(chars: &Vec<char>) -> (s: String)
    ensures
        s@ == chars@,
{
    let mut s = String::new();
    let mut i: usize = 0;
    while i < chars.len()
        invariant
            i <= chars.len(),
            s@ == chars@.take(i as int),
        decreases chars.len() - i,
    {
        s.push(chars[i]);
        i += 1;
    }
    s
}

} // verus!
