//! Character classes, ASCII case mapping, and the plumbing between strings
//! and character vectors that both formatters share.
//!
//! Everything here is ASCII-only on purpose: a character outside the ASCII
//! letters is never changed by the case mappings.
use vstd::prelude::*;

verus! {

/// `c` is one of the lowercase letters `a` to `z`.
pub open spec fn is_lower(c: char) -> bool {
    'a' <= c && c <= 'z'
}

/// `c` is one of the uppercase letters `A` to `Z`.
pub open spec fn is_upper(c: char) -> bool {
    'A' <= c && c <= 'Z'
}

/// `c` is one of the digits `0` to `9`.
pub open spec fn is_digit(c: char) -> bool {
    '0' <= c && c <= '9'
}

/// `c` can be part of a word: an ASCII letter or digit.
pub open spec fn is_word_char(c: char) -> bool {
    is_lower(c) || is_upper(c) || is_digit(c)
}

/// The lowercase form of `c`; only uppercase ASCII letters change.
pub open spec fn lower_of(c: char) -> char {
    if is_upper(c) {
        ((c as u8) + 32) as char
    } else {
        c
    }
}

/// The uppercase form of `c`; only lowercase ASCII letters change.
pub open spec fn upper_of(c: char) -> char {
    if is_lower(c) {
        ((c as u8) - 32) as char
    } else {
        c
    }
}

/// `s` with every character in lowercase.
pub open spec fn lower_all(s: Seq<char>) -> Seq<char> {
    Seq::new(s.len(), |i: int| lower_of(s[i]))
}

/// `s` with every character in uppercase.
pub open spec fn upper_all(s: Seq<char>) -> Seq<char> {
    Seq::new(s.len(), |i: int| upper_of(s[i]))
}

/// `w` with its first character in uppercase and the others in lowercase.
pub open spec fn capitalized(w: Seq<char>) -> Seq<char> {
    Seq::new(
        w.len(),
        |i: int|
            if i == 0 {
                upper_of(w[i])
            } else {
                lower_of(w[i])
            },
    )
}

/// What a vector of character vectors holds, row by row.
pub open spec fn rows(v: Seq<Vec<char>>) -> Seq<Seq<char>> {
    Seq::new(v.len(), |i: int| v[i]@)
}

/// What a vector of strings holds, string by string.
pub open spec fn texts(v: Seq<String>) -> Seq<Seq<char>> {
    Seq::new(v.len(), |i: int| v[i]@)
}

/// The state of a left-to-right split of `s` at `delim`: the pieces that are
/// closed, and the piece that is still growing.
pub open spec fn split_state(s: Seq<char>, delim: char) -> (Seq<Seq<char>>, Seq<char>)
    decreases s.len(),
{
    if s.len() == 0 {
        (Seq::empty(), Seq::empty())
    } else {
        let (closed, growing) = split_state(s.drop_last(), delim);
        if s.last() == delim {
            if growing.len() > 0 {
                (closed.push(growing), Seq::empty())
            } else {
                (closed, growing)
            }
        } else {
            (closed, growing.push(s.last()))
        }
    }
}

/// The non-empty pieces of `s` between occurrences of `delim`, in order.
pub open spec fn split_on(s: Seq<char>, delim: char) -> Seq<Seq<char>> {
    let (closed, growing) = split_state(s, delim);
    if growing.len() > 0 {
        closed.push(growing)
    } else {
        closed
    }
}

/// `std::string::String::push` appends one character to the string.
pub assume_specification[ String::push ](s: &mut String, c: char)
    ensures
        final(s)@ == old(s)@.push(c),
;

/// Whether `c` is a lowercase ASCII letter.
pub fn char_is_lower(c: char) -> (b: bool)
    ensures
        b == is_lower(c),
{
    'a' <= c && c <= 'z'
}

/// Whether `c` is an uppercase ASCII letter.
pub fn char_is_upper(c: char) -> (b: bool)
    ensures
        b == is_upper(c),
{
    'A' <= c && c <= 'Z'
}

/// Whether `c` is an ASCII letter or digit.
pub fn char_is_word(c: char) -> (b: bool)
    ensures
        b == is_word_char(c),
{
    ('a' <= c && c <= 'z') || ('A' <= c && c <= 'Z') || ('0' <= c && c <= '9')
}

/// `c` in lowercase.
pub fn char_to_lower(c: char) -> (r: char)
    ensures
        r == lower_of(c),
{
    if 'A' <= c && c <= 'Z' {
        let code: u8 = c as u8;
        (code + 32) as char
    } else {
        c
    }
}

/// `c` in uppercase.
pub fn char_to_upper(c: char) -> (r: char)
    ensures
        r == upper_of(c),
{
    if 'a' <= c && c <= 'z' {
        let code: u8 = c as u8;
        (code - 32) as char
    } else {
        c
    }
}

/// The characters of `s` as a vector.
pub fn chars_of(s: &str) -> (v: Vec<char>)
    ensures
        v@ == s@,
{
    let mut v: Vec<char> = Vec::new();
    for c in it: s.chars()
        invariant
            it.seq() == s@,
            v@ == it.seq().take(it.index()),
    {
        v.push(c);
    }
    v
}

/// The string made of the characters of `v`.
pub fn text_of(v: &Vec<char>) -> (s: String)
    ensures
        s@ == v@,
{
    let mut s = String::new();
    let mut i: usize = 0;
    while i < v.len()
        invariant
            i <= v.len(),
            s@ == v@.take(i as int),
        decreases v.len() - i,
    {
        s.push(v[i]);
        i += 1;
    }
    s
}

/// One string for each row of `v`.
pub fn texts_of(v: &Vec<Vec<char>>) -> (out: Vec<String>)
    ensures
        texts(out@) == rows(v@),
{
    let mut out: Vec<String> = Vec::new();
    let mut i: usize = 0;
    while i < v.len()
        invariant
            i <= v.len(),
            texts(out@) == rows(v@.take(i as int)),
        decreases v.len() - i,
    {
        let ghost before = texts(out@);
        let s = text_of(&v[i]);
        out.push(s);
        assert(texts(out@) =~= before.push(v@[i as int]@));
        assert(rows(v@.take(i + 1)) =~= rows(v@.take(i as int)).push(v@[i as int]@));
        i += 1;
    }
    assert(v@.take(v.len() as int) =~= v@);
    out
}

/// `v` with every character in lowercase.
pub fn lowercase_chars(v: &Vec<char>) -> (out: Vec<char>)
    ensures
        out@ == lower_all(v@),
{
    let mut out: Vec<char> = Vec::new();
    let mut i: usize = 0;
    while i < v.len()
        invariant
            i <= v.len(),
            out@ == lower_all(v@.take(i as int)),
        decreases v.len() - i,
    {
        out.push(char_to_lower(v[i]));
        i += 1;
        assert(out@ =~= lower_all(v@.take(i as int)));
    }
    assert(v@.take(v.len() as int) =~= v@);
    out
}

/// Cuts `text` at every `delim` and keeps the pieces that are not empty.
pub fn split_pieces(text: &Vec<char>, delim: char) -> (pieces: Vec<Vec<char>>)
    ensures
        rows(pieces@) == split_on(text@, delim),
{
    let mut pieces: Vec<Vec<char>> = Vec::new();
    let mut growing: Vec<char> = Vec::new();
    let mut i: usize = 0;
    while i < text.len()
        invariant
            i <= text.len(),
            rows(pieces@) == split_state(text@.take(i as int), delim).0,
            growing@ == split_state(text@.take(i as int), delim).1,
        decreases text.len() - i,
    {
        let c = text[i];
        assert(text@.take(i + 1).drop_last() =~= text@.take(i as int));
        if c == delim {
            if growing.len() > 0 {
                let ghost before = rows(pieces@);
                pieces.push(growing);
                growing = Vec::new();
                assert(rows(pieces@) =~= before.push(split_state(text@.take(i as int), delim).1));
            }
        } else {
            growing.push(c);
        }
        i += 1;
    }
    assert(text@.take(text.len() as int) =~= text@);
    if growing.len() > 0 {
        let ghost before = rows(pieces@);
        pieces.push(growing);
        assert(rows(pieces@) =~= before.push(split_state(text@, delim).1));
    }
    pieces
}

} // verus!
