//! The mathematical model of word splitting and of the eight naming styles.
//!
//! A text is a `Seq<char>`, a word list a `Seq<Seq<char>>`. The splitter is
//! described twice: as a single left-to-right scan ([`tokenized`]), and as the
//! three passes that the executable code makes ([`tokenized_by_passes`]). The
//! two agree on every text.
use vstd::prelude::*;
use crate::text::{is_digit, is_lower, is_upper, is_word_char, lower_of, lower_all, upper_all, capitalized, split_on, split_state};

verus! {

/// `c` marks a word boundary and is itself discarded: one of `_ , . -` and
/// the space.
pub open spec fn is_separator(c: char) -> bool {
    c == '_' || c == ',' || c == '.' || c == '-' || c == ' '
}

/// A lowercase letter directly followed by an uppercase letter: the place
/// where `camelCase` breaks into `camel` and `Case`.
pub open spec fn is_case_boundary(before: char, after: char) -> bool {
    is_lower(before) && is_upper(after)
}

/// What a left-to-right scan knows after reading some prefix of a text.
pub struct Scan {
    /// The words that are complete, already in lowercase.
    pub done: Seq<Seq<char>>,
    /// The word that is still growing, already in lowercase; empty when the
    /// scan stands between two words.
    pub current: Seq<char>,
    /// Whether the last character that went into `current` was a lowercase
    /// letter in the text.
    pub after_lower: bool,
}

/// The scan before any character has been read.
pub open spec fn scan_start() -> Scan {
    Scan { done: Seq::empty(), current: Seq::empty(), after_lower: false }
}

/// The scan after one more character. A letter or digit goes into the
/// current word, or opens a new word at a case boundary; a separator closes
/// the current word; any other character leaves the scan as it is.
pub open spec fn scan_step(st: Scan, c: char) -> Scan {
    if is_word_char(c) {
        if st.current.len() > 0 && st.after_lower && is_upper(c) {
            Scan {
                done: st.done.push(st.current),
                current: seq![lower_of(c)],
                after_lower: is_lower(c),
            }
        } else {
            Scan {
                done: st.done,
                current: st.current.push(lower_of(c)),
                after_lower: is_lower(c),
            }
        }
    } else if is_separator(c) {
        Scan {
            done: if st.current.len() > 0 {
                st.done.push(st.current)
            } else {
                st.done
            },
            current: Seq::empty(),
            after_lower: false,
        }
    } else {
        st
    }
}

/// The scan that starts in `st` and reads all of `s`.
pub open spec fn scan_from(st: Scan, s: Seq<char>) -> Scan
    decreases s.len(),
{
    if s.len() == 0 {
        st
    } else {
        scan_step(scan_from(st, s.drop_last()), s.last())
    }
}

/// The words that a scan has found once the text has ended.
pub open spec fn scan_words(st: Scan) -> Seq<Seq<char>> {
    if st.current.len() > 0 {
        st.done.push(st.current)
    } else {
        st.done
    }
}

/// The word list of the text `s`.
pub open spec fn tokenized(s: Seq<char>) -> Seq<Seq<char>> {
    scan_words(scan_from(scan_start(), s))
}

/// The first pass: letters and digits stay, every run of separators becomes
/// one space, everything else is dropped.
pub open spec fn compressed(s: Seq<char>) -> Seq<char>
    decreases s.len(),
{
    if s.len() == 0 {
        Seq::empty()
    } else {
        let head = compressed(s.drop_last());
        let c = s.last();
        if is_word_char(c) {
            head.push(c)
        } else if is_separator(c) {
            if head.len() > 0 && head.last() == ' ' {
                head
            } else {
                head.push(' ')
            }
        } else {
            head
        }
    }
}

/// The second pass: a space is put into every case boundary.
pub open spec fn with_boundaries(s: Seq<char>) -> Seq<char>
    decreases s.len(),
{
    if s.len() == 0 {
        Seq::empty()
    } else {
        let head = with_boundaries(s.drop_last());
        if s.len() >= 2 && is_case_boundary(s[s.len() - 2], s.last()) {
            head.push(' ').push(s.last())
        } else {
            head.push(s.last())
        }
    }
}

/// The three passes in a row: compress, mark the case boundaries, then put
/// everything in lowercase and cut at the spaces.
pub open spec fn tokenized_by_passes(s: Seq<char>) -> Seq<Seq<char>> {
    split_on(lower_all(with_boundaries(compressed(s))), ' ')
}

/// `t` can be a token: not empty, and made of lowercase letters and digits.
pub open spec fn is_token(t: Seq<char>) -> bool {
    &&& t.len() > 0
    &&& forall|i: int| 0 <= i < t.len() ==> is_lower(#[trigger] t[i]) || is_digit(t[i])
}

/// Every entry of `ts` is a token.
pub open spec fn is_token_list(ts: Seq<Seq<char>>) -> bool {
    forall|i: int| 0 <= i < ts.len() ==> is_token(#[trigger] ts[i])
}

/// The words with `sep` between each two neighbours.
pub open spec fn joined(words: Seq<Seq<char>>, sep: Seq<char>) -> Seq<char>
    decreases words.len(),
{
    if words.len() == 0 {
        Seq::empty()
    } else if words.len() == 1 {
        words[0]
    } else {
        joined(words.drop_last(), sep) + sep + words.last()
    }
}

/// Each word capitalized.
pub open spec fn capitalized_each(words: Seq<Seq<char>>) -> Seq<Seq<char>> {
    Seq::new(words.len(), |i: int| capitalized(words[i]))
}

/// `brewCoffee`: the first word in lowercase, the others capitalized, nothing
/// in between.
pub open spec fn camel_case_of(words: Seq<Seq<char>>) -> Seq<char> {
    if words.len() == 0 {
        Seq::empty()
    } else {
        lower_all(words[0]) + pascal_case_of(words.drop_first())
    }
}

/// `BrewCoffee`: every word capitalized, nothing in between.
pub open spec fn pascal_case_of(words: Seq<Seq<char>>) -> Seq<char> {
    joined(capitalized_each(words), Seq::empty())
}

/// `brew-coffee`.
pub open spec fn kebab_case_of(words: Seq<Seq<char>>) -> Seq<char> {
    lower_all(joined(words, seq!['-']))
}

/// `brew_coffee`.
pub open spec fn snake_case_of(words: Seq<Seq<char>>) -> Seq<char> {
    lower_all(joined(words, seq!['_']))
}

/// `brew.coffee`.
pub open spec fn dot_case_of(words: Seq<Seq<char>>) -> Seq<char> {
    lower_all(joined(words, seq!['.']))
}

/// `Brew Coffee`: every word capitalized, one space in between.
pub open spec fn title_case_of(words: Seq<Seq<char>>) -> Seq<char> {
    joined(capitalized_each(words), seq![' '])
}

/// `brew coffee`.
pub open spec fn lower_case_of(words: Seq<Seq<char>>) -> Seq<char> {
    lower_all(joined(words, seq![' ']))
}

/// `BREW COFFEE`.
pub open spec fn upper_case_of(words: Seq<Seq<char>>) -> Seq<char> {
    upper_all(joined(words, seq![' ']))
}

/// What the scan and the three passes have in common after the same prefix
/// `s`: the same closed words, the same growing word, and agreement on
/// whether a case boundary can follow.
spec fn passes_match_scan(s: Seq<char>) -> bool {
    let st = scan_from(scan_start(), s);
    let kept = compressed(s);
    let split = split_state(lower_all(with_boundaries(kept)), ' ');
    &&& st.done =~= split.0
    &&& st.current =~= split.1
    &&& st.after_lower == (kept.len() > 0 && is_lower(kept.last()))
    &&& st.current.len() > 0 <==> kept.len() > 0 && kept.last() != ' '
}

/// Lowercase of a text with one more character.
proof fn lemma_lower_all_push(s: Seq<char>, c: char)
    ensures
        lower_all(s.push(c)) == lower_all(s).push(lower_of(c)),
{
    assert(lower_all(s.push(c)) =~= lower_all(s).push(lower_of(c)));
}

/// The scan and the three passes agree after every prefix.
proof fn lemma_passes_match_scan(s: Seq<char>)
    ensures
        passes_match_scan(s),
    decreases s.len(),
{
    if s.len() > 0 {
        let front = s.drop_last();
        let c = s.last();
        lemma_passes_match_scan(front);
        let st = scan_from(scan_start(), front);
        let kept = compressed(front);
        let marked = with_boundaries(kept);
        let low = lower_all(marked);
        let split = split_state(low, ' ');
        assert(scan_from(scan_start(), s) == scan_step(st, c));
        if is_word_char(c) {
            let kept2 = kept.push(c);
            assert(compressed(s) == kept2);
            assert(kept2.drop_last() =~= kept);
            assert(lower_of(c) != ' ');
            if kept.len() >= 1 && is_case_boundary(kept.last(), c) {
                assert(with_boundaries(kept2) == marked.push(' ').push(c));
                lemma_lower_all_push(marked, ' ');
                lemma_lower_all_push(marked.push(' '), c);
                let low1 = low.push(' ');
                let low2 = low1.push(lower_of(c));
                assert(low2.drop_last() =~= low1);
                assert(low1.drop_last() =~= low);
                assert(split_state(low1, ' ') == (split.0.push(split.1), Seq::<char>::empty()));
                assert(split_state(low2, ' ').0 == split.0.push(split.1));
                assert(split_state(low2, ' ').1 =~= seq![lower_of(c)]);
            } else {
                assert(with_boundaries(kept2) == marked.push(c));
                lemma_lower_all_push(marked, c);
                let low1 = low.push(lower_of(c));
                assert(low1.drop_last() =~= low);
                assert(split_state(low1, ' ') == (split.0, split.1.push(lower_of(c))));
            }
        } else if is_separator(c) {
            if kept.len() > 0 && kept.last() == ' ' {
                assert(compressed(s) == kept);
            } else {
                let kept2 = kept.push(' ');
                assert(compressed(s) == kept2);
                assert(kept2.drop_last() =~= kept);
                assert(with_boundaries(kept2) == marked.push(' '));
                lemma_lower_all_push(marked, ' ');
                let low1 = low.push(' ');
                assert(low1.drop_last() =~= low);
                assert(split_state(low1, ' ') == if split.1.len() > 0 {
                    (split.0.push(split.1), Seq::<char>::empty())
                } else {
                    split
                });
            }
        } else {
            assert(compressed(s) == kept);
        }
    }
}

/// The scan and the three passes give the same word list.
pub proof fn lemma_tokenized_by_passes(s: Seq<char>)
    ensures
        tokenized(s) == tokenized_by_passes(s),
{
    lemma_passes_match_scan(s);
}

} // verus!
