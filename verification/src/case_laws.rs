//! What holds of word splitting and of the naming styles on every input.
//!
//! The public lemmas say that the splitter only ever produces tokens, that a
//! rendered word list splits back into the same words, and that rendering is
//! idempotent. The private ones compute what the scan does on a run of
//! letters and digits and on words joined by a separator.
use vstd::prelude::*;
use crate::text::{capitalized, is_digit, is_lower, is_upper, is_word_char, lower_all, lower_of, upper_all, upper_of};
use crate::case_model::{
    camel_case_of, capitalized_each, dot_case_of, is_case_boundary, is_separator, is_token,
    is_token_list, joined, kebab_case_of, lower_case_of, pascal_case_of, scan_from, scan_start,
    scan_step, snake_case_of, title_case_of, tokenized, upper_case_of, Scan,
};

verus! {

/// Each word in lowercase.
pub open spec fn lowered_each(words: Seq<Seq<char>>) -> Seq<Seq<char>> {
    Seq::new(words.len(), |i: int| lower_all(words[i]))
}

/// Each word in uppercase.
pub open spec fn uppered_each(words: Seq<Seq<char>>) -> Seq<Seq<char>> {
    Seq::new(words.len(), |i: int| upper_all(words[i]))
}

/// A scan that holds nothing but tokens and characters a token may hold.
spec fn scan_is_clean(st: Scan) -> bool {
    &&& is_token_list(st.done)
    &&& forall|i: int|
        0 <= i < st.current.len() ==> is_lower(#[trigger] st.current[i]) || is_digit(st.current[i])
}

/// One step of the scan keeps it clean.
proof fn lemma_step_keeps_clean(st: Scan, c: char)
    requires
        scan_is_clean(st),
    ensures
        scan_is_clean(scan_step(st, c)),
{
    if is_word_char(c) {
        assert(is_lower(lower_of(c)) || is_digit(lower_of(c)));
        if st.current.len() > 0 && st.after_lower && is_upper(c) {
            assert(is_token(st.current));
        }
    } else if is_separator(c) {
        if st.current.len() > 0 {
            assert(is_token(st.current));
        }
    }
}

/// A clean scan stays clean whatever it reads.
proof fn lemma_scan_keeps_clean(st: Scan, s: Seq<char>)
    requires
        scan_is_clean(st),
    ensures
        scan_is_clean(scan_from(st, s)),
    decreases s.len(),
{
    if s.len() > 0 {
        lemma_scan_keeps_clean(st, s.drop_last());
        lemma_step_keeps_clean(scan_from(st, s.drop_last()), s.last());
    }
}

/// The splitter produces tokens only: each word is non-empty and made of
/// lowercase letters and digits.
pub proof fn lemma_tokenized_is_token_list(s: Seq<char>)
    ensures
        is_token_list(tokenized(s)),
{
    lemma_scan_keeps_clean(scan_start(), s);
    let st = scan_from(scan_start(), s);
    if st.current.len() > 0 {
        assert(is_token(st.current));
    }
}

/// Reading `a` and then `b` is reading `a + b`.
proof fn lemma_scan_concat(st: Scan, a: Seq<char>, b: Seq<char>)
    ensures
        scan_from(st, a + b) == scan_from(scan_from(st, a), b),
    decreases b.len(),
{
    if b.len() == 0 {
        assert(a + b =~= a);
    } else {
        assert((a + b).drop_last() =~= a + b.drop_last());
        lemma_scan_concat(st, a, b.drop_last());
    }
}

/// Reading a text of one character is one step.
proof fn lemma_scan_one(st: Scan, c: char)
    ensures
        scan_from(st, seq![c]) == scan_step(st, c),
{
    assert(seq![c].drop_last() =~= Seq::<char>::empty());
    assert(scan_from(st, seq![c].drop_last()) == st);
}

/// A run: letters and digits only, at least one, and no case boundary
/// inside.
spec fn is_run(r: Seq<char>) -> bool {
    &&& r.len() > 0
    &&& forall|i: int| 0 <= i < r.len() ==> is_word_char(#[trigger] r[i])
    &&& forall|i: int| 1 <= i < r.len() ==> !is_case_boundary(r[i - 1], #[trigger] r[i])
}

/// Every entry of `rs` is a run.
spec fn are_runs(rs: Seq<Seq<char>>) -> bool {
    forall|i: int| 0 <= i < rs.len() ==> is_run(#[trigger] rs[i])
}

/// The scan after a run: the run joins the current word, unless its first
/// character makes a case boundary with what came before.
spec fn after_run(st: Scan, r: Seq<char>) -> Scan {
    if st.current.len() > 0 && st.after_lower && is_upper(r[0]) {
        Scan { done: st.done.push(st.current), current: lower_all(r), after_lower: is_lower(r.last()) }
    } else {
        Scan { done: st.done, current: st.current + lower_all(r), after_lower: is_lower(r.last()) }
    }
}

/// What the scan holds after reading a run.
proof fn lemma_scan_run(st: Scan, r: Seq<char>)
    requires
        is_run(r),
    ensures
        scan_from(st, r) == after_run(st, r),
    decreases r.len(),
{
    let c = r.last();
    let front = r.drop_last();
    if r.len() == 1 {
        assert(scan_from(st, front) == st);
        assert(seq![lower_of(c)] =~= lower_all(r));
        assert(st.current.push(lower_of(c)) =~= st.current + lower_all(r));
    } else {
        assert(is_run(front)) by {
            assert forall|i: int| 0 <= i < front.len() implies is_word_char(#[trigger] front[i]) by {
                assert(front[i] == r[i]);
            }
            assert forall|i: int| 1 <= i < front.len() implies !is_case_boundary(
                front[i - 1],
                #[trigger] front[i],
            ) by {
                assert(front[i] == r[i]);
                assert(front[i - 1] == r[i - 1]);
            }
        }
        lemma_scan_run(st, front);
        assert(front.last() == r[r.len() - 2]);
        assert(!is_case_boundary(r[r.len() - 2], r[r.len() - 1]));
        assert(front[0] == r[0]);
        assert(lower_all(front).push(lower_of(c)) =~= lower_all(r));
        assert((st.current + lower_all(front)).push(lower_of(c)) =~= st.current + lower_all(r));
    }
}

/// Joining one more word puts the separator before it, unless it is the
/// first.
pub proof fn lemma_joined_push(words: Seq<Seq<char>>, w: Seq<char>, sep: Seq<char>)
    ensures
        joined(words.push(w), sep) == if words.len() == 0 {
            w
        } else {
            joined(words, sep) + sep + w
        },
{
    assert(words.push(w).drop_last() =~= words);
}

/// What the scan holds at the end of runs joined by one separator.
proof fn lemma_scan_joined_runs(rs: Seq<Seq<char>>, sep: char)
    requires
        rs.len() > 0,
        are_runs(rs),
        is_separator(sep),
    ensures
        scan_from(scan_start(), joined(rs, seq![sep])) == (Scan {
            done: lowered_each(rs.drop_last()),
            current: lower_all(rs.last()),
            after_lower: is_lower(rs.last().last()),
        }),
    decreases rs.len(),
{
    let r = rs.last();
    let front = rs.drop_last();
    assert(is_run(r));
    if rs.len() == 1 {
        lemma_scan_run(scan_start(), r);
        assert(Seq::<char>::empty() + lower_all(r) =~= lower_all(r));
        assert(lowered_each(front) =~= Seq::<Seq<char>>::empty());
    } else {
        assert(are_runs(front)) by {
            assert forall|i: int| 0 <= i < front.len() implies is_run(#[trigger] front[i]) by {
                assert(front[i] == rs[i]);
            }
        }
        lemma_scan_joined_runs(front, sep);
        let head = joined(front, seq![sep]);
        let st1 = scan_from(scan_start(), head);
        lemma_scan_concat(scan_start(), head + seq![sep], r);
        lemma_scan_concat(scan_start(), head, seq![sep]);
        lemma_scan_one(st1, sep);
        let st2 = scan_step(st1, sep);
        assert(is_run(front.last()));
        assert(st2.done =~= lowered_each(front)) by {
            assert(front.drop_last().push(front.last()) =~= front);
        }
        lemma_scan_run(st2, r);
        assert(Seq::<char>::empty() + lower_all(r) =~= lower_all(r));
    }
}

/// Runs joined by one separator split into the runs, each in lowercase.
proof fn lemma_tokenized_joined_runs(rs: Seq<Seq<char>>, sep: char)
    requires
        are_runs(rs),
        is_separator(sep),
    ensures
        tokenized(joined(rs, seq![sep])) == lowered_each(rs),
{
    if rs.len() == 0 {
        assert(lowered_each(rs) =~= Seq::<Seq<char>>::empty());
    } else {
        lemma_scan_joined_runs(rs, sep);
        assert(is_run(rs.last()));
        assert(lowered_each(rs.drop_last()).push(lower_all(rs.last())) =~= lowered_each(rs));
    }
}

/// Lowercase goes through a join: into each word and into the separator.
proof fn lemma_lower_joined(words: Seq<Seq<char>>, sep: Seq<char>)
    ensures
        lower_all(joined(words, sep)) == joined(lowered_each(words), lower_all(sep)),
    decreases words.len(),
{
    let low = lowered_each(words);
    if words.len() == 0 {
        assert(lower_all(joined(words, sep)) =~= Seq::<char>::empty());
    } else if words.len() == 1 {
    } else {
        lemma_lower_joined(words.drop_last(), sep);
        assert(low.drop_last() =~= lowered_each(words.drop_last()));
        assert(lower_all(joined(words.drop_last(), sep) + sep + words.last()) =~= lower_all(
            joined(words.drop_last(), sep),
        ) + lower_all(sep) + lower_all(words.last()));
    }
}

/// Uppercase goes through a join: into each word and into the separator.
proof fn lemma_upper_joined(words: Seq<Seq<char>>, sep: Seq<char>)
    ensures
        upper_all(joined(words, sep)) == joined(uppered_each(words), upper_all(sep)),
    decreases words.len(),
{
    let up = uppered_each(words);
    if words.len() == 0 {
        assert(upper_all(joined(words, sep)) =~= Seq::<char>::empty());
    } else if words.len() == 1 {
    } else {
        lemma_upper_joined(words.drop_last(), sep);
        assert(up.drop_last() =~= uppered_each(words.drop_last()));
        assert(upper_all(joined(words.drop_last(), sep) + sep + words.last()) =~= upper_all(
            joined(words.drop_last(), sep),
        ) + upper_all(sep) + upper_all(words.last()));
    }
}

/// A token is a run in each of its three spellings, and each spelling goes
/// back to the token in lowercase.
proof fn lemma_token_spellings(t: Seq<char>)
    requires
        is_token(t),
    ensures
        is_run(t),
        is_run(upper_all(t)),
        is_run(capitalized(t)),
        lower_all(t) == t,
        lower_all(upper_all(t)) == t,
        lower_all(capitalized(t)) == t,
        is_lower(capitalized(t).last()) == (t.len() >= 2 && is_lower(t.last())),
        is_upper(capitalized(t)[0]) == is_lower(t[0]),
        is_digit(t[0]) ==> capitalized(t) == t,
{
    let up = upper_all(t);
    let cap = capitalized(t);
    assert forall|i: int| 0 <= i < t.len() implies is_word_char(#[trigger] t[i]) && is_word_char(
        up[i],
    ) && is_word_char(cap[i]) && !is_upper(t[i]) && !is_lower(up[i]) && lower_of(t[i]) == t[i]
        && lower_of(up[i]) == t[i] && lower_of(cap[i]) == t[i] by {
        assert(is_lower(t[i]) || is_digit(t[i]));
    }
    assert(is_run(t));
    assert(is_run(up)) by {
        assert forall|i: int| 1 <= i < up.len() implies !is_case_boundary(
            up[i - 1],
            #[trigger] up[i],
        ) by {
            assert(is_word_char(t[i - 1]));
        }
    }
    assert(is_run(cap)) by {
        assert forall|i: int| 1 <= i < cap.len() implies !is_case_boundary(
            cap[i - 1],
            #[trigger] cap[i],
        ) by {
            assert(is_word_char(t[i]));
        }
    }
    assert(lower_all(t) =~= t);
    assert(lower_all(up) =~= t);
    assert(lower_all(cap) =~= t);
    assert(is_word_char(t[0]));
    assert(is_word_char(t[t.len() - 1]));
    if is_digit(t[0]) {
        assert(cap =~= t);
    }
}

/// What holds of the spellings of one token holds of a whole token list.
proof fn lemma_token_list_spellings(ts: Seq<Seq<char>>)
    requires
        is_token_list(ts),
    ensures
        are_runs(ts),
        are_runs(uppered_each(ts)),
        are_runs(capitalized_each(ts)),
        lowered_each(ts) == ts,
        lowered_each(uppered_each(ts)) == ts,
        lowered_each(capitalized_each(ts)) == ts,
{
    assert forall|i: int| 0 <= i < ts.len() implies is_run(#[trigger] ts[i]) && is_run(
        uppered_each(ts)[i],
    ) && is_run(capitalized_each(ts)[i]) && lower_all(ts[i]) == ts[i] && lower_all(
        uppered_each(ts)[i],
    ) == ts[i] && lower_all(capitalized_each(ts)[i]) == ts[i] by {
        lemma_token_spellings(ts[i]);
    }
    assert(lowered_each(ts) =~= ts);
    assert(lowered_each(uppered_each(ts)) =~= ts);
    assert(lowered_each(capitalized_each(ts)) =~= ts);
}

/// Tokens joined by one separator, then put in lowercase, are the tokens
/// joined by that separator.
proof fn lemma_lower_joined_tokens(ts: Seq<Seq<char>>, sep: char)
    requires
        is_token_list(ts),
        is_separator(sep),
    ensures
        lower_all(joined(ts, seq![sep])) == joined(ts, seq![sep]),
{
    lemma_lower_joined(ts, seq![sep]);
    lemma_token_list_spellings(ts);
    assert(lower_all(seq![sep]) =~= seq![sep]);
}

/// A token list rendered in one of the six styles that keep the words apart
/// splits back into the same token list.
pub proof fn lemma_retokenize(ts: Seq<Seq<char>>)
    requires
        is_token_list(ts),
    ensures
        tokenized(kebab_case_of(ts)) == ts,
        tokenized(snake_case_of(ts)) == ts,
        tokenized(dot_case_of(ts)) == ts,
        tokenized(lower_case_of(ts)) == ts,
        tokenized(upper_case_of(ts)) == ts,
        tokenized(title_case_of(ts)) == ts,
{
    lemma_token_list_spellings(ts);
    lemma_lower_joined_tokens(ts, '-');
    lemma_tokenized_joined_runs(ts, '-');
    lemma_lower_joined_tokens(ts, '_');
    lemma_tokenized_joined_runs(ts, '_');
    lemma_lower_joined_tokens(ts, '.');
    lemma_tokenized_joined_runs(ts, '.');
    lemma_lower_joined_tokens(ts, ' ');
    lemma_tokenized_joined_runs(ts, ' ');
    lemma_upper_joined(ts, seq![' ']);
    assert(upper_all(seq![' ']) =~= seq![' ']);
    lemma_tokenized_joined_runs(uppered_each(ts), ' ');
    lemma_tokenized_joined_runs(capitalized_each(ts), ' ');
}

/// Splitting a text, rendering the words as `snake_case` and splitting
/// again gives the same words.
pub proof fn lemma_snake_round_trip(s: Seq<char>)
    ensures
        tokenized(snake_case_of(tokenized(s))) == tokenized(s),
{
    lemma_tokenized_is_token_list(s);
    lemma_retokenize(tokenized(s));
}

/// Rendering, splitting the rendered text and rendering again in the same
/// style gives the first rendering, in each of the six styles that keep
/// the words apart.
pub proof fn lemma_render_idempotent(ts: Seq<Seq<char>>)
    requires
        is_token_list(ts),
    ensures
        kebab_case_of(tokenized(kebab_case_of(ts))) == kebab_case_of(ts),
        snake_case_of(tokenized(snake_case_of(ts))) == snake_case_of(ts),
        dot_case_of(tokenized(dot_case_of(ts))) == dot_case_of(ts),
        lower_case_of(tokenized(lower_case_of(ts))) == lower_case_of(ts),
        upper_case_of(tokenized(upper_case_of(ts))) == upper_case_of(ts),
        title_case_of(tokenized(title_case_of(ts))) == title_case_of(ts),
{
    lemma_retokenize(ts);
}

/// In `PascalCase` the break between two words can be seen again, or does
/// not matter: each word after the first starts with a digit, or follows
/// a word of two or more characters that ends in a letter.
pub open spec fn pascal_stable(ts: Seq<Seq<char>>) -> bool {
    forall|i: int|
        1 <= i < ts.len() ==> is_digit((#[trigger] ts[i])[0]) || (ts[i - 1].len() >= 2 && is_lower(
            ts[i - 1].last(),
        ))
}

/// In `camelCase` the break between two words can be seen again, or does
/// not matter: each word after the first starts with a digit, or follows
/// a word that ends in a letter and, unless that is the first word, has
/// two or more characters.
pub open spec fn camel_stable(ts: Seq<Seq<char>>) -> bool {
    forall|i: int|
        1 <= i < ts.len() ==> is_digit((#[trigger] ts[i])[0]) || (is_lower(ts[i - 1].last()) && (i
            == 1 || ts[i - 1].len() >= 2))
}

/// One more word adds its capitalized form to the `PascalCase` rendering.
pub proof fn lemma_pascal_push(words: Seq<Seq<char>>, w: Seq<char>)
    ensures
        pascal_case_of(words.push(w)) == pascal_case_of(words) + capitalized(w),
{
    assert(capitalized_each(words.push(w)) =~= capitalized_each(words).push(capitalized(w)));
    lemma_joined_push(capitalized_each(words), capitalized(w), Seq::empty());
    let head = joined(capitalized_each(words), Seq::empty());
    if words.len() == 0 {
        assert(head + capitalized(w) =~= capitalized(w));
    } else {
        assert(head + Seq::<char>::empty() + capitalized(w) =~= head + capitalized(w));
    }
}

/// One more word adds its capitalized form to the `camelCase` rendering,
/// unless it is the first, which is added in lowercase.
pub proof fn lemma_camel_push(words: Seq<Seq<char>>, w: Seq<char>)
    ensures
        camel_case_of(words.push(w)) == if words.len() == 0 {
            lower_all(w)
        } else {
            camel_case_of(words) + capitalized(w)
        },
{
    let all = words.push(w);
    if words.len() == 0 {
        assert(all.drop_first() =~= Seq::<Seq<char>>::empty());
        assert(lower_all(w) + pascal_case_of(Seq::<Seq<char>>::empty()) =~= lower_all(w));
    } else {
        assert(all.drop_first() =~= words.drop_first().push(w));
        lemma_pascal_push(words.drop_first(), w);
        assert(lower_all(words[0]) + (pascal_case_of(words.drop_first()) + capitalized(w))
            =~= lower_all(words[0]) + pascal_case_of(words.drop_first()) + capitalized(w));
    }
}

/// Capitalizing two words in a row is capitalizing them as one word when the
/// second starts with a digit.
proof fn lemma_capitalized_concat(a: Seq<char>, t: Seq<char>)
    requires
        a.len() > 0,
        is_token(t),
        is_digit(t[0]),
    ensures
        capitalized(a + t) == capitalized(a) + capitalized(t),
        lower_all(a + t) == lower_all(a) + capitalized(t),
{
    lemma_token_spellings(t);
    assert(capitalized(a + t) =~= capitalized(a) + capitalized(t));
    assert(lower_all(a + t) =~= lower_all(a) + capitalized(t));
}

/// What the scan holds at the end of a `PascalCase` rendering.
proof fn lemma_scan_pascal(ts: Seq<Seq<char>>)
    requires
        ts.len() > 0,
        is_token_list(ts),
        pascal_stable(ts),
    ensures
        ({
            let st = scan_from(scan_start(), pascal_case_of(ts));
            &&& st.current.len() > 0
            &&& pascal_case_of(st.done) + capitalized(st.current) == pascal_case_of(ts)
            &&& st.after_lower == (ts.last().len() >= 2 && is_lower(ts.last().last()))
        }),
    decreases ts.len(),
{
    let t = ts.last();
    let front = ts.drop_last();
    let cap = capitalized(t);
    assert(is_token(t));
    lemma_token_spellings(t);
    assert(front.push(t) =~= ts);
    lemma_pascal_push(front, t);
    if ts.len() == 1 {
        assert(pascal_case_of(front) =~= Seq::<char>::empty());
        assert(pascal_case_of(ts) =~= cap);
        lemma_scan_run(scan_start(), cap);
        assert(Seq::<char>::empty() + lower_all(cap) =~= t);
        assert(pascal_case_of(Seq::<Seq<char>>::empty()) + cap =~= cap);
    } else {
        assert(is_token_list(front) && pascal_stable(front)) by {
            assert forall|i: int| 0 <= i < front.len() implies is_token(#[trigger] front[i]) by {
                assert(front[i] == ts[i]);
            }
            assert forall|i: int| 1 <= i < front.len() implies is_digit((#[trigger] front[i])[0])
                || (front[i - 1].len() >= 2 && is_lower(front[i - 1].last())) by {
                assert(front[i] == ts[i]);
                assert(front[i - 1] == ts[i - 1]);
            }
        }
        lemma_scan_pascal(front);
        let head = pascal_case_of(front);
        let st1 = scan_from(scan_start(), head);
        lemma_scan_concat(scan_start(), head, cap);
        lemma_scan_run(st1, cap);
        assert(front.last() == ts[ts.len() - 2]);
        assert(is_digit(ts[ts.len() - 1][0]) || st1.after_lower);
        if st1.after_lower && is_upper(cap[0]) {
            lemma_pascal_push(st1.done, st1.current);
        } else {
            assert(is_digit(t[0]));
            lemma_capitalized_concat(st1.current, t);
            assert(pascal_case_of(st1.done) + (capitalized(st1.current) + cap) =~= pascal_case_of(
                st1.done,
            ) + capitalized(st1.current) + cap);
        }
    }
}

/// Rendering as `PascalCase`, splitting the rendered text and rendering
/// again gives the first rendering, for every token list in which the
/// breaks between the words survive the rendering.
pub proof fn lemma_pascal_idempotent(ts: Seq<Seq<char>>)
    requires
        is_token_list(ts),
        pascal_stable(ts),
    ensures
        pascal_case_of(tokenized(pascal_case_of(ts))) == pascal_case_of(ts),
{
    if ts.len() == 0 {
        assert(pascal_case_of(ts) =~= Seq::<char>::empty());
        assert(tokenized(Seq::<char>::empty()) =~= Seq::<Seq<char>>::empty());
    } else {
        lemma_scan_pascal(ts);
        let st = scan_from(scan_start(), pascal_case_of(ts));
        lemma_pascal_push(st.done, st.current);
    }
}

/// What the scan holds at the end of a `camelCase` rendering.
proof fn lemma_scan_camel(ts: Seq<Seq<char>>)
    requires
        ts.len() > 0,
        is_token_list(ts),
        camel_stable(ts),
    ensures
        ({
            let st = scan_from(scan_start(), camel_case_of(ts));
            &&& st.current.len() > 0
            &&& camel_case_of(st.done.push(st.current)) == camel_case_of(ts)
            &&& st.after_lower == (is_lower(ts.last().last()) && (ts.len() == 1 || ts.last().len()
                >= 2))
        }),
    decreases ts.len(),
{
    let t = ts.last();
    let front = ts.drop_last();
    let cap = capitalized(t);
    assert(is_token(t));
    lemma_token_spellings(t);
    assert(front.push(t) =~= ts);
    lemma_camel_push(front, t);
    if ts.len() == 1 {
        lemma_scan_run(scan_start(), t);
        assert(Seq::<char>::empty() + lower_all(t) =~= t);
        lemma_camel_push(Seq::empty(), t);
    } else {
        assert(is_token_list(front) && camel_stable(front)) by {
            assert forall|i: int| 0 <= i < front.len() implies is_token(#[trigger] front[i]) by {
                assert(front[i] == ts[i]);
            }
            assert forall|i: int| 1 <= i < front.len() implies is_digit((#[trigger] front[i])[0])
                || (is_lower(front[i - 1].last()) && (i == 1 || front[i - 1].len() >= 2)) by {
                assert(front[i] == ts[i]);
                assert(front[i - 1] == ts[i - 1]);
            }
        }
        lemma_scan_camel(front);
        let head = camel_case_of(front);
        let st1 = scan_from(scan_start(), head);
        lemma_scan_concat(scan_start(), head, cap);
        lemma_scan_run(st1, cap);
        assert(front.last() == ts[ts.len() - 2]);
        assert(is_digit(ts[ts.len() - 1][0]) || st1.after_lower);
        lemma_camel_push(st1.done, st1.current);
        if st1.after_lower && is_upper(cap[0]) {
            lemma_camel_push(st1.done.push(st1.current), t);
        } else {
            assert(is_digit(t[0]));
            lemma_capitalized_concat(st1.current, t);
            lemma_camel_push(st1.done, st1.current + t);
            if st1.done.len() > 0 {
                assert(camel_case_of(st1.done) + (capitalized(st1.current) + cap)
                    =~= camel_case_of(st1.done) + capitalized(st1.current) + cap);
            }
        }
    }
}

/// Rendering as `camelCase`, splitting the rendered text and rendering
/// again gives the first rendering, for every token list in which the
/// breaks between the words survive the rendering.
pub proof fn lemma_camel_idempotent(ts: Seq<Seq<char>>)
    requires
        is_token_list(ts),
        camel_stable(ts),
    ensures
        camel_case_of(tokenized(camel_case_of(ts))) == camel_case_of(ts),
{
    if ts.len() == 0 {
        assert(tokenized(Seq::<char>::empty()) =~= Seq::<Seq<char>>::empty());
    } else {
        lemma_scan_camel(ts);
    }
}

/// `x` holds letters and digits only.
spec fn all_word_chars(x: Seq<char>) -> bool {
    forall|k: int| 0 <= k < x.len() ==> is_word_char(#[trigger] x[k])
}

/// A text of letters and digits after splitting and rendering as
/// `PascalCase`: a character is in uppercase at the start and after a case
/// boundary, and in lowercase elsewhere.
spec fn pascal_recased(x: Seq<char>) -> Seq<char> {
    Seq::new(
        x.len(),
        |k: int|
            if k == 0 || is_case_boundary(x[k - 1], x[k]) {
                upper_of(x[k])
            } else {
                lower_of(x[k])
            },
    )
}

/// A text of letters and digits after splitting and rendering as
/// `camelCase`: a character is in uppercase after a case boundary, and in
/// lowercase elsewhere.
spec fn camel_recased(x: Seq<char>) -> Seq<char> {
    Seq::new(
        x.len(),
        |k: int|
            if k > 0 && is_case_boundary(x[k - 1], x[k]) {
                upper_of(x[k])
            } else {
                lower_of(x[k])
            },
    )
}

/// What the scan holds at the end of a text of letters and digits.
proof fn lemma_scan_squeezed(x: Seq<char>)
    requires
        x.len() > 0,
        all_word_chars(x),
    ensures
        ({
            let st = scan_from(scan_start(), x);
            &&& st.current.len() > 0
            &&& st.after_lower == is_lower(x.last())
            &&& pascal_case_of(st.done) + capitalized(st.current) == pascal_recased(x)
            &&& camel_case_of(st.done.push(st.current)) == camel_recased(x)
        }),
    decreases x.len(),
{
    let c = x.last();
    let lc = lower_of(c);
    let front = x.drop_last();
    assert(is_word_char(c));
    if x.len() == 1 {
        assert(scan_from(scan_start(), front) == scan_start());
        let st = scan_step(scan_start(), c);
        assert(st.current =~= seq![lc]);
        assert(st.done =~= Seq::<Seq<char>>::empty());
        assert(pascal_case_of(Seq::<Seq<char>>::empty()) =~= Seq::<char>::empty());
        assert(pascal_case_of(st.done) + capitalized(st.current) =~= pascal_recased(x));
        lemma_camel_push(Seq::empty(), st.current);
        assert(lower_all(st.current) =~= camel_recased(x));
    } else {
        assert(all_word_chars(front)) by {
            assert forall|k: int| 0 <= k < front.len() implies is_word_char(#[trigger] front[k]) by {
                assert(front[k] == x[k]);
            }
        }
        lemma_scan_squeezed(front);
        let st1 = scan_from(scan_start(), front);
        assert(front.last() == x[x.len() - 2]);
        lemma_pascal_push(st1.done, st1.current);
        lemma_camel_push(st1.done, st1.current);
        if st1.after_lower && is_upper(c) {
            assert(capitalized(seq![lc]) =~= seq![upper_of(c)]);
            assert(pascal_recased(x) =~= pascal_recased(front) + seq![upper_of(c)]);
            assert(camel_recased(x) =~= camel_recased(front) + seq![upper_of(c)]);
            lemma_camel_push(st1.done.push(st1.current), seq![lc]);
        } else {
            let cur = st1.current.push(lc);
            let low = lower_of(c);
            assert(capitalized(cur) =~= capitalized(st1.current).push(low));
            assert(lower_all(cur) =~= lower_all(st1.current).push(low));
            assert(pascal_recased(x) =~= pascal_recased(front).push(low));
            assert(camel_recased(x) =~= camel_recased(front).push(low));
            lemma_camel_push(st1.done, cur);
            assert(pascal_case_of(st1.done) + capitalized(st1.current).push(low) =~= (
            pascal_case_of(st1.done) + capitalized(st1.current)).push(low));
            if st1.done.len() > 0 {
                assert(camel_case_of(st1.done) + capitalized(st1.current).push(low) =~= (
                camel_case_of(st1.done) + capitalized(st1.current)).push(low));
            }
        }
    }
}

/// Splitting a text of letters and digits and rendering the words side by
/// side changes nothing but the case of its characters.
proof fn lemma_recased(x: Seq<char>)
    requires
        all_word_chars(x),
    ensures
        pascal_case_of(tokenized(x)) == pascal_recased(x),
        camel_case_of(tokenized(x)) == camel_recased(x),
{
    if x.len() == 0 {
        assert(tokenized(x) =~= Seq::<Seq<char>>::empty());
        assert(pascal_case_of(Seq::<Seq<char>>::empty()) =~= pascal_recased(x));
        assert(camel_case_of(Seq::<Seq<char>>::empty()) =~= camel_recased(x));
    } else {
        lemma_scan_squeezed(x);
        let st = scan_from(scan_start(), x);
        lemma_pascal_push(st.done, st.current);
    }
}

/// The `PascalCase` rendering of two word lists in a row is the two
/// renderings in a row.
proof fn lemma_pascal_concat(a: Seq<Seq<char>>, b: Seq<Seq<char>>)
    ensures
        pascal_case_of(a + b) == pascal_case_of(a) + pascal_case_of(b),
    decreases b.len(),
{
    if b.len() == 0 {
        assert(a + b =~= a);
        assert(pascal_case_of(a) + pascal_case_of(b) =~= pascal_case_of(a));
    } else {
        let w = b.last();
        let front = b.drop_last();
        assert(a + b =~= (a + front).push(w));
        assert(b =~= front.push(w));
        lemma_pascal_concat(a, front);
        lemma_pascal_push(a + front, w);
        lemma_pascal_push(front, w);
        assert(pascal_case_of(a) + pascal_case_of(front) + capitalized(w) =~= pascal_case_of(a) + (
        pascal_case_of(front) + capitalized(w)));
    }
}

/// In a `camelCase` rendering every word list after the first word is
/// rendered as in `PascalCase`.
proof fn lemma_camel_concat(a: Seq<Seq<char>>, b: Seq<Seq<char>>)
    requires
        a.len() > 0,
    ensures
        camel_case_of(a + b) == camel_case_of(a) + pascal_case_of(b),
{
    assert((a + b).drop_first() =~= a.drop_first() + b);
    lemma_pascal_concat(a.drop_first(), b);
    assert(lower_all(a[0]) + (pascal_case_of(a.drop_first()) + pascal_case_of(b)) =~= lower_all(
        a[0],
    ) + pascal_case_of(a.drop_first()) + pascal_case_of(b));
}

/// The first and the last character of a `PascalCase` rendering.
proof fn lemma_pascal_text(ts: Seq<Seq<char>>)
    requires
        ts.len() > 0,
        is_token_list(ts),
    ensures
        all_word_chars(pascal_case_of(ts)),
        pascal_case_of(ts).len() > 0,
        pascal_case_of(ts)[0] == capitalized(ts[0])[0],
        pascal_case_of(ts).last() == capitalized(ts.last()).last(),
    decreases ts.len(),
{
    let t = ts.last();
    let front = ts.drop_last();
    assert(is_token(t));
    lemma_token_spellings(t);
    assert(front.push(t) =~= ts);
    lemma_pascal_push(front, t);
    if ts.len() == 1 {
        assert(pascal_case_of(front) =~= Seq::<char>::empty());
        assert(pascal_case_of(ts) =~= capitalized(t));
    } else {
        assert(is_token_list(front)) by {
            assert forall|i: int| 0 <= i < front.len() implies is_token(#[trigger] front[i]) by {
                assert(front[i] == ts[i]);
            }
        }
        lemma_pascal_text(front);
        assert(front[0] == ts[0]);
    }
}

/// Whether a `camelCase` rendering ends in a lowercase letter.
proof fn lemma_camel_text(ts: Seq<Seq<char>>)
    requires
        ts.len() > 0,
        is_token_list(ts),
    ensures
        all_word_chars(camel_case_of(ts)),
        camel_case_of(ts).len() > 0,
        is_lower(camel_case_of(ts).last()) == (is_lower(ts.last().last()) && (ts.len() == 1
            || ts.last().len() >= 2)),
{
    let rest = ts.drop_first();
    assert(is_token(ts[0]));
    lemma_token_spellings(ts[0]);
    if ts.len() == 1 {
        assert(pascal_case_of(rest) =~= Seq::<char>::empty());
        assert(camel_case_of(ts) =~= ts[0]);
    } else {
        assert(is_token_list(rest)) by {
            assert forall|i: int| 0 <= i < rest.len() implies is_token(#[trigger] rest[i]) by {
                assert(rest[i] == ts[i + 1]);
            }
        }
        lemma_pascal_text(rest);
        assert(rest.last() == ts.last());
        assert(is_token(ts.last()));
        lemma_token_spellings(ts.last());
    }
}

/// A token list cut in two gives two token lists.
proof fn lemma_token_list_parts(ts: Seq<Seq<char>>, i: int)
    requires
        is_token_list(ts),
        0 <= i <= ts.len(),
    ensures
        is_token_list(ts.take(i)),
        is_token_list(ts.skip(i)),
        ts.take(i) + ts.skip(i) == ts,
{
    assert forall|j: int| 0 <= j < ts.take(i).len() implies is_token(#[trigger] ts.take(i)[j]) by {
        assert(ts.take(i)[j] == ts[j]);
    }
    assert forall|j: int| 0 <= j < ts.skip(i).len() implies is_token(#[trigger] ts.skip(i)[j]) by {
        assert(ts.skip(i)[j] == ts[i + j]);
    }
    assert(ts.take(i) + ts.skip(i) =~= ts);
}

/// Rendering as `PascalCase` is idempotent on no other token list: where a
/// break between two words does not survive, the second rendering differs
/// from the first.
pub proof fn lemma_pascal_unstable_differs(ts: Seq<Seq<char>>)
    requires
        is_token_list(ts),
        !pascal_stable(ts),
    ensures
        pascal_case_of(tokenized(pascal_case_of(ts))) != pascal_case_of(ts),
{
    let i = choose|i: int|
        1 <= i < ts.len() && !(is_digit((#[trigger] ts[i])[0]) || (ts[i - 1].len() >= 2 && is_lower(
            ts[i - 1].last(),
        )));
    let a = ts.take(i);
    let b = ts.skip(i);
    lemma_token_list_parts(ts, i);
    lemma_pascal_concat(a, b);
    lemma_pascal_text(a);
    lemma_pascal_text(b);
    lemma_pascal_text(ts);
    let text = pascal_case_of(ts);
    let k = pascal_case_of(a).len() as int;
    assert(a.last() == ts[i - 1]);
    assert(b[0] == ts[i]);
    assert(is_token(ts[i]) && is_token(ts[i - 1]));
    lemma_token_spellings(ts[i]);
    lemma_token_spellings(ts[i - 1]);
    assert(text[k] == pascal_case_of(b)[0]);
    assert(text[k - 1] == pascal_case_of(a).last());
    assert(is_upper(text[k]));
    lemma_recased(text);
    assert(pascal_recased(text)[k] == lower_of(text[k]));
}

/// Rendering as `camelCase` is idempotent on no other token list: where a
/// break between two words does not survive, the second rendering differs
/// from the first.
pub proof fn lemma_camel_unstable_differs(ts: Seq<Seq<char>>)
    requires
        is_token_list(ts),
        !camel_stable(ts),
    ensures
        camel_case_of(tokenized(camel_case_of(ts))) != camel_case_of(ts),
{
    let i = choose|i: int|
        1 <= i < ts.len() && !(is_digit((#[trigger] ts[i])[0]) || (is_lower(ts[i - 1].last()) && (i
            == 1 || ts[i - 1].len() >= 2)));
    let a = ts.take(i);
    let b = ts.skip(i);
    lemma_token_list_parts(ts, i);
    lemma_camel_concat(a, b);
    lemma_camel_text(a);
    lemma_pascal_text(b);
    lemma_camel_text(ts);
    let text = camel_case_of(ts);
    let k = camel_case_of(a).len() as int;
    assert(a.last() == ts[i - 1]);
    assert(b[0] == ts[i]);
    assert(is_token(ts[i]) && is_token(ts[i - 1]));
    lemma_token_spellings(ts[i]);
    assert(text[k] == pascal_case_of(b)[0]);
    assert(text[k - 1] == camel_case_of(a).last());
    assert(is_upper(text[k]));
    lemma_recased(text);
    assert(camel_recased(text)[k] == lower_of(text[k]));
}

/// A text without letters and digits has no words, and no words render as
/// the empty text in every style.
pub proof fn lemma_no_words_render_empty(s: Seq<char>)
    requires
        forall|i: int| 0 <= i < s.len() ==> !is_word_char(#[trigger] s[i]),
    ensures
        tokenized(s).len() == 0,
        camel_case_of(tokenized(s)).len() == 0,
        pascal_case_of(tokenized(s)).len() == 0,
        kebab_case_of(tokenized(s)).len() == 0,
        snake_case_of(tokenized(s)).len() == 0,
        dot_case_of(tokenized(s)).len() == 0,
        title_case_of(tokenized(s)).len() == 0,
        lower_case_of(tokenized(s)).len() == 0,
        upper_case_of(tokenized(s)).len() == 0,
{
    lemma_scan_stays_empty(s);
}

/// The scan finds nothing in a text without letters and digits.
proof fn lemma_scan_stays_empty(s: Seq<char>)
    requires
        forall|i: int| 0 <= i < s.len() ==> !is_word_char(#[trigger] s[i]),
    ensures
        scan_from(scan_start(), s).done.len() == 0,
        scan_from(scan_start(), s).current.len() == 0,
    decreases s.len(),
{
    if s.len() > 0 {
        let front = s.drop_last();
        assert forall|i: int| 0 <= i < front.len() implies !is_word_char(#[trigger] front[i]) by {
            assert(front[i] == s[i]);
        }
        lemma_scan_stays_empty(front);
        assert(!is_word_char(s[s.len() - 1]));
    }
}

} // verus!
