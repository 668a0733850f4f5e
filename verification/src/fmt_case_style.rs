//! Conversion between naming styles.
//!
//! A [`CaseFormatter`] splits its input into lowercase words once, when it is
//! made, and renders them on demand as `camelCase`, `PascalCase`,
//! `snake_case`, `kebab-case`, `dot.case`, `Title Case`, `lower case` or
//! `UPPER CASE`.
//!
//! These characters separate words and are themselves dropped: `_`, `,`,
//! `.`, `-` and the space. A lowercase letter followed by an uppercase letter
//! separates words too. Any other character that is not an ASCII letter or
//! digit is dropped before the words are looked for.
use vstd::prelude::*;
use crate::text::{
    capitalized, char_is_lower, char_is_upper, char_is_word, char_to_lower, char_to_upper,
    lower_all, lowercase_chars, split_pieces, texts, texts_of, upper_all,
};
use crate::case_model::{
    camel_case_of, capitalized_each, compressed, dot_case_of, is_token_list, joined,
    kebab_case_of, lemma_tokenized_by_passes, lower_case_of, pascal_case_of, snake_case_of,
    title_case_of, tokenized, upper_case_of, with_boundaries,
};
use crate::case_laws::{
    lemma_camel_push, lemma_joined_push, lemma_pascal_push, lemma_retokenize,
    lemma_tokenized_is_token_list,
};

verus! {

/// The words of one input, ready to be rendered in any style.
pub struct CaseFormatter {
    content: Vec<String>,
}

impl View for CaseFormatter {
    type V = Seq<Seq<char>>;

    /// The words, in the order in which the input had them.
    closed spec fn view(&self) -> Seq<Seq<char>> {
        texts(self.content@)
    }
}

impl CaseFormatter {
    #[verifier::type_invariant]
    closed spec fn holds_tokens(&self) -> bool {
        is_token_list(texts(self.content@))
    }
}

impl From<String> for CaseFormatter {
    fn from(value: String) -> (formatter: Self)
        ensures
            formatter@ == tokenized(value@),
    {
        Self { content: str_split(value) }
    }
}

impl From<&String> for CaseFormatter {
    fn from(value: &String) -> (formatter: Self)
        ensures
            formatter@ == tokenized(value@),
    {
        Self { content: str_split(value.clone()) }
    }
}

impl From<&str> for CaseFormatter {
    fn from(value: &str) -> (formatter: Self)
        ensures
            formatter@ == tokenized(value@),
    {
        Self { content: str_split(value.to_owned()) }
    }
}

/// Two formatters with the same words need not be the same value, so the
/// conversions are specified by the words and not by `from_spec`.
impl vstd::std_specs::convert::FromSpecImpl<String> for CaseFormatter {
    open spec fn obeys_from_spec() -> bool {
        false
    }

    open spec fn from_spec(value: String) -> Self {
        choose|formatter: CaseFormatter| formatter@ == tokenized(value@)
    }
}

impl vstd::std_specs::convert::FromSpecImpl<&String> for CaseFormatter {
    open spec fn obeys_from_spec() -> bool {
        false
    }

    open spec fn from_spec(value: &String) -> Self {
        choose|formatter: CaseFormatter| formatter@ == tokenized(value@)
    }
}

impl vstd::std_specs::convert::FromSpecImpl<&str> for CaseFormatter {
    open spec fn obeys_from_spec() -> bool {
        false
    }

    open spec fn from_spec(value: &str) -> Self {
        choose|formatter: CaseFormatter| formatter@ == tokenized(value@)
    }
}

/// Keeps letters and digits, turns every run of separators into one space and
/// drops everything else.
fn compress_separators(input: &str) -> (out: Vec<char>)
    ensures
        out@ == compressed(input@),
{
    let mut out: Vec<char> = Vec::new();
    let mut prev_space = false;
    for c in it: input.chars()
        invariant
            it.seq() == input@,
            out@ == compressed(it.seq().take(it.index())),
            prev_space == (out@.len() > 0 && out@.last() == ' '),
    {
        assert(it.seq().take(it.index() + 1).drop_last() =~= it.seq().take(it.index()));
        if char_is_word(c) {
            out.push(c);
            prev_space = false;
        } else if c == '_' || c == ',' || c == '.' || c == '-' || c == ' ' {
            if !prev_space {
                out.push(' ');
                prev_space = true;
            }
        }
    }
    assert(input@.take(input@.len() as int) =~= input@);
    out
}

/// Puts a space between a lowercase letter and an uppercase letter that
/// follows it directly, as between the `w` and the `C` of `brewCoffee`.
fn mark_case_boundaries(text: &Vec<char>) -> (out: Vec<char>)
    ensures
        out@ == with_boundaries(text@),
{
    let mut out: Vec<char> = Vec::new();
    let mut i: usize = 0;
    while i < text.len()
        invariant
            i <= text.len(),
            out@ == with_boundaries(text@.take(i as int)),
        decreases text.len() - i,
    {
        assert(text@.take(i + 1).drop_last() =~= text@.take(i as int));
        let c = text[i];
        if i > 0 && char_is_lower(text[i - 1]) && char_is_upper(c) {
            out.push(' ');
        }
        out.push(c);
        i += 1;
    }
    assert(text@.take(text.len() as int) =~= text@);
    out
}

/// Splits `input` into its words, each in lowercase.
pub fn str_split(input: String) -> (tokens: Vec<String>)
    ensures
        texts(tokens@) == tokenized(input@),
        is_token_list(texts(tokens@)),
{
    let kept = compress_separators(input.as_str());
    let marked = mark_case_boundaries(&kept);
    let lowered = lowercase_chars(&marked);
    let pieces = split_pieces(&lowered, ' ');
    let tokens = texts_of(&pieces);
    proof {
        lemma_tokenized_by_passes(input@);
        lemma_tokenized_is_token_list(input@);
    }
    tokens
}

/// `text` in lowercase.
fn lowercase(text: &str) -> (out: String)
    ensures
        out@ == lower_all(text@),
{
    let mut out = String::new();
    for c in it: text.chars()
        invariant
            it.seq() == text@,
            out@ == lower_all(it.seq().take(it.index())),
    {
        out.push(char_to_lower(c));
        assert(out@ =~= lower_all(it.seq().take(it.index() + 1)));
    }
    assert(text@.take(text@.len() as int) =~= text@);
    out
}

/// `text` in uppercase.
fn uppercase(text: &str) -> (out: String)
    ensures
        out@ == upper_all(text@),
{
    let mut out = String::new();
    for c in it: text.chars()
        invariant
            it.seq() == text@,
            out@ == upper_all(it.seq().take(it.index())),
    {
        out.push(char_to_upper(c));
        assert(out@ =~= upper_all(it.seq().take(it.index() + 1)));
    }
    assert(text@.take(text@.len() as int) =~= text@);
    out
}

/// Appends `word` to `out`, the first character in uppercase and the others in
/// lowercase.
fn push_capitalized(out: &mut String, word: &str)
    ensures
        final(out)@ == old(out)@ + capitalized(word@),
{
    let ghost before = out@;
    let mut first = true;
    for c in it: word.chars()
        invariant
            it.seq() == word@,
            out@ == before + capitalized(it.seq().take(it.index())),
            first == (it.index() == 0),
    {
        if first {
            out.push(char_to_upper(c));
            first = false;
        } else {
            out.push(char_to_lower(c));
        }
        assert(out@ =~= before + capitalized(it.seq().take(it.index() + 1)));
    }
    assert(word@.take(word@.len() as int) =~= word@);
}

/// The words with `sep` between each two neighbours.
fn join_words(words: &Vec<String>, sep: char) -> (out: String)
    ensures
        out@ == joined(texts(words@), seq![sep]),
{
    let mut out = String::new();
    let mut i: usize = 0;
    while i < words.len()
        invariant
            i <= words.len(),
            out@ == joined(texts(words@).take(i as int), seq![sep]),
        decreases words.len() - i,
    {
        let ghost head = texts(words@).take(i as int);
        let ghost before = out@;
        if i > 0 {
            out.push(sep);
        }
        out.append(words[i].as_str());
        proof {
            lemma_joined_push(head, words@[i as int]@, seq![sep]);
            assert(texts(words@).take(i + 1) =~= head.push(words@[i as int]@));
            assert(before.push(sep) =~= before + seq![sep]);
        }
        i += 1;
    }
    assert(texts(words@).take(words.len() as int) =~= texts(words@));
    out
}

impl CaseFormatter {
    /// Convert to camelCase format (brewCoffee)
    pub fn to_camel_case(&self) -> (result: String)
        ensures
            result@ == camel_case_of(self@),
    {
        let mut result = String::new();
        let mut i: usize = 0;
        while i < self.content.len()
            invariant
                i <= self.content.len(),
                result@ == camel_case_of(texts(self.content@).take(i as int)),
            decreases self.content.len() - i,
        {
            let ghost head = texts(self.content@).take(i as int);
            let ghost before = result@;
            if i == 0 {
                let word = lowercase(self.content[i].as_str());
                result.append(word.as_str());
                assert(result@ =~= word@);
            } else {
                push_capitalized(&mut result, self.content[i].as_str());
            }
            proof {
                lemma_camel_push(head, self.content@[i as int]@);
                assert(texts(self.content@).take(i + 1) =~= head.push(self.content@[i as int]@));
            }
            i += 1;
        }
        assert(texts(self.content@).take(self.content.len() as int) =~= texts(self.content@));
        result
    }

    /// Convert to PascalCase format (BrewCoffee)
    pub fn to_pascal_case(&self) -> (result: String)
        ensures
            result@ == pascal_case_of(self@),
    {
        let mut result = String::new();
        let mut i: usize = 0;
        assert(pascal_case_of(texts(self.content@).take(0)) =~= Seq::<char>::empty());
        while i < self.content.len()
            invariant
                i <= self.content.len(),
                result@ == pascal_case_of(texts(self.content@).take(i as int)),
            decreases self.content.len() - i,
        {
            let ghost head = texts(self.content@).take(i as int);
            push_capitalized(&mut result, self.content[i].as_str());
            proof {
                lemma_pascal_push(head, self.content@[i as int]@);
                assert(texts(self.content@).take(i + 1) =~= head.push(self.content@[i as int]@));
            }
            i += 1;
        }
        assert(texts(self.content@).take(self.content.len() as int) =~= texts(self.content@));
        result
    }

    /// Convert to kebab-case format (brew-coffee)
    pub fn to_kebab_case(&self) -> (result: String)
        ensures
            result@ == kebab_case_of(self@),
            tokenized(result@) == self@,
    {
        proof {
            use_type_invariant(self);
            lemma_retokenize(self@);
        }
        lowercase(join_words(&self.content, '-').as_str())
    }

    /// Convert to snake_case format (brew_coffee)
    pub fn to_snake_case(&self) -> (result: String)
        ensures
            result@ == snake_case_of(self@),
            tokenized(result@) == self@,
    {
        proof {
            use_type_invariant(self);
            lemma_retokenize(self@);
        }
        lowercase(join_words(&self.content, '_').as_str())
    }

    /// Convert to dot.case format (brew.coffee)
    pub fn to_dot_case(&self) -> (result: String)
        ensures
            result@ == dot_case_of(self@),
            tokenized(result@) == self@,
    {
        proof {
            use_type_invariant(self);
            lemma_retokenize(self@);
        }
        lowercase(join_words(&self.content, '.').as_str())
    }

    /// Convert to Title Case format (Brew Coffee)
    pub fn to_title_case(&self) -> (result: String)
        ensures
            result@ == title_case_of(self@),
            tokenized(result@) == self@,
    {
        proof {
            use_type_invariant(self);
            lemma_retokenize(self@);
        }
        let mut result = String::new();
        let mut i: usize = 0;
        assert(capitalized_each(texts(self.content@).take(0)) =~= Seq::<Seq<char>>::empty());
        while i < self.content.len()
            invariant
                i <= self.content.len(),
                result@ == title_case_of(texts(self.content@).take(i as int)),
            decreases self.content.len() - i,
        {
            let ghost head = texts(self.content@).take(i as int);
            let ghost before = result@;
            if i > 0 {
                result.push(' ');
            }
            push_capitalized(&mut result, self.content[i].as_str());
            proof {
                let word = self.content@[i as int]@;
                lemma_joined_push(capitalized_each(head), capitalized(word), seq![' ']);
                assert(texts(self.content@).take(i + 1) =~= head.push(word));
                assert(capitalized_each(head.push(word)) =~= capitalized_each(head).push(
                    capitalized(word),
                ));
                assert(before.push(' ') =~= before + seq![' ']);
            }
            i += 1;
        }
        assert(texts(self.content@).take(self.content.len() as int) =~= texts(self.content@));
        result
    }

    /// Convert to lower case format (brew coffee)
    pub fn to_lower_case(&self) -> (result: String)
        ensures
            result@ == lower_case_of(self@),
            tokenized(result@) == self@,
    {
        proof {
            use_type_invariant(self);
            lemma_retokenize(self@);
        }
        lowercase(join_words(&self.content, ' ').as_str())
    }

    /// Convert to UPPER CASE format (BREW COFFEE)
    pub fn to_upper_case(&self) -> (result: String)
        ensures
            result@ == upper_case_of(self@),
            tokenized(result@) == self@,
    {
        proof {
            use_type_invariant(self);
            lemma_retokenize(self@);
        }
        uppercase(join_words(&self.content, ' ').as_str())
    }
}

/// The words of `input` as camelCase (brewCoffee)
pub fn camel_case(input: &str) -> (result: String)
    ensures
        result@ == camel_case_of(tokenized(input@)),
{
    CaseFormatter::from(input).to_camel_case()
}

/// The words of `input` as UPPER CASE (BREW COFFEE)
pub fn upper_case(input: &str) -> (result: String)
    ensures
        result@ == upper_case_of(tokenized(input@)),
{
    CaseFormatter::from(input).to_upper_case()
}

/// The words of `input` as lower case (brew coffee)
pub fn lower_case(input: &str) -> (result: String)
    ensures
        result@ == lower_case_of(tokenized(input@)),
{
    CaseFormatter::from(input).to_lower_case()
}

/// The words of `input` as Title Case (Brew Coffee)
pub fn title_case(input: &str) -> (result: String)
    ensures
        result@ == title_case_of(tokenized(input@)),
{
    CaseFormatter::from(input).to_title_case()
}

/// The words of `input` as dot.case (brew.coffee)
pub fn dot_case(input: &str) -> (result: String)
    ensures
        result@ == dot_case_of(tokenized(input@)),
{
    CaseFormatter::from(input).to_dot_case()
}

/// The words of `input` as snake_case (brew_coffee)
pub fn snake_case(input: &str) -> (result: String)
    ensures
        result@ == snake_case_of(tokenized(input@)),
{
    CaseFormatter::from(input).to_snake_case()
}

/// The words of `input` as kebab-case (brew-coffee)
pub fn kebab_case(input: &str) -> (result: String)
    ensures
        result@ == kebab_case_of(tokenized(input@)),
{
    CaseFormatter::from(input).to_kebab_case()
}

/// The words of `input` as PascalCase (BrewCoffee)
pub fn pascal_case(input: &str) -> (result: String)
    ensures
        result@ == pascal_case_of(tokenized(input@)),
{
    CaseFormatter::from(input).to_pascal_case()
}

} // verus!
