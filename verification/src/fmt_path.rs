//! Clean-up of path strings, without any access to a file system.
//!
//! A path is normalised in steps, each of which a [`PathFormatConfig`] can
//! switch off: terminal escape sequences are removed, backslashes become
//! forward slashes, repeated forward slashes collapse into one, the
//! characters `* ? " < > |` are removed, and `.` and `..` components are
//! resolved. A trailing forward slash is kept, and a result of `./` becomes
//! the empty string.
use vstd::prelude::*;
use vstd::utf8::{decode_utf8, valid_utf8};
use std::path::PathBuf;
use std::string::FromUtf8Error;
use crate::text::{chars_of, rows, split_pieces, text_of};
use crate::path_model::{
    assembled, collapsed, components, current_name, ends_with_slash, fmt_path_result, formatted,
    friendly, glued, is_unfriendly, normalized, parent_name, resolved, root_name, unified,
};

verus! {

/// Which steps of the clean-up are made.
#[derive(PartialEq, Eq, Structural, Clone, Copy, Debug)]
pub struct PathFormatConfig {
    /// Whether to strip ANSI escape sequences (e.g., `\x1b[31m`, `\x1b[0m`).
    /// When the path string may contain terminal color codes, enabling this option will clean them up.
    pub strip_ansi: bool,
    /// Whether to strip characters disallowed in Windows filenames (`*`, `?`, `"`, `<`, `>`, `|`).
    /// These characters typically have special meaning or are not allowed in filesystems.
    pub strip_unfriendly_chars: bool,
    /// Whether to resolve parent directory references (`..`).
    /// When enabled, attempts to navigate upward in the path, e.g., `/a/b/../c` becomes `/a/c`.
    /// Note: This operation is based solely on the path string itself, without accessing the actual filesystem.
    pub resolve_parent_dirs: bool,
    /// Whether to collapse consecutive forward slashes (`/`).
    /// For example, `/home//user` becomes `/home/user`.
    pub collapse_consecutive_slashes: bool,
    /// Whether to escape backslashes (`\`) to forward slashes (`/`).
    /// This helps unify Windows-style paths to Unix style, facilitating cross-platform handling.
    pub escape_backslashes: bool,
}

/// The configuration in which every step is made.
pub open spec fn all_enabled() -> PathFormatConfig {
    PathFormatConfig {
        strip_ansi: true,
        strip_unfriendly_chars: true,
        resolve_parent_dirs: true,
        collapse_consecutive_slashes: true,
        escape_backslashes: true,
    }
}

impl Default for PathFormatConfig {
    fn default() -> (config: Self)
        ensures
            config == all_enabled(),
    {
        Self {
            strip_ansi: true,
            strip_unfriendly_chars: true,
            resolve_parent_dirs: true,
            collapse_consecutive_slashes: true,
            escape_backslashes: true,
        }
    }
}

/// `std::string::FromUtf8Error`, carried through as it comes.
#[verifier::external_type_specification]
#[verifier::external_body]
pub struct ExFromUtf8Error(std::string::FromUtf8Error);

/// `std::path::PathBuf`, carried through as it comes.
#[verifier::external_type_specification]
#[verifier::external_body]
pub struct ExPathBuf(std::path::PathBuf);

/// Error type for path formatting operations.
#[derive(Debug)]
pub enum PathFormatError {
    /// The input string contained invalid UTF-8 after stripping ANSI escape sequences.
    InvalidUtf8(FromUtf8Error),
}

impl View for PathFormatError {
    type V = Seq<u8>;

    /// The bytes that could not be decoded.
    open spec fn view(&self) -> Seq<u8> {
        match self {
            PathFormatError::InvalidUtf8(e) => failed_bytes(*e),
        }
    }
}

impl From<FromUtf8Error> for PathFormatError {
    fn from(e: FromUtf8Error) -> (err: Self) {
        PathFormatError::InvalidUtf8(e)
    }
}

impl vstd::std_specs::convert::FromSpecImpl<FromUtf8Error> for PathFormatError {
    open spec fn obeys_from_spec() -> bool {
        true
    }

    open spec fn from_spec(e: FromUtf8Error) -> Self {
        PathFormatError::InvalidUtf8(e)
    }
}

/// `to_string` on a `FromUtf8Error`: the text that `std` displays for a
/// decode failure. Nothing is claimed of it: the wording is `std`'s own.
#[verifier::external_body]
fn decode_failure_text(e: &FromUtf8Error) -> (text: String) {
    e.to_string()
}

impl PathFormatError {
    /// What went wrong, in words: a fixed opening followed by the decode
    /// failure as `std` words it.
    pub fn to_string(&self) -> (text: String)
        ensures
            "Invalid UTF-8 after ANSI stripping: "@.is_prefix_of(text@),
    {
        match self {
            PathFormatError::InvalidUtf8(e) => {
                let mut text = String::from_str("Invalid UTF-8 after ANSI stripping: ");
                let ghost opening = text@;
                text.append(decode_failure_text(e).as_str());
                assert(text@.subrange(0, opening.len() as int) =~= opening);
                text
            },
        }
    }

    /// The decode failure that this error carries.
    pub fn source(&self) -> (e: &FromUtf8Error)
        ensures
            *self == PathFormatError::InvalidUtf8(*e),
    {
        match self {
            PathFormatError::InvalidUtf8(e) => e,
        }
    }
}

/// What is left of a text once its terminal escape sequences are removed, as
/// bytes.
pub uninterp spec fn ansi_stripped(text: Seq<char>) -> Seq<u8>;

/// The bytes that a decode failure was raised for.
pub uninterp spec fn failed_bytes(e: FromUtf8Error) -> Seq<u8>;

/// What a path displays as.
pub uninterp spec fn path_text(path: PathBuf) -> Seq<char>;

/// `strip_ansi_escapes::strip` feeds the bytes of the text to a terminal
/// parser and returns the bytes of what the parser prints. The result depends
/// on the text alone; [`ansi_stripped`] is the name for it.
#[verifier::external_body]
fn strip_ansi(text: &str) -> (bytes: Vec<u8>)
    ensures
        bytes@ == ansi_stripped(text@),
{
    strip_ansi_escapes::strip(text)
}

/// `String::from_utf8` succeeds exactly on valid UTF-8, and the string then
/// holds the characters that the bytes encode. Where it fails, the error
/// holds the bytes that it was given; [`failed_bytes`] names them.
pub assume_specification[ String::from_utf8 ](bytes: Vec<u8>) -> (result: Result<
    String,
    FromUtf8Error,
>)
    ensures
        result is Ok <==> valid_utf8(bytes@),
        result matches Ok(text) ==> text@ == decode_utf8(bytes@),
        result matches Err(e) ==> failed_bytes(e) == bytes@,
;

/// `Path::display` followed by `to_string`: the text of the path, which
/// [`path_text`] names.
#[verifier::external_body]
fn path_to_text(path: &PathBuf) -> (text: String)
    ensures
        text@ == path_text(*path),
{
    path.display().to_string()
}

/// `PathBuf::from` on a string makes the path that displays as that string.
#[verifier::external_body]
fn path_from_text(text: String) -> (path: PathBuf)
    ensures
        path_text(path) == text@,
{
    PathBuf::from(text)
}

/// `text` with every backslash replaced by a forward slash.
fn unify_separators(text: &Vec<char>) -> (out: Vec<char>)
    ensures
        out@ == unified(text@),
{
    let mut out: Vec<char> = Vec::new();
    let mut i: usize = 0;
    while i < text.len()
        invariant
            i <= text.len(),
            out@ == unified(text@.take(i as int)),
        decreases text.len() - i,
    {
        let c = text[i];
        if c == '\\' {
            out.push('/');
        } else {
            out.push(c);
        }
        i += 1;
        assert(out@ =~= unified(text@.take(i as int)));
    }
    assert(text@.take(text.len() as int) =~= text@);
    out
}

/// `text` without the forward slashes that directly follow a forward slash.
fn collapse_slashes(text: &Vec<char>) -> (out: Vec<char>)
    ensures
        out@ == collapsed(text@),
{
    let mut out: Vec<char> = Vec::new();
    let mut prev_char = '\0';
    let mut i: usize = 0;
    while i < text.len()
        invariant
            i <= text.len(),
            out@ == collapsed(text@.take(i as int)),
            prev_char == if i == 0 {
                '\0'
            } else {
                text@[i - 1]
            },
        decreases text.len() - i,
    {
        let c = text[i];
        assert(text@.take(i + 1).drop_last() =~= text@.take(i as int));
        if !(c == '/' && prev_char == '/') {
            out.push(c);
            prev_char = c;
        }
        i += 1;
    }
    assert(text@.take(text.len() as int) =~= text@);
    out
}

fn char_is_unfriendly(c: char) -> (b: bool)
    ensures
        b == is_unfriendly(c),
{
    c == '*' || c == '?' || c == '"' || c == '<' || c == '>' || c == '|'
}

/// `text` without the characters `* ? " < > |`.
fn strip_unfriendly(text: &Vec<char>) -> (out: Vec<char>)
    ensures
        out@ == friendly(text@),
{
    let mut out: Vec<char> = Vec::new();
    let mut i: usize = 0;
    while i < text.len()
        invariant
            i <= text.len(),
            out@ == friendly(text@.take(i as int)),
        decreases text.len() - i,
    {
        let c = text[i];
        assert(text@.take(i + 1).drop_last() =~= text@.take(i as int));
        if !char_is_unfriendly(c) {
            out.push(c);
        }
        i += 1;
    }
    assert(text@.take(text.len() as int) =~= text@);
    out
}

/// The components of the path `text`.
fn path_components(text: &Vec<char>) -> (comps: Vec<Vec<char>>)
    ensures
        rows(comps@) == components(text@),
{
    let mut pieces = split_pieces(text, '/');
    if text.len() > 0 && text[0] == '/' {
        let ghost names = rows(pieces@);
        let mut root: Vec<char> = Vec::new();
        root.push('/');
        let mut comps: Vec<Vec<char>> = Vec::new();
        comps.push(root);
        comps.append(&mut pieces);
        assert(root@ =~= root_name());
        assert(rows(comps@) =~= seq![root_name()] + names);
        comps
    } else {
        pieces
    }
}

fn is_parent(piece: &Vec<char>) -> (b: bool)
    ensures
        b == (piece@ =~= parent_name()),
{
    piece.len() == 2 && piece[0] == '.' && piece[1] == '.'
}

fn is_current(piece: &Vec<char>) -> (b: bool)
    ensures
        b == (piece@ =~= current_name()),
{
    piece.len() == 1 && piece[0] == '.'
}

fn is_root(piece: &Vec<char>) -> (b: bool)
    ensures
        b == (piece@ =~= root_name()),
{
    piece.len() == 1 && piece[0] == '/'
}

/// What a stack of borrowed components holds.
pub open spec fn borrowed_rows(v: Seq<&Vec<char>>) -> Seq<Seq<char>> {
    Seq::new(v.len(), |i: int| v[i]@)
}

/// Walks the components from left to right and returns the stack that is
/// left.
fn resolve_components<'a>(comps: &'a Vec<Vec<char>>) -> (stack: Vec<&'a Vec<char>>)
    ensures
        borrowed_rows(stack@) == resolved(rows(comps@)),
{
    let mut stack: Vec<&Vec<char>> = Vec::new();
    let mut i: usize = 0;
    assert(borrowed_rows(stack@) =~= resolved(rows(comps@).take(0)));
    while i < comps.len()
        invariant
            i <= comps.len(),
            borrowed_rows(stack@) == resolved(rows(comps@).take(i as int)),
        decreases comps.len() - i,
    {
        let piece = &comps[i];
        let ghost before = borrowed_rows(stack@);
        assert(rows(comps@).take(i + 1).drop_last() =~= rows(comps@).take(i as int));
        assert(rows(comps@).take(i + 1).last() == piece@);
        if is_parent(piece) {
            if stack.len() > 0 {
                stack.pop();
                assert(borrowed_rows(stack@) =~= before.drop_last());
            }
        } else if is_current(piece) {
        } else {
            stack.push(piece);
            assert(borrowed_rows(stack@) =~= before.push(piece@));
        }
        i += 1;
    }
    assert(rows(comps@).take(comps.len() as int) =~= rows(comps@));
    stack
}

/// Appends the characters of `piece` to `out`.
fn push_all(out: &mut Vec<char>, piece: &Vec<char>)
    ensures
        final(out)@ == old(out)@ + piece@,
{
    let ghost before = out@;
    let mut i: usize = 0;
    assert(out@ =~= before + piece@.take(0));
    while i < piece.len()
        invariant
            i <= piece.len(),
            out@ == before + piece@.take(i as int),
        decreases piece.len() - i,
    {
        out.push(piece[i]);
        i += 1;
        assert(out@ =~= before + piece@.take(i as int));
    }
    assert(piece@.take(piece.len() as int) =~= piece@);
}

/// The path that a stack of components stands for.
fn assemble(stack: &Vec<&Vec<char>>) -> (out: Vec<char>)
    ensures
        out@ == assembled(borrowed_rows(stack@)),
{
    let mut out: Vec<char> = Vec::new();
    if stack.len() == 0 {
        out.push('.');
        assert(out@ =~= current_name());
        return out;
    }
    let mut i: usize = 0;
    assert(out@ =~= glued(borrowed_rows(stack@).take(0)));
    while i < stack.len()
        invariant
            i <= stack.len(),
            out@ == glued(borrowed_rows(stack@).take(i as int)),
        decreases stack.len() - i,
    {
        let piece = stack[i];
        let ghost before = out@;
        assert(borrowed_rows(stack@).take(i + 1).drop_last() =~= borrowed_rows(stack@).take(
            i as int,
        ));
        assert(borrowed_rows(stack@).take(i + 1).last() == piece@);
        if is_root(piece) {
            out = Vec::new();
            out.push('/');
            assert(out@ =~= piece@);
        } else {
            if out.len() > 0 && out[out.len() - 1] != '/' {
                out.push('/');
                assert(out@ =~= before + seq!['/']);
            }
            push_all(&mut out, piece);
        }
        i += 1;
    }
    assert(borrowed_rows(stack@).take(stack.len() as int) =~= borrowed_rows(stack@));
    out
}

/// `text` with its `.` and `..` components resolved.
fn normalize_chars(text: &Vec<char>) -> (out: Vec<char>)
    ensures
        out@ == normalized(text@),
{
    let comps = path_components(text);
    let stack = resolve_components(&comps);
    assemble(&stack)
}

/// Normalize path by resolving ".." components without requiring file system access
pub fn normalize_path(path: &str) -> (out: String)
    ensures
        out@ == normalized(path@),
{
    let chars = chars_of(path);
    let out = normalize_chars(&chars);
    text_of(&out)
}

/// Formats a text that holds no escape sequences any more: every enabled
/// step but the first, in order. `ends_with_slash` says whether the path
/// ended with a forward slash before anything was done to it.
pub fn fmt_path_text(text: &str, ends_with_slash: bool, config: &PathFormatConfig) -> (out: String)
    ensures
        out@ == formatted(text@, ends_with_slash, *config),
{
    let mut chars = chars_of(text);
    if config.escape_backslashes {
        chars = unify_separators(&chars);
    }
    if config.collapse_consecutive_slashes {
        chars = collapse_slashes(&chars);
    }
    if config.strip_unfriendly_chars {
        chars = strip_unfriendly(&chars);
    }
    if config.resolve_parent_dirs {
        chars = normalize_chars(&chars);
    }
    // Restore the trailing slash if the path came with one
    if ends_with_slash && !(chars.len() > 0 && chars[chars.len() - 1] == '/') {
        chars.push('/');
    }
    // Special case: when result is only "./", return ""
    if chars.len() == 2 && chars[0] == '.' && chars[1] == '/' {
        assert(chars@ =~= seq!['.', '/']);
        return String::new();
    }
    text_of(&chars)
}

/// Formats what escape stripping has left of a path: decodes the bytes and
/// goes on as [`fmt_path_text`] does. Fails exactly where the bytes are not
/// valid UTF-8, with an error that holds them.
pub fn fmt_path_bytes(bytes: Vec<u8>, ends_with_slash: bool, config: &PathFormatConfig) -> (result:
    Result<String, PathFormatError>)
    ensures
        match result {
            Ok(text) => valid_utf8(bytes@) && text@ == formatted(
                decode_utf8(bytes@),
                ends_with_slash,
                *config,
            ),
            Err(e) => !valid_utf8(bytes@) && e@ == bytes@,
        },
{
    match String::from_utf8(bytes) {
        Ok(text) => Ok(fmt_path_text(text.as_str(), ends_with_slash, config)),
        Err(e) => Err(PathFormatError::from(e)),
    }
}

/// Whether `path` ends with a forward slash.
fn has_trailing_slash(path: &str) -> (b: bool)
    ensures
        b == ends_with_slash(path@),
{
    let mut last = '\0';
    for c in it: path.chars()
        invariant
            it.seq() == path@,
            it.index() > 0 ==> last == it.seq()[it.index() - 1],
            it.index() == 0 ==> last == '\0',
    {
        last = c;
    }
    last == '/'
}

/// Normalize an input path string into a canonical, platform-agnostic form.
///
/// This function removes ANSI escape sequences, unifies separators to `/`,
/// collapses duplicate slashes, strips unfriendly characters (`*`, `?`, `"`, `<`, `>`, `|`),
/// resolves simple `..` components, and preserves a trailing slash when present.
pub fn fmt_path_str(path: &str) -> (result: Result<String, PathFormatError>)
    ensures
        match result {
            Ok(text) => fmt_path_result(path@, all_enabled()) == Ok::<Seq<char>, Seq<u8>>(text@),
            Err(e) => fmt_path_result(path@, all_enabled()) == Err::<Seq<char>, Seq<u8>>(e@),
        },
{
    fmt_path_str_custom(path, &PathFormatConfig::default())
}

/// Normalize an input path string into a canonical, platform-agnostic form.
///
/// Unlike `fmt_path_str`,
/// this method uses `PathFormatConfig` to precisely control
/// what should be processed
pub fn fmt_path_str_custom(path: &str, config: &PathFormatConfig) -> (result: Result<
    String,
    PathFormatError,
>)
    ensures
        match result {
            Ok(text) => fmt_path_result(path@, *config) == Ok::<Seq<char>, Seq<u8>>(text@),
            Err(e) => fmt_path_result(path@, *config) == Err::<Seq<char>, Seq<u8>>(e@),
        },
{
    let ends_with_slash = has_trailing_slash(path);
    if config.strip_ansi {
        fmt_path_bytes(strip_ansi(path), ends_with_slash, config)
    } else {
        Ok(fmt_path_text(path, ends_with_slash, config))
    }
}

/// Format a [`PathBuf`] into its canonical string form and convert it back.
///
/// This is a convenience wrapper around [`fmt_path_str`], preserving
/// the semantics of [`PathBuf`] while applying the same normalization rules.
pub fn fmt_path(path: PathBuf) -> (result: Result<PathBuf, PathFormatError>)
    ensures
        match result {
            Ok(formatted_path) => fmt_path_result(path_text(path), all_enabled()) == Ok::<
                Seq<char>,
                Seq<u8>,
            >(path_text(formatted_path)),
            Err(e) => fmt_path_result(path_text(path), all_enabled()) == Err::<Seq<char>, Seq<u8>>(
                e@,
            ),
        },
{
    fmt_path_custom(path, &PathFormatConfig::default())
}

/// Format a [`PathBuf`] into its canonical string form and convert it back.
///
/// Unlike `fmt_path`,
/// this method uses `PathFormatConfig` to precisely control
/// what should be processed
pub fn fmt_path_custom(path: PathBuf, config: &PathFormatConfig) -> (result: Result<
    PathBuf,
    PathFormatError,
>)
    ensures
        match result {
            Ok(formatted_path) => fmt_path_result(path_text(path), *config) == Ok::<
                Seq<char>,
                Seq<u8>,
            >(path_text(formatted_path)),
            Err(e) => fmt_path_result(path_text(path), *config) == Err::<Seq<char>, Seq<u8>>(e@),
        },
{
    let text = path_to_text(&path);
    match fmt_path_str_custom(text.as_str(), config) {
        Ok(formatted_text) => Ok(path_from_text(formatted_text)),
        Err(e) => Err(e),
    }
}

} // verus!
