//! The mathematical model of path clean-up.
//!
//! A path is a `Seq<char>`. Each step of the clean-up is a function from
//! texts to texts, [`formatted`] puts the steps into their fixed order, and
//! [`fmt_path_result`] says what the whole operation gives, escape
//! stripping and its one way to fail included.
//!
//! A path is read as a list of components, each a text of its own: `/` for
//! the root (only ever the first), `.` for the current directory, `..` for
//! the parent directory, and any other non-empty text without `/` for a
//! name.
use vstd::prelude::*;
use vstd::utf8::{decode_utf8, valid_utf8};
use crate::text::split_on;
use crate::fmt_path::{ansi_stripped, PathFormatConfig};

verus! {

/// The last character of `s` is a forward slash.
pub open spec fn ends_with_slash(s: Seq<char>) -> bool {
    s.len() > 0 && s.last() == '/'
}

/// `s` with every backslash replaced by a forward slash.
pub open spec fn unified(s: Seq<char>) -> Seq<char> {
    Seq::new(
        s.len(),
        |i: int|
            if s[i] == '\\' {
                '/'
            } else {
                s[i]
            },
    )
}

/// `s` without the forward slashes that directly follow a forward slash.
pub open spec fn collapsed(s: Seq<char>) -> Seq<char>
    decreases s.len(),
{
    if s.len() == 0 {
        Seq::empty()
    } else {
        let head = collapsed(s.drop_last());
        if s.last() == '/' && s.len() >= 2 && s[s.len() - 2] == '/' {
            head
        } else {
            head.push(s.last())
        }
    }
}

/// `c` is not allowed in a Windows file name: one of `* ? " < > |`.
pub open spec fn is_unfriendly(c: char) -> bool {
    c == '*' || c == '?' || c == '"' || c == '<' || c == '>' || c == '|'
}

/// `s` without its unfriendly characters.
pub open spec fn friendly(s: Seq<char>) -> Seq<char>
    decreases s.len(),
{
    if s.len() == 0 {
        Seq::empty()
    } else {
        let head = friendly(s.drop_last());
        if is_unfriendly(s.last()) {
            head
        } else {
            head.push(s.last())
        }
    }
}

/// The root component.
pub open spec fn root_name() -> Seq<char> {
    seq!['/']
}

/// The component that stands for the current directory.
pub open spec fn current_name() -> Seq<char> {
    seq!['.']
}

/// The component that stands for the parent directory.
pub open spec fn parent_name() -> Seq<char> {
    seq!['.', '.']
}

/// The components of the path `s`: the root if `s` starts with a forward
/// slash, then the non-empty pieces between the forward slashes.
pub open spec fn components(s: Seq<char>) -> Seq<Seq<char>> {
    if s.len() > 0 && s[0] == '/' {
        seq![root_name()] + split_on(s, '/')
    } else {
        split_on(s, '/')
    }
}

/// The stack that is left after walking the components from left to right:
/// `.` is skipped, `..` takes the top off the stack if there is one, any
/// other component goes on top.
pub open spec fn resolved(cs: Seq<Seq<char>>) -> Seq<Seq<char>>
    decreases cs.len(),
{
    if cs.len() == 0 {
        Seq::empty()
    } else {
        let stack = resolved(cs.drop_last());
        let c = cs.last();
        if c =~= parent_name() {
            if stack.len() > 0 {
                stack.drop_last()
            } else {
                stack
            }
        } else if c =~= current_name() {
            stack
        } else {
            stack.push(c)
        }
    }
}

/// The components of a stack written one after the other, with a forward
/// slash wherever two of them would otherwise touch. A root starts the text
/// afresh.
pub open spec fn glued(stack: Seq<Seq<char>>) -> Seq<char>
    decreases stack.len(),
{
    if stack.len() == 0 {
        Seq::empty()
    } else {
        let head = glued(stack.drop_last());
        let c = stack.last();
        if c =~= root_name() {
            c
        } else if head.len() > 0 && head.last() != '/' {
            head + seq!['/'] + c
        } else {
            head + c
        }
    }
}

/// The path that a stack of components stands for; the empty stack stands
/// for the current directory.
pub open spec fn assembled(stack: Seq<Seq<char>>) -> Seq<char> {
    if stack.len() == 0 {
        current_name()
    } else {
        glued(stack)
    }
}

/// The path `s` with its `.` and `..` components resolved.
pub open spec fn normalized(s: Seq<char>) -> Seq<char> {
    assembled(resolved(components(s)))
}

/// The enabled steps in their fixed order, on a text that holds no escape
/// sequences any more. `trailing_slash` says whether the path ended with a
/// forward slash before anything was done to it.
pub open spec fn formatted(text: Seq<char>, trailing_slash: bool, config: PathFormatConfig) -> Seq<
    char,
> {
    let unified_text = if config.escape_backslashes {
        unified(text)
    } else {
        text
    };
    let collapsed_text = if config.collapse_consecutive_slashes {
        collapsed(unified_text)
    } else {
        unified_text
    };
    let friendly_text = if config.strip_unfriendly_chars {
        friendly(collapsed_text)
    } else {
        collapsed_text
    };
    let resolved_text = if config.resolve_parent_dirs {
        normalized(friendly_text)
    } else {
        friendly_text
    };
    let closed_text = if trailing_slash && !ends_with_slash(resolved_text) {
        resolved_text.push('/')
    } else {
        resolved_text
    };
    if closed_text =~= seq!['.', '/'] {
        Seq::empty()
    } else {
        closed_text
    }
}

/// What formatting the path `path` gives: the formatted text, or, where
/// escape stripping is enabled and leaves bytes that are not UTF-8, those
/// bytes as the error.
pub open spec fn fmt_path_result(path: Seq<char>, config: PathFormatConfig) -> Result<
    Seq<char>,
    Seq<u8>,
> {
    if config.strip_ansi {
        let bytes = ansi_stripped(path);
        if valid_utf8(bytes) {
            Ok(formatted(decode_utf8(bytes), ends_with_slash(path), config))
        } else {
            Err(bytes)
        }
    } else {
        Ok(formatted(path, ends_with_slash(path), config))
    }
}

} // verus!
