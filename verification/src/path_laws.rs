//! What holds of path clean-up on every input.
use vstd::prelude::*;
use crate::fmt_path::PathFormatConfig;
use crate::path_model::{fmt_path_result, parent_name, resolved};

verus! {

/// With every step switched off a path comes back as it went in. The one
/// exception is the path `./`, which always becomes the empty string.
pub proof fn lemma_all_disabled_keeps_path(path: Seq<char>, config: PathFormatConfig)
    requires
        !config.strip_ansi,
        !config.strip_unfriendly_chars,
        !config.resolve_parent_dirs,
        !config.collapse_consecutive_slashes,
        !config.escape_backslashes,
    ensures
        fmt_path_result(path, config) == Ok::<Seq<char>, Seq<u8>>(
            if path =~= seq!['.', '/'] {
                Seq::empty()
            } else {
                path
            },
        ),
{
}

/// A `..` that comes first has nothing to take off the stack and is dropped:
/// the walk goes on as if it had not been there.
pub proof fn lemma_leading_parent_is_dropped(rest: Seq<Seq<char>>)
    ensures
        resolved(seq![parent_name()] + rest) == resolved(rest),
    decreases rest.len(),
{
    let all = seq![parent_name()] + rest;
    if rest.len() == 0 {
        assert(all.drop_last() =~= Seq::<Seq<char>>::empty());
        assert(resolved(all.drop_last()) =~= Seq::<Seq<char>>::empty());
        assert(all.last() =~= parent_name());
    } else {
        assert(all.drop_last() =~= seq![parent_name()] + rest.drop_last());
        assert(all.last() == rest.last());
        lemma_leading_parent_is_dropped(rest.drop_last());
    }
}

/// The stack never holds more components than the walk has read.
pub proof fn lemma_resolved_is_bounded(cs: Seq<Seq<char>>)
    ensures
        resolved(cs).len() <= cs.len(),
    decreases cs.len(),
{
    if cs.len() > 0 {
        lemma_resolved_is_bounded(cs.drop_last());
    }
}

} // verus!
