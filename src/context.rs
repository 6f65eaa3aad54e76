//! Naming a note: literally, or by `@`, the note tagged to the current
//! directory or to its nearest tagged ancestor.

use vstd::prelude::*;

use crate::data::NoteData;
use crate::error::NoteError;
use crate::paths::{lemma_parent_shorter, opt_view, parent, parent_dir};

verus! {

/// The note tagged to `dir`, or else to its nearest tagged ancestor.
pub open spec fn context_tag(m: Map<Seq<char>, Seq<char>>, dir: Seq<char>) -> Option<Seq<char>>
    decreases dir.len(),
    via context_tag_decreases
{
    if m.contains_key(dir) {
        Some(m[dir])
    } else {
        match parent(dir) {
            Some(p) => context_tag(m, p),
            None => None,
        }
    }
}

#[via_fn]
proof fn context_tag_decreases(m: Map<Seq<char>, Seq<char>>, dir: Seq<char>) {
    lemma_parent_shorter(dir);
}

/// The ancestor `n` levels above `dir`: `dir` itself for 0, its parent for 1.
pub open spec fn ancestor(dir: Seq<char>, n: nat) -> Option<Seq<char>>
    decreases n,
{
    if n == 0 {
        Some(dir)
    } else {
        match parent(dir) {
            Some(p) => ancestor(p, (n - 1) as nat),
            None => None,
        }
    }
}

/// Whether the ancestor `n` levels above `dir` exists and is tagged in `m`.
pub open spec fn tagged_at(m: Map<Seq<char>, Seq<char>>, dir: Seq<char>, n: nat) -> bool {
    match ancestor(dir, n) {
        Some(a) => m.contains_key(a),
        None => false,
    }
}

/// The name that stands for "the note for the current directory".
pub open spec fn is_context_token(name: Seq<char>) -> bool {
    name == seq!['@']
}

/// The note that `name` stands for, given the current directory `cwd` and
/// the tags `m`.
pub open spec fn resolved_name(
    name: Seq<char>,
    cwd: Option<Seq<char>>,
    m: Map<Seq<char>, Seq<char>>,
) -> Result<Seq<char>, NoteError> {
    if is_context_token(name) {
        match cwd {
            None => Err(NoteError::CwdUnavailable),
            Some(c) => match context_tag(m, c) {
                Some(t) => Ok(t),
                None => Err(NoteError::NoTagFound),
            },
        }
    } else {
        Ok(name)
    }
}

/// The note that `name` stands for: `name` itself, or, for `@`, the note
/// tagged to the current directory `cwd` or to its nearest tagged ancestor.
/// `cwd` is read only for `@`; `None` stands for a current directory that
/// could not be determined.
pub fn get_note_file_name(name: &str, cwd: Option<&str>, note_data: &NoteData) -> (r: Result<
    String,
    NoteError,
>)
    ensures
        match r {
            Ok(n) => resolved_name(name@, opt_view(cwd), note_data@) == Ok::<Seq<char>, NoteError>(n@),
            Err(e) => resolved_name(name@, opt_view(cwd), note_data@) == Err::<Seq<char>, NoteError>(e),
        },
{
    let token = name.unicode_len() == 1 && name.get_char(0) == '@';
    assert(token == is_context_token(name@)) by {
        if token {
            assert(name@ =~= seq!['@']);
        }
    }
    if !token {
        return Ok(name.to_owned());
    }
    let c = match cwd {
        Some(c) => c,
        None => return Err(NoteError::CwdUnavailable),
    };
    let mut dir = c.to_owned();
    loop
        invariant
            is_context_token(name@),
            opt_view(cwd) == Some(c@),
            context_tag(note_data@, dir@) == context_tag(note_data@, c@),
        decreases dir@.len(),
    {
        if let Some(t) = note_data.get_dir_tag(dir.as_str()) {
            return Ok(t.clone());
        }
        match parent_dir(dir.as_str()) {
            Some(p) => {
                proof {
                    lemma_parent_shorter(dir@);
                }
                dir = p;
            },
            None => return Err(NoteError::NoTagFound),
        }
    }
}

/// With no tag on a directory nor on any of its ancestors, `@` names no
/// note there: resolution fails with `NoTagFound`.
pub proof fn lemma_untagged_context_fails(m: Map<Seq<char>, Seq<char>>, dir: Seq<char>)
    requires
        forall|n: nat| !#[trigger] tagged_at(m, dir, n),
    ensures
        context_tag(m, dir) is None,
        resolved_name(seq!['@'], Some(dir), m) == Err::<Seq<char>, NoteError>(NoteError::NoTagFound),
    decreases dir.len(),
{
    assert(ancestor(dir, 0) == Some(dir));
    assert(!tagged_at(m, dir, 0));
    if let Some(p) = parent(dir) {
        lemma_parent_shorter(dir);
        assert forall|n: nat| !#[trigger] tagged_at(m, p, n) by {
            assert(ancestor(dir, n + 1) == ancestor(p, n));
            assert(!tagged_at(m, dir, n + 1));
        }
        lemma_untagged_context_fails(m, p);
    }
}

/// Where the nearest tagged directory at or above `dir` is its ancestor `a`,
/// `n` levels up, `@` names the note tagged to `a`, whatever `n` is.
pub proof fn lemma_nearest_tagged_ancestor(
    m: Map<Seq<char>, Seq<char>>,
    dir: Seq<char>,
    n: nat,
    a: Seq<char>,
)
    requires
        ancestor(dir, n) == Some(a),
        m.contains_key(a),
        forall|k: nat| k < n ==> !#[trigger] tagged_at(m, dir, k),
    ensures
        context_tag(m, dir) == Some(m[a]),
        resolved_name(seq!['@'], Some(dir), m) == Ok::<Seq<char>, NoteError>(m[a]),
    decreases n,
{
    if n > 0 {
        assert(ancestor(dir, 0) == Some(dir));
        assert(!tagged_at(m, dir, 0));
        let p = parent(dir)->Some_0;
        assert forall|k: nat| k < n - 1 implies !#[trigger] tagged_at(m, p, k) by {
            assert(ancestor(dir, k + 1) == ancestor(p, k));
            assert(!tagged_at(m, dir, k + 1));
        }
        lemma_nearest_tagged_ancestor(m, p, (n - 1) as nat, a);
    }
}

} // verus!
