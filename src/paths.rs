//! Paths as text: `/` separates components, and a path that starts with `/`
//! is absolute.

use vstd::prelude::*;
use vstd::string::*;

use crate::error::NoteError;

verus! {

/// A path is absolute when it starts at the root.
pub open spec fn is_absolute(p: Seq<char>) -> bool {
    p.len() > 0 && p[0] == '/'
}

/// Index of the last `c` in `s`, or -1 where there is none.
pub open spec fn last_index_of(s: Seq<char>, c: char) -> int
    decreases s.len(),
{
    if s.len() == 0 {
        -1
    } else if s.last() == c {
        s.len() - 1
    } else {
        last_index_of(s.drop_last(), c)
    }
}

/// The last `c` is at the index found, and none follows it.
pub proof fn lemma_last_index_of(s: Seq<char>, c: char)
    ensures
        -1 <= last_index_of(s, c) < s.len(),
        last_index_of(s, c) >= 0 ==> s[last_index_of(s, c)] == c,
        forall|j: int| last_index_of(s, c) < j < s.len() ==> s[j] != c,
    decreases s.len(),
{
    if s.len() > 0 && s.last() != c {
        let t = s.drop_last();
        lemma_last_index_of(t, c);
        assert forall|j: int| last_index_of(s, c) < j < s.len() implies s[j] != c by {
            if j < t.len() {
                assert(s[j] == t[j]);
            }
        }
    }
}

/// `tail` appended to `base` as a path; an absolute `tail` replaces `base`.
pub open spec fn join(base: Seq<char>, tail: Seq<char>) -> Seq<char> {
    if is_absolute(tail) {
        tail
    } else if base.len() == 0 || base.last() == '/' {
        base + tail
    } else {
        base + seq!['/'] + tail
    }
}

/// The extension of a file name: what follows its last `.`, where that `.` is
/// not the first character.
pub open spec fn extension(f: Seq<char>) -> Option<Seq<char>> {
    if f != seq!['.', '.'] && last_index_of(f, '.') > 0 {
        Some(f.subrange(last_index_of(f, '.') + 1, f.len() as int))
    } else {
        None
    }
}

/// The directory that holds `p`: `p` up to its last `/`, or the root for a
/// component just below it. The root and a path without any `/` have none.
pub open spec fn parent(p: Seq<char>) -> Option<Seq<char>> {
    let i = last_index_of(p, '/');
    if i < 0 || p.len() == 1 {
        None
    } else if i == 0 {
        Some(seq!['/'])
    } else {
        Some(p.subrange(0, i))
    }
}

/// A parent is shorter than its child, so walking up ends.
pub proof fn lemma_parent_shorter(p: Seq<char>)
    ensures
        parent(p) matches Some(q) ==> q.len() < p.len(),
{
    lemma_last_index_of(p, '/');
}

/// Position of the last `c` in `s`.
pub fn find_last(s: &str, c: char) -> (r: Option<usize>)
    ensures
        match r {
            Some(i) => last_index_of(s@, c) == i as int,
            None => last_index_of(s@, c) == -1,
        },
{
    let n = s.unicode_len();
    let mut i: usize = n;
    assert(s@.subrange(0, n as int) =~= s@);
    while i > 0
        invariant
            i <= n,
            n == s@.len(),
            last_index_of(s@, c) == last_index_of(s@.subrange(0, i as int), c),
        decreases i,
    {
        let ghost pre = s@.subrange(0, i as int);
        if s.get_char(i - 1) == c {
            return Some(i - 1);
        }
        assert(pre.drop_last() =~= s@.subrange(0, i - 1));
        i = i - 1;
    }
    assert(s@.subrange(0, 0) =~= Seq::<char>::empty());
    None
}

fn starts_with_slash(s: &str) -> (r: bool)
    ensures
        r == is_absolute(s@),
{
    s.unicode_len() > 0 && s.get_char(0) == '/'
}

/// Joins `tail` onto `base` as a path.
pub fn join_path(base: &str, tail: &str) -> (r: String)
    ensures
        r@ == join(base@, tail@),
{
    if starts_with_slash(tail) {
        return tail.to_owned();
    }
    let mut r = base.to_owned();
    let n = base.unicode_len();
    if n > 0 && base.get_char(n - 1) != '/' {
        proof {
            reveal_strlit("/");
        }
        r.append("/");
    }
    r.append(tail);
    r
}

/// The path of the file named `name` followed by `.` and `extension`,
/// inside `directory`.
pub fn get_full_path(directory: &str, name: &str, extension: &str) -> (r: String)
    ensures
        r@ == join(directory@, name@ + seq!['.'] + extension@),
{
    let mut file = name.to_owned();
    proof {
        reveal_strlit(".");
    }
    file.append(".");
    file.append(extension);
    join_path(directory, file.as_str())
}

/// The directory that holds `p`.
pub fn parent_dir(p: &str) -> (r: Option<String>)
    ensures
        match r {
            Some(q) => parent(p@) == Some(q@),
            None => parent(p@) is None,
        },
{
    let n = p.unicode_len();
    proof {
        lemma_last_index_of(p@, '/');
    }
    match find_last(p, '/') {
        None => None,
        Some(i) => {
            if n == 1 {
                None
            } else if i == 0 {
                proof {
                    reveal_strlit("/");
                }
                Some("/".to_owned())
            } else {
                Some(p.substring_char(0, i).to_owned())
            }
        },
    }
}

/// What `path_clean::clean` makes of a path: `.` components dropped, `..`
/// components resolved against the one before them, repeated `/` merged.
pub uninterp spec fn cleaned(p: Seq<char>) -> Seq<char>;

/// Relies on `path_clean::clean`, which cleans a path lexically: its result
/// depends on the text alone. Its source shows that the result is never empty
/// (an empty outcome becomes `.`), and that the root component, once first, is
/// never removed, so a path from the root stays one.
#[verifier::external_body]
fn clean_path(p: &str) -> (r: String)
    ensures
        r@ == cleaned(p@),
        r@.len() > 0,
        is_absolute(p@) ==> is_absolute(r@),
{
    path_clean::clean(p).to_string_lossy().into_owned()
}

/// The absolute, cleaned form of `path`: itself where it is absolute, else
/// joined onto the current directory `cwd`.
pub open spec fn absolute_of(path: Seq<char>, cwd: Option<Seq<char>>) -> Result<Seq<char>, NoteError> {
    if is_absolute(path) {
        Ok(cleaned(path))
    } else {
        match cwd {
            Some(c) => Ok(cleaned(join(c, path))),
            None => Err(NoteError::CwdUnavailable),
        }
    }
}

/// Turns `path` into an absolute, lexically cleaned path, joining a relative
/// one onto the current directory `cwd`. That directory is needed only for a
/// relative path; `None` stands for one that could not be determined. The
/// filesystem is not consulted.
pub fn absolute_path(path: &str, cwd: Option<&str>) -> (r: Result<String, NoteError>)
    ensures
        match r {
            Ok(a) => absolute_of(path@, opt_view(cwd)) == Ok::<Seq<char>, NoteError>(a@),
            Err(e) => absolute_of(path@, opt_view(cwd)) == Err::<Seq<char>, NoteError>(e),
        },
        r is Ok && (is_absolute(path@) || (cwd matches Some(c) && is_absolute(c@)))
            ==> is_absolute(r->Ok_0@),
{
    if starts_with_slash(path) {
        Ok(clean_path(path))
    } else {
        match cwd {
            Some(c) => {
                let joined = join_path(c, path);
                Ok(clean_path(joined.as_str()))
            },
            None => Err(NoteError::CwdUnavailable),
        }
    }
}

/// The text of an optional string.
pub open spec fn opt_view(s: Option<&str>) -> Option<Seq<char>> {
    match s {
        Some(t) => Some(t@),
        None => None,
    }
}

} // verus!
