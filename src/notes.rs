//! The note operations: what each command decides, given what was read from
//! the filesystem and the editor. Reading and writing files is left to the
//! caller, which hands the outcomes in as plain values.

use vstd::prelude::*;
use vstd::string::*;

use crate::context::{context_tag, get_note_file_name, is_context_token, resolved_name};
use crate::data::{dirs_tagged, renamed_note, texts, NoteData};
use crate::error::NoteError;
use crate::paths::{
    absolute_of, absolute_path, extension, find_last, get_full_path, is_absolute, join, last_index_of,
    lemma_last_index_of, lemma_parent_shorter, opt_view, parent,
};

verus! {

/// Arguments of `tag-dir`: the note, a directory to tag with it, and a
/// directory whose tag to remove.
pub struct TagDirOptions {
    pub name: String,
    pub add_dir_tag: Option<String>,
    pub remove_dir_tag: Option<String>,
}

/// Arguments of `edit`: the note to edit.
pub struct EditNoteOptions {
    pub name: String,
}

/// Arguments of `remove`: the note to delete.
pub struct RemoveNoteOptions {
    pub name: String,
}

/// Arguments of `show`: a note to print, or none to list them all.
pub struct ShowNoteOptions {
    pub name: Option<String>,
}

/// Arguments of `rename`: the note and its new name.
pub struct RenameNoteOptions {
    pub name: String,
    pub new_name: String,
}

/// The file of the note `name` in the notes directory `dir`.
pub open spec fn note_path(dir: Seq<char>, name: Seq<char>) -> Seq<char> {
    join(dir, name + seq!['.', 'm', 'd'])
}

/// The text of an optional string.
pub open spec fn opt_string(s: Option<String>) -> Option<Seq<char>> {
    match s {
        Some(t) => Some(t@),
        None => None,
    }
}

/// The current directory, where known, is absolute.
pub open spec fn cwd_absolute(cwd: Option<Seq<char>>) -> bool {
    match cwd {
        Some(c) => is_absolute(c),
        None => true,
    }
}

/// What `tag-dir` makes of the tags `m`, and what it returns: the tags are
/// changed step by step, so a failure after the first change keeps it.
pub open spec fn tag_dir_effect(
    m: Map<Seq<char>, Seq<char>>,
    name: Seq<char>,
    add: Option<Seq<char>>,
    remove: Option<Seq<char>>,
    cwd: Option<Seq<char>>,
) -> (Map<Seq<char>, Seq<char>>, Result<Seq<char>, NoteError>) {
    match resolved_name(name, cwd, m) {
        Err(e) => (m, Err(e)),
        Ok(n) => {
            let added = match add {
                None => Ok(m),
                Some(d) => match absolute_of(d, cwd) {
                    Ok(a) => Ok(m.insert(a, n)),
                    Err(e) => Err(e),
                },
            };
            match added {
                Err(e) => (m, Err(e)),
                Ok(m1) => match remove {
                    None => (m1, Ok(n)),
                    Some(d) => match absolute_of(d, cwd) {
                        Ok(a) => (m1.remove(a), Ok(n)),
                        Err(e) => (m1, Err(e)),
                    },
                },
            }
        },
    }
}

/// Tags the directory `add_dir_tag` with the note, and removes the tag of the
/// directory `remove_dir_tag`; both are made absolute against `cwd` first.
/// Returns the note's name.
pub fn tag_dir(options: TagDirOptions, cwd: Option<&str>, note_data: &mut NoteData) -> (r: Result<
    String,
    NoteError,
>)
    ensures
        final(note_data)@ == tag_dir_effect(
            old(note_data)@,
            options.name@,
            opt_string(options.add_dir_tag),
            opt_string(options.remove_dir_tag),
            opt_view(cwd),
        ).0,
        match r {
            Ok(n) => tag_dir_effect(
                old(note_data)@,
                options.name@,
                opt_string(options.add_dir_tag),
                opt_string(options.remove_dir_tag),
                opt_view(cwd),
            ).1 == Ok::<Seq<char>, NoteError>(n@),
            Err(e) => tag_dir_effect(
                old(note_data)@,
                options.name@,
                opt_string(options.add_dir_tag),
                opt_string(options.remove_dir_tag),
                opt_view(cwd),
            ).1 == Err::<Seq<char>, NoteError>(e),
        },
        cwd_absolute(opt_view(cwd)) ==> forall|k: Seq<char>|
            #[trigger] final(note_data)@.contains_key(k) && !old(note_data)@.contains_key(k)
                ==> is_absolute(k),
{
    let ghost m0 = note_data@;
    let note_name = match get_note_file_name(options.name.as_str(), cwd, note_data) {
        Ok(n) => n,
        Err(e) => return Err(e),
    };
    if let Some(dir) = &options.add_dir_tag {
        match absolute_path(dir.as_str(), cwd) {
            Ok(a) => {
                let ghost av = a@;
                note_data.set_dir_tag(Some(note_name.as_str()), a);
                assert(cwd_absolute(opt_view(cwd)) ==> is_absolute(av));
            },
            Err(e) => return Err(e),
        }
    }
    let ghost m1 = note_data@;
    assert(cwd_absolute(opt_view(cwd)) ==> forall|k: Seq<char>|
        #[trigger] m1.contains_key(k) && !m0.contains_key(k) ==> is_absolute(k));
    if let Some(dir) = &options.remove_dir_tag {
        match absolute_path(dir.as_str(), cwd) {
            Ok(a) => {
                note_data.set_dir_tag(None, a);
                assert(forall|k: Seq<char>| #[trigger] note_data@.contains_key(k) ==> m1.contains_key(k));
            },
            Err(e) => return Err(e),
        }
    }
    Ok(note_name)
}

/// Adding a tag for the note that already resolves at a directory keeps it
/// resolving there.
proof fn lemma_context_tag_insert_same(
    m: Map<Seq<char>, Seq<char>>,
    c: Seq<char>,
    a: Seq<char>,
    n: Seq<char>,
)
    requires
        context_tag(m, c) == Some(n),
    ensures
        context_tag(m.insert(a, n), c) == Some(n),
    decreases c.len(),
{
    if c != a && !m.contains_key(c) {
        lemma_parent_shorter(c);
        lemma_context_tag_insert_same(m, parent(c)->Some_0, a, n);
    }
}

/// Running `tag-dir` twice with the same note and directory to add leaves the
/// tags as running it once did.
pub proof fn lemma_tag_dir_idempotent(
    m: Map<Seq<char>, Seq<char>>,
    name: Seq<char>,
    add: Seq<char>,
    cwd: Option<Seq<char>>,
)
    ensures
        tag_dir_effect(tag_dir_effect(m, name, Some(add), None, cwd).0, name, Some(add), None, cwd).0
            == tag_dir_effect(m, name, Some(add), None, cwd).0,
{
    let m1 = tag_dir_effect(m, name, Some(add), None, cwd).0;
    if let Ok(n) = resolved_name(name, cwd, m) {
        if let Ok(a) = absolute_of(add, cwd) {
            if is_context_token(name) {
                lemma_context_tag_insert_same(m, cwd->Some_0, a, n);
            }
            assert(resolved_name(name, cwd, m1) == Ok::<Seq<char>, NoteError>(n));
            assert(m1.insert(a, n) =~= m1);
        }
    }
}

/// Where a note lives: its name, and the path of its file.
pub struct NoteLocation {
    pub name: String,
    pub path: String,
}

/// Resolves `name` (see `get_note_file_name`) and finds its file in
/// `notes_dir`.
pub fn locate_note(name: &str, notes_dir: &str, cwd: Option<&str>, note_data: &NoteData) -> (r:
    Result<NoteLocation, NoteError>)
    ensures
        match r {
            Ok(l) => resolved_name(name@, opt_view(cwd), note_data@) == Ok::<Seq<char>, NoteError>(
                l.name@,
            ) && l.path@ == note_path(notes_dir@, l.name@),
            Err(e) => resolved_name(name@, opt_view(cwd), note_data@) == Err::<Seq<char>, NoteError>(e),
        },
{
    match get_note_file_name(name, cwd, note_data) {
        Ok(n) => {
            proof {
                reveal_strlit("md");
            }
            let path = get_full_path(notes_dir, n.as_str(), "md");
            Ok(NoteLocation { name: n, path })
        },
        Err(e) => Err(e),
    }
}

/// A note named literally lives in one file, whatever the tags and the
/// current directory: editing it again and again works on that file alone.
pub proof fn lemma_literal_note_location(
    name: Seq<char>,
    cwd1: Option<Seq<char>>,
    m1: Map<Seq<char>, Seq<char>>,
    cwd2: Option<Seq<char>>,
    m2: Map<Seq<char>, Seq<char>>,
)
    requires
        !is_context_token(name),
    ensures
        resolved_name(name, cwd1, m1) == Ok::<Seq<char>, NoteError>(name),
        resolved_name(name, cwd2, m2) == Ok::<Seq<char>, NoteError>(name),
{
}

/// Decides how an edit of the note at `path` went: `opened` is what running
/// the editor gave (an error text where it could not be started, else whether
/// it reported success) and `saved` whether the note's file exists afterwards.
pub fn edit_outcome(path: &str, opened: Result<bool, String>, saved: bool) -> (r: Result<
    (),
    NoteError,
>)
    ensures
        match opened {
            Err(cause) => r matches Err(NoteError::EditorFailed(Some(c))) && c@ == cause@,
            Ok(false) => r == Err::<(), NoteError>(NoteError::EditorFailed(None)),
            Ok(true) => if saved {
                r is Ok
            } else {
                r matches Err(NoteError::NotSaved(p)) && p@ == path@
            },
        },
{
    match opened {
        Err(cause) => Err(NoteError::EditorFailed(Some(cause))),
        Ok(false) => Err(NoteError::EditorFailed(None)),
        Ok(true) => if saved {
            Ok(())
        } else {
            Err(NoteError::NotSaved(path.to_owned()))
        },
    }
}

/// A rename to carry out: the note, its new name, and the files to move
/// between.
pub struct RenamePlan {
    pub name: String,
    pub new_name: String,
    pub from: String,
    pub to: String,
}

/// Plans renaming a note; `target_exists` says whether a file already exists
/// where the note would move to (see `get_full_path`). An existing file is
/// never overwritten: the rename is refused, and nothing is to be changed.
/// After the move the caller updates the tags with `NoteData::rename_note`.
pub fn plan_rename(
    options: &RenameNoteOptions,
    notes_dir: &str,
    cwd: Option<&str>,
    note_data: &NoteData,
    target_exists: bool,
) -> (r: Result<RenamePlan, NoteError>)
    ensures
        match resolved_name(options.name@, opt_view(cwd), note_data@) {
            Err(e) => r == Err::<RenamePlan, NoteError>(e),
            Ok(n) => if target_exists {
                r matches Err(NoteError::AlreadyExists(t)) && t@ == note_path(
                    notes_dir@,
                    options.new_name@,
                )
            } else {
                r matches Ok(p) && p.name@ == n && p.new_name@ == options.new_name@ && p.from@
                    == note_path(notes_dir@, n) && p.to@ == note_path(notes_dir@, options.new_name@)
            },
        },
{
    let location = match locate_note(options.name.as_str(), notes_dir, cwd, note_data) {
        Ok(l) => l,
        Err(e) => return Err(e),
    };
    proof {
        reveal_strlit("md");
    }
    let to = get_full_path(notes_dir, options.new_name.as_str(), "md");
    if target_exists {
        return Err(NoteError::AlreadyExists(to));
    }
    Ok(RenamePlan { name: location.name, new_name: options.new_name.clone(), from: location.path, to })
}

/// After a rename, every directory whose tags led to the old name leads to
/// the new one, and every other directory still leads where it did.
pub proof fn lemma_context_after_rename(
    m: Map<Seq<char>, Seq<char>>,
    dir: Seq<char>,
    from: Seq<char>,
    to: Seq<char>,
)
    ensures
        context_tag(renamed_note(m, from, to), dir) == match context_tag(m, dir) {
            Some(t) => Some(
                if t == from {
                    to
                } else {
                    t
                },
            ),
            None => None,
        },
    decreases dir.len(),
{
    if !m.contains_key(dir) {
        if let Some(p) = parent(dir) {
            lemma_parent_shorter(dir);
            lemma_context_after_rename(m, p, from, to);
        }
    }
}

/// The note that a file of the notes directory holds: the file's stem, where
/// its extension is exactly `md`.
pub open spec fn md_stem(f: Seq<char>) -> Option<Seq<char>> {
    if extension(f) == Some(seq!['m', 'd']) {
        Some(f.subrange(0, last_index_of(f, '.')))
    } else {
        None
    }
}

/// The notes that the files `files` hold, in their order.
pub open spec fn md_stems(files: Seq<Seq<char>>) -> Seq<Seq<char>>
    decreases files.len(),
{
    if files.len() == 0 {
        Seq::empty()
    } else {
        match md_stem(files.last()) {
            Some(n) => md_stems(files.drop_last()).push(n),
            None => md_stems(files.drop_last()),
        }
    }
}

/// The note in the file named `f`, if its extension is exactly `md`.
pub fn note_of_file(f: &str) -> (r: Option<String>)
    ensures
        opt_string(r) == md_stem(f@),
{
    let n = f.unicode_len();
    proof {
        lemma_last_index_of(f@, '.');
    }
    let d = match find_last(f, '.') {
        Some(d) => d,
        None => return None,
    };
    if d == 0 || n - d != 3 || f.get_char(d + 1) != 'm' || f.get_char(d + 2) != 'd' {
        proof {
            if extension(f@) == Some(seq!['m', 'd']) {
                let e = f@.subrange(d + 1, n as int);
                assert(e == seq!['m', 'd']);
                assert(e.len() == 2);
                assert(e[0] == f@[d + 1]);
                assert(e[1] == f@[d + 2]);
            }
        }
        return None;
    }
    let ghost ext = f@.subrange(d + 1, n as int);
    assert(ext =~= seq!['m', 'd']);
    assert(f@ != seq!['.', '.']) by {
        if f@ == seq!['.', '.'] {
            assert(f@.len() == 2);
        }
    }
    Some(f.substring_char(0, d).to_owned())
}

/// One entry of the list of notes: a note and the directories tagged with it.
pub struct NoteListing {
    pub name: String,
    pub dirs: Vec<String>,
}

/// `dirs` separated by `, `.
pub open spec fn comma_joined(dirs: Seq<Seq<char>>) -> Seq<char>
    decreases dirs.len(),
{
    if dirs.len() == 0 {
        Seq::empty()
    } else if dirs.len() == 1 {
        dirs[0]
    } else {
        comma_joined(dirs.drop_last()) + seq![',', ' '] + dirs.last()
    }
}

/// The line that lists a note: its name, and the tagged directories in
/// parentheses where there are any.
pub open spec fn listing_line(name: Seq<char>, dirs: Seq<Seq<char>>) -> Seq<char> {
    if dirs.len() == 0 {
        name
    } else {
        name + seq![' ', '('] + comma_joined(dirs) + seq![')']
    }
}

impl NoteListing {
    /// The line that shows this note in a listing.
    pub fn line(&self) -> (r: String)
        ensures
            r@ == listing_line(self.name@, texts(self.dirs@)),
    {
        let mut r = self.name.clone();
        let n = self.dirs.len();
        if n == 0 {
            return r;
        }
        proof {
            reveal_strlit(" (");
            reveal_strlit(", ");
            reveal_strlit(")");
        }
        r.append(" (");
        let mut joined = self.dirs[0].clone();
        let mut i: usize = 1;
        assert(texts(self.dirs@).take(1) =~= seq![texts(self.dirs@)[0]]);
        while i < n
            invariant
                1 <= i <= n,
                n == self.dirs@.len(),
                joined@ == comma_joined(texts(self.dirs@).take(i as int)),
            decreases n - i,
        {
            proof {
                reveal_strlit(", ");
            }
            joined.append(", ");
            joined.append(self.dirs[i].as_str());
            assert(texts(self.dirs@).take(i + 1).drop_last() =~= texts(self.dirs@).take(i as int));
            assert(texts(self.dirs@).take(i + 1).last() == self.dirs@[i as int]@);
            i = i + 1;
        }
        assert(texts(self.dirs@).take(n as int) =~= texts(self.dirs@));
        r.append(joined.as_str());
        r.append(")");
        r
    }
}

/// Lists the notes among `file_names`, the names of the files in the notes
/// directory: one entry for each file whose extension is exactly `md`
/// (matched case-sensitively), in their order, each with every directory
/// tagged with that note, once.
pub fn list_notes(file_names: &Vec<String>, note_data: &NoteData) -> (r: Vec<NoteListing>)
    ensures
        r@.len() == md_stems(texts(file_names@)).len(),
        forall|i: int|
            0 <= i < r@.len() ==> {
                &&& #[trigger] r@[i].name@ == md_stems(texts(file_names@))[i]
                &&& texts(r@[i].dirs@) == dirs_tagged(note_data.entries_view(), r@[i].name@)
                &&& texts(r@[i].dirs@).no_duplicates()
                &&& forall|k: Seq<char>|
                    #[trigger] texts(r@[i].dirs@).contains(k) <==> (note_data@.contains_key(k)
                        && note_data@[k] == r@[i].name@)
            },
{
    let ghost files = texts(file_names@);
    let n = file_names.len();
    let mut r: Vec<NoteListing> = Vec::new();
    let mut i: usize = 0;
    while i < n
        invariant
            n == file_names@.len(),
            files == texts(file_names@),
            i <= n,
            r@.len() == md_stems(files.take(i as int)).len(),
            forall|j: int|
                0 <= j < r@.len() ==> {
                    &&& #[trigger] r@[j].name@ == md_stems(files.take(i as int))[j]
                    &&& texts(r@[j].dirs@) == dirs_tagged(note_data.entries_view(), r@[j].name@)
                    &&& texts(r@[j].dirs@).no_duplicates()
                    &&& forall|k: Seq<char>|
                        #[trigger] texts(r@[j].dirs@).contains(k) <==> (note_data@.contains_key(k)
                            && note_data@[k] == r@[j].name@)
                },
        decreases n - i,
    {
        assert(files.take(i + 1).drop_last() =~= files.take(i as int));
        assert(files.take(i + 1).last() == file_names@[i as int]@);
        if let Some(name) = note_of_file(file_names[i].as_str()) {
            let dirs = note_data.tagged_dirs(name.as_str());
            let ghost before = r@;
            r.push(NoteListing { name, dirs });
            assert forall|j: int| 0 <= j < before.len() implies #[trigger] r@[j] == before[j] by {}
        }
        i = i + 1;
    }
    assert(files.take(n as int) =~= files);
    r
}

} // verus!
