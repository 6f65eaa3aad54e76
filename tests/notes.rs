use minimble::data::NoteData;
use minimble::{
    absolute_path, edit_outcome, get_full_path, get_note_file_name, list_notes, locate_note,
    note_of_file, plan_rename, tag_dir, NoteError, RenameNoteOptions, TagDirOptions,
};

fn tags(pairs: &[(&str, &str)]) -> NoteData {
    let mut d = NoteData::new();
    for (dir, name) in pairs {
        d.set_dir_tag(Some(name), dir.to_string());
    }
    d
}

fn add(name: &str, dir: &str) -> TagDirOptions {
    TagDirOptions {
        name: name.to_string(),
        add_dir_tag: Some(dir.to_string()),
        remove_dir_tag: None,
    }
}

#[test]
fn literal_name_is_returned_unchanged() {
    let d = NoteData::new();
    assert_eq!(get_note_file_name("bob", None, &d), Ok("bob".to_string()));
    assert_eq!(get_note_file_name("a b/..", None, &d), Ok("a b/..".to_string()));
    assert_eq!(get_note_file_name("@@", None, &d), Ok("@@".to_string()));
}

#[test]
fn context_found_at_current_dir() {
    let d = tags(&[("/home/u/proj", "bob")]);
    assert_eq!(
        get_note_file_name("@", Some("/home/u/proj"), &d),
        Ok("bob".to_string())
    );
}

#[test]
fn context_found_at_any_depth_below() {
    let d = tags(&[("/home/u/proj", "bob")]);
    for cwd in ["/home/u/proj/src", "/home/u/proj/src/a/b/c/d"] {
        assert_eq!(get_note_file_name("@", Some(cwd), &d), Ok("bob".to_string()));
    }
}

#[test]
fn nearest_tag_wins() {
    let d = tags(&[("/home/u/proj", "bob"), ("/home/u/proj/src", "alice"), ("/", "root")]);
    assert_eq!(
        get_note_file_name("@", Some("/home/u/proj/src/x"), &d),
        Ok("alice".to_string())
    );
    assert_eq!(
        get_note_file_name("@", Some("/home/u/proj/doc"), &d),
        Ok("bob".to_string())
    );
    assert_eq!(
        get_note_file_name("@", Some("/home/v"), &d),
        Ok("root".to_string())
    );
}

#[test]
fn context_without_tag_fails() {
    let d = tags(&[("/home/u/proj", "bob")]);
    assert_eq!(
        get_note_file_name("@", Some("/home/u/other/deep"), &d),
        Err(NoteError::NoTagFound)
    );
    assert_eq!(get_note_file_name("@", Some("/"), &d), Err(NoteError::NoTagFound));
    assert_eq!(
        get_note_file_name("@", Some("/home/u"), &NoteData::new()),
        Err(NoteError::NoTagFound)
    );
}

#[test]
fn context_without_cwd_fails() {
    let d = tags(&[("/", "bob")]);
    assert_eq!(get_note_file_name("@", None, &d), Err(NoteError::CwdUnavailable));
}

#[test]
fn absolute_path_cleans_lexically() {
    assert_eq!(absolute_path("/a/./b//c/../d", None), Ok("/a/b/d".to_string()));
    assert_eq!(absolute_path("/../x", None), Ok("/x".to_string()));
    assert_eq!(absolute_path("/a/b/", Some("/ignored")), Ok("/a/b".to_string()));
}

#[test]
fn absolute_path_joins_relative_onto_cwd() {
    assert_eq!(
        absolute_path("sub/../x", Some("/home/u")),
        Ok("/home/u/x".to_string())
    );
    assert_eq!(absolute_path("x", Some("/")), Ok("/x".to_string()));
    assert_eq!(absolute_path("", Some("/home/u")), Ok("/home/u".to_string()));
    assert_eq!(absolute_path("..", Some("/home/u")), Ok("/home".to_string()));
}

#[test]
fn absolute_path_needs_cwd_only_when_relative() {
    assert_eq!(absolute_path("x", None), Err(NoteError::CwdUnavailable));
    assert_eq!(absolute_path("/x", None), Ok("/x".to_string()));
}

#[test]
fn full_path_of_a_note() {
    assert_eq!(get_full_path("/notes", "bob", "md"), "/notes/bob.md");
    assert_eq!(get_full_path("/notes/", "bob", "md"), "/notes/bob.md");
    assert_eq!(get_full_path("/notes", "bob.txt", "md"), "/notes/bob.txt.md");
    assert_eq!(get_full_path("/notes", "a.b.c", "md"), "/notes/a.b.c.md");
    assert_eq!(get_full_path("/notes", ".bashrc", "md"), "/notes/.bashrc.md");
    assert_eq!(get_full_path("/notes", "sub/bob", "md"), "/notes/sub/bob.md");
    assert_eq!(get_full_path("/notes", "/x/bob", "md"), "/x/bob.md");
    assert_eq!(get_full_path("", "bob", "md"), "bob.md");
}

#[test]
fn listed_note_is_edited_at_its_own_file() {
    let name = note_of_file("a.b.md").unwrap();
    let l = locate_note(&name, "/notes", None, &NoteData::new()).unwrap();
    assert_eq!(l.path, "/notes/a.b.md");
}

#[test]
fn tag_dir_tags_with_resolved_name() {
    let mut d = NoteData::new();
    let r = tag_dir(add("bob", "proj/./src"), Some("/home/u"), &mut d);
    assert_eq!(r, Ok("bob".to_string()));
    assert_eq!(d, tags(&[("/home/u/proj/src", "bob")]));
}

#[test]
fn tag_dir_adds_and_removes_in_one_call() {
    let mut d = tags(&[("/old", "bob")]);
    let opts = TagDirOptions {
        name: "bob".to_string(),
        add_dir_tag: Some("/new".to_string()),
        remove_dir_tag: Some("/old/".to_string()),
    };
    assert_eq!(tag_dir(opts, None, &mut d), Ok("bob".to_string()));
    assert_eq!(d, tags(&[("/new", "bob")]));
}

#[test]
fn tag_dir_with_context_name() {
    let mut d = tags(&[("/home/u/proj", "bob")]);
    let r = tag_dir(add("@", "/srv"), Some("/home/u/proj/src"), &mut d);
    assert_eq!(r, Ok("bob".to_string()));
    assert_eq!(d, tags(&[("/home/u/proj", "bob"), ("/srv", "bob")]));
}

#[test]
fn tag_dir_twice_is_tag_dir_once() {
    for name in ["bob", "@"] {
        let start = tags(&[("/home/u", "alice")]);
        let mut once = tags(&[("/home/u", "alice")]);
        tag_dir(add(name, "proj"), Some("/home/u/x"), &mut once).unwrap();
        let mut twice = tags(&[("/home/u", "alice")]);
        tag_dir(add(name, "proj"), Some("/home/u/x"), &mut twice).unwrap();
        tag_dir(add(name, "proj"), Some("/home/u/x"), &mut twice).unwrap();
        assert_eq!(once, twice);
        assert_ne!(once, start);
    }
}

#[test]
fn tag_dir_errors_leave_tags() {
    let mut d = NoteData::new();
    assert_eq!(
        tag_dir(add("@", "/x"), Some("/home"), &mut d),
        Err(NoteError::NoTagFound)
    );
    assert_eq!(tag_dir(add("bob", "x"), None, &mut d), Err(NoteError::CwdUnavailable));
    assert_eq!(d, NoteData::new());
}

#[test]
fn tag_dir_keeps_the_add_when_remove_fails() {
    let mut d = NoteData::new();
    let opts = TagDirOptions {
        name: "bob".to_string(),
        add_dir_tag: Some("/x".to_string()),
        remove_dir_tag: Some("relative".to_string()),
    };
    assert_eq!(tag_dir(opts, None, &mut d), Err(NoteError::CwdUnavailable));
    assert_eq!(d, tags(&[("/x", "bob")]));
}

#[test]
fn edit_location_is_the_same_each_time() {
    let d = NoteData::new();
    let mut paths = Vec::new();
    for _ in 0..3 {
        let l = locate_note("bob", "/tmp/notes", None, &d).expect("Edit failed");
        assert_eq!(l.name, "bob");
        paths.push(l.path);
    }
    assert_eq!(paths, vec!["/tmp/notes/bob.md"; 3]);
}

#[test]
fn locate_note_through_context() {
    let d = tags(&[("/home/u/proj", "bob")]);
    let l = locate_note("@", "/notes", Some("/home/u/proj/a"), &d).unwrap();
    assert_eq!((l.name.as_str(), l.path.as_str()), ("bob", "/notes/bob.md"));
    assert!(matches!(
        locate_note("@", "/notes", Some("/elsewhere"), &d),
        Err(NoteError::NoTagFound)
    ));
}

#[test]
fn edit_outcomes() {
    assert_eq!(edit_outcome("/n/bob.md", Ok(true), true), Ok(()));
    assert_eq!(
        edit_outcome("/n/bob.md", Ok(true), false),
        Err(NoteError::NotSaved("/n/bob.md".to_string()))
    );
    assert_eq!(
        edit_outcome("/n/bob.md", Ok(false), true),
        Err(NoteError::EditorFailed(None))
    );
    assert_eq!(
        edit_outcome("/n/bob.md", Err("no such program".to_string()), true),
        Err(NoteError::EditorFailed(Some("no such program".to_string())))
    );
}

#[test]
fn rename_refused_when_target_exists() {
    let d = tags(&[("/a", "bob")]);
    let opts = RenameNoteOptions {
        name: "bob".to_string(),
        new_name: "alice".to_string(),
    };
    let r = plan_rename(&opts, "/notes", None, &d, true);
    assert!(matches!(r, Err(NoteError::AlreadyExists(ref p)) if p == "/notes/alice.md"));
    assert_eq!(d, tags(&[("/a", "bob")]));
}

#[test]
fn rename_planned_when_target_free() {
    let mut d = tags(&[("/home/u", "bob")]);
    let opts = RenameNoteOptions {
        name: "@".to_string(),
        new_name: "alice".to_string(),
    };
    let p = plan_rename(&opts, "/notes", Some("/home/u/src"), &d, false).unwrap();
    assert_eq!(p.name, "bob");
    assert_eq!(p.new_name, "alice");
    assert_eq!(p.from, "/notes/bob.md");
    assert_eq!(p.to, "/notes/alice.md");
    d.rename_note(&p.name, &p.new_name);
    assert_eq!(
        get_note_file_name("@", Some("/home/u/src"), &d),
        Ok("alice".to_string())
    );
}

#[test]
fn rename_fails_on_resolution_first() {
    let opts = RenameNoteOptions {
        name: "@".to_string(),
        new_name: "alice".to_string(),
    };
    let r = plan_rename(&opts, "/notes", Some("/x"), &NoteData::new(), true);
    assert!(matches!(r, Err(NoteError::NoTagFound)));
}

#[test]
fn note_of_file_needs_exact_md() {
    assert_eq!(note_of_file("bob.md"), Some("bob".to_string()));
    assert_eq!(note_of_file("a.b.md"), Some("a.b".to_string()));
    assert_eq!(note_of_file("..md"), Some(".".to_string()));
    assert_eq!(note_of_file("bob.MD"), None);
    assert_eq!(note_of_file("bob.mdx"), None);
    assert_eq!(note_of_file("bob.txt"), None);
    assert_eq!(note_of_file(".md"), None);
    assert_eq!(note_of_file("md"), None);
    assert_eq!(note_of_file("bob."), None);
    assert_eq!(note_of_file("minimble_data.json"), None);
}

#[test]
fn listing_shows_md_files_with_their_tags() {
    let d = tags(&[("/d1", "bob"), ("/d3", "bob2"), ("/d2", "bob")]);
    let files: Vec<String> = [
        "bob.md",
        "notes.MD",
        "x.txt",
        "README",
        ".md",
        "a.b.md",
        "minimble_data.json",
        "bob2.md",
    ]
    .iter()
    .map(|s| s.to_string())
    .collect();
    let listing = list_notes(&files, &d);
    let lines: Vec<String> = listing.iter().map(|l| l.line()).collect();
    assert_eq!(lines, vec!["bob (/d1, /d2)", "a.b", "bob2 (/d3)"]);
    assert_eq!(listing[0].dirs, vec!["/d1".to_string(), "/d2".to_string()]);
}

#[test]
fn listing_of_no_files_is_empty() {
    let d = tags(&[("/d1", "bob")]);
    assert!(list_notes(&Vec::new(), &d).is_empty());
}
