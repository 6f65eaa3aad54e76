use minimble::data::NoteData;

fn tags(pairs: &[(&str, &str)]) -> NoteData {
    let mut d = NoteData::new();
    for (dir, name) in pairs {
        d.set_dir_tag(Some(name), dir.to_string());
    }
    d
}

#[test]
fn new_table_is_empty() {
    let d = NoteData::new();
    assert_eq!(d.get_dir_tag("/"), None);
    assert!(d.entries().is_empty());
    assert_eq!(d, NoteData::default());
}

#[test]
fn set_then_get_dir_tag() {
    let d = tags(&[("/home/u/proj", "bob")]);
    assert_eq!(d.get_dir_tag("/home/u/proj"), Some(&"bob".to_string()));
    // Lookups match exactly: no normalisation, no parent walk.
    assert_eq!(d.get_dir_tag("/home/u/proj/"), None);
    assert_eq!(d.get_dir_tag("/home/u"), None);
}

#[test]
fn retagging_replaces_the_tag() {
    let mut d = tags(&[("/a", "bob")]);
    d.set_dir_tag(Some("alice"), "/a".to_string());
    assert_eq!(d.get_dir_tag("/a"), Some(&"alice".to_string()));
    assert_eq!(d.entries().len(), 1);
}

#[test]
fn untag_after_tag_leaves_no_tag() {
    let mut d = NoteData::new();
    d.set_dir_tag(Some("bob"), "/a".to_string());
    d.set_dir_tag(None, "/a".to_string());
    assert_eq!(d.get_dir_tag("/a"), None);
    assert_eq!(d, NoteData::new());
}

#[test]
fn untagging_an_untagged_dir_changes_nothing() {
    let mut d = tags(&[("/a", "bob")]);
    d.set_dir_tag(None, "/b".to_string());
    assert_eq!(d, tags(&[("/a", "bob")]));
}

#[test]
fn setting_the_same_tag_twice_is_setting_it_once() {
    let mut once = NoteData::new();
    once.set_dir_tag(Some("bob"), "/a".to_string());
    let mut twice = NoteData::new();
    twice.set_dir_tag(Some("bob"), "/a".to_string());
    twice.set_dir_tag(Some("bob"), "/a".to_string());
    assert_eq!(once, twice);
}

#[test]
fn equality_ignores_entry_order() {
    let a = tags(&[("/a", "bob"), ("/b", "alice")]);
    let b = tags(&[("/b", "alice"), ("/a", "bob")]);
    assert_eq!(a, b);
    assert_ne!(a, tags(&[("/a", "bob"), ("/b", "bob")]));
    assert_ne!(a, tags(&[("/a", "bob")]));
}

#[test]
fn remove_note_keeps_sibling_tags() {
    // Both notes tagged to the same directory: the later tag wins.
    let mut d = NoteData::new();
    d.set_dir_tag(Some("bob"), "/tmp/notes".to_string());
    d.set_dir_tag(Some("bob2"), "/tmp/notes".to_string());
    d.remove_note("bob");
    let mut b = NoteData::default();
    b.set_dir_tag(Some("bob2"), "/tmp/notes".to_string());
    assert_eq!(b, d);
}

#[test]
fn remove_note_drops_only_its_tags() {
    let mut d = tags(&[("/a", "bob"), ("/b", "alice"), ("/c", "bob")]);
    d.remove_note("bob");
    assert_eq!(d, tags(&[("/b", "alice")]));
}

#[test]
fn rename_note_moves_its_tags() {
    let mut d = tags(&[("/a", "bob"), ("/b", "alice"), ("/c", "bob")]);
    d.rename_note("bob", "robert");
    assert_eq!(
        d,
        tags(&[("/a", "robert"), ("/b", "alice"), ("/c", "robert")])
    );
}

#[test]
fn tagged_dirs_in_order_kept() {
    let d = tags(&[("/a", "bob"), ("/b", "alice"), ("/c", "bob")]);
    assert_eq!(d.tagged_dirs("bob"), vec!["/a".to_string(), "/c".to_string()]);
    assert_eq!(d.tagged_dirs("alice"), vec!["/b".to_string()]);
    assert!(d.tagged_dirs("carol").is_empty());
}

#[test]
fn entries_read_back_give_the_same_table() {
    let d = tags(&[("/a", "bob"), ("/b", "alice")]);
    let back = NoteData::from_entries(d.entries());
    assert_eq!(back, d);
    let mut reversed = d.entries();
    reversed.reverse();
    assert_eq!(NoteData::from_entries(reversed), d);
}

#[test]
fn from_entries_later_entry_wins() {
    let d = NoteData::from_entries(vec![
        ("/a".to_string(), "bob".to_string()),
        ("/a".to_string(), "alice".to_string()),
    ]);
    assert_eq!(d.get_dir_tag("/a"), Some(&"alice".to_string()));
    assert_eq!(d.entries().len(), 1);
}
