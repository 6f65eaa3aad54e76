//! The directory tags: a table from absolute directory paths to note names.

use vstd::prelude::*;

use crate::paths::opt_view;

verus! {

/// A directory and the note it is tagged with, as text.
pub type TagEntry = (Seq<char>, Seq<char>);

/// The table that a list of entries makes when they are set one after the
/// other: a later entry for a directory replaces an earlier one.
pub open spec fn tags_map(s: Seq<TagEntry>) -> Map<Seq<char>, Seq<char>>
    decreases s.len(),
{
    if s.len() == 0 {
        Map::empty()
    } else {
        tags_map(s.drop_last()).insert(s.last().0, s.last().1)
    }
}

/// No directory occurs twice in `s`.
pub open spec fn dirs_unique(s: Seq<TagEntry>) -> bool {
    forall|i: int, j: int| 0 <= i < j < s.len() ==> #[trigger] s[i].0 != #[trigger] s[j].0
}

/// The directories of `s` tagged with `name`, in the order of `s`.
pub open spec fn dirs_tagged(s: Seq<TagEntry>, name: Seq<char>) -> Seq<Seq<char>>
    decreases s.len(),
{
    if s.len() == 0 {
        Seq::empty()
    } else if s.last().1 == name {
        dirs_tagged(s.drop_last(), name).push(s.last().0)
    } else {
        dirs_tagged(s.drop_last(), name)
    }
}

/// A directory is in the table exactly where some entry names it.
pub proof fn lemma_tags_map_dom(s: Seq<TagEntry>, k: Seq<char>)
    ensures
        tags_map(s).contains_key(k) <==> exists|i: int| 0 <= i < s.len() && #[trigger] s[i].0 == k,
    decreases s.len(),
{
    if s.len() > 0 {
        let t = s.drop_last();
        lemma_tags_map_dom(t, k);
        if tags_map(t).contains_key(k) {
            let i = choose|i: int| 0 <= i < t.len() && #[trigger] t[i].0 == k;
            assert(s[i].0 == k);
        }
        if exists|i: int| 0 <= i < s.len() && #[trigger] s[i].0 == k {
            let i = choose|i: int| 0 <= i < s.len() && #[trigger] s[i].0 == k;
            if i < t.len() {
                assert(t[i].0 == k);
            }
        }
    }
}

/// Where no directory occurs twice, each entry gives its directory's tag.
pub proof fn lemma_tags_map_value(s: Seq<TagEntry>, i: int)
    requires
        dirs_unique(s),
        0 <= i < s.len(),
    ensures
        tags_map(s).contains_key(s[i].0),
        tags_map(s)[s[i].0] == s[i].1,
    decreases s.len(),
{
    let t = s.drop_last();
    if i < s.len() - 1 {
        assert(t[i] == s[i]);
        assert(dirs_unique(t)) by {
            assert forall|a: int, b: int| 0 <= a < b < t.len() implies t[a].0 != t[b].0 by {
                assert(t[a] == s[a] && t[b] == s[b]);
            }
        }
        lemma_tags_map_value(t, i);
    }
}

/// Two lists without repeated directories that hold the same entries up to
/// order make the same table.
pub proof fn lemma_tags_map_ext(s: Seq<TagEntry>, m: Map<Seq<char>, Seq<char>>)
    requires
        dirs_unique(s),
        forall|k: Seq<char>| m.contains_key(k) <==> exists|i: int| 0 <= i < s.len() && #[trigger] s[i].0 == k,
        forall|i: int| 0 <= i < s.len() ==> m[#[trigger] s[i].0] == s[i].1,
    ensures
        tags_map(s) == m,
{
    assert forall|k: Seq<char>| tags_map(s).contains_key(k) <==> m.contains_key(k) by {
        lemma_tags_map_dom(s, k);
    }
    assert forall|k: Seq<char>| #[trigger] tags_map(s).contains_key(k) implies tags_map(s)[k] == m[k] by {
        lemma_tags_map_dom(s, k);
        let i = choose|i: int| 0 <= i < s.len() && #[trigger] s[i].0 == k;
        lemma_tags_map_value(s, i);
    }
    assert(tags_map(s) =~= m);
}

/// The table without the tags that name the note `name`.
pub open spec fn without_note(m: Map<Seq<char>, Seq<char>>, name: Seq<char>) -> Map<Seq<char>, Seq<char>> {
    Map::new(|k: Seq<char>| m.contains_key(k) && m[k] != name, |k: Seq<char>| m[k])
}

/// The table with every tag that names `from` naming `to` instead.
pub open spec fn renamed_note(m: Map<Seq<char>, Seq<char>>, from: Seq<char>, to: Seq<char>) -> Map<
    Seq<char>,
    Seq<char>,
> {
    Map::new(
        |k: Seq<char>| m.contains_key(k),
        |k: Seq<char>|
            if m[k] == from {
                to
            } else {
                m[k]
            },
    )
}

/// A prefix of entries without repeated directories has none either.
pub proof fn lemma_unique_take(s: Seq<TagEntry>, n: int)
    requires
        dirs_unique(s),
        0 <= n <= s.len(),
    ensures
        dirs_unique(s.take(n)),
{
    let t = s.take(n);
    assert forall|a: int, b: int| 0 <= a < b < t.len() implies t[a].0 != t[b].0 by {
        assert(t[a] == s[a] && t[b] == s[b]);
    }
}

/// The entry at `n` names a directory that the entries before it do not.
pub proof fn lemma_unique_next(s: Seq<TagEntry>, n: int)
    requires
        dirs_unique(s),
        0 <= n < s.len(),
    ensures
        !tags_map(s.take(n)).contains_key(s[n].0),
        s.take(n + 1).drop_last() == s.take(n),
        s.take(n + 1).last() == s[n],
{
    lemma_tags_map_dom(s.take(n), s[n].0);
    if exists|i: int| 0 <= i < s.take(n).len() && #[trigger] s.take(n)[i].0 == s[n].0 {
        let i = choose|i: int| 0 <= i < s.take(n).len() && #[trigger] s.take(n)[i].0 == s[n].0;
        assert(s.take(n)[i] == s[i]);
    }
    assert(s.take(n + 1).drop_last() =~= s.take(n));
}

/// Where no directory occurs twice, the directories tagged with `name` are
/// those the table maps to `name`, each once.
pub proof fn lemma_dirs_tagged(s: Seq<TagEntry>, name: Seq<char>)
    requires
        dirs_unique(s),
    ensures
        dirs_tagged(s, name).no_duplicates(),
        forall|k: Seq<char>|
            #[trigger] dirs_tagged(s, name).contains(k) <==> (tags_map(s).contains_key(k) && tags_map(s)[k]
                == name),
    decreases s.len(),
{
    if s.len() > 0 {
        let t = s.drop_last();
        lemma_unique_take(s, s.len() - 1);
        assert(t =~= s.take(s.len() - 1));
        lemma_dirs_tagged(t, name);
        lemma_unique_next(s, s.len() - 1);
        let e = s.last();
        assert(s[s.len() - 1] == e);
        if e.1 == name {
            let d = dirs_tagged(t, name);
            assert(dirs_tagged(s, name) == d.push(e.0));
            assert(!d.contains(e.0));
            assert forall|a: int, b: int| 0 <= a < b < d.push(e.0).len() implies d.push(e.0)[a] != d.push(
                e.0,
            )[b] by {
                if b == d.len() {
                    assert(d.push(e.0)[a] == d[a]);
                }
            }
            assert forall|k: Seq<char>| #[trigger] d.push(e.0).contains(k) <==> (d.contains(k) || k == e.0) by {
                if d.push(e.0).contains(k) {
                    let i = choose|i: int| 0 <= i < d.push(e.0).len() && d.push(e.0)[i] == k;
                    if i < d.len() {
                        assert(d[i] == k);
                    }
                }
                if d.contains(k) {
                    let i = choose|i: int| 0 <= i < d.len() && d[i] == k;
                    assert(d.push(e.0)[i] == k);
                }
                if k == e.0 {
                    assert(d.push(e.0)[d.len() as int] == k);
                }
            }
        }
    }
}

/// The directory tags: each directory is tagged with at most one note name,
/// and several directories may carry the same name. Lookups match a directory
/// exactly, so callers hand in normalised paths.
#[derive(Debug)]
pub struct NoteData {
    directory_tags: Vec<(String, String)>,
}

impl View for NoteData {
    type V = Map<Seq<char>, Seq<char>>;

    closed spec fn view(&self) -> Map<Seq<char>, Seq<char>> {
        tags_map(self.entries_view())
    }
}

/// Entries of strings as text.
pub open spec fn entries_text(v: Seq<(String, String)>) -> Seq<TagEntry> {
    v.map_values(|e: (String, String)| (e.0@, e.1@))
}

/// Strings as text.
pub open spec fn texts(v: Seq<String>) -> Seq<Seq<char>> {
    v.map_values(|d: String| d@)
}

/// The table after tagging `dir` with `name`, or untagging it where `name` is
/// `None`.
pub open spec fn with_tag(m: Map<Seq<char>, Seq<char>>, name: Option<Seq<char>>, dir: Seq<char>) -> Map<
    Seq<char>,
    Seq<char>,
> {
    match name {
        Some(n) => m.insert(dir, n),
        None => m.remove(dir),
    }
}

impl NoteData {
    /// The entries as text, in the order they are kept.
    pub closed spec fn entries_view(&self) -> Seq<TagEntry> {
        entries_text(self.directory_tags@)
    }

    #[verifier::type_invariant]
    spec fn inv(self) -> bool {
        dirs_unique(self.entries_view())
    }

    /// An empty table.
    pub fn new() -> (r: NoteData)
        ensures
            r@ == Map::<Seq<char>, Seq<char>>::empty(),
    {
        let r = NoteData { directory_tags: Vec::new() };
        assert(r.entries_view() =~= Seq::<TagEntry>::empty());
        r
    }

    /// The entries, each directory once, in the order they are kept.
    pub fn entries(&self) -> (r: Vec<(String, String)>)
        ensures
            entries_text(r@) == self.entries_view(),
            dirs_unique(entries_text(r@)),
            tags_map(entries_text(r@)) == self@,
    {
        proof {
            use_type_invariant(self);
        }
        let n = self.directory_tags.len();
        let mut r: Vec<(String, String)> = Vec::new();
        let mut i: usize = 0;
        while i < n
            invariant
                n == self.directory_tags@.len(),
                i <= n,
                entries_text(r@) =~= self.entries_view().take(i as int),
            decreases n - i,
        {
            let e = &self.directory_tags[i];
            let ghost before = r@;
            r.push((e.0.clone(), e.1.clone()));
            assert(r@ =~= before.push(r@.last()));
            assert(entries_text(r@) =~= entries_text(before).push(self.entries_view()[i as int]));
            assert(self.entries_view().take(i + 1) =~= self.entries_view().take(i as int).push(
                self.entries_view()[i as int],
            ));
            i = i + 1;
        }
        assert(self.entries_view().take(n as int) =~= self.entries_view());
        r
    }

    /// The table that `entries` make when set one after the other.
    pub fn from_entries(entries: Vec<(String, String)>) -> (r: NoteData)
        ensures
            r@ == tags_map(entries_text(entries@)),
    {
        let mut r = NoteData::new();
        let ghost s = entries_text(entries@);
        let n = entries.len();
        let mut i: usize = 0;
        while i < n
            invariant
                n == entries@.len(),
                s == entries_text(entries@),
                i <= n,
                r@ == tags_map(s.take(i as int)),
            decreases n - i,
        {
            let e = &entries[i];
            r.set_dir_tag(Some(e.1.as_str()), e.0.clone());
            assert(s.take(i + 1).drop_last() =~= s.take(i as int));
            i = i + 1;
        }
        assert(s.take(n as int) =~= s);
        r
    }

    /// Drops every tag that names the note `name`; other tags stay as they are.
    pub fn remove_note(&mut self, name: &str)
        ensures
            final(self)@ == without_note(old(self)@, name@),
    {
        proof {
            use_type_invariant(&*self);
        }
        let ghost s = self.entries_view();
        let name = name.to_owned();
        let n = self.directory_tags.len();
        let mut out: Vec<(String, String)> = Vec::new();
        let mut i: usize = 0;
        while i < n
            invariant
                n == self.directory_tags@.len(),
                s == self.entries_view(),
                dirs_unique(s),
                i <= n,
                dirs_unique(entries_text(out@)),
                forall|j: int|
                    0 <= j < out@.len() ==> tags_map(s.take(i as int)).contains_key(
                        #[trigger] entries_text(out@)[j].0,
                    ),
                tags_map(entries_text(out@)) == without_note(tags_map(s.take(i as int)), name@),
            decreases n - i,
        {
            let e = &self.directory_tags[i];
            proof {
                lemma_unique_next(s, i as int);
            }
            let ghost t = entries_text(out@);
            let ghost prev = tags_map(s.take(i as int));
            if !(e.1 == name) {
                out.push((e.0.clone(), e.1.clone()));
                let ghost t2 = entries_text(out@);
                assert(t2 =~= t.push(s[i as int]));
                assert(t2.drop_last() =~= t);
                assert(without_note(prev.insert(s[i as int].0, s[i as int].1), name@) =~= without_note(
                    prev,
                    name@,
                ).insert(s[i as int].0, s[i as int].1));
                assert forall|a: int, b: int| 0 <= a < b < t2.len() implies t2[a].0 != t2[b].0 by {
                    assert(t2[a] == t[a]);
                    if b < t.len() {
                        assert(t2[b] == t[b]);
                    }
                }
            } else {
                assert(without_note(prev.insert(s[i as int].0, s[i as int].1), name@) =~= without_note(
                    prev,
                    name@,
                ));
            }
            i = i + 1;
        }
        assert(s.take(n as int) =~= s);
        self.directory_tags = out;
    }

    /// Makes every tag that names the note `from` name `to` instead.
    pub fn rename_note(&mut self, from: &str, to: &str)
        ensures
            final(self)@ == renamed_note(old(self)@, from@, to@),
    {
        proof {
            use_type_invariant(&*self);
        }
        let ghost s = self.entries_view();
        let from = from.to_owned();
        let n = self.directory_tags.len();
        let mut out: Vec<(String, String)> = Vec::new();
        let mut i: usize = 0;
        while i < n
            invariant
                n == self.directory_tags@.len(),
                s == self.entries_view(),
                dirs_unique(s),
                i <= n,
                out@.len() == i,
                forall|j: int| 0 <= j < i ==> #[trigger] entries_text(out@)[j].0 == s[j].0,
                tags_map(entries_text(out@)) == renamed_note(tags_map(s.take(i as int)), from@, to@),
            decreases n - i,
        {
            let e = &self.directory_tags[i];
            proof {
                lemma_unique_next(s, i as int);
            }
            let ghost t = entries_text(out@);
            let ghost prev = tags_map(s.take(i as int));
            let value = if e.1 == from {
                to.to_owned()
            } else {
                e.1.clone()
            };
            out.push((e.0.clone(), value));
            let ghost t2 = entries_text(out@);
            assert(t2.drop_last() =~= t);
            assert forall|j: int| 0 <= j < i implies #[trigger] t2[j].0 == s[j].0 by {
                assert(t2[j] == t[j]);
            }
            assert(renamed_note(prev.insert(s[i as int].0, s[i as int].1), from@, to@) =~= renamed_note(
                prev,
                from@,
                to@,
            ).insert(s[i as int].0, t2.last().1));
            i = i + 1;
        }
        assert(s.take(n as int) =~= s);
        assert forall|a: int, b: int|
            0 <= a < b < entries_text(out@).len() implies entries_text(out@)[a].0 != entries_text(
            out@,
        )[b].0 by {
            assert(entries_text(out@)[a].0 == s[a].0);
            assert(entries_text(out@)[b].0 == s[b].0);
        }
        self.directory_tags = out;
    }

    /// The directories tagged with the note `name`, in the order they are kept.
    pub fn tagged_dirs(&self, name: &str) -> (r: Vec<String>)
        ensures
            texts(r@) == dirs_tagged(self.entries_view(), name@),
            texts(r@).no_duplicates(),
            forall|k: Seq<char>|
                #[trigger] texts(r@).contains(k) <==> (self@.contains_key(k)
                    && self@[k] == name@),
    {
        proof {
            use_type_invariant(self);
            lemma_dirs_tagged(self.entries_view(), name@);
        }
        let ghost s = self.entries_view();
        let name = name.to_owned();
        let n = self.directory_tags.len();
        let mut out: Vec<String> = Vec::new();
        let mut i: usize = 0;
        while i < n
            invariant
                n == self.directory_tags@.len(),
                s == self.entries_view(),
                i <= n,
                texts(out@) == dirs_tagged(s.take(i as int), name@),
            decreases n - i,
        {
            let e = &self.directory_tags[i];
            let ghost before = out@;
            assert(s.take(i + 1).drop_last() =~= s.take(i as int));
            assert(s.take(i + 1).last() == s[i as int]);
            if e.1 == name {
                out.push(e.0.clone());
                assert(texts(out@) =~= texts(before).push(
                    s[i as int].0,
                ));
            }
            i = i + 1;
        }
        assert(s.take(n as int) =~= s);
        out
    }

    /// Whether every tag of `other` is also a tag of `self`.
    fn includes(&self, other: &NoteData) -> (r: bool)
        ensures
            r == forall|k: Seq<char>|
                #[trigger] other@.contains_key(k) ==> self@.contains_key(k) && self@[k] == other@[k],
    {
        proof {
            use_type_invariant(other);
        }
        let ghost s = other.entries_view();
        let n = other.directory_tags.len();
        let mut i: usize = 0;
        while i < n
            invariant
                n == other.directory_tags@.len(),
                s == other.entries_view(),
                dirs_unique(s),
                i <= n,
                forall|j: int|
                    0 <= j < i ==> self@.contains_key(#[trigger] s[j].0) && self@[s[j].0] == s[j].1,
            decreases n - i,
        {
            let e = &other.directory_tags[i];
            assert(s[i as int] == (e.0@, e.1@));
            match self.get_dir_tag(e.0.as_str()) {
                Some(v) => {
                    if !(*v == e.1) {
                        proof {
                            lemma_tags_map_value(s, i as int);
                            assert(other@.contains_key(s[i as int].0));
                        }
                        return false;
                    }
                },
                None => {
                    proof {
                        lemma_tags_map_value(s, i as int);
                        assert(other@.contains_key(s[i as int].0));
                    }
                    return false;
                },
            }
            i = i + 1;
        }
        proof {
            assert forall|k: Seq<char>| #[trigger] other@.contains_key(k) implies self@.contains_key(k)
                && self@[k] == other@[k] by {
                lemma_tags_map_dom(s, k);
                let j = choose|j: int| 0 <= j < s.len() && #[trigger] s[j].0 == k;
                lemma_tags_map_value(s, j);
            }
        }
        true
    }

    /// Position of the entry for `dir`.
    fn index_of(&self, dir: &String) -> (r: Option<usize>)
        ensures
            match r {
                Some(i) => i < self.entries_view().len() && self.entries_view()[i as int].0 == dir@,
                None => !self@.contains_key(dir@),
            },
    {
        proof {
            use_type_invariant(self);
        }
        let n = self.directory_tags.len();
        let mut i: usize = 0;
        while i < n
            invariant
                n == self.directory_tags@.len(),
                i <= n,
                forall|j: int| 0 <= j < i ==> #[trigger] self.entries_view()[j].0 != dir@,
                dirs_unique(self.entries_view()),
                self.entries_view().len() == n,
                forall|j: int|
                    0 <= j < n ==> #[trigger] self.entries_view()[j] == (
                    self.directory_tags@[j].0@,
                    self.directory_tags@[j].1@,
                ),
            decreases n - i,
        {
            if self.directory_tags[i].0 == *dir {
                return Some(i);
            }
            i = i + 1;
        }
        proof {
            lemma_tags_map_dom(self.entries_view(), dir@);
        }
        None
    }

    /// Tags `path` with the note `name`, replacing any tag it had; with `None`,
    /// removes the tag of `path` if there is one.
    pub fn set_dir_tag(&mut self, name: Option<&str>, path: String)
        ensures
            final(self)@ == with_tag(old(self)@, opt_view(name), path@),
    {
        proof {
            use_type_invariant(&*self);
        }
        let ghost s = self.entries_view();
        let ghost m = self@;
        let mut v = self.entries();
        match self.index_of(&path) {
            Some(i) => {
                proof {
                    lemma_tags_map_value(s, i as int);
                }
                match name {
                    Some(n) => {
                        let ghost k = path@;
                        let e = (path, n.to_owned());
                        v.set(i, e);
                        let ghost t = entries_text(v@);
                        assert(t =~= s.update(i as int, (k, n@)));
                        proof {
                            assert forall|a: int, b: int| 0 <= a < b < t.len() implies t[a].0 != t[b].0 by {
                                if a != i && b != i {
                                    assert(t[a] == s[a] && t[b] == s[b]);
                                }
                                else if a == i {
                                    assert(t[b] == s[b]);
                                } else {
                                    assert(t[a] == s[a]);
                                }
                            }
                            let m2 = m.insert(k, n@);
                            assert forall|key: Seq<char>| m2.contains_key(key) <==> exists|j: int| 0 <= j < t.len() && #[trigger] t[j].0 == key by {
                                lemma_tags_map_dom(s, key);
                                if exists|j: int| 0 <= j < s.len() && #[trigger] s[j].0 == key {
                                    let j = choose|j: int| 0 <= j < s.len() && #[trigger] s[j].0 == key;
                                    assert(t[j].0 == key);
                                }
                                if exists|j: int| 0 <= j < t.len() && #[trigger] t[j].0 == key {
                                    let j = choose|j: int| 0 <= j < t.len() && #[trigger] t[j].0 == key;
                                    assert(s[j].0 == key);
                                }
                            }
                            assert forall|j: int| 0 <= j < t.len() implies m2[#[trigger] t[j].0] == t[j].1 by {
                                if j != i {
                                    assert(t[j] == s[j]);
                                    lemma_tags_map_value(s, j);
                                }
                            }
                            lemma_tags_map_ext(t, m2);
                        }
                    },
                    None => {
                        let ghost k = path@;
                        v.remove(i);
                        let ghost t = entries_text(v@);
                        assert(t =~= s.remove(i as int));
                        proof {
                            assert forall|a: int, b: int| 0 <= a < b < t.len() implies t[a].0 != t[b].0 by {
                                if a < i {
                                    assert(t[a] == s[a]);
                                } else {
                                    assert(t[a] == s[a + 1]);
                                }
                                if b < i {
                                    assert(t[b] == s[b]);
                                } else {
                                    assert(t[b] == s[b + 1]);
                                }
                            }
                            let m2 = m.remove(k);
                            assert forall|key: Seq<char>| m2.contains_key(key) <==> exists|j: int| 0 <= j < t.len() && #[trigger] t[j].0 == key by {
                                lemma_tags_map_dom(s, key);
                                if m2.contains_key(key) {
                                    let j = choose|j: int| 0 <= j < s.len() && #[trigger] s[j].0 == key;
                                    if j < i {
                                        assert(t[j].0 == key);
                                    } else {
                                        assert(t[j - 1].0 == key);
                                    }
                                }
                                if exists|j: int| 0 <= j < t.len() && #[trigger] t[j].0 == key {
                                    let j = choose|j: int| 0 <= j < t.len() && #[trigger] t[j].0 == key;
                                    if j < i {
                                        assert(s[j].0 == key);
                                    } else {
                                        assert(s[j + 1].0 == key);
                                    }
                                }
                            }
                            assert forall|j: int| 0 <= j < t.len() implies m2[#[trigger] t[j].0] == t[j].1 by {
                                if j < i {
                                    assert(t[j] == s[j]);
                                    lemma_tags_map_value(s, j);
                                } else {
                                    assert(t[j] == s[j + 1]);
                                    lemma_tags_map_value(s, j + 1);
                                }
                            }
                            lemma_tags_map_ext(t, m2);
                        }
                    },
                }
            },
            None => {
                match name {
                    Some(n) => {
                        let ghost k = path@;
                        let e = (path, n.to_owned());
                        v.push(e);
                        let ghost t = entries_text(v@);
                        assert(t =~= s.push((k, n@)));
                        assert(t.drop_last() =~= s);
                        proof {
                            assert forall|a: int, b: int| 0 <= a < b < t.len() implies t[a].0 != t[b].0 by {
                                assert(t[a] == s[a]);
                                if b < s.len() {
                                    assert(t[b] == s[b]);
                                } else {
                                    lemma_tags_map_dom(s, k);
                                }
                            }
                        }
                    },
                    None => {
                        assert(m.remove(path@) =~= m);
                    },
                }
            },
        }
        self.directory_tags = v;
    }

    /// The note that `path` is tagged with, if any.
    pub fn get_dir_tag(&self, path: &str) -> (r: Option<&String>)
        ensures
            match r {
                Some(n) => self@.contains_key(path@) && self@[path@] == n@,
                None => !self@.contains_key(path@),
            },
    {
        proof {
            use_type_invariant(self);
        }
        let key = path.to_owned();
        match self.index_of(&key) {
            Some(i) => {
                proof {
                    lemma_tags_map_value(self.entries_view(), i as int);
                }
                Some(&self.directory_tags[i].1)
            },
            None => None,
        }
    }
}

impl Default for NoteData {
    fn default() -> (r: NoteData)
        ensures
            r@ == Map::<Seq<char>, Seq<char>>::empty(),
    {
        NoteData::new()
    }
}

/// Two tables are equal when they tag the same directories with the same
/// notes, whatever order their entries are kept in.
impl PartialEq for NoteData {
    fn eq(&self, other: &NoteData) -> (r: bool) {
        let r = self.includes(other) && other.includes(self);
        proof {
            if r {
                assert(self@ =~= other@);
            }
        }
        r
    }
}

impl vstd::std_specs::cmp::PartialEqSpecImpl for NoteData {
    open spec fn obeys_eq_spec() -> bool {
        true
    }

    open spec fn eq_spec(&self, other: &NoteData) -> bool {
        self@ == other@
    }
}

/// Tagging a directory and then untagging it leaves it without a tag.
pub proof fn lemma_untag_after_tag(m: Map<Seq<char>, Seq<char>>, dir: Seq<char>, name: Seq<char>)
    ensures
        !with_tag(with_tag(m, Some(name), dir), None, dir).contains_key(dir),
{
}

/// Entries that list each directory once make the same table whatever their
/// order: a table written out as its entries and read back in another order
/// is the table it was.
pub proof fn lemma_entries_any_order(s: Seq<TagEntry>, t: Seq<TagEntry>)
    requires
        dirs_unique(s),
        dirs_unique(t),
        forall|e: TagEntry| s.contains(e) <==> t.contains(e),
    ensures
        tags_map(t) == tags_map(s),
{
    let m = tags_map(s);
    assert forall|k: Seq<char>| m.contains_key(k) <==> exists|j: int| 0 <= j < t.len() && #[trigger] t[j].0 == k by {
        lemma_tags_map_dom(s, k);
        if m.contains_key(k) {
            let i = choose|i: int| 0 <= i < s.len() && #[trigger] s[i].0 == k;
            assert(s.contains(s[i]));
            let j = choose|j: int| 0 <= j < t.len() && t[j] == s[i];
            assert(t[j].0 == k);
        }
        if exists|j: int| 0 <= j < t.len() && #[trigger] t[j].0 == k {
            let j = choose|j: int| 0 <= j < t.len() && #[trigger] t[j].0 == k;
            assert(t.contains(t[j]));
            let i = choose|i: int| 0 <= i < s.len() && s[i] == t[j];
            assert(s[i].0 == k);
        }
    }
    assert forall|j: int| 0 <= j < t.len() implies m[#[trigger] t[j].0] == t[j].1 by {
        assert(t.contains(t[j]));
        let i = choose|i: int| 0 <= i < s.len() && s[i] == t[j];
        lemma_tags_map_value(s, i);
    }
    lemma_tags_map_ext(t, m);
}

} // verus!
