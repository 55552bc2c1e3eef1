//! A model of the on-disk configuration state.
//!
//! The engine works on a value of [`DiskState`] that mirrors the handful of
//! locations the configuration ever lives at: the legacy single file in the
//! platform config root, the flat split layout directly in that root, and the
//! current layout inside the application-named directory. The surrounding
//! process reads those locations into a `DiskState`, lets the library run on
//! it, and writes back what changed; the library itself never touches a real
//! filesystem.

use crate::records::ConfigError;
use vstd::prelude::*;

verus! {

/// One file of a directory: its stem and its content.
pub struct FileEntry {
    pub name: String,
    pub content: String,
}

/// Mathematical content of a [`FileEntry`].
#[verifier::ext_equal]
pub struct FileEntryV {
    pub name: Seq<char>,
    pub content: Seq<char>,
}

impl View for FileEntry {
    type V = FileEntryV;

    open spec fn view(&self) -> FileEntryV {
        FileEntryV { name: self.name@, content: self.content@ }
    }
}

/// The files of one directory, keyed by name. Viewed as a map from name to
/// content; the entries carry no meaningful order, names never repeat.
pub struct FileMap {
    pub entries: Vec<FileEntry>,
}

/// The map an entry list denotes.
pub open spec fn entries_map(s: Seq<FileEntry>) -> Map<Seq<char>, Seq<char>>
    decreases s.len(),
{
    if s.len() == 0 {
        Map::empty()
    } else {
        entries_map(s.drop_last()).insert(s.last()@.name, s.last()@.content)
    }
}

impl View for FileMap {
    type V = Map<Seq<char>, Seq<char>>;

    open spec fn view(&self) -> Map<Seq<char>, Seq<char>> {
        entries_map(self.entries@)
    }
}

/// A name found in the map denoted by an entry list is the name of one of
/// its entries, and carries that entry's content.
pub proof fn lemma_entries_map_contains(s: Seq<FileEntry>, k: Seq<char>)
    ensures
        entries_map(s).contains_key(k) <==> exists|i: int| 0 <= i < s.len() && s[i]@.name == k,
    decreases s.len(),
{
    if s.len() > 0 {
        lemma_entries_map_contains(s.drop_last(), k);
        if s.last()@.name == k {
            assert(s[s.len() - 1]@.name == k);
        } else if entries_map(s).contains_key(k) {
            let i = choose|i: int| 0 <= i < s.drop_last().len() && s.drop_last()[i]@.name == k;
            assert(s[i]@.name == k);
        } else {
            if exists|i: int| 0 <= i < s.len() && s[i]@.name == k {
                let i = choose|i: int| 0 <= i < s.len() && s[i]@.name == k;
                assert(s.drop_last()[i]@.name == k);
            }
        }
    }
}

impl FileMap {
    /// Names never repeat.
    pub open spec fn wf(self) -> bool {
        forall|i: int, j: int|
            0 <= i < j < self.entries@.len() ==> self.entries@[i]@.name != self.entries@[j]@.name
    }

    /// An empty directory.
    pub fn new() -> (r: Self)
        ensures
            r@ == Map::<Seq<char>, Seq<char>>::empty(),
            r.wf(),
            r.entries@.len() == 0,
    {
        FileMap { entries: Vec::new() }
    }

    /// The content of the file named `name`, if present.
    pub fn get<'a>(&'a self, name: &String) -> (r: Option<&'a String>)
        requires
            self.wf(),
        ensures
            match r {
                Some(c) => self@.contains_key(name@) && self@[name@] == c@,
                None => !self@.contains_key(name@),
            },
    {
        let mut i: usize = 0;
        while i < self.entries.len()
            invariant
                self.wf(),
                i <= self.entries@.len(),
                forall|k: int| 0 <= k < i ==> self.entries@[k]@.name != name@,
            decreases self.entries@.len() - i,
        {
            if self.entries[i].name.eq(name) {
                proof {
                    lemma_entries_get(self.entries@, i as int);
                }
                return Some(&self.entries[i].content);
            }
            i += 1;
        }
        proof {
            lemma_entries_map_contains(self.entries@, name@);
        }
        None
    }

    /// Whether a file named `name` is present.
    pub fn contains(&self, name: &String) -> (r: bool)
        requires
            self.wf(),
        ensures
            r == self@.contains_key(name@),
    {
        match self.get(name) {
            Some(_) => true,
            None => false,
        }
    }

    /// Write the file named `name`: replace its content when present, add it
    /// otherwise.
    pub fn set(&mut self, name: String, content: String)
        requires
            old(self).wf(),
        ensures
            final(self).wf(),
            final(self)@ == old(self)@.insert(name@, content@),
    {
        let mut i: usize = 0;
        while i < self.entries.len()
            invariant
                self == old(self),
                old(self).wf(),
                i <= self.entries@.len(),
                forall|k: int| 0 <= k < i ==> self.entries@[k]@.name != name@,
            decreases self.entries@.len() - i,
        {
            if self.entries[i].name.eq(&name) {
                self.entries[i] = FileEntry { name, content };
                proof {
                    lemma_entries_set(old(self).entries@, self.entries@, i as int);
                }
                return ;
            }
            i += 1;
        }
        proof {
            lemma_entries_map_contains(self.entries@, name@);
        }
        self.entries.push(FileEntry { name, content });
        proof {
            assert(self.entries@.drop_last() =~= old(self).entries@);
            assert(forall|k: int|
                0 <= k < old(self).entries@.len() ==> self.entries@[k] == old(self).entries@[k]);
        }
    }

    /// Take some file out of the directory; `None` when it is empty.
    pub fn take_any(&mut self) -> (r: Option<FileEntry>)
        requires
            old(self).wf(),
        ensures
            final(self).wf(),
            match r {
                Some(e) => {
                    &&& old(self)@.contains_key(e@.name)
                    &&& old(self)@[e@.name] == e@.content
                    &&& final(self)@ == old(self)@.remove(e@.name)
                    &&& final(self).entries@.len() == old(self).entries@.len() - 1
                },
                None => {
                    &&& old(self)@ == Map::<Seq<char>, Seq<char>>::empty()
                    &&& old(self).entries@.len() == 0
                    &&& final(self)@ == old(self)@
                    &&& final(self).entries@.len() == 0
                },
            },
    {
        match self.entries.pop() {
            Some(e) => {
                proof {
                    let s = old(self).entries@;
                    assert(s.last()@.name == e@.name);
                    assert(s[s.len() - 1]@.name == e@.name);
                    assert(self.entries@ =~= s.drop_last());
                    assert(forall|p: int|
                        0 <= p < self.entries@.len() ==> self.entries@[p] == s[p]);
                    lemma_entries_map_contains(s, e@.name);
                    lemma_entries_map_contains(s.drop_last(), e@.name);
                    assert(!entries_map(s.drop_last()).contains_key(e@.name)) by {
                        if exists|i: int|
                            0 <= i < s.drop_last().len() && s.drop_last()[i]@.name == e@.name {
                            let i = choose|i: int|
                                0 <= i < s.drop_last().len() && s.drop_last()[i]@.name == e@.name;
                            assert(s[i]@.name == s[s.len() - 1]@.name);
                        }
                    }
                    assert(entries_map(s.drop_last()) =~= entries_map(s).remove(e@.name));
                }
                Some(e)
            },
            None => {
                proof {
                    assert(entries_map(self.entries@) =~= Map::<Seq<char>, Seq<char>>::empty());
                }
                None
            },
        }
    }
}

/// The entry whose name matches carries the map's content for that name.
proof fn lemma_entries_get(s: Seq<FileEntry>, i: int)
    requires
        0 <= i < s.len(),
        forall|p: int, q: int| 0 <= p < q < s.len() ==> s[p]@.name != s[q]@.name,
    ensures
        entries_map(s).contains_key(s[i]@.name),
        entries_map(s)[s[i]@.name] == s[i]@.content,
    decreases s.len(),
{
    if i == s.len() - 1 {
    } else {
        lemma_entries_get(s.drop_last(), i);
        assert(s.drop_last()[i] == s[i]);
        assert(s.last()@.name != s[i]@.name);
    }
}

/// Replacing one entry's content replaces that name's content in the map.
proof fn lemma_entries_set(s: Seq<FileEntry>, t: Seq<FileEntry>, i: int)
    requires
        0 <= i < s.len(),
        s.len() == t.len(),
        forall|p: int, q: int| 0 <= p < q < s.len() ==> s[p]@.name != s[q]@.name,
        forall|k: int| 0 <= k < s.len() && k != i ==> t[k] == s[k],
        t[i]@.name == s[i]@.name,
    ensures
        forall|p: int, q: int| 0 <= p < q < t.len() ==> t[p]@.name != t[q]@.name,
        entries_map(t) == entries_map(s).insert(t[i]@.name, t[i]@.content),
    decreases s.len(),
{
    assert(forall|p: int, q: int| 0 <= p < q < t.len() ==> t[p]@.name != t[q]@.name);
    if i == s.len() - 1 {
        assert(t.drop_last() =~= s.drop_last());
        assert(entries_map(t) =~= entries_map(s).insert(t[i]@.name, t[i]@.content));
    } else {
        lemma_entries_set(s.drop_last(), t.drop_last(), i);
        assert(t.drop_last()[i] == t[i]);
        assert(t.last() == s.last());
        assert(s.last()@.name != s[i]@.name);
        assert(entries_map(t) =~= entries_map(s).insert(t[i]@.name, t[i]@.content));
    }
}

// ---------------------------------------------------------------------------
// The whole on-disk state
// ---------------------------------------------------------------------------

/// Everything the engine may read or write on disk: the legacy single file,
/// the flat split layout in the platform config root, and the current layout
/// inside the application-named directory. `None` stands for an absent file.
pub struct DiskState {
    /// The oldest layout: one merged record directly in the config root.
    pub legacy: Option<String>,
    /// The intermediate layout's global record, directly in the config root.
    pub flat_global: Option<String>,
    /// The intermediate layout's instances directory, directly in the root.
    pub flat_instances: FileMap,
    /// The current layout's global record.
    pub global: Option<String>,
    /// The current layout's instances directory.
    pub instances: FileMap,
}

/// Mathematical content of a [`DiskState`].
#[verifier::ext_equal]
pub struct DiskStateV {
    pub legacy: Option<Seq<char>>,
    pub flat_global: Option<Seq<char>>,
    pub flat_instances: Map<Seq<char>, Seq<char>>,
    pub global: Option<Seq<char>>,
    pub instances: Map<Seq<char>, Seq<char>>,
}

/// An absent file stays `None`; a present file's content is its characters.
pub open spec fn opt_view(o: Option<String>) -> Option<Seq<char>> {
    match o {
        Some(s) => Some(s@),
        None => None,
    }
}

impl View for DiskState {
    type V = DiskStateV;

    open spec fn view(&self) -> DiskStateV {
        DiskStateV {
            legacy: opt_view(self.legacy),
            flat_global: opt_view(self.flat_global),
            flat_instances: self.flat_instances@,
            global: opt_view(self.global),
            instances: self.instances@,
        }
    }
}

impl DiskState {
    /// Both directories carry well-formed entry lists.
    pub open spec fn wf(self) -> bool {
        self.flat_instances.wf() && self.instances.wf()
    }

    /// A state with nothing on disk, as on a fresh machine.
    pub fn empty() -> (r: Self)
        ensures
            r.wf(),
            r@ == (DiskStateV {
                legacy: None,
                flat_global: None,
                flat_instances: Map::empty(),
                global: None,
                instances: Map::empty(),
            }),
    {
        let r = DiskState {
            legacy: None,
            flat_global: None,
            flat_instances: FileMap::new(),
            global: None,
            instances: FileMap::new(),
        };
        proof {
            assert(r@ =~= (DiskStateV {
                legacy: None,
                flat_global: None,
                flat_instances: Map::empty(),
                global: None,
                instances: Map::empty(),
            }));
        }
        r
    }
}

} // verus!
