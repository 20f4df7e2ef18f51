//! A model of the application's single data directory.
//!
//! The stores never touch the filesystem themselves: they operate on a
//! [`Dir`], a finite map from file names to file contents kept as a vector
//! of entries with pairwise distinct names. The unverified shell loads the
//! real directory into a `Dir` at startup and mirrors every mutation back
//! to disk, so every contract proved here is a statement about the
//! directory as the application sees it.

use vstd::prelude::*;

verus! {

struct DirEntry {
    name: String,
    content: String,
}

/// An in-memory image of one directory: file names mapped to contents.
pub struct Dir {
    entries: Vec<DirEntry>,
}

/// The map described by a sequence of entries; a later entry with the same
/// name would win, but well-formed directories have no duplicate names.
spec fn entries_map(s: Seq<DirEntry>) -> Map<Seq<char>, Seq<char>>
    decreases s.len(),
{
    if s.len() == 0 {
        Map::empty()
    } else {
        entries_map(s.drop_last()).insert(s.last().name@, s.last().content@)
    }
}

spec fn unique_names(s: Seq<DirEntry>) -> bool {
    forall|i: int, j: int| 0 <= i < j < s.len() ==> s[i].name@ != s[j].name@
}

proof fn lemma_entries_map_contains(s: Seq<DirEntry>, k: Seq<char>)
    ensures
        entries_map(s).contains_key(k) <==> exists|i: int| 0 <= i < s.len() && s[i].name@ == k,
    decreases s.len(),
{
    if s.len() > 0 {
        lemma_entries_map_contains(s.drop_last(), k);
        if s.last().name@ == k {
            assert(s[s.len() - 1].name@ == k);
        } else if entries_map(s).contains_key(k) {
            let i = choose|i: int| 0 <= i < s.drop_last().len() && s.drop_last()[i].name@ == k;
            assert(s[i].name@ == k);
        } else {
            assert(forall|i: int|
                0 <= i < s.len() - 1 ==> s.drop_last()[i] == s[i]);
        }
    }
}

proof fn lemma_entries_map_get(s: Seq<DirEntry>, i: int)
    requires
        unique_names(s),
        0 <= i < s.len(),
    ensures
        entries_map(s).contains_key(s[i].name@),
        entries_map(s)[s[i].name@] == s[i].content@,
    decreases s.len(),
{
    lemma_entries_map_contains(s, s[i].name@);
    if i < s.len() - 1 {
        assert(s.last().name@ != s[i].name@);
        assert(s.drop_last()[i] == s[i]);
        lemma_entries_map_get(s.drop_last(), i);
    }
}

proof fn lemma_entries_map_remove(s: Seq<DirEntry>, i: int)
    requires
        unique_names(s),
        0 <= i < s.len(),
    ensures
        entries_map(s.remove(i)) =~= entries_map(s).remove(s[i].name@),
    decreases s.len(),
{
    let k = s[i].name@;
    if i == s.len() - 1 {
        assert(s.remove(i) =~= s.drop_last());
        lemma_entries_map_contains(s.drop_last(), k);
        assert(!entries_map(s.drop_last()).contains_key(k));
        assert(entries_map(s).remove(k) =~= entries_map(s.drop_last()));
    } else {
        let t = s.drop_last();
        assert(s.remove(i) =~= t.remove(i).push(s.last()));
        assert(s.remove(i).drop_last() =~= t.remove(i));
        assert(s.remove(i).last() == s.last());
        lemma_entries_map_remove(t, i);
        assert(t[i] == s[i]);
        assert(s.last().name@ != k);
    }
}

impl View for Dir {
    type V = Map<Seq<char>, Seq<char>>;

    closed spec fn view(&self) -> Map<Seq<char>, Seq<char>> {
        entries_map(self.entries@)
    }
}

impl Dir {
    /// Well-formed: no two entries carry the same file name.
    pub closed spec fn wf(&self) -> bool {
        unique_names(self.entries@)
    }

    /// The file names, in entry order.
    pub closed spec fn names(&self) -> Seq<Seq<char>> {
        self.entries@.map_values(|e: DirEntry| e.name@)
    }

    /// An empty directory.
    pub fn new() -> (d: Dir)
        ensures
            d.wf(),
            d@ == Map::<Seq<char>, Seq<char>>::empty(),
            d.names() == Seq::<Seq<char>>::empty(),
    {
        let d = Dir { entries: Vec::new() };
        proof {
            assert(d.names() =~= Seq::<Seq<char>>::empty());
        }
        d
    }

    fn find(&self, name: &String) -> (r: Option<usize>)
        requires
            self.wf(),
        ensures
            match r {
                Some(i) => i < self.entries@.len() && self.entries@[i as int].name@ == name@,
                None => forall|i: int| 0 <= i < self.entries@.len()
                    ==> self.entries@[i].name@ != name@,
            },
    {
        let mut i: usize = 0;
        while i < self.entries.len()
            invariant
                i <= self.entries@.len(),
                forall|j: int| 0 <= j < i ==> self.entries@[j].name@ != name@,
            decreases self.entries@.len() - i,
        {
            if self.entries[i].name.eq(name) {
                return Some(i);
            }
            i = i + 1;
        }
        None
    }

    /// Whether a file of this name is present.
    pub fn has_file(&self, name: &String) -> (r: bool)
        requires
            self.wf(),
        ensures
            r == self@.contains_key(name@),
    {
        let found = self.find(name);
        proof {
            lemma_entries_map_contains(self.entries@, name@);
        }
        match found {
            Some(i) => {
                proof {
                    lemma_entries_map_get(self.entries@, i as int);
                }
                true
            },
            None => false,
        }
    }

    /// Creates or wholly replaces the named file.
    pub fn write_file(&mut self, name: String, content: String)
        requires
            old(self).wf(),
        ensures
            final(self).wf(),
            final(self)@ == old(self)@.insert(name@, content@),
    {
        let ghost gname = name@;
        let ghost gcontent = content@;
        let found = self.find(&name);
        if let Some(i) = found {
            proof {
                lemma_entries_map_remove(self.entries@, i as int);
                let s = self.entries@;
                s.remove_ensures(i as int);
                assert(forall|a: int, b: int|
                    0 <= a < b < s.remove(i as int).len()
                    ==> s.remove(i as int)[a].name@ != s.remove(i as int)[b].name@);
                assert(forall|j: int| 0 <= j < s.remove(i as int).len()
                    ==> s.remove(i as int)[j].name@ != gname);
            }
            self.entries.remove(i);
        }
        let ghost pre = self.entries@;
        let ghost prem = entries_map(pre);
        self.entries.push(DirEntry { name, content });
        proof {
            assert(self.entries@.drop_last() =~= pre);
            assert(self.entries@.last().name@ == gname);
            assert(self.entries@.last().content@ == gcontent);
            assert(entries_map(self.entries@) == prem.insert(gname, gcontent));
            assert(prem.insert(gname, gcontent) =~= old(self)@.insert(gname, gcontent));
            assert(forall|j: int| 0 <= j < pre.len()
                ==> #[trigger] self.entries@[j] == pre[j]);
            assert(forall|j: int| 0 <= j < pre.len()
                ==> self.entries@[j].name@ != gname);
        }
    }

    /// Returns the named file's content, or `None` if it is absent.
    pub fn read_file(&self, name: &String) -> (r: Option<String>)
        requires
            self.wf(),
        ensures
            match r {
                Some(c) => self@.contains_key(name@) && c@ == self@[name@],
                None => !self@.contains_key(name@),
            },
    {
        let found = self.find(name);
        proof {
            lemma_entries_map_contains(self.entries@, name@);
        }
        match found {
            Some(i) => {
                proof {
                    lemma_entries_map_get(self.entries@, i as int);
                }
                Some(self.entries[i].content.clone())
            },
            None => None,
        }
    }

    /// Removes the named file; reports whether it was present.
    pub fn remove_file(&mut self, name: &String) -> (r: bool)
        requires
            old(self).wf(),
        ensures
            final(self).wf(),
            final(self)@ == old(self)@.remove(name@),
            r == old(self)@.contains_key(name@),
    {
        let found = self.find(name);
        proof {
            lemma_entries_map_contains(self.entries@, name@);
        }
        match found {
            Some(i) => {
                proof {
                    lemma_entries_map_get(self.entries@, i as int);
                    lemma_entries_map_remove(self.entries@, i as int);
                    let s = self.entries@;
                    s.remove_ensures(i as int);
                    assert(forall|a: int, b: int|
                        0 <= a < b < s.remove(i as int).len()
                        ==> s.remove(i as int)[a].name@ != s.remove(i as int)[b].name@);
                }
                self.entries.remove(i);
                true
            },
            None => {
                proof {
                    assert(self@ =~= old(self)@.remove(name@));
                }
                false
            },
        }
    }

    /// All file names, in entry order.
    pub fn file_names(&self) -> (r: Vec<String>)
        ensures
            r@.len() == self.names().len(),
            forall|i: int| 0 <= i < r@.len() ==> r@[i]@ == self.names()[i],
    {
        let mut r: Vec<String> = Vec::new();
        let mut i: usize = 0;
        while i < self.entries.len()
            invariant
                i <= self.entries@.len(),
                r@.len() == i,
                forall|j: int| 0 <= j < i ==> r@[j]@ == self.names()[j],
            decreases self.entries@.len() - i,
        {
            r.push(self.entries[i].name.clone());
            i = i + 1;
        }
        r
    }
}

/// Every listed name is a file of the directory, every file is listed, and
/// no name is listed twice.
pub proof fn lemma_names_are_the_files(d: Dir)
    requires
        d.wf(),
    ensures
        forall|i: int| 0 <= i < d.names().len() ==> d@.contains_key(#[trigger] d.names()[i]),
        forall|k: Seq<char>| d@.contains_key(k)
            ==> exists|i: int| 0 <= i < d.names().len() && d.names()[i] == k,
        forall|i: int, j: int| 0 <= i < j < d.names().len() ==> d.names()[i] != d.names()[j],
{
    assert forall|i: int| 0 <= i < d.names().len()
        implies d@.contains_key(#[trigger] d.names()[i]) by {
        lemma_entries_map_get(d.entries@, i);
    }
    assert forall|k: Seq<char>| d@.contains_key(k)
        implies exists|i: int| 0 <= i < d.names().len() && d.names()[i] == k by {
        lemma_entries_map_contains(d.entries@, k);
        let i = choose|i: int| 0 <= i < d.entries@.len() && d.entries@[i].name@ == k;
        assert(d.names()[i] == k);
    }
}

} // verus!
