//! The note store.
//!
//! A note is identified by its title alone; its content lives in the
//! directory as one file named `<title>.txt`. The store keeps an in-memory
//! list of titles that is a cache over the directory, grown on create and
//! pruned on delete; the directory itself is the authoritative state.

use vstd::prelude::*;
use vstd::string::StrSliceExecFns;
use vstd::string::StringExecFns;
use crate::dir::Dir;
use crate::dir::lemma_names_are_the_files;
use crate::StoreError;

verus! {

/// The file name that backs a title: the title with `.txt` appended.
pub open spec fn note_file_name(title: Seq<char>) -> Seq<char> {
    title + seq!['.', 't', 'x', 't']
}

/// Index of the last `.` in a file name, or `-1` if there is none.
pub open spec fn last_dot_index(n: Seq<char>) -> int
    decreases n.len(),
{
    if n.len() == 0 {
        -1
    } else if n.last() == '.' {
        n.len() - 1
    } else {
        last_dot_index(n.drop_last())
    }
}

/// The title a file name stands for: everything before the last `.`,
/// except that a name whose only `.` is its leading character (a hidden
/// file such as `.todos`) is its own stem.
pub open spec fn stem_of(n: Seq<char>) -> Seq<char> {
    let p = last_dot_index(n);
    if p <= 0 {
        n
    } else {
        n.take(p)
    }
}

/// Appending `.txt` and taking the stem gives the title back, for any
/// non-empty title.
pub proof fn lemma_stem_note_file_name(title: Seq<char>)
    requires
        title.len() > 0,
    ensures
        stem_of(note_file_name(title)) == title,
{
    let n = note_file_name(title);
    let n1 = title + seq!['.', 't', 'x'];
    let n2 = title + seq!['.', 't'];
    let n3 = title + seq!['.'];
    assert(n.last() == 't' && n.drop_last() =~= n1);
    assert(n1.last() == 'x' && n1.drop_last() =~= n2);
    assert(n2.last() == 't' && n2.drop_last() =~= n3);
    assert(n3.last() == '.');
    assert(last_dot_index(n) == last_dot_index(n1));
    assert(last_dot_index(n1) == last_dot_index(n2));
    assert(last_dot_index(n2) == last_dot_index(n3));
    assert(last_dot_index(n3) == n3.len() - 1);
    assert(last_dot_index(n) == title.len());
    assert(n.take(title.len() as int) =~= title);
}

proof fn lemma_last_dot_found(n: Seq<char>, p: int)
    requires
        0 <= p < n.len(),
        n[p] == '.',
        forall|m: int| p < m < n.len() ==> n[m] != '.',
    ensures
        last_dot_index(n) == p,
    decreases n.len(),
{
    if n.last() != '.' {
        assert(p < n.len() - 1);
        lemma_last_dot_found(n.drop_last(), p);
    }
}

proof fn lemma_no_dot(n: Seq<char>)
    requires
        forall|m: int| 0 <= m < n.len() ==> n[m] != '.',
    ensures
        last_dot_index(n) == -1,
    decreases n.len(),
{
    if n.len() > 0 {
        lemma_no_dot(n.drop_last());
    }
}

/// Builds the backing file name for a title.
pub fn note_file_name_string(title: &String) -> (r: String)
    ensures
        r@ == note_file_name(title@),
{
    let r = title.clone().concat(".txt");
    proof {
        reveal_strlit(".txt");
        assert(".txt"@ =~= seq!['.', 't', 'x', 't']);
    }
    r
}

/// Computes the stem of a file name, as [`stem_of`] describes it.
pub fn stem_string(name: &String) -> (r: String)
    ensures
        r@ == stem_of(name@),
{
    let n = name.as_str();
    let len: usize = n.unicode_len();
    let mut k: usize = len;
    while k > 0
        invariant
            k <= len,
            len == name@.len(),
            n@ == name@,
            forall|m: int| k <= m < len ==> name@[m] != '.',
        decreases k,
    {
        if n.get_char(k - 1) == '.' {
            proof {
                lemma_last_dot_found(name@, k - 1);
            }
            if k - 1 == 0 {
                return name.clone();
            }
            let r = n.substring_char(0, k - 1).to_owned();
            return r;
        }
        k = k - 1;
    }
    proof {
        lemma_no_dot(name@);
    }
    name.clone()
}

/// The title list with every occurrence of one title dropped, order kept.
pub open spec fn titles_without(s: Seq<String>, title: Seq<char>) -> Seq<String>
    decreases s.len(),
{
    if s.len() == 0 {
        Seq::empty()
    } else {
        let rest = titles_without(s.drop_last(), title);
        if s.last()@ == title {
            rest
        } else {
            rest.push(s.last())
        }
    }
}

/// Dropping a title leaves no occurrence of it, and keeps every other entry.
pub proof fn lemma_titles_without(s: Seq<String>, title: Seq<char>)
    ensures
        forall|j: int| 0 <= j < titles_without(s, title).len()
            ==> #[trigger] titles_without(s, title)[j]@ != title,
        forall|j: int| 0 <= j < s.len() && s[j]@ != title
            ==> titles_without(s, title).contains(#[trigger] s[j]),
    decreases s.len(),
{
    if s.len() > 0 {
        lemma_titles_without(s.drop_last(), title);
        let rest = titles_without(s.drop_last(), title);
        assert forall|j: int| 0 <= j < s.len() && s[j]@ != title
            implies titles_without(s, title).contains(#[trigger] s[j]) by {
            if j < s.len() - 1 {
                assert(s.drop_last()[j] == s[j]);
                assert(rest.contains(s[j]));
                let w = choose|w: int| 0 <= w < rest.len() && rest[w] == s[j];
                assert(titles_without(s, title)[w] == s[j]);
            } else {
                assert(titles_without(s, title).last() == s[j]);
            }
        }
    }
}

/// In-memory list of the note titles the application knows of.
pub struct Notes {
    /// The titles, in insertion order; duplicates are not prevented.
    pub items: Vec<String>,
}

/// What a read of a title returns, as a function of the directory alone:
/// the backing file's content, or nothing if the file is absent.
pub open spec fn read_result(m: Map<Seq<char>, Seq<char>>, title: Seq<char>) -> Option<Seq<char>> {
    if m.contains_key(note_file_name(title)) {
        Some(m[note_file_name(title)])
    } else {
        None
    }
}

impl Notes {
    /// An empty title list.
    pub fn new() -> (r: Notes)
        ensures
            r.items@ =~= Seq::<String>::empty(),
    {
        Notes { items: Vec::new() }
    }

    /// Appends a title to the list, unconditionally.
    pub fn add(&mut self, note: String)
        ensures
            final(self).items@ == old(self).items@.push(note),
    {
        self.items.push(note);
    }

    /// Drops every occurrence of a title from the list.
    pub fn remove_title(&mut self, title: &String)
        ensures
            final(self).items@ == titles_without(old(self).items@, title@),
    {
        let mut kept: Vec<String> = Vec::new();
        let mut i: usize = 0;
        while i < self.items.len()
            invariant
                i <= self.items@.len(),
                self.items@ == old(self).items@,
                kept@ == titles_without(old(self).items@.take(i as int), title@),
            decreases self.items@.len() - i,
        {
            let ghost pre = old(self).items@.take(i as int);
            proof {
                assert(old(self).items@.take(i + 1).drop_last() =~= pre);
                assert(old(self).items@.take(i + 1).last() == old(self).items@[i as int]);
            }
            if !self.items[i].eq(title) {
                kept.push(self.items[i].clone());
            }
            i = i + 1;
        }
        proof {
            assert(old(self).items@.take(self.items@.len() as int) =~= old(self).items@);
        }
        self.items = kept;
    }

    /// Writes the note file for a title, silently replacing any existing
    /// file of the same name (last write wins).
    pub fn create_note_file(d: &mut Dir, title: &String, content: String)
        requires
            old(d).wf(),
        ensures
            final(d).wf(),
            final(d)@ == old(d)@.insert(note_file_name(title@), content@),
    {
        let name = note_file_name_string(title);
        d.write_file(name, content);
    }

    /// Reads the note file for a title; `NotFound` if no such file exists.
    pub fn read_note_file(d: &Dir, title: &String) -> (r: Result<String, StoreError>)
        requires
            d.wf(),
        ensures
            match r {
                Ok(c) => read_result(d@, title@) == Some(c@),
                Err(e) => read_result(d@, title@) is None && e == StoreError::NotFound,
            },
    {
        let name = note_file_name_string(title);
        match d.read_file(&name) {
            Some(c) => Ok(c),
            None => Err(StoreError::NotFound),
        }
    }

    /// Replaces the note file's whole content, creating the file if it is
    /// absent (create-or-replace, as the underlying primitive behaves).
    pub fn update_note_file(d: &mut Dir, title: &String, new_content: String)
        requires
            old(d).wf(),
        ensures
            final(d).wf(),
            final(d)@ == old(d)@.insert(note_file_name(title@), new_content@),
    {
        let name = note_file_name_string(title);
        d.write_file(name, new_content);
    }

    /// Removes the note file; `NotFound` if there was none.
    pub fn delete_note_file(d: &mut Dir, title: &String) -> (r: Result<(), StoreError>)
        requires
            old(d).wf(),
        ensures
            final(d).wf(),
            final(d)@ == old(d)@.remove(note_file_name(title@)),
            r is Ok <==> old(d)@.contains_key(note_file_name(title@)),
            r is Err ==> r == Err::<(), StoreError>(StoreError::NotFound),
    {
        let name = note_file_name_string(title);
        if d.remove_file(&name) {
            Ok(())
        } else {
            Err(StoreError::NotFound)
        }
    }

    /// One title per file of the directory, in directory order, each
    /// derived by stripping the file name's extension.
    pub fn list_notes(d: &Dir) -> (r: Vec<String>)
        ensures
            r@.len() == d.names().len(),
            forall|i: int| 0 <= i < r@.len() ==> r@[i]@ == stem_of(d.names()[i]),
    {
        let names = d.file_names();
        let mut r: Vec<String> = Vec::new();
        let mut i: usize = 0;
        while i < names.len()
            invariant
                i <= names@.len(),
                names@.len() == d.names().len(),
                forall|j: int| 0 <= j < names@.len() ==> names@[j]@ == d.names()[j],
                r@.len() == i,
                forall|j: int| 0 <= j < i ==> r@[j]@ == stem_of(d.names()[j]),
            decreases names@.len() - i,
        {
            r.push(stem_string(&names[i]));
            i = i + 1;
        }
        r
    }
}

/// Reading a title twice with no intervening write returns the same
/// content both times: the result is a function of the directory alone.
pub proof fn lemma_read_idempotent(
    m: Map<Seq<char>, Seq<char>>,
    title: Seq<char>,
    c1: Seq<char>,
    c2: Seq<char>,
)
    requires
        read_result(m, title) == Some(c1),
        read_result(m, title) == Some(c2),
    ensures
        c1 == c2,
{
}

/// After a create, the directory holds the title's backing file, and the
/// title list derived from the directory contains the title: some listed
/// file has exactly this title as its stem.
pub proof fn lemma_create_then_list(d: Dir, title: Seq<char>)
    requires
        d.wf(),
        title.len() > 0,
        d@.contains_key(note_file_name(title)),
    ensures
        exists|i: int| 0 <= i < d.names().len() && stem_of(#[trigger] d.names()[i]) == title,
{
    lemma_names_are_the_files(d);
    lemma_stem_note_file_name(title);
    let i = choose|i: int| 0 <= i < d.names().len() && d.names()[i] == note_file_name(title);
    assert(stem_of(d.names()[i]) == title);
}

/// After a delete, a read of the title fails with `NotFound`, and no file
/// of the directory has the title as its stem any more — provided the
/// note's own file was the only one with that stem, as it is whenever the
/// directory's other files were made by this store.
pub proof fn lemma_delete_removes_both(d: Dir, title: Seq<char>)
    requires
        d.wf(),
        !d@.contains_key(note_file_name(title)),
        forall|k: Seq<char>| d@.contains_key(k) && stem_of(k) == title ==> k == note_file_name(title),
    ensures
        read_result(d@, title) is None,
        forall|i: int| 0 <= i < d.names().len() ==> stem_of(#[trigger] d.names()[i]) != title,
{
    lemma_names_are_the_files(d);
}

} // verus!
