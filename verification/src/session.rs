//! The session controller's decisions.
//!
//! One instance of each store, plus the currently selected note. The
//! surrounding shell translates UI events into these calls and mirrors the
//! directory to disk; every decision — what to write, what to prune, when
//! an index is stale — is made and verified here.

use vstd::prelude::*;
use crate::dir::Dir;
use crate::notes::Notes;
use crate::notes::note_file_name;
use crate::notes::read_result;
use crate::notes::stem_of;
use crate::notes::titles_without;
use crate::todos::Todos;
use crate::todos::todos_file_name;
use crate::todos::load_result;
use crate::codec::encode_chars;
use crate::StoreError;

verus! {

/// The application's state: both stores and the note open for editing.
pub struct Session {
    pub notes: Notes,
    pub todos: Todos,
    pub selected_note: Option<String>,
}

impl Session {
    /// Builds the session at startup: the title list is scanned from the
    /// directory, the todos come from the snapshot file — empty when the
    /// file is missing, and also when it is malformed (the decode error is
    /// downgraded to an empty list; the file is left untouched).
    pub fn startup(d: &Dir) -> (s: Session)
        requires
            d.wf(),
        ensures
            s.notes.items@.len() == d.names().len(),
            forall|i: int| 0 <= i < d.names().len()
                ==> s.notes.items@[i]@ == stem_of(#[trigger] d.names()[i]),
            load_result(d@) is Some ==> s.todos@ == load_result(d@)->0,
            load_result(d@) is None ==> s.todos@ =~= Seq::<(Seq<char>, Option<i64>)>::empty(),
            s.selected_note is None,
    {
        let titles = Notes::list_notes(d);
        let mut notes = Notes::new();
        let mut i: usize = 0;
        while i < titles.len()
            invariant
                i <= titles@.len(),
                titles@.len() == d.names().len(),
                forall|j: int| 0 <= j < titles@.len()
                    ==> titles@[j]@ == stem_of(#[trigger] d.names()[j]),
                notes.items@.len() == i,
                forall|j: int| 0 <= j < i
                    ==> notes.items@[j]@ == stem_of(#[trigger] d.names()[j]),
            decreases titles@.len() - i,
        {
            notes.add(titles[i].clone());
            i = i + 1;
        }
        let todos = match Todos::load_from_file(d) {
            Ok(t) => t,
            Err(_) => Todos::new(),
        };
        Session { notes, todos, selected_note: None }
    }

    /// Creates a note: the title joins the in-memory list unconditionally,
    /// and the backing file is written (replacing any file of that name).
    pub fn create_note(&mut self, d: &mut Dir, title: &String, content: String)
        requires
            old(d).wf(),
        ensures
            final(d).wf(),
            final(d)@ == old(d)@.insert(note_file_name(title@), content@),
            final(self).notes.items@ == old(self).notes.items@.push(*title),
            final(self).todos == old(self).todos,
            final(self).selected_note == old(self).selected_note,
    {
        self.notes.add(title.clone());
        Notes::create_note_file(d, title, content);
    }

    /// Deletes a note: every occurrence of the title leaves the list, and
    /// the backing file is removed; `NotFound` if there was no file.
    pub fn delete_note(&mut self, d: &mut Dir, title: &String) -> (r: Result<(), StoreError>)
        requires
            old(d).wf(),
        ensures
            final(d).wf(),
            final(d)@ == old(d)@.remove(note_file_name(title@)),
            final(self).notes.items@ == titles_without(old(self).notes.items@, title@),
            final(self).todos == old(self).todos,
            r is Ok <==> old(d)@.contains_key(note_file_name(title@)),
    {
        self.notes.remove_title(title);
        Notes::delete_note_file(d, title)
    }

    /// Adds a todo and immediately rewrites the snapshot file.
    pub fn create_todo(&mut self, d: &mut Dir, description: String, due_date: Option<i64>) -> (r:
        Result<(), StoreError>)
        requires
            old(d).wf(),
        ensures
            final(d).wf(),
            final(self).todos@ == old(self).todos@.push((description@, due_date)),
            final(d)@ == old(d)@.insert(todos_file_name(), encode_chars(final(self).todos@)),
            final(self).notes == old(self).notes,
            r is Ok,
    {
        self.todos.add(description, due_date);
        self.todos.save_to_file(d)
    }

    /// Removes the todo at `index` and rewrites the snapshot file; a stale
    /// out-of-range index leaves both the list and the directory alone.
    pub fn delete_todo(&mut self, d: &mut Dir, index: usize) -> (r: Result<(), StoreError>)
        requires
            old(d).wf(),
        ensures
            final(d).wf(),
            index < old(self).todos@.len() ==> {
                &&& final(self).todos@ == old(self).todos@.remove(index as int)
                &&& final(d)@ == old(d)@.insert(todos_file_name(), encode_chars(
                    final(self).todos@,
                ))
            },
            index >= old(self).todos@.len() ==> {
                &&& final(self).todos@ == old(self).todos@
                &&& final(d)@ == old(d)@
            },
            final(self).notes == old(self).notes,
            r is Ok,
    {
        proof {
            assert(self.todos@.len() == self.todos.items@.len());
        }
        if index < self.todos.items.len() {
            self.todos.remove(index);
            self.todos.save_to_file(d)
        } else {
            Ok(())
        }
    }

    /// Flushes the open note: reads its file and writes the same content
    /// back. The directory is unchanged by construction; the shell calls
    /// this on a timer.
    pub fn save_active_note_to_disk(&self, d: &mut Dir)
        requires
            old(d).wf(),
        ensures
            final(d).wf(),
            final(d)@ == old(d)@,
    {
        if let Some(title) = &self.selected_note {
            let got = Notes::read_note_file(d, title);
            if let Ok(content) = got {
                proof {
                    assert(read_result(d@, title@) == Some(content@));
                }
                Notes::update_note_file(d, title, content);
                proof {
                    assert(d@ =~= old(d)@);
                }
            }
        }
    }
}

} // verus!
