//! The todo store.
//!
//! An ordered list of records, each a description with an optional due
//! timestamp. Unlike the note titles, this list is the authoritative state
//! while the application runs; one snapshot file in the directory is its
//! durable copy, rewritten wholesale on every save.

use vstd::prelude::*;
use vstd::string::StringExecFns;
use crate::dir::Dir;
use crate::StoreError;
use crate::codec;

verus! {

/// A single todo record.
pub struct Todo {
    /// What is to be done.
    pub description: String,
    /// Optional due timestamp (seconds since the epoch).
    pub due_date: Option<i64>,
}

impl View for Todo {
    type V = (Seq<char>, Option<i64>);

    open spec fn view(&self) -> (Seq<char>, Option<i64>) {
        (self.description@, self.due_date)
    }
}

/// The records of a sequence of todos, as description/due-date pairs.
pub open spec fn todo_views(s: Seq<Todo>) -> Seq<(Seq<char>, Option<i64>)> {
    s.map_values(|t: Todo| t@)
}

/// The ordered todo list.
pub struct Todos {
    /// The records, insertion order = display order.
    pub items: Vec<Todo>,
}

impl View for Todos {
    type V = Seq<(Seq<char>, Option<i64>)>;

    open spec fn view(&self) -> Seq<(Seq<char>, Option<i64>)> {
        todo_views(self.items@)
    }
}

/// The fixed name of the snapshot file.
pub open spec fn todos_file_name() -> Seq<char> {
    seq!['.', 't', 'o', 'd', 'o', 's']
}

/// What a load returns, as a function of the directory alone: the empty
/// list if the snapshot file is absent, the decoded records if its content
/// decodes, and nothing (a decode error) otherwise.
pub open spec fn load_result(m: Map<Seq<char>, Seq<char>>) -> Option<
    Seq<(Seq<char>, Option<i64>)>,
> {
    if !m.contains_key(todos_file_name()) {
        Some(Seq::empty())
    } else {
        codec::parse_top(m[todos_file_name()])
    }
}

/// Builds the snapshot file's name.
pub fn todos_file_name_string() -> (r: String)
    ensures
        r@ == todos_file_name(),
{
    let r = String::from_str(".todos");
    proof {
        reveal_strlit(".todos");
        assert(".todos"@ =~= todos_file_name());
    }
    r
}

impl Todos {
    /// An empty todo list.
    pub fn new() -> (r: Todos)
        ensures
            r@ =~= Seq::<(Seq<char>, Option<i64>)>::empty(),
            r.items@.len() == 0,
    {
        Todos { items: Vec::new() }
    }

    /// Appends a record; purely in-memory, the caller saves afterwards.
    pub fn add(&mut self, description: String, due_date: Option<i64>)
        ensures
            final(self)@ == old(self)@.push((description@, due_date)),
            final(self).items@.len() == old(self).items@.len() + 1,
    {
        let ghost gd = description@;
        self.items.push(Todo { description, due_date });
        proof {
            assert(self@ =~= old(self)@.push((gd, due_date)));
        }
    }

    /// Removes the record at `index` if it is in range; out-of-range
    /// requests leave the list unchanged and return without error.
    pub fn remove(&mut self, index: usize)
        ensures
            index < old(self)@.len() ==> final(self)@ == old(self)@.remove(index as int),
            index >= old(self)@.len() ==> final(self)@ == old(self)@,
    {
        if index < self.items.len() {
            self.items.remove(index);
            proof {
                old(self).items@.remove_ensures(index as int);
                assert(self@ =~= old(self)@.remove(index as int));
            }
        }
    }

    /// Serializes the whole list into the snapshot file, overwriting it.
    pub fn save_to_file(&self, d: &mut Dir) -> (r: Result<(), StoreError>)
        requires
            old(d).wf(),
        ensures
            final(d).wf(),
            final(d)@ == old(d)@.insert(todos_file_name(), codec::encode_chars(self@)),
            r is Ok,
    {
        let name = todos_file_name_string();
        let data = codec::encode_todos(self);
        d.write_file(name, data);
        Ok(())
    }

    /// Loads the list from the snapshot file. A missing file is not an
    /// error: it yields the empty list. Content that does not decode is a
    /// `SerializationError`; the file is left untouched.
    pub fn load_from_file(d: &Dir) -> (r: Result<Todos, StoreError>)
        requires
            d.wf(),
        ensures
            match r {
                Ok(t) => load_result(d@) == Some(t@),
                Err(e) => load_result(d@) is None && e == StoreError::SerializationError,
            },
    {
        let name = todos_file_name_string();
        match d.read_file(&name) {
            None => Ok(Todos::new()),
            Some(data) => codec::decode_todos(data.as_str()),
        }
    }
}

/// A save followed by a load yields the sequence that was saved: writing
/// the encoded snapshot into any directory makes the load come back equal
/// in content and order.
pub proof fn lemma_save_then_load(
    m: Map<Seq<char>, Seq<char>>,
    v: Seq<(Seq<char>, Option<i64>)>,
)
    ensures
        load_result(m.insert(todos_file_name(), codec::encode_chars(v))) == Some(v),
{
    codec::lemma_encode_decode(v);
}

/// Loading from a directory that has no snapshot file yields the empty
/// list, not an error.
pub proof fn lemma_missing_snapshot_loads_empty(m: Map<Seq<char>, Seq<char>>)
    requires
        !m.contains_key(todos_file_name()),
    ensures
        load_result(m) == Some(Seq::<(Seq<char>, Option<i64>)>::empty()),
{
}

} // verus!
