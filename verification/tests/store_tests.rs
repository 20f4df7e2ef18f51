use notestore::StoreError;
use notestore::codec::decode_todos;
use notestore::codec::encode_todos;
use notestore::dir::Dir;
use notestore::notes::Notes;
use notestore::session::Session;
use notestore::todos::Todos;

#[test]
fn test_add_todo() {
    let mut todos = Todos::new();
    todos.add("Test todo".to_string(), None);
    assert_eq!(todos.items.len(), 1);
    assert_eq!(todos.items[0].description, "Test todo");
}

#[test]
fn test_save_and_load_todos() {
    let mut dir = Dir::new();

    let mut todos = Todos::new();
    todos.add("Test todo".to_string(), Some(1627849200));
    todos.save_to_file(&mut dir).unwrap();

    let loaded_todos = Todos::load_from_file(&dir).unwrap();
    assert_eq!(loaded_todos.items.len(), 1);
    assert_eq!(loaded_todos.items[0].description, "Test todo");
    assert_eq!(loaded_todos.items[0].due_date, Some(1627849200));
}

#[test]
fn test_create_note_file() {
    let mut dir = Dir::new();

    let title = "test_note".to_string();
    let content = "This is a test note.";
    Notes::create_note_file(&mut dir, &title, content.to_string());

    assert!(dir.has_file(&"test_note.txt".to_string()));
    let file_content = Notes::read_note_file(&dir, &title).unwrap();
    assert_eq!(file_content, content);
}

#[test]
fn test_read_note_file() {
    let mut dir = Dir::new();

    let title = "test_note".to_string();
    let content = "This is a test note.";
    Notes::create_note_file(&mut dir, &title, content.to_string());

    let read_content = Notes::read_note_file(&dir, &title).unwrap();
    assert_eq!(read_content, content);
}

#[test]
fn test_update_note_file() {
    let mut dir = Dir::new();

    let title = "test_note".to_string();
    let content = "This is a test note.";
    let new_content = "This is updated content.";
    Notes::create_note_file(&mut dir, &title, content.to_string());
    Notes::update_note_file(&mut dir, &title, new_content.to_string());

    let read_content = Notes::read_note_file(&dir, &title).unwrap();
    assert_eq!(read_content, new_content);
}

#[test]
fn test_delete_note_file() {
    let mut dir = Dir::new();

    let title = "test_note".to_string();
    let content = "This is a test note.";
    Notes::create_note_file(&mut dir, &title, content.to_string());

    assert!(dir.has_file(&"test_note.txt".to_string()));

    Notes::delete_note_file(&mut dir, &title).unwrap();
    assert!(!dir.has_file(&"test_note.txt".to_string()));
}

#[test]
fn test_list_notes() {
    let mut dir = Dir::new();

    let titles = vec!["note1", "note2", "note3"];
    for title in &titles {
        Notes::create_note_file(&mut dir, &title.to_string(), "content".to_string());
    }

    let listed_notes = Notes::list_notes(&dir);
    assert_eq!(listed_notes.len(), titles.len());
    for title in &titles {
        assert!(listed_notes.contains(&title.to_string()));
    }
}

#[test]
fn test_round_trip_messy_descriptions() {
    let mut todos = Todos::new();
    todos.add("plain".to_string(), None);
    todos.add("with \"quotes\" and \\backslash\\".to_string(), Some(-42));
    todos.add("line\nbreak\ttab\rreturn".to_string(), Some(0));
    todos.add("".to_string(), Some(i64::MAX));
    todos.add("unicode: caf\u{e9} \u{1f600}".to_string(), Some(i64::MIN));

    let text = encode_todos(&todos);
    let back = decode_todos(&text).unwrap();
    assert_eq!(back.items.len(), todos.items.len());
    for (a, b) in todos.items.iter().zip(back.items.iter()) {
        assert_eq!(a.description, b.description);
        assert_eq!(a.due_date, b.due_date);
    }
}

#[test]
fn test_encode_exact_forms() {
    let empty = Todos::new();
    assert_eq!(encode_todos(&empty), "{\"items\":[]}");

    let mut one = Todos::new();
    one.add("a".to_string(), None);
    assert_eq!(
        encode_todos(&one),
        "{\"items\":[{\"description\":\"a\",\"due_date\":null}]}"
    );

    let mut dated = Todos::new();
    dated.add("Test todo".to_string(), Some(1627849200));
    assert_eq!(
        encode_todos(&dated),
        "{\"items\":[{\"description\":\"Test todo\",\"due_date\":1627849200}]}"
    );

    let mut negative = Todos::new();
    negative.add("past".to_string(), Some(-5));
    assert_eq!(
        encode_todos(&negative),
        "{\"items\":[{\"description\":\"past\",\"due_date\":-5}]}"
    );

    let mut extremes = Todos::new();
    extremes.add("low".to_string(), Some(i64::MIN));
    extremes.add("high".to_string(), Some(i64::MAX));
    assert_eq!(
        encode_todos(&extremes),
        "{\"items\":[{\"description\":\"low\",\"due_date\":-9223372036854775808},{\"description\":\"high\",\"due_date\":9223372036854775807}]}"
    );

    let mut escaped = Todos::new();
    escaped.add("say \"hi\"\n".to_string(), None);
    assert_eq!(
        encode_todos(&escaped),
        "{\"items\":[{\"description\":\"say \\\"hi\\\"\\n\",\"due_date\":null}]}"
    );
}

#[test]
fn test_decode_snapshot_text() {
    let text = "{\"items\":[{\"description\":\"Test todo\",\"due_date\":1627849200},{\"description\":\"second\",\"due_date\":null}]}";
    let todos = decode_todos(text).unwrap();
    assert_eq!(todos.items.len(), 2);
    assert_eq!(todos.items[0].description, "Test todo");
    assert_eq!(todos.items[0].due_date, Some(1627849200));
    assert_eq!(todos.items[1].description, "second");
    assert_eq!(todos.items[1].due_date, None);
}

#[test]
fn test_decode_malformed_inputs() {
    for bad in [
        "",
        "not json",
        "{\"items\":[",
        "{\"items\":[]} ",
        "{\"items\":[{\"description\":\"a\",\"due_date\":}]}",
        "{\"items\":[{\"description\":\"a\",\"due_date\":12345678901234567890123}]}",
        "{\"items\":[{\"description\":\"a\",\"due_date\":null}]",
        "{\"items\":[{\"description\":\"a\\x\",\"due_date\":null}]}",
    ] {
        let r = decode_todos(bad);
        assert!(matches!(r, Err(StoreError::SerializationError)), "accepted: {}", bad);
    }
}

#[test]
fn test_missing_snapshot_loads_empty() {
    let dir = Dir::new();
    let todos = Todos::load_from_file(&dir).unwrap();
    assert_eq!(todos.items.len(), 0);
}

#[test]
fn test_remove_out_of_range_is_noop() {
    let mut todos = Todos::new();
    todos.add("one".to_string(), None);
    todos.add("two".to_string(), Some(7));
    todos.remove(2);
    todos.remove(1000);
    assert_eq!(todos.items.len(), 2);
    assert_eq!(todos.items[0].description, "one");
    assert_eq!(todos.items[1].description, "two");

    todos.remove(0);
    assert_eq!(todos.items.len(), 1);
    assert_eq!(todos.items[0].description, "two");
    assert_eq!(todos.items[0].due_date, Some(7));
}

#[test]
fn test_add_save_drop_load_scenario() {
    let mut dir = Dir::new();
    {
        let mut todos = Todos::new();
        todos.add("Buy milk".to_string(), Some(1700000000));
        todos.save_to_file(&mut dir).unwrap();
    }
    let loaded = Todos::load_from_file(&dir).unwrap();
    assert_eq!(loaded.items.len(), 1);
    assert_eq!(loaded.items[0].description, "Buy milk");
    assert_eq!(loaded.items[0].due_date, Some(1700000000));
}

#[test]
fn test_create_update_read_scenario() {
    let mut dir = Dir::new();
    let title = "Shopping".to_string();
    Notes::create_note_file(&mut dir, &title, "eggs".to_string());
    Notes::update_note_file(&mut dir, &title, "eggs, milk".to_string());
    assert_eq!(Notes::read_note_file(&dir, &title).unwrap(), "eggs, milk");
}

#[test]
fn test_idempotent_read() {
    let mut dir = Dir::new();
    let title = "stable".to_string();
    Notes::create_note_file(&mut dir, &title, "same text".to_string());
    let first = Notes::read_note_file(&dir, &title).unwrap();
    let second = Notes::read_note_file(&dir, &title).unwrap();
    assert_eq!(first, second);
}

#[test]
fn test_read_missing_is_not_found() {
    let dir = Dir::new();
    let r = Notes::read_note_file(&dir, &"ghost".to_string());
    assert_eq!(r, Err(StoreError::NotFound));
}

#[test]
fn test_delete_missing_is_not_found() {
    let mut dir = Dir::new();
    let r = Notes::delete_note_file(&mut dir, &"ghost".to_string());
    assert_eq!(r, Err(StoreError::NotFound));
}

#[test]
fn test_create_then_list_contains_title() {
    let mut dir = Dir::new();
    let mut session = Session::startup(&dir);
    session.create_note(&mut dir, &"Foo".to_string(), "bar".to_string());
    let listed = Notes::list_notes(&dir);
    assert!(listed.contains(&"Foo".to_string()));
    assert!(session.notes.items.contains(&"Foo".to_string()));
}

#[test]
fn test_delete_removes_both() {
    let mut dir = Dir::new();
    let mut session = Session::startup(&dir);
    session.create_note(&mut dir, &"Foo".to_string(), "bar".to_string());
    session.delete_note(&mut dir, &"Foo".to_string()).unwrap();

    let r = Notes::read_note_file(&dir, &"Foo".to_string());
    assert_eq!(r, Err(StoreError::NotFound));
    let listed = Notes::list_notes(&dir);
    assert!(!listed.contains(&"Foo".to_string()));
    assert!(!session.notes.items.contains(&"Foo".to_string()));
}

#[test]
fn test_title_with_dots_lists_back() {
    let mut dir = Dir::new();
    let title = "a.b".to_string();
    Notes::create_note_file(&mut dir, &title, "x".to_string());
    let listed = Notes::list_notes(&dir);
    assert_eq!(listed, vec!["a.b".to_string()]);
}

#[test]
fn test_session_startup_and_flush() {
    let mut dir = Dir::new();
    let mut first = Session::startup(&dir);
    first.create_note(&mut dir, &"alpha".to_string(), "one".to_string());
    first
        .create_todo(&mut dir, "remember".to_string(), Some(123))
        .unwrap();

    let mut second = Session::startup(&dir);
    assert_eq!(second.notes.items.len(), 2);
    assert!(second.notes.items.contains(&"alpha".to_string()));
    assert_eq!(second.todos.items.len(), 1);
    assert_eq!(second.todos.items[0].description, "remember");
    assert_eq!(second.todos.items[0].due_date, Some(123));

    second.selected_note = Some("alpha".to_string());
    second.save_active_note_to_disk(&mut dir);
    assert_eq!(
        Notes::read_note_file(&dir, &"alpha".to_string()).unwrap(),
        "one"
    );
}

#[test]
fn test_session_delete_todo_stale_index() {
    let mut dir = Dir::new();
    let mut session = Session::startup(&dir);
    session
        .create_todo(&mut dir, "only".to_string(), None)
        .unwrap();
    session.delete_todo(&mut dir, 5).unwrap();
    assert_eq!(session.todos.items.len(), 1);
    session.delete_todo(&mut dir, 0).unwrap();
    assert_eq!(session.todos.items.len(), 0);

    let loaded = Todos::load_from_file(&dir).unwrap();
    assert_eq!(loaded.items.len(), 0);
}

#[test]
fn test_corrupt_snapshot_is_serialization_error() {
    let mut dir = Dir::new();
    dir.write_file(".todos".to_string(), "{{corrupt".to_string());
    let r = Todos::load_from_file(&dir);
    assert!(matches!(r, Err(StoreError::SerializationError)));

    let session = Session::startup(&dir);
    assert_eq!(session.todos.items.len(), 0);
    assert!(dir.has_file(&".todos".to_string()));
}

#[test]
fn test_snapshot_file_is_not_a_note() {
    let mut dir = Dir::new();
    let mut session = Session::startup(&dir);
    session
        .create_todo(&mut dir, "hidden".to_string(), None)
        .unwrap();
    let listed = Notes::list_notes(&dir);
    assert_eq!(listed, vec![".todos".to_string()]);
}
