use note_cli::note::Note;
use note_cli::store::{Collection, EditOutcome, StoreError, TagOutcome};

fn note(id: u32, content: &str, created_at: i64, updated_at: i64) -> Note {
    Note {
        id,
        content: content.to_string(),
        tags: Vec::new(),
        created_at,
        updated_at,
    }
}

#[test]
fn test_add_note() {
    let mut store = Collection::new();

    add_at(&mut store, "content0", 100);
    add_at(&mut store, "content1", 200);

    assert_eq!(store.notes.len(), 2);

    let note1 = &store.notes[0];
    assert_eq!(note1.id, 1);
    assert_eq!(note1.content, "content0");
    assert!(note1.tags.is_empty());
    assert_time_valid(note1.created_at, 100);
    assert_time_valid(note1.updated_at, 100);

    let note2 = &store.notes[1];
    assert_eq!(note2.id, 2);
    assert_eq!(note2.content, "content1");
    assert!(note2.tags.is_empty());
    assert_time_valid(note2.created_at, 200);
    assert_time_valid(note2.updated_at, 200);
}

// Helper to verify a stored timestamp is the moment that was handed in
fn assert_time_valid(stamp: i64, now: i64) {
    assert!(stamp <= now, "timestamp should be in the past or present");
}

fn add_at(store: &mut Collection, content: &str, now: i64) -> u32 {
    store.add_note(content.to_string(), Vec::new(), now)
}

#[test]
fn test_remove_note() {
    let mut store = Collection::new();

    add_at(&mut store, "content0", 100);
    add_at(&mut store, "content1", 200);

    assert!(store.remove_note(2).is_ok());

    assert_eq!(store.notes.len(), 1);
    let note1 = &store.notes[0];
    assert_eq!(note1.id, 1);
    assert_eq!(note1.content, "content0");
    assert!(note1.tags.is_empty());

    // free_ids holds the freed id
    assert_eq!(store.free_ids, vec![2]);
}

#[test]
fn test_id_allocation() {
    let mut store = Collection::new();

    add_at(&mut store, "content1", 100);
    add_at(&mut store, "content2", 200);

    assert!(store.remove_note(1).is_ok());
    assert!(store.remove_note(2).is_ok());

    assert_eq!(store.free_ids, vec![1, 2]);

    // Adding new notes must reuse the freed ids
    add_at(&mut store, "new1", 300);
    add_at(&mut store, "new2", 400);
    assert_eq!(store.free_ids.len(), 0);
    assert_eq!(
        store.notes.iter().map(|n| n.id).collect::<Vec<_>>(),
        vec![1, 2]
    );
}

#[test]
fn test_add_note_with_tag() {
    let mut store = Collection::new();

    let tags = vec!["tag1".to_string(), "tag2".to_string()];
    store.add_note("hello world".to_string(), tags.clone(), 100);

    let note = &store.notes[0];
    assert_eq!(note.tags, tags);
    assert_time_valid(note.created_at, 100);
    assert_time_valid(note.updated_at, 100);
}

#[test]
fn test_add_tag_existing_note() {
    let mut store = Collection::new();

    add_at(&mut store, "note", 100);
    let outcome = store.add_tag(1, vec!["rust".to_string(), "cli".to_string()]);
    assert_eq!(outcome, TagOutcome::Tagged);

    let note = &store.notes[0];
    assert_eq!(note.tags, vec!["rust", "cli"]);

    // Adding an already present tag must not create a duplicate
    let outcome = store.add_tag(1, vec!["rust".to_string()]);
    assert_eq!(outcome, TagOutcome::Tagged);
    let note = &store.notes[0];
    assert_eq!(note.tags, vec!["rust", "cli"]);
}

#[test]
fn test_edit_note() {
    let mut store = Collection::new();

    add_at(&mut store, "old content", 100);
    let outcome = store.edit_note(1, "new content".to_string(), 200);
    assert_eq!(outcome, EditOutcome::Edited);

    let note = &store.notes[0];
    assert_eq!(note.content, "new content");
    assert_time_valid(note.updated_at, 200);
}

#[test]
fn add_to_empty_store_uses_id_one() {
    let mut store = Collection::new();
    let id = store.add_note("buy milk".to_string(), Vec::new(), 500);
    assert_eq!(id, 1);
    let note = &store.notes[0];
    assert_eq!(note.id, 1);
    assert!(note.tags.is_empty());
    assert_eq!(note.created_at, note.updated_at);
}

#[test]
fn remove_frees_only_the_named_id() {
    let mut store = Collection::new();
    add_at(&mut store, "first", 100);
    add_at(&mut store, "second", 200);

    assert!(store.remove_note(2).is_ok());

    assert_eq!(store.free_ids, vec![2]);
    assert_eq!(store.notes.len(), 1);
    assert_eq!(store.notes[0].id, 1);
}

#[test]
fn remove_missing_id_fails_and_changes_nothing() {
    let mut store = Collection::new();
    add_at(&mut store, "only", 100);

    let result = store.remove_note(7);
    assert_eq!(result, Err(StoreError::NotFound));
    assert_eq!(store.notes.len(), 1);
    assert!(store.free_ids.is_empty());
}

#[test]
fn adds_drain_the_free_list_in_order() {
    let mut store = Collection {
        notes: Vec::new(),
        free_ids: vec![1, 2],
    };
    assert!(store.is_well_formed());

    let first = add_at(&mut store, "a", 100);
    let second = add_at(&mut store, "b", 200);

    assert_eq!(first, 1);
    assert_eq!(second, 2);
    assert!(store.free_ids.is_empty());
}

#[test]
fn free_ids_are_reused_first_in_first_out() {
    let mut store = Collection {
        notes: Vec::new(),
        free_ids: vec![5, 3],
    };
    assert!(store.is_well_formed());

    // Reuse follows the order ids were freed, not their numeric order
    assert_eq!(add_at(&mut store, "a", 100), 5);
    assert_eq!(add_at(&mut store, "b", 200), 3);
    assert!(store.free_ids.is_empty());
}

#[test]
fn fresh_id_exceeds_every_live_id() {
    let mut store = Collection {
        notes: vec![note(9, "high", 1, 1), note(2, "low", 2, 2)],
        free_ids: Vec::new(),
    };
    assert!(store.is_well_formed());

    let id = add_at(&mut store, "next", 300);
    assert_eq!(id, 10);
}

#[test]
fn fresh_id_reaches_the_largest_value() {
    let mut store = Collection {
        notes: vec![note(4294967294, "almost full", 1, 1)],
        free_ids: Vec::new(),
    };
    assert!(store.is_well_formed());

    let id = add_at(&mut store, "last one", 2);
    assert_eq!(id, 4294967295);
}

#[test]
fn edit_missing_note_reports_not_found_and_changes_nothing() {
    let mut store = Collection::new();
    add_at(&mut store, "keep me", 100);

    let outcome = store.edit_note(99, "x".to_string(), 200);

    assert_eq!(outcome, EditOutcome::NotFound);
    assert_eq!(store.notes.len(), 1);
    assert_eq!(store.notes[0].content, "keep me");
    assert_eq!(store.notes[0].updated_at, 100);
}

#[test]
fn edit_with_empty_content_is_a_no_op() {
    let mut store = Collection::new();
    add_at(&mut store, "first text", 100);

    let outcome = store.edit_note(1, String::new(), 200);

    assert_eq!(outcome, EditOutcome::EmptyContent);
    assert_eq!(store.notes[0].content, "first text");
    assert_eq!(store.notes[0].updated_at, 100);
}

#[test]
fn add_tag_with_no_tags_is_a_no_op() {
    let mut store = Collection::new();
    add_at(&mut store, "plain", 100);

    let outcome = store.add_tag(1, Vec::new());

    assert_eq!(outcome, TagOutcome::NoTags);
    assert!(store.notes[0].tags.is_empty());
}

#[test]
fn add_tag_to_missing_note_reports_not_found() {
    let mut store = Collection::new();
    add_at(&mut store, "plain", 100);

    let outcome = store.add_tag(42, vec!["lost".to_string()]);

    assert_eq!(outcome, TagOutcome::NotFound);
    assert!(store.notes[0].tags.is_empty());
}

#[test]
fn duplicate_tags_in_one_call_are_added_once() {
    let mut store = Collection::new();
    add_at(&mut store, "plain", 100);

    let outcome = store.add_tag(1, vec!["todo".to_string(), "todo".to_string()]);

    assert_eq!(outcome, TagOutcome::Tagged);
    assert_eq!(store.notes[0].tags, vec!["todo"]);
}

#[test]
fn tagging_twice_equals_tagging_once() {
    let mut store = Collection::new();
    add_at(&mut store, "plain", 100);
    let tags = vec!["a".to_string(), "b".to_string()];

    store.add_tag(1, tags.clone());
    let after_once = store.notes[0].tags.clone();
    store.add_tag(1, tags);
    assert_eq!(store.notes[0].tags, after_once);
}

#[test]
fn well_formedness_rejects_bad_stores() {
    let duplicate_live = Collection {
        notes: vec![note(1, "a", 1, 1), note(1, "b", 2, 2)],
        free_ids: Vec::new(),
    };
    assert!(!duplicate_live.is_well_formed());

    let live_and_free = Collection {
        notes: vec![note(1, "a", 1, 1)],
        free_ids: vec![1],
    };
    assert!(!live_and_free.is_well_formed());

    let duplicate_free = Collection {
        notes: Vec::new(),
        free_ids: vec![4, 4],
    };
    assert!(!duplicate_free.is_well_formed());

    let updated_before_created = Collection {
        notes: vec![note(1, "a", 5, 4)],
        free_ids: Vec::new(),
    };
    assert!(!updated_before_created.is_well_formed());
}
