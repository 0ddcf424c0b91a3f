use note_cli::note::Note;
use note_cli::order::SortMethod;
use note_cli::store::Collection;

fn note(id: u32, content: &str, created_at: i64, updated_at: i64) -> Note {
    Note {
        id,
        content: content.to_string(),
        tags: Vec::new(),
        created_at,
        updated_at,
    }
}

fn ids(notes: &[Note]) -> Vec<u32> {
    notes.iter().map(|n| n.id).collect()
}

fn sample() -> Collection {
    Collection {
        notes: vec![
            note(3, "pears", 30, 31),
            note(1, "apples", 20, 45),
            note(2, "Bananas", 10, 40),
        ],
        free_ids: Vec::new(),
    }
}

#[test]
fn list_sorts_by_id() {
    let listed = sample().list_note(SortMethod::Id);
    assert_eq!(ids(&listed), vec![1, 2, 3]);
}

#[test]
fn list_sorts_by_creation_date() {
    let listed = sample().list_note(SortMethod::Date);
    assert_eq!(ids(&listed), vec![2, 1, 3]);
}

#[test]
fn list_sorts_by_update_date() {
    let listed = sample().list_note(SortMethod::Update);
    assert_eq!(ids(&listed), vec![3, 2, 1]);
}

#[test]
fn list_sorts_by_content_case_sensitively() {
    // Raw string order puts every capital letter before the lowercase ones
    let listed = sample().list_note(SortMethod::Content);
    assert_eq!(ids(&listed), vec![2, 1, 3]);
}

#[test]
fn sorting_keeps_input_order_between_equal_keys() {
    let store = Collection {
        notes: vec![
            note(4, "d", 7, 7),
            note(2, "b", 7, 7),
            note(9, "c", 7, 7),
            note(1, "a", 5, 5),
        ],
        free_ids: Vec::new(),
    };
    // All of 4, 2, 9 share the creation time 7 and must keep their order
    let listed = store.list_note(SortMethod::Date);
    assert_eq!(ids(&listed), vec![1, 4, 2, 9]);
}

#[test]
fn search_matches_case_insensitively() {
    let mut store = Collection::new();
    store.add_note("Hello World".to_string(), Vec::new(), 100);
    store.add_note("goodbye".to_string(), Vec::new(), 200);

    let found = store.search_note(&"hello".to_string(), SortMethod::Id).unwrap();
    assert_eq!(ids(&found), vec![1]);

    let found = store.search_note(&"WORLD".to_string(), SortMethod::Id).unwrap();
    assert_eq!(ids(&found), vec![1]);

    let found = store.search_note(&"o".to_string(), SortMethod::Id).unwrap();
    assert_eq!(ids(&found), vec![1, 2]);

    let found = store.search_note(&"absent".to_string(), SortMethod::Id).unwrap();
    assert!(found.is_empty());
}

#[test]
fn search_with_empty_keyword_is_a_no_op() {
    let mut store = Collection::new();
    store.add_note("anything".to_string(), Vec::new(), 100);

    assert!(store.search_note(&String::new(), SortMethod::Id).is_none());
}

#[test]
fn search_results_come_out_sorted() {
    let store = Collection {
        notes: vec![
            note(5, "alpha beta", 50, 50),
            note(2, "beta gamma", 20, 20),
            note(8, "delta", 80, 80),
            note(3, "BETA", 30, 30),
        ],
        free_ids: Vec::new(),
    };
    let found = store.search_note(&"beta".to_string(), SortMethod::Id).unwrap();
    assert_eq!(ids(&found), vec![2, 3, 5]);
}

#[test]
fn listing_an_empty_store_yields_nothing() {
    let store = Collection::new();
    assert!(store.list_note(SortMethod::Id).is_empty());
}

#[test]
fn listing_leaves_the_store_unchanged() {
    let store = sample();
    let before = ids(&store.notes);
    let listed = store.list_note(SortMethod::Id);
    assert_eq!(ids(&store.notes), before);
    assert_eq!(listed.len(), store.notes.len());
}
