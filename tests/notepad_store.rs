use notepad::{Address, NoteError, NotepadContract, MAX_CONTENT_LEN};

fn addr(s: &str) -> Address {
    Address::from_string(s.to_string())
}

fn fresh() -> NotepadContract {
    let mut store = NotepadContract::new();
    store.initialize();
    store
}

#[test]
fn scenario_alice_and_bob() {
    let mut store = fresh();
    assert_eq!(store.create_note(addr("alice"), "hello".to_string(), 100), Ok(1));
    assert_eq!(store.create_note(addr("alice"), "world".to_string(), 101), Ok(2));
    assert_eq!(store.create_note(addr("bob"), "hi".to_string(), 102), Ok(3));

    let alice_notes = store.get_user_notes(&addr("alice"));
    assert_eq!(alice_notes.len(), 2);
    assert_eq!(alice_notes[0].id, 1);
    assert_eq!(alice_notes[0].content, "hello");
    assert!(!alice_notes[0].is_deleted);
    assert_eq!(alice_notes[1].id, 2);
    assert_eq!(alice_notes[1].content, "world");
    assert!(!alice_notes[1].is_deleted);

    assert_eq!(store.delete_note(&addr("alice"), 1), Ok(()));
    assert!(store.get_note(1).unwrap().is_deleted);
    assert_eq!(store.delete_note(&addr("bob"), 1), Err(NoteError::Unauthorized));
    assert_eq!(store.get_total_notes(), 3);
}

#[test]
fn ids_start_at_one_and_increase() {
    let mut store = fresh();
    let mut last = 0u64;
    for i in 0..10u64 {
        let id = store.create_note(addr("carol"), format!("note {}", i), i).unwrap();
        assert_eq!(id, last + 1);
        last = id;
    }
    assert_eq!(store.get_total_notes(), 10);
}

#[test]
fn store_never_set_up_starts_at_one() {
    let mut store = NotepadContract::new();
    assert_eq!(store.get_total_notes(), 0);
    assert_eq!(store.create_note(addr("dave"), "x".to_string(), 0), Ok(1));
    assert_eq!(store.get_total_notes(), 1);
}

#[test]
fn created_note_reads_back_exactly() {
    let mut store = fresh();
    let id = store.create_note(addr("erin"), "grocery list".to_string(), 1_700_000_000).unwrap();
    let note = store.get_note(id).unwrap();
    assert_eq!(note.id, id);
    assert_eq!(note.content, "grocery list");
    assert_eq!(note.author.as_str(), "erin");
    assert_eq!(note.timestamp, 1_700_000_000);
    assert!(!note.is_deleted);
}

#[test]
fn missing_note_is_absent() {
    let mut store = fresh();
    assert!(store.get_note(1).is_none());
    store.create_note(addr("erin"), "a".to_string(), 0).unwrap();
    assert!(store.get_note(0).is_none());
    assert!(store.get_note(2).is_none());
    assert!(store.get_note(u64::MAX).is_none());
}

#[test]
fn empty_content_rejected_without_change() {
    let mut store = fresh();
    store.create_note(addr("frank"), "first".to_string(), 0).unwrap();
    assert_eq!(store.create_note(addr("frank"), String::new(), 1), Err(NoteError::ValidationError));
    assert_eq!(store.create_note(addr("gina"), String::new(), 1), Err(NoteError::ValidationError));
    assert_eq!(store.get_total_notes(), 1);
    assert!(store.get_note(2).is_none());
    assert_eq!(store.get_user_notes(&addr("frank")).len(), 1);
    assert!(store.get_user_notes(&addr("gina")).is_empty());
}

#[test]
fn over_long_content_rejected_without_change() {
    let mut store = fresh();
    let too_long = "a".repeat(281);
    assert_eq!(store.create_note(addr("hal"), too_long, 1), Err(NoteError::ValidationError));
    assert_eq!(store.get_total_notes(), 0);
    assert!(store.get_note(1).is_none());
    assert!(store.get_user_notes(&addr("hal")).is_empty());
    assert_eq!(store.create_note(addr("hal"), "ok".to_string(), 2), Ok(1));
}

#[test]
fn content_at_the_limit_accepted() {
    let mut store = fresh();
    assert_eq!(MAX_CONTENT_LEN, 280);
    let longest = "b".repeat(280);
    assert_eq!(store.create_note(addr("ivy"), longest.clone(), 1), Ok(1));
    assert_eq!(store.get_note(1).unwrap().content, longest);
    assert_eq!(store.create_note(addr("ivy"), "c".to_string(), 1), Ok(2));
}

#[test]
fn length_counts_characters_not_bytes() {
    let mut store = fresh();
    let wide = "é".repeat(280);
    assert!(wide.len() > 280);
    assert_eq!(store.create_note(addr("jo"), wide, 1), Ok(1));
    let too_wide = "é".repeat(281);
    assert_eq!(store.create_note(addr("jo"), too_wide, 1), Err(NoteError::ValidationError));
    assert_eq!(store.get_total_notes(), 1);
}

#[test]
fn delete_missing_note_not_found() {
    let mut store = fresh();
    assert_eq!(store.delete_note(&addr("kim"), 1), Err(NoteError::NotFound));
    store.create_note(addr("kim"), "k".to_string(), 0).unwrap();
    assert_eq!(store.delete_note(&addr("kim"), 2), Err(NoteError::NotFound));
}

#[test]
fn delete_twice_already_deleted() {
    let mut store = fresh();
    let id = store.create_note(addr("lee"), "temp".to_string(), 9).unwrap();
    assert_eq!(store.delete_note(&addr("lee"), id), Ok(()));
    assert_eq!(store.delete_note(&addr("lee"), id), Err(NoteError::AlreadyDeleted));
    let note = store.get_note(id).unwrap();
    assert!(note.is_deleted);
    assert_eq!(note.content, "temp");
    assert_eq!(note.author.as_str(), "lee");
    assert_eq!(note.timestamp, 9);
}

#[test]
fn delete_by_other_author_changes_nothing() {
    let mut store = fresh();
    let id = store.create_note(addr("max"), "mine".to_string(), 3).unwrap();
    assert_eq!(store.delete_note(&addr("ned"), id), Err(NoteError::Unauthorized));
    assert!(!store.get_note(id).unwrap().is_deleted);
}

#[test]
fn unauthorized_checked_before_already_deleted() {
    let mut store = fresh();
    let id = store.create_note(addr("olga"), "gone".to_string(), 3).unwrap();
    store.delete_note(&addr("olga"), id).unwrap();
    assert_eq!(store.delete_note(&addr("pat"), id), Err(NoteError::Unauthorized));
}

#[test]
fn user_notes_keep_order_and_deleted_ones() {
    let mut store = fresh();
    store.create_note(addr("quinn"), "one".to_string(), 1).unwrap();
    store.create_note(addr("rae"), "other".to_string(), 2).unwrap();
    store.create_note(addr("quinn"), "two".to_string(), 3).unwrap();
    store.create_note(addr("quinn"), "three".to_string(), 4).unwrap();
    store.delete_note(&addr("quinn"), 3).unwrap();
    let notes = store.get_user_notes(&addr("quinn"));
    let ids: Vec<u64> = notes.iter().map(|n| n.id).collect();
    assert_eq!(ids, vec![1, 3, 4]);
    assert!(!notes[0].is_deleted);
    assert!(notes[1].is_deleted);
    assert!(!notes[2].is_deleted);
    assert_eq!(notes[2].content, "three");
    assert_eq!(store.get_user_notes(&addr("rae")).len(), 1);
}

#[test]
fn unknown_author_has_no_notes() {
    let mut store = fresh();
    assert!(store.get_user_notes(&addr("sam")).is_empty());
    store.create_note(addr("tess"), "t".to_string(), 0).unwrap();
    assert!(store.get_user_notes(&addr("sam")).is_empty());
}

#[test]
fn deleting_keeps_total_and_index() {
    let mut store = fresh();
    store.create_note(addr("uma"), "u1".to_string(), 0).unwrap();
    store.create_note(addr("uma"), "u2".to_string(), 0).unwrap();
    store.delete_note(&addr("uma"), 2).unwrap();
    assert_eq!(store.get_total_notes(), 2);
    assert_eq!(store.get_user_notes(&addr("uma")).len(), 2);
    assert_eq!(store.create_note(addr("uma"), "u3".to_string(), 0), Ok(3));
}
