use credstore::repository::create;
use credstore::repository::delete;
use credstore::repository::load_all;
use credstore::repository::load_by_id;
use credstore::repository::load_by_label;
use credstore::repository::read_index;
use credstore::repository::save;
use credstore::repository::write_index;
use credstore::repository::MemStore;
use credstore::types::Error;
use credstore::types::IndexItem;

#[test]
fn create_then_load_all_then_delete_scenario() {
    let mut store = MemStore::new();
    let rec = create(&mut store, "GitHub", "https://api.github.com", "abc", "secret1")
        .expect("create must succeed on a fresh store");
    assert!(!rec.id.is_empty());
    assert_eq!(rec.label, "GitHub");

    let listed = load_all(&store).expect("listing must succeed");
    assert_eq!(listed.len(), 1);
    assert_eq!(listed[0].id, rec.id);
    assert_eq!(listed[0].label, "GitHub");
    assert_eq!(listed[0].url, "https://api.github.com");
    assert_eq!(listed[0].client_id, "abc");
    assert_eq!(listed[0].client_secret, "secret1");

    delete(&mut store, &rec.id).expect("delete must succeed");
    let listed = load_all(&store).expect("listing must still succeed");
    assert!(listed.is_empty());
    assert!(matches!(load_by_id(&store, &rec.id), Err(Error::NotFound(_))));
}

#[test]
fn create_roundtrips_through_load_by_id() {
    let mut store = MemStore::new();
    let rec = create(&mut store, "a label", "u://r.l", "cid", "cs").expect("create succeeds");
    assert_eq!(rec.id.len(), 36);
    let back = load_by_id(&store, &rec.id).expect("the new id must resolve");
    assert_eq!(back.id, rec.id);
    assert_eq!(back.label, "a label");
    assert_eq!(back.url, "u://r.l");
    assert_eq!(back.client_id, "cid");
    assert_eq!(back.client_secret, "cs");
}

#[test]
fn index_writes_are_normalized_and_repeatable() {
    let mut store = MemStore::new();
    let messy = vec![
        IndexItem { id: String::from("b"), label: String::from("two") },
        IndexItem { id: String::from("a"), label: String::from("one") },
        IndexItem { id: String::from("b"), label: String::from("dropped") },
        IndexItem { id: String::from("a"), label: String::from("dropped too") },
    ];
    write_index(&mut store, messy);
    let first_text = store.get("__ids_index__").expect("index record exists");
    let items = read_index(&store).expect("index reads back");
    assert_eq!(items.len(), 2);
    assert_eq!(items[0].id, "a");
    assert_eq!(items[0].label, "one");
    assert_eq!(items[1].id, "b");
    assert_eq!(items[1].label, "two");

    // writing the persisted entries again persists byte-identical text
    write_index(&mut store, items);
    let second_text = store.get("__ids_index__").expect("index record exists");
    assert_eq!(first_text, second_text);
}

#[test]
fn delete_is_idempotent() {
    let mut store = MemStore::new();
    let rec = create(&mut store, "gone", "u", "c", "s").expect("create succeeds");
    delete(&mut store, &rec.id).expect("first delete succeeds");
    assert!(matches!(load_by_id(&store, &rec.id), Err(Error::NotFound(_))));
    delete(&mut store, &rec.id).expect("second delete never fails");
    assert!(matches!(load_by_id(&store, &rec.id), Err(Error::NotFound(_))));
}

#[test]
fn deleting_an_unknown_id_succeeds() {
    let mut store = MemStore::new();
    delete(&mut store, "never-created").expect("removing a nonexistent id is a no-op");
}

#[test]
fn load_all_skips_externally_removed_records() {
    let mut store = MemStore::new();
    let keep = create(&mut store, "keep", "u1", "c1", "s1").expect("create succeeds");
    let lose = create(&mut store, "lose", "u2", "c2", "s2").expect("create succeeds");

    // simulate external corruption: the record vanishes, the index entry stays
    store.remove(&lose.id);

    let listed = load_all(&store).expect("listing must not fail as a whole");
    assert_eq!(listed.len(), 1);
    assert_eq!(listed[0].id, keep.id);
}

#[test]
fn load_all_skips_undecodable_records() {
    let mut store = MemStore::new();
    let keep = create(&mut store, "keep", "u1", "c1", "s1").expect("create succeeds");
    let bad = create(&mut store, "bad", "u2", "c2", "s2").expect("create succeeds");
    store.set(&bad.id, String::from("not a record"));
    let listed = load_all(&store).expect("listing must not fail as a whole");
    assert_eq!(listed.len(), 1);
    assert_eq!(listed[0].id, keep.id);
}

#[test]
fn shared_label_resolves_to_smallest_id() {
    let mut store = MemStore::new();
    let one = create(&mut store, "shared", "u1", "c1", "s1").expect("create succeeds");
    let two = create(&mut store, "shared", "u2", "c2", "s2").expect("create succeeds");
    let smallest = if one.id < two.id { &one } else { &two };

    let found = load_by_label(&store, "shared").expect("a match exists");
    assert_eq!(found.id, smallest.id);
    assert_eq!(found.url, smallest.url);
}

#[test]
fn label_lookup_misses_with_not_found() {
    let mut store = MemStore::new();
    save(&mut store, "present", "u", "c", "s").expect("save succeeds");
    assert!(matches!(load_by_label(&store, "absent"), Err(Error::NotFound(_))));
}

#[test]
fn corrupt_index_is_a_hard_decode_error() {
    let mut store = MemStore::new();
    store.set("__ids_index__", String::from("not an index"));
    assert!(matches!(load_all(&store), Err(Error::Decode)));
    assert!(matches!(read_index(&store), Err(Error::Decode)));
    assert!(matches!(create(&mut store, "l", "u", "c", "s"), Err(Error::Decode)));
    assert!(matches!(delete(&mut store, "some-id"), Err(Error::Decode)));
}

#[test]
fn undecodable_record_is_a_decode_error() {
    let mut store = MemStore::new();
    store.set("bad-id", String::from("{broken"));
    assert!(matches!(load_by_id(&store, "bad-id"), Err(Error::Decode)));
}

#[test]
fn generated_ids_are_36_characters_and_distinct() {
    let mut store = MemStore::new();
    let one = create(&mut store, "a", "u", "c", "s").expect("create succeeds");
    let two = create(&mut store, "a", "u", "c", "s").expect("create succeeds");
    assert_eq!(one.id.len(), 36);
    assert_eq!(two.id.len(), 36);
    assert_ne!(one.id, two.id);
}

#[test]
fn error_messages_describe_the_failure() {
    assert_eq!(Error::NotFound(String::from("nothing here")).message(), "nothing here");
    assert_eq!(Error::Decode.message(), "stored value could not be decoded");
    assert_eq!(Error::StoreInit(String::from("init failed")).message(), "init failed");
    assert_eq!(Error::StoreRead(String::from("read failed")).message(), "read failed");
    assert_eq!(Error::StoreWrite(String::from("write failed")).message(), "write failed");
    assert_eq!(Error::StoreDelete(String::from("delete failed")).message(), "delete failed");
}

#[test]
fn not_found_messages_name_what_was_missing() {
    let mut store = MemStore::new();
    save(&mut store, "present", "u", "c", "s").expect("save succeeds");

    match load_by_label(&store, "absent") {
        Err(Error::NotFound(m)) => {
            assert_eq!(m, "No credential found with label 'absent'");
        }
        other => panic!("expected a label miss, got {:?}", other.map(|r| r.id)),
    }
    match load_by_id(&store, "no-such-id") {
        Err(Error::NotFound(m)) => {
            assert_eq!(m, "No credential found with id 'no-such-id'");
        }
        other => panic!("expected an id miss, got {:?}", other.map(|r| r.id)),
    }
}

#[test]
fn save_stores_the_same_state_create_would() {
    let mut store = MemStore::new();
    save(&mut store, "saved", "u", "c", "s").expect("save succeeds");
    let listed = load_all(&store).expect("listing succeeds");
    assert_eq!(listed.len(), 1);
    assert_eq!(listed[0].label, "saved");
    assert_eq!(listed[0].url, "u");
    assert_eq!(listed[0].client_id, "c");
    assert_eq!(listed[0].client_secret, "s");
    assert_eq!(listed[0].id.len(), 36);
}
