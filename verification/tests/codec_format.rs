use credstore::codec::decode_index;
use credstore::codec::decode_record;
use credstore::codec::encode_index;
use credstore::codec::encode_record;
use credstore::types::IndexItem;
use credstore::types::StoredRecord;

fn sample_record() -> StoredRecord {
    StoredRecord {
        id: String::from("x1"),
        label: String::from("GitHub"),
        url: String::from("https://api.github.com"),
        client_id: String::from("abc"),
        client_secret: String::from("secret1"),
    }
}

#[test]
fn record_encodes_to_exact_text() {
    let text = encode_record(&sample_record());
    assert_eq!(
        text,
        "{\"id\":\"x1\",\"label\":\"GitHub\",\"url\":\"https://api.github.com\",\
         \"client_id\":\"abc\",\"client_secret\":\"secret1\"}"
    );
}

#[test]
fn record_roundtrips() {
    let rec = sample_record();
    let text = encode_record(&rec);
    let back = decode_record(&text).expect("canonical text must decode");
    assert_eq!(back.id, rec.id);
    assert_eq!(back.label, rec.label);
    assert_eq!(back.url, rec.url);
    assert_eq!(back.client_id, rec.client_id);
    assert_eq!(back.client_secret, rec.client_secret);
}

#[test]
fn quotes_and_backslashes_are_escaped() {
    let rec = StoredRecord {
        id: String::from("x2"),
        label: String::from("a\"b\\c"),
        url: String::from(""),
        client_id: String::from(""),
        client_secret: String::from(""),
    };
    let text = encode_record(&rec);
    assert_eq!(
        text,
        "{\"id\":\"x2\",\"label\":\"a\\\"b\\\\c\",\"url\":\"\",\
         \"client_id\":\"\",\"client_secret\":\"\"}"
    );
    let back = decode_record(&text).expect("escaped text must decode");
    assert_eq!(back.label, "a\"b\\c");
}

#[test]
fn garbage_record_text_does_not_decode() {
    assert!(decode_record("").is_none());
    assert!(decode_record("not a record").is_none());
    assert!(decode_record("{\"id\":\"x\"}").is_none());
    // a trailing remainder after the closing brace is refused
    let mut text = encode_record(&sample_record());
    text.push(' ');
    assert!(decode_record(&text).is_none());
}

#[test]
fn empty_index_is_a_bracket_pair() {
    let items: Vec<IndexItem> = Vec::new();
    assert_eq!(encode_index(&items), "[]");
    assert_eq!(decode_index("[]").expect("empty index decodes").len(), 0);
}

#[test]
fn index_roundtrips() {
    let items = vec![
        IndexItem { id: String::from("a1"), label: String::from("first") },
        IndexItem { id: String::from("b2"), label: String::from("second") },
    ];
    let text = encode_index(&items);
    assert_eq!(
        text,
        "[{\"id\":\"a1\",\"label\":\"first\"},{\"id\":\"b2\",\"label\":\"second\"}]"
    );
    let back = decode_index(&text).expect("canonical text must decode");
    assert_eq!(back.len(), 2);
    assert_eq!(back[0].id, "a1");
    assert_eq!(back[0].label, "first");
    assert_eq!(back[1].id, "b2");
    assert_eq!(back[1].label, "second");
}

#[test]
fn garbage_index_text_does_not_decode() {
    assert!(decode_index("").is_none());
    assert!(decode_index("[").is_none());
    assert!(decode_index("[]x").is_none());
    assert!(decode_index("[{\"id\":\"a\"}]").is_none());
}
