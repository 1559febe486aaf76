use todo_store::blob::{decode_blob, encode_blob, load_from_text, now_timestamp};
use todo_store::codec::encode_records;
use todo_store::decode::parse_records;
use todo_store::record::{Priority, Status, Todo};

fn sample() -> Vec<Todo> {
    vec![
        Todo {
            id: 1,
            title: "buy milk".to_string(),
            description: "two liters".to_string(),
            status: Status::NotCompleted,
            priority: Priority::High,
            created: "2024-01-01 09:00:00".to_string(),
        },
        Todo {
            id: 2,
            title: "say \"hi\" to a\\b".to_string(),
            description: "line one\nline two — café".to_string(),
            status: Status::Completed,
            priority: Priority::Low,
            created: "2024-01-02 10:30:59".to_string(),
        },
    ]
}

fn assert_same(a: &[Todo], b: &[Todo]) {
    assert_eq!(a.len(), b.len());
    for (x, y) in a.iter().zip(b.iter()) {
        assert_eq!(x.id, y.id);
        assert_eq!(x.title, y.title);
        assert_eq!(x.description, y.description);
        assert_eq!(x.status, y.status);
        assert_eq!(x.priority, y.priority);
        assert_eq!(x.created, y.created);
    }
}

#[test]
fn encode_records_exact_text() {
    let todos = vec![Todo {
        id: 1,
        title: "t".to_string(),
        description: "d".to_string(),
        status: Status::Completed,
        priority: Priority::High,
        created: "2024-01-01 00:00:00".to_string(),
    }];
    let text = encode_records(&todos);
    assert_eq!(
        text,
        "[{\"id\":1,\"title\":\"t\",\"description\":\"d\",\"status\":\"Completed\",\
         \"priority\":\"High\",\"created\":\"2024-01-01 00:00:00\"}]"
    );
}

#[test]
fn encode_records_escapes_quotes_and_backslashes() {
    let todos = vec![Todo {
        id: 7,
        title: "a\"b\\c".to_string(),
        description: "".to_string(),
        status: Status::NotCompleted,
        priority: Priority::Low,
        created: "x".to_string(),
    }];
    let text = encode_records(&todos);
    assert_eq!(
        text,
        "[{\"id\":7,\"title\":\"a\\\"b\\\\c\",\"description\":\"\",\"status\":\"NotCompleted\",\
         \"priority\":\"Low\",\"created\":\"x\"}]"
    );
}

#[test]
fn round_trip_through_blob() {
    let todos = sample();
    let blob = encode_blob(&todos);
    let back = decode_blob(blob.as_str()).expect("canonical blob must decode");
    assert_same(&todos, &back);
}

#[test]
fn round_trip_empty_collection() {
    let todos: Vec<Todo> = Vec::new();
    let blob = encode_blob(&todos);
    assert_eq!(blob, "W10=");
    let back = decode_blob(blob.as_str()).expect("empty blob must decode");
    assert!(back.is_empty());
}

#[test]
fn parse_records_accepts_only_canonical_text() {
    let todos = sample();
    let text = encode_records(&todos);
    let back = parse_records(text.as_str()).expect("canonical text must parse");
    assert_same(&todos, &back);
    assert!(parse_records("").is_none());
    assert!(parse_records("[").is_none());
    assert!(parse_records("[]x").is_none());
    assert!(parse_records("[ ]").is_none());
    assert!(parse_records("{\"id\":1}").is_none());
    assert!(parse_records("[{\"id\":01,\"title\":\"t\",\"description\":\"d\",\"status\":\"Completed\",\"priority\":\"High\",\"created\":\"c\"}]").is_none());
    assert!(parse_records("[{\"id\":1,\"title\":\"t\",\"description\":\"d\",\"status\":\"Done\",\"priority\":\"High\",\"created\":\"c\"}]").is_none());
}

#[test]
fn load_on_corruption_yields_empty() {
    assert!(decode_blob("not base64!!!").is_none());
    assert!(decode_blob("aGVsbG8=").is_none());
    assert!(load_from_text("not base64!!!").is_empty());
    assert!(load_from_text("aGVsbG8=").is_empty());
    assert!(load_from_text("").is_empty());
}

#[test]
fn load_from_text_returns_saved_records() {
    let todos = sample();
    let blob = encode_blob(&todos);
    let back = load_from_text(blob.as_str());
    assert_same(&todos, &back);
}

#[test]
fn timestamp_has_expected_shape() {
    let ts = now_timestamp();
    assert_eq!(ts.len(), 19, "timestamp was {:?}", ts);
    let bytes = ts.as_bytes();
    assert_eq!(bytes[4], b'-');
    assert_eq!(bytes[7], b'-');
    assert_eq!(bytes[10], b' ');
    assert_eq!(bytes[13], b':');
    assert_eq!(bytes[16], b':');
}
