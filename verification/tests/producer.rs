use std::io::Cursor;

use ciborium::{de::from_reader, Value as CborValue};
use jsync::{Consumer, JsonValue, Number, Producer};
use serde_json::Value;

const HEADER: [u8; 3] = [0xd9, 0xff, 0x01];

/// Reads messages, and writes out the paths of their actions.
struct Reader {
    pool: Vec<CborValue>,
}

impl Reader {
    fn new() -> Self {
        Reader { pool: Vec::new() }
    }

    fn payload(&mut self, message: &[u8]) -> Vec<CborValue> {
        assert!(message.starts_with(&HEADER));
        let decoded: CborValue = from_reader(Cursor::new(&message[HEADER.len()..]))
            .expect("producer message must decode");
        let mut parts = elements(decoded);
        assert_eq!(parts.len(), 2);
        let actions = elements(parts.remove(1));
        let mut metadata = elements(parts.remove(0));
        assert_eq!(metadata.len(), 1);
        self.pool.extend(elements(metadata.remove(0)));
        actions
            .into_iter()
            .map(|action| self.write_out(action))
            .collect()
    }

    fn write_out(&self, action: CborValue) -> CborValue {
        let opcode = opcode(&action);
        let parts = elements(action)
            .into_iter()
            .enumerate()
            .map(|(position, part)| {
                if position == 1 && opcode != 0 {
                    let path = elements(part)
                        .into_iter()
                        .map(|index| {
                            let index = index.as_integer().map(i128::from);
                            let index = index.expect("a path must consist of indexes");
                            self.pool[usize::try_from(index).unwrap()].clone()
                        })
                        .collect();
                    CborValue::Array(path)
                } else {
                    part
                }
            })
            .collect();
        CborValue::Array(parts)
    }
}

fn elements(value: CborValue) -> Vec<CborValue> {
    match value {
        CborValue::Array(elements) => elements,
        value => panic!("expected an array, got {value:?}"),
    }
}

fn opcode(action: &CborValue) -> i128 {
    match action {
        CborValue::Array(elements) => elements
            .first()
            .and_then(CborValue::as_integer)
            .map(i128::from)
            .expect("action must have an integer opcode"),
        value => panic!("expected action array, got {value:?}"),
    }
}

fn action_path(action: &CborValue) -> &CborValue {
    match action {
        CborValue::Array(elements) => elements.get(1).expect("action must have a path"),
        value => panic!("expected action array, got {value:?}"),
    }
}

#[test]
fn first_message_snapshots_latest_document() {
    let mut producer = Producer::new(json(r#"{"count": 0}"#));
    producer.update(json(r#"{"count": 1}"#));

    let message = producer
        .get_message()
        .expect("first message must encode")
        .expect("first message must exist");
    let actions = Reader::new().payload(&message);

    assert_eq!(actions.len(), 1);
    assert_eq!(opcode(&actions[0]), 0);
    assert_eq!(actions[0], to_cbor(r#"[0, {"count": 1}]"#));

    let mut consumer = Consumer::new();
    consumer.consume(&message).unwrap();
    assert_eq!(consumer.document(), Some(&json(r#"{"count": 1}"#)));
}

#[test]
fn emits_incremental_actions_from_last_emitted_document() {
    let mut producer = Producer::new(json(r#"{"count": 0, "items": []}"#));
    let mut reader = Reader::new();
    let snapshot = producer.get_message().unwrap().unwrap();
    reader.payload(&snapshot);

    producer.update(json(r#"{"count": 1, "items": ["a"]}"#));
    let patch = producer.get_message().unwrap().unwrap();
    let actions = reader.payload(&patch);

    assert_eq!(actions.len(), 2);
    assert_eq!(opcode(&actions[0]), 3);
    assert_eq!(action_path(&actions[0]), &to_cbor(r#"["count"]"#));
    assert_eq!(opcode(&actions[1]), 1);
    assert_eq!(action_path(&actions[1]), &to_cbor(r#"["items", 0]"#));

    let mut consumer = Consumer::new();
    consumer.consume(&snapshot).unwrap();
    consumer.consume(&patch).unwrap();
    assert_eq!(
        consumer.document(),
        Some(&json(r#"{"count": 1, "items": ["a"]}"#))
    );
}

#[test]
fn coalesces_multiple_updates_before_get_message() {
    let mut producer = Producer::new(json(r#"{"count": 0}"#));
    let mut reader = Reader::new();
    let snapshot = producer.get_message().unwrap().unwrap();
    reader.payload(&snapshot);

    producer.update(json(r#"{"count": 1}"#));
    producer.update(json(r#"{"count": 2}"#));
    let patch = producer.get_message().unwrap().unwrap();
    let actions = reader.payload(&patch);

    assert_eq!(actions.len(), 1);
    assert_eq!(opcode(&actions[0]), 3);
    assert_eq!(actions[0], to_cbor(r#"[3, ["count"], 2]"#));
}

#[test]
fn returns_none_when_document_did_not_change() {
    let mut producer = Producer::new(json(r#"{"count": 0}"#));
    producer.get_message().unwrap().unwrap();

    assert!(producer.get_message().unwrap().is_none());
    producer.update(json(r#"{"count": 0}"#));
    assert!(producer.get_message().unwrap().is_none());
}

#[test]
fn replaces_root_when_root_value_changes() {
    let mut producer = Producer::new(json(r#"{"count": 0}"#));
    let mut reader = Reader::new();
    let snapshot = producer.get_message().unwrap().unwrap();
    reader.payload(&snapshot);
    producer.update(json(r#"["new-root"]"#));

    let patch = producer.get_message().unwrap().unwrap();
    assert_eq!(
        reader.payload(&patch),
        vec![to_cbor(r#"[3, [], ["new-root"]]"#)]
    );

    let mut consumer = Consumer::new();
    consumer
        .consume(&producer_message(json(r#"{"count": 0}"#)))
        .unwrap();
    consumer.consume(&patch).unwrap();
    assert_eq!(consumer.document(), Some(&json(r#"["new-root"]"#)));
}

#[test]
fn removes_object_keys_and_array_tail_in_valid_order() {
    let mut producer = Producer::new(json(r#"{"gone": true, "list": ["A", "B", "C"]}"#));
    let mut reader = Reader::new();
    let snapshot = producer.get_message().unwrap().unwrap();
    reader.payload(&snapshot);
    producer.update(json(r#"{"list": ["A"]}"#));

    let patch = producer.get_message().unwrap().unwrap();
    let actions = reader.payload(&patch);

    assert_eq!(actions.len(), 3);
    assert_eq!(
        actions.iter().map(opcode).collect::<Vec<_>>(),
        vec![2, 2, 2]
    );
    assert_eq!(action_path(&actions[0]), &to_cbor(r#"["gone"]"#));
    assert_eq!(action_path(&actions[1]), &to_cbor(r#"["list", 2]"#));
    assert_eq!(action_path(&actions[2]), &to_cbor(r#"["list", 1]"#));

    let mut consumer = Consumer::new();
    consumer
        .consume(&producer_message(json(
            r#"{"gone": true, "list": ["A", "B", "C"]}"#,
        )))
        .unwrap();
    consumer.consume(&patch).unwrap();
    assert_eq!(consumer.document(), Some(&json(r#"{"list": ["A"]}"#)));
}

fn producer_message(document: JsonValue) -> Vec<u8> {
    let mut producer = Producer::new(document);
    producer.get_message().unwrap().unwrap()
}

fn json(text: &str) -> JsonValue {
    from_serde(serde_json::from_str(text).expect("test document must parse"))
}

fn from_serde(value: Value) -> JsonValue {
    match value {
        Value::Null => JsonValue::Null,
        Value::Bool(value) => JsonValue::Bool(value),
        Value::Number(number) => JsonValue::Number(Number::Integer(i128::from(
            number.as_i64().expect("test number must be an integer"),
        ))),
        Value::String(value) => JsonValue::String(value),
        Value::Array(values) => JsonValue::Array(values.into_iter().map(from_serde).collect()),
        Value::Object(object) => {
            let mut map = jsync::string_map::StringMap::new();
            for (key, value) in object {
                map.insert(key, from_serde(value));
            }
            JsonValue::Object(map)
        }
    }
}

fn to_cbor(text: &str) -> CborValue {
    cbor_from_serde(serde_json::from_str(text).expect("test payload must parse"))
}

fn cbor_from_serde(value: Value) -> CborValue {
    match value {
        Value::Null => CborValue::Null,
        Value::Bool(value) => CborValue::Bool(value),
        Value::Number(number) => {
            if let Some(value) = number.as_i64() {
                CborValue::Integer(value.into())
            } else {
                CborValue::Integer(number.as_u64().expect("test number must be integer").into())
            }
        }
        Value::String(value) => CborValue::Text(value),
        Value::Array(values) => {
            CborValue::Array(values.into_iter().map(cbor_from_serde).collect())
        }
        Value::Object(object) => CborValue::Map(
            object
                .into_iter()
                .map(|(key, value)| (CborValue::Text(key), cbor_from_serde(value)))
                .collect(),
        ),
    }
}
