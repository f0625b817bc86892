use jsync::apply::{apply_action, apply_move};
use jsync::cbor::{decode_item, encode_item, CborValue, NOT_FINITE};
use jsync::message::json_cbor::{validate_safe_json_float, validate_safe_json_number};
use jsync::string_map::StringMap;
use jsync::text::{decimal_text, string_tokens, tokens_to_string};
use jsync::{
    Action, ArrayPatchEdit, Consumer, JsonValue, JsyncError, JsyncErrorKind, Message, Number,
    PathSegment, Producer, ProducerPathSegmentPool, StringPatchEdit,
};

const HEADER: [u8; 3] = [0xd9, 0xff, 0x01];

fn key(value: &str) -> PathSegment {
    PathSegment::Key(value.to_string())
}

fn integer(value: i128) -> JsonValue {
    JsonValue::Number(Number::Integer(value))
}

fn string(value: &str) -> JsonValue {
    JsonValue::String(value.to_string())
}

fn object(entries: Vec<(&str, JsonValue)>) -> JsonValue {
    let mut map = StringMap::new();
    for (key, value) in entries {
        map.insert(key.to_string(), value);
    }
    JsonValue::Object(map)
}

fn encode(payload: CborValue) -> Vec<u8> {
    let mut bytes = HEADER.to_vec();
    encode_item(&payload, &mut bytes).unwrap();
    bytes
}

fn paired(segments: Vec<CborValue>, actions: Vec<CborValue>) -> Vec<u8> {
    encode(CborValue::Array(vec![
        CborValue::Array(vec![CborValue::Array(segments)]),
        CborValue::Array(actions),
    ]))
}

fn consume(bytes: &[u8]) -> Result<JsonValue, JsyncError> {
    let mut consumer = Consumer::new();
    consumer.consume(bytes)?;
    Ok(consumer.document().expect("a document").clone())
}

fn kind_of(bytes: &[u8]) -> JsyncErrorKind {
    consume(bytes).expect_err("the message must be refused").kind
}

fn snapshot(value: CborValue) -> CborValue {
    CborValue::Array(vec![CborValue::Integer(0), value])
}

#[test]
fn each_decoding_error_has_its_kind() {
    assert_eq!(kind_of(&[]), JsyncErrorKind::InvalidHeader);
    assert_eq!(kind_of(&[0xd9, 0xff, 0x00]), JsyncErrorKind::InvalidHeader);
    assert_eq!(
        kind_of(&[0xd9, 0xff, 0x07, 0x80]),
        JsyncErrorKind::UnsupportedVersion
    );
    assert_eq!(kind_of(&HEADER), JsyncErrorKind::CborDecode);
    assert_eq!(
        kind_of(&[0xd9, 0xff, 0x01, 0x82, 0x01]),
        JsyncErrorKind::CborDecode
    );
    assert_eq!(
        kind_of(&[0xd9, 0xff, 0x01, 0x80, 0x80]),
        JsyncErrorKind::TrailingBytes
    );
    assert_eq!(
        kind_of(&encode(CborValue::Text("no array".to_string()))),
        JsyncErrorKind::MessageNotArray
    );
    assert_eq!(
        kind_of(&paired(Vec::new(), vec![CborValue::Null])),
        JsyncErrorKind::ActionNotArray
    );
    assert_eq!(
        kind_of(&paired(Vec::new(), vec![CborValue::Array(Vec::new())])),
        JsyncErrorKind::InvalidActionLength
    );
    assert_eq!(
        kind_of(&paired(
            Vec::new(),
            vec![CborValue::Array(vec![CborValue::Integer(-1)])]
        )),
        JsyncErrorKind::UnknownAction
    );
    assert_eq!(
        kind_of(&paired(
            Vec::new(),
            vec![snapshot(CborValue::Integer(1 << 60))]
        )),
        JsyncErrorKind::InvalidJsonValue
    );
    assert_eq!(
        kind_of(&paired(
            vec![CborValue::Bool(true)],
            vec![snapshot(CborValue::Null)]
        )),
        JsyncErrorKind::InvalidPath
    );
    assert_eq!(
        kind_of(&paired(Vec::new(), Vec::new())),
        JsyncErrorKind::InitialSnapshotRequired
    );
}

#[test]
fn a_bare_list_of_actions_has_inline_paths() {
    let remove = CborValue::Array(vec![
        CborValue::Integer(2),
        CborValue::Array(vec![CborValue::Text("a".to_string())]),
    ]);
    let document = CborValue::Dict(vec![(CborValue::Text("a".to_string()), CborValue::Null)]);
    let bytes = encode(CborValue::Array(vec![snapshot(document), remove]));
    assert_eq!(consume(&bytes).unwrap(), object(Vec::new()));

    let mut consumer = Consumer::new();
    consumer
        .consume(&encode(CborValue::Array(vec![snapshot(CborValue::Null)])))
        .unwrap();
    consumer.consume(&[0xd9, 0xff, 0x01, 0x80]).unwrap();
    assert_eq!(consumer.document(), Some(&JsonValue::Null));

    let single = |item: CborValue| encode(CborValue::Array(vec![item]));
    assert_eq!(
        kind_of(&single(CborValue::Null)),
        JsyncErrorKind::ActionNotArray
    );
    assert_eq!(
        kind_of(&single(CborValue::Array(Vec::new()))),
        JsyncErrorKind::InvalidActionLength
    );
    assert_eq!(
        kind_of(&encode(CborValue::Array(vec![
            CborValue::Null,
            CborValue::Array(Vec::new()),
        ]))),
        JsyncErrorKind::MessageNotArray
    );
}

#[test]
fn a_bare_list_of_actions_leaves_the_pool_alone() {
    let text = |value: &str| CborValue::Text(value.to_string());
    let add = |segment: CborValue, value: i128| {
        CborValue::Array(vec![
            CborValue::Integer(1),
            CborValue::Array(vec![segment]),
            CborValue::Integer(value),
        ])
    };
    let mut consumer = Consumer::new();
    consumer
        .consume(&paired(
            vec![text("a")],
            vec![
                snapshot(CborValue::Dict(Vec::new())),
                add(CborValue::Integer(0), 1),
            ],
        ))
        .unwrap();
    consumer
        .consume(&encode(CborValue::Array(vec![add(text("b"), 2)])))
        .unwrap();
    consumer
        .consume(&paired(
            vec![text("c")],
            vec![
                add(CborValue::Integer(0), 3),
                add(CborValue::Integer(1), 4),
            ],
        ))
        .unwrap();
    assert_eq!(
        consumer.document(),
        Some(&object(vec![
            ("a", integer(3)),
            ("b", integer(2)),
            ("c", integer(4)),
        ]))
    );
}

#[test]
fn floats_that_are_not_finite_are_refused_alike() {
    let float = |bytes: &[u8]| [&[0xd9, 0xff, 0x01, 0x81, 0x82, 0x00], bytes].concat();
    for bytes in [
        float(&[0xfa, 0x7f, 0xc0, 0x00, 0x01]),
        float(&[0xf9, 0x7e, 0x01]),
        float(&[0xf9, 0xfc, 0x00]),
        float(&[0xfb, 0x7f, 0xf0, 0, 0, 0, 0, 0, 0]),
    ] {
        let error = consume(&bytes).expect_err("the message must be refused");
        assert_eq!(error.kind, JsyncErrorKind::InvalidJsonValue);
    }
    let (nan, _) = decode_item(&[0xfa, 0x7f, 0xc0, 0x00, 0x01]).unwrap();
    assert!(matches!(nan, CborValue::Float(NOT_FINITE)));
    let (half, _) = decode_item(&[0xf9, 0x38, 0x00]).unwrap();
    assert!(matches!(half, CborValue::Float(0x3fe0_0000_0000_0000)));
}

#[test]
fn a_path_outside_the_pool_is_refused() {
    let remove = CborValue::Array(vec![
        CborValue::Integer(2),
        CborValue::Array(vec![CborValue::Integer(1)]),
    ]);
    let bytes = paired(
        vec![CborValue::Text("a".to_string())],
        vec![snapshot(CborValue::Dict(Vec::new())), remove],
    );
    assert_eq!(kind_of(&bytes), JsyncErrorKind::InvalidPath);
}

#[test]
fn later_properties_replace_earlier_ones() {
    let bytes = paired(
        Vec::new(),
        vec![snapshot(CborValue::Dict(vec![
            (CborValue::Text("k".to_string()), CborValue::Integer(1)),
            (CborValue::Text("k".to_string()), CborValue::Integer(2)),
        ]))],
    );
    assert_eq!(consume(&bytes).unwrap(), object(vec![("k", integer(2))]));
}

#[test]
fn each_application_error_has_its_kind() {
    let document = || {
        object(vec![
            ("list", JsonValue::Array(vec![integer(1)])),
            ("text", string("abc")),
            ("number", integer(5)),
        ])
    };
    let cases = vec![
        (
            Action::Remove {
                path: vec![key("missing")],
            },
            JsyncErrorKind::PathParentMissing,
        ),
        (
            Action::Add {
                path: vec![key("number"), key("x")],
                value: JsonValue::Null,
            },
            JsyncErrorKind::PathParentNotContainer,
        ),
        (
            Action::Add {
                path: vec![key("list"), PathSegment::Index(2)],
                value: JsonValue::Null,
            },
            JsyncErrorKind::ArrayIndexOutOfBounds,
        ),
        (
            Action::Remove { path: Vec::new() },
            JsyncErrorKind::InvalidPath,
        ),
        (
            Action::StringAppend {
                path: vec![key("number")],
                text: "x".to_string(),
            },
            JsyncErrorKind::ApplyFailed,
        ),
        (
            Action::StringPrepend {
                path: vec![key("list")],
                text: "x".to_string(),
            },
            JsyncErrorKind::ApplyFailed,
        ),
        (
            Action::StringPatch {
                path: vec![key("list")],
                edits: Vec::new(),
            },
            JsyncErrorKind::ApplyFailed,
        ),
        (
            Action::ArrayPatch {
                path: vec![key("text")],
                edits: Vec::new(),
            },
            JsyncErrorKind::ApplyFailed,
        ),
        (
            Action::ArrayPatch {
                path: vec![key("list")],
                edits: vec![ArrayPatchEdit {
                    start: 1,
                    delete_count: 1,
                    values: Vec::new(),
                }],
            },
            JsyncErrorKind::InvalidJsonValue,
        ),
        (
            Action::StringPatch {
                path: vec![key("text")],
                edits: vec![StringPatchEdit {
                    start: usize::MAX,
                    delete_count: 1,
                    text: String::new(),
                }],
            },
            JsyncErrorKind::InvalidJsonValue,
        ),
        (
            Action::Move {
                from: Vec::new(),
                path: vec![key("x")],
            },
            JsyncErrorKind::InvalidPath,
        ),
        (
            Action::Move {
                from: vec![key("list")],
                path: vec![key("list"), PathSegment::Index(0)],
            },
            JsyncErrorKind::InvalidPath,
        ),
        (
            Action::Copy {
                from: vec![key("-")],
                path: vec![key("x")],
            },
            JsyncErrorKind::InvalidPath,
        ),
    ];
    for (action, expected) in cases {
        let mut working = document();
        let error = apply_action(&mut working, action).expect_err("the action must fail");
        assert_eq!(error.kind, expected);
        assert_eq!(working, document());
    }
}

#[test]
fn a_move_that_cannot_be_finished_leaves_the_value_out() {
    let mut document = object(vec![("a", integer(1)), ("b", integer(2))]);
    let error = apply_move(&mut document, &[key("a")], &[key("b"), key("c")])
        .expect_err("a number has no properties");
    assert_eq!(error.kind, JsyncErrorKind::PathParentNotContainer);
    assert_eq!(document, object(vec![("b", integer(2))]));
}

#[test]
fn moving_a_value_to_where_it_is_changes_nothing() {
    let mut document = JsonValue::Array(vec![integer(1), integer(2)]);
    apply_action(
        &mut document,
        Action::Move {
            from: vec![PathSegment::Index(1)],
            path: vec![PathSegment::Index(1)],
        },
    )
    .unwrap();
    assert_eq!(document, JsonValue::Array(vec![integer(1), integer(2)]));
}

#[test]
fn unsafe_numbers_are_named_in_the_error() {
    let error = validate_safe_json_number(Number::Float(1e300f64.to_bits())).unwrap_err();
    assert_eq!(error.kind, JsyncErrorKind::InvalidJsonValue);
    assert_eq!(
        error.metadata.get("value"),
        Some(&1e300f64.to_string())
    );
    let error = validate_safe_json_number(Number::Integer(1 << 53)).unwrap_err();
    assert_eq!(
        error.metadata.get("value"),
        Some(&"9007199254740992".to_string())
    );
    assert!(validate_safe_json_number(Number::Float((-0.5f64).to_bits())).is_ok());
    assert!(validate_safe_json_float((-1e300f64).to_bits()).is_err());
    for value in [f64::INFINITY, f64::NEG_INFINITY, f64::NAN] {
        assert!(validate_safe_json_float(value.to_bits()).is_ok());
        assert!(validate_safe_json_number(Number::Float(value.to_bits())).is_err());
    }
}

#[test]
fn a_producer_refuses_unsafe_numbers_and_stays_as_it_is() {
    let mut producer = Producer::new(integer(1 << 53));
    assert_eq!(
        producer.get_message().unwrap_err().kind,
        JsyncErrorKind::InvalidJsonValue
    );

    producer.update(object(vec![("a", integer(1))]));
    let mut consumer = Consumer::new();
    consumer
        .consume(&producer.get_message().unwrap().unwrap())
        .unwrap();

    producer.update(object(vec![
        ("a", integer(1)),
        ("b", JsonValue::Number(Number::Float(f64::NAN.to_bits()))),
    ]));
    assert!(producer.get_message().is_err());
    assert!(producer.get_message().is_err());

    producer.update(object(vec![("a", integer(1)), ("b", integer(2))]));
    consumer
        .consume(&producer.get_message().unwrap().unwrap())
        .unwrap();
    assert_eq!(consumer.document(), Some(producer.document()));
}

#[test]
fn a_cloned_producer_goes_on_by_itself() {
    let mut producer = Producer::new(object(vec![("count", integer(0))]));
    producer.get_message().unwrap();
    let mut other = producer.clone();
    producer.update(object(vec![("count", integer(1))]));
    assert_eq!(other.get_message().unwrap(), None);
    other.update(object(vec![("count", integer(1))]));
    assert_eq!(other.get_message().unwrap(), producer.get_message().unwrap());
}

#[test]
fn a_snapshot_has_these_bytes() {
    let mut producer = Producer::new(object(vec![("a", integer(1))]));
    let bytes = producer.get_message().unwrap().unwrap();
    assert_eq!(
        bytes,
        [
            0xd9, 0xff, 0x01, // the header
            0x82, // metadata and actions
            0x81, 0x80, // no new path segments
            0x81, 0x82, 0x00, 0xa1, 0x61, b'a', 0x01, // one snapshot
        ]
    );
}

#[test]
fn a_path_is_declared_once() {
    let message = || {
        Message::new(vec![Action::Replace {
            path: vec![key("a"), PathSegment::Index(7)],
            value: JsonValue::Bool(true),
        }])
    };
    let mut pool = ProducerPathSegmentPool::new();
    let mut txn = pool.transaction();
    let first = message().to_bytes_with_pool_txn(&mut txn).unwrap();
    txn.commit();
    let mut txn = pool.transaction();
    let second = message().to_bytes_with_pool_txn(&mut txn).unwrap();
    txn.commit();
    assert_eq!(
        first,
        [
            0xd9, 0xff, 0x01, 0x82, 0x81, 0x82, 0x61, b'a', 0x07, 0x81, 0x83, 0x03, 0x82, 0x00,
            0x01, 0xf5,
        ]
    );
    assert_eq!(
        second,
        [0xd9, 0xff, 0x01, 0x82, 0x81, 0x80, 0x81, 0x83, 0x03, 0x82, 0x00, 0x01, 0xf5]
    );
}

#[test]
fn texts_are_counted_in_scalar_values() {
    let tokens = string_tokens("a😀é");
    assert_eq!(tokens, ['a', '😀', 'é']);
    assert_eq!(tokens_to_string(&tokens[1..]), "😀é");
    assert_eq!(decimal_text(i128::MIN), i128::MIN.to_string());
    assert_eq!(decimal_text(0), "0");
    assert_eq!(decimal_text(1007), "1007");
}

#[test]
fn causes_are_rendered_behind_the_message() {
    let cause = anyhow::Error::msg("inner").context("outer");
    let error = JsyncError::new(JsyncErrorKind::CborDecode, "Bad bytes.").with_source(cause);
    assert_eq!(
        error.to_string(),
        "(CborDecode) Bad bytes. Source: outer: inner"
    );
    assert_eq!(
        JsyncError::new(JsyncErrorKind::ApplyFailed, "Plain.").to_string(),
        "(ApplyFailed) Plain."
    );
}
