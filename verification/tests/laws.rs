use jsync::apply::apply_action;
use jsync::cbor::{decode_item, encode_item, CborValue};
use jsync::message::encoder::to_tagged_bytes;
use jsync::message::json_cbor::{json_to_cbor, to_json};
use jsync::producer::cost::{encoded_plan_cost_for_debug, estimate_plan_cost};
use jsync::producer::diff::{build_diff, diff_objects};
use jsync::producer::digest::{digest_value, same_digest};
use jsync::producer::myers::{myers_diff, EditOp};
use jsync::producer::sequences::common_suffix_len;
use jsync::producer::strings::string_edit_ops_to_patch_edits;
use jsync::string_map::StringMap;
use jsync::{
    Action, ArrayPatchEdit, Consumer, ConsumerPathSegmentPool, JsonValue, JsyncErrorKind, Message,
    Number, PathSegment, Producer, ProducerPathSegmentPool, StringPatchEdit,
};
use serde_json::Value;

fn json(text: &str) -> JsonValue {
    from_serde(serde_json::from_str(text).expect("test document must parse"))
}

fn from_serde(value: Value) -> JsonValue {
    match value {
        Value::Null => JsonValue::Null,
        Value::Bool(value) => JsonValue::Bool(value),
        Value::Number(number) => JsonValue::Number(if let Some(value) = number.as_i64() {
            Number::Integer(i128::from(value))
        } else {
            Number::Float(number.as_f64().expect("test number must be finite").to_bits())
        }),
        Value::String(value) => JsonValue::String(value),
        Value::Array(values) => JsonValue::Array(values.into_iter().map(from_serde).collect()),
        Value::Object(object) => {
            let mut map = StringMap::new();
            for (key, value) in object {
                map.insert(key, from_serde(value));
            }
            JsonValue::Object(map)
        }
    }
}

fn float(value: f64) -> JsonValue {
    JsonValue::Number(Number::Float(value.to_bits()))
}

fn key(value: &str) -> PathSegment {
    PathSegment::Key(value.to_string())
}

fn every_action() -> Vec<Action> {
    vec![
        Action::Snapshot {
            value: json(r#"{"list": [1, 2.5, null], "text": "abc", "old": true, "gone": {}}"#),
        },
        Action::Add {
            path: vec![key("list"), PathSegment::Index(3)],
            value: json("-7"),
        },
        Action::Remove {
            path: vec![key("gone")],
        },
        Action::Replace {
            path: vec![key("list"), PathSegment::Index(0)],
            value: json(r#"{"b": [], "a": "x"}"#),
        },
        Action::StringAppend {
            path: vec![key("text")],
            text: "def".to_string(),
        },
        Action::StringPrepend {
            path: vec![key("text")],
            text: "<".to_string(),
        },
        Action::StringPatch {
            path: vec![key("text")],
            edits: vec![
                StringPatchEdit {
                    start: 5,
                    delete_count: 1,
                    text: "E".to_string(),
                },
                StringPatchEdit {
                    start: 1,
                    delete_count: 0,
                    text: "[".to_string(),
                },
            ],
        },
        Action::ArrayPatch {
            path: vec![key("list")],
            edits: vec![
                ArrayPatchEdit {
                    start: 3,
                    delete_count: 1,
                    values: vec![json("8"), json("9")],
                },
                ArrayPatchEdit {
                    start: 1,
                    delete_count: 1,
                    values: Vec::new(),
                },
            ],
        },
        Action::Copy {
            from: vec![key("text")],
            path: vec![key("copy")],
        },
        Action::Move {
            from: vec![key("old")],
            path: vec![key("new")],
        },
    ]
}

const AFTER_EVERY_ACTION: &str = r#"{
    "list": [{"a": "x", "b": []}, null, 8, 9],
    "text": "<[abcdEf",
    "copy": "<[abcdEf",
    "new": true
}"#;

#[test]
fn every_action_round_trips_and_applies_in_the_paired_layout() {
    let message = Message::new(every_action());
    let mut pool = ProducerPathSegmentPool::new();
    let mut txn = pool.transaction();
    let bytes = message.to_bytes_with_pool_txn(&mut txn).unwrap();
    txn.commit();

    let mut consumer = Consumer::new();
    assert_eq!(consumer.decode_message_dry_run(&bytes).unwrap(), message);
    consumer.consume(&bytes).unwrap();
    assert_eq!(consumer.document(), Some(&json(AFTER_EVERY_ACTION)));
}

#[test]
fn every_action_round_trips_in_the_tagged_layout() {
    let message = Message::new(every_action());
    let mut pool = ProducerPathSegmentPool::new();
    let mut txn = pool.transaction();
    let bytes = to_tagged_bytes(&message.actions, &mut txn).unwrap();
    txn.commit();

    let mut consumer = Consumer::new();
    assert_eq!(consumer.decode_message_dry_run(&bytes).unwrap(), message);
    consumer.consume(&bytes).unwrap();
    assert_eq!(consumer.document(), Some(&json(AFTER_EVERY_ACTION)));
}

#[test]
fn reader_pool_ends_up_as_the_writer_pool() {
    let message = Message::new(every_action());
    let mut writer = ProducerPathSegmentPool::new();
    let mut txn = writer.transaction();
    let bytes = message.to_bytes_with_pool_txn(&mut txn).unwrap();
    txn.commit();

    let mut reader = ConsumerPathSegmentPool::new();
    let mut txn = reader.transaction();
    Message::from_bytes_with_pool_txn(bytes, &mut txn).unwrap();
    assert_eq!(txn.pool_len(), writer.len());
    for (index, segment) in writer.segments().iter().enumerate() {
        assert_eq!(txn.path_segment_at(index).as_ref(), Some(segment));
    }
    assert_eq!(txn.path_segment_at(writer.len()), None);
    txn.commit();
}

#[test]
fn documents_round_trip_through_cbor() {
    let document = JsonValue::Array(vec![
        json(r#"{"a": [null, true, false, "text", {}], "b": []}"#),
        float(0.1),
        float(-0.0),
        float(1.5e-300),
        JsonValue::Number(Number::Integer(9_007_199_254_740_991)),
        JsonValue::Number(Number::Integer(-9_007_199_254_740_991)),
    ]);
    let mut bytes = Vec::new();
    encode_item(&json_to_cbor(&document).unwrap(), &mut bytes).unwrap();
    let (item, length) = decode_item(&bytes).unwrap();
    assert_eq!(length, bytes.len() as u64);
    let back = to_json(item).unwrap();
    assert_eq!(format!("{back:?}"), format!("{document:?}"));
}

#[test]
fn decoded_numbers_are_safe() {
    let unsafe_items = [
        CborValue::Integer(9_007_199_254_740_992),
        CborValue::Integer(-9_007_199_254_740_992),
        CborValue::Float(9_007_199_254_740_992f64.to_bits()),
        CborValue::Float(f64::NAN.to_bits()),
        CborValue::Float(f64::INFINITY.to_bits()),
    ];
    for item in unsafe_items {
        assert_eq!(
            to_json(item).unwrap_err().kind,
            JsyncErrorKind::InvalidJsonValue
        );
    }
    assert!(to_json(CborValue::Integer(9_007_199_254_740_991)).is_ok());
    assert!(to_json(CborValue::Float(9_007_199_254_740_991f64.to_bits())).is_ok());
}

#[test]
fn same_documents_stay_the_same() {
    let mut plus = JsonValue::Array(vec![float(0.0), json(r#""a""#)]);
    let mut minus = JsonValue::Array(vec![float(-0.0), json(r#""a""#)]);
    assert_eq!(plus, minus);
    let action = Action::StringAppend {
        path: vec![PathSegment::Index(1)],
        text: "b".to_string(),
    };
    apply_action(&mut plus, action.clone()).unwrap();
    apply_action(&mut minus, action).unwrap();
    assert_eq!(plus, minus);
    assert_ne!(plus, json(r#"[0, "ab"]"#));
}

fn documents() -> Vec<JsonValue> {
    vec![
        json("null"),
        json(r#"{"a": 1, "b": [1, 2, 3], "c": {"x": "one", "y": "two"}}"#),
        json(r#"{"a": 1.5, "b": [2, 3, 4], "d": {"x": "one", "y": "two"}}"#),
        json(r#"{"b": [0, 2, 3, 4, 5, [1, {"deep": []}]], "d": {"x": "one and more", "z": 0}}"#),
        json(r#"[1, 2, 3, 4, 5, 6, 7, 8, 9, 10, 11, 12, 13, 14, 15, 16, 17, 18, 19, 20]"#),
        json(r#"[1, 2, 4, 5, 6, 7, 99, 8, 9, 10, 11, 13, 14, 15, 16, 17, 18, 19, 20, 21]"#),
        json(r#"[]"#),
        json(r#"{"text": "the quick brown fox jumps over the lazy dog"}"#),
        json(r#"{"text": "the quick red fox jumped over the lazy dogs", "": {"": ""}}"#),
        json(r#"{"long": "a value that is long enough to be moved or copied", "k": 1}"#),
        json(r#"{"other": "a value that is long enough to be moved or copied", "k": 1}"#),
        json(
            r#"{"other": "a value that is long enough to be moved or copied", "k": 1,
                "third": "a value that is long enough to be moved or copied"}"#,
        ),
        float(0.25),
        json("true"),
    ]
}

#[test]
fn consumer_follows_producer_through_every_change() {
    for array_patches in [false, true] {
        for from in documents() {
            for to in documents() {
                let mut producer = Producer::new(from.clone());
                producer.set_array_patches(array_patches);
                let mut consumer = Consumer::new();
                consumer
                    .consume(&producer.get_message().unwrap().unwrap())
                    .unwrap();
                assert_eq!(consumer.document(), Some(&from));

                producer.update(to.clone());
                match producer.get_message().unwrap() {
                    Some(message) => consumer.consume(&message).unwrap(),
                    None => assert_eq!(from, to),
                }
                assert_eq!(consumer.document(), Some(&to));
                assert_eq!(producer.get_message().unwrap(), None);
            }
        }
    }
}

#[test]
fn consumer_follows_producer_through_a_session() {
    let mut producer = Producer::new(json("{}"));
    producer.set_array_patches(true);
    let mut consumer = Consumer::new();
    for round in 0..3 {
        for document in documents() {
            producer.update(document);
            if let Some(message) = producer.get_message().unwrap() {
                consumer.consume(&message).unwrap();
            }
            assert_eq!(consumer.document(), Some(producer.document()), "{round}");
        }
    }
}

#[test]
fn changed_documents_have_a_plan_that_costs_no_more_than_replacing() {
    let pool = ProducerPathSegmentPool::new();
    for array_patches in [false, true] {
        for from in documents() {
            for to in documents() {
                let plan = build_diff(&from, &to, &[], &pool, array_patches).unwrap();
                assert_eq!(plan.actions.is_empty(), from == to);
                assert_eq!(
                    plan.cost,
                    estimate_plan_cost(&plan.actions, &pool).unwrap()
                );
                let path = [key("at"), key("in")];
                let plan = build_diff(&from, &to, &path, &pool, array_patches).unwrap();
                let replace = [Action::Replace {
                    path: path.to_vec(),
                    value: to.clone(),
                }];
                assert!(plan.cost <= estimate_plan_cost(&replace, &pool).unwrap());
            }
        }
    }
}

#[test]
fn values_are_replaced_where_that_is_cheaper() {
    let pool = ProducerPathSegmentPool::new();
    let from = json(r#"{"a": 0, "b": 0, "c": [0], "d": 0}"#);
    let to = json(r#"{"a": 1, "b": 1, "c": [1], "d": 1}"#);
    let plan = build_diff(&from, &to, &[], &pool, false).unwrap();
    assert_eq!(
        plan.actions,
        vec![Action::Replace {
            path: Vec::new(),
            value: to,
        }]
    );

    let from = json(r#"["A", "B", "C"]"#);
    let to = json(r#"["A"]"#);
    let list = [key("list")];
    let remove = |index: usize| Action::Remove {
        path: vec![key("list"), PathSegment::Index(index)],
    };
    let plan = build_diff(&from, &to, &list, &pool, false).unwrap();
    assert_eq!(plan.actions, vec![remove(2), remove(1)]);
    for (path, array_patches) in [
        (list.to_vec(), true),
        (Vec::new(), false),
        (vec![PathSegment::Index(0)], false),
        (vec![key("in"), key("list")], false),
    ] {
        let plan = build_diff(&from, &to, &path, &pool, array_patches).unwrap();
        assert_eq!(
            plan.actions,
            vec![Action::Replace {
                path,
                value: to.clone(),
            }]
        );
    }
}

#[test]
fn object_plans_are_empty_just_for_objects_that_are_the_same() {
    let old = object(r#"{"a": 1, "gone": "text", "kept": [1, 2]}"#);
    let new = object(r#"{"a": 2, "kept": [1, 2, 3], "more": {}}"#);
    let pool = ProducerPathSegmentPool::new();
    let path = [key("in"), PathSegment::Index(1)];
    let plan = diff_objects(&old, &new, &path, &pool, false).unwrap();
    let mut document = json(r#"{"in": [0, {"a": 1, "gone": "text", "kept": [1, 2]}], "out": 0}"#);
    for action in plan.actions {
        apply_action(&mut document, action).unwrap();
    }
    assert_eq!(
        document,
        json(r#"{"in": [0, {"a": 2, "kept": [1, 2, 3], "more": {}}], "out": 0}"#)
    );
    let plan = diff_objects(&old, &old, &path, &pool, false).unwrap();
    assert!(plan.actions.is_empty());
}

fn object(text: &str) -> StringMap<JsonValue> {
    match json(text) {
        JsonValue::Object(map) => map,
        other => panic!("expected an object, got {other:?}"),
    }
}

#[test]
fn documents_without_dashes_have_accepted_plans() {
    let text = "a value that is long enough to be moved rather than sent again";
    let from = json(&format!(r#"{{"kept": "{text}", "old": ["{text}"]}}"#));
    let to = json(&format!(r#"{{"-": ["{text}"], "copy": "{text}", "kept": "{text}"}}"#));
    let mut producer = Producer::new(from);
    let mut consumer = Consumer::new();
    consumer
        .consume(&producer.get_message().unwrap().unwrap())
        .unwrap();
    producer.update(to.clone());
    let message = producer.get_message().unwrap().unwrap();
    assert_eq!(
        consumer.decode_message_dry_run(&message).unwrap().actions,
        vec![
            Action::Move {
                from: vec![key("old")],
                path: vec![key("-")],
            },
            Action::Copy {
                from: vec![key("kept")],
                path: vec![key("copy")],
            },
        ]
    );
    consumer.consume(&message).unwrap();
    assert_eq!(consumer.document(), Some(&to));
}

#[test]
fn each_run_of_a_script_is_one_edit() {
    let new: Vec<char> = "aXYcdZ".chars().collect();
    let script = [
        EditOp::Keep,
        EditOp::Delete,
        EditOp::Insert(1),
        EditOp::Insert(2),
        EditOp::Keep,
        EditOp::Keep,
        EditOp::Insert(5),
    ];
    assert_eq!(
        string_edit_ops_to_patch_edits(&script, &new, 10),
        vec![
            StringPatchEdit {
                start: 14,
                delete_count: 0,
                text: "Z".to_string(),
            },
            StringPatchEdit {
                start: 11,
                delete_count: 1,
                text: "XY".to_string(),
            },
        ]
    );
    let kept = [EditOp::Keep, EditOp::Keep];
    assert!(string_edit_ops_to_patch_edits(&kept, &new[..2], 0).is_empty());
}

#[test]
fn a_suffix_does_not_overlap_the_given_prefix() {
    assert_eq!(common_suffix_len(&['a', 'a'], &['a', 'a', 'a'], 2), 0);
    assert_eq!(common_suffix_len(&['a', 'a'], &['a', 'a', 'a'], 1), 1);
    assert_eq!(common_suffix_len(&['x', 'b', 'c'], &['y', 'b', 'c'], 0), 2);
}

#[test]
fn array_patches_are_sent_only_where_they_are_allowed() {
    let from = documents().remove(4);
    let to = documents().remove(5);
    let pool = ProducerPathSegmentPool::new();
    let plan = build_diff(&from, &to, &[], &pool, true).unwrap();
    assert_eq!(
        plan.actions,
        vec![Action::ArrayPatch {
            path: Vec::new(),
            edits: vec![
                ArrayPatchEdit {
                    start: 20,
                    delete_count: 0,
                    values: vec![json("21")],
                },
                ArrayPatchEdit {
                    start: 11,
                    delete_count: 1,
                    values: Vec::new(),
                },
                ArrayPatchEdit {
                    start: 7,
                    delete_count: 0,
                    values: vec![json("99")],
                },
                ArrayPatchEdit {
                    start: 2,
                    delete_count: 1,
                    values: Vec::new(),
                },
            ],
        }]
    );
    let plan = build_diff(&from, &to, &[], &pool, false).unwrap();
    assert_eq!(
        plan.actions,
        vec![Action::Replace {
            path: Vec::new(),
            value: to,
        }]
    );
}

#[test]
fn estimate_is_the_length_of_the_message_without_floats() {
    let pool = ProducerPathSegmentPool::new();
    let actions: Vec<Action> = every_action().into_iter().skip(1).collect();
    let estimate = estimate_plan_cost(&actions, &pool).unwrap();
    assert_eq!(
        encoded_plan_cost_for_debug(actions, &pool).unwrap(),
        estimate
    );

    let half = vec![Action::Snapshot { value: float(2.5) }];
    let estimate = estimate_plan_cost(&half, &pool).unwrap();
    assert_eq!(
        encoded_plan_cost_for_debug(half, &pool).unwrap(),
        estimate - 6
    );
    assert_eq!(encoded_plan_cost_for_debug(Vec::new(), &pool).unwrap(), 0);
}

#[test]
fn scripts_are_shortest() {
    let old: Vec<char> = "ABCABBA".chars().collect();
    let new: Vec<char> = "CBABAC".chars().collect();
    let script = myers_diff(&old, &new);
    let edits = script.iter().filter(|op| **op != EditOp::Keep).count();
    assert_eq!(edits, 5);

    let mut cursor = 0;
    let mut made = Vec::new();
    for op in &script {
        match op {
            EditOp::Keep => {
                made.push(old[cursor]);
                cursor += 1;
            }
            EditOp::Delete => cursor += 1,
            EditOp::Insert(index) => made.push(new[*index]),
        }
    }
    assert_eq!(cursor, old.len());
    assert_eq!(made, new);

    assert_eq!(myers_diff::<char>(&[], &[]), Vec::new());
    assert_eq!(myers_diff(&['x'], &[]), vec![EditOp::Delete]);
    assert_eq!(myers_diff(&[], &['x']), vec![EditOp::Insert(0)]);
}

#[test]
fn equal_values_have_equal_digests() {
    let plus = digest_value(&float(0.0)).unwrap();
    let minus = digest_value(&float(-0.0)).unwrap();
    assert!(same_digest(&plus, &minus));
    assert!(same_digest(&plus, &digest_value(&json("0")).unwrap()));
    assert!(!same_digest(&plus, &digest_value(&json("1")).unwrap()));
    assert!(!same_digest(
        &digest_value(&json(r#"["a", "b"]"#)).unwrap(),
        &digest_value(&json(r#"["ab"]"#)).unwrap()
    ));
    assert_eq!(
        digest_value(&JsonValue::Null).unwrap(),
        *blake3::hash(b"N").as_bytes()
    );
    assert_eq!(
        digest_value(&JsonValue::Bool(true)).unwrap(),
        *blake3::hash(b"B1").as_bytes()
    );
    assert_eq!(
        digest_value(&json("-12")).unwrap(),
        *blake3::hash(b"I\x00\x00\x00\x00\x00\x00\x00\x03-12").as_bytes()
    );
    assert_eq!(
        digest_value(&json(r#"{"k": [2.0]}"#)).unwrap(),
        *blake3::hash(
            b"O\x00\x00\x00\x00\x00\x00\x00\x01K\x00\x00\x00\x00\x00\x00\x00\x01kA\x00\x00\x00\x00\x00\x00\x00\x01I\x00\x00\x00\x00\x00\x00\x00\x012"
        )
        .as_bytes()
    );
    assert_eq!(
        digest_value(&float(1e300)).unwrap_err().kind,
        JsyncErrorKind::InvalidJsonValue
    );
}

#[test]
fn values_that_only_share_a_digest_are_not_moved() {
    let long = "0.0, 0.0, 0.0, 0.0, 0.0, 0.0, 0.0, 0.0, 0.0, 0.0, 0.0, 0.0, 0.0, 0.0, 0.0";
    let from = json(&format!(r#"{{"a": [{long}], "keep": "some text"}}"#));
    let to = json(&format!(
        r#"{{"b": [{}], "keep": "some text"}}"#,
        long.replace("0.0", "0")
    ));
    let pool = ProducerPathSegmentPool::new();
    let plan = build_diff(&from, &to, &[], &pool, false).unwrap();
    assert!(plan
        .actions
        .iter()
        .all(|action| !matches!(action, Action::Move { .. })));
}

#[test]
fn pool_indexes_are_stable() {
    let mut pool = ProducerPathSegmentPool::new();
    let mut txn = pool.transaction();
    assert_eq!(txn.index_for(&key("a")), 0);
    assert_eq!(txn.index_for(&PathSegment::Index(3)), 1);
    assert_eq!(txn.index_for(&key("a")), 0);
    assert_eq!(txn.appended_segments(), &[key("a"), PathSegment::Index(3)]);
    txn.commit();

    let mut txn = pool.transaction();
    assert_eq!(txn.index_for(&key("b")), 2);
    txn.abort();
    assert_eq!(pool.len(), 2);
    assert_eq!(pool.index_of(&key("b")), None);

    let mut txn = pool.transaction();
    assert_eq!(txn.index_for(&key("c")), 2);
    assert_eq!(txn.index_for(&key("a")), 0);
    txn.commit();
    assert_eq!(pool.index_of(&key("c")), Some(2));
    assert_eq!(pool.index_of(&PathSegment::Index(3)), Some(1));
}

#[test]
fn edits_are_measured_against_the_original() {
    let mut document = json(r#""0123456789""#);
    apply_action(
        &mut document,
        Action::StringPatch {
            path: Vec::new(),
            edits: vec![
                StringPatchEdit {
                    start: 8,
                    delete_count: 1,
                    text: "eight".to_string(),
                },
                StringPatchEdit {
                    start: 4,
                    delete_count: 3,
                    text: String::new(),
                },
                StringPatchEdit {
                    start: 0,
                    delete_count: 0,
                    text: "<".to_string(),
                },
            ],
        },
    )
    .unwrap();
    assert_eq!(document, json(r#""<01237eight9""#));
}

#[test]
fn sources_with_a_dash_are_refused() {
    let long = "a value that is long enough to be moved";
    let mut producer = Producer::new(json(&format!(r#"{{"-": "{long}", "keep": 1}}"#)));
    let mut consumer = Consumer::new();
    consumer
        .consume(&producer.get_message().unwrap().unwrap())
        .unwrap();
    let before = producer.document().clone();

    producer.update(json(&format!(r#"{{"moved": "{long}", "keep": 1}}"#)));
    let message = producer.get_message().unwrap().unwrap();
    assert_eq!(
        consumer.decode_message_dry_run(&message).unwrap(),
        Message::new(vec![Action::Move {
            from: vec![key("-")],
            path: vec![key("moved")],
        }])
    );
    assert_eq!(
        consumer.consume(&message).unwrap_err().kind,
        JsyncErrorKind::InvalidPath
    );
    assert_eq!(consumer.document(), Some(&before));
}

#[test]
fn properties_stay_in_key_order() {
    let mut document = json("{}");
    for name in ["b", "", "é", "a", "aa", "z", "B"] {
        apply_action(
            &mut document,
            Action::Add {
                path: vec![key(name)],
                value: JsonValue::Null,
            },
        )
        .unwrap();
    }
    let names = match &document {
        JsonValue::Object(map) => (0..map.len())
            .map(|at| map.key_at(at).clone())
            .collect::<Vec<_>>(),
        other => panic!("expected an object, got {other:?}"),
    };
    assert_eq!(names, ["", "B", "a", "aa", "b", "z", "é"]);
}

fn nested(depth: usize) -> JsonValue {
    let mut document = JsonValue::Array(Vec::new());
    for _ in 1..depth {
        document = JsonValue::Array(vec![document]);
    }
    document
}

#[test]
fn documents_that_are_not_nested_too_deep_are_delivered() {
    let mut producer = Producer::new(nested(253));
    let mut consumer = Consumer::new();
    consumer
        .consume(&producer.get_message().unwrap().unwrap())
        .unwrap();
    assert_eq!(consumer.document(), Some(producer.document()));

    let mut producer = Producer::new(nested(254));
    let mut consumer = Consumer::new();
    assert_eq!(
        consumer
            .consume(&producer.get_message().unwrap().unwrap())
            .unwrap_err()
            .kind,
        JsyncErrorKind::CborDecode
    );
}

#[test]
fn items_are_read_back_up_to_the_nesting_limit() {
    for (depth, accepted) in [(1, true), (255, true), (256, true), (257, false)] {
        let mut bytes = Vec::new();
        encode_item(&json_to_cbor(&nested(depth)).unwrap(), &mut bytes).unwrap();
        assert_eq!(bytes.len(), depth);
        assert_eq!(decode_item(&bytes).is_ok(), accepted, "{depth}");
    }
}
