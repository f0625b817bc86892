//! Decoding of messages.

use vstd::prelude::*;

use crate::cbor;
use crate::cbor::{Cbor, CborValue};
use crate::error;
use crate::error::{ErrorModel, JsyncError, JsyncErrorKind};
use crate::json;
use crate::json::{Json, JsonValue};
use crate::message::action;
use crate::message::action::{
    Act, Action, ArrayPatchEdit, Edit, PathSegment, Segment, StringPatchEdit,
};
use crate::message::encoder;
use crate::message::json_cbor;
use crate::message::opcode;
use crate::message::pool::ConsumerPathSegmentPoolTransaction;
use crate::text;

verus! {

/// The error for a message without a valid header, if it has none.
pub open spec fn header_error(bytes: Seq<u8>) -> Option<ErrorModel> {
    if bytes.len() >= 3 && bytes.take(3) == encoder::header() {
        None
    } else if bytes.len() >= 3 && bytes[0] == 0xd9 && bytes[1] == 0xff && bytes[2] > 1 {
        Some(
            error::failure(
                JsyncErrorKind::UnsupportedVersion,
                "The Jsync version is unsupported."@,
            ).with_metadata("version"@, text::decimal(bytes[2] as int)).with_metadata(
                "expected"@,
                "1"@,
            ),
        )
    } else {
        Some(
            error::failure(
                JsyncErrorKind::InvalidHeader,
                "The message is not a valid Jsync message or its version is newer."@,
            ).with_metadata("expected"@, "0xd9ff01"@),
        )
    }
}

/// The payload of a message.
pub open spec fn payload_of(bytes: Seq<u8>) -> Result<Cbor, ErrorModel> {
    match header_error(bytes) {
        Some(e) => Err(e),
        None => match cbor::cbor_parse(bytes.skip(3)) {
            None => Err(
                error::failure(
                    JsyncErrorKind::CborDecode,
                    "The Jsync payload could not be decoded as CBOR."@,
                ).with_source(),
            ),
            Some((item, length)) => if length != bytes.len() - 3 {
                Err(
                    error::failure(
                        JsyncErrorKind::TrailingBytes,
                        "The Jsync payload contains trailing bytes."@,
                    ).with_metadata("remaining"@, text::decimal(bytes.len() - 3 - length)),
                )
            } else {
                Ok(item)
            },
        },
    }
}

/// Validates the header, and decodes the one CBOR item behind it.
pub fn decode_payload(message: &[u8]) -> (result: Result<CborValue, JsyncError>)
    ensures
        match result {
            Ok(payload) => payload_of(message@) == Ok::<Cbor, ErrorModel>(payload@),
            Err(e) => payload_of(message@) == Err::<Cbor, ErrorModel>(e@),
        },
{
    let length: usize = message.len();
    if length < 3 || message[0] != 0xd9 || message[1] != 0xff || message[2] != 0x01 {
        proof {
            if length >= 3 {
                assert(message@.take(3)[0] == message@[0]);
                assert(message@.take(3)[1] == message@[1]);
                assert(message@.take(3)[2] == message@[2]);
            }
        }
        if length >= 3 && message[0] == 0xd9 && message[1] == 0xff && message[2] > 1 {
            return Err(
                JsyncError::new(
                    JsyncErrorKind::UnsupportedVersion,
                    "The Jsync version is unsupported.",
                ).with_metadata(
                    "version",
                    text::count_text(message[2] as usize).as_str(),
                ).with_metadata("expected", "1"),
            );
        }
        return Err(
            JsyncError::new(
                JsyncErrorKind::InvalidHeader,
                "The message is not a valid Jsync message or its version is newer.",
            ).with_metadata("expected", "0xd9ff01"),
        );
    }
    assert(message@.take(3) =~= encoder::header());
    let payload: &[u8] = vstd::slice::slice_subrange(message, 3, length);
    assert(payload@ =~= message@.skip(3));
    match cbor::decode_item(payload) {
        Ok((item, read)) => {
            if read != payload.len() as u64 {
                Err(
                    JsyncError::new(
                        JsyncErrorKind::TrailingBytes,
                        "The Jsync payload contains trailing bytes.",
                    ).with_metadata(
                        "remaining",
                        text::decimal_text(payload.len() as i128 - read as i128).as_str(),
                    ),
                )
            } else {
                Ok(item)
            }
        },
        Err(source) => Err(
            JsyncError::new(
                JsyncErrorKind::CborDecode,
                "The Jsync payload could not be decoded as CBOR.",
            ).with_source(source),
        ),
    }
}

/// The error for an array of the wrong length.
pub open spec fn length_error(actual: int, expected: int) -> ErrorModel {
    error::failure(
        JsyncErrorKind::InvalidActionLength,
        "The Jsync action has an invalid number of elements."@,
    ).with_metadata("expected"@, text::decimal(expected)).with_metadata(
        "actual"@,
        text::decimal(actual),
    )
}

/// Validates the exact number of elements required by an action opcode.
pub fn require_action_length(actual: usize, expected: usize) -> (result: Result<(), JsyncError>)
    ensures
        result is Ok == (actual == expected),
        result matches Err(e) ==> e@ == length_error(actual as int, expected as int),
{
    if actual == expected {
        Ok(())
    } else {
        Err(
            JsyncError::new(
                JsyncErrorKind::InvalidActionLength,
                "The Jsync action has an invalid number of elements.",
            ).with_metadata("expected", text::count_text(expected).as_str()).with_metadata(
                "actual",
                text::count_text(actual).as_str(),
            ),
        )
    }
}

/// An error for a path.
pub open spec fn path_error(message: Seq<char>) -> ErrorModel {
    error::failure(JsyncErrorKind::InvalidPath, message)
}

/// The path segment that an item at a position declares.
pub open spec fn parse_segment(item: Cbor, at: int) -> Result<Segment, ErrorModel> {
    match item {
        Cbor::Text(key) => Ok(Segment::Key(key)),
        Cbor::Integer(n) => if n < 0 {
            Err(
                path_error("A path index must be non-negative."@).with_metadata(
                    "segment"@,
                    text::decimal(n),
                ).with_metadata("segment_index"@, text::decimal(at)),
            )
        } else if n > usize::MAX {
            Err(
                path_error("A path index is too large."@).with_metadata(
                    "segment"@,
                    text::decimal(n),
                ).with_metadata("segment_index"@, text::decimal(at)),
            )
        } else {
            Ok(Segment::Index(n))
        },
        _ => Err(
            path_error(
                "A path segment must be a string or non-negative integer."@,
            ).with_metadata("segment_index"@, text::decimal(at)),
        ),
    }
}

/// The results of reading the items of an array as path segments.
pub open spec fn segment_results(items: Seq<Cbor>) -> Seq<Result<Segment, ErrorModel>> {
    Seq::new(items.len(), |i: int| parse_segment(items[i], i))
}

/// The path segments that an item declares.
pub open spec fn parse_segments(item: Cbor) -> Result<Seq<Segment>, ErrorModel> {
    match item {
        Cbor::Array(items) => error::gather(segment_results(items), items.len()),
        _ => Err(path_error("The path must be an array."@)),
    }
}

fn segment_error(message: &str, integer: i128, at: usize) -> (error: JsyncError)
    ensures
        error@ == path_error(message@).with_metadata(
            "segment"@,
            text::decimal(integer as int),
        ).with_metadata("segment_index"@, text::decimal(at as int)),
{
    JsyncError::new(JsyncErrorKind::InvalidPath, message).with_metadata(
        "segment",
        text::decimal_text(integer).as_str(),
    ).with_metadata("segment_index", text::count_text(at).as_str())
}

fn parse_path_segment(item: CborValue, at: usize) -> (result: Result<PathSegment, JsyncError>)
    ensures
        match result {
            Ok(segment) => parse_segment(item@, at as int) == Ok::<Segment, ErrorModel>(segment@),
            Err(e) => parse_segment(item@, at as int) == Err::<Segment, ErrorModel>(e@),
        },
{
    match item {
        CborValue::Text(key) => Ok(PathSegment::Key(key)),
        CborValue::Integer(integer) => {
            if integer < 0 {
                Err(segment_error("A path index must be non-negative.", integer, at))
            } else if integer > usize::MAX as i128 {
                Err(segment_error("A path index is too large.", integer, at))
            } else {
                Ok(PathSegment::Index(integer as usize))
            }
        },
        _ => Err(
            JsyncError::new(
                JsyncErrorKind::InvalidPath,
                "A path segment must be a string or non-negative integer.",
            ).with_metadata("segment_index", text::count_text(at).as_str()),
        ),
    }
}

/// Reads the path segments that a message's metadata declares.
pub fn parse_path_segments(value: CborValue) -> (result: Result<Vec<PathSegment>, JsyncError>)
    ensures
        match result {
            Ok(segments) => parse_segments(value@) == Ok::<Seq<Segment>, ErrorModel>(
                action::path_view(segments@),
            ),
            Err(e) => parse_segments(value@) == Err::<Seq<Segment>, ErrorModel>(e@),
        },
{
    broadcast use cbor::lemma_cbor_array_view;

    match value {
        CborValue::Array(path) => {
            let ghost items = cbor::cbor_views(path@);
            let ghost results = segment_results(items);
            let mut segments: Vec<PathSegment> = Vec::new();
            let count: usize = path.len();
            let mut at: usize = 0;
            assert(action::path_view(segments@) =~= Seq::empty());
            for item in iter: path
                invariant
                    iter.seq() == path@,
                    at == iter.index(),
                    at <= count == path@.len(),
                    items == cbor::cbor_views(path@),
                    results == segment_results(items),
                    parse_segments(value@) == error::gather(results, results.len()),
                    error::gather(results, at as nat) == Ok::<Seq<Segment>, ErrorModel>(
                        action::path_view(segments@),
                    ),
            {
                assert(items[at as int] == path@[at as int]@);
                assert(results[at as int] == parse_segment(item@, at as int));
                match parse_path_segment(item, at) {
                    Ok(segment) => {
                        let ghost before = action::path_view(segments@);
                        segments.push(segment);
                        assert(action::path_view(segments@) =~= before.push(segment@));
                    },
                    Err(e) => {
                        proof {
                            error::lemma_gather_error(results, at as nat + 1);
                        }
                        return Err(e);
                    },
                }
                at = at + 1;
            }
            Ok(segments)
        },
        _ => Err(JsyncError::new(JsyncErrorKind::InvalidPath, "The path must be an array.")),
    }
}

/// The path segment to which an index at a position of a path refers.
pub open spec fn parse_pool_index(item: Cbor, at: int, pool: Seq<Segment>) -> Result<
    Segment,
    ErrorModel,
> {
    match item {
        Cbor::Integer(n) => if n < 0 {
            Err(
                path_error("A path segment pool index must be non-negative."@).with_metadata(
                    "segment"@,
                    text::decimal(n),
                ).with_metadata("segment_index"@, text::decimal(at)),
            )
        } else if n > usize::MAX {
            Err(
                path_error("A path segment pool index is too large."@).with_metadata(
                    "segment"@,
                    text::decimal(n),
                ).with_metadata("segment_index"@, text::decimal(at)),
            )
        } else if n >= pool.len() {
            Err(
                path_error(
                    "A path segment pool index is outside the current pool."@,
                ).with_metadata("index"@, text::decimal(n)).with_metadata(
                    "length"@,
                    text::decimal(pool.len() as int),
                ).with_metadata("segment_index"@, text::decimal(at)),
            )
        } else {
            Ok(pool[n])
        },
        _ => Err(
            path_error(
                "A path segment pool index must be a non-negative integer."@,
            ).with_metadata("segment_index"@, text::decimal(at)),
        ),
    }
}

/// The results of reading the items of an array as indexes of path segments.
pub open spec fn pool_index_results(items: Seq<Cbor>, pool: Seq<Segment>) -> Seq<
    Result<Segment, ErrorModel>,
> {
    Seq::new(items.len(), |i: int| parse_pool_index(items[i], i, pool))
}

/// The path to which an item refers.
pub open spec fn parse_path(item: Cbor, pool: Seq<Segment>) -> Result<Seq<Segment>, ErrorModel> {
    match item {
        Cbor::Array(items) => error::gather(pool_index_results(items, pool), items.len()),
        _ => Err(path_error("The path must be an array."@)),
    }
}

fn parse_pooled_segment(
    item: CborValue,
    at: usize,
    txn: &ConsumerPathSegmentPoolTransaction<'_>,
) -> (result: Result<PathSegment, JsyncError>)
    ensures
        match result {
            Ok(segment) => parse_pool_index(item@, at as int, txn.total()) == Ok::<
                Segment,
                ErrorModel,
            >(segment@),
            Err(e) => parse_pool_index(item@, at as int, txn.total()) == Err::<
                Segment,
                ErrorModel,
            >(e@),
        },
{
    match item {
        CborValue::Integer(integer) => {
            if integer < 0 {
                return Err(
                    segment_error("A path segment pool index must be non-negative.", integer, at),
                );
            }
            if integer > usize::MAX as i128 {
                return Err(segment_error("A path segment pool index is too large.", integer, at));
            }
            let index: usize = integer as usize;
            match txn.path_segment_at(index) {
                Some(segment) => Ok(segment),
                None => Err(
                    JsyncError::new(
                        JsyncErrorKind::InvalidPath,
                        "A path segment pool index is outside the current pool.",
                    ).with_metadata("index", text::count_text(index).as_str()).with_metadata(
                        "length",
                        text::count_text(txn.pool_len()).as_str(),
                    ).with_metadata("segment_index", text::count_text(at).as_str()),
                ),
            }
        },
        _ => Err(
            JsyncError::new(
                JsyncErrorKind::InvalidPath,
                "A path segment pool index must be a non-negative integer.",
            ).with_metadata("segment_index", text::count_text(at).as_str()),
        ),
    }
}

/// Reads a path, whose segments are given by their indexes in the pool.
pub fn parse_pooled_path_with_txn(
    value: CborValue,
    txn: &ConsumerPathSegmentPoolTransaction<'_>,
) -> (result: Result<Vec<PathSegment>, JsyncError>)
    ensures
        match result {
            Ok(path) => parse_path(value@, txn.total()) == Ok::<Seq<Segment>, ErrorModel>(
                action::path_view(path@),
            ),
            Err(e) => parse_path(value@, txn.total()) == Err::<Seq<Segment>, ErrorModel>(e@),
        },
{
    broadcast use cbor::lemma_cbor_array_view;

    match value {
        CborValue::Array(path) => {
            let ghost items = cbor::cbor_views(path@);
            let ghost results = pool_index_results(items, txn.total());
            let mut segments: Vec<PathSegment> = Vec::new();
            let count: usize = path.len();
            let mut at: usize = 0;
            assert(action::path_view(segments@) =~= Seq::empty());
            for item in iter: path
                invariant
                    iter.seq() == path@,
                    at == iter.index(),
                    at <= count == path@.len(),
                    items == cbor::cbor_views(path@),
                    results == pool_index_results(items, txn.total()),
                    parse_path(value@, txn.total()) == error::gather(results, results.len()),
                    error::gather(results, at as nat) == Ok::<Seq<Segment>, ErrorModel>(
                        action::path_view(segments@),
                    ),
            {
                assert(items[at as int] == path@[at as int]@);
                assert(results[at as int] == parse_pool_index(item@, at as int, txn.total()));
                match parse_pooled_segment(item, at, txn) {
                    Ok(segment) => {
                        let ghost before = action::path_view(segments@);
                        segments.push(segment);
                        assert(action::path_view(segments@) =~= before.push(segment@));
                    },
                    Err(e) => {
                        proof {
                            error::lemma_gather_error(results, at as nat + 1);
                        }
                        return Err(e);
                    },
                }
                at = at + 1;
            }
            Ok(segments)
        },
        _ => Err(JsyncError::new(JsyncErrorKind::InvalidPath, "The path must be an array.")),
    }
}

/// How the paths of actions are written.
pub enum Notation {
    /// By the indexes of their segments in a pool.
    Pooled(Seq<Segment>),
    /// Segment by segment.
    Inline,
}

/// The path that an item stands for.
pub open spec fn read_path(item: Cbor, notation: Notation) -> Result<Seq<Segment>, ErrorModel> {
    match notation {
        Notation::Pooled(pool) => parse_path(item, pool),
        Notation::Inline => parse_segments(item),
    }
}

/// The notation of paths: by the pool of a transaction, or inline where there is none.
pub open spec fn notation(names: Option<&ConsumerPathSegmentPoolTransaction<'_>>) -> Notation {
    match names {
        Some(txn) => Notation::Pooled(txn.total()),
        None => Notation::Inline,
    }
}

/// Reads a path in the given notation.
fn parse_action_path(
    value: CborValue,
    names: Option<&ConsumerPathSegmentPoolTransaction<'_>>,
) -> (result: Result<Vec<PathSegment>, JsyncError>)
    ensures
        match result {
            Ok(path) => read_path(value@, notation(names)) == Ok::<Seq<Segment>, ErrorModel>(
                action::path_view(path@),
            ),
            Err(e) => read_path(value@, notation(names)) == Err::<Seq<Segment>, ErrorModel>(e@),
        },
{
    match names {
        Some(txn) => parse_pooled_path_with_txn(value, txn),
        None => parse_path_segments(value),
    }
}

/// The text that an item is.
pub open spec fn parse_text_item(item: Cbor) -> Result<Seq<char>, ErrorModel> {
    match item {
        Cbor::Text(s) => Ok(s),
        _ => Err(
            json_cbor::not_json("The string patch text must be a CBOR text string."@),
        ),
    }
}

/// Reads a text.
pub fn parse_text(value: CborValue) -> (result: Result<String, JsyncError>)
    ensures
        match result {
            Ok(s) => parse_text_item(value@) == Ok::<Seq<char>, ErrorModel>(s@),
            Err(e) => parse_text_item(value@) == Err::<Seq<char>, ErrorModel>(e@),
        },
{
    match value {
        CborValue::Text(s) => Ok(s),
        _ => Err(
            JsyncError::new(
                JsyncErrorKind::InvalidJsonValue,
                "The string patch text must be a CBOR text string.",
            ),
        ),
    }
}

/// The offset or count that an item is.
pub open spec fn parse_count(item: Cbor) -> Result<int, ErrorModel> {
    match item {
        Cbor::Integer(n) => if n < 0 {
            Err(
                json_cbor::not_json("The value must be non-negative."@).with_metadata(
                    "value"@,
                    text::decimal(n),
                ),
            )
        } else if n > usize::MAX {
            Err(
                json_cbor::not_json("The value is too large."@).with_metadata(
                    "value"@,
                    text::decimal(n),
                ),
            )
        } else {
            Ok(n)
        },
        _ => Err(json_cbor::not_json("The value must be a non-negative integer."@)),
    }
}

/// Reads an offset or a count.
pub fn parse_usize(value: CborValue) -> (result: Result<usize, JsyncError>)
    ensures
        match result {
            Ok(n) => parse_count(value@) == Ok::<int, ErrorModel>(n as int),
            Err(e) => parse_count(value@) == Err::<int, ErrorModel>(e@),
        },
{
    match value {
        CborValue::Integer(integer) => {
            if integer < 0 {
                Err(
                    JsyncError::new(
                        JsyncErrorKind::InvalidJsonValue,
                        "The value must be non-negative.",
                    ).with_metadata("value", text::decimal_text(integer).as_str()),
                )
            } else if integer > usize::MAX as i128 {
                Err(
                    JsyncError::new(
                        JsyncErrorKind::InvalidJsonValue,
                        "The value is too large.",
                    ).with_metadata("value", text::decimal_text(integer).as_str()),
                )
            } else {
                Ok(integer as usize)
            }
        },
        _ => Err(
            JsyncError::new(
                JsyncErrorKind::InvalidJsonValue,
                "The value must be a non-negative integer.",
            ),
        ),
    }
}

/// The string patch edit that an item is.
pub open spec fn parse_string_edit(item: Cbor) -> Result<Edit<char>, ErrorModel> {
    match item {
        Cbor::Array(elements) => if elements.len() != 3 {
            Err(length_error(elements.len() as int, 3))
        } else {
            match parse_count(elements[0]) {
                Err(e) => Err(e.with_context("while decoding the STRING_PATCH edit start"@)),
                Ok(start) => match parse_count(elements[1]) {
                    Err(e) => Err(
                        e.with_context("while decoding the STRING_PATCH edit delete count"@),
                    ),
                    Ok(delete_count) => match parse_text_item(elements[2]) {
                        Err(e) => Err(e.with_context("while decoding the STRING_PATCH edit text"@)),
                        Ok(items) => Ok(Edit { start, delete_count, items }),
                    },
                },
            }
        },
        _ => Err(json_cbor::not_json("A STRING_PATCH edit must be an array."@)),
    }
}

/// What is reported of an error in the edit at a position.
pub open spec fn edit_error(e: ErrorModel, at: int, context: Seq<char>) -> ErrorModel {
    e.with_metadata("edit_index"@, text::decimal(at)).with_context(context)
}

/// The results of reading the items of an array as string patch edits.
pub open spec fn string_edit_results(items: Seq<Cbor>) -> Seq<Result<Edit<char>, ErrorModel>> {
    Seq::new(
        items.len(),
        |i: int|
            match parse_string_edit(items[i]) {
                Ok(edit) => Ok(edit),
                Err(e) => Err(edit_error(e, i, "while decoding a STRING_PATCH edit"@)),
            },
    )
}

/// The string patch edits that an item is.
pub open spec fn parse_string_edits(item: Cbor) -> Result<Seq<Edit<char>>, ErrorModel> {
    match item {
        Cbor::Array(items) => error::gather(string_edit_results(items), items.len()),
        _ => Err(json_cbor::not_json("The STRING_PATCH edits must be an array."@)),
    }
}

/// Takes the elements of an array of three apart.
fn three(elements: Vec<CborValue>) -> (parts: (CborValue, CborValue, CborValue))
    requires
        elements@.len() == 3,
    ensures
        parts.0 == elements@[0],
        parts.1 == elements@[1],
        parts.2 == elements@[2],
{
    let mut elements = elements;
    let third = elements.pop().unwrap();
    let second = elements.pop().unwrap();
    let first = elements.pop().unwrap();
    (first, second, third)
}

/// Reads a string patch edit.
pub fn parse_string_patch_edit(value: CborValue) -> (result: Result<StringPatchEdit, JsyncError>)
    ensures
        match result {
            Ok(edit) => parse_string_edit(value@) == Ok::<Edit<char>, ErrorModel>(edit@),
            Err(e) => parse_string_edit(value@) == Err::<Edit<char>, ErrorModel>(e@),
        },
{
    broadcast use cbor::lemma_cbor_array_view;

    match value {
        CborValue::Array(edit) => {
            assert(value@ == Cbor::Array(cbor::cbor_views(edit@)));
            assert(cbor::cbor_views(edit@).len() == edit@.len());
            if let Err(e) = require_action_length(edit.len(), 3) {
                return Err(e);
            }
            proof {
                assert(cbor::cbor_views(edit@)[0] == edit@[0]@);
                assert(cbor::cbor_views(edit@)[1] == edit@[1]@);
                assert(cbor::cbor_views(edit@)[2] == edit@[2]@);
            }
            let (start, delete_count, string) = three(edit);
            let start: usize = match parse_usize(start) {
                Ok(start) => start,
                Err(e) => {
                    return Err(e.with_context("while decoding the STRING_PATCH edit start"));
                },
            };
            let delete_count: usize = match parse_usize(delete_count) {
                Ok(delete_count) => delete_count,
                Err(e) => {
                    return Err(e.with_context("while decoding the STRING_PATCH edit delete count"));
                },
            };
            match parse_text(string) {
                Ok(text) => Ok(StringPatchEdit { start, delete_count, text }),
                Err(e) => Err(e.with_context("while decoding the STRING_PATCH edit text")),
            }
        },
        _ => Err(
            JsyncError::new(
                JsyncErrorKind::InvalidJsonValue,
                "A STRING_PATCH edit must be an array.",
            ),
        ),
    }
}

/// Reads string patch edits.
pub fn parse_string_patch_edits(value: CborValue) -> (result: Result<
    Vec<StringPatchEdit>,
    JsyncError,
>)
    ensures
        match result {
            Ok(edits) => parse_string_edits(value@) == Ok::<Seq<Edit<char>>, ErrorModel>(
                action::string_edit_views(edits@),
            ),
            Err(e) => parse_string_edits(value@) == Err::<Seq<Edit<char>>, ErrorModel>(e@),
        },
{
    broadcast use cbor::lemma_cbor_array_view;

    match value {
        CborValue::Array(raw) => {
            let ghost items = cbor::cbor_views(raw@);
            let ghost results = string_edit_results(items);
            let mut edits: Vec<StringPatchEdit> = Vec::new();
            let count: usize = raw.len();
            let mut at: usize = 0;
            assert(action::string_edit_views(edits@) =~= Seq::empty());
            for item in iter: raw
                invariant
                    iter.seq() == raw@,
                    at == iter.index(),
                    at <= count == raw@.len(),
                    items == cbor::cbor_views(raw@),
                    results == string_edit_results(items),
                    parse_string_edits(value@) == error::gather(results, results.len()),
                    error::gather(results, at as nat) == Ok::<Seq<Edit<char>>, ErrorModel>(
                        action::string_edit_views(edits@),
                    ),
            {
                assert(items[at as int] == raw@[at as int]@);
                assert(results[at as int] == match parse_string_edit(item@) {
                    Ok(edit) => Ok::<Edit<char>, ErrorModel>(edit),
                    Err(e) => Err(edit_error(e, at as int, "while decoding a STRING_PATCH edit"@)),
                });
                match parse_string_patch_edit(item) {
                    Ok(edit) => {
                        let ghost before = action::string_edit_views(edits@);
                        edits.push(edit);
                        assert(action::string_edit_views(edits@) =~= before.push(edit@));
                    },
                    Err(e) => {
                        proof {
                            error::lemma_gather_error(results, at as nat + 1);
                        }
                        return Err(
                            e.with_metadata(
                                "edit_index",
                                text::count_text(at).as_str(),
                            ).with_context("while decoding a STRING_PATCH edit"),
                        );
                    },
                }
                at = at + 1;
            }
            Ok(edits)
        },
        _ => Err(
            JsyncError::new(
                JsyncErrorKind::InvalidJsonValue,
                "The STRING_PATCH edits must be an array.",
            ),
        ),
    }
}

/// The values that an item of an array patch edit is.
pub open spec fn parse_edit_values(item: Cbor) -> Result<Seq<Json>, ErrorModel> {
    match item {
        Cbor::Array(items) => error::in_context(
            json_cbor::from_cbor_items(items, items.len()),
            "while decoding the ARRAY_PATCH edit values"@,
        ),
        _ => Err(json_cbor::not_json("The ARRAY_PATCH edit values must be an array."@)),
    }
}

/// The array patch edit that an item is.
pub open spec fn parse_array_edit(item: Cbor) -> Result<Edit<Json>, ErrorModel> {
    match item {
        Cbor::Array(elements) => if elements.len() != 3 {
            Err(length_error(elements.len() as int, 3))
        } else {
            match parse_count(elements[0]) {
                Err(e) => Err(e.with_context("while decoding the ARRAY_PATCH edit start"@)),
                Ok(start) => match parse_count(elements[1]) {
                    Err(e) => Err(
                        e.with_context("while decoding the ARRAY_PATCH edit delete count"@),
                    ),
                    Ok(delete_count) => match parse_edit_values(elements[2]) {
                        Err(e) => Err(e),
                        Ok(items) => if delete_count == 0 && items.len() == 0 {
                            Err(
                                json_cbor::not_json(
                                    "An ARRAY_PATCH edit must delete or insert values."@,
                                ),
                            )
                        } else {
                            Ok(Edit { start, delete_count, items })
                        },
                    },
                },
            }
        },
        _ => Err(json_cbor::not_json("An ARRAY_PATCH edit must be an array."@)),
    }
}

/// The results of reading the items of an array as array patch edits.
pub open spec fn array_edit_results(items: Seq<Cbor>) -> Seq<Result<Edit<Json>, ErrorModel>> {
    Seq::new(
        items.len(),
        |i: int|
            match parse_array_edit(items[i]) {
                Ok(edit) => Ok(edit),
                Err(e) => Err(edit_error(e, i, "while decoding an ARRAY_PATCH edit"@)),
            },
    )
}

/// The array patch edits that an item is.
pub open spec fn parse_array_edits(item: Cbor) -> Result<Seq<Edit<Json>>, ErrorModel> {
    match item {
        Cbor::Array(items) => if items.len() == 0 {
            Err(json_cbor::not_json("The ARRAY_PATCH edits cannot be empty."@))
        } else {
            error::gather(array_edit_results(items), items.len())
        },
        _ => Err(json_cbor::not_json("The ARRAY_PATCH edits must be an array."@)),
    }
}

/// Reads an array patch edit.
pub fn parse_array_patch_edit(value: CborValue) -> (result: Result<ArrayPatchEdit, JsyncError>)
    ensures
        match result {
            Ok(edit) => parse_array_edit(value@) == Ok::<Edit<Json>, ErrorModel>(edit@),
            Err(e) => parse_array_edit(value@) == Err::<Edit<Json>, ErrorModel>(e@),
        },
{
    broadcast use cbor::lemma_cbor_array_view;

    match value {
        CborValue::Array(edit) => {
            assert(value@ == Cbor::Array(cbor::cbor_views(edit@)));
            assert(cbor::cbor_views(edit@).len() == edit@.len());
            if let Err(e) = require_action_length(edit.len(), 3) {
                return Err(e);
            }
            proof {
                assert(cbor::cbor_views(edit@)[0] == edit@[0]@);
                assert(cbor::cbor_views(edit@)[1] == edit@[1]@);
                assert(cbor::cbor_views(edit@)[2] == edit@[2]@);
            }
            let (start, delete_count, raw) = three(edit);
            let start: usize = match parse_usize(start) {
                Ok(start) => start,
                Err(e) => {
                    return Err(e.with_context("while decoding the ARRAY_PATCH edit start"));
                },
            };
            let delete_count: usize = match parse_usize(delete_count) {
                Ok(delete_count) => delete_count,
                Err(e) => {
                    return Err(e.with_context("while decoding the ARRAY_PATCH edit delete count"));
                },
            };
            let values: Vec<JsonValue> = match raw {
                CborValue::Array(items) => {
                    assert(raw@ == Cbor::Array(cbor::cbor_views(items@)));
                    assert(cbor::cbor_views(items@).len() == items@.len());
                    match json_cbor::to_json_values(items) {
                        Ok(values) => values,
                        Err(e) => {
                            return Err(
                                e.with_context("while decoding the ARRAY_PATCH edit values"),
                            );
                        },
                    }
                },
                _ => {
                    return Err(
                        JsyncError::new(
                            JsyncErrorKind::InvalidJsonValue,
                            "The ARRAY_PATCH edit values must be an array.",
                        ),
                    );
                },
            };
            assert(json::json_views(values@).len() == values@.len());
            if delete_count == 0 && values.len() == 0 {
                return Err(
                    JsyncError::new(
                        JsyncErrorKind::InvalidJsonValue,
                        "An ARRAY_PATCH edit must delete or insert values.",
                    ),
                );
            }
            Ok(ArrayPatchEdit { start, delete_count, values })
        },
        _ => Err(
            JsyncError::new(
                JsyncErrorKind::InvalidJsonValue,
                "An ARRAY_PATCH edit must be an array.",
            ),
        ),
    }
}

/// Reads array patch edits.
pub fn parse_array_patch_edits(value: CborValue) -> (result: Result<
    Vec<ArrayPatchEdit>,
    JsyncError,
>)
    ensures
        match result {
            Ok(edits) => parse_array_edits(value@) == Ok::<Seq<Edit<Json>>, ErrorModel>(
                action::array_edit_views(edits@),
            ),
            Err(e) => parse_array_edits(value@) == Err::<Seq<Edit<Json>>, ErrorModel>(e@),
        },
{
    broadcast use cbor::lemma_cbor_array_view;

    match value {
        CborValue::Array(raw) => {
            let ghost items = cbor::cbor_views(raw@);
            let ghost results = array_edit_results(items);
            let mut edits: Vec<ArrayPatchEdit> = Vec::new();
            let count: usize = raw.len();
            if count == 0 {
                return Err(
                    JsyncError::new(
                        JsyncErrorKind::InvalidJsonValue,
                        "The ARRAY_PATCH edits cannot be empty.",
                    ),
                );
            }
            let mut at: usize = 0;
            assert(action::array_edit_views(edits@) =~= Seq::empty());
            for item in iter: raw
                invariant
                    iter.seq() == raw@,
                    at == iter.index(),
                    at <= count == raw@.len(),
                    items == cbor::cbor_views(raw@),
                    results == array_edit_results(items),
                    parse_array_edits(value@) == error::gather(results, results.len()),
                    error::gather(results, at as nat) == Ok::<Seq<Edit<Json>>, ErrorModel>(
                        action::array_edit_views(edits@),
                    ),
            {
                assert(items[at as int] == raw@[at as int]@);
                assert(results[at as int] == match parse_array_edit(item@) {
                    Ok(edit) => Ok::<Edit<Json>, ErrorModel>(edit),
                    Err(e) => Err(edit_error(e, at as int, "while decoding an ARRAY_PATCH edit"@)),
                });
                match parse_array_patch_edit(item) {
                    Ok(edit) => {
                        let ghost before = action::array_edit_views(edits@);
                        edits.push(edit);
                        assert(action::array_edit_views(edits@) =~= before.push(edit@));
                    },
                    Err(e) => {
                        proof {
                            error::lemma_gather_error(results, at as nat + 1);
                        }
                        return Err(
                            e.with_metadata(
                                "edit_index",
                                text::count_text(at).as_str(),
                            ).with_context("while decoding an ARRAY_PATCH edit"),
                        );
                    },
                }
                at = at + 1;
            }
            Ok(edits)
        },
        _ => Err(
            JsyncError::new(
                JsyncErrorKind::InvalidJsonValue,
                "The ARRAY_PATCH edits must be an array.",
            ),
        ),
    }
}

/// The action with a path and a value that elements stand for.
pub open spec fn parse_path_and_value(
    elements: Seq<Cbor>,
    notation: Notation,
    path_context: Seq<char>,
    value_context: Seq<char>,
) -> Result<(Seq<Segment>, Json), ErrorModel> {
    if elements.len() != 3 {
        Err(length_error(elements.len() as int, 3))
    } else {
        match read_path(elements[1], notation) {
            Err(e) => Err(e.with_context(path_context)),
            Ok(path) => match json_cbor::from_cbor(elements[2]) {
                Err(e) => Err(e.with_context(value_context)),
                Ok(value) => Ok((path, value)),
            },
        }
    }
}

/// The path and the text that elements stand for.
pub open spec fn parse_path_and_text(
    elements: Seq<Cbor>,
    notation: Notation,
    path_context: Seq<char>,
    text_context: Seq<char>,
) -> Result<(Seq<Segment>, Seq<char>), ErrorModel> {
    if elements.len() != 3 {
        Err(length_error(elements.len() as int, 3))
    } else {
        match read_path(elements[1], notation) {
            Err(e) => Err(e.with_context(path_context)),
            Ok(path) => match parse_text_item(elements[2]) {
                Err(e) => Err(e.with_context(text_context)),
                Ok(text) => Ok((path, text)),
            },
        }
    }
}

/// The two paths that elements stand for.
pub open spec fn parse_two_paths(
    elements: Seq<Cbor>,
    notation: Notation,
    from_context: Seq<char>,
    path_context: Seq<char>,
) -> Result<(Seq<Segment>, Seq<Segment>), ErrorModel> {
    if elements.len() != 3 {
        Err(length_error(elements.len() as int, 3))
    } else {
        match read_path(elements[1], notation) {
            Err(e) => Err(e.with_context(from_context)),
            Ok(from) => match read_path(elements[2], notation) {
                Err(e) => Err(e.with_context(path_context)),
                Ok(path) => Ok((from, path)),
            },
        }
    }
}

/// The action with an opcode that elements stand for.
pub open spec fn parse_operation(
    opcode: int,
    elements: Seq<Cbor>,
    notation: Notation,
) -> Result<Act, ErrorModel> {
    if opcode == opcode::OPCODE_SNAPSHOT {
        if elements.len() != 2 {
            Err(length_error(elements.len() as int, 2))
        } else {
            match json_cbor::from_cbor(elements[1]) {
                Err(e) => Err(e.with_context("while decoding the SNAPSHOT value"@)),
                Ok(value) => Ok(Act::Snapshot { value }),
            }
        }
    } else if opcode == opcode::OPCODE_ADD {
        match parse_path_and_value(
            elements,
            notation,
            "while parsing the ADD path"@,
            "while decoding the ADD value"@,
        ) {
            Err(e) => Err(e),
            Ok((path, value)) => Ok(Act::Add { path, value }),
        }
    } else if opcode == opcode::OPCODE_REMOVE {
        if elements.len() != 2 {
            Err(length_error(elements.len() as int, 2))
        } else {
            match read_path(elements[1], notation) {
                Err(e) => Err(e.with_context("while parsing the REMOVE path"@)),
                Ok(path) => Ok(Act::Remove { path }),
            }
        }
    } else if opcode == opcode::OPCODE_REPLACE {
        match parse_path_and_value(
            elements,
            notation,
            "while parsing the REPLACE path"@,
            "while decoding the REPLACE value"@,
        ) {
            Err(e) => Err(e),
            Ok((path, value)) => Ok(Act::Replace { path, value }),
        }
    } else if opcode == opcode::OPCODE_STRING_APPEND {
        match parse_path_and_text(
            elements,
            notation,
            "while parsing the APPEND path"@,
            "while decoding the APPEND text"@,
        ) {
            Err(e) => Err(e),
            Ok((path, text)) => Ok(Act::StringAppend { path, text }),
        }
    } else if opcode == opcode::OPCODE_STRING_PREPEND {
        match parse_path_and_text(
            elements,
            notation,
            "while parsing the PREPEND path"@,
            "while decoding the PREPEND text"@,
        ) {
            Err(e) => Err(e),
            Ok((path, text)) => Ok(Act::StringPrepend { path, text }),
        }
    } else if opcode == opcode::OPCODE_STRING_PATCH {
        if elements.len() != 3 {
            Err(length_error(elements.len() as int, 3))
        } else {
            match read_path(elements[1], notation) {
                Err(e) => Err(e.with_context("while parsing the STRING_PATCH path"@)),
                Ok(path) => match parse_string_edits(elements[2]) {
                    Err(e) => Err(e.with_context("while decoding the STRING_PATCH edits"@)),
                    Ok(edits) => Ok(Act::StringPatch { path, edits }),
                },
            }
        }
    } else if opcode == opcode::OPCODE_ARRAY_PATCH {
        if elements.len() != 3 {
            Err(length_error(elements.len() as int, 3))
        } else {
            match read_path(elements[1], notation) {
                Err(e) => Err(e.with_context("while parsing the ARRAY_PATCH path"@)),
                Ok(path) => match parse_array_edits(elements[2]) {
                    Err(e) => Err(e.with_context("while decoding the ARRAY_PATCH edits"@)),
                    Ok(edits) => Ok(Act::ArrayPatch { path, edits }),
                },
            }
        }
    } else if opcode == opcode::OPCODE_COPY {
        match parse_two_paths(
            elements,
            notation,
            "while parsing the COPY from path"@,
            "while parsing the COPY path"@,
        ) {
            Err(e) => Err(e),
            Ok((from, path)) => Ok(Act::Copy { from, path }),
        }
    } else if opcode == opcode::OPCODE_MOVE {
        match parse_two_paths(
            elements,
            notation,
            "while parsing the MOVE from path"@,
            "while parsing the MOVE path"@,
        ) {
            Err(e) => Err(e),
            Ok((from, path)) => Ok(Act::Move { from, path }),
        }
    } else {
        Err(
            error::failure(
                JsyncErrorKind::UnknownAction,
                "The Jsync action opcode is not supported."@,
            ).with_metadata("opcode"@, text::decimal(opcode)),
        )
    }
}

/// The action that an item is.
pub open spec fn parse_act(item: Cbor, notation: Notation) -> Result<Act, ErrorModel> {
    match item {
        Cbor::Array(elements) => if elements.len() == 0 {
            Err(
                error::failure(
                    JsyncErrorKind::InvalidActionLength,
                    "The Jsync action has no opcode."@,
                ).with_metadata("expected"@, "at least 1"@).with_metadata("actual"@, "0"@),
            )
        } else {
            match elements[0] {
                Cbor::Integer(opcode) => parse_operation(opcode, elements, notation),
                _ => Err(
                    error::failure(
                        JsyncErrorKind::UnknownAction,
                        "The Jsync action opcode must be an integer."@,
                    ),
                ),
            }
        },
        _ => Err(
            error::failure(
                JsyncErrorKind::ActionNotArray,
                "The Jsync action must be an array."@,
            ),
        ),
    }
}

/// Takes the second element of an array of two.
fn second(elements: Vec<CborValue>) -> (part: CborValue)
    requires
        elements@.len() == 2,
    ensures
        part == elements@[1],
{
    let mut elements = elements;
    elements.pop().unwrap()
}

fn path_and_value(
    elements: Vec<CborValue>,
    names: Option<&ConsumerPathSegmentPoolTransaction<'_>>,
    path_context: &str,
    value_context: &str,
) -> (result: Result<(Vec<PathSegment>, JsonValue), JsyncError>)
    ensures
        ({
            let parsed = parse_path_and_value(
                cbor::cbor_views(elements@),
                notation(names),
                path_context@,
                value_context@,
            );
            match result {
                Ok((path, value)) => parsed == Ok::<(Seq<Segment>, Json), ErrorModel>(
                    (action::path_view(path@), value@),
                ),
                Err(e) => parsed == Err::<(Seq<Segment>, Json), ErrorModel>(e@),
            }
        }),
{
    let ghost items = cbor::cbor_views(elements@);
    assert(items.len() == elements@.len());
    if let Err(e) = require_action_length(elements.len(), 3) {
        return Err(e);
    }
    assert(items[1] == elements@[1]@);
    assert(items[2] == elements@[2]@);
    let (_opcode, path, value) = three(elements);
    match parse_action_path(path, names) {
        Ok(path) => match json_cbor::to_json(value) {
            Ok(value) => Ok((path, value)),
            Err(e) => Err(e.with_context(value_context)),
        },
        Err(e) => Err(e.with_context(path_context)),
    }
}

fn path_and_text(
    elements: Vec<CborValue>,
    names: Option<&ConsumerPathSegmentPoolTransaction<'_>>,
    path_context: &str,
    text_context: &str,
) -> (result: Result<(Vec<PathSegment>, String), JsyncError>)
    ensures
        ({
            let parsed = parse_path_and_text(
                cbor::cbor_views(elements@),
                notation(names),
                path_context@,
                text_context@,
            );
            match result {
                Ok((path, text)) => parsed == Ok::<(Seq<Segment>, Seq<char>), ErrorModel>(
                    (action::path_view(path@), text@),
                ),
                Err(e) => parsed == Err::<(Seq<Segment>, Seq<char>), ErrorModel>(e@),
            }
        }),
{
    let ghost items = cbor::cbor_views(elements@);
    assert(items.len() == elements@.len());
    if let Err(e) = require_action_length(elements.len(), 3) {
        return Err(e);
    }
    assert(items[1] == elements@[1]@);
    assert(items[2] == elements@[2]@);
    let (_opcode, path, string) = three(elements);
    match parse_action_path(path, names) {
        Ok(path) => match parse_text(string) {
            Ok(string) => Ok((path, string)),
            Err(e) => Err(e.with_context(text_context)),
        },
        Err(e) => Err(e.with_context(path_context)),
    }
}

fn two_paths(
    elements: Vec<CborValue>,
    names: Option<&ConsumerPathSegmentPoolTransaction<'_>>,
    from_context: &str,
    path_context: &str,
) -> (result: Result<(Vec<PathSegment>, Vec<PathSegment>), JsyncError>)
    ensures
        ({
            let parsed = parse_two_paths(
                cbor::cbor_views(elements@),
                notation(names),
                from_context@,
                path_context@,
            );
            match result {
                Ok((from, path)) => parsed == Ok::<(Seq<Segment>, Seq<Segment>), ErrorModel>(
                    (action::path_view(from@), action::path_view(path@)),
                ),
                Err(e) => parsed == Err::<(Seq<Segment>, Seq<Segment>), ErrorModel>(e@),
            }
        }),
{
    let ghost items = cbor::cbor_views(elements@);
    assert(items.len() == elements@.len());
    if let Err(e) = require_action_length(elements.len(), 3) {
        return Err(e);
    }
    assert(items[1] == elements@[1]@);
    assert(items[2] == elements@[2]@);
    let (_opcode, from, path) = three(elements);
    match parse_action_path(from, names) {
        Ok(from) => match parse_action_path(path, names) {
            Ok(path) => Ok((from, path)),
            Err(e) => Err(e.with_context(path_context)),
        },
        Err(e) => Err(e.with_context(from_context)),
    }
}

/// Reads the elements of an action with a given opcode.
fn parse_action_elements(
    opcode: i128,
    action: Vec<CborValue>,
    names: Option<&ConsumerPathSegmentPoolTransaction<'_>>,
) -> (result: Result<Action, JsyncError>)
    ensures
        match result {
            Ok(a) => parse_operation(
                opcode as int,
                cbor::cbor_views(action@),
                notation(names),
            ) == Ok::<Act, ErrorModel>(a@),
            Err(e) => parse_operation(
                opcode as int,
                cbor::cbor_views(action@),
                notation(names),
            ) == Err::<Act, ErrorModel>(e@),
        },
{
    let ghost items = cbor::cbor_views(action@);
    assert(items.len() == action@.len());
    if opcode == opcode::OPCODE_SNAPSHOT {
        if let Err(e) = require_action_length(action.len(), 2) {
            return Err(e);
        }
        assert(items[1] == action@[1]@);
        match json_cbor::to_json(second(action)) {
            Ok(value) => Ok(Action::Snapshot { value }),
            Err(e) => Err(e.with_context("while decoding the SNAPSHOT value")),
        }
    } else if opcode == opcode::OPCODE_ADD {
        match path_and_value(
            action,
            names,
            "while parsing the ADD path",
            "while decoding the ADD value",
        ) {
            Ok((path, value)) => Ok(Action::Add { path, value }),
            Err(e) => Err(e),
        }
    } else if opcode == opcode::OPCODE_REMOVE {
        if let Err(e) = require_action_length(action.len(), 2) {
            return Err(e);
        }
        assert(items[1] == action@[1]@);
        match parse_action_path(second(action), names) {
            Ok(path) => Ok(Action::Remove { path }),
            Err(e) => Err(e.with_context("while parsing the REMOVE path")),
        }
    } else if opcode == opcode::OPCODE_REPLACE {
        match path_and_value(
            action,
            names,
            "while parsing the REPLACE path",
            "while decoding the REPLACE value",
        ) {
            Ok((path, value)) => Ok(Action::Replace { path, value }),
            Err(e) => Err(e),
        }
    } else if opcode == opcode::OPCODE_STRING_APPEND {
        match path_and_text(
            action,
            names,
            "while parsing the APPEND path",
            "while decoding the APPEND text",
        ) {
            Ok((path, text)) => Ok(Action::StringAppend { path, text }),
            Err(e) => Err(e),
        }
    } else if opcode == opcode::OPCODE_STRING_PREPEND {
        match path_and_text(
            action,
            names,
            "while parsing the PREPEND path",
            "while decoding the PREPEND text",
        ) {
            Ok((path, text)) => Ok(Action::StringPrepend { path, text }),
            Err(e) => Err(e),
        }
    } else if opcode == opcode::OPCODE_STRING_PATCH {
        if let Err(e) = require_action_length(action.len(), 3) {
            return Err(e);
        }
        assert(items[1] == action@[1]@);
        assert(items[2] == action@[2]@);
        let (_opcode, path, edits) = three(action);
        match parse_action_path(path, names) {
            Ok(path) => match parse_string_patch_edits(edits) {
                Ok(edits) => Ok(Action::StringPatch { path, edits }),
                Err(e) => Err(e.with_context("while decoding the STRING_PATCH edits")),
            },
            Err(e) => Err(e.with_context("while parsing the STRING_PATCH path")),
        }
    } else if opcode == opcode::OPCODE_ARRAY_PATCH {
        if let Err(e) = require_action_length(action.len(), 3) {
            return Err(e);
        }
        assert(items[1] == action@[1]@);
        assert(items[2] == action@[2]@);
        let (_opcode, path, edits) = three(action);
        match parse_action_path(path, names) {
            Ok(path) => match parse_array_patch_edits(edits) {
                Ok(edits) => Ok(Action::ArrayPatch { path, edits }),
                Err(e) => Err(e.with_context("while decoding the ARRAY_PATCH edits")),
            },
            Err(e) => Err(e.with_context("while parsing the ARRAY_PATCH path")),
        }
    } else if opcode == opcode::OPCODE_COPY {
        match two_paths(
            action,
            names,
            "while parsing the COPY from path",
            "while parsing the COPY path",
        ) {
            Ok((from, path)) => Ok(Action::Copy { from, path }),
            Err(e) => Err(e),
        }
    } else if opcode == opcode::OPCODE_MOVE {
        match two_paths(
            action,
            names,
            "while parsing the MOVE from path",
            "while parsing the MOVE path",
        ) {
            Ok((from, path)) => Ok(Action::Move { from, path }),
            Err(e) => Err(e),
        }
    } else {
        Err(
            JsyncError::new(
                JsyncErrorKind::UnknownAction,
                "The Jsync action opcode is not supported.",
            ).with_metadata("opcode", text::decimal_text(opcode).as_str()),
        )
    }
}

/// Reads one action without relying on its position in the message.
pub fn parse_action(
    value: CborValue,
    names: Option<&ConsumerPathSegmentPoolTransaction<'_>>,
) -> (result: Result<Action, JsyncError>)
    ensures
        match result {
            Ok(a) => parse_act(value@, notation(names)) == Ok::<Act, ErrorModel>(a@),
            Err(e) => parse_act(value@, notation(names)) == Err::<Act, ErrorModel>(e@),
        },
{
    broadcast use cbor::lemma_cbor_array_view;

    match value {
        CborValue::Array(action) => {
            assert(value@ == Cbor::Array(cbor::cbor_views(action@)));
            assert(cbor::cbor_views(action@).len() == action@.len());
            if action.len() == 0 {
                return Err(
                    JsyncError::new(
                        JsyncErrorKind::InvalidActionLength,
                        "The Jsync action has no opcode.",
                    ).with_metadata("expected", "at least 1").with_metadata("actual", "0"),
                );
            }
            assert(cbor::cbor_views(action@)[0] == action@[0]@);
            let opcode: i128 = match &action[0] {
                CborValue::Integer(opcode) => *opcode,
                _ => {
                    return Err(
                        JsyncError::new(
                            JsyncErrorKind::UnknownAction,
                            "The Jsync action opcode must be an integer.",
                        ),
                    );
                },
            };
            parse_action_elements(opcode, action, names)
        },
        _ => Err(
            JsyncError::new(
                JsyncErrorKind::ActionNotArray,
                "The Jsync action must be an array.",
            ),
        ),
    }
}

/// What is reported of an error in the action at a position.
pub open spec fn action_error(e: ErrorModel, at: int, context: Seq<char>) -> ErrorModel {
    e.with_metadata("action_index"@, text::decimal(at)).with_context(context)
}

/// The results of reading the items of an array as actions.
pub open spec fn act_results(items: Seq<Cbor>, notation: Notation) -> Seq<
    Result<Act, ErrorModel>,
> {
    Seq::new(
        items.len(),
        |i: int|
            match parse_act(items[i], notation) {
                Ok(act) => Ok(act),
                Err(e) => Err(action_error(e, i, "while parsing a Jsync action"@)),
            },
    )
}

/// The actions that the body of a message is.
pub open spec fn parse_acts(item: Cbor, notation: Notation) -> Result<Seq<Act>, ErrorModel> {
    match item {
        Cbor::Array(items) => error::gather(act_results(items, notation), items.len()),
        _ => Err(
            error::failure(
                JsyncErrorKind::MessageNotArray,
                "The Jsync actions payload must be an array."@,
            ),
        ),
    }
}

/// Reads the body of a message.
pub fn parse_actions(
    value: CborValue,
    names: Option<&ConsumerPathSegmentPoolTransaction<'_>>,
) -> (result: Result<Vec<Action>, JsyncError>)
    ensures
        match result {
            Ok(actions) => parse_acts(value@, notation(names)) == Ok::<Seq<Act>, ErrorModel>(
                action::action_views(actions@),
            ),
            Err(e) => parse_acts(value@, notation(names)) == Err::<Seq<Act>, ErrorModel>(e@),
        },
{
    broadcast use cbor::lemma_cbor_array_view;

    match value {
        CborValue::Array(raw) => {
            let ghost items = cbor::cbor_views(raw@);
            let ghost results = act_results(items, notation(names));
            let mut actions: Vec<Action> = Vec::new();
            let count: usize = raw.len();
            let mut at: usize = 0;
            assert(action::action_views(actions@) =~= Seq::empty());
            for item in iter: raw
                invariant
                    iter.seq() == raw@,
                    at == iter.index(),
                    at <= count == raw@.len(),
                    items == cbor::cbor_views(raw@),
                    results == act_results(items, notation(names)),
                    parse_acts(value@, notation(names)) == error::gather(results, results.len()),
                    error::gather(results, at as nat) == Ok::<Seq<Act>, ErrorModel>(
                        action::action_views(actions@),
                    ),
            {
                assert(items[at as int] == raw@[at as int]@);
                assert(results[at as int] == match parse_act(item@, notation(names)) {
                    Ok(act) => Ok::<Act, ErrorModel>(act),
                    Err(e) => Err(action_error(e, at as int, "while parsing a Jsync action"@)),
                });
                match parse_action(item, names) {
                    Ok(a) => {
                        let ghost before = action::action_views(actions@);
                        actions.push(a);
                        assert(action::action_views(actions@) =~= before.push(a@));
                    },
                    Err(e) => {
                        proof {
                            error::lemma_gather_error(results, at as nat + 1);
                        }
                        return Err(
                            e.with_metadata(
                                "action_index",
                                text::count_text(at).as_str(),
                            ).with_context("while parsing a Jsync action"),
                        );
                    },
                }
                at = at + 1;
            }
            Ok(actions)
        },
        _ => Err(
            JsyncError::new(
                JsyncErrorKind::MessageNotArray,
                "The Jsync actions payload must be an array.",
            ),
        ),
    }
}

/// The path segments that the metadata of a paired payload adds to the pool.
pub open spec fn parse_paired_metadata(item: Cbor) -> Result<Seq<Segment>, ErrorModel> {
    match item {
        Cbor::Array(items) => if items.len() != 1 {
            Err(
                error::failure(
                    JsyncErrorKind::InvalidActionLength,
                    "The Jsync metadata must contain the path segment pool append list."@,
                ).with_metadata("expected"@, "1"@).with_metadata(
                    "actual"@,
                    text::decimal(items.len() as int),
                ),
            )
        } else {
            parse_segments(items[0])
        },
        _ => Err(
            error::failure(
                JsyncErrorKind::MessageNotArray,
                "The Jsync metadata must be an array."@,
            ),
        ),
    }
}

/// Reads the metadata of a paired payload.
pub fn parse_metadata(value: CborValue) -> (result: Result<Vec<PathSegment>, JsyncError>)
    ensures
        match result {
            Ok(segments) => parse_paired_metadata(value@) == Ok::<Seq<Segment>, ErrorModel>(
                action::path_view(segments@),
            ),
            Err(e) => parse_paired_metadata(value@) == Err::<Seq<Segment>, ErrorModel>(e@),
        },
{
    broadcast use cbor::lemma_cbor_array_view;

    match value {
        CborValue::Array(raw) => {
            assert(value@ == Cbor::Array(cbor::cbor_views(raw@)));
            assert(cbor::cbor_views(raw@).len() == raw@.len());
            if raw.len() != 1 {
                return Err(
                    JsyncError::new(
                        JsyncErrorKind::InvalidActionLength,
                        "The Jsync metadata must contain the path segment pool append list.",
                    ).with_metadata("expected", "1").with_metadata(
                        "actual",
                        text::count_text(raw.len()).as_str(),
                    ),
                );
            }
            assert(cbor::cbor_views(raw@)[0] == raw@[0]@);
            let mut raw = raw;
            parse_path_segments(raw.pop().unwrap())
        },
        _ => Err(
            JsyncError::new(
                JsyncErrorKind::MessageNotArray,
                "The Jsync metadata must be an array.",
            ),
        ),
    }
}

/// What reading the first `count` tag/value pairs of a tagged payload gives: the segments that
/// they add to the pool, and the error if there is one. `seen` tells whether the tag of the
/// segments occurred.
pub struct TaggedMetadata {
    /// The segments added so far.
    pub added: Seq<Segment>,
    /// Whether the tag of the segments occurred.
    pub seen: bool,
    /// The first error.
    pub error: Option<ErrorModel>,
}

/// What reading the first `count` tag/value pairs of a tagged payload gives.
pub open spec fn parse_pairs(items: Seq<Cbor>, count: nat) -> TaggedMetadata
    decreases count,
{
    if count == 0 {
        TaggedMetadata { added: Seq::empty(), seen: false, error: None }
    } else {
        let before = parse_pairs(items, (count - 1) as nat);
        if before.error is Some {
            before
        } else {
            match items[2 * count - 2] {
                Cbor::Integer(tag) => if tag != encoder::METADATA_PATH_SEGMENT_POOL_APPEND {
                    before
                } else if before.seen {
                    TaggedMetadata {
                        error: Some(
                            error::failure(
                                JsyncErrorKind::InvalidActionLength,
                                "A Jsync metadata tag must not appear more than once."@,
                            ).with_metadata("tag"@, text::decimal(tag)),
                        ),
                        ..before
                    }
                } else {
                    match parse_segments(items[2 * count - 1]) {
                        Ok(segments) => TaggedMetadata {
                            added: before.added + segments,
                            seen: true,
                            error: None,
                        },
                        Err(e) => TaggedMetadata { error: Some(e), ..before },
                    }
                },
                _ => TaggedMetadata {
                    error: Some(
                        json_cbor::not_json("A Jsync metadata tag must be an integer."@),
                    ),
                    ..before
                },
            }
        }
    }
}

proof fn lemma_pairs_error(items: Seq<Cbor>, count: nat, total: nat)
    requires
        count <= total,
        parse_pairs(items, count).error is Some,
    ensures
        parse_pairs(items, total) == parse_pairs(items, count),
    decreases total,
{
    if count < total {
        lemma_pairs_error(items, count, (total - 1) as nat);
    }
}

/// Reads the metadata of a tagged payload, and adds its segments to the pool.
pub fn parse_metadata_pairs(
    metadata: Vec<CborValue>,
    txn: &mut ConsumerPathSegmentPoolTransaction<'_>,
) -> (result: Result<(), JsyncError>)
    requires
        metadata@.len() % 2 == 0,
    ensures
        ({
            let parsed = parse_pairs(cbor::cbor_views(metadata@), metadata@.len() / 2);
            &&& final(txn).total() == old(txn).total() + parsed.added
            &&& match result {
                Ok(_) => parsed.error is None,
                Err(e) => parsed.error == Some(e@),
            }
        }),
        final(txn).pool@ == old(txn).pool@,
        *final(final(txn).pool) == *final(old(txn).pool),
{
    let ghost items = cbor::cbor_views(metadata@);
    let ghost start = txn.total();
    let ghost total = metadata@.len() / 2;
    let mut seen: bool = false;
    let mut tag: Option<i128> = None;
    let count: usize = metadata.len();
    let mut at: usize = 0;
    assert(start + Seq::<Segment>::empty() =~= start);
    for item in iter: metadata
        invariant
            iter.seq() == metadata@,
            at == iter.index(),
            at <= count == metadata@.len(),
            count % 2 == 0,
            total == metadata@.len() / 2,
            items == cbor::cbor_views(metadata@),
            start == old(txn).total(),
            parse_pairs(items, (at / 2) as nat).error is None,
            parse_pairs(items, (at / 2) as nat).seen == seen,
            txn.total() == start + parse_pairs(items, (at / 2) as nat).added,
            at % 2 == 0 ==> tag is None,
            at % 2 == 1 ==> (match tag {
                Some(t) => items[at - 1] == Cbor::Integer(t as int),
                None => false,
            }),
            txn.pool@ == old(txn).pool@,
            *final(txn.pool) == *final(old(txn).pool),
    {
        assert(items[at as int] == metadata@[at as int]@);
        let ghost pairs = (at / 2) as nat;
        match tag {
            None => {
                match item {
                    CborValue::Integer(t) => {
                        tag = Some(t);
                    },
                    _ => {
                        proof {
                            assert(2 * (pairs + 1) - 2 == at);
                            lemma_pairs_error(items, pairs + 1, total);
                            assert(txn.total() == start + parse_pairs(items, total).added);
                        }
                        return Err(
                            JsyncError::new(
                                JsyncErrorKind::InvalidJsonValue,
                                "A Jsync metadata tag must be an integer.",
                            ),
                        );
                    },
                }
            },
            Some(t) => {
                tag = None;
                assert(2 * (pairs + 1) - 2 == at - 1);
                assert(2 * (pairs + 1) - 1 == at);
                if t == encoder::METADATA_PATH_SEGMENT_POOL_APPEND {
                    if seen {
                        proof {
                            lemma_pairs_error(items, pairs + 1, total);
                        }
                        return Err(
                            JsyncError::new(
                                JsyncErrorKind::InvalidActionLength,
                                "A Jsync metadata tag must not appear more than once.",
                            ).with_metadata("tag", text::decimal_text(t).as_str()),
                        );
                    }
                    match parse_path_segments(item) {
                        Ok(segments) => {
                            let ghost before = parse_pairs(items, pairs).added;
                            seen = true;
                            txn.append_segments(segments);
                            assert(txn.total() =~= start + (before + action::path_view(segments@)));
                        },
                        Err(e) => {
                            proof {
                                lemma_pairs_error(items, pairs + 1, total);
                            }
                            return Err(e);
                        },
                    }
                }
                assert((at + 1) / 2 == pairs + 1);
            },
        }
        at = at + 1;
    }
    Ok(())
}

/// Whether a payload is a bare list of actions, whose paths are written inline: it is empty, or
/// its first item is an action by its opcode or for want of any element, or its only item is no
/// array. Metadata and actions behind metadata start otherwise.
pub open spec fn is_bare(items: Seq<Cbor>) -> bool {
    ||| items.len() == 0
    ||| match items[0] {
        Cbor::Array(elements) => elements.len() == 0 || elements[0] is Integer,
        _ => items.len() == 1,
    }
}

/// Tells whether a payload is a bare list of actions.
fn has_no_metadata(message: &Vec<CborValue>) -> (bare: bool)
    ensures
        bare == is_bare(cbor::cbor_views(message@)),
{
    broadcast use cbor::lemma_cbor_array_view;

    if message.len() == 0 {
        return true;
    }
    assert(cbor::cbor_views(message@)[0] == message@[0]@);
    match &message[0] {
        CborValue::Array(elements) => {
            assert(message@[0]@ == Cbor::Array(cbor::cbor_views(elements@)));
            if elements.len() == 0 {
                return true;
            }
            assert(cbor::cbor_views(elements@)[0] == elements@[0]@);
            matches!(elements[0], CborValue::Integer(_))
        },
        _ => message.len() == 1,
    }
}

/// The pool after a payload has been read, and its actions or the error.
pub open spec fn parse_payload(payload: Cbor, pool: Seq<Segment>) -> (
    Seq<Segment>,
    Result<Seq<Act>, ErrorModel>,
) {
    match payload {
        Cbor::Array(items) => if is_bare(items) {
            (pool, parse_acts(payload, Notation::Inline))
        } else if items.len() == 2 {
            match parse_paired_metadata(items[0]) {
                Ok(segments) => (pool + segments, parse_acts(items[1], Notation::Pooled(pool + segments))),
                Err(e) => (pool, Err(e)),
            }
        } else if items.len() % 2 == 0 {
            (
                pool,
                Err(
                    error::failure(
                        JsyncErrorKind::InvalidActionLength,
                        "The Jsync message payload must contain metadata tag/value pairs followed by actions."@,
                    ).with_metadata("expected"@, "a non-empty odd length"@).with_metadata(
                        "actual"@,
                        text::decimal(items.len() as int),
                    ),
                ),
            )
        } else {
            let metadata = parse_pairs(items.drop_last(), (items.len() - 1) as nat / 2);
            let after = pool + metadata.added;
            match metadata.error {
                Some(e) => (after, Err(e)),
                None => (after, parse_acts(items.last(), Notation::Pooled(after))),
            }
        },
        _ => (
            pool,
            Err(
                error::failure(
                    JsyncErrorKind::MessageNotArray,
                    "The Jsync message payload must be an array."@,
                ),
            ),
        ),
    }
}

/// Reads a payload: `[[added segments], actions]`, tag/value pairs followed by actions, or a bare
/// list of actions with inline paths.
#[verifier::rlimit(40)]
pub fn parse_message(
    value: CborValue,
    txn: &mut ConsumerPathSegmentPoolTransaction<'_>,
) -> (result: Result<Vec<Action>, JsyncError>)
    ensures
        ({
            let (after, parsed) = parse_payload(value@, old(txn).total());
            &&& final(txn).total() == after
            &&& match result {
                Ok(actions) => parsed == Ok::<Seq<Act>, ErrorModel>(
                    action::action_views(actions@),
                ),
                Err(e) => parsed == Err::<Seq<Act>, ErrorModel>(e@),
            }
        }),
        final(txn).pool@ == old(txn).pool@,
        *final(final(txn).pool) == *final(old(txn).pool),
{
    broadcast use cbor::lemma_cbor_array_view;

    match value {
        CborValue::Array(message) => {
            let ghost items = cbor::cbor_views(message@);
            assert(value@ == Cbor::Array(items));
            assert(items.len() == message@.len());
            if has_no_metadata(&message) {
                return parse_actions(CborValue::Array(message), None);
            }
            let length: usize = message.len();
            if length != 2 && length % 2 == 0 {
                return Err(
                    JsyncError::new(
                        JsyncErrorKind::InvalidActionLength,
                        "The Jsync message payload must contain metadata tag/value pairs followed by actions.",
                    ).with_metadata("expected", "a non-empty odd length").with_metadata(
                        "actual",
                        text::count_text(length).as_str(),
                    ),
                );
            }
            let mut message = message;
            let ghost all = message@;
            let body = message.pop().unwrap();
            assert(items[length - 1] == all[length - 1]@);
            if length == 2 {
                assert(items[0] == all[0]@);
                match parse_metadata(message.pop().unwrap()) {
                    Ok(segments) => {
                        txn.append_segments(segments);
                    },
                    Err(e) => {
                        return Err(e);
                    },
                }
            } else {
                assert(cbor::cbor_views(message@) =~= items.drop_last());
                if let Err(e) = parse_metadata_pairs(message, txn) {
                    return Err(e);
                }
            }
            parse_actions(body, Some(&*txn))
        },
        _ => Err(
            JsyncError::new(
                JsyncErrorKind::MessageNotArray,
                "The Jsync message payload must be an array.",
            ),
        ),
    }
}

/// The pool after a message has been decoded, and its actions or the error.
pub open spec fn decode(bytes: Seq<u8>, pool: Seq<Segment>) -> (
    Seq<Segment>,
    Result<Seq<Act>, ErrorModel>,
) {
    match payload_of(bytes) {
        Ok(payload) => parse_payload(payload, pool),
        Err(e) => (pool, Err(e)),
    }
}

/// Decodes a message, and adds the segments that it declares to the pool.
pub fn from_bytes_with_pool_txn(
    bytes: &[u8],
    txn: &mut ConsumerPathSegmentPoolTransaction<'_>,
) -> (result: Result<Vec<Action>, JsyncError>)
    ensures
        ({
            let (after, decoded) = decode(bytes@, old(txn).total());
            &&& final(txn).total() == after
            &&& match result {
                Ok(actions) => decoded == Ok::<Seq<Act>, ErrorModel>(
                    action::action_views(actions@),
                ),
                Err(e) => decoded == Err::<Seq<Act>, ErrorModel>(e@),
            }
        }),
        final(txn).pool@ == old(txn).pool@,
        *final(final(txn).pool) == *final(old(txn).pool),
{
    match decode_payload(bytes) {
        Ok(payload) => parse_message(payload, txn),
        Err(e) => Err(e),
    }
}

} // verus!
