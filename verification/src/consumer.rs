//! Jsync message consumer.

use vstd::prelude::*;

use crate::apply;
use crate::error;
use crate::error::{ErrorModel, JsyncError, JsyncErrorKind};
use crate::json;
use crate::json::{Json, JsonValue};
use crate::message::action;
use crate::message::action::{Act, Action, Segment};
use crate::message::decoder;
use crate::message::{ConsumerPathSegmentPool, Message};
use crate::text;

verus! {

/// Consumes Jsync messages and maintains the current JSON document.
#[derive(Debug)]
pub struct Consumer {
    document: Option<JsonValue>,
    initialized: bool,
    path_segment_pool: ConsumerPathSegmentPool,
}

/// The model of a consumer.
#[verifier::ext_equal]
pub struct ConsumerModel {
    /// The current document.
    pub document: Option<Json>,
    /// Whether a message has been consumed.
    pub initialized: bool,
    /// The path segment pool.
    pub pool: Seq<Segment>,
}

impl View for Consumer {
    type V = ConsumerModel;

    closed spec fn view(&self) -> ConsumerModel {
        ConsumerModel {
            document: match self.document {
                Some(document) => Some(document@),
                None => None,
            },
            initialized: self.initialized,
            pool: self.path_segment_pool@,
        }
    }
}

/// A consumer that has not consumed any message.
pub open spec fn empty_consumer() -> ConsumerModel {
    ConsumerModel { document: None, initialized: false, pool: Seq::empty() }
}

/// The document after the first `count` actions.
pub open spec fn run(document: Json, acts: Seq<Act>, count: nat) -> Result<Json, ErrorModel>
    decreases count,
{
    if count == 0 || count > acts.len() {
        Ok(document)
    } else {
        match run(document, acts, (count - 1) as nat) {
            Err(e) => Err(e),
            Ok(before) => match apply::apply_act(before, acts[count - 1]) {
                Err(e) => Err(
                    decoder::action_error(e, count - 1, "while applying a Jsync action"@),
                ),
                Ok(after) => Ok(after),
            },
        }
    }
}

/// Whether actions may be those of a first message.
pub open spec fn starts_with_snapshot(acts: Seq<Act>) -> bool {
    acts.len() > 0 && acts[0] is Snapshot
}

/// A consumer after the actions of a message, with the pool that the message left.
pub open spec fn after_actions(
    consumer: ConsumerModel,
    acts: Seq<Act>,
    pool: Seq<Segment>,
) -> Result<ConsumerModel, ErrorModel> {
    if !consumer.initialized && !starts_with_snapshot(acts) {
        Err(
            error::failure(
                JsyncErrorKind::InitialSnapshotRequired,
                "The first Jsync message must start with SNAPSHOT."@,
            ),
        )
    } else {
        let start = match consumer.document {
            Some(document) => document,
            None => Json::Null,
        };
        match run(start, acts, acts.len()) {
            Err(e) => Err(e),
            Ok(document) => Ok(
                ConsumerModel { document: Some(document), initialized: true, pool },
            ),
        }
    }
}

/// A consumer after a message.
pub open spec fn after_message(consumer: ConsumerModel, bytes: Seq<u8>) -> Result<
    ConsumerModel,
    ErrorModel,
> {
    let (pool, decoded) = decoder::decode(bytes, consumer.pool);
    match decoded {
        Err(e) => Err(e),
        Ok(acts) => after_actions(consumer, acts, pool),
    }
}

proof fn lemma_run_error(document: Json, acts: Seq<Act>, count: nat)
    requires
        count <= acts.len(),
        run(document, acts, count) is Err,
    ensures
        run(document, acts, acts.len()) == run(document, acts, count),
    decreases acts.len() - count,
{
    if count < acts.len() {
        lemma_run_error(document, acts, count + 1);
    }
}

/// Applies actions to a working document.
fn apply_actions(document: JsonValue, actions: Vec<Action>) -> (result: Result<
    JsonValue,
    JsyncError,
>)
    ensures
        ({
            let acts = action::action_views(actions@);
            match result {
                Ok(after) => run(document@, acts, acts.len()) == Ok::<Json, ErrorModel>(after@),
                Err(e) => run(document@, acts, acts.len()) == Err::<Json, ErrorModel>(e@),
            }
        }),
{
    let ghost acts = action::action_views(actions@);
    let ghost start = document@;
    let mut working = document;
    let count: usize = actions.len();
    let mut at: usize = 0;
    for next in iter: actions
        invariant
            iter.seq() == actions@,
            at == iter.index(),
            at <= count == actions@.len(),
            acts == action::action_views(actions@),
            start == document@,
            run(start, acts, at as nat) == Ok::<Json, ErrorModel>(working@),
    {
        assert(acts[at as int] == actions@[at as int]@);
        if let Err(e) = apply::apply_action(&mut working, next) {
            proof {
                lemma_run_error(start, acts, at as nat + 1);
            }
            return Err(
                e.with_metadata("action_index", text::count_text(at).as_str()).with_context(
                    "while applying a Jsync action",
                ),
            );
        }
        at = at + 1;
    }
    Ok(working)
}

impl Consumer {
    /// Creates an empty consumer that is waiting for its initial SNAPSHOT.
    pub fn new() -> (consumer: Self)
        ensures
            consumer@ == empty_consumer(),
    {
        Consumer {
            document: None,
            initialized: false,
            path_segment_pool: ConsumerPathSegmentPool::new(),
        }
    }

    /// Returns the current document, or `None` before the first successful message.
    pub fn document(&self) -> (document: Option<&JsonValue>)
        ensures
            match document {
                Some(value) => self@.document == Some(value@),
                None => self@.document is None,
            },
    {
        self.document.as_ref()
    }

    /// Decodes one Jsync message without committing path segment pool changes.
    ///
    /// Very helpful for decoding and inspecting the message without modifying
    /// the consumer's state (we ask for `&mut self` but we do not change it).
    pub fn decode_message_dry_run(&mut self, message: &[u8]) -> (result: Result<
        Message,
        JsyncError,
    >)
        ensures
            final(self)@ == old(self)@,
            match result {
                Ok(decoded) => decoder::decode(message@, old(self)@.pool).1 == Ok::<
                    Seq<Act>,
                    ErrorModel,
                >(decoded@),
                Err(e) => decoder::decode(message@, old(self)@.pool).1 == Err::<
                    Seq<Act>,
                    ErrorModel,
                >(e@),
            },
    {
        let bytes: Vec<u8> = copy_bytes(message);
        let mut transaction = self.path_segment_pool.transaction();
        let result = Message::from_bytes_with_pool_txn(bytes, &mut transaction);
        transaction.abort();
        result
    }

    /// Decodes and atomically applies one Jsync message.
    ///
    /// If it fails, the state of the consumer will not be modified.
    pub fn consume(&mut self, message: &[u8]) -> (result: Result<(), JsyncError>)
        ensures
            match result {
                Ok(_) => after_message(old(self)@, message@) == Ok::<ConsumerModel, ErrorModel>(
                    final(self)@,
                ),
                Err(e) => {
                    &&& after_message(old(self)@, message@) == Err::<ConsumerModel, ErrorModel>(e@)
                    &&& final(self)@ == old(self)@
                },
            },
    {
        let bytes: Vec<u8> = copy_bytes(message);
        let mut transaction = self.path_segment_pool.transaction();
        let actions = match Message::from_bytes_with_pool_txn(bytes, &mut transaction) {
            Ok(decoded) => decoded.actions,
            Err(e) => {
                transaction.abort();
                return Err(e);
            },
        };
        let ghost acts = action::action_views(actions@);
        let snapshot_first = actions.len() > 0 && matches!(actions[0], Action::Snapshot { .. });
        assert(snapshot_first == starts_with_snapshot(acts)) by {
            assert(acts.len() == actions@.len());
            if actions@.len() > 0 {
                assert(acts[0] == actions@[0]@);
            }
        }
        if !self.initialized && !snapshot_first {
            transaction.abort();
            return Err(
                JsyncError::new(
                    JsyncErrorKind::InitialSnapshotRequired,
                    "The first Jsync message must start with SNAPSHOT.",
                ),
            );
        }
        let working = match &self.document {
            Some(document) => json::copy_value(document),
            None => JsonValue::Null,
        };
        match apply_actions(working, actions) {
            Ok(document) => {
                transaction.commit();
                self.document = Some(document);
                self.initialized = true;
                Ok(())
            },
            Err(e) => {
                transaction.abort();
                Err(e)
            },
        }
    }
}

impl Default for Consumer {
    fn default() -> (consumer: Self)
        ensures
            consumer@ == empty_consumer(),
    {
        Consumer::new()
    }
}

/// Copies bytes.
fn copy_bytes(bytes: &[u8]) -> (copy: Vec<u8>)
    ensures
        copy@ == bytes@,
{
    let mut copy: Vec<u8> = Vec::new();
    copy.extend_from_slice(bytes);
    assert(copy@ =~= bytes@);
    copy
}

} // verus!
