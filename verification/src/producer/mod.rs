//! Jsync message producer.

pub mod arrays;
pub mod cost;
pub mod diff;
pub mod digest;
pub mod hunks;
pub mod myers;
pub mod objects;
pub mod sequences;
pub mod strings;

use vstd::prelude::*;

use crate::cbor;
use crate::error::JsyncError;
use crate::json;
use crate::json::{Json, JsonValue};
use crate::laws;
use crate::message;
use crate::message::action;
use crate::message::action::{Act, Action, PathSegment, Segment};
use crate::message::encoder;
use crate::message::json_cbor;
use crate::message::{Message, ProducerPathSegmentPool};

verus! {

/// Produces Jsync snapshots and incremental messages for a JSON document.
#[derive(Debug)]
pub struct Producer {
    current_document: JsonValue,
    last_emitted_document: Option<JsonValue>,
    path_segment_pool: ProducerPathSegmentPool,
    array_patches: bool,
}

/// The model of a producer.
#[verifier::ext_equal]
pub struct ProducerModel {
    /// The current document.
    pub current: Json,
    /// The document that the last message led to.
    pub emitted: Option<Json>,
    /// The path segment pool.
    pub pool: Seq<Segment>,
    /// Whether array patches may be sent.
    pub array_patches: bool,
}

impl View for Producer {
    type V = ProducerModel;

    closed spec fn view(&self) -> ProducerModel {
        ProducerModel {
            current: self.current_document@,
            emitted: match self.last_emitted_document {
                Some(document) => Some(document@),
                None => None,
            },
            pool: self.path_segment_pool@,
            array_patches: self.array_patches,
        }
    }
}

impl ProducerModel {
    /// What every producer keeps: the documents can be held in memory, the last emitted one can
    /// be sent, and the pool can be held in memory and holds no segment twice.
    pub open spec fn well_formed(self) -> bool {
        &&& json::valid(self.current)
        &&& json::in_memory(self.current)
        &&& self.emitted matches Some(document) ==> json_cbor::sound(document)
        &&& self.pool.no_duplicates()
        &&& self.pool.len() <= isize::MAX
        &&& message::laws::representable_path(self.pool)
    }

    /// Whether the last message led to the current document.
    pub open spec fn up_to_date(self) -> bool {
        self.emitted matches Some(document) && json::same(document, self.current)
    }

    /// The actions of the next message: a snapshot if there was no message before, and else the
    /// plan that turns the last emitted document into the current one.
    pub open spec fn next_acts(self) -> Seq<Act> {
        match self.emitted {
            None => seq![Act::Snapshot { value: self.current }],
            Some(document) => diff::diff(
                document,
                self.current,
                Seq::empty(),
                self.pool,
                self.array_patches,
            ),
        }
    }

    /// The payload of the next message.
    pub open spec fn next_payload(self) -> cbor::Cbor {
        encoder::paired_payload(self.next_acts(), self.pool, self.pool)
    }

    /// The producer after the next message.
    pub open spec fn after_message(self) -> ProducerModel {
        ProducerModel {
            emitted: Some(self.current),
            pool: encoder::absorb_acts(self.pool, self.next_acts(), self.next_acts().len()),
            ..self
        }
    }
}

/// A producer that has not sent any message.
pub open spec fn fresh_producer(document: Json) -> ProducerModel {
    ProducerModel { current: document, emitted: None, pool: Seq::empty(), array_patches: false }
}

impl Producer {
    #[verifier::type_invariant]
    spec fn inv(self) -> bool {
        self.last_emitted_document matches Some(document) ==> json_cbor::sound(document@)
    }

    /// Creates a producer with the initial JSON document.
    pub fn new(initial_document: JsonValue) -> (producer: Self)
        ensures
            producer@ == fresh_producer(initial_document@),
    {
        Producer {
            current_document: initial_document,
            last_emitted_document: None,
            path_segment_pool: ProducerPathSegmentPool::new(),
            array_patches: false,
        }
    }

    /// Replaces the current JSON document without producing a message yet.
    pub fn update(&mut self, document: JsonValue)
        ensures
            final(self)@ == (ProducerModel { current: document@, ..old(self)@ }),
    {
        proof {
            use_type_invariant(&*self);
        }
        self.current_document = document;
    }

    /// Allows or forbids array patches in the messages to come. A new producer sends none.
    pub fn set_array_patches(&mut self, allowed: bool)
        ensures
            final(self)@ == (ProducerModel { array_patches: allowed, ..old(self)@ }),
    {
        proof {
            use_type_invariant(&*self);
        }
        self.array_patches = allowed;
    }

    /// Returns the current JSON document.
    pub fn document(&self) -> (document: &JsonValue)
        ensures
            document@ == self@.current,
    {
        &self.current_document
    }

    /// The actions of the next message, or `None` when there is no change.
    fn next_actions(&self) -> (result: Result<Option<Vec<Action>>, JsyncError>)
        requires
            self@.well_formed(),
        ensures
            match result {
                Ok(None) => self@.up_to_date(),
                Ok(Some(actions)) => {
                    &&& !self@.up_to_date()
                    &&& action::action_views(actions@) == self@.next_acts()
                    &&& self@.emitted is Some ==> json_cbor::first_unsafe(self@.current) is None
                },
                Err(e) => {
                    let number = json_cbor::first_unsafe(self@.current);
                    &&& !self@.up_to_date()
                    &&& number is Some
                    &&& e@ == json_cbor::unsafe_number_error(number->0)
                },
            },
    {
        match &self.last_emitted_document {
            None => {
                let mut actions: Vec<Action> = Vec::new();
                let snapshot = Action::Snapshot { value: self.current_document.clone() };
                actions.push(snapshot);
                assert(action::action_views(actions@) =~= seq![snapshot@]);
                Ok(Some(actions))
            },
            Some(previous) => {
                if json::same_value(previous, &self.current_document) {
                    return Ok(None);
                }
                let path: Vec<PathSegment> = Vec::new();
                assert(action::path_view(path@) =~= Seq::empty());
                match diff::build_diff(
                    previous,
                    &self.current_document,
                    path.as_slice(),
                    &self.path_segment_pool,
                    self.array_patches,
                ) {
                    Ok(plan) => Ok(Some(plan.actions)),
                    Err(e) => Err(e),
                }
            },
        }
    }

    /// Produces the next Jsync message, or `None` when there is no change.
    ///
    /// The first successful call always emits a SNAPSHOT of the latest current
    /// document, even if `update` was called before that first call.
    pub fn get_message(&mut self) -> (result: Result<Option<Vec<u8>>, JsyncError>)
        ensures
            old(self)@.well_formed(),
            final(self)@.well_formed(),
            match result {
                Ok(None) => old(self)@.up_to_date() && final(self)@ == old(self)@,
                Ok(Some(bytes)) => {
                    let payload = old(self)@.next_payload();
                    &&& !old(self)@.up_to_date()
                    &&& json_cbor::first_unsafe(old(self)@.current) is None
                    &&& old(self)@.next_acts().len() > 0
                    &&& bytes@ == encoder::header() + cbor::cbor_bytes(payload)
                    &&& cbor::nested(payload, cbor::NESTING_LIMIT as int) ==> encoder::carries(
                        bytes@,
                        payload,
                    )
                    &&& final(self)@ == old(self)@.after_message()
                },
                Err(e) => {
                    let number = json_cbor::first_unsafe(old(self)@.current);
                    &&& !old(self)@.up_to_date()
                    &&& number is Some
                    &&& e@ == json_cbor::unsafe_number_error(number->0)
                    &&& final(self)@ == old(self)@
                },
            },
    {
        let emitted: JsonValue = self.current_document.clone();
        let ghost model = self@;
        proof {
            use_type_invariant(&*self);
        }
        let _count: usize = self.path_segment_pool.len();
        let segments = self.path_segment_pool.segments();
        proof {
            message::laws::lemma_in_memory_path(segments@);
        }
        let actions = match self.next_actions() {
            Ok(Some(actions)) => actions,
            Ok(None) => return Ok(None),
            Err(e) => return Err(e),
        };
        proof {
            if json_cbor::first_unsafe(model.current) is None {
                laws::sync::law_due_message_can_be_sent(model);
            } else {
                encoder::lemma_single_error(Act::Snapshot { value: model.current });
            }
        }
        let mut pool = ProducerPathSegmentPool::new();
        std::mem::swap(&mut pool, &mut self.path_segment_pool);
        let result = encode(actions, &mut pool);
        self.path_segment_pool = pool;
        let _count: usize = self.path_segment_pool.len();
        match result {
            Ok(bytes) => {
                self.last_emitted_document = Some(emitted);
                Ok(Some(bytes))
            },
            Err(e) => Err(e),
        }
    }
}

impl Clone for Producer {
    fn clone(&self) -> (copy: Self)
        ensures
            copy@ == self@,
    {
        proof {
            use_type_invariant(self);
        }
        Producer {
            current_document: self.current_document.clone(),
            last_emitted_document: match &self.last_emitted_document {
                Some(document) => Some(document.clone()),
                None => None,
            },
            path_segment_pool: self.path_segment_pool.clone(),
            array_patches: self.array_patches,
        }
    }
}

/// Encodes actions as a message. The pool takes up their path segments, unless that fails.
fn encode(actions: Vec<Action>, pool: &mut ProducerPathSegmentPool) -> (result: Result<
    Vec<u8>,
    JsyncError,
>)
    ensures
        ({
            let acts = action::action_views(actions@);
            let payload = encoder::paired_payload(acts, old(pool)@, old(pool)@);
            match result {
                Ok(bytes) => {
                    &&& encoder::encoding_error(acts) is None
                    &&& bytes@ == encoder::header() + cbor::cbor_bytes(payload)
                    &&& cbor::nested(payload, cbor::NESTING_LIMIT as int) ==> encoder::carries(
                        bytes@,
                        payload,
                    )
                    &&& final(pool)@ == encoder::absorb_acts(old(pool)@, acts, acts.len())
                },
                Err(e) => {
                    &&& encoder::encoding_error(acts) == Some(e@)
                    &&& final(pool)@ == old(pool)@
                },
            }
        }),
{
    let mut txn = pool.transaction();
    assert(txn.total() =~= txn.pool@);
    match Message::new(actions).to_bytes_with_pool_txn(&mut txn) {
        Ok(bytes) => {
            txn.commit();
            Ok(bytes)
        },
        Err(e) => {
            txn.abort();
            Err(e)
        },
    }
}

} // verus!
