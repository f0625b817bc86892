//! Messages: actions, path segment pools and the wire format.

pub mod action;
pub mod decoder;
pub mod encoder;
pub mod json_cbor;
pub mod laws;
pub mod opcode;
pub mod pool;

pub use action::{Action, ArrayPatchEdit, PathSegment, StringPatchEdit};
pub use pool::{
    ConsumerPathSegmentPool, ConsumerPathSegmentPoolTransaction, ProducerPathSegmentPool,
    ProducerPathSegmentPoolTransaction,
};

use vstd::prelude::*;

use crate::cbor;
use crate::error::{ErrorModel, JsyncError};
use action::Act;

verus! {

/// A structured Jsync message.
#[derive(Debug, Clone, PartialEq)]
pub struct Message {
    /// Ordered actions contained in the message.
    pub actions: Vec<Action>,
}

impl View for Message {
    type V = Seq<Act>;

    open spec fn view(&self) -> Seq<Act> {
        action::action_views(self.actions@)
    }
}

impl Message {
    /// Creates a message from already structured actions.
    pub fn new(actions: Vec<Action>) -> (message: Self)
        ensures
            message.actions == actions,
            message@ == action::action_views(actions@),
    {
        Message { actions }
    }

    /// Decodes a message using a caller-owned consumer path segment pool transaction.
    pub fn from_bytes_with_pool_txn(
        bytes: Vec<u8>,
        txn: &mut ConsumerPathSegmentPoolTransaction<'_>,
    ) -> (result: Result<Self, JsyncError>)
        ensures
            ({
                let (after, decoded) = decoder::decode(bytes@, old(txn).total());
                &&& final(txn).total() == after
                &&& match result {
                    Ok(message) => decoded == Ok::<Seq<Act>, ErrorModel>(message@),
                    Err(e) => decoded == Err::<Seq<Act>, ErrorModel>(e@),
                }
            }),
            final(txn).pool@ == old(txn).pool@,
            *final(final(txn).pool) == *final(old(txn).pool),
    {
        match decoder::from_bytes_with_pool_txn(bytes.as_slice(), txn) {
            Ok(actions) => Ok(Message { actions }),
            Err(e) => Err(e),
        }
    }

    /// Encodes this message using a caller-owned producer path segment pool
    /// transaction.
    pub fn to_bytes_with_pool_txn(
        &self,
        txn: &mut ProducerPathSegmentPoolTransaction<'_>,
    ) -> (result: Result<Vec<u8>, JsyncError>)
        requires
            old(txn).well_formed(),
        ensures
            final(txn).well_formed(),
            final(txn).total() == encoder::pool_after(old(txn).total(), self@),
            ({
                let payload = encoder::paired_payload(self@, old(txn).pool@, old(txn).total());
                match result {
                    Ok(bytes) => {
                        &&& encoder::encoding_error(self@) is None
                        &&& bytes@ == encoder::header() + cbor::cbor_bytes(payload)
                        &&& cbor::nested(
                            payload,
                            cbor::NESTING_LIMIT as int,
                        ) ==> encoder::carries(bytes@, payload)
                        &&& bytes@.len() <= 3 + cbor::cbor_size(payload)
                        &&& cbor::float_free(payload) ==> bytes@.len() == 3 + cbor::cbor_size(
                            payload,
                        )
                    },
                    Err(e) => encoder::encoding_error(self@) == Some(e@),
                }
            }),
            final(txn).pool@ == old(txn).pool@,
            *final(final(txn).pool) == *final(old(txn).pool),
    {
        encoder::to_paired_bytes(self.actions.as_slice(), txn)
    }
}

} // verus!
