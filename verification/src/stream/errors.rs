//! Errors raised by the porter.

use crate::stream::request::{ObjectId, PeerAddr};
use crate::stream::status_codes;
use vstd::prelude::*;

verus! {

/// Errors in the contents of a request read from (or written into) a connection.
#[derive(Debug, Clone, Copy, PartialEq, Eq, Structural)]
pub enum RequestError {
    /// The first byte of a request does not name a known request type.
    InvalidRequestType(u8),
    /// The first byte of a SYNC subtask does not name a known subtask type.
    InvalidSubtaskType(u8),
    /// The first byte of a peer address does not name a known address type.
    InvalidPeerAddressType(u8),
    /// A list of object IDs has more entries than the wire format allows.
    ObjectIdListTooLong(usize),
}

/// Errors while sending objects to a peer. Store and connection failures carry the message of
/// the underlying error.
#[derive(Debug, Clone, PartialEq, Eq)]
pub enum ObjectSendError {
    ObjectDeletionScheduled(PeerAddr, Vec<ObjectId>),
    ObjectMetaTooLarge(PeerAddr, ObjectId, usize),
    ObjectDataTooLarge(PeerAddr, ObjectId, usize),
    StoreError(PeerAddr, String),
    ObjectsNotFound(PeerAddr, Vec<ObjectId>),
    ConnectionError(Option<PeerAddr>, String),
}

impl ObjectSendError {
    /// The status code sent back to the peer for this error; none for connection failures,
    /// after which nothing can be sent.
    pub fn response_code(&self) -> (r: Option<u8>)
        ensures
            r == match self {
                ObjectSendError::ObjectDeletionScheduled(..) => Some(
                    status_codes::OB_DELETION_SCHEDULED_ERR,
                ),
                ObjectSendError::ObjectMetaTooLarge(..) => Some(status_codes::OB_META_TOO_LARGE_ERR),
                ObjectSendError::ObjectDataTooLarge(..) => Some(status_codes::OB_DATA_TOO_LARGE_ERR),
                ObjectSendError::ObjectsNotFound(..) => Some(status_codes::OB_NOT_FOUND_ERR),
                ObjectSendError::StoreError(..) => Some(status_codes::PLASMA_STORE_ERR),
                ObjectSendError::ConnectionError(..) => None,
            },
    {
        match self {
            ObjectSendError::ObjectDeletionScheduled(_, _) => Some(
                status_codes::OB_DELETION_SCHEDULED_ERR,
            ),
            ObjectSendError::ObjectMetaTooLarge(_, _, _) => Some(status_codes::OB_META_TOO_LARGE_ERR),
            ObjectSendError::ObjectDataTooLarge(_, _, _) => Some(status_codes::OB_DATA_TOO_LARGE_ERR),
            ObjectSendError::ObjectsNotFound(_, _) => Some(status_codes::OB_NOT_FOUND_ERR),
            ObjectSendError::StoreError(_, _) => Some(status_codes::PLASMA_STORE_ERR),
            ObjectSendError::ConnectionError(_, _) => None,
        }
    }
}

/// Errors while receiving objects from a peer. Store and connection failures carry the
/// message of the underlying error.
#[derive(Debug, Clone, PartialEq, Eq)]
pub enum ObjectReceiveError {
    AlreadyReceiving(PeerAddr, Vec<ObjectId>),
    AlreadyInStore(PeerAddr, Vec<ObjectId>),
    ObjectMetaTooLarge(PeerAddr, ObjectId, usize),
    ObjectDataTooLarge(PeerAddr, ObjectId, usize),
    ZeroLengthObjectData(PeerAddr, ObjectId),
    PeerError(PeerAddr, u8),
    StoreError(PeerAddr, String),
    ConnectionError(Option<PeerAddr>, String),
}

} // verus!
