use winterfell::stream::errors::{ObjectSendError, RequestError};
use winterfell::stream::header::{build_object_header, parse_object_header, HeaderError};
use winterfell::stream::ids::{
    add_to_receiving, check_deleting, finish_send, remove_from_deleting, remove_from_receiving,
    retrieved_objects, ObjectIdSet,
};
use winterfell::stream::request::{reaches_ipv6, PeerAddr, ReadError, Request, SyncSubtask};
use winterfell::stream::server::{after_failed_accept, sync_subtask_status, Cla};
use winterfell::stream::status_codes;

fn oid(b: u8) -> [u8; 20] {
    [b; 20]
}

#[test]
fn header_round_trip() {
    let h = build_object_header(100, 5000).unwrap();
    assert_eq!(h, 100 | (5000u64 << 16));
    assert_eq!(parse_object_header(h), (100, 5000));
}

#[test]
fn header_limits() {
    // the largest sizes that the header's fields hold are accepted and read back
    let h = build_object_header(65_535, 281_474_976_710_655).unwrap();
    assert_eq!(parse_object_header(h), (65_535, 281_474_976_710_655));
    assert_eq!(
        build_object_header(65_536, 10),
        Err(HeaderError::ObjectMetaTooLarge(65_536))
    );
    assert_eq!(
        build_object_header(12, 281_474_976_710_656),
        Err(HeaderError::ObjectDataTooLarge(12))
    );
    // the data size error carries the metadata size
    assert_eq!(
        build_object_header(12, 281_474_976_710_657),
        Err(HeaderError::ObjectDataTooLarge(12))
    );
}

#[test]
fn copy_request_round_trip() {
    let request = Request::Copy(vec![oid(1), oid(2)]);
    let bytes = request.write_into().unwrap();
    assert_eq!(bytes[0], 2);
    assert_eq!(bytes.len(), 1 + 2 + 40);
    let (parsed, used) = Request::read_from(&bytes).unwrap().unwrap();
    assert_eq!(parsed, request);
    assert_eq!(used, bytes.len());
}

#[test]
fn sync_request_round_trip() {
    let peer = PeerAddr::V4 { ip: [127, 0, 0, 1], port: 2021 };
    let request = Request::Sync(vec![
        SyncSubtask::Copy { from: peer, objects: vec![oid(3)] },
        SyncSubtask::Take { from: peer, objects: vec![oid(4), oid(5)] },
    ]);
    let bytes = request.write_into().unwrap();
    let (parsed, used) = Request::read_from(&bytes).unwrap().unwrap();
    assert_eq!(parsed, request);
    assert_eq!(used, bytes.len());
}

#[test]
fn id_list_limit() {
    let ids = vec![oid(1); 65_536];
    assert_eq!(
        Request::Copy(ids.clone()).write_into(),
        Err(RequestError::ObjectIdListTooLong(65_536))
    );
    let request = Request::Take(vec![oid(2); 65_535]);
    let bytes = request.write_into().unwrap();
    let (parsed, used) = Request::read_from(&bytes).unwrap().unwrap();
    assert_eq!(parsed, request);
    assert_eq!(used, bytes.len());
}

#[test]
fn request_read_errors() {
    assert_eq!(Request::read_from(&[]), Ok(None));
    assert_eq!(
        Request::read_from(&[9]),
        Err(ReadError::Request(RequestError::InvalidRequestType(9)))
    );
    assert_eq!(Request::read_from(&[2, 1]), Err(ReadError::UnexpectedEof));
}

#[test]
fn object_id_set_operations() {
    let mut set = ObjectIdSet::new();
    assert_eq!(set.len(), 0);
    set.insert(oid(1));
    set.insert(oid(1));
    set.insert(oid(2));
    assert_eq!(set.len(), 2);
    assert!(set.contains(&oid(1)));
    set.remove(&oid(1));
    assert!(!set.contains(&oid(1)));
    assert!(set.contains(&oid(2)));
}

#[test]
fn deleting_marks_conflict() {
    let mut deleting = ObjectIdSet::new();
    let ids = [oid(1), oid(2)];
    assert!(check_deleting(&mut deleting, &ids, true).is_empty());
    assert!(deleting.contains(&oid(1)));
    let conflicts = check_deleting(&mut deleting, &[oid(2), oid(3)], true);
    assert_eq!(conflicts, vec![oid(2)]);
    assert!(!deleting.contains(&oid(3)));
    remove_from_deleting(&mut deleting, &ids);
    assert_eq!(deleting.len(), 0);
}

#[test]
fn receiving_marks_conflict() {
    let mut receiving = ObjectIdSet::new();
    assert!(add_to_receiving(&mut receiving, &[oid(7)]).is_ok());
    assert_eq!(add_to_receiving(&mut receiving, &[oid(8), oid(7)]), Err(vec![oid(7)]));
    remove_from_receiving(&mut receiving, &[oid(7)]);
    assert!(add_to_receiving(&mut receiving, &[oid(7)]).is_ok());
}

#[test]
fn send_error_response_codes() {
    let peer = PeerAddr::V4 { ip: [10, 0, 0, 1], port: 2021 };
    assert_eq!(
        ObjectSendError::ObjectDeletionScheduled(peer, vec![]).response_code(),
        Some(status_codes::OB_DELETION_SCHEDULED_ERR)
    );
    assert_eq!(
        ObjectSendError::ObjectMetaTooLarge(peer, oid(1), 1).response_code(),
        Some(0x51)
    );
    assert_eq!(
        ObjectSendError::ObjectDataTooLarge(peer, oid(1), 1).response_code(),
        Some(0x52)
    );
    assert_eq!(ObjectSendError::ObjectsNotFound(peer, vec![]).response_code(), Some(0x53));
    assert_eq!(
        ObjectSendError::StoreError(peer, String::from("x")).response_code(),
        Some(0x54)
    );
    assert_eq!(
        ObjectSendError::ConnectionError(None, String::from("closed")).response_code(),
        None
    );
}

#[test]
fn default_arguments() {
    let args = Cla::with_defaults();
    assert_eq!(args.port, "2021");
    assert_eq!(args.socket, "/tmp/plasma");
    assert_eq!(args.max_connections, 128);
}

#[test]
fn ipv6_peers_are_detected_before_reading() {
    let v6 = PeerAddr::V6 { ip: [1; 16], port: 80 };
    let request = Request::Sync(vec![SyncSubtask::Copy { from: v6, objects: vec![oid(1)] }]);
    let bytes = request.write_into().unwrap();
    assert!(reaches_ipv6(&bytes));
    let v4 = PeerAddr::V4 { ip: [1, 2, 3, 4], port: 80 };
    let request = Request::Sync(vec![SyncSubtask::Copy { from: v4, objects: vec![oid(1)] }]);
    assert!(!reaches_ipv6(&request.write_into().unwrap()));
    assert!(!reaches_ipv6(&Request::Take(vec![oid(2)]).write_into().unwrap()));
    assert!(!reaches_ipv6(&[]));
    // an invalid subtask before the IPv6 address stops the read first
    assert!(!reaches_ipv6(&[1, 2, 0, 9, 6, 0, 0]));
    // an IPv4 peer reads back with its port
    let (parsed, _) = Request::read_from(&request.write_into().unwrap()).unwrap().unwrap();
    assert_eq!(parsed, request);
}

#[test]
fn accept_backoff_policy() {
    assert_eq!(after_failed_accept(1), Some((1, 2)));
    assert_eq!(after_failed_accept(4), Some((4, 5)));
    assert_eq!(after_failed_accept(5), None);
}

#[test]
fn sync_status_codes() {
    assert_eq!(sync_subtask_status(true), status_codes::SUCCESS);
    assert_eq!(sync_subtask_status(false), status_codes::FAILURE);
}

#[test]
fn subtask_incoming_objects() {
    let peer = PeerAddr::V4 { ip: [1, 1, 1, 1], port: 1 };
    let subtask = SyncSubtask::Take { from: peer, objects: vec![oid(4), oid(5)] };
    assert_eq!(subtask.incoming_objects(), &[oid(4), oid(5)]);
}

#[test]
fn finished_sends_release_their_objects() {
    let mut deleting = ObjectIdSet::new();
    assert!(check_deleting(&mut deleting, &[oid(1), oid(2)], true).is_empty());
    // a send that does not delete leaves the schedule as it is
    finish_send(&mut deleting, &[oid(1)], false);
    assert!(deleting.contains(&oid(1)));
    finish_send(&mut deleting, &[oid(1), oid(2)], true);
    assert_eq!(deleting.len(), 0);
    assert!(check_deleting(&mut deleting, &[oid(2)], true).is_empty());
}

#[test]
fn objects_not_found_are_reported() {
    let found = retrieved_objects(vec![Some(1u8), Some(2), Some(3)]);
    assert_eq!(found, Ok(vec![1, 2, 3]));
    // the second of two requested objects is missing: the request fails and names it
    assert_eq!(retrieved_objects(vec![Some(1u8), None]), Err(vec![1]));
    assert_eq!(retrieved_objects::<u8>(vec![None, Some(4), None]), Err(vec![0, 2]));
    assert_eq!(retrieved_objects::<u8>(vec![]), Ok(vec![]));
}

#[test]
fn peer_error_reasons() {
    assert_eq!(
        status_codes::peer_error_reason(status_codes::OB_DELETION_SCHEDULED_ERR),
        Some("deletion in progress")
    );
    assert_eq!(status_codes::peer_error_reason(0x53), Some("not found"));
    assert_eq!(status_codes::peer_error_reason(0x54), Some("peer plasma store error"));
    assert_eq!(status_codes::peer_error_reason(status_codes::SUCCESS), None);
}
