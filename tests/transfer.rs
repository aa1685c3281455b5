use ztp::receiver::{copy_data, reply_for, Receiver, ReceiverAction, ReceiverPhase};
use ztp::sender::{classify_reply, requested_resource, start_transfer, Reply, Sender, SenderStage};
use ztp::ztp::{ZTPMetadata, ZTPRequest, ZTPRequestCode, ZTPResponse, ZTPResponseCode, ZTPResponseData};

const HONEST: u8 = 99;
const SPOIL: u8 = 0;

fn resource(n: usize) -> Vec<u8> {
    (0..n).map(|i| (i * 7 % 251) as u8).collect()
}

fn ack_bytes() -> Vec<u8> {
    ZTPResponse::new(ZTPResponseCode::Ack, None, None).encode_to_vec()
}

fn chunk_ack_bytes(id: usize) -> Vec<u8> {
    ZTPResponse::new(ZTPResponseCode::Ack, Some(ZTPResponseData::PackageIndex(id)), None).encode_to_vec()
}

fn nack_bytes() -> Vec<u8> {
    ZTPResponse::new(ZTPResponseCode::Nack, None, None).encode_to_vec()
}

fn reply_bytes(a: ReceiverAction) -> Option<Vec<u8>> {
    reply_for(a).map(|r| r.encode_to_vec())
}

/// Runs a whole transfer over a lossless link; the receiver's hook draws
/// from `draws`, then honestly.
fn run_transfer(data: &[u8], chunk: usize, draws: &[u8]) -> (Receiver, Sender, usize) {
    let mut sender = start_transfer(Some(data), chunk, 10).unwrap();
    let mut receiver = Receiver::new(chunk, 10, 30);
    let mut sends = 0;
    let mut k = 0;
    while sender.is_active() {
        let wire = sender.outgoing(data).encode_to_vec();
        sends += 1;
        let resp = ZTPResponse::decode_from_slice(&wire).unwrap().0;
        let draw = if k < draws.len() { draws[k] } else { HONEST };
        k += 1;
        let action = receiver.receive_with_draw(&resp, draw);
        let reply = reply_bytes(action);
        sender.on_datagram(reply.as_deref());
    }
    let end = sender.outgoing(data);
    assert_eq!(end.get_code(), ZTPResponseCode::EndRequest);
    receiver.receive_with_draw(&end, HONEST);
    (receiver, sender, sends)
}

#[test]
fn scenario_2500_bytes_in_1024_byte_chunks() {
    let data = resource(2500);
    let sender = start_transfer(Some(&data), 1024, 10).unwrap();
    let md = sender.metadata();
    assert_eq!(md.size(), 2500);
    assert_eq!(md.count(), 3);
    let (receiver, sender, sends) = run_transfer(&data, 1024, &[]);
    assert_eq!(sender.stage(), SenderStage::Finished);
    assert_eq!(sends, 4);
    assert_eq!(receiver.phase(), ReceiverPhase::Complete);
    assert_eq!(receiver.metadata().unwrap().count(), 3);
    for id in 0..3 {
        assert!(receiver.has_received(id));
    }
    assert!(!receiver.has_received(3));
    let out = receiver.into_resource().unwrap();
    assert_eq!(out.len(), 2500);
    assert_eq!(out, data);
}

#[test]
fn chunks_of_the_sender() {
    let data = resource(2500);
    let mut sender = Sender::new(2500, 1024, 10);
    let md = sender.outgoing(&data);
    assert_eq!(md.get_code(), ZTPResponseCode::Metadata);
    sender.on_reply(Reply::Ack);
    let mut joined = Vec::new();
    let mut lens = Vec::new();
    for id in 0..3u64 {
        assert_eq!(sender.stage(), SenderStage::Chunk(id as usize));
        let resp = sender.outgoing(&data);
        assert_eq!(resp.get_pkg_id(), Some(id));
        assert_eq!(resp.hash_and_cmp(), Some(true));
        let b = resp.get_bytes().unwrap();
        lens.push(b.len());
        joined.extend_from_slice(b);
        sender.on_reply(Reply::Ack);
    }
    assert_eq!(lens, vec![1024, 1024, 452]);
    assert_eq!(joined, data);
    assert_eq!(sender.stage(), SenderStage::Finished);
    assert!(!sender.is_active());
}

#[test]
fn exact_multiple_sends_no_empty_chunk() {
    let data = resource(2048);
    let (receiver, _, sends) = run_transfer(&data, 1024, &[]);
    assert_eq!(sends, 3);
    assert!(!receiver.has_received(2));
    assert_eq!(receiver.into_resource().unwrap(), data);
}

#[test]
fn empty_resource_is_one_empty_chunk() {
    let data: Vec<u8> = Vec::new();
    let (receiver, _, sends) = run_transfer(&data, 1024, &[]);
    assert_eq!(sends, 2);
    assert!(receiver.has_received(0));
    assert_eq!(receiver.into_resource().unwrap(), data);
}

#[test]
fn scenario_resource_not_found() {
    let req = ZTPRequest::new(ZTPRequestCode::Get, Some("missing.jpg".to_string())).encode_to_vec();
    assert_eq!(requested_resource(&req), Some("missing.jpg".to_string()));
    let reply = match start_transfer(None, 1024, 10) {
        Err(r) => r,
        Ok(_) => panic!("a missing resource starts no transfer"),
    };
    assert_eq!(reply.get_code(), ZTPResponseCode::NotFound);
    let mut receiver = Receiver::new(1024, 10, 30);
    let wire = reply.encode_to_vec();
    let action = receiver.on_datagram(Some(&wire));
    assert_eq!(action, ReceiverAction::Nothing);
    assert_eq!(receiver.phase(), ReceiverPhase::NotFound);
    assert!(!receiver.is_active());
    assert!(receiver.into_resource().is_none());
}

#[test]
fn requested_resource_needs_a_named_get() {
    let conn = ZTPRequest::new(ZTPRequestCode::Conn, None).encode_to_vec();
    assert_eq!(requested_resource(&conn), None);
    let post = ZTPRequest::new(ZTPRequestCode::Post, Some("x".to_string())).encode_to_vec();
    assert_eq!(requested_resource(&post), None);
    assert_eq!(requested_resource(&[0, 0]), None);
    assert_eq!(requested_resource(&[0xff]), None);
}

#[test]
fn scenario_corrupted_first_chunk_is_retransmitted() {
    let data = resource(2500);
    let mut sender = Sender::new(2500, 1024, 10);
    let mut receiver = Receiver::new(1024, 10, 30);
    let md = sender.outgoing(&data);
    assert_eq!(receiver.receive_with_draw(&md, HONEST), ReceiverAction::SendAck);
    sender.on_reply(Reply::Ack);

    let first = sender.outgoing(&data).encode_to_vec();
    let resp = ZTPResponse::decode_from_slice(&first).unwrap().0;
    assert_eq!(receiver.receive_with_draw(&resp, SPOIL), ReceiverAction::SendNack);
    assert!(receiver.assembled().iter().all(|b| *b == 0));
    assert!(!receiver.has_received(0));
    sender.on_datagram(Some(&nack_bytes()));
    assert_eq!(sender.stage(), SenderStage::Chunk(0));

    let second = sender.outgoing(&data).encode_to_vec();
    assert_eq!(second, first);
    let resp = ZTPResponse::decode_from_slice(&second).unwrap().0;
    assert_eq!(receiver.receive_with_draw(&resp, HONEST), ReceiverAction::AckChunk(0));
    assert!(receiver.has_received(0));
    assert_eq!(&receiver.assembled()[..1024], &data[..1024]);
    assert!(receiver.assembled()[1024..].iter().all(|b| *b == 0));
    sender.on_datagram(Some(&chunk_ack_bytes(0)));
    assert_eq!(sender.stage(), SenderStage::Chunk(1));
}

#[test]
fn replayed_chunk_is_acknowledged_not_appended() {
    let data = resource(3000);
    let mut sender = Sender::new(3000, 1024, 10);
    let mut receiver = Receiver::new(1024, 10, 30);
    receiver.receive_with_draw(&sender.outgoing(&data), HONEST);
    sender.on_reply(Reply::Ack);
    let chunk = sender.outgoing(&data).encode_to_vec();
    for _ in 0..5 {
        let resp = ZTPResponse::decode_from_slice(&chunk).unwrap().0;
        assert_eq!(receiver.receive_with_draw(&resp, HONEST), ReceiverAction::AckChunk(0));
        assert_eq!(receiver.assembled().len(), 3000);
        assert_eq!(&receiver.assembled()[..1024], &data[..1024]);
        assert!(receiver.assembled()[1024..].iter().all(|b| *b == 0));
    }
}

#[test]
fn corrupted_transfer_still_completes() {
    let data = resource(5000);
    let (receiver, _, sends) = run_transfer(&data, 1024, &[HONEST, SPOIL, SPOIL, HONEST, SPOIL]);
    assert_eq!(sends, 6 + 3);
    assert_eq!(receiver.into_resource().unwrap(), data);
}

#[test]
fn sender_aborts_after_exactly_max_attempts_of_silence() {
    let mut sender = Sender::new(100, 10, 4);
    for _ in 0..3 {
        sender.on_datagram(None);
        assert_eq!(sender.stage(), SenderStage::Metadata);
    }
    sender.on_datagram(None);
    assert_eq!(sender.stage(), SenderStage::Aborted);
    let end = sender.outgoing(&[0u8; 100]);
    assert_eq!(end.get_code(), ZTPResponseCode::EndRequest);
    sender.on_reply(Reply::Ack);
    assert_eq!(sender.stage(), SenderStage::Aborted);
}

#[test]
fn sender_budget_is_per_chunk() {
    let mut sender = Sender::new(30, 10, 3);
    sender.on_reply(Reply::Other);
    sender.on_reply(Reply::Other);
    sender.on_reply(Reply::Ack);
    assert_eq!(sender.stage(), SenderStage::Chunk(0));
    sender.on_reply(Reply::Silence);
    sender.on_reply(Reply::Silence);
    assert_eq!(sender.stage(), SenderStage::Chunk(0));
    sender.on_reply(Reply::Other);
    assert_eq!(sender.stage(), SenderStage::Aborted);
}

#[test]
fn receiver_times_out_after_exactly_max_idle_polls() {
    let mut receiver = Receiver::new(1024, 3, 30);
    receiver.on_datagram(None);
    receiver.on_datagram(None);
    assert_eq!(receiver.phase(), ReceiverPhase::AwaitMetadata);
    receiver.on_datagram(None);
    assert_eq!(receiver.phase(), ReceiverPhase::TimedOut);
    assert!(receiver.into_resource().is_none());
}

#[test]
fn timed_out_transfer_discards_partial_output() {
    let data = resource(2500);
    let mut sender = Sender::new(2500, 1024, 10);
    let mut receiver = Receiver::new(1024, 2, 30);
    receiver.receive_with_draw(&sender.outgoing(&data), HONEST);
    sender.on_reply(Reply::Ack);
    receiver.receive_with_draw(&sender.outgoing(&data), HONEST);
    assert!(receiver.has_received(0));
    receiver.on_silence();
    assert_eq!(receiver.phase(), ReceiverPhase::Receiving);
    receiver.on_silence();
    assert_eq!(receiver.phase(), ReceiverPhase::TimedOut);
    assert!(receiver.into_resource().is_none());
}

#[test]
fn receiver_nacks_garbage_while_receiving() {
    let mut receiver = Receiver::new(4, 5, 0);
    let md = Sender::new(10, 4, 3).outgoing(&[0u8; 10]);
    assert_eq!(receiver.receive(&md), ReceiverAction::SendAck);
    assert_eq!(receiver.on_datagram(Some(&[0xff, 0xff])), ReceiverAction::SendNack);
    assert_eq!(receiver.receive_garbage(), ReceiverAction::SendNack);
    assert_eq!(receiver.phase(), ReceiverPhase::Receiving);
    assert_eq!(receiver.receive(&md), ReceiverAction::SendAck);
    let bad = ZTPResponse::new(ZTPResponseCode::Data, Some(ZTPResponseData::PackageIndex(1)), Some(1));
    assert_eq!(receiver.receive(&bad), ReceiverAction::SendNack);
    assert_eq!(receiver.assembled(), &vec![0u8; 10]);
    assert!(!receiver.has_received(1));
}

#[test]
fn receiver_ignores_chunks_before_metadata() {
    let mut receiver = Receiver::new(1024, 2, 0);
    let data = vec![1u8, 2, 3];
    let chunk = ZTPResponse::new(ZTPResponseCode::Data, Some(ZTPResponseData::Bytes(data)), Some(0));
    assert_eq!(receiver.receive(&chunk), ReceiverAction::Nothing);
    assert_eq!(receiver.phase(), ReceiverPhase::AwaitMetadata);
    assert!(receiver.assembled().is_empty());
    assert_eq!(receiver.receive(&chunk), ReceiverAction::Nothing);
    assert_eq!(receiver.phase(), ReceiverPhase::TimedOut);
}

#[test]
fn reply_classification() {
    assert_eq!(classify_reply(None, None), Reply::Silence);
    assert_eq!(classify_reply(Some(&ack_bytes()), None), Reply::Ack);
    assert_eq!(classify_reply(Some(&nack_bytes()), None), Reply::Other);
    assert_eq!(classify_reply(Some(&[42]), None), Reply::Other);
    assert_eq!(classify_reply(Some(&chunk_ack_bytes(3)), Some(3)), Reply::Ack);
    assert_eq!(classify_reply(Some(&chunk_ack_bytes(3)), Some(2)), Reply::Other);
    assert_eq!(classify_reply(Some(&ack_bytes()), Some(0)), Reply::Other);
    assert_eq!(classify_reply(Some(&chunk_ack_bytes(0)), None), Reply::Other);
}

#[test]
fn stale_metadata_ack_does_not_retire_a_chunk() {
    let data = resource(2000);
    let mut sender = Sender::new(2000, 1024, 10);
    sender.on_datagram(Some(&ack_bytes()));
    assert_eq!(sender.stage(), SenderStage::Chunk(0));
    sender.on_datagram(Some(&ack_bytes()));
    assert_eq!(sender.stage(), SenderStage::Chunk(0));
    let resp = sender.outgoing(&data);
    assert_eq!(resp.get_pkg_id(), Some(0));
    sender.on_datagram(Some(&chunk_ack_bytes(0)));
    assert_eq!(sender.stage(), SenderStage::Chunk(1));
}

#[test]
fn chunks_out_of_order_reassemble() {
    let mut data = vec![1u8; 1024];
    data.push(0);
    let mut sender = Sender::new(data.len(), 1024, 10);
    let md = sender.outgoing(&data);
    sender.on_reply(Reply::Ack);
    let first = sender.outgoing(&data);
    sender.on_reply(Reply::Ack);
    let second = sender.outgoing(&data);
    let mut receiver = Receiver::new(1024, 10, 30);
    assert_eq!(receiver.receive_with_draw(&md, HONEST), ReceiverAction::SendAck);
    assert_eq!(receiver.receive_with_draw(&second, HONEST), ReceiverAction::AckChunk(1));
    assert_eq!(receiver.receive_with_draw(&first, HONEST), ReceiverAction::AckChunk(0));
    assert_eq!(receiver.receive_with_draw(&second, HONEST), ReceiverAction::AckChunk(1));
    let end = ZTPResponse::new(ZTPResponseCode::EndRequest, None, None);
    receiver.receive_with_draw(&end, HONEST);
    assert_eq!(receiver.phase(), ReceiverPhase::Complete);
    assert!(receiver.is_whole());
    assert_eq!(receiver.into_resource().unwrap(), data);
}

#[test]
fn end_with_a_missing_chunk_saves_nothing() {
    let data = resource(2500);
    let mut sender = Sender::new(2500, 1024, 10);
    let mut receiver = Receiver::new(1024, 10, 30);
    receiver.receive_with_draw(&sender.outgoing(&data), HONEST);
    sender.on_reply(Reply::Ack);
    receiver.receive_with_draw(&sender.outgoing(&data), HONEST);
    let end = ZTPResponse::new(ZTPResponseCode::EndRequest, None, None);
    receiver.receive_with_draw(&end, HONEST);
    assert_eq!(receiver.phase(), ReceiverPhase::Complete);
    assert!(!receiver.is_whole());
    assert!(receiver.into_resource().is_none());
}

#[test]
fn chunk_that_does_not_fit_is_refused() {
    let data = resource(2500);
    let mut receiver = Receiver::new(1024, 10, 0);
    let md = Sender::new(2500, 1024, 10).outgoing(&data);
    receiver.receive(&md);
    let short = ZTPResponse::new(ZTPResponseCode::Data, Some(ZTPResponseData::Bytes(vec![1, 2])), Some(0));
    assert_eq!(receiver.receive(&short), ReceiverAction::SendNack);
    let beyond = ZTPResponse::new(ZTPResponseCode::Data, Some(ZTPResponseData::Bytes(vec![1; 452])), Some(3));
    assert_eq!(receiver.receive(&beyond), ReceiverAction::SendNack);
    let last = ZTPResponse::new(ZTPResponseCode::Data, Some(ZTPResponseData::Bytes(vec![1; 452])), Some(2));
    assert_eq!(receiver.receive(&last), ReceiverAction::AckChunk(2));
    assert_eq!(&receiver.assembled()[2048..], &vec![1u8; 452][..]);
}

#[test]
fn metadata_with_wrong_count_is_ignored() {
    let mut receiver = Receiver::new(1024, 10, 0);
    let md = ZTPResponse::new(ZTPResponseCode::Metadata, Some(ZTPResponseData::Metadata(ZTPMetadata::new(2500, 2))), None);
    assert_eq!(receiver.receive(&md), ReceiverAction::Nothing);
    assert_eq!(receiver.phase(), ReceiverPhase::AwaitMetadata);
}

#[test]
fn replies_carry_what_they_acknowledge() {
    assert!(reply_for(ReceiverAction::Nothing).is_none());
    assert_eq!(reply_bytes(ReceiverAction::SendAck), Some(ack_bytes()));
    assert_eq!(reply_bytes(ReceiverAction::AckChunk(7)), Some(chunk_ack_bytes(7)));
    assert_eq!(reply_bytes(ReceiverAction::SendNack), Some(nack_bytes()));
}

#[test]
fn copy_data_appends() {
    let mut buf = vec![1u8];
    assert_eq!(copy_data(&mut buf, &[2, 3]), 2);
    assert_eq!(copy_data(&mut buf, &[]), 0);
    assert_eq!(buf, vec![1, 2, 3]);
}
