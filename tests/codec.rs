use ztp::varint::{read_varint, varint_len, write_varint};
use ztp::ztp::{
    extract_metadata, parse_request, parse_response, FormatError, ZTPEncodeError, ZTPMetadata,
    ZTPRequest, ZTPRequestCode, ZTPResponse, ZTPResponseCode, ZTPResponseData,
};

#[test]
fn varint_small_and_large_values() {
    let cases: Vec<(u64, Vec<u8>)> = vec![
        (0, vec![0]),
        (250, vec![250]),
        (251, vec![251, 251, 0]),
        (300, vec![251, 0x2c, 0x01]),
        (65535, vec![251, 0xff, 0xff]),
        (65536, vec![252, 0, 0, 1, 0]),
        (u64::MAX, vec![253, 0xff, 0xff, 0xff, 0xff, 0xff, 0xff, 0xff, 0xff]),
    ];
    for (v, expected) in cases {
        let mut out = Vec::new();
        write_varint(&mut out, v);
        assert_eq!(out, expected);
        assert_eq!(varint_len(v), expected.len());
        assert_eq!(read_varint(&out, 0), Some((v, expected.len())));
    }
}

#[test]
fn varint_rejects_truncated_and_non_canonical() {
    assert_eq!(read_varint(&[251, 1], 0), None);
    assert_eq!(read_varint(&[254, 0, 0], 0), None);
    assert_eq!(read_varint(&[251, 5, 0], 0), None);
    assert_eq!(read_varint(&[], 0), None);
    assert_eq!(read_varint(&[7, 9], 1), Some((9, 2)));
}

#[test]
fn request_wire_form() {
    let req = ZTPRequest::new(ZTPRequestCode::Get, Some("a.jpg".to_string()));
    assert_eq!(req.encode_to_vec(), vec![0, 1, 5, b'a', b'.', b'j', b'p', b'g']);
    let conn = ZTPRequest::new(ZTPRequestCode::Conn, None);
    assert_eq!(conn.encode_to_vec(), vec![2, 0]);
}

#[test]
fn request_round_trip() {
    let names = vec![None, Some(String::new()), Some("teste.jpg".to_string()), Some("ação".to_string())];
    for code in [ZTPRequestCode::Get, ZTPRequestCode::Post, ZTPRequestCode::Conn] {
        for name in names.iter() {
            let bytes = ZTPRequest::new(code, name.clone()).encode_to_vec();
            let (back, used) = ZTPRequest::decode_from_slice(&bytes).unwrap();
            assert_eq!(used, bytes.len());
            assert_eq!(back.get_code(), code);
            assert_eq!(back.get_resource(), name.as_deref());
        }
    }
}

#[test]
fn request_decode_rejects_bad_input() {
    assert_eq!(ZTPRequest::decode_from_slice(&[]).unwrap_err(), FormatError::Malformed);
    assert!(ZTPRequest::decode_from_slice(&[3, 0]).is_err());
    assert!(ZTPRequest::decode_from_slice(&[0, 2]).is_err());
    assert!(ZTPRequest::decode_from_slice(&[0, 1, 4, b'a']).is_err());
    assert!(ZTPRequest::decode_from_slice(&[0, 1, 2, 0xc3, 0x28]).is_err());
    assert!(parse_request(&[1, 1, 1]).is_none());
    let req = parse_request(&[2, 0, 99]).unwrap();
    assert_eq!(req.get_code(), ZTPRequestCode::Conn);
}

#[test]
fn ack_wire_form() {
    let ack = ZTPResponse::new(ZTPResponseCode::Ack, None, None);
    assert_eq!(ack.encode_to_vec(), vec![3, 0, 0, 0]);
}

#[test]
fn data_response_wire_form() {
    let bytes = vec![1u8, 2, 3];
    let hash = xxhash_rust::xxh3::xxh3_64(&bytes);
    let resp = ZTPResponse::new(ZTPResponseCode::Data, Some(ZTPResponseData::Bytes(bytes)), Some(300));
    assert_eq!(resp.get_hash(), Some(hash));
    let mut expected = vec![0, 1, 0, 3, 1, 2, 3, 1];
    let mut h = Vec::new();
    write_varint(&mut h, hash);
    expected.extend(h);
    expected.extend([1, 251, 0x2c, 0x01]);
    assert_eq!(resp.encode_to_vec(), expected);
}

#[test]
fn response_round_trip() {
    let payloads: Vec<(ZTPResponseCode, Option<ZTPResponseData>, Option<u64>)> = vec![
        (ZTPResponseCode::Data, Some(ZTPResponseData::Bytes(vec![9; 1024])), Some(0)),
        (ZTPResponseCode::Data, Some(ZTPResponseData::Bytes(vec![])), Some(u64::MAX)),
        (ZTPResponseCode::Metadata, Some(ZTPResponseData::Metadata(ZTPMetadata::new(2500, 3))), None),
        (ZTPResponseCode::Ack, Some(ZTPResponseData::PackageIndex(70000)), None),
        (ZTPResponseCode::EndRequest, None, None),
        (ZTPResponseCode::Nack, None, None),
        (ZTPResponseCode::NotFound, None, None),
        (ZTPResponseCode::ConnAccepted, None, None),
    ];
    for (code, data, id) in payloads {
        let original = ZTPResponse::new(code, data, id);
        let code0 = original.get_code();
        let hash0 = original.get_hash();
        let id0 = original.get_pkg_id();
        let bytes0 = original.get_bytes().map(|b| b.to_vec());
        let md0 = extract_metadata(&original);
        let bytes = original.encode_to_vec();
        let (back, used) = ZTPResponse::decode_from_slice(&bytes).unwrap();
        assert_eq!(used, bytes.len());
        assert_eq!(back.get_code(), code0);
        assert_eq!(back.get_hash(), hash0);
        assert_eq!(back.get_pkg_id(), id0);
        assert_eq!(back.get_bytes().map(|b| b.to_vec()), bytes0);
        assert_eq!(extract_metadata(&back), md0);
        assert_eq!(back.encode_to_vec(), bytes);
    }
}

#[test]
fn response_decode_rejects_bad_input() {
    assert!(ZTPResponse::decode_from_slice(&[]).is_err());
    assert!(ZTPResponse::decode_from_slice(&[7, 0, 0, 0]).is_err());
    assert!(ZTPResponse::decode_from_slice(&[3, 0, 0]).is_err());
    // a checksum without raw bytes
    assert!(ZTPResponse::decode_from_slice(&[3, 0, 1, 5, 0]).is_err());
    // raw bytes without a checksum
    assert!(ZTPResponse::decode_from_slice(&[0, 1, 0, 1, 7, 0, 1, 0]).is_err());
    // a data response without a sequence-id
    assert!(ZTPResponse::decode_from_slice(&[0, 1, 0, 1, 7, 1, 5, 0]).is_err());
    // a sequence-id on another code
    assert!(ZTPResponse::decode_from_slice(&[3, 0, 0, 1, 0]).is_err());
    assert!(parse_response(&[9]).is_none());
    // a corrupted checksum still decodes: the receiver is the one to refuse it
    let resp = parse_response(&[0, 1, 0, 1, 7, 1, 5, 1, 0]).unwrap();
    assert_eq!(resp.get_hash(), Some(5));
    assert_eq!(resp.hash_and_cmp(), Some(false));
}

#[test]
fn encode_into_slice_fits_or_fails() {
    let mut buffer = [0xaau8; 6];
    let n = ZTPResponse::new(ZTPResponseCode::Nack, None, None).encode_into_slice(&mut buffer).unwrap();
    assert_eq!(n, 4);
    assert_eq!(buffer, [4, 0, 0, 0, 0xaa, 0xaa]);
    let mut small = [0u8; 3];
    let err = ZTPResponse::new(ZTPResponseCode::Ack, None, None).encode_into_slice(&mut small);
    assert_eq!(err, Err(ZTPEncodeError::BufferTooSmall));
    assert_eq!(small, [0, 0, 0]);
    let mut buf = [0u8; 8];
    let req = ZTPRequest::new(ZTPRequestCode::Get, Some("abc".to_string()));
    assert_eq!(req.encode_into_slice(&mut buf), Ok(6));
    assert_eq!(&buf[..6], &[0, 1, 3, b'a', b'b', b'c']);
}

#[test]
fn response_getters() {
    let resp = ZTPResponse::new(ZTPResponseCode::Data, Some(ZTPResponseData::Bytes(vec![4, 5])), Some(2));
    assert!(resp.has_data());
    assert!(!resp.is_ack());
    assert_eq!(resp.get_bytes(), Some(&[4u8, 5][..]));
    assert_eq!(resp.get_pkg_id(), Some(2));
    assert_eq!(resp.hash_and_cmp(), Some(true));
    assert!(matches!(resp.get_data(), Some(ZTPResponseData::Bytes(_))));
    let ack = ZTPResponse::new(ZTPResponseCode::Ack, None, None);
    assert!(ack.is_ack());
    assert!(!ack.has_data());
    assert_eq!(ack.get_bytes(), None);
    assert_eq!(ack.hash_and_cmp(), None);
    assert_eq!(ack.get_hash(), None);
}

#[test]
fn metadata_counts_chunks() {
    let md = ZTPMetadata::from_bytes(&vec![0u8; 2500]);
    assert_eq!(md.size(), 2500);
    assert_eq!(md.count(), 3);
    assert_eq!(ZTPMetadata::from_bytes(&[]).count(), 1);
    assert_eq!(ZTPMetadata::from_bytes(&vec![1u8; 1024]).count(), 1);
    assert_eq!(ZTPMetadata::from_bytes(&vec![1u8; 1025]).count(), 2);
    assert_eq!(ZTPMetadata::from_bytes(&vec![1u8; 2048]).count(), 2);
    assert_eq!(ZTPMetadata::with_chunk_size(10, 3).count(), 4);
    assert_eq!(ZTPMetadata::with_chunk_size(9, 3).count(), 3);
    let m = ZTPMetadata::new(7, 9);
    assert_eq!((m.size(), m.count()), (7, 9));
}
