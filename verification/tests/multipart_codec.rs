use dicomweb::ProtocolError;
use dicomweb::multipart::multipart_encode_binary;
use dicomweb::multipart::parse_multipart_body;

#[test]
fn decode_single_part_with_length() {
    let body = b"--B\r\nContent-Type: application/dicom\r\nContent-Length: 4\r\n\r\nABCD\r\n--B--";
    let parts = parse_multipart_body(body, "B").unwrap();
    assert_eq!(parts.len(), 1);
    assert_eq!(parts[0], b"ABCD".to_vec());
}

#[test]
fn encode_produces_expected_frame() {
    let body = multipart_encode_binary(b"ABCD".to_vec(), "B");
    let expected = b"--B\r\nContent-Type: multipart/related; type=\"application/dicom\"; boundary=B\r\nContent-Length: 4\r\n\r\nABCD\r\n--B--";
    assert_eq!(body, expected.to_vec());
}

#[test]
fn round_trip_binary_payload() {
    // payload full of newline and boundary-confusable bytes
    let payload: Vec<u8> = vec![0, 10, 13, 10, 45, 45, 66, 10, 255, 1, 2, 3];
    let boundary = "3f2a9c4e-marker";
    let body = multipart_encode_binary(payload.clone(), boundary);
    let parts = parse_multipart_body(&body, boundary).unwrap();
    assert_eq!(parts, vec![payload]);
}

#[test]
fn round_trip_empty_payload() {
    let body = multipart_encode_binary(Vec::new(), "xyz");
    let parts = parse_multipart_body(&body, "xyz").unwrap();
    assert_eq!(parts, vec![Vec::<u8>::new()]);
}

#[test]
fn decode_without_length_strips_terminator() {
    let body = b"--B\r\n\r\nPAYLOAD\r\n--B--";
    let parts = parse_multipart_body(body, "B").unwrap();
    assert_eq!(parts, vec![b"PAYLOAD".to_vec()]);
}

#[test]
fn decode_without_any_boundary_line_is_refused() {
    let err = parse_multipart_body(b"no framing here at all", "B").unwrap_err();
    assert_eq!(err, ProtocolError::MissingBoundary);
    let err = parse_multipart_body(b"", "B").unwrap_err();
    assert_eq!(err, ProtocolError::MissingBoundary);
}

#[test]
fn decode_bad_content_length_is_refused() {
    let body = b"--B\r\nContent-Length: zz\r\n\r\nABCD\r\n--B--";
    let err = parse_multipart_body(body, "B").unwrap_err();
    assert_eq!(err, ProtocolError::BadContentLength);
}

#[test]
fn decode_truncated_body_is_refused() {
    let body = b"--B\r\nContent-Length: 100\r\n\r\nABCD";
    let err = parse_multipart_body(body, "B").unwrap_err();
    assert_eq!(err, ProtocolError::Truncated);
}

#[test]
fn decode_missing_terminator_is_refused() {
    let body = b"--B\r\n\r\nPAYLOAD";
    let err = parse_multipart_body(body, "B").unwrap_err();
    assert_eq!(err, ProtocolError::MissingTerminator);
}

#[test]
fn decode_two_parts_with_lengths() {
    let body = b"--B\r\nContent-Length: 3\r\n\r\nAAA--B\r\nContent-Length: 2\r\n\r\nBB";
    let parts = parse_multipart_body(body, "B").unwrap();
    assert_eq!(parts, vec![b"AAA".to_vec(), b"BB".to_vec()]);
}
