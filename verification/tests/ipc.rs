use rift::ipc::{decode, encode, frame_len, unknown_layout_message, IpcError, LayoutKind, MAX_FRAME};

#[test]
fn layout_kind_parses_lowercase_names() {
    for (s, want) in [
        ("tile", LayoutKind::Tile),
        ("monocle", LayoutKind::Monocle),
        ("columns", LayoutKind::Columns),
        ("spiral", LayoutKind::Spiral),
        ("threecolumn", LayoutKind::ThreeColumn),
        ("floating", LayoutKind::Floating),
    ] {
        assert_eq!(LayoutKind::from_str(s).unwrap(), want);
    }
    assert!(LayoutKind::from_str("Tile").is_err());
    assert!(LayoutKind::from_str("bogus").is_err());
}

#[test]
fn unknown_layout_name_is_quoted_in_the_diagnostic() {
    let err = LayoutKind::from_str("grid").unwrap_err();
    assert_eq!(
        err,
        "unknown layout \"grid\" (expected one of: tile, monocle, columns, spiral, threecolumn, floating)"
    );
    // Quotes, backslashes and control characters are escaped as `{:?}` does.
    let err = LayoutKind::from_str("a\"b\\c\n").unwrap_err();
    assert!(err.starts_with("unknown layout \"a\\\"b\\\\c\\n\" (expected"));
    assert_eq!(
        unknown_layout_message("'x'"),
        "unknown layout 'x' (expected one of: tile, monocle, columns, spiral, threecolumn, floating)"
    );
    assert_eq!(LayoutKind::from_name("grid"), None);
    assert_eq!(LayoutKind::from_name("spiral"), Some(LayoutKind::Spiral));
}

#[test]
fn encode_rejects_oversize() {
    // The JSON body of an error reply carrying a huge message exceeds MAX_FRAME.
    let big = "x".repeat(MAX_FRAME + 1);
    let body = format!("{{\"type\":\"Error\",\"message\":\"{big}\"}}").into_bytes();
    let err = encode(&body).unwrap_err();
    assert!(matches!(err, IpcError::FrameTooLarge(_)));
}

#[test]
fn encode_reports_the_oversize_length() {
    let body = vec![0u8; MAX_FRAME + 7];
    assert_eq!(encode(&body), Err(IpcError::FrameTooLarge(MAX_FRAME + 7)));
}

#[test]
fn encode_prefixes_big_endian_length() {
    let frame = encode(&b"hi".to_vec()).unwrap();
    assert_eq!(frame, vec![0, 0, 0, 2, b'h', b'i']);
    let body = vec![7u8; 0x0102];
    let frame = encode(&body).unwrap();
    assert_eq!(&frame[..4], &[0, 0, 1, 2]);
    assert_eq!(&frame[4..], &body[..]);
}

#[test]
fn encode_accepts_exactly_max_frame() {
    let body = vec![1u8; MAX_FRAME];
    let frame = encode(&body).unwrap();
    assert_eq!(frame.len(), MAX_FRAME + 4);
    assert_eq!(&frame[..4], &[0, 0x10, 0, 0]);
}

#[test]
fn oversize_prefix_rejected_before_alloc() {
    // A 4-byte prefix claiming a body far larger than MAX_FRAME, with no body.
    let mut frame = (MAX_FRAME as u32 + 1).to_be_bytes().to_vec();
    frame.extend_from_slice(b"");
    let err = decode(&frame).unwrap_err();
    assert!(matches!(err, IpcError::FrameTooLarge(_)));
    assert_eq!(
        frame_len((MAX_FRAME as u32 + 1).to_be_bytes()),
        Err(IpcError::FrameTooLarge(MAX_FRAME + 1))
    );
}

#[test]
fn truncated_body_is_unexpected_eof() {
    // Prefix says 10 bytes, but only 3 are present.
    let mut frame = 10u32.to_be_bytes().to_vec();
    frame.extend_from_slice(b"abc");
    let err = decode(&frame).unwrap_err();
    assert!(matches!(err, IpcError::UnexpectedEof));
}

#[test]
fn truncated_prefix_is_unexpected_eof() {
    assert_eq!(decode(&vec![0, 0, 1]), Err(IpcError::UnexpectedEof));
    assert_eq!(decode(&Vec::new()), Err(IpcError::UnexpectedEof));
}

#[test]
fn frame_len_reads_big_endian() {
    assert_eq!(frame_len([0, 0, 1, 0]), Ok(256));
    assert_eq!(frame_len([0, 0x10, 0, 0]), Ok(MAX_FRAME));
    assert_eq!(frame_len([0xff, 0, 0, 0]), Err(IpcError::FrameTooLarge(0xff00_0000)));
}

#[test]
fn decode_reads_back_what_encode_framed() {
    let body = b"{\"type\":\"Status\"}".to_vec();
    let mut stream = encode(&body).unwrap();
    // Whatever follows the frame in the stream is left alone.
    stream.extend_from_slice(&encode(&b"next".to_vec()).unwrap());
    assert_eq!(decode(&stream), Ok(body));
    assert_eq!(decode(&encode(&Vec::new()).unwrap()), Ok(Vec::new()));
}
