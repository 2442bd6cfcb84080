use http::{join_buffers, parse_hex_uint, read_chunks, try_read_chunks, BufferVec, ChunksReadState};

#[test]
fn hex_lengths() {
    assert_eq!(parse_hex_uint(b"1aF"), Ok(0x1af));
    assert_eq!(parse_hex_uint(b""), Ok(0));
    assert_eq!(parse_hex_uint(b"0000000000000010"), Ok(16));
    assert_eq!(parse_hex_uint(b"1g"), Err("invalid byte in chunk length"));
    assert_eq!(parse_hex_uint(b" 1"), Err("invalid byte in chunk length"));
    assert_eq!(parse_hex_uint(b"00000000000000001"), Err("http chunk length too large"));
}

#[test]
fn one_chunk() {
    let mut chunks: Vec<BufferVec> = Vec::new();
    let mut buf: &[u8] = b"5\r\nhello\r\n0\r\n\r\nrest";
    let state = read_chunks(&mut buf, &mut chunks);
    assert!(matches!(state, ChunksReadState::Finished));
    assert_eq!(buf, b"rest");
    assert_eq!(chunks[0].read(), b"hello");
}

#[test]
fn chunks_are_joined() {
    let mut chunks: Vec<BufferVec> = Vec::new();
    let mut buf: &[u8] = b"4\r\nWiki\r\n6\r\npedia \r\nE\r\nin \r\n\r\nchunks.\r\n0\r\n\r\n";
    let state = read_chunks(&mut buf, &mut chunks);
    assert!(matches!(state, ChunksReadState::Finished));
    assert_eq!(join_buffers(&chunks), b"Wikipedia in \r\n\r\nchunks.".to_vec());
    assert!(buf.is_empty());
}

#[test]
fn chunks_resume_where_they_stopped() {
    let all: &[u8] = b"4\r\nWiki\r\n6\r\npedia \r\n0\r\n\r\n";
    for cut in 0..all.len() {
        let mut chunks: Vec<BufferVec> = Vec::new();
        let mut first: &[u8] = &all[..cut];
        let state = read_chunks(&mut first, &mut chunks);
        assert!(!matches!(state, ChunksReadState::Finished));
        if !matches!(state, ChunksReadState::BufferNotEnough) {
            continue;
        }
        let mut left = first.to_vec();
        left.extend_from_slice(&all[cut..]);
        let mut rest: &[u8] = &left;
        let state = read_chunks(&mut rest, &mut chunks);
        assert!(matches!(state, ChunksReadState::Finished), "cut at {}", cut);
        assert_eq!(join_buffers(&chunks), b"Wikipedia ".to_vec());
    }
}

#[test]
fn not_in_chunks() {
    let mut chunks: Vec<BufferVec> = Vec::new();
    let mut buf: &[u8] = b"<html>sixteen at least";
    let state = read_chunks(&mut buf, &mut chunks);
    match state {
        ChunksReadState::NotChunked => {}
        other => panic!("{:?}", other),
    }
    assert_eq!(buf, b"<html>sixteen at least");
    let mut buf: &[u8] = b"<html>too few";
    let state = read_chunks(&mut buf, &mut chunks);
    assert!(matches!(state, ChunksReadState::BufferNotEnough));
}

#[test]
fn chunk_length_that_is_none() {
    let mut chunks: Vec<BufferVec> = Vec::new();
    let mut buf: &[u8] = b"x\xff\r\n";
    match read_chunks(&mut buf, &mut chunks) {
        ChunksReadState::IllegalBody(text) => assert_eq!(
            text,
            "parse chunk header=x\u{fffd} fail: invalid byte in chunk length"
        ),
        other => panic!("{:?}", other),
    }
}

#[test]
fn chunk_without_line_end() {
    let mut chunks: Vec<BufferVec> = Vec::new();
    let mut buf: &[u8] = b"2\r\nabcd\r\n";
    match read_chunks(&mut buf, &mut chunks) {
        ChunksReadState::IllegalBody(text) => assert_eq!(text, "chunks not follows with CR_LF"),
        other => panic!("{:?}", other),
    }
}

#[test]
fn chunk_length_is_missing() {
    let mut chunks: Vec<BufferVec> = Vec::new();
    let mut buf: &[u8] = b"2\r\nab\r\nno line ends here";
    match read_chunks(&mut buf, &mut chunks) {
        ChunksReadState::IllegalBody(text) => {
            assert_eq!(text, "chunk header not found")
        }
        other => panic!("{:?}", other),
    }
}

#[test]
fn chunk_length_too_large() {
    let mut chunks: Vec<BufferVec> = Vec::new();
    let mut buf: &[u8] = b"ffffffffffffffff\r\nab\r\n";
    assert!(try_read_chunks(&mut buf, &mut chunks).is_none());
}

#[test]
fn lengths_in_either_case() {
    for text in ["a", "A", "00a", "000000000000000A"] {
        let mut body = text.as_bytes().to_vec();
        body.extend_from_slice(b"\r\n0123456789\r\n1\r\nx\r\n000\r\n\r\ntail");
        let mut chunks: Vec<BufferVec> = Vec::new();
        let mut buf: &[u8] = &body;
        let state = read_chunks(&mut buf, &mut chunks);
        assert!(matches!(state, ChunksReadState::Finished));
        assert_eq!(buf, b"tail");
        assert_eq!(chunks.len(), 3);
        assert_eq!(chunks[0].read(), b"0123456789");
        assert_eq!(chunks[1].read(), b"x");
        assert_eq!(chunks[2].read(), b"");
    }
}
