use zep::{encode_chunk, ChunkError, StreamReader, StreamWriter, MAX_CHUNK_SIZE};

fn encode_all(data: &[u8]) -> Vec<u8> {
    let mut writer = StreamWriter::from_bytes(data.to_vec());
    let mut out = Vec::new();
    while let Some(frame) = writer.next_chunk() {
        out.extend_from_slice(&frame);
    }
    assert!(writer.is_done());
    out
}

fn decode_all(wire: &[u8]) -> (Vec<Vec<u8>>, usize) {
    let mut reader = StreamReader::from_bytes(wire.to_vec());
    let mut chunks = Vec::new();
    let mut ends = 0;
    loop {
        match reader.next_chunk() {
            Ok(Some(chunk)) => chunks.push(chunk),
            Ok(None) => {
                ends += 1;
                break;
            }
            Err(e) => panic!("decoding failed: {:?}", e),
        }
    }
    assert_eq!(reader.next_chunk(), Err(ChunkError::UnexpectedEof));
    (chunks, ends)
}

#[test]
fn frame_of_payload() {
    assert_eq!(encode_chunk(b"hello"), b"5\r\nhello\r\n".to_vec());
    assert_eq!(encode_chunk(b""), b"0\r\n\r\n".to_vec());
    let payload = vec![b'x'; 26];
    let frame = encode_chunk(&payload);
    assert_eq!(&frame[..4], b"1A\r\n");
    assert_eq!(frame.len(), 4 + 26 + 2);
}

#[test]
fn round_trip_small() {
    let data = b"Wikipedia in\r\n\r\nchunks.".to_vec();
    let wire = encode_all(&data);
    assert_eq!(wire, b"17\r\nWikipedia in\r\n\r\nchunks.\r\n0\r\n\r\n".to_vec());
    let (chunks, ends) = decode_all(&wire);
    assert_eq!(chunks.concat(), data);
    assert_eq!(ends, 1);
}

#[test]
fn round_trip_empty() {
    let wire = encode_all(b"");
    assert_eq!(wire, b"0\r\n\r\n".to_vec());
    let (chunks, ends) = decode_all(&wire);
    assert!(chunks.is_empty());
    assert_eq!(ends, 1);
}

#[test]
fn round_trip_large() {
    let data: Vec<u8> = (0..(2 * MAX_CHUNK_SIZE + 1000)).map(|i| (i % 251) as u8).collect();
    let wire = encode_all(&data);
    let (chunks, ends) = decode_all(&wire);
    assert_eq!(chunks.len(), 3);
    assert_eq!(chunks[0].len(), MAX_CHUNK_SIZE);
    assert_eq!(chunks[2].len(), 1000);
    assert_eq!(chunks.concat(), data);
    assert_eq!(ends, 1);
}

#[test]
fn encoder_fed_in_reads() {
    let mut writer = StreamWriter::from_bytes(Vec::new());
    assert!(!writer.wants_input());
    writer.feed(b"abc");
    assert_eq!(writer.next_chunk(), Some(b"3\r\nabc\r\n".to_vec()));
    assert_eq!(writer.next_chunk(), Some(b"0\r\n\r\n".to_vec()));
    assert_eq!(writer.next_chunk(), None);
}

#[test]
fn decoder_rejects_bad_size() {
    let mut reader = StreamReader::from_bytes(b"zz\r\nhello\r\n".to_vec());
    assert_eq!(reader.next_chunk(), Err(ChunkError::InvalidData));
    let mut empty_size = StreamReader::from_bytes(b"\r\n".to_vec());
    assert_eq!(empty_size.next_chunk(), Err(ChunkError::InvalidData));
}

#[test]
fn decoder_rejects_missing_crlf() {
    let mut reader = StreamReader::from_bytes(b"5\r\nhelloXY0\r\n\r\n".to_vec());
    assert_eq!(reader.next_chunk(), Err(ChunkError::InvalidData));
}

#[test]
fn decoder_reports_truncation() {
    let mut reader = StreamReader::from_bytes(b"5\r\nhel".to_vec());
    assert_eq!(reader.next_chunk(), Err(ChunkError::UnexpectedEof));
    let mut no_line = StreamReader::from_bytes(Vec::new());
    assert_eq!(no_line.next_chunk(), Err(ChunkError::UnexpectedEof));
}

#[test]
fn decoder_waits_for_more_input() {
    let mut reader = StreamReader::new(b"4;ext=1\r\nWi".to_vec(), None);
    assert!(!reader.is_at_eof());
    assert_eq!(reader.next_chunk(), Err(ChunkError::Incomplete));
    reader.feed(b"ki\r\n0\r\n");
    assert_eq!(reader.next_chunk(), Ok(Some(b"Wiki".to_vec())));
    assert_eq!(reader.next_chunk(), Err(ChunkError::Incomplete));
    reader.feed(b"\r\n");
    assert_eq!(reader.next_chunk(), Ok(None));
    assert_eq!(reader.next_chunk(), Err(ChunkError::Incomplete));
    reader.finish();
    assert_eq!(reader.next_chunk(), Err(ChunkError::UnexpectedEof));
}

#[test]
fn truncated_live_input_fails_once_finished() {
    let mut reader = StreamReader::new(b"5\r\nhel".to_vec(), None);
    assert_eq!(reader.next_chunk(), Err(ChunkError::Incomplete));
    reader.finish();
    assert_eq!(reader.next_chunk(), Err(ChunkError::UnexpectedEof));
}

#[test]
fn decoder_skips_extensions_and_trailers() {
    let wire = b"4;name=value\r\nWiki\r\n 5 \r\npedia\r\n0\r\nExpires: never\r\n\r\n";
    let mut reader = StreamReader::from_bytes(wire.to_vec());
    assert_eq!(reader.next_chunk(), Ok(Some(b"Wiki".to_vec())));
    assert_eq!(reader.next_chunk(), Ok(Some(b"pedia".to_vec())));
    assert_eq!(reader.next_chunk(), Ok(None));
}

#[test]
fn last_chunk_at_end_of_input() {
    let mut reader = StreamReader::from_bytes(b"0".to_vec());
    assert_eq!(reader.next_chunk(), Ok(None));
}

#[test]
fn upper_and_lower_case_hex() {
    let mut reader = StreamReader::from_bytes(b"a\r\n0123456789\r\nA\r\n0123456789\r\n0\r\n\r\n".to_vec());
    assert_eq!(reader.next_chunk(), Ok(Some(b"0123456789".to_vec())));
    assert_eq!(reader.next_chunk(), Ok(Some(b"0123456789".to_vec())));
    assert_eq!(reader.next_chunk(), Ok(None));
}

#[test]
fn size_line_trims_unicode_white_space() {
    let wire = "\u{a0}3\u{2009}\r\nabc\r\n0\r\n\r\n".as_bytes().to_vec();
    let mut reader = StreamReader::from_bytes(wire);
    assert_eq!(reader.next_chunk(), Ok(Some(b"abc".to_vec())));
    assert_eq!(reader.next_chunk(), Ok(None));
}

#[test]
fn whole_body_round_trip() {
    let data: Vec<u8> = (0..(MAX_CHUNK_SIZE + 7)).map(|i| (i % 13) as u8).collect();
    let mut writer = StreamWriter::from_bytes(data.clone());
    let wire = writer.encode_rest();
    assert!(writer.is_done());
    assert_eq!(writer.next_chunk(), None);
    let mut reader = StreamReader::from_bytes(wire);
    let chunks = reader.read_all().unwrap();
    assert_eq!(chunks.len(), 2);
    assert_eq!(chunks.concat(), data);
}

#[test]
fn read_all_reports_errors() {
    let mut bad = StreamReader::from_bytes(b"3\r\nabc\r\nq\r\n".to_vec());
    assert_eq!(bad.read_all(), Err(ChunkError::InvalidData));
    let mut short = StreamReader::from_bytes(b"3\r\nabc\r\n".to_vec());
    assert_eq!(short.read_all(), Err(ChunkError::UnexpectedEof));
    let mut empty = StreamReader::from_bytes(b"0\r\n\r\n".to_vec());
    assert_eq!(empty.read_all(), Ok(Vec::new()));
}
