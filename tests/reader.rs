use xxhsum::reader::ChunkedReader;
use xxhsum::source::{Reply, ScriptedSource, SourceError};

fn data(bytes: &[u8]) -> Reply {
    Reply::Data(bytes.to_vec())
}

#[test]
fn short_reads_are_gathered_into_one_chunk() {
    let source = ScriptedSource::new(vec![data(&[1, 2]), data(&[3]), data(&[4, 5, 6])]);
    let mut reader: ChunkedReader<ScriptedSource, 8> = ChunkedReader::new(source);
    assert_eq!(reader.next(), Ok(Some(&[1u8, 2, 3, 4, 5, 6][..])));
    assert_eq!(reader.next(), Ok(None));
}

#[test]
fn chunks_stop_at_buffer_capacity() {
    let source = ScriptedSource::from_bytes((0u8..10).collect());
    let mut reader: ChunkedReader<ScriptedSource, 4> = ChunkedReader::new(source);
    assert_eq!(reader.next(), Ok(Some(&[0u8, 1, 2, 3][..])));
    assert_eq!(reader.next(), Ok(Some(&[4u8, 5, 6, 7][..])));
    assert_eq!(reader.next(), Ok(Some(&[8u8, 9][..])));
    assert_eq!(reader.next(), Ok(None));
}

#[test]
fn short_reads_across_the_capacity_boundary() {
    let source = ScriptedSource::new(vec![data(&[1, 2, 3]), data(&[4, 5, 6]), data(&[7])]);
    let mut reader: ChunkedReader<ScriptedSource, 4> = ChunkedReader::new(source);
    assert_eq!(reader.next(), Ok(Some(&[1u8, 2, 3, 4][..])));
    assert_eq!(reader.next(), Ok(Some(&[5u8, 6, 7][..])));
    assert_eq!(reader.next(), Ok(None));
}

#[test]
fn exhausted_source_keeps_signalling_end() {
    let source = ScriptedSource::from_bytes(vec![9, 8, 7]);
    let mut reader: ChunkedReader<ScriptedSource, 16> = ChunkedReader::new(source);
    assert_eq!(reader.next(), Ok(Some(&[9u8, 8, 7][..])));
    assert_eq!(reader.next(), Ok(None));
    assert_eq!(reader.next(), Ok(None));
    assert_eq!(reader.next(), Ok(None));
}

#[test]
fn empty_source_signals_end_at_once() {
    let source = ScriptedSource::from_bytes(Vec::new());
    let mut reader: ChunkedReader<ScriptedSource, 16> = ChunkedReader::new(source);
    assert_eq!(reader.next(), Ok(None));
    assert_eq!(reader.next(), Ok(None));
}

#[test]
fn interruptions_do_not_change_chunks() {
    let plain = vec![data(&[1, 2]), data(&[3, 4, 5]), data(&[6])];
    let interrupted = vec![
        Reply::Interrupt,
        data(&[1, 2]),
        Reply::Interrupt,
        Reply::Interrupt,
        data(&[3, 4, 5]),
        Reply::Interrupt,
        data(&[6]),
        Reply::Interrupt,
    ];
    let mut a: ChunkedReader<ScriptedSource, 4> = ChunkedReader::new(ScriptedSource::new(plain));
    let mut b: ChunkedReader<ScriptedSource, 4> =
        ChunkedReader::new(ScriptedSource::new(interrupted));
    for _ in 0..4 {
        let x = a.next().map(|c| c.map(|s| s.to_vec()));
        let y = b.next().map(|c| c.map(|s| s.to_vec()));
        assert_eq!(x, y);
    }
}

#[test]
fn failure_is_reported_and_partial_chunk_dropped() {
    let source = ScriptedSource::new(vec![data(&[1, 2]), Reply::Fail("disk gone".to_string())]);
    let mut reader: ChunkedReader<ScriptedSource, 8> = ChunkedReader::new(source);
    assert_eq!(reader.next(), Err(SourceError::Failed("disk gone".to_string())));
}

#[test]
fn failure_after_a_full_chunk_comes_on_the_next_call() {
    let source =
        ScriptedSource::new(vec![data(&[1, 2, 3, 4]), Reply::Fail("bad sector".to_string())]);
    let mut reader: ChunkedReader<ScriptedSource, 4> = ChunkedReader::new(source);
    assert_eq!(reader.next(), Ok(Some(&[1u8, 2, 3, 4][..])));
    assert_eq!(reader.next(), Err(SourceError::Failed("bad sector".to_string())));
}

#[test]
fn scripted_source_reports_exhaustion() {
    assert!(ScriptedSource::new(Vec::new()).is_exhausted());
    assert!(!ScriptedSource::from_bytes(vec![1]).is_exhausted());
    assert!(!ScriptedSource::new(vec![Reply::Interrupt]).is_exhausted());
}

#[test]
fn two_short_pieces_make_one_chunk() {
    let source = ScriptedSource::new(vec![data(b"ab"), data(b"cd")]);
    let mut reader: ChunkedReader<ScriptedSource, 4096> = ChunkedReader::new(source);
    assert_eq!(reader.next(), Ok(Some(&b"abcd"[..])));
    assert_eq!(reader.next(), Ok(None));
}

#[test]
fn two_pieces_through_a_three_byte_buffer() {
    let source = ScriptedSource::new(vec![data(b"ab"), data(b"cd")]);
    let mut reader: ChunkedReader<ScriptedSource, 3> = ChunkedReader::new(source);
    assert_eq!(reader.next(), Ok(Some(&b"abc"[..])));
    assert_eq!(reader.next(), Ok(Some(&b"d"[..])));
    assert_eq!(reader.next(), Ok(None));
    assert_eq!(reader.next(), Ok(None));
}

#[test]
fn chunks_of_a_run_concatenate_to_the_content() {
    let content: Vec<u8> = (0..1000u32).map(|i| (i % 251) as u8).collect();
    let replies: Vec<Reply> = content.chunks(13).map(|c| Reply::Data(c.to_vec())).collect();
    let mut reader: ChunkedReader<ScriptedSource, 64> =
        ChunkedReader::new(ScriptedSource::new(replies));
    let mut chunks: Vec<Vec<u8>> = Vec::new();
    while let Some(c) = reader.next().unwrap() {
        chunks.push(c.to_vec());
    }
    assert_eq!(chunks.len(), (1000 + 63) / 64);
    for c in &chunks[..chunks.len() - 1] {
        assert_eq!(c.len(), 64);
    }
    assert_eq!(chunks.concat(), content);
    assert_eq!(reader.next(), Ok(None));
}
