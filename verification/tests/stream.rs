use readers::BytesReader;
use readers::SeekFrom;
use readers::StreamReaders;

fn stream_of(parts: &[&[u8]]) -> StreamReaders<BytesReader> {
    let mut sr = StreamReaders::new();
    for p in parts {
        sr.push(BytesReader::new(p.to_vec())).unwrap();
    }
    sr
}

fn read_to_end(sr: &mut StreamReaders<BytesReader>, chunk: usize) -> Vec<u8> {
    let mut out = Vec::new();
    loop {
        let mut buf = vec![0u8; chunk];
        let n = sr.read(&mut buf).unwrap();
        if n == 0 {
            break;
        }
        out.extend_from_slice(&buf[..n]);
    }
    out
}

#[test]
fn test() {
    let mut sr = StreamReaders::new();
    sr.push(BytesReader::new(b"Hello,".to_vec())).unwrap();
    sr.push(BytesReader::new(b"Rust!".to_vec())).unwrap();
    let out = read_to_end(&mut sr, 16);
    assert_eq!(b"Hello,Rust!".to_vec(), out);
}

#[test]
fn concat_scenario() {
    let mut sr = stream_of(&[b"Hello,", b"Rust!"]);
    assert_eq!(sr.len(), 11);
    assert!(!sr.is_empty());
    assert_eq!(read_to_end(&mut sr, 4), b"Hello,Rust!".to_vec());
    assert_eq!(sr.seek(SeekFrom::Start(6)).unwrap(), 6);
    assert_eq!(read_to_end(&mut sr, 3), b"Rust!".to_vec());
    assert_eq!(sr.seek(SeekFrom::Current(-3)).unwrap(), 8);
    assert_eq!(read_to_end(&mut sr, 2), b"st!".to_vec());
}

#[test]
fn zero_length_source_is_dropped() {
    let mut sr = StreamReaders::new();
    sr.push(BytesReader::new(Vec::new())).unwrap();
    sr.push(BytesReader::new(b"data".to_vec())).unwrap();
    assert_eq!(sr.len(), 4);
    assert!(!sr.is_empty());
    assert_eq!(read_to_end(&mut sr, 8), b"data".to_vec());
}

#[test]
fn only_zero_length_sources() {
    let mut sr = StreamReaders::new();
    sr.push(BytesReader::new(Vec::new())).unwrap();
    assert_eq!(sr.len(), 0);
    assert!(sr.is_empty());
    let mut buf = vec![0u8; 4];
    assert_eq!(sr.read(&mut buf).unwrap(), 0);
}

#[test]
fn default_is_empty() {
    let mut sr: StreamReaders<BytesReader> = Default::default();
    assert!(sr.is_empty());
    assert_eq!(sr.len(), 0);
    assert_eq!(sr.pos(), 0);
    let mut buf = vec![0u8; 1];
    assert_eq!(sr.read(&mut buf).unwrap(), 0);
}

#[test]
fn total_length_sums_nonempty_sources() {
    let sr = stream_of(&[b"ab", b"", b"cde", b"", b"f"]);
    assert_eq!(sr.len(), 6);
    assert_eq!(sr.pos(), 0);
}

#[test]
fn seek_start_and_end() {
    let mut sr = stream_of(&[b"abc", b"defg"]);
    assert_eq!(sr.seek(SeekFrom::Start(0)).unwrap(), 0);
    assert_eq!(sr.pos(), 0);
    assert_eq!(sr.seek(SeekFrom::End(0)).unwrap(), 7);
    assert_eq!(sr.pos(), 7);
    let mut buf = vec![0u8; 1];
    assert_eq!(sr.read(&mut buf).unwrap(), 0);

    let mut empty: StreamReaders<BytesReader> = StreamReaders::new();
    assert_eq!(empty.seek(SeekFrom::Start(0)).unwrap(), 0);
    assert_eq!(empty.seek(SeekFrom::End(0)).unwrap(), 0);
}

#[test]
fn read_to_exhaustion_counts_every_byte() {
    let mut sr = stream_of(&[b"one", b"two", b"three"]);
    let total = sr.len() as usize;
    let mut produced = 0usize;
    loop {
        let mut buf = vec![0u8; 2];
        let n = sr.read(&mut buf).unwrap();
        if n == 0 {
            break;
        }
        produced += n;
    }
    assert_eq!(produced, total);
    let mut buf = vec![0u8; 2];
    assert_eq!(sr.read(&mut buf).unwrap(), 0);
}

#[test]
fn relative_zero_is_a_no_op() {
    let mut sr = stream_of(&[b"abc", b"defg"]);
    assert_eq!(sr.seek(SeekFrom::Start(4)).unwrap(), 4);
    assert_eq!(sr.seek(SeekFrom::Current(0)).unwrap(), 4);
    assert_eq!(sr.pos(), 4);
    assert_eq!(read_to_end(&mut sr, 8), b"efg".to_vec());
}

#[test]
fn seek_past_end_clamps_to_last_byte() {
    let mut sr = stream_of(&[b"abc", b"defg"]);
    assert_eq!(sr.seek(SeekFrom::Start(100)).unwrap(), 6);
    assert_eq!(read_to_end(&mut sr, 4), b"g".to_vec());
    assert_eq!(sr.seek(SeekFrom::Start(0)).unwrap(), 0);
    assert_eq!(sr.seek(SeekFrom::Current(i64::MAX)).unwrap(), 6);
    assert_eq!(sr.seek(SeekFrom::Start(7)).unwrap(), 6);

    let mut empty: StreamReaders<BytesReader> = StreamReaders::new();
    assert_eq!(empty.seek(SeekFrom::Start(100)).unwrap(), 0);
}

#[test]
fn seek_before_start_clamps_to_zero() {
    let mut sr = stream_of(&[b"abc", b"defg"]);
    assert_eq!(sr.seek(SeekFrom::Start(5)).unwrap(), 5);
    assert_eq!(sr.seek(SeekFrom::Current(-100)).unwrap(), 0);
    assert_eq!(read_to_end(&mut sr, 16), b"abcdefg".to_vec());
    assert_eq!(sr.seek(SeekFrom::End(-100)).unwrap(), 0);
}

#[test]
fn seek_from_end_negative() {
    let mut sr = stream_of(&[b"abc", b"defg"]);
    assert_eq!(sr.seek(SeekFrom::End(-3)).unwrap(), 4);
    assert_eq!(read_to_end(&mut sr, 2), b"efg".to_vec());
    assert_eq!(sr.seek(SeekFrom::End(5)).unwrap(), 7);
}

#[test]
fn back_then_forward_restores_position() {
    let mut sr = stream_of(&[b"Hello,", b"Rust!"]);
    assert_eq!(sr.seek(SeekFrom::Start(8)).unwrap(), 8);
    let tail = read_to_end(&mut sr, 3);
    assert_eq!(tail, b"st!".to_vec());
    // back across the source boundary and forward again
    assert_eq!(sr.seek(SeekFrom::Start(8)).unwrap(), 8);
    assert_eq!(sr.seek(SeekFrom::Current(-4)).unwrap(), 4);
    assert_eq!(sr.seek(SeekFrom::Current(4)).unwrap(), 8);
    assert_eq!(read_to_end(&mut sr, 3), tail);
}

#[test]
fn boundary_seeks_are_exact() {
    let mut sr = stream_of(&[b"Hello,", b"Rust!"]);
    // last byte of the first source
    assert_eq!(sr.seek(SeekFrom::Start(5)).unwrap(), 5);
    let mut buf = vec![0u8; 1];
    assert_eq!(sr.read(&mut buf).unwrap(), 1);
    assert_eq!(buf[0], b',');
    // first byte of the second source
    assert_eq!(sr.pos(), 6);
    assert_eq!(sr.seek(SeekFrom::Start(6)).unwrap(), 6);
    assert_eq!(sr.read(&mut buf).unwrap(), 1);
    assert_eq!(buf[0], b'R');
    // backward to the last byte of the first source
    assert_eq!(sr.seek(SeekFrom::Current(-2)).unwrap(), 5);
    assert_eq!(sr.read(&mut buf).unwrap(), 1);
    assert_eq!(buf[0], b',');
}

#[test]
fn read_crosses_many_small_sources() {
    let mut sr = stream_of(&[b"a", b"b", b"c", b"d", b"e"]);
    let mut buf = vec![0u8; 5];
    assert_eq!(sr.read(&mut buf).unwrap(), 5);
    assert_eq!(buf, b"abcde".to_vec());
    assert_eq!(sr.pos(), 5);
}

#[test]
fn push_after_reading_extends_the_stream() {
    let mut sr = stream_of(&[b"ab"]);
    assert_eq!(read_to_end(&mut sr, 4), b"ab".to_vec());
    sr.push(BytesReader::new(b"cd".to_vec())).unwrap();
    assert_eq!(sr.len(), 4);
    assert_eq!(sr.pos(), 2);
    assert_eq!(read_to_end(&mut sr, 4), b"cd".to_vec());
}
