use jj_lib::reader::{
    accumulate, read_to_end, AsyncReadExt, Progress, ReadError, ReadEvent, ReadToEnd, ReaderState,
    ScriptedSource, SourceStep, GROWTH_STEP,
};

fn bytes(n: usize) -> Vec<u8> {
    (0..n).map(|i| (i % 251) as u8).collect()
}

#[test]
fn read_to_end_appends_whole_slice() {
    let src = bytes(100);
    let mut buf = b"head".to_vec();
    let n = read_to_end(&src, &mut buf);
    assert_eq!(n, 100);
    assert_eq!(buf.len(), 104);
    assert_eq!(&buf[..4], b"head");
    assert_eq!(&buf[4..], &src[..]);
}

#[test]
fn read_to_end_empty_source() {
    let mut buf = b"abc".to_vec();
    assert_eq!(read_to_end(&[], &mut buf), 0);
    assert_eq!(buf, b"abc".to_vec());
}

#[test]
fn accumulate_small_chunks_and_pending_turns() {
    let steps = vec![
        SourceStep::Bytes(vec![1]),
        SourceStep::Pending,
        SourceStep::Bytes(vec![2, 3]),
        SourceStep::Pending,
        SourceStep::Pending,
        SourceStep::Bytes(vec![]),
        SourceStep::Bytes(bytes(70)),
    ];
    let mut buf = Vec::new();
    let r = accumulate(&steps, None, &mut buf);
    assert_eq!(r, Ok(73));
    let mut expected = vec![1, 2, 3];
    expected.extend(bytes(70));
    assert_eq!(buf, expected);
}

#[test]
fn accumulate_error_rolls_back() {
    let steps = vec![SourceStep::Bytes(bytes(50)), SourceStep::Pending, SourceStep::Bytes(vec![9])];
    let mut buf = b"keep".to_vec();
    let r = accumulate(&steps, Some(ReadError::StorageFault), &mut buf);
    assert_eq!(r, Err(ReadError::StorageFault));
    assert_eq!(buf, b"keep".to_vec());
}

#[test]
fn window_grows_by_constant_step() {
    let mut rd = ReadToEnd::new(vec![7, 7]);
    assert_eq!(rd.state(), ReaderState::Idle);
    let w = rd.window();
    assert_eq!(w, GROWTH_STEP);
    assert_eq!(rd.state(), ReaderState::AwaitingChunk);
    assert_eq!(rd.advance(ReadEvent::Pending), Progress::Waiting);
    assert_eq!(rd.window(), GROWTH_STEP);
    assert_eq!(rd.advance(ReadEvent::Chunk(vec![1; 10])), Progress::Continue);
    assert_eq!(rd.window(), GROWTH_STEP - 10);
    assert_eq!(rd.advance(ReadEvent::Chunk(vec![2; 22])), Progress::Continue);
    assert_eq!(rd.read_so_far(), 32);
    assert_eq!(rd.window(), GROWTH_STEP);
    assert_eq!(rd.advance(ReadEvent::End), Progress::Complete(32));
    assert_eq!(rd.state(), ReaderState::Done);
    let buf = rd.into_buffer();
    assert_eq!(buf.len(), 34);
    assert_eq!(&buf[..2], &[7, 7]);
    assert_eq!(&buf[2..12], &[1; 10]);
    assert_eq!(&buf[12..], &[2; 22]);
}

#[test]
fn empty_chunk_is_end() {
    let mut rd = ReadToEnd::new(Vec::new());
    rd.window();
    assert_eq!(rd.advance(ReadEvent::Chunk(vec![5, 6])), Progress::Continue);
    rd.window();
    assert_eq!(rd.advance(ReadEvent::Chunk(Vec::new())), Progress::Complete(2));
    assert_eq!(rd.into_buffer(), vec![5, 6]);
}

#[test]
fn fault_hides_partial_bytes() {
    let mut rd = ReadToEnd::new(vec![1]);
    rd.window();
    rd.advance(ReadEvent::Chunk(vec![4; 20]));
    rd.window();
    assert_eq!(rd.advance(ReadEvent::Fault(ReadError::StorageFault)), Progress::Failed(ReadError::StorageFault));
    assert_eq!(rd.state(), ReaderState::Faulted);
    assert_eq!(rd.into_buffer(), vec![1]);
}

#[test]
fn cancelled_accumulation_rolls_back() {
    let mut rd = ReadToEnd::new(vec![3, 3]);
    rd.window();
    rd.advance(ReadEvent::Chunk(vec![8; 5]));
    assert_eq!(rd.into_buffer(), vec![3, 3]);
}

#[test]
fn scripted_source_read_to_end() {
    let mut src = ScriptedSource::new(vec![SourceStep::Bytes(b"hello ".to_vec()), SourceStep::Pending, SourceStep::Bytes(b"world".to_vec())], None);
    let mut buf = Vec::new();
    assert_eq!(src.read_to_end(&mut buf), Ok(11));
    assert_eq!(buf, b"hello world".to_vec());

    let mut failing = ScriptedSource::new(vec![SourceStep::Bytes(b"partial".to_vec())], Some(ReadError::Cancelled));
    let mut buf2 = b"x".to_vec();
    assert_eq!(failing.read_to_end(&mut buf2), Err(ReadError::Cancelled));
    assert_eq!(buf2, b"x".to_vec());
}
