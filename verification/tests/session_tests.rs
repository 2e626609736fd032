use record_stream::codec::encode_record;
use record_stream::emitter::make_record;
use record_stream::record::{ChunkEvent, StreamError, StreamStatus};
use record_stream::session::Session;

fn emitted_stream(n: u64) -> Vec<u8> {
    let mut bytes = Vec::new();
    let mut i: u64 = 0;
    while i < n {
        let rec = make_record(i, 1000 + i as i64);
        bytes.extend_from_slice(&encode_record(&rec));
        i += 1;
    }
    bytes
}

#[test]
fn three_records_two_chunks() {
    let bytes = emitted_stream(3);
    // cut the stream at two arbitrary points, one inside a frame
    let cut = 17;
    let mut s = Session::new();
    s.step(ChunkEvent::Data(bytes[..cut].to_vec()));
    s.step(ChunkEvent::Data(bytes[cut..].to_vec()));
    s.step(ChunkEvent::Done);
    assert!(matches!(s.status(), StreamStatus::Completed));
    let recs = s.records();
    assert_eq!(recs.len(), 3);
    assert_eq!(recs[0].index, 0);
    assert_eq!(recs[0].message, "Message 1");
    assert_eq!(recs[1].index, 1);
    assert_eq!(recs[1].message, "Message 2");
    assert_eq!(recs[2].index, 2);
    assert_eq!(recs[2].message, "Message 3");
}

#[test]
fn byte_by_byte_equals_single_chunk() {
    let bytes = emitted_stream(4);

    let mut single = Session::new();
    single.step(ChunkEvent::Data(bytes.clone()));
    single.step(ChunkEvent::Done);

    let mut tiny = Session::new();
    for b in &bytes {
        tiny.step(ChunkEvent::Data(vec![*b]));
    }
    tiny.step(ChunkEvent::Done);

    assert!(matches!(single.status(), StreamStatus::Completed));
    assert!(matches!(tiny.status(), StreamStatus::Completed));
    assert_eq!(single.records().len(), tiny.records().len());
    for (a, b) in single.records().iter().zip(tiny.records().iter()) {
        assert_eq!(a.index, b.index);
        assert_eq!(a.timestamp, b.timestamp);
        assert_eq!(a.message, b.message);
    }
}

#[test]
fn truncated_stream_detected() {
    let mut s = Session::new();
    s.step(ChunkEvent::Data(b"{\"index\":0,\"time".to_vec()));
    s.step(ChunkEvent::Done);
    assert!(matches!(
        s.status(),
        StreamStatus::Failed(StreamError::TruncatedStream)
    ));
    assert_eq!(s.records().len(), 0);
}

#[test]
fn malformed_payload_stops_session() {
    let mut bad = b"{\"index\":\"not-a-number\",\"timestamp\":1,\"message\":\"x\"}".to_vec();
    let good = encode_record(&make_record(0, 1));
    bad.extend_from_slice(&good);
    let mut s = Session::new();
    s.step(ChunkEvent::Data(bad));
    assert!(matches!(s.status(), StreamStatus::Failed(StreamError::Decode)));
    // nothing was pushed after the point of failure
    assert_eq!(s.records().len(), 0);
}

#[test]
fn transport_error_is_terminal() {
    let mut s = Session::new();
    let frame = encode_record(&make_record(0, 1));
    s.step(ChunkEvent::Data(frame.clone()));
    s.step(ChunkEvent::Error(String::from("connection reset")));
    match s.status() {
        StreamStatus::Failed(StreamError::Transport(d)) => assert_eq!(d, "connection reset"),
        _ => panic!("expected a transport failure"),
    }
    // the record decoded before the failure stays delivered
    assert_eq!(s.records().len(), 1);
    // later events change nothing
    s.step(ChunkEvent::Data(frame));
    s.step(ChunkEvent::Done);
    assert!(matches!(
        s.status(),
        StreamStatus::Failed(StreamError::Transport(_))
    ));
    assert_eq!(s.records().len(), 1);
}

#[test]
fn invalid_utf8_frame_is_encoding_error() {
    let mut s = Session::new();
    s.step(ChunkEvent::Data(vec![b'{', b'"', 0xff, b'"', b'}']));
    assert!(matches!(s.status(), StreamStatus::Failed(StreamError::Encoding)));
}

#[test]
fn many_frames_in_one_chunk() {
    let bytes = emitted_stream(5);
    let mut s = Session::new();
    s.step(ChunkEvent::Data(bytes));
    assert_eq!(s.records().len(), 5);
    assert!(matches!(s.status(), StreamStatus::Pending));
    s.step(ChunkEvent::Done);
    assert!(matches!(s.status(), StreamStatus::Completed));
}

#[test]
fn record_available_before_stream_ends() {
    let mut s = Session::new();
    s.step(ChunkEvent::Data(encode_record(&make_record(0, 7))));
    // the first record reaches the sink without waiting for the end of stream
    assert_eq!(s.records().len(), 1);
    assert_eq!(s.records()[0].index, 0);
    assert!(matches!(s.status(), StreamStatus::Pending));
}

#[test]
fn partial_frame_held_until_complete() {
    let frame = encode_record(&make_record(0, 7));
    let mut s = Session::new();
    s.step(ChunkEvent::Data(frame[..10].to_vec()));
    assert_eq!(s.records().len(), 0);
    s.step(ChunkEvent::Data(frame[10..].to_vec()));
    assert_eq!(s.records().len(), 1);
    s.step(ChunkEvent::Done);
    assert!(matches!(s.status(), StreamStatus::Completed));
}

#[test]
fn braces_inside_message_do_not_split_frames() {
    let rec = record_stream::record::Record {
        index: 0,
        timestamp: 1,
        message: String::from("a{b}}{c"),
    };
    let mut bytes = encode_record(&rec);
    bytes.extend_from_slice(&encode_record(&make_record(1, 2)));
    let mut s = Session::new();
    s.step(ChunkEvent::Data(bytes));
    s.step(ChunkEvent::Done);
    assert!(matches!(s.status(), StreamStatus::Completed));
    assert_eq!(s.records().len(), 2);
    assert_eq!(s.records()[0].message, "a{b}}{c");
    assert_eq!(s.records()[1].index, 1);
}

#[test]
fn empty_stream_completes_empty() {
    let mut s = Session::new();
    s.step(ChunkEvent::Done);
    assert!(matches!(s.status(), StreamStatus::Completed));
    assert_eq!(s.records().len(), 0);
}
