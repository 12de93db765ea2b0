use mmwave::error::ParseError;
use mmwave::frame_reader::{FrameReader, ReadAction, MAGIC_WORD};
use mmwave::message::TlvBody;

fn le32(v: u32) -> [u8; 4] {
    v.to_le_bytes()
}

fn frame_bytes(num_tlvs: u32, body: &[u8]) -> Vec<u8> {
    let mut b = vec![2, 1, 4, 3, 6, 5, 8, 7];
    let packet_length = 40 + body.len() as u32;
    for v in [7u32, packet_length, 0xA1843, 5, 99, 1, num_tlvs, 0] {
        b.extend_from_slice(&le32(v));
    }
    b.extend_from_slice(body);
    b
}

fn tlv(code: u32, payload: &[u8]) -> Vec<u8> {
    let mut b = Vec::new();
    b.extend_from_slice(&le32(code));
    b.extend_from_slice(&le32(payload.len() as u32));
    b.extend_from_slice(payload);
    b
}

/// Runs the reader over a stream the way a data port feeds it.
fn run(stream: &[u8]) -> (ReadAction, usize) {
    let mut reader = FrameReader::new();
    let mut at = 0;
    let mut action = reader.begin();
    loop {
        match action {
            ReadAction::Read(n) => {
                let chunk = stream[at..at + n].to_vec();
                at += n;
                action = reader.feed(chunk);
            },
            done => return (done, at),
        }
    }
}

#[test]
fn reads_frame_after_junk() {
    let body = tlv(3, &[4, 0, 0, 0, 5, 0, 0, 0]);
    let mut stream = vec![0x01, 0x02, 0x03, 2, 1, 4];
    stream.extend(frame_bytes(1, &body));
    stream.extend([0xEE; 16]);
    let (action, used) = run(&stream);
    match action {
        ReadAction::Emit(frame) => {
            assert_eq!(frame.frame_header.magic_word, MAGIC_WORD);
            assert_eq!(frame.frame_header.version, 7);
            assert_eq!(frame.frame_header.frame_number, 5);
            assert_eq!(frame.frame_body.tlvs.len(), 1);
            match &frame.frame_body.tlvs[0].tlv_body {
                TlvBody::NoiseProfile(v) => assert_eq!(v, &vec![4]),
                other => panic!("unexpected {:?}", other),
            }
        },
        _ => panic!("no frame"),
    }
    assert_eq!(used, 6 + 40 + body.len());
}

#[test]
fn reads_frame_at_start_of_stream() {
    let stream = frame_bytes(0, &[]);
    let (action, used) = run(&stream);
    assert!(matches!(action, ReadAction::Emit(_)));
    assert_eq!(used, 40);
}

#[test]
fn asks_for_the_sizes_of_each_stage() {
    let mut reader = FrameReader::new();
    assert_eq!(reader.requested(), 0);
    assert!(!reader.is_reading());
    assert!(matches!(reader.begin(), ReadAction::Read(8)));
    assert_eq!(reader.requested(), 8);
    assert!(reader.is_reading());
    assert!(matches!(reader.feed(vec![0; 8]), ReadAction::Read(1)));
    assert!(matches!(reader.feed(vec![2]), ReadAction::Read(1)));
    for b in [1u8, 4, 3, 6, 5, 8] {
        assert!(matches!(reader.feed(vec![b]), ReadAction::Read(1)));
    }
    assert!(matches!(reader.feed(vec![7]), ReadAction::Read(32)));
    let header = frame_bytes(0, &[0; 12]);
    assert!(matches!(reader.feed(header[8..40].to_vec()), ReadAction::Read(12)));
    assert!(matches!(reader.feed(vec![0; 12]), ReadAction::Emit(_)));
    assert!(!reader.is_reading());
}

#[test]
fn short_packet_length_fails() {
    let mut stream = frame_bytes(0, &[]);
    stream[12..16].copy_from_slice(&le32(39));
    let (action, used) = run(&stream);
    assert!(matches!(action, ReadAction::Fail(ParseError::DataLengthMismatch)));
    assert_eq!(used, 40);
}

#[test]
fn bad_body_fails() {
    let body = tlv(9, &[0, 0, 0, 0]);
    let (action, _) = run(&frame_bytes(1, &body));
    match action {
        ReadAction::Fail(ParseError::UnimplementedTlvType(s)) => assert_eq!(s, "Temperature"),
        _ => panic!("expected failure"),
    }
}
