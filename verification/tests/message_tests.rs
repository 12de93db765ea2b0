use mmwave::error::ParseError;
use mmwave::message::{
    FrameBody, FrameHeader, FromBytes, TlvBody, TlvHeader, TlvType, WireSize,
};

fn le32(v: u32) -> [u8; 4] {
    v.to_le_bytes()
}

fn header_bytes(packet_length: u32, num_tlvs: u32) -> Vec<u8> {
    let mut b = vec![2, 1, 4, 3, 6, 5, 8, 7];
    for v in [0x0301_0005u32, packet_length, 0xA1843, 17, 1234, 3, num_tlvs, 0] {
        b.extend_from_slice(&le32(v));
    }
    b
}

fn tlv(code: u32, payload: &[u8]) -> Vec<u8> {
    let mut b = Vec::new();
    b.extend_from_slice(&le32(code));
    b.extend_from_slice(&le32(payload.len() as u32));
    b.extend_from_slice(payload);
    b
}

#[test]
fn words_are_little_endian() {
    assert_eq!(u8::from_bytes(&[7]).unwrap(), 7);
    assert_eq!(u16::from_bytes(&[0x34, 0x12]).unwrap(), 0x1234);
    assert_eq!(u32::from_bytes(&[0x78, 0x56, 0x34, 0x12]).unwrap(), 0x1234_5678);
    assert_eq!(u32::from_bytes(&[0xff, 0xff, 0xff, 0xff]).unwrap(), u32::MAX);
}

#[test]
fn words_need_their_exact_length() {
    assert!(matches!(u8::from_bytes(&[]), Err(ParseError::DataLengthMismatch)));
    assert!(matches!(u8::from_bytes(&[1, 2]), Err(ParseError::DataLengthMismatch)));
    assert!(matches!(u16::from_bytes(&[1]), Err(ParseError::DataLengthMismatch)));
    assert!(matches!(u32::from_bytes(&[1, 2, 3, 4, 5]), Err(ParseError::DataLengthMismatch)));
}

#[test]
fn wire_sizes() {
    assert_eq!(<u8 as WireSize>::size_of(), 1);
    assert_eq!(<u16 as WireSize>::size_of(), 2);
    assert_eq!(<u32 as WireSize>::size_of(), 4);
    assert_eq!(<[u16; 4] as WireSize>::size_of(), 8);
    assert_eq!(<[u32; 6] as WireSize>::size_of(), 24);
    assert_eq!(<[u32; 4] as WireSize>::size_of(), 16);
    assert_eq!(<TlvType as WireSize>::size_of(), 4);
    assert_eq!(<TlvHeader as WireSize>::size_of(), 8);
    assert_eq!(<FrameHeader as WireSize>::size_of(), 40);
}

#[test]
fn arrays_take_their_first_words() {
    let a = <[u16; 4]>::from_bytes(&[1, 0, 2, 0, 3, 0, 4, 0, 9, 9]).unwrap();
    assert_eq!(a, [1, 2, 3, 4]);
    assert!(matches!(<[u16; 4]>::from_bytes(&[1, 0, 2, 0, 3, 0, 4]), Err(ParseError::DataLengthMismatch)));
    let b = <[u8; 2]>::from_bytes(&[5, 6]).unwrap();
    assert_eq!(b, [5, 6]);
    let c = <[u32; 4]>::from_bytes(&[1, 0, 0, 0, 2, 0, 0, 0, 3, 0, 0, 0, 4, 0, 0, 0]).unwrap();
    assert_eq!(c, [1, 2, 3, 4]);
}

#[test]
fn sequences_leave_out_their_last_item() {
    let v = Vec::<u32>::from_bytes(&[1, 0, 0, 0, 2, 0, 0, 0, 3, 0, 0, 0]).unwrap();
    assert_eq!(v, vec![1, 2]);
    let one = Vec::<u32>::from_bytes(&[1, 0, 0, 0]).unwrap();
    assert!(one.is_empty());
    assert!(matches!(Vec::<u32>::from_bytes(&[]), Err(ParseError::DataLengthMismatch)));
    assert!(matches!(Vec::<u32>::from_bytes(&[1, 0, 0, 0, 2]), Err(ParseError::DataLengthMismatch)));
    let pairs = Vec::<[u8; 2]>::from_bytes(&[1, 2, 3, 4, 5, 6]).unwrap();
    assert_eq!(pairs, vec![[1, 2], [3, 4]]);
}

#[test]
fn tlv_types_by_code() {
    let expect = [
        (1, TlvType::PointCloud),
        (2, TlvType::RangeProfile),
        (3, TlvType::NoiseProfile),
        (4, TlvType::StaticAzimuthHeatmap),
        (5, TlvType::RangeDopplerHeatmap),
        (6, TlvType::Statistics),
        (7, TlvType::SideInfo),
        (8, TlvType::AzimuthElevationStaticHeatmap),
        (9, TlvType::Temperature),
    ];
    for (code, t) in expect {
        assert_eq!(TlvType::from_bytes(&le32(code)).unwrap(), t);
        assert_eq!(t.code(), code);
    }
    assert!(matches!(TlvType::from_bytes(&le32(0)), Err(ParseError::MalformedData)));
    assert!(matches!(TlvType::from_bytes(&le32(10)), Err(ParseError::MalformedData)));
    assert!(matches!(TlvType::from_bytes(&[1, 0, 0]), Err(ParseError::DataLengthMismatch)));
}

#[test]
fn tlv_header_reads_kind_then_length() {
    let h = TlvHeader::from_bytes(&[3, 0, 0, 0, 16, 1, 0, 0]).unwrap();
    assert_eq!(h.tlv_type, TlvType::NoiseProfile);
    assert_eq!(h.length, 272);
    assert!(matches!(TlvHeader::from_bytes(&[3, 0, 0]), Err(ParseError::DataLengthMismatch)));
    assert!(matches!(TlvHeader::from_bytes(&[42, 0, 0, 0, 1]), Err(ParseError::MalformedData)));
    assert!(matches!(TlvHeader::from_bytes(&[3, 0, 0, 0, 1]), Err(ParseError::DataLengthMismatch)));
}

#[test]
fn frame_header_fields() {
    let h = FrameHeader::from_bytes(&header_bytes(1000, 2)).unwrap();
    assert_eq!(h.magic_word, [0x0102, 0x0304, 0x0506, 0x0708]);
    assert_eq!(h.version, 0x0301_0005);
    assert_eq!(h.packet_length, 1000);
    assert_eq!(h.platform, 0xA1843);
    assert_eq!(h.frame_number, 17);
    assert_eq!(h.time, 1234);
    assert_eq!(h.num_detected, 3);
    assert_eq!(h.num_tlvs, 2);
    assert_eq!(h.subframe_num, 0);
}

#[test]
fn frame_header_needs_exactly_forty_bytes() {
    let mut b = header_bytes(40, 0);
    b.push(0);
    assert!(matches!(FrameHeader::from_bytes(&b), Err(ParseError::DataLengthMismatch)));
    let b = header_bytes(40, 0);
    assert!(matches!(FrameHeader::from_bytes(&b[..39]), Err(ParseError::DataLengthMismatch)));
    assert!(matches!(FrameHeader::from_bytes(&b[..36]), Err(ParseError::DataLengthMismatch)));
}

#[test]
fn frame_body_reads_records_back_to_back() {
    let mut bytes = tlv(3, &[1, 0, 0, 0, 2, 0, 0, 0, 3, 0, 0, 0]);
    let stats: Vec<u8> = (1u32..=6).flat_map(|v| v.to_le_bytes()).collect();
    bytes.extend(tlv(6, &stats));
    bytes.extend([0xAA, 0xBB]);
    let body = FrameBody::from_bytes(&bytes, 2).unwrap();
    assert_eq!(body.tlvs.len(), 2);
    assert_eq!(body.tlvs[0].tlv_header.tlv_type, TlvType::NoiseProfile);
    assert_eq!(body.tlvs[0].tlv_header.length, 12);
    match &body.tlvs[0].tlv_body {
        TlvBody::NoiseProfile(v) => assert_eq!(v, &vec![1, 2]),
        other => panic!("unexpected body {:?}", other),
    }
    match &body.tlvs[1].tlv_body {
        TlvBody::Statistics(a) => assert_eq!(a, &[1, 2, 3, 4, 5, 6]),
        other => panic!("unexpected body {:?}", other),
    }
    let none = FrameBody::from_bytes(&bytes, 0).unwrap();
    assert!(none.tlvs.is_empty());
}

#[test]
fn frame_body_point_cloud_bits() {
    let mut payload = Vec::new();
    for v in [1.5f32, -2.0, 0.25, 3.0, 9.0, 9.0, 9.0, 9.0] {
        payload.extend_from_slice(&v.to_le_bytes());
    }
    let body = FrameBody::from_bytes(&tlv(1, &payload), 1).unwrap();
    match &body.tlvs[0].tlv_body {
        TlvBody::PointCloud(points) => {
            assert_eq!(points.len(), 1);
            let p: Vec<f32> = points[0].iter().map(|b| f32::from_bits(*b)).collect();
            assert_eq!(p, vec![1.5, -2.0, 0.25, 3.0]);
        },
        other => panic!("unexpected body {:?}", other),
    }
}

#[test]
fn frame_body_errors() {
    match FrameBody::from_bytes(&tlv(5, &[0, 0]), 1) {
        Err(ParseError::UnimplementedTlvType(s)) => assert_eq!(s, "RangeDopplerHeatMap"),
        other => panic!("unexpected {:?}", other),
    }
    match FrameBody::from_bytes(&tlv(9, &[0, 0]), 1) {
        Err(ParseError::UnimplementedTlvType(s)) => assert_eq!(s, "Temperature"),
        other => panic!("unexpected {:?}", other),
    }
    let mut short = tlv(3, &[1, 0, 0, 0, 2, 0, 0, 0]);
    short.truncate(12);
    assert!(matches!(FrameBody::from_bytes(&short, 1), Err(ParseError::DataLengthMismatch)));
    assert!(matches!(FrameBody::from_bytes(&[3, 0, 0], 1), Err(ParseError::DataLengthMismatch)));
    assert!(matches!(FrameBody::from_bytes(&tlv(11, &[]), 1), Err(ParseError::MalformedData)));
    let one = tlv(3, &[1, 0, 0, 0]);
    assert!(matches!(FrameBody::from_bytes(&one, 2), Err(ParseError::DataLengthMismatch)));
}

#[test]
fn parse_error_messages() {
    assert_eq!(ParseError::DataLengthMismatch.message(), "Data Length Mismatch");
    assert_eq!(ParseError::MalformedData.message(), "Malformed Data");
    assert_eq!(
        ParseError::UnimplementedTlvType("Temperature".to_string()).message(),
        "Unimplemented Tlv Type Temperature"
    );
}

#[test]
fn frame_header_round_trip() {
    let h = FrameHeader {
        magic_word: [0xfffe, 0, 0x1234, 0x8000],
        version: u32::MAX,
        packet_length: 0x0102_0304,
        platform: 7,
        frame_number: 0x8000_0001,
        time: 0,
        num_detected: 255,
        num_tlvs: 256,
        subframe_num: 0xdead_beef,
    };
    let mut bytes = Vec::new();
    for w in h.magic_word {
        bytes.extend_from_slice(&w.to_le_bytes());
    }
    for v in [h.version, h.packet_length, h.platform, h.frame_number, h.time, h.num_detected, h.num_tlvs, h.subframe_num] {
        bytes.extend_from_slice(&v.to_le_bytes());
    }
    assert_eq!(FrameHeader::from_bytes(&bytes).unwrap(), h);
}
