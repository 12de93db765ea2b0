//! The binary frame format of the AWR radars: a fixed 40-byte header followed
//! by a body of type-length-value records. All words on the data port are
//! little-endian.

use vstd::prelude::*;
use vstd::slice::slice_subrange;
use crate::error::{ParseError, ParseErrorView};

verus! {

/// The little-endian 16-bit word whose low byte is `b[at]`.
pub open spec fn le_u16(b: Seq<u8>, at: int) -> u16 {
    (b[at] + 256 * b[at + 1]) as u16
}

/// The little-endian 32-bit word whose lowest byte is `b[at]`.
pub open spec fn le_u32(b: Seq<u8>, at: int) -> u32 {
    (b[at] + 256 * b[at + 1] + 65536 * b[at + 2] + 16777216 * b[at + 3]) as u32
}

fn read_u16_le(bytes: &[u8], at: usize) -> (v: u16)
    requires
        at + 2 <= bytes@.len(),
    ensures
        v == le_u16(bytes@, at as int),
{
    let b0 = bytes[at] as u16;
    let b1 = bytes[at + 1] as u16;
    b0 + b1 * 256
}

fn read_u32_le(bytes: &[u8], at: usize) -> (v: u32)
    requires
        at + 4 <= bytes@.len(),
    ensures
        v == le_u32(bytes@, at as int),
{
    let b0 = bytes[at] as u32;
    let b1 = bytes[at + 1] as u32;
    let b2 = bytes[at + 2] as u32;
    let b3 = bytes[at + 3] as u32;
    b0 + b1 * 256 + b2 * 65536 + b3 * 16777216
}

/// The parse result seen through deep views.
pub open spec fn deep_result<T: DeepView>(r: Result<T, ParseError>) -> Result<T::V, ParseErrorView> {
    match r {
        Ok(v) => Ok(v.deep_view()),
        Err(e) => Err(e@),
    }
}

/// Values that can be read from a byte sequence.
pub trait FromBytes: Sized + DeepView {
    /// The byte sequences that this type can be read from without fault.
    spec fn spec_accepts(bytes: Seq<u8>) -> bool;

    /// What reading `bytes` gives.
    spec fn spec_from_bytes(bytes: Seq<u8>) -> Result<<Self as DeepView>::V, ParseErrorView>;

    fn from_bytes(bytes: &[u8]) -> (r: Result<Self, ParseError>)
        requires
            Self::spec_accepts(bytes@),
        ensures
            deep_result(r) == Self::spec_from_bytes(bytes@),
    ;
}

/// Values that occupy a fixed number of bytes on the wire.
pub trait WireSize {
    spec fn spec_size() -> nat;

    proof fn lemma_size_positive()
        ensures
            Self::spec_size() > 0,
    ;

    fn size_of() -> (n: usize)
        ensures
            n as nat == Self::spec_size(),
    ;
}

impl WireSize for u8 {
    open spec fn spec_size() -> nat {
        1
    }

    proof fn lemma_size_positive() {
    }

    fn size_of() -> (n: usize) {
        1
    }
}

impl FromBytes for u8 {
    open spec fn spec_accepts(bytes: Seq<u8>) -> bool {
        true
    }

    open spec fn spec_from_bytes(bytes: Seq<u8>) -> Result<u8, ParseErrorView> {
        if bytes.len() != 1 {
            Err(ParseErrorView::DataLengthMismatch)
        } else {
            Ok(bytes[0])
        }
    }

    fn from_bytes(bytes: &[u8]) -> (r: Result<u8, ParseError>) {
        if bytes.len() != 1 {
            Err(ParseError::DataLengthMismatch)
        } else {
            Ok(bytes[0])
        }
    }
}

impl WireSize for u16 {
    open spec fn spec_size() -> nat {
        2
    }

    proof fn lemma_size_positive() {
    }

    fn size_of() -> (n: usize) {
        2
    }
}

impl FromBytes for u16 {
    open spec fn spec_accepts(bytes: Seq<u8>) -> bool {
        true
    }

    open spec fn spec_from_bytes(bytes: Seq<u8>) -> Result<u16, ParseErrorView> {
        if bytes.len() != 2 {
            Err(ParseErrorView::DataLengthMismatch)
        } else {
            Ok(le_u16(bytes, 0))
        }
    }

    fn from_bytes(bytes: &[u8]) -> (r: Result<u16, ParseError>) {
        if bytes.len() != 2 {
            Err(ParseError::DataLengthMismatch)
        } else {
            Ok(read_u16_le(bytes, 0))
        }
    }
}

impl WireSize for u32 {
    open spec fn spec_size() -> nat {
        4
    }

    proof fn lemma_size_positive() {
    }

    fn size_of() -> (n: usize) {
        4
    }
}

impl FromBytes for u32 {
    open spec fn spec_accepts(bytes: Seq<u8>) -> bool {
        true
    }

    open spec fn spec_from_bytes(bytes: Seq<u8>) -> Result<u32, ParseErrorView> {
        if bytes.len() != 4 {
            Err(ParseErrorView::DataLengthMismatch)
        } else {
            Ok(le_u32(bytes, 0))
        }
    }

    fn from_bytes(bytes: &[u8]) -> (r: Result<u32, ParseError>) {
        if bytes.len() != 4 {
            Err(ParseError::DataLengthMismatch)
        } else {
            Ok(read_u32_le(bytes, 0))
        }
    }
}


impl WireSize for [u16; 4] {
    open spec fn spec_size() -> nat {
        8
    }

    proof fn lemma_size_positive() {
    }

    fn size_of() -> (n: usize) {
        8
    }
}

impl FromBytes for [u16; 4] {
    open spec fn spec_accepts(bytes: Seq<u8>) -> bool {
        true
    }

    /// The first 4 words; bytes past them are ignored.
    open spec fn spec_from_bytes(b: Seq<u8>) -> Result<Seq<u16>, ParseErrorView> {
        if b.len() < 8 {
            Err(ParseErrorView::DataLengthMismatch)
        } else {
            Ok(Seq::new(4, |i: int| le_u16(b, 2 * i)))
        }
    }

    fn from_bytes(bytes: &[u8]) -> (r: Result<[u16; 4], ParseError>) {
        if bytes.len() < 8 {
            return Err(ParseError::DataLengthMismatch);
        }
        let a: [u16; 4] = [read_u16_le(bytes, 0), read_u16_le(bytes, 2), read_u16_le(bytes, 4), read_u16_le(bytes, 6)];
        assert(a.deep_view() =~= Seq::new(4, |i: int| le_u16(bytes@, 2 * i)));
        Ok(a)
    }
}

impl WireSize for [u32; 6] {
    open spec fn spec_size() -> nat {
        24
    }

    proof fn lemma_size_positive() {
    }

    fn size_of() -> (n: usize) {
        24
    }
}

impl FromBytes for [u32; 6] {
    open spec fn spec_accepts(bytes: Seq<u8>) -> bool {
        true
    }

    /// The first 6 words; bytes past them are ignored.
    open spec fn spec_from_bytes(b: Seq<u8>) -> Result<Seq<u32>, ParseErrorView> {
        if b.len() < 24 {
            Err(ParseErrorView::DataLengthMismatch)
        } else {
            Ok(Seq::new(6, |i: int| le_u32(b, 4 * i)))
        }
    }

    fn from_bytes(bytes: &[u8]) -> (r: Result<[u32; 6], ParseError>) {
        if bytes.len() < 24 {
            return Err(ParseError::DataLengthMismatch);
        }
        let a: [u32; 6] = [read_u32_le(bytes, 0), read_u32_le(bytes, 4), read_u32_le(bytes, 8), read_u32_le(bytes, 12), read_u32_le(bytes, 16), read_u32_le(bytes, 20)];
        assert(a.deep_view() =~= Seq::new(6, |i: int| le_u32(bytes@, 4 * i)));
        Ok(a)
    }
}

impl WireSize for [u8; 2] {
    open spec fn spec_size() -> nat {
        2
    }

    proof fn lemma_size_positive() {
    }

    fn size_of() -> (n: usize) {
        2
    }
}

impl FromBytes for [u8; 2] {
    open spec fn spec_accepts(bytes: Seq<u8>) -> bool {
        true
    }

    /// The first 2 bytes; bytes past them are ignored.
    open spec fn spec_from_bytes(b: Seq<u8>) -> Result<Seq<u8>, ParseErrorView> {
        if b.len() < 2 {
            Err(ParseErrorView::DataLengthMismatch)
        } else {
            Ok(Seq::new(2, |i: int| b[i]))
        }
    }

    fn from_bytes(bytes: &[u8]) -> (r: Result<[u8; 2], ParseError>) {
        if bytes.len() < 2 {
            return Err(ParseError::DataLengthMismatch);
        }
        let a: [u8; 2] = [bytes[0], bytes[1]];
        assert(a.deep_view() =~= Seq::new(2, |i: int| bytes@[i]));
        Ok(a)
    }
}

impl WireSize for [u8; 4] {
    open spec fn spec_size() -> nat {
        4
    }

    proof fn lemma_size_positive() {
    }

    fn size_of() -> (n: usize) {
        4
    }
}

impl FromBytes for [u8; 4] {
    open spec fn spec_accepts(bytes: Seq<u8>) -> bool {
        true
    }

    /// The first 4 bytes; bytes past them are ignored.
    open spec fn spec_from_bytes(b: Seq<u8>) -> Result<Seq<u8>, ParseErrorView> {
        if b.len() < 4 {
            Err(ParseErrorView::DataLengthMismatch)
        } else {
            Ok(Seq::new(4, |i: int| b[i]))
        }
    }

    fn from_bytes(bytes: &[u8]) -> (r: Result<[u8; 4], ParseError>) {
        if bytes.len() < 4 {
            return Err(ParseError::DataLengthMismatch);
        }
        let a: [u8; 4] = [bytes[0], bytes[1], bytes[2], bytes[3]];
        assert(a.deep_view() =~= Seq::new(4, |i: int| bytes@[i]));
        Ok(a)
    }
}

impl WireSize for [u16; 2] {
    open spec fn spec_size() -> nat {
        4
    }

    proof fn lemma_size_positive() {
    }

    fn size_of() -> (n: usize) {
        4
    }
}

impl FromBytes for [u16; 2] {
    open spec fn spec_accepts(bytes: Seq<u8>) -> bool {
        true
    }

    /// The first 2 words; bytes past them are ignored.
    open spec fn spec_from_bytes(b: Seq<u8>) -> Result<Seq<u16>, ParseErrorView> {
        if b.len() < 4 {
            Err(ParseErrorView::DataLengthMismatch)
        } else {
            Ok(Seq::new(2, |i: int| le_u16(b, 2 * i)))
        }
    }

    fn from_bytes(bytes: &[u8]) -> (r: Result<[u16; 2], ParseError>) {
        if bytes.len() < 4 {
            return Err(ParseError::DataLengthMismatch);
        }
        let a: [u16; 2] = [read_u16_le(bytes, 0), read_u16_le(bytes, 2)];
        assert(a.deep_view() =~= Seq::new(2, |i: int| le_u16(bytes@, 2 * i)));
        Ok(a)
    }
}

impl WireSize for [u32; 4] {
    open spec fn spec_size() -> nat {
        16
    }

    proof fn lemma_size_positive() {
    }

    fn size_of() -> (n: usize) {
        16
    }
}

impl FromBytes for [u32; 4] {
    open spec fn spec_accepts(bytes: Seq<u8>) -> bool {
        true
    }

    /// The first 4 words; bytes past them are ignored.
    open spec fn spec_from_bytes(b: Seq<u8>) -> Result<Seq<u32>, ParseErrorView> {
        if b.len() < 16 {
            Err(ParseErrorView::DataLengthMismatch)
        } else {
            Ok(Seq::new(4, |i: int| le_u32(b, 4 * i)))
        }
    }

    fn from_bytes(bytes: &[u8]) -> (r: Result<[u32; 4], ParseError>) {
        if bytes.len() < 16 {
            return Err(ParseError::DataLengthMismatch);
        }
        let a: [u32; 4] = [read_u32_le(bytes, 0), read_u32_le(bytes, 4), read_u32_le(bytes, 8), read_u32_le(bytes, 12)];
        assert(a.deep_view() =~= Seq::new(4, |i: int| le_u32(bytes@, 4 * i)));
        Ok(a)
    }
}


/// The kinds of record a frame body can hold, each with its wire code.
#[derive(Debug, Clone, Copy, PartialEq, Eq)]
pub enum TlvType {
    PointCloud,
    RangeProfile,
    NoiseProfile,
    StaticAzimuthHeatmap,
    RangeDopplerHeatmap,
    Statistics,
    SideInfo,
    AzimuthElevationStaticHeatmap,
    Temperature,
}

/// The record kind that a wire code names, if any.
pub open spec fn tlv_type_of_code(code: u32) -> Option<TlvType> {
    if code == 1 {
        Some(TlvType::PointCloud)
    } else if code == 2 {
        Some(TlvType::RangeProfile)
    } else if code == 3 {
        Some(TlvType::NoiseProfile)
    } else if code == 4 {
        Some(TlvType::StaticAzimuthHeatmap)
    } else if code == 5 {
        Some(TlvType::RangeDopplerHeatmap)
    } else if code == 6 {
        Some(TlvType::Statistics)
    } else if code == 7 {
        Some(TlvType::SideInfo)
    } else if code == 8 {
        Some(TlvType::AzimuthElevationStaticHeatmap)
    } else if code == 9 {
        Some(TlvType::Temperature)
    } else {
        None
    }
}

impl TlvType {
    /// The wire code of this record kind.
    pub open spec fn spec_code(self) -> u32 {
        match self {
            TlvType::PointCloud => 1,
            TlvType::RangeProfile => 2,
            TlvType::NoiseProfile => 3,
            TlvType::StaticAzimuthHeatmap => 4,
            TlvType::RangeDopplerHeatmap => 5,
            TlvType::Statistics => 6,
            TlvType::SideInfo => 7,
            TlvType::AzimuthElevationStaticHeatmap => 8,
            TlvType::Temperature => 9,
        }
    }

    pub fn code(&self) -> (c: u32)
        ensures
            c == self.spec_code(),
            tlv_type_of_code(c) == Some(*self),
    {
        match self {
            TlvType::PointCloud => 1,
            TlvType::RangeProfile => 2,
            TlvType::NoiseProfile => 3,
            TlvType::StaticAzimuthHeatmap => 4,
            TlvType::RangeDopplerHeatmap => 5,
            TlvType::Statistics => 6,
            TlvType::SideInfo => 7,
            TlvType::AzimuthElevationStaticHeatmap => 8,
            TlvType::Temperature => 9,
        }
    }
}

impl DeepView for TlvType {
    type V = TlvType;

    open spec fn deep_view(&self) -> TlvType {
        *self
    }
}

impl WireSize for TlvType {
    open spec fn spec_size() -> nat {
        4
    }

    proof fn lemma_size_positive() {
    }

    fn size_of() -> (n: usize) {
        4
    }
}

impl FromBytes for TlvType {
    open spec fn spec_accepts(bytes: Seq<u8>) -> bool {
        true
    }

    open spec fn spec_from_bytes(bytes: Seq<u8>) -> Result<TlvType, ParseErrorView> {
        if bytes.len() != 4 {
            Err(ParseErrorView::DataLengthMismatch)
        } else {
            match tlv_type_of_code(le_u32(bytes, 0)) {
                Some(t) => Ok(t),
                None => Err(ParseErrorView::MalformedData),
            }
        }
    }

    fn from_bytes(bytes: &[u8]) -> (r: Result<TlvType, ParseError>) {
        if bytes.len() != 4 {
            Err(ParseError::DataLengthMismatch)
        } else {
            let code = read_u32_le(bytes, 0);
            match code {
                1 => Ok(TlvType::PointCloud),
                2 => Ok(TlvType::RangeProfile),
                3 => Ok(TlvType::NoiseProfile),
                4 => Ok(TlvType::StaticAzimuthHeatmap),
                5 => Ok(TlvType::RangeDopplerHeatmap),
                6 => Ok(TlvType::Statistics),
                7 => Ok(TlvType::SideInfo),
                8 => Ok(TlvType::AzimuthElevationStaticHeatmap),
                9 => Ok(TlvType::Temperature),
                _ => Err(ParseError::MalformedData),
            }
        }
    }
}

/// The 8-byte header of a record: its kind and the length of its payload.
#[derive(Debug, Clone, Copy, PartialEq, Eq)]
pub struct TlvHeader {
    pub tlv_type: TlvType,
    pub length: u32,
}

impl DeepView for TlvHeader {
    type V = TlvHeader;

    open spec fn deep_view(&self) -> TlvHeader {
        *self
    }
}

impl WireSize for TlvHeader {
    open spec fn spec_size() -> nat {
        8
    }

    proof fn lemma_size_positive() {
    }

    fn size_of() -> (n: usize) {
        8
    }
}

impl FromBytes for TlvHeader {
    open spec fn spec_accepts(bytes: Seq<u8>) -> bool {
        true
    }

    /// The kind is checked before the length is looked for.
    open spec fn spec_from_bytes(bytes: Seq<u8>) -> Result<TlvHeader, ParseErrorView> {
        if bytes.len() < 4 {
            Err(ParseErrorView::DataLengthMismatch)
        } else {
            match TlvType::spec_from_bytes(bytes.subrange(0, 4)) {
                Err(e) => Err(e),
                Ok(t) => if bytes.len() < 8 {
                    Err(ParseErrorView::DataLengthMismatch)
                } else {
                    Ok(TlvHeader { tlv_type: t, length: le_u32(bytes, 4) })
                },
            }
        }
    }

    fn from_bytes(bytes: &[u8]) -> (r: Result<TlvHeader, ParseError>) {
        if bytes.len() < 4 {
            return Err(ParseError::DataLengthMismatch);
        }
        let tlv_type = match TlvType::from_bytes(slice_subrange(bytes, 0, 4)) {
            Ok(t) => t,
            Err(e) => return Err(e),
        };
        if bytes.len() < 8 {
            return Err(ParseError::DataLengthMismatch);
        }
        let length = read_u32_le(bytes, 4);
        Ok(TlvHeader { tlv_type, length })
    }
}

/// The fixed header that opens every frame.
#[derive(Debug, Clone, Copy, PartialEq, Eq)]
pub struct FrameHeader {
    pub magic_word: [u16; 4],
    pub version: u32,
    pub packet_length: u32,
    pub platform: u32,
    pub frame_number: u32,
    pub time: u32,
    pub num_detected: u32,
    pub num_tlvs: u32,
    pub subframe_num: u32,
}

impl DeepView for FrameHeader {
    type V = FrameHeader;

    open spec fn deep_view(&self) -> FrameHeader {
        *self
    }
}

/// The header whose fields are read, in order, from `b`.
pub open spec fn header_of(b: Seq<u8>) -> FrameHeader {
    FrameHeader {
        magic_word: [le_u16(b, 0), le_u16(b, 2), le_u16(b, 4), le_u16(b, 6)],
        version: le_u32(b, 8),
        packet_length: le_u32(b, 12),
        platform: le_u32(b, 16),
        frame_number: le_u32(b, 20),
        time: le_u32(b, 24),
        num_detected: le_u32(b, 28),
        num_tlvs: le_u32(b, 32),
        subframe_num: le_u32(b, 36),
    }
}

impl WireSize for FrameHeader {
    open spec fn spec_size() -> nat {
        40
    }

    proof fn lemma_size_positive() {
    }

    fn size_of() -> (n: usize) {
        40
    }
}

impl FromBytes for FrameHeader {
    /// Fewer than 36 bytes cannot even be sliced into the leading fields.
    open spec fn spec_accepts(bytes: Seq<u8>) -> bool {
        bytes.len() >= 36
    }

    /// The last field takes all the remaining bytes, so only an exact
    /// 40-byte header is read.
    open spec fn spec_from_bytes(bytes: Seq<u8>) -> Result<FrameHeader, ParseErrorView> {
        if bytes.len() != 40 {
            Err(ParseErrorView::DataLengthMismatch)
        } else {
            Ok(header_of(bytes))
        }
    }

    fn from_bytes(bytes: &[u8]) -> (r: Result<FrameHeader, ParseError>) {
        let magic_word = match <[u16; 4]>::from_bytes(slice_subrange(bytes, 0, 8)) {
            Ok(m) => m,
            Err(e) => return Err(e),
        };
        let version = read_u32_le(bytes, 8);
        let packet_length = read_u32_le(bytes, 12);
        let platform = read_u32_le(bytes, 16);
        let frame_number = read_u32_le(bytes, 20);
        let time = read_u32_le(bytes, 24);
        let num_detected = read_u32_le(bytes, 28);
        let num_tlvs = read_u32_le(bytes, 32);
        let rest = slice_subrange(bytes, 36, bytes.len());
        let subframe_num = match u32::from_bytes(rest) {
            Ok(v) => v,
            Err(e) => return Err(e),
        };
        let h = FrameHeader {
            magic_word,
            version,
            packet_length,
            platform,
            frame_number,
            time,
            num_detected,
            num_tlvs,
            subframe_num,
        };
        proof {
            let sub = bytes@.subrange(0, 8);
            assert(magic_word.deep_view() == Seq::new(4, |i: int| le_u16(sub, 2 * i)));
            assert(magic_word.deep_view()[0] == le_u16(bytes@, 0));
            assert(magic_word.deep_view()[1] == le_u16(bytes@, 2));
            assert(magic_word.deep_view()[2] == le_u16(bytes@, 4));
            assert(magic_word.deep_view()[3] == le_u16(bytes@, 6));
            assert(magic_word@ =~= header_of(bytes@).magic_word@);
            assert(magic_word =~= header_of(bytes@).magic_word);
            assert(bytes@.len() == 40);
            assert(rest@[0] == bytes@[36]);
            assert(subframe_num == le_u32(bytes@, 36));
            assert(h == header_of(bytes@));
        }
        Ok(h)
    }
}


/// The little-endian bytes of a 16-bit word.
pub open spec fn le_bytes_u16(v: u16) -> Seq<u8> {
    seq![(v % 256) as u8, (v / 256) as u8]
}

/// The little-endian bytes of a 32-bit word.
pub open spec fn le_bytes_u32(v: u32) -> Seq<u8> {
    seq![(v % 256) as u8, ((v / 256) % 256) as u8, ((v / 65536) % 256) as u8, (v / 16777216) as u8]
}

/// The 40 bytes of a header: its fields back to back in order, each word
/// little-endian.
pub open spec fn header_bytes(h: FrameHeader) -> Seq<u8> {
    le_bytes_u16(h.magic_word[0]) + le_bytes_u16(h.magic_word[1]) + le_bytes_u16(h.magic_word[2])
        + le_bytes_u16(h.magic_word[3]) + le_bytes_u32(h.version) + le_bytes_u32(h.packet_length)
        + le_bytes_u32(h.platform) + le_bytes_u32(h.frame_number) + le_bytes_u32(h.time)
        + le_bytes_u32(h.num_detected) + le_bytes_u32(h.num_tlvs) + le_bytes_u32(h.subframe_num)
}

proof fn lemma_le_u16_at(b: Seq<u8>, at: int, v: u16)
    requires
        0 <= at,
        at + 2 <= b.len(),
        b.subrange(at, at + 2) == le_bytes_u16(v),
    ensures
        le_u16(b, at) == v,
{
    assert(b[at] == b.subrange(at, at + 2)[0]);
    assert(b[at + 1] == b.subrange(at, at + 2)[1]);
    let x = v as int;
    assert((x % 256) + 256 * (x / 256) == x) by (nonlinear_arith);
}

proof fn lemma_le_u32_at(b: Seq<u8>, at: int, v: u32)
    requires
        0 <= at,
        at + 4 <= b.len(),
        b.subrange(at, at + 4) == le_bytes_u32(v),
    ensures
        le_u32(b, at) == v,
{
    let w = b.subrange(at, at + 4);
    assert(b[at] == w[0] && b[at + 1] == w[1] && b[at + 2] == w[2] && b[at + 3] == w[3]);
    let x = v as int;
    assert((x % 256) + 256 * ((x / 256) % 256) + 65536 * ((x / 65536) % 256) + 16777216 * (x / 16777216) == x)
        by (nonlinear_arith)
        requires
            0 <= x < 0x1_0000_0000,
    {
        assert(x == 256 * (x / 256) + x % 256);
        assert(x / 256 == 256 * ((x / 256) / 256) + (x / 256) % 256);
        assert((x / 256) / 256 == x / 65536);
        assert(x / 65536 == 256 * ((x / 65536) / 256) + (x / 65536) % 256);
        assert((x / 65536) / 256 == x / 16777216);
    }
}

/// Writing a header's fields back to back, each word little-endian, and
/// reading the bytes again gives the same header.
pub proof fn lemma_header_round_trip(h: FrameHeader)
    ensures
        header_bytes(h).len() == 40,
        FrameHeader::spec_from_bytes(header_bytes(h)) == Ok::<FrameHeader, ParseErrorView>(h),
{
    let b = header_bytes(h);
    assert(b.len() == 40);
    assert(b.subrange(0, 2) =~= le_bytes_u16(h.magic_word[0]));
    assert(b.subrange(2, 4) =~= le_bytes_u16(h.magic_word[1]));
    assert(b.subrange(4, 6) =~= le_bytes_u16(h.magic_word[2]));
    assert(b.subrange(6, 8) =~= le_bytes_u16(h.magic_word[3]));
    assert(b.subrange(8, 12) =~= le_bytes_u32(h.version));
    assert(b.subrange(12, 16) =~= le_bytes_u32(h.packet_length));
    assert(b.subrange(16, 20) =~= le_bytes_u32(h.platform));
    assert(b.subrange(20, 24) =~= le_bytes_u32(h.frame_number));
    assert(b.subrange(24, 28) =~= le_bytes_u32(h.time));
    assert(b.subrange(28, 32) =~= le_bytes_u32(h.num_detected));
    assert(b.subrange(32, 36) =~= le_bytes_u32(h.num_tlvs));
    assert(b.subrange(36, 40) =~= le_bytes_u32(h.subframe_num));
    lemma_le_u16_at(b, 0, h.magic_word[0]);
    lemma_le_u16_at(b, 2, h.magic_word[1]);
    lemma_le_u16_at(b, 4, h.magic_word[2]);
    lemma_le_u16_at(b, 6, h.magic_word[3]);
    lemma_le_u32_at(b, 8, h.version);
    lemma_le_u32_at(b, 12, h.packet_length);
    lemma_le_u32_at(b, 16, h.platform);
    lemma_le_u32_at(b, 20, h.frame_number);
    lemma_le_u32_at(b, 24, h.time);
    lemma_le_u32_at(b, 28, h.num_detected);
    lemma_le_u32_at(b, 32, h.num_tlvs);
    lemma_le_u32_at(b, 36, h.subframe_num);
    assert(header_of(b).magic_word =~= h.magic_word);
}

/// Writing a 16-bit word little-endian and reading it back gives the word.
pub proof fn lemma_u16_round_trip(v: u16)
    ensures
        u16::spec_from_bytes(le_bytes_u16(v)) == Ok::<u16, ParseErrorView>(v),
{
    let b = le_bytes_u16(v);
    assert(b.subrange(0, 2) =~= b);
    lemma_le_u16_at(b, 0, v);
}

/// Writing a 32-bit word little-endian and reading it back gives the word.
pub proof fn lemma_u32_round_trip(v: u32)
    ensures
        u32::spec_from_bytes(le_bytes_u32(v)) == Ok::<u32, ParseErrorView>(v),
{
    let b = le_bytes_u32(v);
    assert(b.subrange(0, 4) =~= b);
    lemma_le_u32_at(b, 0, v);
}

proof fn lemma_le_u16_sub(b: Seq<u8>, at: int)
    requires
        0 <= at,
        at + 2 <= b.len(),
    ensures
        u16::spec_from_bytes(b.subrange(at, at + 2)) == Ok::<u16, ParseErrorView>(le_u16(b, at)),
{
    let w = b.subrange(at, at + 2);
    assert(w[0] == b[at] && w[1] == b[at + 1]);
}

proof fn lemma_le_u32_sub(b: Seq<u8>, at: int)
    requires
        0 <= at,
        at + 4 <= b.len(),
    ensures
        u32::spec_from_bytes(b.subrange(at, at + 4)) == Ok::<u32, ParseErrorView>(le_u32(b, at)),
{
    let w = b.subrange(at, at + 4);
    assert(w[0] == b[at] && w[1] == b[at + 1] && w[2] == b[at + 2] && w[3] == b[at + 3]);
}

/// An array of two 16-bit words reads its word `i` from bytes `2i` and
/// `2i + 1`, as a single word would be read from them.
pub proof fn lemma_u16_pair_reads_words(b: Seq<u8>, i: int)
    requires
        b.len() >= 4,
        0 <= i < 2,
    ensures
        <[u16; 2]>::spec_from_bytes(b) matches Ok(a) && a.len() == 2 && Ok::<u16, ParseErrorView>(a[i])
            == u16::spec_from_bytes(b.subrange(2 * i, 2 * i + 2)),
{
    lemma_le_u16_sub(b, 2 * i);
}

/// An array of four 16-bit words reads its word `i` from bytes `2i` and
/// `2i + 1`, as a single word would be read from them.
pub proof fn lemma_u16_quad_reads_words(b: Seq<u8>, i: int)
    requires
        b.len() >= 8,
        0 <= i < 4,
    ensures
        <[u16; 4]>::spec_from_bytes(b) matches Ok(a) && a.len() == 4 && Ok::<u16, ParseErrorView>(a[i])
            == u16::spec_from_bytes(b.subrange(2 * i, 2 * i + 2)),
{
    lemma_le_u16_sub(b, 2 * i);
}

/// An array of four 32-bit words reads its word `i` from bytes `4i` to
/// `4i + 3`, as a single word would be read from them.
pub proof fn lemma_u32_quad_reads_words(b: Seq<u8>, i: int)
    requires
        b.len() >= 16,
        0 <= i < 4,
    ensures
        <[u32; 4]>::spec_from_bytes(b) matches Ok(a) && a.len() == 4 && Ok::<u32, ParseErrorView>(a[i])
            == u32::spec_from_bytes(b.subrange(4 * i, 4 * i + 4)),
{
    lemma_le_u32_sub(b, 4 * i);
}

/// An array of six 32-bit words reads its word `i` from bytes `4i` to
/// `4i + 3`, as a single word would be read from them.
pub proof fn lemma_u32_six_reads_words(b: Seq<u8>, i: int)
    requires
        b.len() >= 24,
        0 <= i < 6,
    ensures
        <[u32; 6]>::spec_from_bytes(b) matches Ok(a) && a.len() == 6 && Ok::<u32, ParseErrorView>(a[i])
            == u32::spec_from_bytes(b.subrange(4 * i, 4 * i + 4)),
{
    lemma_le_u32_sub(b, 4 * i);
}

/// An array of bytes takes the leading bytes in order: byte `i` is read as
/// a single byte would be.
pub proof fn lemma_byte_arrays_read_bytes(b: Seq<u8>, i: int)
    requires
        0 <= i < 4,
        b.len() >= 4,
    ensures
        <[u8; 4]>::spec_from_bytes(b) matches Ok(a) && a.len() == 4 && Ok::<u8, ParseErrorView>(a[i])
            == u8::spec_from_bytes(b.subrange(i, i + 1)),
        i < 2 ==> (<[u8; 2]>::spec_from_bytes(b) matches Ok(a) && a.len() == 2 && Ok::<u8, ParseErrorView>(a[i])
            == u8::spec_from_bytes(b.subrange(i, i + 1))),
{
    assert(b.subrange(i, i + 1)[0] == b[i]);
}

/// Writing two 16-bit words little-endian, back to back, and reading the
/// pair gives the words in order.
pub proof fn lemma_u16_pair_round_trip(x: u16, y: u16)
    ensures
        <[u16; 2]>::spec_from_bytes(le_bytes_u16(x) + le_bytes_u16(y)) == Ok::<Seq<u16>, ParseErrorView>(seq![x, y]),
{
    let b = le_bytes_u16(x) + le_bytes_u16(y);
    assert(b.subrange(0, 2) =~= le_bytes_u16(x));
    assert(b.subrange(2, 4) =~= le_bytes_u16(y));
    lemma_le_u16_at(b, 0, x);
    lemma_le_u16_at(b, 2, y);
    match <[u16; 2]>::spec_from_bytes(b) {
        Ok(a) => assert(a =~= seq![x, y]),
        Err(_) => {},
    }
}

/// The first `count` items read from consecutive chunks of the item's wire
/// size; the earliest failing chunk decides the error.
pub open spec fn spec_items<T: FromBytes + WireSize>(bytes: Seq<u8>, count: nat) -> Result<
    Seq<<T as DeepView>::V>,
    ParseErrorView,
>
    decreases count,
{
    if count == 0 {
        Ok(Seq::empty())
    } else {
        match spec_items::<T>(bytes, (count - 1) as nat) {
            Err(e) => Err(e),
            Ok(prefix) => {
                let s = T::spec_size() as int;
                match T::spec_from_bytes(bytes.subrange((count - 1) * s, count * s)) {
                    Err(e) => Err(e),
                    Ok(x) => Ok(prefix.push(x)),
                }
            },
        }
    }
}

/// Reading a sequence of items: the bytes must split into a positive whole
/// number of items, and the last item of the split is not read.
pub open spec fn spec_vec_from_bytes<T: FromBytes + WireSize>(bytes: Seq<u8>) -> Result<
    Seq<<T as DeepView>::V>,
    ParseErrorView,
> {
    let s = T::spec_size();
    if s == 0 || bytes.len() % s != 0 || bytes.len() / s == 0 {
        Err(ParseErrorView::DataLengthMismatch)
    } else {
        spec_items::<T>(bytes, (bytes.len() / s - 1) as nat)
    }
}


proof fn lemma_items_len<T: FromBytes + WireSize>(bytes: Seq<u8>, count: nat)
    ensures
        spec_items::<T>(bytes, count) matches Ok(v) ==> v.len() == count,
    decreases count,
{
    if count > 0 {
        lemma_items_len::<T>(bytes, (count - 1) as nat);
    }
}

/// Reading a sequence of items gives one item fewer than the bytes hold:
/// the last item is not read.
pub proof fn lemma_vec_from_bytes_len<T: FromBytes + WireSize>(bytes: Seq<u8>)
    ensures
        spec_vec_from_bytes::<T>(bytes) matches Ok(v) ==> v.len() + 1 == bytes.len() / T::spec_size(),
{
    if spec_vec_from_bytes::<T>(bytes) is Ok {
        lemma_items_len::<T>(bytes, (bytes.len() / T::spec_size() - 1) as nat);
    }
}

/// Every chunk of the item's wire size can be read without fault.
pub open spec fn accepts_all_chunks<T: FromBytes + WireSize>() -> bool {
    forall|s: Seq<u8>| s.len() == T::spec_size() ==> #[trigger] T::spec_accepts(s)
}

proof fn lemma_items_error_persists<T: FromBytes + WireSize>(bytes: Seq<u8>, i: nat, n: nat)
    requires
        i <= n,
        spec_items::<T>(bytes, i) is Err,
    ensures
        spec_items::<T>(bytes, n) == spec_items::<T>(bytes, i),
    decreases n,
{
    if n > i {
        lemma_items_error_persists::<T>(bytes, i, (n - 1) as nat);
    }
}

impl<T: FromBytes + WireSize> FromBytes for Vec<T> {
    open spec fn spec_accepts(bytes: Seq<u8>) -> bool {
        accepts_all_chunks::<T>()
    }

    open spec fn spec_from_bytes(bytes: Seq<u8>) -> Result<Seq<<T as DeepView>::V>, ParseErrorView> {
        spec_vec_from_bytes::<T>(bytes)
    }

    fn from_bytes(bytes: &[u8]) -> (r: Result<Vec<T>, ParseError>) {
        let item_size = T::size_of();
        proof {
            T::lemma_size_positive();
        }
        if bytes.len() % item_size != 0 || bytes.len() / item_size == 0 {
            return Err(ParseError::DataLengthMismatch);
        }
        let count = bytes.len() / item_size - 1;
        proof {
            vstd::arithmetic::div_mod::lemma_fundamental_div_mod(bytes@.len() as int, item_size as int);
        }
        let mut items: Vec<T> = Vec::new();
        assert(items.deep_view() =~= Seq::<<T as DeepView>::V>::empty());
        let mut i: usize = 0;
        while i < count
            invariant
                0 <= i <= count,
                item_size as nat == T::spec_size(),
                item_size > 0,
                count + 1 == bytes@.len() / (item_size as nat),
                bytes@.len() % (item_size as nat) == 0,
                bytes@.len() == item_size * (bytes@.len() / (item_size as nat)),
                accepts_all_chunks::<T>(),
                spec_items::<T>(bytes@, i as nat) == Ok::<Seq<<T as DeepView>::V>, ParseErrorView>(
                    items.deep_view(),
                ),
            decreases count - i,
        {
            let q = bytes.len() / item_size;
            assert((i + 1) * item_size <= bytes@.len()) by (nonlinear_arith)
                requires
                    i + 1 <= q - 1,
                    bytes@.len() == item_size * q,
                    item_size > 0,
            ;
            assert(i * item_size + item_size == (i + 1) * item_size) by (nonlinear_arith);
            let start = i * item_size;
            let end = start + item_size;
            let chunk = slice_subrange(bytes, start, end);
            assert(T::spec_accepts(chunk@));
            assert(((i + 1) as nat - 1) * (T::spec_size() as int) == start);
            assert(((i + 1) as nat) * (T::spec_size() as int) == end);
            match T::from_bytes(chunk) {
                Ok(x) => {
                    let ghost before = items.deep_view();
                    items.push(x);
                    assert(items.deep_view() =~= before.push(x.deep_view()));
                },
                Err(e) => {
                    proof {
                        assert(spec_items::<T>(bytes@, (i + 1) as nat) == Err::<
                            Seq<<T as DeepView>::V>,
                            ParseErrorView,
                        >(e@));
                        lemma_items_error_persists::<T>(bytes@, (i + 1) as nat, count as nat);
                    }
                    return Err(e);
                },
            }
            i += 1;
        }
        Ok(items)
    }
}

/// The payload of a record, by kind. Point coordinates are carried as the
/// IEEE-754 bit patterns of the `f32` values `x, y, z, velocity`.
#[derive(Debug, Clone)]
pub enum TlvBody {
    PointCloud(Vec<[u32; 4]>),
    RangeProfile(Vec<[u8; 2]>),
    NoiseProfile(Vec<u32>),
    StatisticAzimuthHeatmap(Vec<[u8; 4]>),
    RangeDopplerHeatmap,
    Statistics([u32; 6]),
    SideInfo(Vec<[u16; 2]>),
    AzimuthElevationStaticHeatmap(Vec<[u8; 4]>),
    Temperature,
}

pub enum TlvBodyView {
    PointCloud(Seq<Seq<u32>>),
    RangeProfile(Seq<Seq<u8>>),
    NoiseProfile(Seq<u32>),
    StatisticAzimuthHeatmap(Seq<Seq<u8>>),
    RangeDopplerHeatmap,
    Statistics(Seq<u32>),
    SideInfo(Seq<Seq<u16>>),
    AzimuthElevationStaticHeatmap(Seq<Seq<u8>>),
    Temperature,
}

impl DeepView for TlvBody {
    type V = TlvBodyView;

    open spec fn deep_view(&self) -> TlvBodyView {
        match self {
            TlvBody::PointCloud(v) => TlvBodyView::PointCloud(v.deep_view()),
            TlvBody::RangeProfile(v) => TlvBodyView::RangeProfile(v.deep_view()),
            TlvBody::NoiseProfile(v) => TlvBodyView::NoiseProfile(v.deep_view()),
            TlvBody::StatisticAzimuthHeatmap(v) => TlvBodyView::StatisticAzimuthHeatmap(v.deep_view()),
            TlvBody::RangeDopplerHeatmap => TlvBodyView::RangeDopplerHeatmap,
            TlvBody::Statistics(a) => TlvBodyView::Statistics(a.deep_view()),
            TlvBody::SideInfo(v) => TlvBodyView::SideInfo(v.deep_view()),
            TlvBody::AzimuthElevationStaticHeatmap(v) => TlvBodyView::AzimuthElevationStaticHeatmap(
                v.deep_view(),
            ),
            TlvBody::Temperature => TlvBodyView::Temperature,
        }
    }
}

/// What the payload bytes of a record of kind `t` are read as.
pub open spec fn spec_tlv_body(t: TlvType, b: Seq<u8>) -> Result<TlvBodyView, ParseErrorView> {
    match t {
        TlvType::PointCloud => match spec_vec_from_bytes::<[u32; 4]>(b) {
            Ok(v) => Ok(TlvBodyView::PointCloud(v)),
            Err(e) => Err(e),
        },
        TlvType::RangeProfile => match spec_vec_from_bytes::<[u8; 2]>(b) {
            Ok(v) => Ok(TlvBodyView::RangeProfile(v)),
            Err(e) => Err(e),
        },
        TlvType::NoiseProfile => match spec_vec_from_bytes::<u32>(b) {
            Ok(v) => Ok(TlvBodyView::NoiseProfile(v)),
            Err(e) => Err(e),
        },
        TlvType::StaticAzimuthHeatmap => match spec_vec_from_bytes::<[u8; 4]>(b) {
            Ok(v) => Ok(TlvBodyView::StatisticAzimuthHeatmap(v)),
            Err(e) => Err(e),
        },
        TlvType::RangeDopplerHeatmap => Err(
            ParseErrorView::UnimplementedTlvType("RangeDopplerHeatMap"@),
        ),
        TlvType::Statistics => match <[u32; 6]>::spec_from_bytes(b) {
            Ok(v) => Ok(TlvBodyView::Statistics(v)),
            Err(e) => Err(e),
        },
        TlvType::SideInfo => match spec_vec_from_bytes::<[u16; 2]>(b) {
            Ok(v) => Ok(TlvBodyView::SideInfo(v)),
            Err(e) => Err(e),
        },
        TlvType::AzimuthElevationStaticHeatmap => match spec_vec_from_bytes::<[u8; 4]>(b) {
            Ok(v) => Ok(TlvBodyView::AzimuthElevationStaticHeatmap(v)),
            Err(e) => Err(e),
        },
        TlvType::Temperature => Err(ParseErrorView::UnimplementedTlvType("Temperature"@)),
    }
}

fn parse_tlv_body(t: TlvType, bytes: &[u8]) -> (r: Result<TlvBody, ParseError>)
    ensures
        deep_result(r) == spec_tlv_body(t, bytes@),
{
    match t {
        TlvType::PointCloud => match Vec::<[u32; 4]>::from_bytes(bytes) {
            Ok(v) => Ok(TlvBody::PointCloud(v)),
            Err(e) => Err(e),
        },
        TlvType::RangeProfile => match Vec::<[u8; 2]>::from_bytes(bytes) {
            Ok(v) => Ok(TlvBody::RangeProfile(v)),
            Err(e) => Err(e),
        },
        TlvType::NoiseProfile => match Vec::<u32>::from_bytes(bytes) {
            Ok(v) => Ok(TlvBody::NoiseProfile(v)),
            Err(e) => Err(e),
        },
        TlvType::StaticAzimuthHeatmap => match Vec::<[u8; 4]>::from_bytes(bytes) {
            Ok(v) => Ok(TlvBody::StatisticAzimuthHeatmap(v)),
            Err(e) => Err(e),
        },
        TlvType::RangeDopplerHeatmap => Err(
            ParseError::UnimplementedTlvType(String::from_str("RangeDopplerHeatMap")),
        ),
        TlvType::Statistics => match <[u32; 6]>::from_bytes(bytes) {
            Ok(v) => Ok(TlvBody::Statistics(v)),
            Err(e) => Err(e),
        },
        TlvType::SideInfo => match Vec::<[u16; 2]>::from_bytes(bytes) {
            Ok(v) => Ok(TlvBody::SideInfo(v)),
            Err(e) => Err(e),
        },
        TlvType::AzimuthElevationStaticHeatmap => match Vec::<[u8; 4]>::from_bytes(bytes) {
            Ok(v) => Ok(TlvBody::AzimuthElevationStaticHeatmap(v)),
            Err(e) => Err(e),
        },
        TlvType::Temperature => Err(ParseError::UnimplementedTlvType(String::from_str("Temperature"))),
    }
}


/// One record: its header and its payload.
#[derive(Debug, Clone)]
pub struct Tlv {
    pub tlv_header: TlvHeader,
    pub tlv_body: TlvBody,
}

pub struct TlvView {
    pub header: TlvHeader,
    pub body: TlvBodyView,
}

impl DeepView for Tlv {
    type V = TlvView;

    open spec fn deep_view(&self) -> TlvView {
        TlvView { header: self.tlv_header, body: self.tlv_body.deep_view() }
    }
}

/// The record that starts at `offset`, with the offset just past it.
pub open spec fn spec_one_tlv(bytes: Seq<u8>, offset: int) -> Result<(TlvView, int), ParseErrorView> {
    if offset + 8 > bytes.len() {
        Err(ParseErrorView::DataLengthMismatch)
    } else {
        match TlvHeader::spec_from_bytes(bytes.subrange(offset, offset + 8)) {
            Err(e) => Err(e),
            Ok(h) => {
                let start = offset + 8;
                let end = start + h.length;
                if end > bytes.len() {
                    Err(ParseErrorView::DataLengthMismatch)
                } else {
                    match spec_tlv_body(h.tlv_type, bytes.subrange(start, end)) {
                        Err(e) => Err(e),
                        Ok(body) => Ok((TlvView { header: h, body }, end)),
                    }
                }
            },
        }
    }
}

/// `count` records read back to back from `offset`; the first failure wins.
pub open spec fn spec_tlvs(bytes: Seq<u8>, offset: int, count: nat) -> Result<
    Seq<TlvView>,
    ParseErrorView,
>
    decreases count,
{
    if count == 0 {
        Ok(Seq::empty())
    } else {
        match spec_one_tlv(bytes, offset) {
            Err(e) => Err(e),
            Ok((tlv, next)) => match spec_tlvs(bytes, next, (count - 1) as nat) {
                Err(e) => Err(e),
                Ok(rest) => Ok(seq![tlv] + rest),
            },
        }
    }
}

fn parse_one_tlv(bytes: &[u8], offset: usize) -> (r: Result<(Tlv, usize), ParseError>)
    requires
        offset <= bytes@.len(),
    ensures
        match r {
            Ok((tlv, next)) => spec_one_tlv(bytes@, offset as int) == Ok::<(TlvView, int), ParseErrorView>(
                (tlv.deep_view(), next as int),
            ) && next <= bytes@.len(),
            Err(e) => spec_one_tlv(bytes@, offset as int) == Err::<(TlvView, int), ParseErrorView>(e@),
        },
{
    if bytes.len() - offset < 8 {
        return Err(ParseError::DataLengthMismatch);
    }
    let tlv_header = match TlvHeader::from_bytes(slice_subrange(bytes, offset, offset + 8)) {
        Ok(h) => h,
        Err(e) => return Err(e),
    };
    let start = offset + 8;
    let length = tlv_header.length as usize;
    if bytes.len() - start < length {
        return Err(ParseError::DataLengthMismatch);
    }
    let end = start + length;
    let tlv_body = match parse_tlv_body(tlv_header.tlv_type, slice_subrange(bytes, start, end)) {
        Ok(b) => b,
        Err(e) => return Err(e),
    };
    Ok((Tlv { tlv_header, tlv_body }, end))
}

/// The records of a frame.
#[derive(Debug, Clone)]
pub struct FrameBody {
    pub tlvs: Vec<Tlv>,
}

impl DeepView for FrameBody {
    type V = Seq<TlvView>;

    open spec fn deep_view(&self) -> Seq<TlvView> {
        self.tlvs.deep_view()
    }
}

impl FrameBody {
    /// Reads `num_tlvs` records from the start of `bytes`; bytes after the
    /// last record are ignored.
    pub fn from_bytes(bytes: &[u8], num_tlvs: usize) -> (r: Result<FrameBody, ParseError>)
        ensures
            deep_result(r) == spec_tlvs(bytes@, 0, num_tlvs as nat),
    {
        let mut tlvs: Vec<Tlv> = Vec::new();
        let mut offset: usize = 0;
        let mut i: usize = 0;
        proof {
            assert(tlvs.deep_view() =~= Seq::<TlvView>::empty());
            match spec_tlvs(bytes@, 0, num_tlvs as nat) {
                Ok(rest) => assert(Seq::<TlvView>::empty() + rest =~= rest),
                Err(_) => {},
            }
        }
        while i < num_tlvs
            invariant
                0 <= i <= num_tlvs,
                offset <= bytes@.len(),
                spec_tlvs(bytes@, 0, num_tlvs as nat) == match spec_tlvs(
                    bytes@,
                    offset as int,
                    (num_tlvs - i) as nat,
                ) {
                    Ok(rest) => Ok(tlvs.deep_view() + rest),
                    Err(e) => Err::<Seq<TlvView>, ParseErrorView>(e),
                },
            decreases num_tlvs - i,
        {
            match parse_one_tlv(bytes, offset) {
                Ok((tlv, next)) => {
                    let ghost before = tlvs.deep_view();
                    let ghost t = tlv.deep_view();
                    tlvs.push(tlv);
                    proof {
                        assert(tlvs.deep_view() =~= before.push(t));
                        match spec_tlvs(bytes@, next as int, (num_tlvs - i - 1) as nat) {
                            Ok(rest) => {
                                assert(before + (seq![t] + rest) =~= before.push(t) + rest);
                            },
                            Err(_) => {},
                        }
                    }
                    offset = next;
                },
                Err(e) => {
                    return Err(e);
                },
            }
            i += 1;
        }
        proof {
            assert(tlvs.deep_view() + Seq::<TlvView>::empty() =~= tlvs.deep_view());
        }
        Ok(FrameBody { tlvs })
    }
}

/// A complete frame: header and records.
#[derive(Debug, Clone)]
pub struct Frame {
    pub frame_header: FrameHeader,
    pub frame_body: FrameBody,
}

pub struct FrameView {
    pub header: FrameHeader,
    pub tlvs: Seq<TlvView>,
}

impl DeepView for Frame {
    type V = FrameView;

    open spec fn deep_view(&self) -> FrameView {
        FrameView { header: self.frame_header, tlvs: self.frame_body.deep_view() }
    }
}

} // verus!
