//! Finding and reading frames in the byte stream of a radar's data port.
//!
//! The reader alternates with the port: it says how many bytes it needs next,
//! the caller reads exactly that many and feeds them back. Bytes are skipped
//! one at a time until the last eight read are the magic word; then the rest
//! of the header and, as the header's packet length says, the body follow.

use vstd::prelude::*;
use crate::error::{ParseError, ParseErrorView};
use crate::message::{header_of, spec_tlvs, Frame, FrameBody, FrameHeader, FrameView, FromBytes};

verus! {

/// The words that open every frame.
pub const MAGIC_WORD: [u16; 4] = [0x0102, 0x0304, 0x0506, 0x0708];

/// The magic word as it appears on the wire.
pub open spec fn magic_bytes() -> Seq<u8> {
    seq![2u8, 1u8, 4u8, 3u8, 6u8, 5u8, 8u8, 7u8]
}

/// The eight bytes of `s` from `k` on are the magic word.
pub open spec fn is_magic_at(s: Seq<u8>, k: int) -> bool {
    0 <= k && k + 8 <= s.len() && s.subrange(k, k + 8) == magic_bytes()
}

/// The magic word starts at no position before `k`.
pub open spec fn no_magic_before(s: Seq<u8>, k: int) -> bool {
    forall|j: int| 0 <= j < k ==> !#[trigger] is_magic_at(s, j)
}

/// `k` is where the magic word first occurs in `s`.
pub open spec fn first_magic_at(s: Seq<u8>, k: int) -> bool {
    is_magic_at(s, k) && no_magic_before(s, k)
}

/// What the frame starting at `k` reads as: the 40-byte header there, then
/// the records in the rest of its packet.
pub open spec fn spec_frame_at(s: Seq<u8>, k: int) -> Result<FrameView, ParseErrorView> {
    let h = header_of(s.subrange(k, k + 40));
    if h.packet_length < 40 {
        Err(ParseErrorView::DataLengthMismatch)
    } else {
        match spec_tlvs(s.subrange(k + 40, k + h.packet_length), 0, h.num_tlvs as nat) {
            Ok(tlvs) => Ok(FrameView { header: h, tlvs }),
            Err(e) => Err(e),
        }
    }
}

/// Appending bytes does not change where the magic word occurs in what
/// was there before.
pub proof fn lemma_magic_prefix_stable(a: Seq<u8>, b: Seq<u8>)
    ensures
        forall|j: int| 0 <= j && j + 8 <= a.len() ==> #[trigger] is_magic_at(a + b, j) == is_magic_at(a, j),
        forall|k: int| 0 <= k && k + 8 <= a.len() + 1 ==> (no_magic_before(a + b, k) == no_magic_before(a, k)),
{
    assert forall|j: int| 0 <= j && j + 8 <= a.len() implies #[trigger] is_magic_at(a + b, j) == is_magic_at(a, j) by {
        assert((a + b).subrange(j, j + 8) =~= a.subrange(j, j + 8));
    }
    assert forall|k: int| 0 <= k && k + 8 <= a.len() + 1 implies (no_magic_before(a + b, k) == no_magic_before(a, k)) by {
        if no_magic_before(a, k) {
            assert forall|j: int| 0 <= j < k implies !#[trigger] is_magic_at(a + b, j) by {
                assert((a + b).subrange(j, j + 8) =~= a.subrange(j, j + 8));
            }
        }
        if no_magic_before(a + b, k) {
            assert forall|j: int| 0 <= j < k implies !#[trigger] is_magic_at(a, j) by {
                assert((a + b).subrange(j, j + 8) =~= a.subrange(j, j + 8));
                assert(!is_magic_at(a + b, j));
            }
        }
    }
}



/// A header read from bytes that open with the magic word carries the magic
/// word, so every frame the reader emits does.
pub proof fn lemma_header_carries_magic(b: Seq<u8>)
    requires
        b.len() >= 8,
        b.subrange(0, 8) == magic_bytes(),
    ensures
        header_of(b).magic_word == MAGIC_WORD,
{
    assert(b[0] == b.subrange(0, 8)[0]);
    assert(b[1] == b.subrange(0, 8)[1]);
    assert(b[2] == b.subrange(0, 8)[2]);
    assert(b[3] == b.subrange(0, 8)[3]);
    assert(b[4] == b.subrange(0, 8)[4]);
    assert(b[5] == b.subrange(0, 8)[5]);
    assert(b[6] == b.subrange(0, 8)[6]);
    assert(b[7] == b.subrange(0, 8)[7]);
    assert(header_of(b).magic_word =~= MAGIC_WORD);
}

/// Where the reader stands.
#[derive(Debug)]
pub enum ReaderState {
    /// No frame is being read.
    Idle,
    /// A frame was asked for; the first eight bytes are awaited.
    Opening,
    /// The last eight bytes read, which are not the magic word.
    Seeking(Vec<u8>),
    /// The magic word has been read; the rest of the header is awaited.
    AwaitingHeader,
    /// The header has been read; the rest of the packet is awaited.
    AwaitingBody(FrameHeader),
}

pub enum ReaderStateView {
    Idle,
    Opening,
    Seeking(Seq<u8>),
    AwaitingHeader,
    AwaitingBody(FrameHeader),
}

impl View for ReaderState {
    type V = ReaderStateView;

    open spec fn view(&self) -> ReaderStateView {
        match self {
            ReaderState::Idle => ReaderStateView::Idle,
            ReaderState::Opening => ReaderStateView::Opening,
            ReaderState::Seeking(w) => ReaderStateView::Seeking(w@),
            ReaderState::AwaitingHeader => ReaderStateView::AwaitingHeader,
            ReaderState::AwaitingBody(h) => ReaderStateView::AwaitingBody(*h),
        }
    }
}

/// What the caller is to do next.
#[derive(Debug)]
pub enum ReadAction {
    /// Read exactly this many bytes and feed them back.
    Read(usize),
    /// A frame is complete.
    Emit(Frame),
    /// The bytes read do not form a frame.
    Fail(ParseError),
}

pub enum ReadActionView {
    Read(nat),
    Emit(FrameView),
    Fail(ParseErrorView),
}

impl View for ReadAction {
    type V = ReadActionView;

    open spec fn view(&self) -> ReadActionView {
        match self {
            ReadAction::Read(n) => ReadActionView::Read(*n as nat),
            ReadAction::Emit(f) => ReadActionView::Emit(f.deep_view()),
            ReadAction::Fail(e) => ReadActionView::Fail(e@),
        }
    }
}

/// How many bytes a state waits for.
pub open spec fn spec_requested(s: ReaderStateView) -> nat {
    match s {
        ReaderStateView::Idle => 0,
        ReaderStateView::Opening => 8,
        ReaderStateView::Seeking(_) => 1,
        ReaderStateView::AwaitingHeader => 32,
        ReaderStateView::AwaitingBody(h) => (h.packet_length - 40) as nat,
    }
}

/// The state after `w`, the last eight bytes read.
pub open spec fn spec_after_window(w: Seq<u8>) -> (ReaderStateView, ReadActionView) {
    if w == magic_bytes() {
        (ReaderStateView::AwaitingHeader, ReadActionView::Read(32))
    } else {
        (ReaderStateView::Seeking(w), ReadActionView::Read(1))
    }
}

/// One step of the reader: the state it goes to and what it asks for, on
/// the bytes it waited for.
pub open spec fn spec_step(s: ReaderStateView, input: Seq<u8>) -> (ReaderStateView, ReadActionView) {
    match s {
        ReaderStateView::Idle => (ReaderStateView::Idle, ReadActionView::Read(0)),
        ReaderStateView::Opening => spec_after_window(input),
        ReaderStateView::Seeking(w) => spec_after_window(w.drop_first() + input),
        ReaderStateView::AwaitingHeader => {
            let h = header_of(magic_bytes() + input);
            if h.packet_length < 40 {
                (ReaderStateView::Idle, ReadActionView::Fail(ParseErrorView::DataLengthMismatch))
            } else {
                let next = ReaderStateView::AwaitingBody(h);
                (next, ReadActionView::Read(spec_requested(next)))
            }
        },
        ReaderStateView::AwaitingBody(h) => match spec_tlvs(input, 0, h.num_tlvs as nat) {
            Ok(tlvs) => (ReaderStateView::Idle, ReadActionView::Emit(FrameView { header: h, tlvs })),
            Err(e) => (ReaderStateView::Idle, ReadActionView::Fail(e)),
        },
    }
}

/// When the reader reports a frame or a failure, it is about the frame that
/// starts at the first occurrence of the magic word in `s`.
pub open spec fn reports_first_frame(s: Seq<u8>, a: ReadActionView) -> bool {
    match a {
        ReadActionView::Emit(f) => exists|k: int|
            first_magic_at(s, k) && #[trigger] spec_frame_at(s, k) == Ok::<FrameView, ParseErrorView>(f),
        ReadActionView::Fail(e) => exists|k: int|
            first_magic_at(s, k) && #[trigger] spec_frame_at(s, k) == Err::<FrameView, ParseErrorView>(e),
        ReadActionView::Read(_) => true,
    }
}

/// The window after one more byte: the oldest byte dropped, `b` added.
fn shift_window(w: &Vec<u8>, b: u8) -> (r: Vec<u8>)
    requires
        w@.len() == 8,
    ensures
        r@ == w@.drop_first().push(b),
{
    let mut window: Vec<u8> = Vec::new();
    let mut i: usize = 1;
    while i < 8
        invariant
            1 <= i <= 8,
            w@.len() == 8,
            window@ =~= w@.subrange(1, i as int),
        decreases 8 - i,
    {
        window.push(w[i]);
        i += 1;
    }
    window.push(b);
    assert(window@ =~= w@.drop_first().push(b));
    window
}

/// Reads frames out of the bytes it is fed.
pub struct FrameReader {
    state: ReaderState,
    /// Everything fed since the current frame was asked for.
    consumed: Ghost<Seq<u8>>,
}

impl FrameReader {
    pub closed spec fn state(&self) -> ReaderStateView {
        self.state@
    }

    /// Everything fed since the current frame was asked for.
    pub closed spec fn consumed(&self) -> Seq<u8> {
        self.consumed@
    }

    /// How the state stands to the bytes consumed.
    pub open spec fn wf(&self) -> bool {
        let s = self.consumed();
        match self.state() {
            ReaderStateView::Idle => true,
            ReaderStateView::Opening => s.len() == 0,
            ReaderStateView::Seeking(w) => {
                &&& s.len() >= 8
                &&& w == s.subrange(s.len() - 8, s.len() as int)
                &&& no_magic_before(s, s.len() - 7)
            },
            ReaderStateView::AwaitingHeader => {
                &&& s.len() >= 8
                &&& first_magic_at(s, s.len() - 8)
            },
            ReaderStateView::AwaitingBody(h) => {
                &&& s.len() >= 40
                &&& first_magic_at(s, s.len() - 40)
                &&& h == header_of(s.subrange(s.len() - 40, s.len() as int))
                &&& h.packet_length >= 40
            },
        }
    }

    pub fn new() -> (r: FrameReader)
        ensures
            r.state() == ReaderStateView::Idle,
            r.consumed() == Seq::<u8>::empty(),
            r.wf(),
    {
        FrameReader { state: ReaderState::Idle, consumed: Ghost(Seq::empty()) }
    }

    /// How many bytes the reader waits for.
    pub fn requested(&self) -> (n: usize)
        requires
            self.wf(),
        ensures
            n as nat == spec_requested(self.state()),
    {
        match &self.state {
            ReaderState::Idle => 0,
            ReaderState::Opening => 8,
            ReaderState::Seeking(_) => 1,
            ReaderState::AwaitingHeader => 32,
            ReaderState::AwaitingBody(h) => {
                if h.packet_length < 40 {
                    0
                } else {
                    (h.packet_length - 40) as usize
                }
            },
        }
    }

    /// Whether a frame is being read, so that bytes may be fed.
    pub fn is_reading(&self) -> (r: bool)
        ensures
            r == (self.state() != ReaderStateView::Idle),
    {
        match &self.state {
            ReaderState::Idle => false,
            _ => true,
        }
    }

    /// Starts looking for a frame, dropping any frame half read.
    pub fn begin(&mut self) -> (a: ReadAction)
        ensures
            final(self).state() == ReaderStateView::Opening,
            final(self).consumed() == Seq::<u8>::empty(),
            final(self).wf(),
            a@ == ReadActionView::Read(8),
    {
        self.state = ReaderState::Opening;
        self.consumed = Ghost(Seq::empty());
        ReadAction::Read(8)
    }

    /// Feeds the bytes the reader waited for.
    ///
    /// When a frame is complete or fails, it is the one that starts at the
    /// first occurrence of the magic word in all that was fed since
    /// [`FrameReader::begin`].
    pub fn feed(&mut self, input: Vec<u8>) -> (a: ReadAction)
        requires
            old(self).wf(),
            old(self).state() != ReaderStateView::Idle,
            input@.len() == spec_requested(old(self).state()),
        ensures
            (final(self).state(), a@) == spec_step(old(self).state(), input@),
            final(self).consumed() == old(self).consumed() + input@,
            final(self).wf(),
            reports_first_frame(final(self).consumed(), a@),
    {
        let ghost old_s = self.consumed@;
        let ghost s = old_s + input@;
        let mut state = ReaderState::Idle;
        std::mem::swap(&mut state, &mut self.state);
        self.consumed = Ghost(s);
        proof {
            lemma_magic_prefix_stable(old_s, input@);
        }
        match state {
            ReaderState::Idle => ReadAction::Read(0),
            ReaderState::Opening => {
                proof {
                    assert(s =~= input@);
                    assert(s.subrange(0, 8) =~= s);
                }
                self.after_window(input)
            },
            ReaderState::Seeking(w) => {
                let window = shift_window(&w, input[0]);
                proof {
                    assert(window@ =~= w@.drop_first() + input@);
                    assert(window@ =~= s.subrange(s.len() - 8, s.len() as int));
                }
                self.after_window(window)
            },
            ReaderState::AwaitingHeader => self.on_header(input, Ghost(old_s)),
            ReaderState::AwaitingBody(h) => self.on_body(input, h, Ghost(old_s)),
        }
    }

    /// The rest of the header has come, after the magic word that ends
    /// `old_s`.
    fn on_header(&mut self, input: Vec<u8>, Ghost(old_s): Ghost<Seq<u8>>) -> (a: ReadAction)
        requires
            old(self).state() == ReaderStateView::Idle,
            old(self).consumed() == old_s + input@,
            input@.len() == 32,
            old_s.len() >= 8,
            first_magic_at(old_s, old_s.len() - 8),
            first_magic_at(old_s + input@, old_s.len() - 8),
        ensures
            (final(self).state(), a@) == spec_step(ReaderStateView::AwaitingHeader, input@),
            final(self).consumed() == old(self).consumed(),
            final(self).wf(),
            reports_first_frame(final(self).consumed(), a@),
    {
        let ghost s = old_s + input@;
        let ghost k = old_s.len() - 8;
        let mut header_bytes: Vec<u8> = Vec::new();
        header_bytes.push(2);
        header_bytes.push(1);
        header_bytes.push(4);
        header_bytes.push(3);
        header_bytes.push(6);
        header_bytes.push(5);
        header_bytes.push(8);
        header_bytes.push(7);
        let mut rest = input;
        header_bytes.append(&mut rest);
        proof {
            assert(old_s.subrange(k, k + 8) == magic_bytes());
            assert(header_bytes@ =~= magic_bytes() + input@);
            assert(header_bytes@ =~= s.subrange(k, k + 40));
        }
        match FrameHeader::from_bytes(header_bytes.as_slice()) {
            Ok(h) => {
                if h.packet_length < 40 {
                    proof {
                        assert(spec_frame_at(s, k) == Err::<FrameView, ParseErrorView>(
                            ParseErrorView::DataLengthMismatch,
                        ));
                    }
                    ReadAction::Fail(ParseError::DataLengthMismatch)
                } else {
                    self.state = ReaderState::AwaitingBody(h);
                    ReadAction::Read((h.packet_length - 40) as usize)
                }
            },
            Err(e) => ReadAction::Fail(e),
        }
    }

    /// The rest of the packet has come, after the header `h` that ends
    /// `old_s`.
    fn on_body(&mut self, input: Vec<u8>, h: FrameHeader, Ghost(old_s): Ghost<Seq<u8>>) -> (a: ReadAction)
        requires
            old(self).state() == ReaderStateView::Idle,
            old(self).consumed() == old_s + input@,
            old_s.len() >= 40,
            h.packet_length >= 40,
            input@.len() == h.packet_length - 40,
            h == header_of(old_s.subrange(old_s.len() - 40, old_s.len() as int)),
            first_magic_at(old_s + input@, old_s.len() - 40),
        ensures
            (final(self).state(), a@) == spec_step(ReaderStateView::AwaitingBody(h), input@),
            final(self).consumed() == old(self).consumed(),
            final(self).wf(),
            reports_first_frame(final(self).consumed(), a@),
    {
        let ghost s = old_s + input@;
        let ghost k = old_s.len() - 40;
        proof {
            assert(s.subrange(k, k + 40) =~= old_s.subrange(k, k + 40));
            assert(s.subrange(k + 40, k + h.packet_length) =~= input@);
        }
        let r = FrameBody::from_bytes(input.as_slice(), h.num_tlvs as usize);
        match r {
            Ok(body) => {
                let f = Frame { frame_header: h, frame_body: body };
                assert(spec_frame_at(s, k) == Ok::<FrameView, ParseErrorView>(f.deep_view()));
                ReadAction::Emit(f)
            },
            Err(e) => {
                assert(spec_frame_at(s, k) == Err::<FrameView, ParseErrorView>(e@));
                ReadAction::Fail(e)
            },
        }
    }

    /// Moves on from `window`, the last eight bytes consumed.
    fn after_window(&mut self, window: Vec<u8>) -> (a: ReadAction)
        requires
            old(self).state() == ReaderStateView::Idle,
            window@.len() == 8,
            old(self).consumed().len() >= 8,
            window@ == old(self).consumed().subrange(
                old(self).consumed().len() - 8,
                old(self).consumed().len() as int,
            ),
            no_magic_before(old(self).consumed(), old(self).consumed().len() - 8),
        ensures
            (final(self).state(), a@) == spec_after_window(window@),
            final(self).consumed() == old(self).consumed(),
            final(self).wf(),
    {
        let ghost s = self.consumed@;
        let magic = window[0] == 2 && window[1] == 1 && window[2] == 4 && window[3] == 3
            && window[4] == 6 && window[5] == 5 && window[6] == 8 && window[7] == 7;
        if magic {
            assert(window@ =~= magic_bytes());
            self.state = ReaderState::AwaitingHeader;
            ReadAction::Read(32)
        } else {
            proof {
                if window@ == magic_bytes() {
                    assert(window@[0] == 2 && window@[1] == 1 && window@[2] == 4 && window@[3] == 3);
                    assert(window@[4] == 6 && window@[5] == 5 && window@[6] == 8 && window@[7] == 7);
                }
                assert(!is_magic_at(s, s.len() - 8));
                assert forall|j: int| 0 <= j < s.len() - 7 implies !#[trigger] is_magic_at(s, j) by {
                    if j < s.len() - 8 {
                    }
                }
            }
            self.state = ReaderState::Seeking(window);
            ReadAction::Read(1)
        }
    }
}

} // verus!
