//! The control protocol between the manager and a host process.
//!
//! Every message is one frame: a little-endian `u32` length of the encoded
//! message, a little-endian `u32` payload length, the encoded message, then
//! the payload (the recipe bytes of `initialize`; empty otherwise).
//! Descriptors travel beside the frame they belong to: `start` carries the
//! guest's listening socket; `fork` carries the child's control end followed
//! by the child's listening socket.
//!
//! A host answers every request with exactly one reply, except that `stop`
//! ends the process without one; `exited` for the guest and for reaped
//! children can arrive at any time. The manager keeps at most one request
//! outstanding per channel, so replies pair with requests by order.

use crate::text;
use vstd::prelude::*;

verus! {

/// A request from the manager.
#[derive(Clone, Copy, Debug, PartialEq, Eq, Structural)]
pub enum Request {
    Prepare,
    Start,
    Initialize,
    Freeze,
    Fork,
    Stop,
}

/// Which run a completion refers to.
#[derive(Clone, Copy, Debug, PartialEq, Eq, Structural)]
pub enum Run {
    Prepare,
    Guest,
    Initializer,
    Child,
}

/// A reply, or an unsolicited event, from a host.
#[allow(inconsistent_fields)]
#[derive(Debug, PartialEq, Eq)]
pub enum Reply {
    /// The guest serves at this endpoint.
    Ready { endpoint: String },
    /// A run ended; the process id is that of a reaped clone.
    Exited { run: Run, status: i32, pid: Option<u32> },
    /// The guest is frozen, with this many coroutines.
    Frozen { coroutines: usize },
    /// A clone has been forked and serves at this endpoint.
    Forked { pid: u32, endpoint: String },
    /// The request was refused or failed.
    Error { text: String },
}

/// What a reply says.
#[allow(inconsistent_fields)]
pub enum Answer {
    Ready { endpoint: Seq<char> },
    Exited { run: Run, status: i32, pid: Option<u32> },
    Frozen { coroutines: usize },
    Forked { pid: u32, endpoint: Seq<char> },
    Error { text: Seq<char> },
}

impl View for Reply {
    type V = Answer;

    open spec fn view(&self) -> Answer {
        match self {
            Reply::Ready { endpoint } => Answer::Ready { endpoint: endpoint@ },
            Reply::Exited { run, status, pid } => Answer::Exited {
                run: *run,
                status: *status,
                pid: *pid,
            },
            Reply::Frozen { coroutines } => Answer::Frozen { coroutines: *coroutines },
            Reply::Forked { pid, endpoint } => Answer::Forked { pid: *pid, endpoint: endpoint@ },
            Reply::Error { text } => Answer::Error { text: text@ },
        }
    }
}

impl Clone for Reply {
    fn clone(&self) -> (r: Self)
        ensures
            r == *self,
    {
        match self {
            Reply::Ready { endpoint } => Reply::Ready { endpoint: endpoint.clone() },
            Reply::Exited { run, status, pid } => Reply::Exited {
                run: *run,
                status: *status,
                pid: *pid,
            },
            Reply::Frozen { coroutines } => Reply::Frozen { coroutines: *coroutines },
            Reply::Forked { pid, endpoint } => Reply::Forked {
                pid: *pid,
                endpoint: endpoint.clone(),
            },
            Reply::Error { text } => Reply::Error { text: text.clone() },
        }
    }
}

/// The name of a run.
pub open spec fn run_name(run: Run) -> Seq<char> {
    match run {
        Run::Prepare => "Prepare"@,
        Run::Guest => "Guest"@,
        Run::Initializer => "Initializer"@,
        Run::Child => "Child"@,
    }
}

impl Run {
    /// The name of the run.
    pub fn name(self) -> (r: &'static str)
        ensures
            r@ == run_name(self),
    {
        match self {
            Run::Prepare => "Prepare",
            Run::Guest => "Guest",
            Run::Initializer => "Initializer",
            Run::Child => "Child",
        }
    }
}

/// A reply spelled out for an error message.
pub open spec fn spelled_out(answer: Answer) -> Seq<char> {
    match answer {
        Answer::Ready { endpoint } => "Ready { endpoint: "@ + text::text_debug(endpoint) + " }"@,
        Answer::Exited { run, status, pid } => "Exited { run: "@ + run_name(run) + ", status: "@
            + text::signed_decimal(status as int) + ", pid: "@ + (match pid {
            Some(pid) => "Some("@ + text::decimal(pid as nat) + ")"@,
            None => "None"@,
        }) + " }"@,
        Answer::Frozen { coroutines } => "Frozen { coroutines: "@ + text::decimal(
            coroutines as nat,
        ) + " }"@,
        Answer::Forked { pid, endpoint } => "Forked { pid: "@ + text::decimal(pid as nat)
            + ", endpoint: "@ + text::text_debug(endpoint) + " }"@,
        Answer::Error { text } => "Error { text: "@ + text::text_debug(text) + " }"@,
    }
}

impl Reply {
    /// The reply spelled out for an error message.
    pub fn spelled(&self) -> (r: String)
        ensures
            r@ == spelled_out(self@),
    {
        match self {
            Reply::Ready { endpoint } => {
                let mut out = "Ready { endpoint: ".to_owned();
                out.append(text::debug_text(endpoint.as_str()).as_str());
                out.append(" }");
                out
            },
            Reply::Exited { run, status, pid } => {
                let mut out = "Exited { run: ".to_owned();
                out.append(run.name());
                out.append(", status: ");
                text::push_signed(&mut out, *status);
                out.append(", pid: ");
                let mut shown = "None".to_owned();
                if let Some(pid) = pid {
                    shown = "Some(".to_owned();
                    text::push_decimal(&mut shown, *pid as u64);
                    shown.append(")");
                }
                out.append(shown.as_str());
                out.append(" }");
                out
            },
            Reply::Frozen { coroutines } => {
                let mut out = "Frozen { coroutines: ".to_owned();
                text::push_decimal(&mut out, *coroutines as u64);
                out.append(" }");
                out
            },
            Reply::Forked { pid, endpoint } => {
                let mut out = "Forked { pid: ".to_owned();
                text::push_decimal(&mut out, *pid as u64);
                out.append(", endpoint: ");
                out.append(text::debug_text(endpoint.as_str()).as_str());
                out.append(" }");
                out
            },
            Reply::Error { text } => {
                let mut out = "Error { text: ".to_owned();
                out.append(text::debug_text(text.as_str()).as_str());
                out.append(" }");
                out
            },
        }
    }
}

/// The bytes of a frame's header.
pub const HEADER_LEN: usize = 8;

/// The longest encoded message: 64 KiB.
pub const MAX_JSON_LEN: usize = 65536;

/// The longest payload: 256 MiB.
pub const MAX_PAYLOAD_LEN: usize = 268435456;

/// The most descriptors beside one read of a header.
pub const MAX_FDS: usize = 4;

/// `n` as four bytes, the lowest first.
pub open spec fn le_bytes(n: int) -> Seq<u8> {
    seq![
        (n % 256) as u8,
        (n / 256 % 256) as u8,
        (n / 65536 % 256) as u8,
        (n / 16777216 % 256) as u8,
    ]
}

/// The number that four bytes from `at` on spell, the lowest first.
pub open spec fn le_number(s: Seq<u8>, at: int) -> int {
    s[at] + 256 * s[at + 1] + 65536 * s[at + 2] + 16777216 * s[at + 3]
}

proof fn lemma_le_round_trip(n: int)
    requires
        0 <= n < 4294967296,
    ensures
        le_number(le_bytes(n), 0) == n,
{
    assert(n / 256 / 256 == n / 65536);
    assert(n / 65536 / 256 == n / 16777216);
}

/// The bytes of a frame.
pub open spec fn frame_bytes(json: Seq<u8>, payload: Seq<u8>) -> Seq<u8> {
    le_bytes(json.len() as int) + le_bytes(payload.len() as int) + json + payload
}

/// Why a frame cannot be sent or read.
#[derive(Clone, Copy, Debug, PartialEq, Eq, Structural)]
pub enum FrameError {
    /// The encoded message's length does not fit its field.
    MessageTooLong,
    /// The payload's length does not fit its field.
    PayloadTooLong,
    /// The header announces more than a frame may hold.
    TooLarge { json_len: usize, payload_len: usize },
    /// The channel ended inside a frame.
    Closed,
}

/// Why a frame cannot be sent or read, in words.
pub open spec fn frame_error_text(error: FrameError) -> Seq<char> {
    match error {
        FrameError::MessageTooLong => "control message too long"@,
        FrameError::PayloadTooLong => "control payload too long"@,
        FrameError::TooLarge { json_len, payload_len } => "control frame too large: "@
            + text::decimal(json_len as nat) + " + "@ + text::decimal(payload_len as nat)
            + " bytes"@,
        FrameError::Closed => "control channel closed inside a frame"@,
    }
}

impl FrameError {
    /// Why, in words.
    pub fn text(self) -> (r: String)
        ensures
            r@ == frame_error_text(self),
    {
        match self {
            FrameError::MessageTooLong => "control message too long".to_owned(),
            FrameError::PayloadTooLong => "control payload too long".to_owned(),
            FrameError::TooLarge { json_len, payload_len } => {
                let mut out = "control frame too large: ".to_owned();
                text::push_decimal(&mut out, json_len as u64);
                out.append(" + ");
                text::push_decimal(&mut out, payload_len as u64);
                out.append(" bytes");
                out
            },
            FrameError::Closed => "control channel closed inside a frame".to_owned(),
        }
    }
}

/// Appends `n` as four bytes.
fn push_le(out: &mut Vec<u8>, n: u32)
    ensures
        final(out)@ == old(out)@ + le_bytes(n as int),
{
    out.push((n % 256) as u8);
    out.push((n / 256 % 256) as u8);
    out.push((n / 65536 % 256) as u8);
    out.push((n / 16777216 % 256) as u8);
    proof {
        assert(out@ =~= old(out)@ + le_bytes(n as int));
    }
}

/// The number in four bytes from `at` on.
fn read_le(s: &[u8], at: usize) -> (r: u32)
    requires
        at + 4 <= s@.len(),
    ensures
        r == le_number(s@, at as int),
{
    s[at] as u32 + 256 * (s[at + 1] as u32) + 65536 * (s[at + 2] as u32) + 16777216 * (s[at
        + 3] as u32)
}

/// The frame of an encoded message and its payload. Both lengths must fit
/// their fields.
pub fn encode_frame(json: &[u8], payload: &[u8]) -> (r: Result<Vec<u8>, FrameError>)
    ensures
        r is Ok <==> json@.len() <= u32::MAX && payload@.len() <= u32::MAX,
        r is Ok ==> (r->Ok_0)@ == frame_bytes(json@, payload@),
        r is Err ==> r->Err_0 == if json@.len() > u32::MAX {
            FrameError::MessageTooLong
        } else {
            FrameError::PayloadTooLong
        },
{
    if json.len() as u64 > u32::MAX as u64 {
        return Err(FrameError::MessageTooLong);
    }
    if payload.len() as u64 > u32::MAX as u64 {
        return Err(FrameError::PayloadTooLong);
    }
    let mut frame: Vec<u8> = Vec::new();
    push_le(&mut frame, json.len() as u32);
    push_le(&mut frame, payload.len() as u32);
    frame.extend_from_slice(json);
    frame.extend_from_slice(payload);
    proof {
        assert(frame@ =~= frame_bytes(json@, payload@));
    }
    Ok(frame)
}

/// A frame as it arrives: the bytes of it received so far, and the descriptors
/// that came beside them.
#[derive(Debug)]
pub struct FrameReader<D> {
    pub received: Vec<u8>,
    pub descriptors: Vec<D>,
}

/// The length of the message that a header announces.
pub open spec fn json_len(s: Seq<u8>) -> int {
    le_number(s, 0)
}

/// The length of the payload that a header announces.
pub open spec fn payload_len(s: Seq<u8>) -> int {
    le_number(s, 4)
}

/// Whether a header has arrived that announces too much.
pub open spec fn oversized(s: Seq<u8>) -> bool {
    s.len() >= HEADER_LEN && (json_len(s) > MAX_JSON_LEN || payload_len(s) > MAX_PAYLOAD_LEN)
}

/// How many bytes are missing: from the header first, then from the frame.
pub open spec fn missing(s: Seq<u8>) -> int {
    if s.len() < HEADER_LEN {
        HEADER_LEN - s.len()
    } else {
        HEADER_LEN + json_len(s) + payload_len(s) - s.len()
    }
}

/// The descriptors that are taken beside bytes, given what has been received
/// of the frame before: those that come while its header does.
pub open spec fn taken<D>(received: Seq<u8>, descriptors: Seq<D>) -> Seq<D> {
    if received.len() < HEADER_LEN {
        descriptors
    } else {
        Seq::empty()
    }
}

impl<D> FrameReader<D> {
    /// A reader that has received nothing.
    pub fn new() -> (r: Self)
        ensures
            r.received@ == Seq::<u8>::empty(),
            r.descriptors@ == Seq::<D>::empty(),
            r.valid(),
    {
        FrameReader { received: Vec::new(), descriptors: Vec::new() }
    }

    /// Nothing beyond the frame has been received, and nothing too large is
    /// being received.
    pub open spec fn valid(self) -> bool {
        missing(self.received@) >= 0 && !oversized(self.received@)
    }

    /// How many bytes to read next: no byte of a later frame.
    pub fn wanted(&self) -> (r: usize)
        requires
            self.valid(),
        ensures
            r == missing(self.received@),
    {
        if self.received.len() < HEADER_LEN {
            HEADER_LEN - self.received.len()
        } else {
            let json: usize = read_le(&self.received, 0) as usize;
            let payload: usize = read_le(&self.received, 4) as usize;
            HEADER_LEN + json + payload - self.received.len()
        }
    }

    /// Takes bytes that have been read, and the descriptors that came beside
    /// them: those of a frame come with its header, and any that come later are
    /// dropped. An error where the bytes complete a header that announces too
    /// much.
    pub fn feed(&mut self, bytes: &[u8], descriptors: Vec<D>) -> (r: Result<(), FrameError>)
        requires
            old(self).valid(),
            bytes@.len() <= missing(old(self).received@),
        ensures
            final(self).received@ == old(self).received@ + bytes@,
            final(self).descriptors@ == old(self).descriptors@ + taken(
                old(self).received@,
                descriptors@,
            ),
            r is Ok <==> !oversized(final(self).received@),
            r is Ok ==> final(self).valid(),
            r is Err ==> r->Err_0 == (FrameError::TooLarge {
                json_len: json_len(final(self).received@) as usize,
                payload_len: payload_len(final(self).received@) as usize,
            }),
    {
        let ghost before = self.received@;
        if self.received.len() < HEADER_LEN {
            let mut descriptors = descriptors;
            self.descriptors.append(&mut descriptors);
        }
        self.received.extend_from_slice(bytes);
        proof {
            assert(self.received@ =~= before + bytes@);
        }
        if self.received.len() >= HEADER_LEN {
            let json: usize = read_le(&self.received, 0) as usize;
            let payload: usize = read_le(&self.received, 4) as usize;
            if json > MAX_JSON_LEN || payload > MAX_PAYLOAD_LEN {
                return Err(FrameError::TooLarge { json_len: json, payload_len: payload });
            }
        }
        Ok(())
    }

    /// The channel has ended: an error unless nothing of a frame has arrived.
    pub fn closed(&self) -> (r: Result<(), FrameError>)
        ensures
            r is Ok <==> self.received@.len() == 0 && self.descriptors@.len() == 0,
            r is Err ==> r->Err_0 == FrameError::Closed,
    {
        if self.received.len() == 0 && self.descriptors.len() == 0 {
            Ok(())
        } else {
            Err(FrameError::Closed)
        }
    }

    /// The encoded message, the payload and the descriptors of a complete
    /// frame; the reader is then ready for the next one.
    pub fn take(&mut self) -> (r: (Vec<u8>, Vec<u8>, Vec<D>))
        requires
            old(self).valid(),
            missing(old(self).received@) == 0,
        ensures
            final(self).received@ == Seq::<u8>::empty(),
            final(self).descriptors@ == Seq::<D>::empty(),
            final(self).valid(),
            r.0@ == frame_message(old(self).received@),
            r.1@ == frame_payload(old(self).received@),
            r.2@ == old(self).descriptors@,
    {
        let json: usize = read_le(&self.received, 0) as usize;
        let all = self.received.as_slice();
        let message = crate::bytes::copied(&all[HEADER_LEN..HEADER_LEN + json]);
        let payload = crate::bytes::copied(&all[HEADER_LEN + json..all.len()]);
        self.received = Vec::new();
        let mut descriptors: Vec<D> = Vec::new();
        descriptors.append(&mut self.descriptors);
        (message, payload, descriptors)
    }
}

/// The encoded message in a complete frame.
pub open spec fn frame_message(s: Seq<u8>) -> Seq<u8> {
    s.subrange(HEADER_LEN as int, HEADER_LEN + json_len(s))
}

/// The payload in a complete frame.
pub open spec fn frame_payload(s: Seq<u8>) -> Seq<u8> {
    s.skip(HEADER_LEN + json_len(s))
}

/// A frame that may be sent is read back in whatever pieces it arrives:
/// after any part of it the reader accepts what it has, wants more, never
/// more than the rest of the frame, and the whole of it gives back the
/// message and the payload.
pub proof fn law_frame_reads_back(json: Seq<u8>, payload: Seq<u8>, k: int)
    requires
        json.len() <= MAX_JSON_LEN,
        payload.len() <= MAX_PAYLOAD_LEN,
        0 <= k <= frame_bytes(json, payload).len(),
    ensures
        ({
            let frame = frame_bytes(json, payload);
            let got = frame.take(k);
            &&& !oversized(got)
            &&& k < frame.len() ==> 0 < missing(got) <= frame.len() - k
            &&& k == frame.len() ==> missing(got) == 0
            &&& frame_message(frame) == json
            &&& frame_payload(frame) == payload
        }),
{
    let frame = frame_bytes(json, payload);
    let got = frame.take(k);
    lemma_le_round_trip(json.len() as int);
    lemma_le_round_trip(payload.len() as int);
    assert(le_number(frame, 0) == le_number(le_bytes(json.len() as int), 0)) by {
        assert forall|i: int| 0 <= i < 4 implies frame[i] == le_bytes(json.len() as int)[i] by {
        }
    }
    assert(le_number(frame, 4) == le_number(le_bytes(payload.len() as int), 0)) by {
        assert forall|i: int| 0 <= i < 4 implies frame[4 + i] == #[trigger] le_bytes(
            payload.len() as int,
        )[i] by {
        }
        assert(frame[4] == le_bytes(payload.len() as int)[0]);
        assert(frame[5] == le_bytes(payload.len() as int)[1]);
        assert(frame[6] == le_bytes(payload.len() as int)[2]);
        assert(frame[7] == le_bytes(payload.len() as int)[3]);
    }
    if k >= HEADER_LEN {
        assert(le_number(got, 0) == le_number(frame, 0));
        assert(le_number(got, 4) == le_number(frame, 4));
    }
    assert(frame_message(frame) =~= json);
    assert(frame_payload(frame) =~= payload);
}

/// A frame: its encoded message, its payload and the descriptors beside it.
pub struct FrameView<D> {
    pub json: Seq<u8>,
    pub payload: Seq<u8>,
    pub descriptors: Seq<D>,
}

/// What is read at once: some bytes, and the descriptors beside them.
pub struct Piece<D> {
    pub bytes: Seq<u8>,
    pub descriptors: Seq<D>,
}

/// What has been read of a stream: the frames, and what has been received of
/// the next one.
pub struct Reading<D> {
    pub frames: Seq<FrameView<D>>,
    pub received: Seq<u8>,
    pub descriptors: Seq<D>,
}

/// What has been read once one more piece has been: a frame is taken as soon as
/// nothing of it is missing.
pub open spec fn fed<D>(reading: Reading<D>, piece: Piece<D>) -> Reading<D> {
    let received = reading.received + piece.bytes;
    let descriptors = reading.descriptors + taken(reading.received, piece.descriptors);
    if missing(received) == 0 {
        let frame = FrameView {
            json: frame_message(received),
            payload: frame_payload(received),
            descriptors,
        };
        Reading {
            frames: reading.frames.push(frame),
            received: Seq::empty(),
            descriptors: Seq::empty(),
        }
    } else {
        Reading { frames: reading.frames, received, descriptors }
    }
}

/// What has been read once these pieces have been, one after the other.
pub open spec fn fed_all<D>(pieces: Seq<Piece<D>>) -> Reading<D>
    decreases pieces.len(),
{
    if pieces.len() == 0 {
        Reading { frames: Seq::empty(), received: Seq::empty(), descriptors: Seq::empty() }
    } else {
        fed(fed_all(pieces.drop_last()), pieces.last())
    }
}

/// Whether a piece is one that can be read next of these frames: some bytes,
/// no more than are wanted, and the descriptors of a frame beside the first
/// byte of it.
pub open spec fn can_be_read<D>(
    frames: Seq<FrameView<D>>,
    reading: Reading<D>,
    piece: Piece<D>,
) -> bool {
    &&& 0 < piece.bytes.len() <= missing(reading.received)
    &&& piece.descriptors == if reading.received.len() == 0 {
        frames[reading.frames.len() as int].descriptors
    } else {
        Seq::empty()
    }
}

/// Whether each piece is one that can be read when its turn comes.
pub open spec fn in_turn<D>(frames: Seq<FrameView<D>>, pieces: Seq<Piece<D>>) -> bool
    decreases pieces.len(),
{
    pieces.len() == 0 || {
        &&& in_turn(frames, pieces.drop_last())
        &&& can_be_read(frames, fed_all(pieces.drop_last()), pieces.last())
    }
}

/// The bytes of the pieces joined.
pub open spec fn joined<D>(pieces: Seq<Piece<D>>) -> Seq<u8>
    decreases pieces.len(),
{
    if pieces.len() == 0 {
        Seq::empty()
    } else {
        joined(pieces.drop_last()) + pieces.last().bytes
    }
}

/// The bytes of a frame.
pub open spec fn bytes_of<D>(frame: FrameView<D>) -> Seq<u8> {
    frame_bytes(frame.json, frame.payload)
}

/// The bytes of frames sent one after the other.
pub open spec fn stream_bytes<D>(frames: Seq<FrameView<D>>) -> Seq<u8>
    decreases frames.len(),
{
    if frames.len() == 0 {
        Seq::empty()
    } else {
        stream_bytes(frames.drop_last()) + bytes_of(frames.last())
    }
}

/// Whether the frames may be sent.
pub open spec fn sendable<D>(frames: Seq<FrameView<D>>) -> bool {
    forall|k: int|
        0 <= k < frames.len() ==> (#[trigger] frames[k]).json.len() <= MAX_JSON_LEN
            && frames[k].payload.len() <= MAX_PAYLOAD_LEN
}

/// Where the `n`-th frame stands in a stream.
proof fn lemma_frame_in_stream<D>(frames: Seq<FrameView<D>>, n: int)
    requires
        0 <= n < frames.len(),
    ensures
        ({
            let stream = stream_bytes(frames);
            let frame = bytes_of(frames[n]);
            let before = stream_bytes(frames.take(n));
            &&& before.len() + frame.len() <= stream.len()
            &&& forall|i: int|
                0 <= i < frame.len() ==> #[trigger] stream[before.len() + i] == frame[i]
        }),
    decreases frames.len(),
{
    let rest = frames.drop_last();
    if n == frames.len() - 1 {
        assert(frames.take(n) =~= rest);
    } else {
        lemma_frame_in_stream(rest, n);
        assert(frames.take(n) =~= rest.take(n));
    }
}

/// A piece of a frame that is being read: the rest of it is still wanted, or
/// the frame is taken.
proof fn lemma_piece<D>(reading: Reading<D>, piece: Piece<D>, frame: FrameView<D>)
    requires
        frame.json.len() <= MAX_JSON_LEN,
        frame.payload.len() <= MAX_PAYLOAD_LEN,
        reading.received.len() + piece.bytes.len() <= bytes_of(frame).len(),
        reading.received + piece.bytes == bytes_of(frame).take(
            (reading.received.len() + piece.bytes.len()) as int,
        ),
        reading.descriptors + taken(reading.received, piece.descriptors) == frame.descriptors,
    ensures
        ({
            let after = fed(reading, piece);
            let got = (reading.received.len() + piece.bytes.len()) as int;
            &&& !oversized(after.received)
            &&& if got == bytes_of(frame).len() {
                &&& after.frames == reading.frames.push(frame)
                &&& after.received == Seq::<u8>::empty()
                &&& after.descriptors == Seq::<D>::empty()
            } else {
                &&& after.frames == reading.frames
                &&& after.received == bytes_of(frame).take(got)
                &&& after.descriptors == frame.descriptors
            }
        }),
{
    let bytes = bytes_of(frame);
    let got = (reading.received.len() + piece.bytes.len()) as int;
    law_frame_reads_back(frame.json, frame.payload, got);
    if got == bytes.len() {
        assert(bytes.take(got) =~= bytes);
    }
}

/// Where reading a beginning of a stream has got: `n` frames have been read,
/// and the beginning of the next.
spec fn has_read<D>(
    frames: Seq<FrameView<D>>,
    reading: Reading<D>,
    consumed: int,
    n: int,
) -> bool {
    let bytes = bytes_of(frames[n]);
    &&& 0 <= n <= frames.len()
    &&& reading.frames == frames.take(n)
    &&& stream_bytes(frames.take(n)).len() + reading.received.len() == consumed
    &&& n < frames.len() ==> reading.received.len() < bytes.len() && reading.received
        == bytes.take(reading.received.len() as int)
    &&& n == frames.len() ==> reading.received.len() == 0
    &&& reading.descriptors == if reading.received.len() == 0 {
        Seq::<D>::empty()
    } else {
        frames[n].descriptors
    }
    &&& !oversized(reading.received)
}

/// One more piece of a stream.
proof fn lemma_next_piece<D>(
    frames: Seq<FrameView<D>>,
    reading: Reading<D>,
    consumed: int,
    n: int,
    piece: Piece<D>,
) -> (now: int)
    requires
        sendable(frames),
        has_read(frames, reading, consumed, n),
        can_be_read(frames, reading, piece),
        consumed + piece.bytes.len() <= stream_bytes(frames).len(),
        forall|i: int|
            0 <= i < piece.bytes.len() ==> #[trigger] piece.bytes[i] == stream_bytes(
                frames,
            )[consumed + i],
    ensures
        has_read(frames, fed(reading, piece), consumed + piece.bytes.len(), now),
{
    let stream = stream_bytes(frames);
    if n == frames.len() {
        assert(frames.take(n) =~= frames);
        assert(false);
    }
    let frame = frames[n];
    let bytes = bytes_of(frame);
    let start = stream_bytes(frames.take(n)).len() as int;
    let had = reading.received.len() as int;
    lemma_frame_in_stream(frames, n);
    law_frame_reads_back(frame.json, frame.payload, had);
    let received = reading.received + piece.bytes;
    let got = received.len() as int;
    assert(received =~= bytes.take(got)) by {
        assert forall|i: int| 0 <= i < got implies received[i] == bytes[i] by {
            if i >= had {
                assert(piece.bytes[i - had] == stream[consumed + (i - had)]);
                assert(stream[start + i] == bytes[i]);
            }
        }
    }
    assert(reading.descriptors + taken(reading.received, piece.descriptors)
        =~= frame.descriptors);
    lemma_piece(reading, piece, frame);
    if got == bytes.len() {
        assert(frames.take(n + 1).drop_last() =~= frames.take(n));
        assert(frames.take(n).push(frame) =~= frames.take(n + 1));
        if n + 1 < frames.len() {
            assert(bytes_of(frames[n + 1]).take(0) =~= Seq::<u8>::empty());
        }
        n + 1
    } else {
        n
    }
}

/// How far reading a beginning of a stream has got.
proof fn lemma_reading<D>(frames: Seq<FrameView<D>>, pieces: Seq<Piece<D>>) -> (n: int)
    requires
        sendable(frames),
        in_turn(frames, pieces),
        joined(pieces).len() <= stream_bytes(frames).len(),
        forall|i: int|
            0 <= i < joined(pieces).len() ==> #[trigger] joined(pieces)[i] == stream_bytes(
                frames,
            )[i],
    ensures
        has_read(frames, fed_all(pieces), joined(pieces).len() as int, n),
    decreases pieces.len(),
{
    if pieces.len() == 0 {
        assert(fed_all(pieces).frames =~= frames.take(0));
        if frames.len() > 0 {
            assert(bytes_of(frames[0]).take(0) =~= Seq::<u8>::empty());
        }
        0
    } else {
        let before = pieces.drop_last();
        let piece = pieces.last();
        let consumed = joined(before).len() as int;
        assert forall|i: int| 0 <= i < consumed implies #[trigger] joined(before)[i]
            == stream_bytes(frames)[i] by {
            assert(joined(pieces)[i] == joined(before)[i]);
        }
        let n = lemma_reading(frames, before);
        assert forall|i: int| 0 <= i < piece.bytes.len() implies #[trigger] piece.bytes[i]
            == stream_bytes(frames)[consumed + i] by {
            assert(joined(pieces)[consumed + i] == piece.bytes[i]);
        }
        lemma_next_piece(frames, fed_all(before), consumed, n, piece)
    }
}

/// Frames sent one after the other are read back in their order, each with its
/// own message, payload and descriptors, in whatever pieces they arrive: a
/// reader takes no byte of the next frame, and so no descriptor of it. After
/// the last of them nothing is left over, so the end of the channel is no
/// error.
pub proof fn law_frames_read_back_in_order<D>(
    frames: Seq<FrameView<D>>,
    pieces: Seq<Piece<D>>,
)
    requires
        sendable(frames),
        in_turn(frames, pieces),
        joined(pieces) == stream_bytes(frames),
    ensures
        fed_all(pieces).frames == frames,
        fed_all(pieces).received == Seq::<u8>::empty(),
        fed_all(pieces).descriptors == Seq::<D>::empty(),
{
    let n = lemma_reading(frames, pieces);
    if n < frames.len() {
        lemma_frame_in_stream(frames, n);
    }
    assert(frames.take(n) =~= frames);
    assert(fed_all(pieces).received =~= Seq::<u8>::empty());
}

/// A frame starts with the lengths of its message and of its payload, each in
/// four bytes with the lowest first; the message and the payload follow whole.
pub proof fn law_a_frame_starts_with_its_lengths(json: Seq<u8>, payload: Seq<u8>)
    requires
        json.len() <= u32::MAX,
        payload.len() <= u32::MAX,
    ensures
        ({
            let frame = frame_bytes(json, payload);
            &&& frame.len() == 8 + json.len() + payload.len()
            &&& frame[0] + 256 * frame[1] + 65536 * frame[2] + 16777216 * frame[3] == json.len()
            &&& frame[4] + 256 * frame[5] + 65536 * frame[6] + 16777216 * frame[7]
                == payload.len()
            &&& frame.skip(8) == json + payload
            &&& json_len(frame) == json.len()
            &&& payload_len(frame) == payload.len()
            &&& frame_message(frame) == json
            &&& frame_payload(frame) == payload
        }),
{
    let frame = frame_bytes(json, payload);
    lemma_le_round_trip(json.len() as int);
    lemma_le_round_trip(payload.len() as int);
    let (a, b) = (le_bytes(json.len() as int), le_bytes(payload.len() as int));
    assert(frame[0] == a[0] && frame[1] == a[1] && frame[2] == a[2] && frame[3] == a[3]);
    assert(frame[4] == b[0] && frame[5] == b[1] && frame[6] == b[2] && frame[7] == b[3]);
    assert(frame.skip(8) =~= json + payload);
    assert(frame_message(frame) =~= json);
    assert(frame_payload(frame) =~= payload);
}

/// A frame is refused as soon as its header is there where its message is
/// longer than 64 KiB or its payload longer than 256 MiB, and not otherwise.
pub proof fn law_a_frame_is_bounded_by_its_header(json: Seq<u8>, payload: Seq<u8>, k: int)
    requires
        json.len() <= u32::MAX,
        payload.len() <= u32::MAX,
        0 <= k <= frame_bytes(json, payload).len(),
    ensures
        oversized(frame_bytes(json, payload).take(k)) <==> k >= 8 && (json.len() > 65536
            || payload.len() > 268435456),
        k < 8 ==> missing(frame_bytes(json, payload).take(k)) == 8 - k,
        k >= 8 ==> missing(frame_bytes(json, payload).take(k)) == frame_bytes(json, payload).len()
            - k,
{
    let frame = frame_bytes(json, payload);
    law_a_frame_starts_with_its_lengths(json, payload);
    let got = frame.take(k);
    if k >= 8 {
        assert(got[0] == frame[0] && got[1] == frame[1] && got[2] == frame[2] && got[3]
            == frame[3]);
        assert(got[4] == frame[4] && got[5] == frame[5] && got[6] == frame[6] && got[7]
            == frame[7]);
    }
}

/// Descriptors go with a frame's header: those that come before it is whole
/// are kept in their order, later ones are not the frame's.
pub proof fn law_descriptors_go_with_the_header<D>(
    reading: Reading<D>,
    piece: Piece<D>,
)
    ensures
        ({
            let after = fed(reading, piece);
            let whole = reading.received + piece.bytes;
            let all = if reading.received.len() < 8 {
                reading.descriptors + piece.descriptors
            } else {
                reading.descriptors
            };
            &&& missing(whole) == 0 ==> after.frames.len() == reading.frames.len() + 1
                && after.frames.last().descriptors == all && after.received.len() == 0
                && after.descriptors.len() == 0
            &&& missing(whole) != 0 ==> after.frames == reading.frames && after.received == whole
                && after.descriptors == all
            &&& reading.frames.is_prefix_of(after.frames)
        }),
{
    let after = fed(reading, piece);
    if reading.received.len() >= 8 {
        assert(reading.descriptors + taken(reading.received, piece.descriptors)
            =~= reading.descriptors);
    }
    assert(reading.frames =~= after.frames.subrange(0, reading.frames.len() as int));
}

/// A reply is seen with all that it says.
pub proof fn law_a_reply_is_what_it_says(reply: Reply, other: Reply)
    ensures
        reply matches Reply::Ready { endpoint } ==> reply@ == (Answer::Ready {
            endpoint: endpoint@,
        }),
        reply matches Reply::Exited { run, status, pid } ==> reply@ == (Answer::Exited {
            run,
            status,
            pid,
        }),
        reply matches Reply::Frozen { coroutines } ==> reply@ == (Answer::Frozen { coroutines }),
        reply matches Reply::Forked { pid, endpoint } ==> reply@ == (Answer::Forked {
            pid,
            endpoint: endpoint@,
        }),
        reply matches Reply::Error { text } ==> reply@ == (Answer::Error { text: text@ }),
        reply@ is Exited && reply@ == other@ ==> reply == other,
{
}

/// A reply that is spelled out starts with its kind and shows every field.
pub proof fn law_a_reply_is_spelled_out_whole(run: Run, status: i32, pid: u32, text: Seq<char>)
    ensures
        spelled_out(Answer::Exited { run, status, pid: None }) == "Exited { run: "@ + run_name(run)
            + ", status: "@ + text::signed_decimal(status as int) + ", pid: None }"@,
        spelled_out(Answer::Exited { run, status, pid: Some(pid) }) == "Exited { run: "@ + run_name(
            run,
        ) + ", status: "@ + text::signed_decimal(status as int) + ", pid: Some("@ + text::decimal(
            pid as nat,
        ) + ") }"@,
        spelled_out(Answer::Forked { pid, endpoint: text }) == "Forked { pid: "@ + text::decimal(
            pid as nat,
        ) + ", endpoint: "@ + text::text_debug(text) + " }"@,
        spelled_out(Answer::Error { text }) == "Error { text: "@ + text::text_debug(text) + " }"@,
        forall|a: Run, b: Run| #[trigger] run_name(a) == #[trigger] run_name(b) ==> a == b,
{
    reveal_strlit(", pid: ");
    reveal_strlit(", pid: None }");
    reveal_strlit(", pid: Some(");
    reveal_strlit("None");
    reveal_strlit("Some(");
    reveal_strlit(")");
    reveal_strlit(" }");
    reveal_strlit(") }");
    reveal_strlit("Prepare");
    reveal_strlit("Guest");
    reveal_strlit("Initializer");
    reveal_strlit("Child");
    assert("Prepare"@.len() == 7 && "Guest"@.len() == 5 && "Initializer"@.len() == 11);
    assert("Child"@[0] == 'C' && "Guest"@[0] == 'G');
    assert(spelled_out(Answer::Exited { run, status, pid: None }) =~= "Exited { run: "@ + run_name(
        run,
    ) + ", status: "@ + text::signed_decimal(status as int) + ", pid: None }"@);
    assert(spelled_out(Answer::Exited { run, status, pid: Some(pid) }) =~= "Exited { run: "@
        + run_name(run) + ", status: "@ + text::signed_decimal(status as int) + ", pid: Some("@
        + text::decimal(pid as nat) + ") }"@);
}

/// A frame that is refused says which part was too long, and how long it was
/// announced to be.
pub proof fn law_a_refused_frame_says_why(json_len: usize, payload_len: usize)
    ensures
        frame_error_text(FrameError::MessageTooLong) == "control message too long"@,
        frame_error_text(FrameError::PayloadTooLong) == "control payload too long"@,
        frame_error_text(FrameError::Closed) == "control channel closed inside a frame"@,
        frame_error_text(FrameError::TooLarge { json_len, payload_len })
            == "control frame too large: "@ + text::decimal(json_len as nat) + " + "@
            + text::decimal(payload_len as nat) + " bytes"@,
{
}

} // verus!
