//! The framing of the byte streams exchanged with the parent process.
//!
//! A frame is a four-byte little-endian length followed by exactly that many
//! payload bytes.  Nothing else is on the wire: no checksum and no tag.
//!
//! The module states the format as functions on sequences of bytes
//! ([`frame_of`], [`split_frame`]), proves that splitting undoes framing, and
//! offers the two executable halves: [`encode_frame`] for the writing side and
//! [`FrameReader`], which is fed whatever chunks the input delivers and hands
//! out whole payloads.
use vstd::prelude::*;
use vstd::slice::slice_subrange;
use vstd::slice::slice_to_vec;

verus! {

/// Number of bytes in the length prefix of a frame.
pub const HEADER_LEN: usize = 4;

/// The payload length that a reader or writer accepts unless told otherwise:
/// eight mebibytes.
pub const DEFAULT_MAX_FRAME_LEN: usize = 8_388_608;

/// The four bytes of `n`, least significant first.
pub open spec fn le_bytes(n: u32) -> Seq<u8> {
    seq![
        (n % 256) as u8,
        (n / 256 % 256) as u8,
        (n / 65536 % 256) as u8,
        (n / 16777216) as u8,
    ]
}

/// The number whose little-endian bytes are the first four bytes of `bytes`.
pub open spec fn le_value(bytes: Seq<u8>) -> int
    recommends
        bytes.len() >= 4,
{
    bytes[0] + 256 * bytes[1] + 65536 * bytes[2] + 16777216 * bytes[3]
}

/// The frame that carries `payload`.
pub open spec fn frame_of(payload: Seq<u8>) -> Seq<u8>
    recommends
        payload.len() <= u32::MAX,
{
    le_bytes(payload.len() as u32) + payload
}

/// What the front of a byte stream holds.
pub enum Split {
    /// The stream ends before the frame at its front is complete.
    Incomplete,
    /// The length prefix at the front announces more than the limit allows.
    Oversized,
    /// A whole frame, and what follows it.
    Frame { payload: Seq<u8>, rest: Seq<u8> },
}

/// Takes one frame off the front of `stream`, accepting payloads of at most
/// `max_len` bytes.
///
/// The limit is tested as soon as the four bytes of the prefix are there,
/// before the payload has arrived.
pub open spec fn split_frame(stream: Seq<u8>, max_len: nat) -> Split {
    if stream.len() < 4 {
        Split::Incomplete
    } else if le_value(stream) > max_len {
        Split::Oversized
    } else if stream.len() < 4 + le_value(stream) {
        Split::Incomplete
    } else {
        Split::Frame {
            payload: stream.subrange(4, 4 + le_value(stream)),
            rest: stream.skip(4 + le_value(stream)),
        }
    }
}

/// The concatenation of the frames of `payloads`, in order.
pub open spec fn frames_of(payloads: Seq<Seq<u8>>) -> Seq<u8>
    decreases payloads.len(),
{
    if payloads.len() == 0 {
        Seq::empty()
    } else {
        frame_of(payloads[0]) + frames_of(payloads.skip(1))
    }
}

/// A little-endian prefix reads back as the number it was written from.
pub proof fn lemma_le_value_of_le_bytes(n: u32, rest: Seq<u8>)
    ensures
        le_bytes(n).len() == 4,
        le_value(le_bytes(n) + rest) == n,
{
    let b = le_bytes(n) + rest;
    assert(b[0] == le_bytes(n)[0]);
    assert(b[1] == le_bytes(n)[1]);
    assert(b[2] == le_bytes(n)[2]);
    assert(b[3] == le_bytes(n)[3]);
}

/// Four bytes are the little-endian form of the number they read as.
pub proof fn lemma_le_bytes_of_le_value(bytes: Seq<u8>)
    requires
        bytes.len() >= 4,
    ensures
        le_value(bytes) <= u32::MAX,
        le_bytes(le_value(bytes) as u32) == bytes.subrange(0, 4),
{
    let v = le_value(bytes);
    let low16 = bytes[0] + 256 * bytes[1];
    let low24 = low16 + 65536 * bytes[2];
    assert(v == bytes[0] + 256 * (bytes[1] + 256 * bytes[2] + 65536 * bytes[3]));
    assert(v % 256 == bytes[0]);
    assert(v == low16 + 65536 * (bytes[2] + 256 * bytes[3]));
    assert(v / 65536 == bytes[2] + 256 * bytes[3]);
    assert(v == low24 + 16777216 * bytes[3]);
    assert(v / 16777216 == bytes[3]);
    assert(v / 256 % 256 == bytes[1]);
    assert(v / 65536 % 256 == bytes[2]);
    assert(le_bytes(v as u32) =~= bytes.subrange(0, 4));
}

/// Splitting undoes framing: a frame followed by anything splits into its
/// payload and what followed.
pub proof fn lemma_split_of_frame(payload: Seq<u8>, rest: Seq<u8>, max_len: nat)
    requires
        payload.len() <= u32::MAX,
        payload.len() <= max_len,
    ensures
        split_frame(frame_of(payload) + rest, max_len) == (Split::Frame { payload, rest }),
{
    let n = payload.len() as u32;
    let stream = frame_of(payload) + rest;
    lemma_le_value_of_le_bytes(n, payload + rest);
    assert(stream =~= le_bytes(n) + (payload + rest));
    assert(stream.subrange(4, 4 + n) =~= payload);
    assert(stream.skip(4 + n) =~= rest);
}

/// Framing undoes splitting: a stream from which a frame was split is that
/// payload's frame followed by the rest.
pub proof fn lemma_frame_of_split(stream: Seq<u8>, max_len: nat)
    requires
        split_frame(stream, max_len) is Frame,
    ensures
        split_frame(stream, max_len)->payload.len() <= max_len,
        split_frame(stream, max_len)->payload.len() <= u32::MAX,
        stream == frame_of(split_frame(stream, max_len)->payload) + split_frame(
            stream,
            max_len,
        )->rest,
{
    lemma_le_bytes_of_le_value(stream);
    let payload = split_frame(stream, max_len)->payload;
    let rest = split_frame(stream, max_len)->rest;
    assert(stream =~= stream.subrange(0, 4) + payload + rest);
}

/// A frame cut short anywhere is incomplete: no proper prefix of a frame is
/// taken for a frame.
pub proof fn lemma_split_of_cut_frame(payload: Seq<u8>, cut: int, max_len: nat)
    requires
        payload.len() <= u32::MAX,
        payload.len() <= max_len,
        0 <= cut < 4 + payload.len(),
    ensures
        split_frame(frame_of(payload).subrange(0, cut), max_len) == Split::Incomplete,
{
    let n = payload.len() as u32;
    let part = frame_of(payload).subrange(0, cut);
    if cut >= 4 {
        lemma_le_value_of_le_bytes(n, payload);
        assert(part[0] == frame_of(payload)[0]);
        assert(part[1] == frame_of(payload)[1]);
        assert(part[2] == frame_of(payload)[2]);
        assert(part[3] == frame_of(payload)[3]);
    }
}

/// A stream of frames is read in order: the first split of the frames of
/// some payloads, followed by anything, is the first payload, and what is
/// left is the frames of the other payloads, followed by the same.
pub proof fn lemma_split_of_frames(payloads: Seq<Seq<u8>>, rest: Seq<u8>, max_len: nat)
    requires
        payloads.len() > 0,
        payloads[0].len() <= u32::MAX,
        payloads[0].len() <= max_len,
    ensures
        split_frame(frames_of(payloads) + rest, max_len) == (Split::Frame {
            payload: payloads[0],
            rest: frames_of(payloads.skip(1)) + rest,
        }),
{
    let after = frames_of(payloads.skip(1)) + rest;
    assert(frames_of(payloads) + rest =~= frame_of(payloads[0]) + after);
    lemma_split_of_frame(payloads[0], after, max_len);
}

/// Two payloads with the same frame are the same payload.
pub proof fn lemma_frame_of_injective(a: Seq<u8>, b: Seq<u8>)
    requires
        a.len() <= u32::MAX,
        b.len() <= u32::MAX,
        frame_of(a) == frame_of(b),
    ensures
        a == b,
{
    let max_len = u32::MAX as nat;
    lemma_split_of_frame(a, Seq::empty(), max_len);
    lemma_split_of_frame(b, Seq::empty(), max_len);
}

/// Why a frame was refused.
#[derive(Debug, Clone, Copy, PartialEq, Eq, Structural)]
pub enum FrameError {
    /// The payload is longer than the limit, or than a length prefix can say.
    TooLong,
}

/// Builds the frame that carries `payload`.
///
/// A payload longer than `max_len`, or longer than four bytes can count, is
/// refused.
pub fn encode_frame(payload: &[u8], max_len: usize) -> (r: Result<Vec<u8>, FrameError>)
    ensures
        r is Ok <==> payload@.len() <= max_len && payload@.len() <= u32::MAX,
        r matches Ok(frame) ==> frame@ == frame_of(payload@),
        r matches Err(e) ==> e == FrameError::TooLong,
{
    let len = payload.len();
    if len > max_len || len > 0xffff_ffff {
        return Err(FrameError::TooLong);
    }
    let n: u32 = len as u32;
    let mut frame: Vec<u8> = Vec::with_capacity(HEADER_LEN);
    frame.push((n % 256) as u8);
    frame.push((n / 256 % 256) as u8);
    frame.push((n / 65536 % 256) as u8);
    frame.push((n / 16777216) as u8);
    assert(frame@ =~= le_bytes(n));
    frame.extend_from_slice(payload);
    assert(frame@ =~= frame_of(payload@));
    Ok(frame)
}

/// The reading side of the framed channel.
///
/// The reader keeps the bytes that have arrived and were not yet handed out
/// as a frame.  Input is pushed in as it comes, in chunks of any size; frames
/// are taken out one by one.
pub struct FrameReader {
    buf: Vec<u8>,
    start: usize,
    max_len: usize,
}

impl FrameReader {
    /// The reader's own consistency: every reader that [`FrameReader::new`]
    /// made and that only its methods have touched is well formed.
    pub closed spec fn wf(&self) -> bool {
        self.start <= self.buf@.len()
    }

    /// The bytes that arrived and belong to no frame handed out so far.
    pub closed spec fn pending(&self) -> Seq<u8> {
        self.buf@.skip(self.start as int)
    }

    /// The longest payload that this reader accepts.
    pub closed spec fn limit(&self) -> nat {
        self.max_len as nat
    }

    /// A reader with nothing pending that accepts payloads of at most
    /// `max_len` bytes.
    pub fn new(max_len: usize) -> (reader: Self)
        ensures
            reader.wf(),
            reader.pending() == Seq::<u8>::empty(),
            reader.limit() == max_len,
    {
        let reader = FrameReader { buf: Vec::new(), start: 0, max_len };
        assert(reader.pending() =~= Seq::<u8>::empty());
        reader
    }

    /// The number of pending bytes.
    pub fn pending_len(&self) -> (n: usize)
        requires
            self.wf(),
        ensures
            n == self.pending().len(),
    {
        self.buf.len() - self.start
    }

    /// Appends a chunk of input to the pending bytes.
    pub fn push(&mut self, bytes: &[u8])
        requires
            old(self).wf(),
        ensures
            final(self).wf(),
            final(self).pending() == old(self).pending() + bytes@,
            final(self).limit() == old(self).limit(),
    {
        if self.start > 0 {
            let kept = slice_to_vec(slice_subrange(self.buf.as_slice(), self.start, self.buf.len()));
            self.start = 0;
            self.buf = kept;
        }
        assert(self.pending() =~= old(self).pending());
        self.buf.extend_from_slice(bytes);
        assert(self.pending() =~= old(self).pending() + bytes@);
    }

    /// Takes the next frame's payload off the pending bytes, if a whole frame
    /// is there.
    ///
    /// Nothing changes while the frame at the front is incomplete, and
    /// nothing changes when its prefix announces more than the limit: that
    /// stream cannot be read any further.
    pub fn next_frame(&mut self) -> (r: Result<Option<Vec<u8>>, FrameError>)
        requires
            old(self).wf(),
        ensures
            final(self).wf(),
            final(self).limit() == old(self).limit(),
            match split_frame(old(self).pending(), old(self).limit()) {
                Split::Incomplete => r == Ok::<Option<Vec<u8>>, FrameError>(None)
                    && final(self).pending() == old(self).pending(),
                Split::Oversized => r == Err::<Option<Vec<u8>>, FrameError>(FrameError::TooLong)
                    && final(self).pending() == old(self).pending(),
                Split::Frame { payload, rest } => {
                    &&& r matches Ok(Some(taken))
                    &&& taken@ == payload
                    &&& final(self).pending() == rest
                },
            },
    {
        let ghost stream = self.pending();
        let available = self.buf.len() - self.start;
        if available < HEADER_LEN {
            return Ok(None);
        }
        let at = self.start;
        let b0 = self.buf[at] as u64;
        let b1 = self.buf[at + 1] as u64;
        let b2 = self.buf[at + 2] as u64;
        let b3 = self.buf[at + 3] as u64;
        let announced: u64 = b0 + 256 * b1 + 65536 * b2 + 16777216 * b3;
        assert(announced == le_value(stream));
        if announced > self.max_len as u64 {
            return Err(FrameError::TooLong);
        }
        if ((available - HEADER_LEN) as u64) < announced {
            return Ok(None);
        }
        let body = at + HEADER_LEN;
        let end = body + announced as usize;
        let taken = slice_to_vec(slice_subrange(self.buf.as_slice(), body, end));
        self.start = end;
        assert(taken@ =~= stream.subrange(4, 4 + le_value(stream)));
        assert(self.pending() =~= stream.skip(4 + le_value(stream)));
        Ok(Some(taken))
    }
}

} // verus!
