//! Peer wire protocol: the handshake record, block requests and responses,
//! and the length-prefixed message framer.

use bytes::{Buf, BytesMut};
use vstd::prelude::*;
use vstd::slice::{slice_subrange, slice_to_vec};

verus! {

/// Largest frame length (tag byte plus payload) that the framer accepts or emits.
pub const MAX_FRAME_LEN: usize = 32768;

/// Big-endian value of the four bytes of `s` starting at `i`.
pub open spec fn be_u32(s: Seq<u8>, i: int) -> u32 {
    ((s[i] as u32) << 24u32) | ((s[i + 1] as u32) << 16u32) | ((s[i + 2] as u32) << 8u32) | (s[i + 3] as u32)
}

/// Big-endian encoding of `x` in four bytes.
pub open spec fn be_bytes(x: u32) -> Seq<u8> {
    seq![(x >> 24u32) as u8, (x >> 16u32) as u8, (x >> 8u32) as u8, x as u8]
}

pub proof fn lemma_be_round_trip(x: u32)
    ensures
        be_u32(be_bytes(x), 0) == x,
{
    let b0 = (x >> 24u32) as u8;
    let b1 = (x >> 16u32) as u8;
    let b2 = (x >> 8u32) as u8;
    let b3 = x as u8;
    assert(((b0 as u32) << 24u32) | ((b1 as u32) << 16u32) | ((b2 as u32) << 8u32) | (b3 as u32) == x)
        by (bit_vector)
        requires
            b0 == (x >> 24u32) as u8,
            b1 == (x >> 16u32) as u8,
            b2 == (x >> 8u32) as u8,
            b3 == x as u8,
    ;
}

pub(crate) fn read_be_u32(s: &[u8], i: usize) -> (r: u32)
    requires
        i + 4 <= s@.len(),
    ensures
        r == be_u32(s@, i as int),
{
    ((s[i] as u32) << 24u32) | ((s[i + 1] as u32) << 16u32) | ((s[i + 2] as u32) << 8u32) | (s[i + 3] as u32)
}

fn push_be_u32(dst: &mut Vec<u8>, x: u32)
    ensures
        final(dst)@ == old(dst)@ + be_bytes(x),
{
    dst.push((x >> 24u32) as u8);
    dst.push((x >> 16u32) as u8);
    dst.push((x >> 8u32) as u8);
    dst.push(x as u8);
    assert(final(dst)@ =~= old(dst)@ + be_bytes(x));
}

fn push_all(dst: &mut Vec<u8>, src: &[u8])
    ensures
        final(dst)@ == old(dst)@ + src@,
{
    let ghost start = dst@;
    let mut i: usize = 0;
    while i < src.len()
        invariant
            i <= src@.len(),
            dst@ == start + src@.subrange(0, i as int),
        decreases src@.len() - i,
    {
        dst.push(src[i]);
        i = i + 1;
        assert(dst@ =~= start + src@.subrange(0, i as int));
    }
    assert(src@.subrange(0, i as int) =~= src@);
}

/// The bytes "BitTorrent protocol".
pub open spec fn protocol_name() -> Seq<u8> {
    seq![66u8, 105, 116, 84, 111, 114, 114, 101, 110, 116, 32, 112, 114, 111, 116, 111, 99, 111, 108]
}

/// The 68-byte greeting that opens a peer connection.
#[derive(Debug)]
pub struct Handshake {
    pub length: u8,
    pub protocol: [u8; 19],
    pub reserved_bytes: [u8; 8],
    pub info_hash: [u8; 20],
    pub peer_id: [u8; 20],
}

impl Handshake {
    /// Wire layout of the record, field by field.
    pub open spec fn wire(&self) -> Seq<u8> {
        seq![self.length] + self.protocol@ + self.reserved_bytes@ + self.info_hash@ + self.peer_id@
    }

    pub fn new(info_hash: [u8; 20], peer_id: [u8; 20]) -> (r: Self)
        ensures
            r.length == 19,
            r.protocol@ == protocol_name(),
            r.reserved_bytes@ == seq![0u8, 0, 0, 0, 0, 0, 0, 0],
            r.info_hash == info_hash,
            r.peer_id == peer_id,
    {
        let protocol: [u8; 19] = [66, 105, 116, 84, 111, 114, 114, 101, 110, 116, 32, 112, 114, 111, 116, 111, 99, 111, 108];
        let reserved_bytes: [u8; 8] = [0, 0, 0, 0, 0, 0, 0, 0];
        assert(protocol@ =~= protocol_name());
        assert(reserved_bytes@ =~= seq![0u8, 0, 0, 0, 0, 0, 0, 0]);
        Handshake { length: 19, protocol, reserved_bytes, info_hash, peer_id }
    }

    /// The record as the 68 bytes sent on the wire.
    pub fn to_bytes(&self) -> (r: Vec<u8>)
        ensures
            r@ == self.wire(),
            r@.len() == 68,
    {
        let mut r: Vec<u8> = Vec::new();
        r.push(self.length);
        push_all(&mut r, vstd::array::array_as_slice(&self.protocol));
        push_all(&mut r, vstd::array::array_as_slice(&self.reserved_bytes));
        push_all(&mut r, vstd::array::array_as_slice(&self.info_hash));
        push_all(&mut r, vstd::array::array_as_slice(&self.peer_id));
        assert(r@ =~= self.wire());
        r
    }

    /// Reads a record from exactly 68 bytes; `None` for any other length.
    /// The protocol name and reserved bytes are taken as they come.
    pub fn from_bytes(b: &[u8]) -> (r: Option<Self>)
        ensures
            r is Some <==> b@.len() == 68,
            r matches Some(h) ==> h.wire() == b@,
    {
        if b.len() != 68 {
            return None;
        }
        let mut protocol: [u8; 19] = [0; 19];
        let mut reserved_bytes: [u8; 8] = [0; 8];
        let mut info_hash: [u8; 20] = [0; 20];
        let mut peer_id: [u8; 20] = [0; 20];
        let mut i: usize = 0;
        while i < 19
            invariant
                b@.len() == 68,
                i <= 19,
                forall|k: int| 0 <= k < i ==> protocol@[k] == b@[1 + k],
            decreases 19 - i,
        {
            protocol[i] = b[1 + i];
            i = i + 1;
        }
        i = 0;
        while i < 8
            invariant
                b@.len() == 68,
                i <= 8,
                forall|k: int| 0 <= k < i ==> reserved_bytes@[k] == b@[20 + k],
            decreases 8 - i,
        {
            reserved_bytes[i] = b[20 + i];
            i = i + 1;
        }
        i = 0;
        while i < 20
            invariant
                b@.len() == 68,
                i <= 20,
                forall|k: int| 0 <= k < i ==> info_hash@[k] == b@[28 + k],
                forall|k: int| 0 <= k < i ==> peer_id@[k] == b@[48 + k],
            decreases 20 - i,
        {
            info_hash[i] = b[28 + i];
            peer_id[i] = b[48 + i];
            i = i + 1;
        }
        let h = Handshake { length: b[0], protocol, reserved_bytes, info_hash, peer_id };
        assert(h.wire() =~= b@);
        Some(h)
    }
}

/// A block request: piece index, byte offset within the piece, and length.
#[derive(Debug)]
pub struct Request {
    index: u32,
    begin: u32,
    length: u32,
}

impl Request {
    pub closed spec fn spec_index(&self) -> u32 {
        self.index
    }

    pub closed spec fn spec_begin(&self) -> u32 {
        self.begin
    }

    pub closed spec fn spec_length(&self) -> u32 {
        self.length
    }

    /// The 12-byte payload of a request message.
    pub open spec fn wire(&self) -> Seq<u8> {
        be_bytes(self.spec_index()) + be_bytes(self.spec_begin()) + be_bytes(self.spec_length())
    }

    pub fn new(index: u32, begin: u32, length: u32) -> (r: Self)
        ensures
            r.spec_index() == index,
            r.spec_begin() == begin,
            r.spec_length() == length,
    {
        Request { index, begin, length }
    }

    pub fn index(&self) -> (r: u32)
        ensures
            r == self.spec_index(),
    {
        self.index
    }

    pub fn begin(&self) -> (r: u32)
        ensures
            r == self.spec_begin(),
    {
        self.begin
    }

    pub fn length(&self) -> (r: u32)
        ensures
            r == self.spec_length(),
    {
        self.length
    }

    /// The request as the payload of a `Request` message.
    pub fn to_bytes(&self) -> (r: Vec<u8>)
        ensures
            r@ == self.wire(),
            r@.len() == 12,
    {
        let mut r: Vec<u8> = Vec::new();
        push_be_u32(&mut r, self.index);
        push_be_u32(&mut r, self.begin);
        push_be_u32(&mut r, self.length);
        assert(r@ =~= self.wire());
        r
    }
}

/// The payload of a `Piece` message: piece index, byte offset and the block.
#[derive(Debug)]
pub struct Piece {
    index: u32,
    begin: u32,
    block: Vec<u8>,
}

impl Piece {
    pub closed spec fn spec_index(&self) -> u32 {
        self.index
    }

    pub closed spec fn spec_begin(&self) -> u32 {
        self.begin
    }

    pub closed spec fn spec_block(&self) -> Seq<u8> {
        self.block@
    }

    /// Splits a payload into its two big-endian fields and the block that
    /// follows; `None` when the payload is shorter than the two fields.
    pub fn from_payload(payload: &[u8]) -> (r: Option<Self>)
        ensures
            r is Some <==> payload@.len() >= 8,
            r matches Some(p) ==> p.spec_index() == be_u32(payload@, 0) && p.spec_begin()
                == be_u32(payload@, 4) && p.spec_block() == payload@.subrange(8, payload@.len() as int),
    {
        if payload.len() < 8 {
            return None;
        }
        let index = read_be_u32(payload, 0);
        let begin = read_be_u32(payload, 4);
        let block = slice_to_vec(slice_subrange(payload, 8, payload.len()));
        Some(Piece { index, begin, block })
    }

    pub fn index(&self) -> (r: u32)
        ensures
            r == self.spec_index(),
    {
        self.index
    }

    pub fn begin(&self) -> (r: u32)
        ensures
            r == self.spec_begin(),
    {
        self.begin
    }

    pub fn block(&self) -> (r: &[u8])
        ensures
            r@ == self.spec_block(),
    {
        self.block.as_slice()
    }
}

/// The kind of a peer message, carried in the frame's tag byte.
#[derive(Debug, Clone, Copy, PartialEq, Eq, Structural)]
pub enum MessageTag {
    Choke,
    Unchoke,
    Interested,
    NotInterested,
    Have,
    Bitfield,
    Request,
    Piece,
    Cancel,
}

/// The tag byte of each message kind.
pub open spec fn tag_byte(t: MessageTag) -> u8 {
    match t {
        MessageTag::Choke => 0,
        MessageTag::Unchoke => 1,
        MessageTag::Interested => 2,
        MessageTag::NotInterested => 3,
        MessageTag::Have => 4,
        MessageTag::Bitfield => 5,
        MessageTag::Request => 6,
        MessageTag::Piece => 7,
        MessageTag::Cancel => 8,
    }
}

/// The message kind that a tag byte names, if any.
pub open spec fn tag_of(b: u8) -> Option<MessageTag> {
    if b == 0 {
        Some(MessageTag::Choke)
    } else if b == 1 {
        Some(MessageTag::Unchoke)
    } else if b == 2 {
        Some(MessageTag::Interested)
    } else if b == 3 {
        Some(MessageTag::NotInterested)
    } else if b == 4 {
        Some(MessageTag::Have)
    } else if b == 5 {
        Some(MessageTag::Bitfield)
    } else if b == 6 {
        Some(MessageTag::Request)
    } else if b == 7 {
        Some(MessageTag::Piece)
    } else if b == 8 {
        Some(MessageTag::Cancel)
    } else {
        None
    }
}

impl MessageTag {
    pub fn to_byte(self) -> (r: u8)
        ensures
            r == tag_byte(self),
            tag_of(r) == Some(self),
    {
        match self {
            MessageTag::Choke => 0,
            MessageTag::Unchoke => 1,
            MessageTag::Interested => 2,
            MessageTag::NotInterested => 3,
            MessageTag::Have => 4,
            MessageTag::Bitfield => 5,
            MessageTag::Request => 6,
            MessageTag::Piece => 7,
            MessageTag::Cancel => 8,
        }
    }

    pub fn from_byte(b: u8) -> (r: Option<MessageTag>)
        ensures
            r == tag_of(b),
            r is None <==> b >= 9,
    {
        match b {
            0 => Some(MessageTag::Choke),
            1 => Some(MessageTag::Unchoke),
            2 => Some(MessageTag::Interested),
            3 => Some(MessageTag::NotInterested),
            4 => Some(MessageTag::Have),
            5 => Some(MessageTag::Bitfield),
            6 => Some(MessageTag::Request),
            7 => Some(MessageTag::Piece),
            8 => Some(MessageTag::Cancel),
            _ => None,
        }
    }
}

/// One peer message: its kind and its payload.
#[derive(Debug)]
pub struct Message {
    pub tag: MessageTag,
    pub payload: Vec<u8>,
}

/// Why a frame could not be read or written.
#[derive(Debug, Clone, Copy, PartialEq, Eq, Structural)]
pub enum FrameError {
    /// The frame's length exceeds `MAX_FRAME_LEN`.
    FrameTooLarge,
    /// The tag byte names no message kind.
    UnknownMessageTag(u8),
}

/// The buffer once every leading keep-alive frame (a zero length prefix) is dropped.
pub open spec fn skip_keep_alives(s: Seq<u8>) -> Seq<u8>
    decreases s.len(),
{
    if s.len() >= 4 && be_u32(s, 0) == 0 {
        skip_keep_alives(s.subrange(4, s.len() as int))
    } else {
        s
    }
}

/// What reading one frame from the start of `s` gives, with what is left of the buffer.
/// `Ok(None)` means that more bytes are needed.
pub open spec fn frame_outcome(s: Seq<u8>) -> (Result<Option<(MessageTag, Seq<u8>)>, FrameError>, Seq<u8>) {
    let t = skip_keep_alives(s);
    if t.len() < 4 {
        (Ok(None), t)
    } else {
        let n = be_u32(t, 0) as int;
        if n > MAX_FRAME_LEN {
            (Err(FrameError::FrameTooLarge), t)
        } else if t.len() < 4 + n {
            (Ok(None), t)
        } else {
            match tag_of(t[4]) {
                None => (Err(FrameError::UnknownMessageTag(t[4])), t),
                Some(tag) => (Ok(Some((tag, t.subrange(5, 4 + n)))), t.subrange(4 + n, t.len() as int)),
            }
        }
    }
}

/// The bytes of one frame holding a message of kind `tag` with `payload`.
pub open spec fn frame_bytes(tag: MessageTag, payload: Seq<u8>) -> Seq<u8> {
    be_bytes((payload.len() + 1) as u32) + seq![tag_byte(tag)] + payload
}

#[verifier::external_type_specification]
#[verifier::external_body]
pub struct ExBytesMut(BytesMut);

/// The bytes that a `BytesMut` buffer holds, in order.
pub uninterp spec fn buffer_bytes(b: BytesMut) -> Seq<u8>;

/// Relies on `BytesMut`'s `Deref<Target = [u8]>` (its `as_slice`): the slice
/// is the buffer's contents.
#[verifier::external_body]
fn buffer_slice(b: &BytesMut) -> (r: &[u8])
    ensures
        r@ == buffer_bytes(*b),
{
    &b[..]
}

/// Relies on `<BytesMut as Buf>::advance`: drops the first `n` bytes. It
/// panics when `n` exceeds the length.
#[verifier::external_body]
fn buffer_advance(b: &mut BytesMut, n: usize)
    requires
        n <= buffer_bytes(*old(b)).len(),
    ensures
        buffer_bytes(*final(b)) == buffer_bytes(*old(b)).subrange(n as int, buffer_bytes(*old(b)).len() as int),
{
    b.advance(n)
}

/// Relies on `BytesMut::extend_from_slice`: appends the bytes of `s`. It
/// panics when the new length overflows the largest allocation.
#[verifier::external_body]
fn buffer_extend(b: &mut BytesMut, s: &[u8])
    requires
        buffer_bytes(*old(b)).len() + s@.len() <= isize::MAX,
    ensures
        buffer_bytes(*final(b)) == buffer_bytes(*old(b)) + s@,
{
    b.extend_from_slice(s)
}

/// Reads one frame from the front of `s`, as `frame_outcome` says; also
/// gives how many bytes of `s` the outcome leaves behind it.
fn read_frame(s: &[u8]) -> (res: (Result<Option<Message>, FrameError>, usize))
    ensures
        ({
            let (out, rest) = frame_outcome(s@);
            &&& res.1 <= s@.len()
            &&& s@.subrange(res.1 as int, s@.len() as int) == rest
            &&& match (res.0, out) {
                (Ok(None), Ok(None)) => true,
                (Ok(Some(m)), Ok(Some((tag, payload)))) => m.tag == tag && m.payload@ == payload,
                (Err(e), Err(f)) => e == f,
                _ => false,
            }
        }),
{
    let ghost s0 = s@;
    let len = s.len();
    let mut start: usize = 0;
    assert(s0.subrange(0, s0.len() as int) =~= s0);
    while len >= 4 && start <= len - 4 && read_be_u32(s, start) == 0
        invariant
            s@ == s0,
            len == s@.len(),
            start <= len,
            skip_keep_alives(s0) == skip_keep_alives(s0.subrange(start as int, len as int)),
        decreases len - start,
    {
        let ghost t = s0.subrange(start as int, len as int);
        assert(be_u32(t, 0) == be_u32(s0, start as int));
        assert(t.subrange(4, t.len() as int) =~= s0.subrange(start + 4, len as int));
        start = start + 4;
    }
    let ghost t = s0.subrange(start as int, len as int);
    if len >= 4 && start <= len - 4 {
        assert(be_u32(t, 0) == be_u32(s0, start as int));
    }
    assert(skip_keep_alives(t) == t);
    if len - start < 4 {
        return (Ok(None), start);
    }
    let length = read_be_u32(s, start);
    assert(length == be_u32(t, 0));
    if length as usize > MAX_FRAME_LEN {
        return (Err(FrameError::FrameTooLarge), start);
    }
    let n = length as usize;
    if len - start < 4 + n {
        return (Ok(None), start);
    }
    assert(s[start + 4] == t[4]);
    let tag = match MessageTag::from_byte(s[start + 4]) {
        Some(tag) => tag,
        None => {
            return (Err(FrameError::UnknownMessageTag(s[start + 4])), start);
        },
    };
    let payload = slice_to_vec(slice_subrange(s, start + 5, start + 4 + n));
    assert(payload@ =~= t.subrange(5, 4 + n as int));
    assert(s0.subrange(start + 4 + n, len as int) =~= t.subrange(4 + n as int, t.len() as int));
    (Ok(Some(Message { tag, payload })), start + 4 + n)
}

/// Splits a byte stream into messages and writes messages as frames.
pub struct MessageFramer;

impl MessageFramer {
    /// Reads one message from the front of `src`, dropping leading keep-alives.
    /// On success the frame leaves the buffer; `Ok(None)` asks for more bytes.
    pub fn decode(&mut self, src: &mut BytesMut) -> (r: Result<Option<Message>, FrameError>)
        ensures
            ({
                let (out, rest) = frame_outcome(buffer_bytes(*old(src)));
                &&& buffer_bytes(*final(src)) == rest
                &&& match (r, out) {
                    (Ok(None), Ok(None)) => true,
                    (Ok(Some(m)), Ok(Some((tag, payload)))) => m.tag == tag && m.payload@ == payload,
                    (Err(e), Err(f)) => e == f,
                    _ => false,
                }
            }),
    {
        let (r, consumed) = read_frame(buffer_slice(src));
        buffer_advance(src, consumed);
        r
    }

    /// Appends the frame of `item` to `dst`. Fails, leaving `dst` as it was,
    /// when the tag byte and payload together exceed `MAX_FRAME_LEN`.
    pub fn encode(&mut self, item: Message, dst: &mut BytesMut) -> (r: Result<(), FrameError>)
        requires
            buffer_bytes(*old(dst)).len() + item.payload@.len() + 5 <= isize::MAX,
        ensures
            r is Ok <==> item.payload@.len() + 1 <= MAX_FRAME_LEN,
            r is Ok ==> buffer_bytes(*final(dst)) == buffer_bytes(*old(dst)) + frame_bytes(item.tag, item.payload@),
            r == Err::<(), FrameError>(FrameError::FrameTooLarge) || r is Ok,
            r is Err ==> buffer_bytes(*final(dst)) == buffer_bytes(*old(dst)),
    {
        if item.payload.len() >= MAX_FRAME_LEN {
            return Err(FrameError::FrameTooLarge);
        }
        let mut out: Vec<u8> = Vec::new();
        push_be_u32(&mut out, (item.payload.len() + 1) as u32);
        out.push(item.tag.to_byte());
        push_all(&mut out, item.payload.as_slice());
        assert(out@ =~= frame_bytes(item.tag, item.payload@));
        buffer_extend(dst, out.as_slice());
        Ok(())
    }
}

proof fn lemma_frame_header(tag: MessageTag, payload: Seq<u8>, s: Seq<u8>)
    requires
        payload.len() + 1 <= MAX_FRAME_LEN,
        s.len() >= 4,
        forall|i: int| 0 <= i < 4 ==> s[i] == #[trigger] frame_bytes(tag, payload)[i],
    ensures
        be_u32(s, 0) == payload.len() + 1,
        skip_keep_alives(s) == s,
{
    let n = (payload.len() + 1) as u32;
    lemma_be_round_trip(n);
    let f = frame_bytes(tag, payload);
    assert(f[0] == be_bytes(n)[0] && f[1] == be_bytes(n)[1] && f[2] == be_bytes(n)[2] && f[3] == be_bytes(n)[3]);
    assert(be_u32(s, 0) == be_u32(be_bytes(n), 0));
}

/// A frame that has not fully arrived asks for more bytes, whatever part of
/// it is buffered; once every byte is there it gives its message and leaves
/// nothing behind.
pub proof fn lemma_partial_frames(tag: MessageTag, payload: Seq<u8>, k: int)
    requires
        payload.len() + 1 <= MAX_FRAME_LEN,
        0 <= k <= frame_bytes(tag, payload).len(),
    ensures
        k < frame_bytes(tag, payload).len() ==> frame_outcome(frame_bytes(tag, payload).subrange(0, k)).0 == Ok::<
            Option<(MessageTag, Seq<u8>)>,
            FrameError,
        >(None),
        k == frame_bytes(tag, payload).len() ==> frame_outcome(frame_bytes(tag, payload).subrange(0, k)) == (
            Ok::<Option<(MessageTag, Seq<u8>)>, FrameError>(Some((tag, payload))),
            Seq::<u8>::empty(),
        ),
{
    let f = frame_bytes(tag, payload);
    let p = f.subrange(0, k);
    if k >= 4 {
        lemma_frame_header(tag, payload, p);
    }
    if k == f.len() {
        assert(p =~= f);
        assert(f[4] == tag_byte(tag));
        assert(f.subrange(5, f.len() as int) =~= payload);
        assert(f.subrange(f.len() as int, f.len() as int) =~= Seq::<u8>::empty());
    }
}

/// A keep-alive in front of a frame is dropped: the buffer decodes to the
/// frame's message, as if the keep-alive had not been there.
pub proof fn lemma_keep_alive_absorbed(tag: MessageTag, payload: Seq<u8>, rest: Seq<u8>)
    requires
        payload.len() + 1 <= MAX_FRAME_LEN,
    ensures
        frame_outcome(seq![0u8, 0, 0, 0] + frame_bytes(tag, payload) + rest) == frame_outcome(
            frame_bytes(tag, payload) + rest,
        ),
        frame_outcome(frame_bytes(tag, payload) + rest) == (
            Ok::<Option<(MessageTag, Seq<u8>)>, FrameError>(Some((tag, payload))),
            rest,
        ),
{
    let f = frame_bytes(tag, payload);
    let s = seq![0u8, 0, 0, 0] + f + rest;
    let u = f + rest;
    assert(((0u8 as u32) << 24u32) | ((0u8 as u32) << 16u32) | ((0u8 as u32) << 8u32) | (0u8 as u32) == 0u32)
        by (bit_vector);
    assert(s[0] == 0 && s[1] == 0 && s[2] == 0 && s[3] == 0);
    assert(be_u32(s, 0) == 0);
    assert(s.subrange(4, s.len() as int) =~= u);
    lemma_frame_header(tag, payload, u);
    assert(u[4] == tag_byte(tag));
    assert(u.subrange(5, f.len() as int) =~= payload);
    assert(u.subrange(f.len() as int, u.len() as int) =~= rest);
}

/// A whole frame whose tag byte is 9 or more is refused, naming that byte.
pub proof fn lemma_unknown_tag_rejected(s: Seq<u8>)
    requires
        s.len() >= 5,
        1 <= be_u32(s, 0) <= MAX_FRAME_LEN,
        s.len() >= 4 + be_u32(s, 0),
        s[4] >= 9,
    ensures
        frame_outcome(s).0 == Err::<Option<(MessageTag, Seq<u8>)>, FrameError>(FrameError::UnknownMessageTag(s[4])),
{
}

} // verus!
