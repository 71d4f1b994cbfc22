//! The block download state machine for one piece over one connection:
//! bitfield, interested, unchoke, then one request per block until the
//! piece is assembled and its hash checked.

use crate::hash::{sha1_digest, sha1_of};
use crate::peer::{be_bytes, be_u32, read_be_u32, Message, MessageTag, Request};
use vstd::prelude::*;
use vstd::slice::{slice_subrange, slice_to_vec};

verus! {

/// Largest block requested at once.
pub const BLOCK_MAX: u32 = 17000;

/// The byte length of piece `index`: the nominal piece length, except for a
/// shorter final piece.
pub open spec fn spec_piece_size(total_length: int, piece_length: int, index: int) -> int {
    if piece_length <= total_length - index * piece_length {
        piece_length
    } else {
        total_length - index * piece_length
    }
}

/// The byte length of piece `index` of a file of `total_length` bytes cut in
/// pieces of `piece_length` bytes: `min(piece_length, total_length - index * piece_length)`.
pub fn piece_size(total_length: usize, piece_length: usize, index: usize) -> (r: usize)
    requires
        index * piece_length < total_length,
    ensures
        r == spec_piece_size(total_length as int, piece_length as int, index as int),
{
    let start = index * piece_length;
    let rest = total_length - start;
    if piece_length <= rest {
        piece_length
    } else {
        rest
    }
}

/// Where a piece download stands.
#[derive(Debug, Clone, Copy, PartialEq, Eq, Structural)]
pub enum Phase {
    AwaitingBitfield,
    AwaitingUnchoke,
    AwaitingBlock,
    Complete,
    Failed,
}

/// Why a piece download stopped.
#[derive(Debug, Clone, Copy, PartialEq, Eq, Structural)]
pub enum DownloadError {
    /// The peer sent a message that the protocol does not allow at this point.
    UnexpectedMessage,
    /// The assembled piece does not have the expected hash.
    HashMismatch,
}

/// What the caller does after a message has been handled.
#[derive(Debug)]
pub enum Step {
    /// Send this message to the peer, then hand over the next one received.
    Send(Message),
    /// The piece is assembled and its hash checked: these are its bytes.
    Done(Vec<u8>),
    /// The download has failed.
    Fail(DownloadError),
}

/// The payload of a request for `length` bytes at `begin` in piece `index`.
pub open spec fn request_payload(index: u32, begin: u32, length: u32) -> Seq<u8> {
    be_bytes(index) + be_bytes(begin) + be_bytes(length)
}

/// The length of the block requested when `assembled` of `size` bytes are there.
pub open spec fn block_len(size: u32, assembled: nat) -> u32 {
    if (size - assembled) < BLOCK_MAX as int {
        (size - assembled) as u32
    } else {
        BLOCK_MAX
    }
}

/// `payload` answers the request for the block at `assembled` of piece `index`.
pub open spec fn answers(payload: Seq<u8>, index: u32, size: u32, assembled: nat) -> bool {
    &&& payload.len() > 8
    &&& be_u32(payload, 0) == index
    &&& be_u32(payload, 4) == assembled
    &&& payload.len() - 8 <= block_len(size, assembled)
}

/// Keeps the piece hash unless the assembled bytes do not have it.
/// `digest` is the hash of `data`; `expected` the one the metainfo gives.
pub fn check_piece(data: Vec<u8>, digest: &[u8; 20], expected: &[u8; 20]) -> (r: Result<Vec<u8>, DownloadError>)
    ensures
        r is Ok <==> digest@ == expected@,
        r matches Ok(d) ==> d@ == data@,
        r matches Err(e) ==> e == DownloadError::HashMismatch,
{
    let mut i: usize = 0;
    while i < 20
        invariant
            i <= 20,
            forall|k: int| 0 <= k < i ==> digest@[k] == expected@[k],
        decreases 20 - i,
    {
        if digest[i] != expected[i] {
            return Err(DownloadError::HashMismatch);
        }
        i = i + 1;
    }
    assert(digest@ =~= expected@);
    Ok(data)
}

/// The download of one piece from one peer.
#[derive(Debug)]
pub struct PieceDownload {
    index: u32,
    size: u32,
    expected: [u8; 20],
    phase: Phase,
    buffer: Vec<u8>,
}

impl PieceDownload {
    pub closed spec fn spec_index(&self) -> u32 {
        self.index
    }

    pub closed spec fn spec_size(&self) -> u32 {
        self.size
    }

    pub closed spec fn spec_expected(&self) -> Seq<u8> {
        self.expected@
    }

    pub closed spec fn spec_phase(&self) -> Phase {
        self.phase
    }

    /// The block bytes received so far, in order.
    pub closed spec fn assembled(&self) -> Seq<u8> {
        self.buffer@
    }

    pub open spec fn wf(&self) -> bool {
        &&& self.spec_size() > 0
        &&& self.assembled().len() <= self.spec_size()
        &&& (self.spec_phase() == Phase::AwaitingBitfield || self.spec_phase() == Phase::AwaitingUnchoke)
            ==> self.assembled().len() == 0
        &&& self.spec_phase() == Phase::AwaitingBlock ==> self.assembled().len() < self.spec_size()
    }

    /// A download of piece `index`, `size` bytes long, whose SHA-1 hash must be `expected`.
    pub fn new(index: u32, size: u32, expected: [u8; 20]) -> (r: Self)
        requires
            size > 0,
        ensures
            r.wf(),
            r.spec_index() == index,
            r.spec_size() == size,
            r.spec_expected() == expected@,
            r.spec_phase() == Phase::AwaitingBitfield,
            r.assembled().len() == 0,
    {
        PieceDownload { index, size, expected, phase: Phase::AwaitingBitfield, buffer: Vec::new() }
    }

    pub fn phase(&self) -> (r: Phase)
        ensures
            r == self.spec_phase(),
    {
        self.phase
    }

    /// The request for the next block.
    fn next_request(&self) -> (r: Message)
        requires
            self.assembled().len() < self.spec_size(),
        ensures
            r.tag == MessageTag::Request,
            r.payload@ == request_payload(
                self.spec_index(),
                self.assembled().len() as u32,
                block_len(self.spec_size(), self.assembled().len()),
            ),
    {
        let done = self.buffer.len() as u32;
        let rest = self.size - done;
        let length = if rest < BLOCK_MAX { rest } else { BLOCK_MAX };
        let req = Request::new(self.index, done, length);
        let payload = req.to_bytes();
        Message { tag: MessageTag::Request, payload }
    }

    /// Takes the next message from the peer and says what to do next.
    pub fn handle(&mut self, msg: Message) -> (r: Step)
        requires
            old(self).wf(),
        ensures
            final(self).wf(),
            final(self).spec_index() == old(self).spec_index(),
            final(self).spec_size() == old(self).spec_size(),
            final(self).spec_expected() == old(self).spec_expected(),
            ({
                let s = *old(self);
                let t = *final(self);
                let n = s.assembled().len();
                match s.spec_phase() {
                    Phase::AwaitingBitfield => if msg.tag == MessageTag::Bitfield {
                        &&& t.spec_phase() == Phase::AwaitingUnchoke
                        &&& r matches Step::Send(m) && m.tag == MessageTag::Interested && m.payload@.len() == 0
                    } else {
                        t.spec_phase() == Phase::Failed && r == Step::Fail(DownloadError::UnexpectedMessage)
                    },
                    Phase::AwaitingUnchoke => if msg.tag == MessageTag::Unchoke && msg.payload@.len() == 0 {
                        &&& t.spec_phase() == Phase::AwaitingBlock
                        &&& t.assembled().len() == 0
                        &&& r matches Step::Send(m) && m.tag == MessageTag::Request && m.payload@
                            == request_payload(s.spec_index(), 0, block_len(s.spec_size(), 0))
                    } else {
                        t.spec_phase() == Phase::Failed && r == Step::Fail(DownloadError::UnexpectedMessage)
                    },
                    Phase::AwaitingBlock => if msg.tag == MessageTag::Piece && answers(
                        msg.payload@,
                        s.spec_index(),
                        s.spec_size(),
                        n,
                    ) {
                        let a = s.assembled() + msg.payload@.subrange(8, msg.payload@.len() as int);
                        if a.len() < s.spec_size() {
                            &&& t.spec_phase() == Phase::AwaitingBlock
                            &&& t.assembled() == a
                            &&& r matches Step::Send(m) && m.tag == MessageTag::Request && m.payload@
                                == request_payload(s.spec_index(), a.len() as u32, block_len(s.spec_size(), a.len()))
                        } else if sha1_of(a) == s.spec_expected() {
                            &&& t.spec_phase() == Phase::Complete
                            &&& r matches Step::Done(d) && d@ == a
                        } else {
                            t.spec_phase() == Phase::Failed && r == Step::Fail(DownloadError::HashMismatch)
                        }
                    } else {
                        t.spec_phase() == Phase::Failed && r == Step::Fail(DownloadError::UnexpectedMessage)
                    },
                    _ => t.spec_phase() == s.spec_phase() && r == Step::Fail(DownloadError::UnexpectedMessage),
                }
            }),
    {
        match self.phase {
            Phase::AwaitingBitfield => {
                if msg.tag == MessageTag::Bitfield {
                    self.phase = Phase::AwaitingUnchoke;
                    Step::Send(Message { tag: MessageTag::Interested, payload: Vec::new() })
                } else {
                    self.phase = Phase::Failed;
                    Step::Fail(DownloadError::UnexpectedMessage)
                }
            },
            Phase::AwaitingUnchoke => {
                if msg.tag == MessageTag::Unchoke && msg.payload.len() == 0 {
                    self.phase = Phase::AwaitingBlock;
                    Step::Send(self.next_request())
                } else {
                    self.phase = Phase::Failed;
                    Step::Fail(DownloadError::UnexpectedMessage)
                }
            },
            Phase::AwaitingBlock => {
                let p = msg.payload.as_slice();
                let done = self.buffer.len();
                let rest = self.size - done as u32;
                let want = if rest < BLOCK_MAX { rest } else { BLOCK_MAX };
                if msg.tag != MessageTag::Piece || p.len() <= 8 || read_be_u32(p, 0) != self.index
                    || read_be_u32(p, 4) != done as u32 || p.len() - 8 > want as usize {
                    self.phase = Phase::Failed;
                    return Step::Fail(DownloadError::UnexpectedMessage);
                }
                let block = slice_subrange(p, 8, p.len());
                let mut i: usize = 0;
                let ghost b0 = self.buffer@;
                let ghost s0 = *self;
                while i < block.len()
                    invariant
                        self.index == s0.index,
                        self.size == s0.size,
                        self.expected == s0.expected,
                        self.phase == s0.phase,
                        b0.len() + block@.len() <= self.size,
                        i <= block@.len(),
                        self.buffer@ == b0 + block@.subrange(0, i as int),
                    decreases block@.len() - i,
                {
                    self.buffer.push(block[i]);
                    i = i + 1;
                    assert(self.buffer@ =~= b0 + block@.subrange(0, i as int));
                }
                assert(block@.subrange(0, i as int) =~= block@);
                if self.buffer.len() < self.size as usize {
                    Step::Send(self.next_request())
                } else {
                    let digest = sha1_digest(self.buffer.as_slice());
                    let data = slice_to_vec(self.buffer.as_slice());
                    match check_piece(data, &digest, &self.expected) {
                        Ok(d) => {
                            self.phase = Phase::Complete;
                            Step::Done(d)
                        },
                        Err(e) => {
                            self.phase = Phase::Failed;
                            Step::Fail(e)
                        },
                    }
                }
            },
            _ => Step::Fail(DownloadError::UnexpectedMessage),
        }
    }
}

} // verus!
