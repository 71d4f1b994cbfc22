use bittorrent_core::download::{check_piece, piece_size, DownloadError, Phase, PieceDownload, Step, BLOCK_MAX};
use bittorrent_core::peer::{FrameError, Handshake, Message, MessageFramer, MessageTag, Piece, Request, MAX_FRAME_LEN};
use bytes::BytesMut;
use sha1::{Digest, Sha1};

fn frame(tag: u8, payload: &[u8]) -> Vec<u8> {
    let mut f = ((payload.len() + 1) as u32).to_be_bytes().to_vec();
    f.push(tag);
    f.extend_from_slice(payload);
    f
}

#[test]
fn handshake_layout() {
    let h = Handshake::new([7u8; 20], *b"00112233445566778899");
    assert_eq!(h.length, 19);
    assert_eq!(&h.protocol, b"BitTorrent protocol");
    assert_eq!(h.reserved_bytes, [0u8; 8]);
    let b = h.to_bytes();
    assert_eq!(b.len(), 68);
    assert_eq!(b[0], 19);
    assert_eq!(&b[1..20], b"BitTorrent protocol");
    assert_eq!(&b[20..28], &[0u8; 8]);
    assert_eq!(&b[28..48], &[7u8; 20]);
    assert_eq!(&b[48..68], b"00112233445566778899");
}

#[test]
fn handshake_read_back() {
    let mut b = Handshake::new([1u8; 20], [2u8; 20]).to_bytes();
    b[48] = 9;
    let h = Handshake::from_bytes(&b).unwrap();
    assert_eq!(h.info_hash, [1u8; 20]);
    assert_eq!(h.peer_id[0], 9);
    assert_eq!(h.peer_id[1], 2);
    assert!(Handshake::from_bytes(&b[..67]).is_none());
}

#[test]
fn request_fields_and_bytes() {
    let r = Request::new(1, 0x4000, 3616);
    assert_eq!(r.index(), 1);
    assert_eq!(r.begin(), 0x4000);
    assert_eq!(r.length(), 3616);
    assert_eq!(r.to_bytes(), vec![0, 0, 0, 1, 0, 0, 0x40, 0, 0, 0, 0x0e, 0x20]);
}

#[test]
fn piece_payload_fields() {
    let p = Piece::from_payload(&[0, 0, 0, 2, 0, 0, 1, 0, 9, 8, 7]).unwrap();
    assert_eq!(p.index(), 2);
    assert_eq!(p.begin(), 256);
    assert_eq!(p.block(), &[9, 8, 7]);
    assert!(Piece::from_payload(&[0, 0, 0, 2, 0, 0, 1]).is_none());
}

#[test]
fn tag_bytes() {
    assert_eq!(MessageTag::Bitfield.to_byte(), 5);
    assert_eq!(MessageTag::from_byte(7), Some(MessageTag::Piece));
    assert_eq!(MessageTag::from_byte(9), None);
}

#[test]
fn frame_arrives_byte_by_byte() {
    let f = frame(7, &[1, 2, 3, 4, 5]);
    let mut framer = MessageFramer;
    let mut buf = BytesMut::from(&f[..3]);
    assert!(framer.decode(&mut buf).unwrap().is_none());
    assert_eq!(buf.len(), 3);
    for i in 3..f.len() {
        buf.extend_from_slice(&f[i..i + 1]);
        let r = framer.decode(&mut buf).unwrap();
        if i + 1 < f.len() {
            assert!(r.is_none());
        } else {
            let m = r.unwrap();
            assert_eq!(m.tag, MessageTag::Piece);
            assert_eq!(m.payload, vec![1, 2, 3, 4, 5]);
            assert!(buf.is_empty());
        }
    }
}

#[test]
fn keep_alive_is_absorbed() {
    let mut buf = BytesMut::from(&[0u8, 0, 0, 0][..]);
    buf.extend_from_slice(&frame(1, &[]));
    buf.extend_from_slice(&[0, 0]);
    let m = MessageFramer.decode(&mut buf).unwrap().unwrap();
    assert_eq!(m.tag, MessageTag::Unchoke);
    assert!(m.payload.is_empty());
    assert_eq!(&buf[..], &[0u8, 0][..]);
}

#[test]
fn keep_alive_alone_needs_more() {
    let mut buf = BytesMut::from(&[0u8; 8][..]);
    assert!(MessageFramer.decode(&mut buf).unwrap().is_none());
    assert!(buf.is_empty());
}

#[test]
fn unknown_tag_is_rejected() {
    for tag in [9u8, 20, 255] {
        let mut buf = BytesMut::from(&frame(tag, &[1])[..]);
        assert_eq!(MessageFramer.decode(&mut buf).unwrap_err(), FrameError::UnknownMessageTag(tag));
    }
}

#[test]
fn oversized_frame_is_rejected() {
    let mut buf = BytesMut::from(&((MAX_FRAME_LEN + 1) as u32).to_be_bytes()[..]);
    buf.extend_from_slice(&[7]);
    assert_eq!(MessageFramer.decode(&mut buf).unwrap_err(), FrameError::FrameTooLarge);
    let m = Message { tag: MessageTag::Piece, payload: vec![0; MAX_FRAME_LEN] };
    let mut dst = BytesMut::new();
    assert_eq!(MessageFramer.encode(m, &mut dst).unwrap_err(), FrameError::FrameTooLarge);
    assert!(dst.is_empty());
}

#[test]
fn encode_writes_frame() {
    let mut dst = BytesMut::from(&[42u8][..]);
    MessageFramer.encode(Message { tag: MessageTag::Have, payload: vec![0, 0, 0, 3] }, &mut dst).unwrap();
    assert_eq!(&dst[..], &[42u8, 0, 0, 0, 5, 4, 0, 0, 0, 3][..]);
    let mut back = BytesMut::from(&dst[1..]);
    let m = MessageFramer.decode(&mut back).unwrap().unwrap();
    assert_eq!(m.tag, MessageTag::Have);
    assert_eq!(m.payload, vec![0, 0, 0, 3]);
}

#[test]
fn final_piece_is_shorter() {
    assert_eq!(piece_size(1024, 400, 2), 224);
    assert_eq!(piece_size(1024, 400, 1), 400);
    assert_eq!(piece_size(20000, 16384, 1), 3616);
    assert_eq!(piece_size(800, 400, 1), 400);
}

#[test]
fn check_piece_compares_digests() {
    assert_eq!(check_piece(vec![1, 2], &[3; 20], &[3; 20]).unwrap(), vec![1, 2]);
    assert_eq!(check_piece(vec![1, 2], &[3; 20], &[4; 20]).unwrap_err(), DownloadError::HashMismatch);
}

fn piece_message(index: u32, begin: u32, block: &[u8]) -> Message {
    let mut payload = index.to_be_bytes().to_vec();
    payload.extend_from_slice(&begin.to_be_bytes());
    payload.extend_from_slice(block);
    Message { tag: MessageTag::Piece, payload }
}

fn sent(step: Step) -> Message {
    match step {
        Step::Send(m) => m,
        other => panic!("expected a message to send, got {:?}", other),
    }
}

#[test]
fn downloads_last_piece_with_one_request() {
    let data: Vec<u8> = (0..3616u32).map(|i| (i % 251) as u8).collect();
    let expected: [u8; 20] = Sha1::digest(&data).into();
    let size = piece_size(20000, 16384, 1);
    assert_eq!(size, 3616);
    let mut d = PieceDownload::new(1, size as u32, expected);
    let m = sent(d.handle(Message { tag: MessageTag::Bitfield, payload: vec![0xc0] }));
    assert_eq!(m.tag, MessageTag::Interested);
    assert!(m.payload.is_empty());
    let req = sent(d.handle(Message { tag: MessageTag::Unchoke, payload: vec![] }));
    assert_eq!(req.tag, MessageTag::Request);
    assert_eq!(req.payload, Request::new(1, 0, 3616).to_bytes());
    let mut requests = 1;
    match d.handle(piece_message(1, 0, &data)) {
        Step::Done(bytes) => {
            assert_eq!(bytes.len(), 3616);
            let got: [u8; 20] = Sha1::digest(&bytes).into();
            assert_eq!(got, expected);
        }
        Step::Send(_) => requests += 1,
        Step::Fail(e) => panic!("download failed: {:?}", e),
    }
    assert_eq!(requests, 1);
    assert_eq!(d.phase(), Phase::Complete);
}

#[test]
fn downloads_piece_in_blocks() {
    let size = BLOCK_MAX as usize + 100;
    let data: Vec<u8> = (0..size).map(|i| (i % 7) as u8).collect();
    let expected: [u8; 20] = Sha1::digest(&data).into();
    let mut d = PieceDownload::new(0, size as u32, expected);
    sent(d.handle(Message { tag: MessageTag::Bitfield, payload: vec![0x80] }));
    let r1 = sent(d.handle(Message { tag: MessageTag::Unchoke, payload: vec![] }));
    assert_eq!(r1.payload, Request::new(0, 0, BLOCK_MAX).to_bytes());
    let r2 = sent(d.handle(piece_message(0, 0, &data[..BLOCK_MAX as usize])));
    assert_eq!(r2.payload, Request::new(0, BLOCK_MAX, 100).to_bytes());
    match d.handle(piece_message(0, BLOCK_MAX, &data[BLOCK_MAX as usize..])) {
        Step::Done(bytes) => assert_eq!(bytes, data),
        other => panic!("expected the piece, got {:?}", other),
    }
}

#[test]
fn hash_mismatch_fails_without_data() {
    let data = b"abc".to_vec();
    let wrong = [0u8; 20];
    let mut d = PieceDownload::new(0, 3, wrong);
    sent(d.handle(Message { tag: MessageTag::Bitfield, payload: vec![] }));
    sent(d.handle(Message { tag: MessageTag::Unchoke, payload: vec![] }));
    match d.handle(piece_message(0, 0, &data)) {
        Step::Fail(e) => assert_eq!(e, DownloadError::HashMismatch),
        other => panic!("expected a hash mismatch, got {:?}", other),
    }
    assert_eq!(d.phase(), Phase::Failed);
}

#[test]
fn known_digest_of_abc_is_accepted() {
    let expected: [u8; 20] = [
        0xa9, 0x99, 0x3e, 0x36, 0x47, 0x06, 0x81, 0x6a, 0xba, 0x3e, 0x25, 0x71, 0x78, 0x50, 0xc2, 0x6c, 0x9c, 0xd0,
        0xd8, 0x9d,
    ];
    let mut d = PieceDownload::new(0, 3, expected);
    sent(d.handle(Message { tag: MessageTag::Bitfield, payload: vec![] }));
    sent(d.handle(Message { tag: MessageTag::Unchoke, payload: vec![] }));
    match d.handle(piece_message(0, 0, b"abc")) {
        Step::Done(bytes) => assert_eq!(bytes, b"abc".to_vec()),
        other => panic!("expected the piece, got {:?}", other),
    }
}

#[test]
fn protocol_violations_fail() {
    let mut d = PieceDownload::new(0, 10, [0; 20]);
    match d.handle(Message { tag: MessageTag::Unchoke, payload: vec![] }) {
        Step::Fail(e) => assert_eq!(e, DownloadError::UnexpectedMessage),
        other => panic!("expected a failure, got {:?}", other),
    }
    let mut d = PieceDownload::new(0, 10, [0; 20]);
    sent(d.handle(Message { tag: MessageTag::Bitfield, payload: vec![] }));
    match d.handle(Message { tag: MessageTag::Unchoke, payload: vec![1] }) {
        Step::Fail(e) => assert_eq!(e, DownloadError::UnexpectedMessage),
        other => panic!("expected a failure, got {:?}", other),
    }
    let mut d = PieceDownload::new(0, 10, [0; 20]);
    sent(d.handle(Message { tag: MessageTag::Bitfield, payload: vec![] }));
    sent(d.handle(Message { tag: MessageTag::Unchoke, payload: vec![] }));
    match d.handle(piece_message(1, 0, &[1, 2])) {
        Step::Fail(e) => assert_eq!(e, DownloadError::UnexpectedMessage),
        other => panic!("expected a failure, got {:?}", other),
    }
    let mut d = PieceDownload::new(0, 10, [0; 20]);
    sent(d.handle(Message { tag: MessageTag::Bitfield, payload: vec![] }));
    sent(d.handle(Message { tag: MessageTag::Unchoke, payload: vec![] }));
    match d.handle(piece_message(0, 0, &[])) {
        Step::Fail(e) => assert_eq!(e, DownloadError::UnexpectedMessage),
        other => panic!("expected a failure, got {:?}", other),
    }
}
