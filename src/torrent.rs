//! The torrent metainfo: a typed view of a decoded metainfo file, and the
//! info hash that names the torrent.

use crate::bencode::{enc, lemma_enc_unique, prefix_at, view_dict, view_value, BValue, Value};
use vstd::slice::slice_to_vec;
use crate::hash::{sha1_digest, sha1_of};
use vstd::prelude::*;

verus! {

pub open spec fn key_announce() -> Seq<u8> {
    seq![97u8, 110, 110, 111, 117, 110, 99, 101]
}

pub open spec fn key_info() -> Seq<u8> {
    seq![105u8, 110, 102, 111]
}

pub open spec fn key_length() -> Seq<u8> {
    seq![108u8, 101, 110, 103, 116, 104]
}

pub open spec fn key_name() -> Seq<u8> {
    seq![110u8, 97, 109, 101]
}

pub open spec fn key_piece_length() -> Seq<u8> {
    seq![112u8, 105, 101, 99, 101, 32, 108, 101, 110, 103, 116, 104]
}

pub open spec fn key_pieces() -> Seq<u8> {
    seq![112u8, 105, 101, 99, 101, 115]
}

/// The value of the first entry of `entries` under `key`.
pub open spec fn lookup(entries: Seq<(Seq<u8>, BValue)>, key: Seq<u8>) -> Option<BValue>
    decreases entries.len(),
{
    if entries.len() == 0 {
        None
    } else if entries[0].0 == key {
        Some(entries[0].1)
    } else {
        lookup(entries.subrange(1, entries.len() as int), key)
    }
}

/// The value under `key` when `v` is a dictionary.
pub open spec fn field(v: BValue, key: Seq<u8>) -> Option<BValue> {
    match v {
        BValue::Dict(entries) => lookup(entries, key),
        _ => None,
    }
}

pub open spec fn bytes_field(v: BValue, key: Seq<u8>) -> Option<Seq<u8>> {
    match field(v, key) {
        Some(BValue::Bytes(b)) => Some(b),
        _ => None,
    }
}

pub open spec fn int_field(v: BValue, key: Seq<u8>) -> Option<int> {
    match field(v, key) {
        Some(BValue::Int(i)) => Some(i),
        _ => None,
    }
}

/// `ceil(a / b)`.
pub open spec fn div_ceil(a: int, b: int) -> int {
    (a + b - 1) / b
}

/// Why a decoded value is no metainfo.
#[derive(Debug, Clone, Copy, PartialEq, Eq, Structural)]
pub enum MetainfoError {
    /// A field is missing or of the wrong kind or size.
    InvalidMetainfo,
    /// `pieces` is a byte string whose length is no multiple of 20.
    InvalidPiecesField,
}

/// The fields of a metainfo value: announce URL, total length, name, piece
/// length and the concatenated piece hashes; or why there are none.
pub open spec fn metainfo_fields(v: BValue) -> Result<(Seq<u8>, int, Seq<u8>, int, Seq<u8>), MetainfoError> {
    match (bytes_field(v, key_announce()), field(v, key_info())) {
        (Some(announce), Some(info)) => {
            match (int_field(info, key_length()), bytes_field(info, key_name()), int_field(info, key_piece_length()), bytes_field(info, key_pieces())) {
                (Some(length), Some(name), Some(plength), Some(pieces)) => {
                    if !(0 <= length <= usize::MAX && 0 < plength <= usize::MAX) {
                        Err(MetainfoError::InvalidMetainfo)
                    } else if pieces.len() % 20 != 0 {
                        Err(MetainfoError::InvalidPiecesField)
                    } else if pieces.len() / 20 != div_ceil(length, plength) {
                        Err(MetainfoError::InvalidMetainfo)
                    } else {
                        Ok((announce, length, name, plength, pieces))
                    }
                },
                _ => Err(MetainfoError::InvalidMetainfo),
            }
        },
        _ => Err(MetainfoError::InvalidMetainfo),
    }
}

/// The concatenated piece hashes, one element per piece.
#[derive(Debug)]
pub struct Pieces(pub Vec<[u8; 20]>);

impl Pieces {
    /// `pieces` holds the 20-byte chunks of `b`, in order.
    pub open spec fn chunks_of(&self, b: Seq<u8>) -> bool {
        &&& self.0@.len() * 20 == b.len()
        &&& forall|k: int| 0 <= k < self.0@.len() ==> (#[trigger] self.0@[k])@ == b.subrange(20 * k, 20 * k + 20)
    }
}

/// The `info` dictionary of a metainfo file.
#[derive(Debug)]
pub struct Info {
    pub length: usize,
    pub name: Vec<u8>,
    pub plength: usize,
    pub pieces: Pieces,
}

/// A metainfo file: where the tracker is, and the `info` dictionary.
#[derive(Debug)]
pub struct Torrent {
    pub announce: Vec<u8>,
    pub info: Info,
}

impl Torrent {
    /// Well-formed: as many piece hashes as pieces of `plength` bytes cover `length`.
    pub open spec fn wf(&self) -> bool {
        &&& self.info.plength > 0
        &&& self.info.pieces.0@.len() == div_ceil(self.info.length as int, self.info.plength as int)
    }
}

fn bytes_eq(a: &[u8], b: &[u8]) -> (r: bool)
    ensures
        r == (a@ == b@),
{
    if a.len() != b.len() {
        return false;
    }
    let mut i: usize = 0;
    while i < a.len()
        invariant
            a@.len() == b@.len(),
            i <= a@.len(),
            forall|k: int| 0 <= k < i ==> a@[k] == b@[k],
        decreases a@.len() - i,
    {
        if a[i] != b[i] {
            return false;
        }
        i = i + 1;
    }
    assert(a@ =~= b@);
    true
}

proof fn lemma_view_dict_at(entries: Seq<(Vec<u8>, Value)>, k: int)
    requires
        0 <= k < entries.len(),
    ensures
        view_dict(entries).len() == entries.len(),
        view_dict(entries)[k] == (entries[k].0@, view_value(entries[k].1)),
    decreases entries.len(),
{
    let pre = entries.subrange(0, entries.len() - 1);
    if k < entries.len() - 1 {
        lemma_view_dict_at(pre, k);
    } else if entries.len() > 1 {
        lemma_view_dict_at(pre, 0);
    }
    if entries.len() == 1 {
        assert(view_dict(pre).len() == 0);
    }
}

/// The first value under `key` in a dictionary value; `None` when `v` is
/// no dictionary or has no such key.
fn get<'a>(v: &'a Value, key: &[u8]) -> (r: Option<&'a Value>)
    ensures
        r matches Some(x) ==> field(v@, key@) == Some(x@),
        r is None ==> field(v@, key@) is None,
{
    match v {
        Value::Dict(entries) => {
            let mut i: usize = 0;
            proof {
                assert(view_dict(entries@).subrange(0, view_dict(entries@).len() as int) =~= view_dict(entries@));
                if entries@.len() > 0 {
                    lemma_view_dict_at(entries@, 0);
                } else {
                    assert(view_dict(entries@).len() == 0);
                }
            }
            while i < entries.len()
                invariant
                    *v == Value::Dict(*entries),
                    i <= entries@.len(),
                    view_dict(entries@).len() == entries@.len(),
                    lookup(view_dict(entries@), key@) == lookup(
                        view_dict(entries@).subrange(i as int, entries@.len() as int),
                        key@,
                    ),
                decreases entries@.len() - i,
            {
                let ghost rest = view_dict(entries@).subrange(i as int, entries@.len() as int);
                proof {
                    lemma_view_dict_at(entries@, i as int);
                    assert(rest[0] == view_dict(entries@)[i as int]);
                    assert(rest.subrange(1, rest.len() as int) =~= view_dict(entries@).subrange(i + 1, entries@.len() as int));
                }
                if bytes_eq(entries[i].0.as_slice(), key) {
                    return Some(&entries[i].1);
                }
                i = i + 1;
            }
            None
        },
        _ => None,
    }
}

fn get_bytes<'a>(v: &'a Value, key: &[u8]) -> (r: Option<&'a Vec<u8>>)
    ensures
        r matches Some(b) ==> bytes_field(v@, key@) == Some(b@),
        r is None ==> bytes_field(v@, key@) is None,
{
    match get(v, key) {
        Some(Value::Bytes(b)) => Some(b),
        _ => None,
    }
}

fn get_int(v: &Value, key: &[u8]) -> (r: Option<i64>)
    ensures
        r matches Some(i) ==> int_field(v@, key@) == Some(i as int),
        r is None ==> int_field(v@, key@) is None,
{
    match get(v, key) {
        Some(Value::Int(i)) => Some(*i),
        _ => None,
    }
}

/// Splits `b` into its 20-byte chunks.
fn chunk_hashes(b: &[u8]) -> (r: Pieces)
    requires
        b@.len() % 20 == 0,
    ensures
        r.chunks_of(b@),
{
    let mut out: Vec<[u8; 20]> = Vec::new();
    let n = b.len() / 20;
    let mut i: usize = 0;
    while i < n
        invariant
            n == b@.len() / 20,
            b@.len() % 20 == 0,
            b@.len() <= usize::MAX,
            i <= n,
            out@.len() == i,
            forall|k: int| 0 <= k < i ==> (#[trigger] out@[k])@ == b@.subrange(20 * k, 20 * k + 20),
        decreases n - i,
    {
        let mut h: [u8; 20] = [0; 20];
        let mut j: usize = 0;
        assert(20 * i + 20 <= b@.len()) by (nonlinear_arith)
            requires
                i < n,
                n == b@.len() / 20,
        ;
        while j < 20
            invariant
                n == b@.len() / 20,
                i < n,
                20 * i + 20 <= b@.len(),
                b@.len() <= usize::MAX,
                j <= 20,
                forall|k: int| 0 <= k < j ==> h@[k] == b@[20 * i + k],
            decreases 20 - j,
        {
            h[j] = b[20 * i + j];
            j = j + 1;
        }
        assert(h@ =~= b@.subrange(20 * i as int, 20 * i as int + 20));
        out.push(h);
        i = i + 1;
    }
    Pieces(out)
}

impl Torrent {
    /// Reads the metainfo fields of a decoded metainfo file.
    pub fn from_value(v: &Value) -> (r: Result<Torrent, MetainfoError>)
        ensures
            match (r, metainfo_fields(v@)) {
                (Ok(t), Ok((announce, length, name, plength, pieces))) => {
                    &&& t.announce@ == announce
                    &&& t.info.length == length
                    &&& t.info.name@ == name
                    &&& t.info.plength == plength
                    &&& t.info.pieces.chunks_of(pieces)
                    &&& t.wf()
                },
                (Err(e), Err(f)) => e == f,
                _ => false,
            },
    {
        let k_announce: [u8; 8] = [97, 110, 110, 111, 117, 110, 99, 101];
        let k_info: [u8; 4] = [105, 110, 102, 111];
        let k_length: [u8; 6] = [108, 101, 110, 103, 116, 104];
        let k_name: [u8; 4] = [110, 97, 109, 101];
        let k_piece_length: [u8; 12] = [112, 105, 101, 99, 101, 32, 108, 101, 110, 103, 116, 104];
        let k_pieces: [u8; 6] = [112, 105, 101, 99, 101, 115];
        assert(k_announce@ =~= key_announce());
        assert(k_info@ =~= key_info());
        assert(k_length@ =~= key_length());
        assert(k_name@ =~= key_name());
        assert(k_piece_length@ =~= key_piece_length());
        assert(k_pieces@ =~= key_pieces());
        let announce = match get_bytes(v, k_announce.as_slice()) {
            Some(a) => a,
            None => {
                return Err(MetainfoError::InvalidMetainfo);
            },
        };
        let info = match get(v, k_info.as_slice()) {
            Some(i) => i,
            None => {
                return Err(MetainfoError::InvalidMetainfo);
            },
        };
        let length = get_int(info, k_length.as_slice());
        let name = get_bytes(info, k_name.as_slice());
        let plength = get_int(info, k_piece_length.as_slice());
        let pieces = get_bytes(info, k_pieces.as_slice());
        let (length, name, plength, pieces) = match (length, name, plength, pieces) {
            (Some(l), Some(n), Some(p), Some(h)) => (l, n, p, h),
            _ => {
                return Err(MetainfoError::InvalidMetainfo);
            },
        };
        if length < 0 || plength <= 0 || length as u64 > usize::MAX as u64 || plength as u64 > usize::MAX as u64 {
            return Err(MetainfoError::InvalidMetainfo);
        }
        if pieces.len() % 20 != 0 {
            return Err(MetainfoError::InvalidPiecesField);
        }
        let length = length as usize;
        let plength = plength as usize;
        let count: u128 = (length as u128 + plength as u128 - 1) / plength as u128;
        if (pieces.len() / 20) as u128 != count {
            return Err(MetainfoError::InvalidMetainfo);
        }
        let hashes = chunk_hashes(pieces.as_slice());
        Ok(Torrent {
            announce: slice_to_vec(announce.as_slice()),
            info: Info { length, name: slice_to_vec(name.as_slice()), plength, pieces: hashes },
        })
    }
}

/// The info hash: the SHA-1 digest of the `info` dictionary's encoding, as
/// it stands in the decoded file. `None` when there is no `info` entry.
pub fn info_hash(root: &Value) -> (r: Option<[u8; 20]>)
    ensures
        r is None <==> field(root@, key_info()) is None,
        r matches Some(h) ==> h@ == sha1_of(enc(field(root@, key_info())->Some_0)),
{
    let k_info: [u8; 4] = [105, 110, 102, 111];
    assert(k_info@ =~= key_info());
    match get(root, k_info.as_slice()) {
        None => None,
        Some(info) => {
            let bytes = crate::bencode::encode(info);
            Some(sha1_digest(bytes.as_slice()))
        },
    }
}

/// The info hash is a function of the metainfo bytes: any two decodings of
/// the same bytes hold the same `info` dictionary, so hashing it from
/// either gives the same 20 bytes.
pub proof fn lemma_info_hash_stable(s: Seq<u8>, v1: BValue, v2: BValue)
    requires
        prefix_at(s, 0, enc(v1)),
        prefix_at(s, 0, enc(v2)),
    ensures
        field(v1, key_info()) == field(v2, key_info()),
        field(v1, key_info()) is Some ==> sha1_of(enc(field(v1, key_info())->Some_0)) == sha1_of(
            enc(field(v2, key_info())->Some_0),
        ),
{
    lemma_enc_unique(v1, v2, s);
}

} // verus!
