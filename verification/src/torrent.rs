//! The metainfo model: a torrent's announce URL and info dictionary, parsed
//! from a bencoded stream, and the 20-byte content identifier derived from
//! the canonical re-encoding of the info dictionary alone.

use crate::bencode::{
    clone_bytes, dict_get, dict_lookup, spec_encode, view_entries, view_list, BValue, BencodeError,
    BencodeValue,
};
use crate::digest::{sha1_digest, sha1_of};
use crate::hashes::{concat_records, Hashes};
use vstd::prelude::*;

verus! {

/// One file of a multi-file layout: its byte length and its path segments,
/// the last of which is the file name.
#[derive(Debug, Clone)]
pub struct File {
    pub length: usize,
    pub path: Vec<Vec<u8>>,
}

/// Exactly one of the two layouts is present: a single file with its length,
/// or a directory tree of files.
#[derive(Debug, Clone)]
pub enum Keys {
    SingleFile { length: usize },
    MultiFile { files: Vec<File> },
}

/// The info dictionary: suggested name, piece size, piece hashes, layout.
#[derive(Debug, Clone)]
pub struct Info {
    pub name: Vec<u8>,
    pub plength: usize,
    pub pieces: Hashes,
    pub key: Keys,
}

/// A parsed torrent: tracker URL and info dictionary.
#[derive(Debug, Clone)]
pub struct Torrent {
    pub announce: Vec<u8>,
    pub info: Info,
}

/// The distinct ways a metainfo stream can be rejected.
#[derive(Clone, Copy, Debug, PartialEq, Eq, Structural)]
pub enum TorrentError {
    /// The stream is not well-formed bencode.
    Bencode(BencodeError),
    /// The top-level value is not a dictionary.
    NotADictionary,
    /// `announce` is absent or not a byte string.
    MalformedAnnounce,
    /// `info` is absent or not a dictionary.
    MalformedInfo,
    /// `name` is absent or not a byte string.
    MalformedName,
    /// `piece length` is absent, not an integer, or out of range.
    MalformedPieceLength,
    /// `pieces` is absent or not a byte string.
    MalformedPieces,
    /// The `pieces` string length is not a multiple of 20.
    InvalidPiecesLength,
    /// `length` is present but not an in-range integer.
    MalformedLength,
    /// `files` is present but not a well-formed file list.
    MalformedFiles,
    /// `length` and `files` are both present, or both absent.
    StructuralError,
}

pub open spec fn key_announce() -> Seq<u8> {
    seq![97u8, 110, 110, 111, 117, 110, 99, 101]
}

pub open spec fn key_info() -> Seq<u8> {
    seq![105u8, 110, 102, 111]
}

pub open spec fn key_length() -> Seq<u8> {
    seq![108u8, 101, 110, 103, 116, 104]
}

pub open spec fn key_name() -> Seq<u8> {
    seq![110u8, 97, 109, 101]
}

pub open spec fn key_piece_length() -> Seq<u8> {
    seq![112u8, 105, 101, 99, 101, 32, 108, 101, 110, 103, 116, 104]
}

pub open spec fn key_pieces() -> Seq<u8> {
    seq![112u8, 105, 101, 99, 101, 115]
}

pub open spec fn key_files() -> Seq<u8> {
    seq![102u8, 105, 108, 101, 115]
}

pub open spec fn key_path() -> Seq<u8> {
    seq![112u8, 97, 116, 104]
}

fn key_announce_exec() -> (r: Vec<u8>)
    ensures
        r@ == key_announce(),
{
    let mut v: Vec<u8> = Vec::new();
    v.push(97);
    v.push(110);
    v.push(110);
    v.push(111);
    v.push(117);
    v.push(110);
    v.push(99);
    v.push(101);
    proof {
        assert(v@ =~= key_announce());
    }
    v
}

fn key_info_exec() -> (r: Vec<u8>)
    ensures
        r@ == key_info(),
{
    let mut v: Vec<u8> = Vec::new();
    v.push(105);
    v.push(110);
    v.push(102);
    v.push(111);
    proof {
        assert(v@ =~= key_info());
    }
    v
}

fn key_length_exec() -> (r: Vec<u8>)
    ensures
        r@ == key_length(),
{
    let mut v: Vec<u8> = Vec::new();
    v.push(108);
    v.push(101);
    v.push(110);
    v.push(103);
    v.push(116);
    v.push(104);
    proof {
        assert(v@ =~= key_length());
    }
    v
}

fn key_name_exec() -> (r: Vec<u8>)
    ensures
        r@ == key_name(),
{
    let mut v: Vec<u8> = Vec::new();
    v.push(110);
    v.push(97);
    v.push(109);
    v.push(101);
    proof {
        assert(v@ =~= key_name());
    }
    v
}

fn key_piece_length_exec() -> (r: Vec<u8>)
    ensures
        r@ == key_piece_length(),
{
    let mut v: Vec<u8> = Vec::new();
    v.push(112);
    v.push(105);
    v.push(101);
    v.push(99);
    v.push(101);
    v.push(32);
    v.push(108);
    v.push(101);
    v.push(110);
    v.push(103);
    v.push(116);
    v.push(104);
    proof {
        assert(v@ =~= key_piece_length());
    }
    v
}

fn key_pieces_exec() -> (r: Vec<u8>)
    ensures
        r@ == key_pieces(),
{
    let mut v: Vec<u8> = Vec::new();
    v.push(112);
    v.push(105);
    v.push(101);
    v.push(99);
    v.push(101);
    v.push(115);
    proof {
        assert(v@ =~= key_pieces());
    }
    v
}

fn key_files_exec() -> (r: Vec<u8>)
    ensures
        r@ == key_files(),
{
    let mut v: Vec<u8> = Vec::new();
    v.push(102);
    v.push(105);
    v.push(108);
    v.push(101);
    v.push(115);
    proof {
        assert(v@ =~= key_files());
    }
    v
}

fn key_path_exec() -> (r: Vec<u8>)
    ensures
        r@ == key_path(),
{
    let mut v: Vec<u8> = Vec::new();
    v.push(112);
    v.push(97);
    v.push(116);
    v.push(104);
    proof {
        assert(v@ =~= key_path());
    }
    v
}

/// What one file entry means, mathematically.
pub struct FileModel {
    pub length: int,
    pub path: Seq<Seq<u8>>,
}

/// What the layout means: a single length, or a sequence of files.
pub enum LayoutModel {
    Single { length: int },
    Multi { files: Seq<FileModel> },
}

/// What an info dictionary means.
pub struct InfoModel {
    pub name: Seq<u8>,
    pub plength: int,
    pub pieces: Seq<u8>,
    pub layout: LayoutModel,
}

/// What a whole metainfo stream means.
pub struct TorrentModel {
    pub announce: Seq<u8>,
    pub info: InfoModel,
}

/// Path segments of a file entry; every item must be a byte string.
pub open spec fn path_of(items: Seq<BValue>) -> Option<Seq<Seq<u8>>>
    decreases items.len(),
{
    if items.len() == 0 {
        Some(Seq::empty())
    } else {
        match items[0] {
            BValue::Bytes(b) => match path_of(items.skip(1)) {
                Some(rest) => Some(seq![b] + rest),
                None => None,
            },
            _ => None,
        }
    }
}

/// One file entry: a dictionary with an in-range `length` and a `path` list
/// of byte strings.
pub open spec fn file_of(v: BValue) -> Option<FileModel> {
    match v {
        BValue::Dict(fes) => match (dict_lookup(fes, key_length()), dict_lookup(fes, key_path())) {
            (Some(BValue::Int(l)), Some(BValue::List(ps))) => if 0 <= l <= usize::MAX as int {
                match path_of(ps) {
                    Some(path) => Some(FileModel { length: l, path }),
                    None => None,
                }
            } else {
                None
            },
            _ => None,
        },
        _ => None,
    }
}

pub open spec fn files_of(items: Seq<BValue>) -> Option<Seq<FileModel>>
    decreases items.len(),
{
    if items.len() == 0 {
        Some(Seq::empty())
    } else {
        match file_of(items[0]) {
            Some(f) => match files_of(items.skip(1)) {
                Some(rest) => Some(seq![f] + rest),
                None => None,
            },
            None => None,
        }
    }
}

/// Exactly one of `length` and `files` must be present: both or neither is
/// a structural error.
pub open spec fn layout_of(ies: Seq<(Seq<u8>, BValue)>) -> Result<LayoutModel, TorrentError> {
    match (dict_lookup(ies, key_length()), dict_lookup(ies, key_files())) {
        (Some(lv), None) => match lv {
            BValue::Int(l) => if 0 <= l <= usize::MAX as int {
                Ok(LayoutModel::Single { length: l })
            } else {
                Err(TorrentError::MalformedLength)
            },
            _ => Err(TorrentError::MalformedLength),
        },
        (None, Some(fv)) => match fv {
            BValue::List(items) => match files_of(items) {
                Some(fs) => Ok(LayoutModel::Multi { files: fs }),
                None => Err(TorrentError::MalformedFiles),
            },
            _ => Err(TorrentError::MalformedFiles),
        },
        _ => Err(TorrentError::StructuralError),
    }
}

pub open spec fn info_of(ies: Seq<(Seq<u8>, BValue)>) -> Result<InfoModel, TorrentError> {
    match dict_lookup(ies, key_name()) {
        Some(BValue::Bytes(name)) => match dict_lookup(ies, key_piece_length()) {
            Some(BValue::Int(pl)) => if 0 <= pl <= usize::MAX as int {
                match dict_lookup(ies, key_pieces()) {
                    Some(BValue::Bytes(pb)) => if pb.len() % 20 == 0 {
                        match layout_of(ies) {
                            Ok(layout) => Ok(InfoModel { name, plength: pl, pieces: pb, layout }),
                            Err(e) => Err(e),
                        }
                    } else {
                        Err(TorrentError::InvalidPiecesLength)
                    },
                    _ => Err(TorrentError::MalformedPieces),
                }
            } else {
                Err(TorrentError::MalformedPieceLength)
            },
            _ => Err(TorrentError::MalformedPieceLength),
        },
        _ => Err(TorrentError::MalformedName),
    }
}

/// The meaning of a whole metainfo stream: a bencoded dictionary with an
/// `announce` byte string and an `info` dictionary; trailing input after the
/// top-level value is ignored.
pub open spec fn torrent_of(s: Seq<u8>) -> Result<TorrentModel, TorrentError> {
    match crate::bencode::spec_decode(s) {
        Err(e) => Err(TorrentError::Bencode(e)),
        Ok((v, _rest)) => match v {
            BValue::Dict(es) => match dict_lookup(es, key_announce()) {
                Some(BValue::Bytes(a)) => match dict_lookup(es, key_info()) {
                    Some(BValue::Dict(ies)) => match info_of(ies) {
                        Ok(im) => Ok(TorrentModel { announce: a, info: im }),
                        Err(e) => Err(e),
                    },
                    _ => Err(TorrentError::MalformedInfo),
                },
                _ => Err(TorrentError::MalformedAnnounce),
            },
            _ => Err(TorrentError::NotADictionary),
        },
    }
}

pub open spec fn file_model(f: File) -> FileModel {
    FileModel { length: f.length as int, path: Seq::new(f.path@.len(), |i: int| f.path@[i]@) }
}

pub open spec fn files_model(fs: Seq<File>) -> Seq<FileModel> {
    Seq::new(fs.len(), |i: int| file_model(fs[i]))
}

pub open spec fn layout_model(k: Keys) -> LayoutModel {
    match k {
        Keys::SingleFile { length } => LayoutModel::Single { length: length as int },
        Keys::MultiFile { files } => LayoutModel::Multi { files: files_model(files@) },
    }
}

/// What a parsed torrent stands for.
pub open spec fn torrent_model(t: Torrent) -> TorrentModel {
    TorrentModel {
        announce: t.announce@,
        info: InfoModel {
            name: t.info.name@,
            plength: t.info.plength as int,
            pieces: concat_records(t.info.pieces@),
            layout: layout_model(t.info.key),
        },
    }
}

fn parse_paths(items: &Vec<BencodeValue>, i: usize) -> (r: Result<Vec<Vec<u8>>, TorrentError>)
    requires
        i <= items.len(),
    ensures
        match r {
            Ok(ps) => path_of(view_list(items@).skip(i as int)) == Some(
                Seq::new(ps@.len(), |q: int| ps@[q]@),
            ),
            Err(e) => e == TorrentError::MalformedFiles && path_of(view_list(items@).skip(i as int))
                == None::<Seq<Seq<u8>>>,
        },
    decreases items.len() - i,
{
    proof {
        crate::bencode::lemma_view_list_index(items@);
    }
    let ghost tail = view_list(items@).skip(i as int);
    if i == items.len() {
        let r: Vec<Vec<u8>> = Vec::new();
        proof {
            assert(tail =~= Seq::<BValue>::empty());
            assert(Seq::new(r@.len(), |q: int| r@[q]@) =~= Seq::<Seq<u8>>::empty());
        }
        return Ok(r);
    }
    proof {
        assert(tail[0] == view_list(items@)[i as int]);
        assert(tail.skip(1) =~= view_list(items@).skip(i as int + 1));
    }
    match &items[i] {
        BencodeValue::ByteString(b) => {
            let seg = clone_bytes(b);
            match parse_paths(items, i + 1) {
                Ok(rest) => {
                    let mut rest = rest;
                    rest.insert(0, seg);
                    proof {
                        let m = Seq::new(rest@.len(), |q: int| rest@[q]@);
                        assert(m =~= seq![b@] + Seq::new(
                            rest@.skip(1).len(),
                            |q: int| rest@.skip(1)[q]@,
                        ));
                    }
                    Ok(rest)
                },
                Err(e) => Err(e),
            }
        },
        _ => Err(TorrentError::MalformedFiles),
    }
}

fn parse_file(v: &BencodeValue) -> (r: Result<File, TorrentError>)
    ensures
        match r {
            Ok(f) => file_of(v@) == Some(file_model(f)),
            Err(e) => e == TorrentError::MalformedFiles && file_of(v@) == None::<FileModel>,
        },
{
    let fes = match v {
        BencodeValue::Dictionary(fes) => fes,
        _ => {
            return Err(TorrentError::MalformedFiles);
        },
    };
    let k_length = key_length_exec();
    let l: i64 = match dict_get(fes, &k_length) {
        Some(BencodeValue::Integer(l)) => *l,
        _ => {
            return Err(TorrentError::MalformedFiles);
        },
    };
    let k_path = key_path_exec();
    let ps = match dict_get(fes, &k_path) {
        Some(BencodeValue::List(ps)) => ps,
        _ => {
            return Err(TorrentError::MalformedFiles);
        },
    };
    if l < 0 || (l as u64) > (usize::MAX as u64) {
        return Err(TorrentError::MalformedFiles);
    }
    proof {
        assert(view_list(ps@).skip(0) =~= view_list(ps@));
    }
    match parse_paths(ps, 0) {
        Ok(path) => Ok(File { length: l as usize, path }),
        Err(e) => Err(e),
    }
}

fn parse_files(items: &Vec<BencodeValue>, i: usize) -> (r: Result<Vec<File>, TorrentError>)
    requires
        i <= items.len(),
    ensures
        match r {
            Ok(fs) => files_of(view_list(items@).skip(i as int)) == Some(files_model(fs@)),
            Err(e) => e == TorrentError::MalformedFiles && files_of(
                view_list(items@).skip(i as int),
            ) == None::<Seq<FileModel>>,
        },
    decreases items.len() - i,
{
    proof {
        crate::bencode::lemma_view_list_index(items@);
    }
    let ghost tail = view_list(items@).skip(i as int);
    if i == items.len() {
        let r: Vec<File> = Vec::new();
        proof {
            assert(tail =~= Seq::<BValue>::empty());
            assert(files_model(r@) =~= Seq::<FileModel>::empty());
        }
        return Ok(r);
    }
    proof {
        assert(tail[0] == view_list(items@)[i as int]);
        assert(tail.skip(1) =~= view_list(items@).skip(i as int + 1));
    }
    let f = match parse_file(&items[i]) {
        Ok(f) => f,
        Err(e) => {
            return Err(e);
        },
    };
    match parse_files(items, i + 1) {
        Ok(rest) => {
            let mut rest = rest;
            rest.insert(0, f);
            proof {
                assert(files_model(rest@) =~= seq![file_model(f)] + files_model(rest@.skip(1)));
            }
            Ok(rest)
        },
        Err(e) => Err(e),
    }
}

/// All lengths fit a bencode integer: a machine limit the 64-bit integer
/// grammar forces on re-encoding.
pub open spec fn info_in_range(info: Info) -> bool {
    info.plength as int <= i64::MAX as int && match info.key {
        Keys::SingleFile { length } => length as int <= i64::MAX as int,
        Keys::MultiFile { files } => forall|i: int|
            0 <= i < files@.len() ==> (#[trigger] files@[i]).length as int <= i64::MAX as int,
    }
}

pub open spec fn path_values(path: Seq<Vec<u8>>) -> Seq<BValue> {
    Seq::new(path.len(), |i: int| BValue::Bytes(path[i]@))
}

pub open spec fn file_value(f: File) -> BValue {
    BValue::Dict(
        seq![
            (key_length(), BValue::Int(f.length as int)),
            (key_path(), BValue::List(path_values(f.path@))),
        ],
    )
}

pub open spec fn files_values(fs: Seq<File>) -> Seq<BValue> {
    Seq::new(fs.len(), |i: int| file_value(fs[i]))
}

/// The bencode value the info dictionary re-encodes to, keys and all.
pub open spec fn spec_info_entries(info: Info) -> Seq<(Seq<u8>, BValue)> {
    match info.key {
        Keys::SingleFile { length } => seq![
            (key_length(), BValue::Int(length as int)),
            (key_name(), BValue::Bytes(info.name@)),
            (key_piece_length(), BValue::Int(info.plength as int)),
            (key_pieces(), BValue::Bytes(concat_records(info.pieces@))),
        ],
        Keys::MultiFile { files } => seq![
            (key_files(), BValue::List(files_values(files@))),
            (key_name(), BValue::Bytes(info.name@)),
            (key_piece_length(), BValue::Int(info.plength as int)),
            (key_pieces(), BValue::Bytes(concat_records(info.pieces@))),
        ],
    }
}

/// The content identifier: the SHA-1 digest of the canonical bencode
/// encoding of the info dictionary alone.
pub open spec fn spec_info_hash(info: Info) -> Seq<u8> {
    sha1_of(spec_encode(BValue::Dict(spec_info_entries(info))))
}

/// Content identifier determinism: the identifier is a function of the info
/// dictionary's meaning alone, so computing it twice from equal info
/// dictionaries yields the same 20 bytes.
pub proof fn lemma_info_hash_deterministic(a: Info, b: Info)
    requires
        spec_info_entries(a) == spec_info_entries(b),
    ensures
        spec_info_hash(a) == spec_info_hash(b),
{
}

fn path_to_bencode(path: &Vec<Vec<u8>>) -> (r: BencodeValue)
    ensures
        r@ == BValue::List(path_values(path@)),
{
    let mut items: Vec<BencodeValue> = Vec::new();
    let mut k: usize = 0;
    while k < path.len()
        invariant
            k <= path.len(),
            items@.len() == k,
            forall|i: int|
                0 <= i < k ==> crate::bencode::bval_view(#[trigger] items@[i]) == BValue::Bytes(
                    path@[i]@,
                ),
        decreases path.len() - k,
    {
        items.push(BencodeValue::ByteString(clone_bytes(&path[k])));
        k = k + 1;
    }
    proof {
        crate::bencode::lemma_view_list_index(items@);
        assert(view_list(items@) =~= path_values(path@));
    }
    BencodeValue::List(items)
}

fn file_to_bencode(f: &File) -> (r: BencodeValue)
    requires
        f.length as int <= i64::MAX as int,
    ensures
        r@ == file_value(*f),
{
    let mut entries: Vec<(Vec<u8>, BencodeValue)> = Vec::new();
    entries.push((key_length_exec(), BencodeValue::Integer(f.length as i64)));
    entries.push((key_path_exec(), path_to_bencode(&f.path)));
    proof {
        crate::bencode::lemma_view_entries_index(entries@);
        assert(view_entries(entries@) =~= seq![
            (key_length(), BValue::Int(f.length as int)),
            (key_path(), BValue::List(path_values(f.path@))),
        ]);
    }
    BencodeValue::Dictionary(entries)
}

fn files_to_bencode(files: &Vec<File>) -> (r: BencodeValue)
    requires
        forall|i: int|
            0 <= i < files@.len() ==> (#[trigger] files@[i]).length as int <= i64::MAX as int,
    ensures
        r@ == BValue::List(files_values(files@)),
{
    let mut items: Vec<BencodeValue> = Vec::new();
    let mut k: usize = 0;
    while k < files.len()
        invariant
            k <= files.len(),
            items@.len() == k,
            forall|i: int|
                0 <= i < files@.len() ==> (#[trigger] files@[i]).length as int <= i64::MAX as int,
            forall|i: int|
                0 <= i < k ==> crate::bencode::bval_view(#[trigger] items@[i]) == file_value(
                    files@[i],
                ),
        decreases files.len() - k,
    {
        items.push(file_to_bencode(&files[k]));
        k = k + 1;
    }
    proof {
        crate::bencode::lemma_view_list_index(items@);
        assert(view_list(items@) =~= files_values(files@));
    }
    BencodeValue::List(items)
}

impl Info {
    fn to_bencode(&self) -> (r: BencodeValue)
        requires
            info_in_range(*self),
        ensures
            r@ == BValue::Dict(spec_info_entries(*self)),
    {
        let pieces_bytes = self.pieces.to_bytes();
        let mut entries: Vec<(Vec<u8>, BencodeValue)> = Vec::new();
        match &self.key {
            Keys::SingleFile { length } => {
                entries.push((key_length_exec(), BencodeValue::Integer(*length as i64)));
            },
            Keys::MultiFile { files } => {
                entries.push((key_files_exec(), files_to_bencode(files)));
            },
        }
        entries.push((key_name_exec(), BencodeValue::ByteString(clone_bytes(&self.name))));
        entries.push((key_piece_length_exec(), BencodeValue::Integer(self.plength as i64)));
        entries.push((key_pieces_exec(), BencodeValue::ByteString(pieces_bytes)));
        proof {
            crate::bencode::lemma_view_entries_index(entries@);
            assert(view_entries(entries@) =~= spec_info_entries(*self));
        }
        BencodeValue::Dictionary(entries)
    }
}

impl Torrent {
    /// Computes the content identifier: re-encode only the info dictionary
    /// in canonical bencode form, then take its 20-byte SHA-1 digest.
    pub fn info_hash(&self) -> (r: [u8; 20])
        requires
            info_in_range(self.info),
        ensures
            r@ == spec_info_hash(self.info),
    {
        let bv = self.info.to_bencode();
        let enc = bv.encode();
        sha1_digest(&enc)
    }

    /// Parses a metainfo byte stream. Succeeds exactly on streams whose
    /// meaning `torrent_of` gives, and returns exactly that meaning; each
    /// malformed stream is rejected with the distinct error `torrent_of`
    /// assigns to it.
    pub fn parse(bytes: &Vec<u8>) -> (r: Result<Torrent, TorrentError>)
        ensures
            match r {
                Ok(t) => torrent_of(bytes@) == Ok::<TorrentModel, TorrentError>(torrent_model(t)),
                Err(e) => torrent_of(bytes@) == Err::<TorrentModel, TorrentError>(e),
            },
    {
        let decoded = match BencodeValue::decode(bytes) {
            Ok(p) => p.0,
            Err(e) => {
                return Err(TorrentError::Bencode(e));
            },
        };
        let entries = match &decoded {
            BencodeValue::Dictionary(es) => es,
            _ => {
                return Err(TorrentError::NotADictionary);
            },
        };
        let k_announce = key_announce_exec();
        let announce = match dict_get(entries, &k_announce) {
            Some(BencodeValue::ByteString(a)) => clone_bytes(a),
            _ => {
                return Err(TorrentError::MalformedAnnounce);
            },
        };
        let k_info = key_info_exec();
        let info_entries = match dict_get(entries, &k_info) {
            Some(BencodeValue::Dictionary(ies)) => ies,
            _ => {
                return Err(TorrentError::MalformedInfo);
            },
        };
        let k_name = key_name_exec();
        let name = match dict_get(info_entries, &k_name) {
            Some(BencodeValue::ByteString(nm)) => clone_bytes(nm),
            _ => {
                return Err(TorrentError::MalformedName);
            },
        };
        let k_piece_length = key_piece_length_exec();
        let plength: usize = match dict_get(info_entries, &k_piece_length) {
            Some(BencodeValue::Integer(pl)) => {
                let pl = *pl;
                if pl < 0 || (pl as u64) > (usize::MAX as u64) {
                    return Err(TorrentError::MalformedPieceLength);
                }
                pl as usize
            },
            _ => {
                return Err(TorrentError::MalformedPieceLength);
            },
        };
        let k_pieces = key_pieces_exec();
        let pieces = match dict_get(info_entries, &k_pieces) {
            Some(BencodeValue::ByteString(pb)) => match Hashes::from_bytes(pb) {
                Ok(h) => h,
                Err(_) => {
                    return Err(TorrentError::InvalidPiecesLength);
                },
            },
            _ => {
                return Err(TorrentError::MalformedPieces);
            },
        };
        let k_length = key_length_exec();
        let k_files = key_files_exec();
        let lv = dict_get(info_entries, &k_length);
        let fv = dict_get(info_entries, &k_files);
        let key = match (lv, fv) {
            (Some(l), None) => match l {
                BencodeValue::Integer(l0) => {
                    let l0 = *l0;
                    if l0 < 0 || (l0 as u64) > (usize::MAX as u64) {
                        return Err(TorrentError::MalformedLength);
                    }
                    Keys::SingleFile { length: l0 as usize }
                },
                _ => {
                    return Err(TorrentError::MalformedLength);
                },
            },
            (None, Some(f)) => match f {
                BencodeValue::List(items) => {
                    proof {
                        assert(view_list(items@).skip(0) =~= view_list(items@));
                    }
                    match parse_files(items, 0) {
                        Ok(files) => Keys::MultiFile { files },
                        Err(e) => {
                            return Err(e);
                        },
                    }
                },
                _ => {
                    return Err(TorrentError::MalformedFiles);
                },
            },
            _ => {
                return Err(TorrentError::StructuralError);
            },
        };
        Ok(Torrent { announce, info: Info { name, plength, pieces, key } })
    }
}

} // verus!
