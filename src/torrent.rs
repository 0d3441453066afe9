use vstd::prelude::*;
use vstd::utf8::valid_utf8;

use crate::bencode::{
    dec, enc, encode, dict_get, entries_model, items_model, lookup, value_model, Bencode, BencodeValue,
    DecodeError, decode_bencoded_value,
};
use crate::keys::{
    announce_key, files_key, info_key, key_announce, key_files, key_info, key_length, key_name,
    key_path, key_piece_length, key_pieces, length_key, name_key, path_key, piece_length_key,
    pieces_key,
};

use crate::text::{text_bytes, utf8_bytes, utf8_text};

verus! {

/// A metainfo file.
pub struct Torrent {
    /// The URL of the tracker.
    pub announce: String,
    pub info: Info,
}

pub struct Info {
    /// The suggested name to save the file (or directory) as.
    pub name: String,
    /// The number of bytes in each piece; every piece but the last has this size.
    pub plength: usize,
    /// The hash of each piece, in piece order.
    pub pieces: Hashes,
    /// Either a single file length or a list of files.
    pub keys: Keys,
}

/// There is a key `length` or a key `files`, but not both or neither.
pub enum Keys {
    /// A single file of `length` bytes.
    SingleFile { length: usize },
    /// A set of files, treated as their concatenation in list order.
    MultiFile { files: Vec<File> },
}

pub struct File {
    /// The length of the file, in bytes.
    pub length: usize,
    /// Subdirectory names for this file, the last of which is the file name.
    pub path: Vec<String>,
}

/// The 20-byte piece hashes.
pub struct Hashes(pub Vec<[u8; 20]>);

pub struct FileModel {
    pub length: int,
    pub path: Seq<Seq<u8>>,
}

pub enum LayoutModel {
    Single(int),
    Multi(Seq<FileModel>),
}

pub struct InfoModel {
    pub name: Seq<u8>,
    pub plength: int,
    pub pieces: Seq<Seq<u8>>,
    pub layout: LayoutModel,
}

pub struct TorrentModel {
    pub announce: Seq<u8>,
    pub info: InfoModel,
}

/// Sizes fit a bencoded integer.
pub open spec fn file_ok(f: FileModel) -> bool {
    0 <= f.length <= i64::MAX
}

/// The piece length is positive and every size fits a bencoded integer.
pub open spec fn info_ok(i: InfoModel) -> bool {
    &&& 0 < i.plength <= i64::MAX
    &&& match i.layout {
        LayoutModel::Single(n) => 0 <= n <= i64::MAX,
        LayoutModel::Multi(fs) => forall|k: int| 0 <= k < fs.len() ==> file_ok(#[trigger] fs[k]),
    }
    &&& forall|k: int| 0 <= k < i.pieces.len() ==> (#[trigger] i.pieces[k]).len() == 20
}

impl View for File {
    type V = FileModel;

    open spec fn view(&self) -> FileModel {
        FileModel { length: self.length as int, path: self.path@.map_values(|t: String| text_bytes(t)) }
    }
}

impl View for Keys {
    type V = LayoutModel;

    open spec fn view(&self) -> LayoutModel {
        match self {
            Keys::SingleFile { length } => LayoutModel::Single(*length as int),
            Keys::MultiFile { files } => LayoutModel::Multi(files@.map_values(|f: File| f@)),
        }
    }
}

impl View for Hashes {
    type V = Seq<Seq<u8>>;

    open spec fn view(&self) -> Seq<Seq<u8>> {
        self.0@.map_values(|h: [u8; 20]| h@)
    }
}

impl View for Info {
    type V = InfoModel;

    open spec fn view(&self) -> InfoModel {
        InfoModel {
            name: text_bytes(self.name),
            plength: self.plength as int,
            pieces: self.pieces@,
            layout: self.keys@,
        }
    }
}

impl View for Torrent {
    type V = TorrentModel;

    open spec fn view(&self) -> TorrentModel {
        TorrentModel { announce: text_bytes(self.announce), info: self.info@ }
    }
}

/// The text stored under `k`: a byte string that is valid UTF-8.
pub open spec fn text_field(es: Seq<(Seq<u8>, Bencode)>, k: Seq<u8>) -> Option<Seq<u8>> {
    match lookup(es, k) {
        Some(Bencode::Str(b)) => if valid_utf8(b) {
            Some(b)
        } else {
            None
        },
        _ => None,
    }
}

/// The size stored under `k`: an integer that fits `usize`.
pub open spec fn size_field(es: Seq<(Seq<u8>, Bencode)>, k: Seq<u8>) -> Option<int> {
    match lookup(es, k) {
        Some(Bencode::Int(n)) => if 0 <= n <= i64::MAX && n <= usize::MAX {
            Some(n)
        } else {
            None
        },
        _ => None,
    }
}

/// The segments of a file path: a list of texts.
pub open spec fn path_model(items: Seq<Bencode>) -> Option<Seq<Seq<u8>>>
    decreases items.len(),
{
    if items.len() == 0 {
        Some(Seq::empty())
    } else {
        match (path_model(items.drop_last()), items.last()) {
            (Some(p), Bencode::Str(b)) => if valid_utf8(b) {
                Some(p.push(b))
            } else {
                None
            },
            _ => None,
        }
    }
}

/// One entry of `files`: a dictionary with a size `length` and a list `path`.
pub open spec fn file_model(v: Bencode) -> Option<FileModel> {
    match v {
        Bencode::Dict(es) => match (size_field(es, key_length()), lookup(es, key_path())) {
            (Some(n), Some(Bencode::List(items))) => match path_model(items) {
                Some(p) => Some(FileModel { length: n, path: p }),
                None => None,
            },
            _ => None,
        },
        _ => None,
    }
}

pub open spec fn files_model(items: Seq<Bencode>) -> Option<Seq<FileModel>>
    decreases items.len(),
{
    if items.len() == 0 {
        Some(Seq::empty())
    } else {
        match (files_model(items.drop_last()), file_model(items.last())) {
            (Some(fs), Some(f)) => Some(fs.push(f)),
            _ => None,
        }
    }
}

/// Exactly one of `length` and `files` is present.
pub open spec fn layout_model(es: Seq<(Seq<u8>, Bencode)>) -> Option<LayoutModel> {
    match (lookup(es, key_length()), lookup(es, key_files())) {
        (Some(_), None) => match size_field(es, key_length()) {
            Some(n) => Some(LayoutModel::Single(n)),
            None => None,
        },
        (None, Some(Bencode::List(items))) => match files_model(items) {
            Some(fs) => Some(LayoutModel::Multi(fs)),
            None => None,
        },
        _ => None,
    }
}

/// Consecutive 20-byte hashes.
pub open spec fn hashes_model(b: Seq<u8>) -> Seq<Seq<u8>> {
    Seq::new((b.len() / 20) as nat, |i: int| b.subrange(20 * i, 20 * i + 20))
}

pub open spec fn info_model(v: Bencode) -> Option<InfoModel> {
    match v {
        Bencode::Dict(es) => match (
            text_field(es, key_name()),
            size_field(es, key_piece_length()),
            lookup(es, key_pieces()),
            layout_model(es),
        ) {
            (Some(name), Some(pl), Some(Bencode::Str(pc)), Some(layout)) => if pl > 0 && pc.len()
                % 20 == 0 {
                Some(InfoModel { name, plength: pl, pieces: hashes_model(pc), layout })
            } else {
                None
            },
            _ => None,
        },
        _ => None,
    }
}

/// What a decoded metainfo value describes, if it is well formed.
pub open spec fn torrent_model(v: Bencode) -> Option<TorrentModel> {
    match v {
        Bencode::Dict(es) => match (text_field(es, key_announce()), lookup(es, key_info())) {
            (Some(a), Some(iv)) => match info_model(iv) {
                Some(i) => Some(TorrentModel { announce: a, info: i }),
                None => None,
            },
            _ => None,
        },
        _ => None,
    }
}

fn get_text(es: &Vec<(Vec<u8>, BencodeValue)>, k: &[u8]) -> (r: Option<String>)
    ensures
        match r {
            Some(t) => text_field(entries_model(es@), k@) == Some(text_bytes(t)),
            None => text_field(entries_model(es@), k@) is None,
        },
{
    match dict_get(es, k) {
        Some(BencodeValue::Bytes(b)) => utf8_text(b.as_slice()),
        _ => None,
    }
}

fn get_size(es: &Vec<(Vec<u8>, BencodeValue)>, k: &[u8]) -> (r: Option<usize>)
    ensures
        match r {
            Some(n) => size_field(entries_model(es@), k@) == Some(n as int),
            None => size_field(entries_model(es@), k@) is None,
        },
{
    match dict_get(es, k) {
        Some(BencodeValue::Integer(n)) => {
            if *n >= 0 && (*n as u64) <= (usize::MAX as u64) {
                assert(*n as int <= i64::MAX);
                Some(*n as usize)
            } else {
                None
            }
        },
        _ => None,
    }
}


proof fn lemma_path_prefix(s: Seq<Bencode>, j: int)
    requires
        0 <= j <= s.len(),
        path_model(s.take(j)) is None,
    ensures
        path_model(s) is None,
    decreases s.len() - j,
{
    if j < s.len() {
        assert(s.take(j + 1).drop_last() =~= s.take(j));
        lemma_path_prefix(s, j + 1);
    } else {
        assert(s.take(j) =~= s);
    }
}

proof fn lemma_files_prefix(s: Seq<Bencode>, j: int)
    requires
        0 <= j <= s.len(),
        files_model(s.take(j)) is None,
    ensures
        files_model(s) is None,
    decreases s.len() - j,
{
    if j < s.len() {
        assert(s.take(j + 1).drop_last() =~= s.take(j));
        lemma_files_prefix(s, j + 1);
    } else {
        assert(s.take(j) =~= s);
    }
}

proof fn lemma_items_model_take(s: Seq<BencodeValue>, j: int)
    requires
        0 <= j <= s.len(),
    ensures
        items_model(s.take(j)) == items_model(s).take(j),
        items_model(s).len() == s.len(),
{
    crate::bencode::lemma_items_model_index(s.take(j));
    crate::bencode::lemma_items_model_index(s);
    assert forall|k: int| 0 <= k < j implies items_model(s.take(j))[k] == items_model(s).take(j)[k] by {
        assert(s.take(j)[k] == s[k]);
    }
    assert(items_model(s.take(j)) =~= items_model(s).take(j));
}

proof fn lemma_files_ok(items: Seq<Bencode>)
    requires
        files_model(items) is Some,
    ensures
        forall|k: int| 0 <= k < files_model(items)->0.len() ==> file_ok(#[trigger] files_model(items)->0[k]),
    decreases items.len(),
{
    if items.len() > 0 {
        lemma_files_ok(items.drop_last());
    }
}

proof fn lemma_info_ok(v: Bencode)
    requires
        info_model(v) is Some,
    ensures
        info_ok(info_model(v)->0),
{
    if let Bencode::Dict(es) = v {
        if let Some(Bencode::List(items)) = lookup(es, key_files()) {
            if files_model(items) is Some {
                lemma_files_ok(items);
            }
        }
    }
}

fn parse_path(items: &Vec<BencodeValue>) -> (r: Option<Vec<String>>)
    ensures
        match r {
            Some(p) => path_model(items_model(items@)) == Some(p@.map_values(|t: String| text_bytes(t))),
            None => path_model(items_model(items@)) is None,
        },
{
    let mut out: Vec<String> = Vec::new();
    let mut i: usize = 0;
    while i < items.len()
        invariant
            i <= items.len(),
            path_model(items_model(items@.take(i as int))) == Some(out@.map_values(|t: String| text_bytes(t))),
        decreases items.len() - i,
    {
        let ghost pre = items@.take(i as int);
        assert(items@.take(i + 1) =~= pre.push(items@[i as int]));
        proof {
            crate::bencode::lemma_items_model_push(pre, items@[i as int]);
        }
        match &items[i] {
            BencodeValue::Bytes(b) => {
                match utf8_text(b.as_slice()) {
                    Some(t) => {
                        let ghost before = out@;
                        let ghost tb = text_bytes(t);
                        out.push(t);
                        assert(out@.map_values(|t: String| text_bytes(t)) =~= before.map_values(|t: String| text_bytes(t)).push(tb));
                        assert(items_model(items@.take(i + 1)) == items_model(pre).push(value_model(items@[i as int])));
                        assert(items_model(items@.take(i + 1)).drop_last() =~= items_model(pre));
                        assert(items_model(items@.take(i + 1)).last() == Bencode::Str(b@));
                    },
                    None => {
                        proof {
                            lemma_items_model_take(items@, i + 1);
                            lemma_path_prefix(items_model(items@), i + 1);
                        }
                        return None;
                    },
                }
            },
            _ => {
                proof {
                    lemma_items_model_take(items@, i + 1);
                    lemma_path_prefix(items_model(items@), i + 1);
                }
                return None;
            },
        }
        i = i + 1;
    }
    assert(items@.take(items.len() as int) =~= items@);
    Some(out)
}

fn parse_file(v: &BencodeValue) -> (r: Option<File>)
    ensures
        match r {
            Some(f) => file_model(v@) == Some(f@),
            None => file_model(v@) is None,
        },
{
    match v {
        BencodeValue::Dict(es) => {
            let length = get_size(es, length_key().as_slice());
            let path = dict_get(es, path_key().as_slice());
            match (length, path) {
                (Some(n), Some(BencodeValue::List(items))) => match parse_path(items) {
                    Some(p) => Some(File { length: n, path: p }),
                    None => None,
                },
                _ => None,
            }
        },
        _ => None,
    }
}

fn parse_files(items: &Vec<BencodeValue>) -> (r: Option<Vec<File>>)
    ensures
        match r {
            Some(fs) => files_model(items_model(items@)) == Some(fs@.map_values(|f: File| f@)),
            None => files_model(items_model(items@)) is None,
        },
{
    let mut out: Vec<File> = Vec::new();
    let mut i: usize = 0;
    while i < items.len()
        invariant
            i <= items.len(),
            files_model(items_model(items@.take(i as int))) == Some(out@.map_values(|f: File| f@)),
        decreases items.len() - i,
    {
        let ghost pre = items@.take(i as int);
        assert(items@.take(i + 1) =~= pre.push(items@[i as int]));
        proof {
            crate::bencode::lemma_items_model_push(pre, items@[i as int]);
        }
        match parse_file(&items[i]) {
            Some(f) => {
                let ghost before = out@;
                let ghost fv = f@;
                out.push(f);
                assert(out@.map_values(|f: File| f@) =~= before.map_values(|f: File| f@).push(fv));
                assert(items_model(items@.take(i + 1)) == items_model(pre).push(value_model(items@[i as int])));
                assert(items_model(items@.take(i + 1)).drop_last() =~= items_model(pre));
            },
            None => {
                proof {
                    lemma_items_model_take(items@, i + 1);
                    lemma_files_prefix(items_model(items@), i + 1);
                }
                return None;
            },
        }
        i = i + 1;
    }
    assert(items@.take(items.len() as int) =~= items@);
    Some(out)
}

fn parse_keys(es: &Vec<(Vec<u8>, BencodeValue)>) -> (r: Option<Keys>)
    ensures
        match r {
            Some(k) => layout_model(entries_model(es@)) == Some(k@),
            None => layout_model(entries_model(es@)) is None,
        },
{
    let lk = length_key();
    let fk = files_key();
    let length = dict_get(es, lk.as_slice());
    let files = dict_get(es, fk.as_slice());
    match (length, files) {
        (Some(_), None) => match get_size(es, lk.as_slice()) {
            Some(n) => Some(Keys::SingleFile { length: n }),
            None => None,
        },
        (None, Some(BencodeValue::List(items))) => match parse_files(items) {
            Some(fs) => Some(Keys::MultiFile { files: fs }),
            None => None,
        },
        _ => None,
    }
}

/// Splits concatenated hashes into 20-byte hashes.
fn split_hashes(b: &Vec<u8>) -> (r: Hashes)
    requires
        b@.len() % 20 == 0,
    ensures
        r@ == hashes_model(b@),
{
    let n = b.len() / 20;
    let mut out: Vec<[u8; 20]> = Vec::new();
    let mut i: usize = 0;
    while i < n
        invariant
            n == b.len() / 20,
            i <= n,
            out@.len() == i,
            forall|j: int| 0 <= j < i ==> (#[trigger] out@[j])@ == b@.subrange(20 * j, 20 * j + 20),
        decreases n - i,
    {
        let mut h: [u8; 20] = [0u8; 20];
        let mut k: usize = 0;
        while k < 20
            invariant
                i < n,
                n == b.len() / 20,
                k <= 20,
                forall|m: int| 0 <= m < k ==> h@[m] == b@[20 * i + m],
            decreases 20 - k,
        {
            h[k] = b[20 * i + k];
            k = k + 1;
        }
        assert(h@ =~= b@.subrange(20 * i as int, 20 * i as int + 20));
        out.push(h);
        i = i + 1;
    }
    let r = Hashes(out);
    assert(r@ =~= hashes_model(b@));
    r
}

fn parse_info(v: &BencodeValue) -> (r: Option<Info>)
    ensures
        match r {
            Some(i) => info_model(v@) == Some(i@),
            None => info_model(v@) is None,
        },
{
    match v {
        BencodeValue::Dict(es) => {
            let name = get_text(es, name_key().as_slice());
            let plength = get_size(es, piece_length_key().as_slice());
            let pieces = dict_get(es, pieces_key().as_slice());
            let keys = parse_keys(es);
            match (name, plength, pieces, keys) {
                (Some(name), Some(pl), Some(BencodeValue::Bytes(pc)), Some(keys)) => {
                    if pl > 0 && pc.len() % 20 == 0 {
                        let pieces = split_hashes(pc);
                        Some(Info { name, plength: pl, pieces, keys })
                    } else {
                        None
                    }
                },
                _ => None,
            }
        },
        _ => None,
    }
}

impl Torrent {
    /// Reads a metainfo file from its decoded value.
    pub fn from_bencode(v: &BencodeValue) -> (r: Result<Torrent, DecodeError>)
        ensures
            match r {
                Ok(t) => torrent_model(v@) == Some(t@) && t.well_formed(),
                Err(e) => torrent_model(v@) is None && e == DecodeError::Malformed,
            },
    {
        match v {
            BencodeValue::Dict(es) => {
                let announce = get_text(es, announce_key().as_slice());
                let info = dict_get(es, info_key().as_slice());
                match (announce, info) {
                    (Some(a), Some(iv)) => match parse_info(iv) {
                        Some(i) => {
                            proof {
                                lemma_info_ok(iv@);
                            }
                            Ok(Torrent { announce: a, info: i })
                        },
                        None => Err(DecodeError::Malformed),
                    },
                    _ => Err(DecodeError::Malformed),
                }
            },
            _ => Err(DecodeError::Malformed),
        }
    }

    /// Reads a metainfo file from its bytes: they must start with a bencoded dictionary
    /// that describes a torrent.
    pub fn parse(bytes: &[u8]) -> (r: Result<Torrent, DecodeError>)
        ensures
            match dec(bytes@, 0) {
                Err(e) => r == Err::<Torrent, DecodeError>(e),
                Ok((v, _)) => match r {
                    Ok(t) => torrent_model(v) == Some(t@) && t.well_formed(),
                    Err(e) => torrent_model(v) is None && e == DecodeError::Malformed,
                },
            },
    {
        match decode_bencoded_value(bytes) {
            Ok((v, _)) => Torrent::from_bencode(&v),
            Err(e) => Err(e),
        }
    }
}


/// The concatenation of byte strings, in order.
pub open spec fn flatten(hs: Seq<Seq<u8>>) -> Seq<u8>
    decreases hs.len(),
{
    if hs.len() == 0 {
        Seq::empty()
    } else {
        flatten(hs.drop_last()) + hs.last()
    }
}

pub open spec fn file_value(f: FileModel) -> Bencode {
    Bencode::Dict(
        seq![
            (key_length(), Bencode::Int(f.length)),
            (key_path(), Bencode::List(f.path.map_values(|b: Seq<u8>| Bencode::Str(b)))),
        ],
    )
}

/// The info dictionary as it is encoded for hashing: keys in byte order.
pub open spec fn info_value(i: InfoModel) -> Bencode {
    let layout = match i.layout {
        LayoutModel::Single(n) => (key_length(), Bencode::Int(n)),
        LayoutModel::Multi(fs) => (key_files(), Bencode::List(fs.map_values(|f: FileModel| file_value(f)))),
    };
    Bencode::Dict(
        seq![
            layout,
            (key_name(), Bencode::Str(i.name)),
            (key_piece_length(), Bencode::Int(i.plength)),
            (key_pieces(), Bencode::Str(flatten(i.pieces))),
        ],
    )
}

/// Names what SHA-1 gives for a byte string.
pub uninterp spec fn sha1_of(data: Seq<u8>) -> Seq<u8>;

/// Relies on `sha1::Sha1::digest`: the SHA-1 digest of the bytes, 20 bytes long.
#[verifier::external_body]
pub(crate) fn sha1_digest(data: &[u8]) -> (r: [u8; 20])
    ensures
        r@ == sha1_of(data@),
{
    <sha1::Sha1 as sha1::Digest>::digest(data).into()
}

fn bytes_value(b: &[u8]) -> (r: BencodeValue)
    ensures
        r@ == Bencode::Str(b@),
{
    let mut out: Vec<u8> = Vec::new();
    let mut i: usize = 0;
    while i < b.len()
        invariant
            i <= b.len(),
            out@ == b@.take(i as int),
        decreases b.len() - i,
    {
        out.push(b[i]);
        i = i + 1;
        assert(out@ =~= b@.take(i as int));
    }
    assert(b@.take(b.len() as int) =~= b@);
    BencodeValue::Bytes(out)
}

impl File {
    /// This file's dictionary: `length` and `path`.
    pub fn to_bencode(&self) -> (r: BencodeValue)
        requires
            file_ok(self@),
        ensures
            r@ == file_value(self@),
    {
        let mut segs: Vec<BencodeValue> = Vec::new();
        let mut i: usize = 0;
        while i < self.path.len()
            invariant
                i <= self.path.len(),
                items_model(segs@) == self.path@.take(i as int).map_values(|t: String| Bencode::Str(text_bytes(t))),
            decreases self.path.len() - i,
        {
            let b = utf8_bytes(&self.path[i]);
            let v = bytes_value(b.as_slice());
            let ghost before = segs@;
            proof {
                crate::bencode::lemma_items_model_push(before, v);
            }
            segs.push(v);
            i = i + 1;
            assert(self.path@.take(i as int).map_values(|t: String| Bencode::Str(text_bytes(t))) =~= self.path@.take(i - 1).map_values(|t: String| Bencode::Str(text_bytes(t))).push(Bencode::Str(text_bytes(self.path@[i - 1]))));
        }
        assert(self.path@.take(self.path.len() as int) =~= self.path@);
        let ghost paths = self.path@.map_values(|t: String| text_bytes(t));
        assert(items_model(segs@) =~= paths.map_values(|b: Seq<u8>| Bencode::Str(b)));
        let ghost segv = items_model(segs@);
        let mut es: Vec<(Vec<u8>, BencodeValue)> = Vec::new();
        let lk = length_key();
        let n: i64 = self.length as i64;
        assert(n as int == self.length as int);
        let e0 = (lk, BencodeValue::Integer(n));
        let ghost g0 = e0;
        es.push(e0);
        let e1 = (path_key(), BencodeValue::List(segs));
        let ghost g1 = e1;
        es.push(e1);
        proof {
            crate::bencode::lemma_entries_model_index(es@);
            assert(es@[0] == g0);
            assert(g0.0@ == key_length());
            assert(value_model(g0.1) == Bencode::Int(self.length as int));
            assert(es@[1] == g1);
            assert(value_model(g1.1) == Bencode::List(segv));
            assert(entries_model(es@)[0] == (key_length(), Bencode::Int(self.length as int)));
            assert(entries_model(es@)[1] == (key_path(), Bencode::List(segv)));
            assert(segv == paths.map_values(|b: Seq<u8>| Bencode::Str(b)));
        }
        let r = BencodeValue::Dict(es);
        assert(entries_model(es@) =~= seq![
            (key_length(), Bencode::Int(self.length as int)),
            (key_path(), Bencode::List(paths.map_values(|b: Seq<u8>| Bencode::Str(b)))),
        ]);
        r
    }
}


impl Hashes {
    /// The hashes concatenated, in order.
    pub fn concat(&self) -> (r: Vec<u8>)
        ensures
            r@ == flatten(self@),
    {
        let mut out: Vec<u8> = Vec::new();
        let mut i: usize = 0;
        while i < self.0.len()
            invariant
                i <= self.0.len(),
                out@ == flatten(self@.take(i as int)),
            decreases self.0.len() - i,
        {
            let ghost before = out@;
            let mut k: usize = 0;
            while k < 20
                invariant
                    i < self.0.len(),
                    k <= 20,
                    out@ == before + self.0@[i as int]@.take(k as int),
                decreases 20 - k,
            {
                out.push(self.0[i][k]);
                k = k + 1;
                assert(out@ =~= before + self.0@[i as int]@.take(k as int));
            }
            assert(self.0@[i as int]@.take(20) =~= self.0@[i as int]@);
            assert(self@.take(i + 1).drop_last() =~= self@.take(i as int));
            i = i + 1;
        }
        assert(self@.take(self.0.len() as int) =~= self@);
        out
    }
}

impl Info {
    /// The info dictionary with its keys in byte order, as it is hashed.
    pub fn to_bencode(&self) -> (r: BencodeValue)
        requires
            info_ok(self@),
        ensures
            r@ == info_value(self@),
    {
        let ghost layout = match self@.layout {
            LayoutModel::Single(n) => (key_length(), Bencode::Int(n)),
            LayoutModel::Multi(fs) => (key_files(), Bencode::List(fs.map_values(|f: FileModel| file_value(f)))),
        };
        let e0 = match &self.keys {
            Keys::SingleFile { length } => {
                let n: i64 = *length as i64;
                (length_key(), BencodeValue::Integer(n))
            },
            Keys::MultiFile { files } => {
                let mut items: Vec<BencodeValue> = Vec::new();
                let mut i: usize = 0;
                while i < files.len()
                    invariant
                        i <= files.len(),
                        self.keys == (Keys::MultiFile { files: *files }),
                        info_ok(self@),
                        items_model(items@) == files@.take(i as int).map_values(|f: File| file_value(f@)),
                    decreases files.len() - i,
                {
                    assert(file_ok(self@.layout->Multi_0[i as int]));
                    let v = files[i].to_bencode();
                    let ghost before = items@;
                    proof {
                        crate::bencode::lemma_items_model_push(before, v);
                    }
                    items.push(v);
                    i = i + 1;
                    assert(files@.take(i as int).map_values(|f: File| file_value(f@)) =~= files@.take(i - 1).map_values(|f: File| file_value(f@)).push(file_value(files@[i - 1]@)));
                }
                assert(files@.take(files.len() as int) =~= files@);
                assert(items_model(items@) =~= files@.map_values(|f: File| f@).map_values(|f: FileModel| file_value(f)));
                (files_key(), BencodeValue::List(items))
            },
        };
        let ghost g0 = e0;
        assert(g0.0@ == layout.0 && value_model(g0.1) == layout.1);
        let nk = name_key();
        let nb = utf8_bytes(&self.name);
        let e1 = (nk, bytes_value(nb.as_slice()));
        let ghost g1 = e1;
        assert(g1.0@ == key_name() && value_model(g1.1) == Bencode::Str(self@.name));
        let pk = piece_length_key();
        let pl: i64 = self.plength as i64;
        assert(pl as int == self.plength as int);
        let e2 = (pk, BencodeValue::Integer(pl));
        let ghost g2 = e2;
        assert(g2.0@ == key_piece_length() && value_model(g2.1) == Bencode::Int(self@.plength));
        let hk = pieces_key();
        let flat = self.pieces.concat();
        let e3 = (hk, bytes_value(flat.as_slice()));
        let ghost g3 = e3;
        let mut es: Vec<(Vec<u8>, BencodeValue)> = Vec::new();
        es.push(e0);
        es.push(e1);
        es.push(e2);
        es.push(e3);
        proof {
            crate::bencode::lemma_entries_model_index(es@);
            assert(es@[0] == g0);
            assert(es@[1] == g1);
            assert(es@[2] == g2);
            assert(es@[3] == g3);
            assert(entries_model(es@)[0] == layout);
            assert(entries_model(es@)[1] == (key_name(), Bencode::Str(self@.name)));
            assert(entries_model(es@)[2] == (key_piece_length(), Bencode::Int(self@.plength)));
            assert(entries_model(es@)[3] == (key_pieces(), Bencode::Str(flatten(self@.pieces))));
            assert(entries_model(es@) =~= seq![
                layout,
                (key_name(), Bencode::Str(self@.name)),
                (key_piece_length(), Bencode::Int(self@.plength)),
                (key_pieces(), Bencode::Str(flatten(self@.pieces))),
            ]);
        }
        BencodeValue::Dict(es)
    }
}

/// The identifying hash of a torrent: SHA-1 of its encoded info dictionary.
pub open spec fn identifying_hash(i: InfoModel) -> Seq<u8> {
    sha1_of(enc(info_value(i)))
}

impl Torrent {
    /// Whether the sizes are in range and the piece length is positive.
    pub open spec fn well_formed(&self) -> bool {
        info_ok(self.info@)
    }

    /// The identifying hash: SHA-1 of the canonical encoding of the info dictionary.
    pub fn info_hash(&self) -> (r: [u8; 20])
        requires
            self.well_formed(),
        ensures
            r@ == identifying_hash(self.info@),
    {
        let v = self.info.to_bencode();
        let bytes = encode(&v);
        sha1_digest(bytes.as_slice())
    }
}


/// The identifying hash is canonical: it is a function of what the info dictionary maps
/// each key to, so two info dictionaries that hold the same entries in another order
/// describe the same info and give the same hash (and so does every call on one torrent).
pub proof fn lemma_hash_canonical(es1: Seq<(Seq<u8>, Bencode)>, es2: Seq<(Seq<u8>, Bencode)>)
    requires
        forall|k: Seq<u8>| #[trigger] lookup(es1, k) == lookup(es2, k),
        info_model(Bencode::Dict(es1)) is Some,
    ensures
        info_model(Bencode::Dict(es2)) == info_model(Bencode::Dict(es1)),
        identifying_hash(info_model(Bencode::Dict(es1))->0) == identifying_hash(
            info_model(Bencode::Dict(es2))->0,
        ),
{
    assert(lookup(es1, key_name()) == lookup(es2, key_name()));
    assert(lookup(es1, key_piece_length()) == lookup(es2, key_piece_length()));
    assert(lookup(es1, key_pieces()) == lookup(es2, key_pieces()));
    assert(lookup(es1, key_length()) == lookup(es2, key_length()));
    assert(lookup(es1, key_files()) == lookup(es2, key_files()));
}

} // verus!
