//! The metainfo model: the typed `.torrent` document, its invariants, the
//! derived piece geometry, and the info-hash.
use vstd::prelude::*;

use crate::BtError;
use crate::bencode::Bencode;
use crate::bencode::MARK_DICT;
use crate::bencode::MARK_END;
use crate::bencode::MARK_INT;
use crate::bencode::MARK_LIST;
use crate::bencode::bstr_bytes;
use crate::bencode::dict_get;
use crate::bencode::dict_find;
use crate::bencode::int_bytes;
use crate::bencode::encode;
use crate::bencode::encs;
use crate::bencode::enc;
use crate::bencode::enc_list;
use crate::bencode::enc_entries;
use crate::bencode::canon;
use crate::bencode::keys_ascending;
use crate::bencode::lex_lt;
use crate::bencode::lemma_canon_encs;

verus! {

// ---------------------------------------------------------------------------
// Dictionary keys of the metainfo document, as byte strings.
// ---------------------------------------------------------------------------

/// "announce"
pub open spec fn k_announce() -> Seq<u8> {
    seq![97u8, 110, 110, 111, 117, 110, 99, 101]
}

/// "info"
pub open spec fn k_info() -> Seq<u8> {
    seq![105u8, 110, 102, 111]
}

/// "length"
pub open spec fn k_length() -> Seq<u8> {
    seq![108u8, 101, 110, 103, 116, 104]
}

/// "files"
pub open spec fn k_files() -> Seq<u8> {
    seq![102u8, 105, 108, 101, 115]
}

/// "name"
pub open spec fn k_name() -> Seq<u8> {
    seq![110u8, 97, 109, 101]
}

/// "piece length"
pub open spec fn k_piece_length() -> Seq<u8> {
    seq![112u8, 105, 101, 99, 101, 32, 108, 101, 110, 103, 116, 104]
}

/// "pieces"
pub open spec fn k_pieces() -> Seq<u8> {
    seq![112u8, 105, 101, 99, 101, 115]
}

/// "path"
pub open spec fn k_path() -> Seq<u8> {
    seq![112u8, 97, 116, 104]
}

pub fn key_announce() -> (r: Vec<u8>)
    ensures
        r@ == k_announce(),
{
    let r: Vec<u8> = vec![97u8, 110, 110, 111, 117, 110, 99, 101];
    proof {
        assert(r@ =~= k_announce());
    }
    r
}

pub fn key_info() -> (r: Vec<u8>)
    ensures
        r@ == k_info(),
{
    let r: Vec<u8> = vec![105u8, 110, 102, 111];
    proof {
        assert(r@ =~= k_info());
    }
    r
}

pub fn key_length() -> (r: Vec<u8>)
    ensures
        r@ == k_length(),
{
    let r: Vec<u8> = vec![108u8, 101, 110, 103, 116, 104];
    proof {
        assert(r@ =~= k_length());
    }
    r
}

pub fn key_files() -> (r: Vec<u8>)
    ensures
        r@ == k_files(),
{
    let r: Vec<u8> = vec![102u8, 105, 108, 101, 115];
    proof {
        assert(r@ =~= k_files());
    }
    r
}

pub fn key_name() -> (r: Vec<u8>)
    ensures
        r@ == k_name(),
{
    let r: Vec<u8> = vec![110u8, 97, 109, 101];
    proof {
        assert(r@ =~= k_name());
    }
    r
}

pub fn key_piece_length() -> (r: Vec<u8>)
    ensures
        r@ == k_piece_length(),
{
    let r: Vec<u8> = vec![112u8, 105, 101, 99, 101, 32, 108, 101, 110, 103, 116, 104];
    proof {
        assert(r@ =~= k_piece_length());
    }
    r
}

pub fn key_pieces() -> (r: Vec<u8>)
    ensures
        r@ == k_pieces(),
{
    let r: Vec<u8> = vec![112u8, 105, 101, 99, 101, 115];
    proof {
        assert(r@ =~= k_pieces());
    }
    r
}

pub fn key_path() -> (r: Vec<u8>)
    ensures
        r@ == k_path(),
{
    let r: Vec<u8> = vec![112u8, 97, 116, 104];
    proof {
        assert(r@ =~= k_path());
    }
    r
}

// ---------------------------------------------------------------------------
// The SHA-1 digest, named.
// ---------------------------------------------------------------------------

/// The SHA-1 digest of a byte sequence; a function of the bytes alone.
pub uninterp spec fn sha1_of(data: Seq<u8>) -> Seq<u8>;

/// Relies on the sha1 crate's `Sha1` hasher (through the `Digest` trait):
/// the digest depends on the input bytes alone and is exactly 20 bytes.
#[verifier::external_body]
pub(crate) fn sha1_digest(data: &Vec<u8>) -> (r: Vec<u8>)
    ensures
        r@ == sha1_of(data@),
        r@.len() == 20,
{
    let mut hasher = <sha1::Sha1 as sha1::Digest>::new();
    sha1::Digest::update(&mut hasher, data.as_slice());
    let out = sha1::Digest::finalize(hasher);
    out.to_vec()
}

// ---------------------------------------------------------------------------
// The typed document.
// ---------------------------------------------------------------------------

/// The concatenated per-piece SHA-1 digests, one 20-byte entry per piece.
pub struct Hashes(pub Vec<Vec<u8>>);

impl Hashes {
    /// Every stored digest is 20 bytes.
    pub open spec fn wf(&self) -> bool {
        forall|i: int| 0 <= i < self.0@.len() ==> (#[trigger] self.0@[i])@.len() == 20
    }
}

pub open spec fn hashes_concat(hs: Seq<Vec<u8>>) -> Seq<u8>
    decreases hs,
{
    if hs.len() == 0 {
        Seq::empty()
    } else {
        hs[0]@ + hashes_concat(hs.drop_first())
    }
}

/// One entry of the multi-file list.
pub struct File {
    /// Length of this file in bytes.
    pub length: usize,
    /// Non-empty run of path components, the last being the file name.
    pub path: Vec<Vec<u8>>,
}

/// Exactly one of `length` (single file) or `files` (a directory tree read
/// as one concatenated stream).
pub enum Keys {
    SingleFile { length: usize },
    MultiFile { files: Vec<File> },
}

/// The `info` sub-document.
pub struct Info {
    /// Advisory file or directory name.
    pub name: Vec<u8>,
    /// Bytes per piece; every piece but the last has exactly this size.
    pub piece_length: usize,
    /// Expected SHA-1 digest of each piece.
    pub pieces: Hashes,
    /// Single-file length or the multi-file list.
    pub keys: Keys,
}

/// A parsed metainfo document.
pub struct Torrent {
    /// The tracker URL, as the document stored it.
    pub announce: Vec<u8>,
    pub info: Info,
}

/// Total number of payload bytes described by the document.
pub open spec fn total_len_int(keys: Keys) -> int {
    match keys {
        Keys::SingleFile { length } => length as int,
        Keys::MultiFile { files } => files_total(files@),
    }
}

pub open spec fn files_total(files: Seq<File>) -> int
    decreases files,
{
    if files.len() == 0 {
        0
    } else {
        files[0].length + files_total(files.drop_first())
    }
}

/// Number of pieces a stream of `total` bytes splits into at `pl` bytes
/// per piece.
pub open spec fn piece_count_of(total: int, pl: int) -> int {
    if total == 0 {
        0
    } else {
        (total - 1) / pl + 1
    }
}

impl Torrent {
    /// The document is internally consistent: a positive piece size, one
    /// 20-byte digest per piece, and a total length that both fits the
    /// machine and matches the digest count.
    pub open spec fn wf(&self) -> bool {
        &&& 1 <= self.info.piece_length <= u32::MAX
        &&& self.info.pieces.wf()
        &&& 0 <= total_len_int(self.info.keys) <= usize::MAX
        &&& self.info.pieces.0@.len() == piece_count_of(
            total_len_int(self.info.keys),
            self.info.piece_length as int,
        )
        &&& self.info.pieces.0@.len() <= u32::MAX
        &&& match self.info.keys {
            Keys::SingleFile { length } => length <= i64::MAX,
            Keys::MultiFile { files } => forall|i: int|
                0 <= i < files@.len() ==> (#[trigger] files@[i]).length <= i64::MAX,
        }
    }

    /// The fixed 20-byte identifier this client presents to trackers and
    /// peers.
    pub fn peer_id(&self) -> (r: Vec<u8>)
        ensures
            r@ == peer_id_bytes(),
    {
        let r: Vec<u8> = vec![
            49u8, 50, 51, 52, 53, 54, 49, 49, 49, 49, 49, 49, 49, 49, 49, 49, 49, 49, 49, 50,
        ];
        proof {
            assert(r@ =~= peer_id_bytes());
        }
        r
    }

    /// Total number of payload bytes: the single file's length, or the sum
    /// of the file lengths in list order.
    pub fn file_length(&self) -> (r: usize)
        requires
            self.wf(),
        ensures
            r as int == total_len_int(self.info.keys),
    {
        match &self.info.keys {
            Keys::SingleFile { length } => *length,
            Keys::MultiFile { files } => {
                proof {
                    lemma_files_total_prefix_bound(files@, 0);
                }
                let mut acc: usize = 0;
                let mut i: usize = 0;
                while i < files.len()
                    invariant
                        i <= files.len(),
                        acc as int == files_total_prefix(files@, i as int),
                        files_total(files@) <= usize::MAX,
                        forall|j: int|
                            0 <= j <= files@.len() ==> #[trigger] files_total_prefix(files@, j)
                                <= files_total(files@),
                        forall|j: int| 0 <= j <= files@.len() ==> files_total_prefix(files@, j) >= 0,
                    decreases files.len() - i,
                {
                    proof {
                        lemma_files_total_prefix_step(files@, i as int);
                    }
                    acc = acc + files[i].length;
                    i = i + 1;
                }
                proof {
                    lemma_files_total_prefix_full(files@);
                }
                acc
            },
        }
    }

    /// How many pieces the stream splits into.
    pub fn piece_count(&self) -> (r: usize)
        ensures
            r == self.info.pieces.0@.len(),
    {
        self.info.pieces.0.len()
    }

    /// The expected digest of piece `i`.
    pub fn piece_hash(&self, i: usize) -> (r: &Vec<u8>)
        requires
            i < self.info.pieces.0@.len(),
        ensures
            r@ == self.info.pieces.0@[i as int]@,
    {
        &self.info.pieces.0[i]
    }

    /// Size in bytes of piece `i`: the piece length for every piece but
    /// the last, and the positive remainder for the last.
    pub fn piece_size(&self, i: usize) -> (r: usize)
        requires
            self.wf(),
            i < self.info.pieces.0@.len(),
        ensures
            r as int == piece_size_of(
                total_len_int(self.info.keys),
                self.info.piece_length as int,
                i as int,
            ),
            1 <= r <= self.info.piece_length,
    {
        let count = self.info.pieces.0.len();
        let total = self.file_length();
        proof {
            lemma_piece_size_bounds(
                total_len_int(self.info.keys),
                self.info.piece_length as int,
                i as int,
            );
        }
        if i + 1 < count {
            self.info.piece_length
        } else {
            total - (count - 1) * self.info.piece_length
        }
    }
}

/// The 20 ASCII bytes of "12345611111111111112".
pub open spec fn peer_id_bytes() -> Seq<u8> {
    seq![49u8, 50, 51, 52, 53, 54, 49, 49, 49, 49, 49, 49, 49, 49, 49, 49, 49, 49, 49, 50]
}

/// Size of piece `i` in a stream of `total` bytes cut at `pl`.
pub open spec fn piece_size_of(total: int, pl: int, i: int) -> int {
    if i + 1 < piece_count_of(total, pl) {
        pl
    } else {
        total - (piece_count_of(total, pl) - 1) * pl
    }
}

/// Every piece of a consistent document has a size in `(0, pl]`, and the
/// pieces before the last fill the whole piece length.
pub proof fn lemma_piece_size_bounds(total: int, pl: int, i: int)
    requires
        pl >= 1,
        total >= 0,
        0 <= i < piece_count_of(total, pl),
    ensures
        1 <= piece_size_of(total, pl, i) <= pl,
        (piece_count_of(total, pl) - 1) * pl < total,
{
    let count = piece_count_of(total, pl);
    assert(total > 0);
    let q = (total - 1) / pl;
    assert(count == q + 1);
    vstd::arithmetic::div_mod::lemma_fundamental_div_mod(total - 1, pl);
    vstd::arithmetic::div_mod::lemma_mod_bound(total - 1, pl);
    assert(total - 1 == pl * q + (total - 1) % pl);
    assert(pl * q <= total - 1);
    assert(total - 1 < pl * q + pl);
    assert((count - 1) * pl == pl * q) by (nonlinear_arith)
        requires
            count == q + 1,
    ;
}

pub open spec fn files_total_prefix(files: Seq<File>, n: int) -> int {
    files_total(files.take(n))
}

pub proof fn lemma_files_total_prefix_step(files: Seq<File>, i: int)
    requires
        0 <= i < files.len(),
    ensures
        files_total_prefix(files, i + 1) == files_total_prefix(files, i) + files[i].length,
    decreases files.len(),
{
    lemma_files_total_push(files.take(i), files[i]);
    assert(files.take(i + 1) =~= files.take(i).push(files[i]));
}

pub proof fn lemma_files_total_push(files: Seq<File>, f: File)
    ensures
        files_total(files.push(f)) == files_total(files) + f.length,
    decreases files.len(),
{
    if files.len() == 0 {
        assert(files.push(f).drop_first() =~= Seq::<File>::empty());
        assert(files.push(f)[0] == f);
        assert(files_total(Seq::<File>::empty()) == 0);
    } else {
        lemma_files_total_push(files.drop_first(), f);
        assert(files.push(f).drop_first() =~= files.drop_first().push(f));
        assert(files.push(f)[0] == files[0]);
    }
}

pub proof fn lemma_files_total_prefix_full(files: Seq<File>)
    ensures
        files_total_prefix(files, files.len() as int) == files_total(files),
{
    assert(files.take(files.len() as int) =~= files);
}

/// Partial sums of non-negative lengths stay between zero and the total.
pub proof fn lemma_files_total_prefix_bound(files: Seq<File>, dummy: int)
    ensures
        forall|j: int|
            0 <= j <= files.len() ==> #[trigger] files_total_prefix(files, j) <= files_total(
                files,
            ),
        forall|j: int| 0 <= j <= files.len() ==> files_total_prefix(files, j) >= 0,
{
    assert forall|j: int| 0 <= j <= files.len() implies #[trigger] files_total_prefix(files, j)
        <= files_total(files) && files_total_prefix(files, j) >= 0 by {
        lemma_files_total_prefix_nonneg_sub(files, j);
    }
}

pub proof fn lemma_files_total_prefix_nonneg_sub(files: Seq<File>, j: int)
    requires
        0 <= j <= files.len(),
    ensures
        0 <= files_total_prefix(files, j) <= files_total(files),
    decreases files.len() - j,
{
    lemma_files_total_nonneg(files.take(j));
    if j == files.len() {
        lemma_files_total_prefix_full(files);
    } else {
        lemma_files_total_prefix_step(files, j);
        lemma_files_total_prefix_nonneg_sub(files, j + 1);
    }
}

pub proof fn lemma_files_total_nonneg(files: Seq<File>)
    ensures
        files_total(files) >= 0,
    decreases files,
{
    if files.len() > 0 {
        lemma_files_total_nonneg(files.drop_first());
    }
}

// ---------------------------------------------------------------------------
// Parsing the decoded document into the typed model.
// ---------------------------------------------------------------------------

/// The byte string stored at `k`, if `k` holds a byte string.
pub open spec fn get_bytes(es: Seq<(Vec<u8>, Bencode)>, k: Seq<u8>) -> Option<Seq<u8>> {
    match dict_get(es, k) {
        Option::Some(Bencode::Bytes(b)) => Option::Some(b@),
        _ => Option::None,
    }
}

/// The integer stored at `k`, if `k` holds an integer.
pub open spec fn get_int(es: Seq<(Vec<u8>, Bencode)>, k: Seq<u8>) -> Option<int> {
    match dict_get(es, k) {
        Option::Some(Bencode::Int(i)) => Option::Some(i as int),
        _ => Option::None,
    }
}

/// The entry run stored at `k`, if `k` holds a dictionary.
pub open spec fn get_entries(es: Seq<(Vec<u8>, Bencode)>, k: Seq<u8>) -> Option<
    Seq<(Vec<u8>, Bencode)>,
> {
    match dict_get(es, k) {
        Option::Some(Bencode::Dict(d)) => Option::Some(d@),
        _ => Option::None,
    }
}

/// The element run stored at `k`, if `k` holds a list.
pub open spec fn get_list(es: Seq<(Vec<u8>, Bencode)>, k: Seq<u8>) -> Option<Seq<Bencode>> {
    match dict_get(es, k) {
        Option::Some(Bencode::List(items)) => Option::Some(items@),
        _ => Option::None,
    }
}

/// One file entry has the shape the model needs: a machine-sized length
/// and a non-empty path of byte strings.
pub open spec fn file_parseable(v: Bencode) -> bool {
    &&& v is Dict
    &&& {
        let fes = v->Dict_0@;
        &&& (get_int(fes, k_length()) matches Option::Some(fl) && 0 <= fl <= usize::MAX)
        &&& (get_list(fes, k_path()) matches Option::Some(items) && items.len() > 0 && (forall|
            i: int,
        | 0 <= i < items.len() ==> (#[trigger] items[i]) is Bytes))
    }
}

/// The length named by a file entry.
pub open spec fn file_len_b(v: Bencode) -> int {
    get_int(v->Dict_0@, k_length())->Some_0
}

/// The total stream length named by a run of file entries.
pub open spec fn files_total_b(items: Seq<Bencode>) -> int
    decreases items,
{
    if items.len() == 0 {
        0
    } else {
        file_len_b(items[0]) + files_total_b(items.drop_first())
    }
}

pub proof fn lemma_files_total_b_push(items: Seq<Bencode>, v: Bencode)
    ensures
        files_total_b(items.push(v)) == files_total_b(items) + file_len_b(v),
    decreases items.len(),
{
    if items.len() == 0 {
        assert(items.push(v).drop_first() =~= Seq::<Bencode>::empty());
        assert(items.push(v)[0] == v);
        assert(files_total_b(Seq::<Bencode>::empty()) == 0);
    } else {
        lemma_files_total_b_push(items.drop_first(), v);
        assert(items.push(v).drop_first() =~= items.drop_first().push(v));
        assert(items.push(v)[0] == items[0]);
    }
}

/// On parseable entries the per-file lengths are non-negative, so the
/// total dominates every suffix-extension of a prefix.
pub proof fn lemma_files_total_b_mono(items: Seq<Bencode>, n: int)
    requires
        0 <= n <= items.len(),
        forall|i: int| 0 <= i < items.len() ==> file_parseable(#[trigger] items[i]),
    ensures
        files_total_b(items.take(n)) <= files_total_b(items),
    decreases items.len() - n,
{
    if n == items.len() {
        assert(items.take(n) =~= items);
    } else {
        lemma_files_total_b_push(items.take(n), items[n]);
        assert(items.take(n + 1) =~= items.take(n).push(items[n]));
        lemma_files_total_b_mono(items, n + 1);
        assert(file_parseable(items[n]));
        assert(file_len_b(items[n]) >= 0);
    }
}

/// The `info` entry run carries everything the model needs, consistently.
pub open spec fn info_parseable(ies: Seq<(Vec<u8>, Bencode)>) -> bool {
    &&& get_bytes(ies, k_name()) is Some
    &&& (get_int(ies, k_piece_length()) matches Option::Some(pl) && 1 <= pl <= u32::MAX)
    &&& (get_bytes(ies, k_pieces()) matches Option::Some(pb) && pb.len() % 20 == 0 && pb.len()
        / 20 <= u32::MAX)
    &&& {
        let pl = get_int(ies, k_piece_length())->Some_0;
        let npieces = get_bytes(ies, k_pieces())->Some_0.len() / 20;
        match (dict_get(ies, k_length()), dict_get(ies, k_files())) {
            (Option::Some(Bencode::Int(fl)), Option::None) => {
                &&& 0 <= fl <= usize::MAX
                &&& npieces == piece_count_of(fl as int, pl)
            },
            (Option::None, Option::Some(Bencode::List(items))) => {
                &&& (forall|i: int|
                    0 <= i < items@.len() ==> file_parseable(#[trigger] items@[i]))
                &&& 0 <= files_total_b(items@) <= usize::MAX
                &&& npieces == piece_count_of(files_total_b(items@), pl)
            },
            _ => false,
        }
    }
}

/// The decoded document carries everything the model needs.
pub open spec fn torrent_parseable(v: Bencode) -> bool {
    &&& v is Dict
    &&& get_bytes(v->Dict_0@, k_announce()) is Some
    &&& (get_entries(v->Dict_0@, k_info()) matches Option::Some(ies) && info_parseable(ies))
}

/// The parsed model reads back the decoded document field for field.
pub open spec fn pieces_match(pb: Seq<u8>, h: Hashes) -> bool {
    &&& h.0@.len() * 20 == pb.len()
    &&& forall|i: int|
        0 <= i < h.0@.len() ==> (#[trigger] h.0@[i])@ == pb.subrange(20 * i, 20 * i + 20)
}

pub open spec fn path_matches(items: Seq<Bencode>, path: Seq<Vec<u8>>) -> bool {
    &&& items.len() == path.len()
    &&& forall|i: int|
        0 <= i < items.len() ==> (#[trigger] items[i]) is Bytes && items[i]->Bytes_0@
            == path[i]@
}

pub open spec fn file_matches(v: Bencode, f: File) -> bool {
    &&& v is Dict
    &&& get_int(v->Dict_0@, k_length()) == Option::Some(f.length as int)
    &&& (get_list(v->Dict_0@, k_path()) matches Option::Some(items) && path_matches(
        items,
        f.path@,
    ))
}

pub open spec fn files_match(items: Seq<Bencode>, files: Seq<File>) -> bool {
    &&& items.len() == files.len()
    &&& forall|i: int| 0 <= i < items.len() ==> file_matches(#[trigger] items[i], files[i])
}

pub open spec fn info_matches(ies: Seq<(Vec<u8>, Bencode)>, info: Info) -> bool {
    &&& get_bytes(ies, k_name()) == Option::Some(info.name@)
    &&& get_int(ies, k_piece_length()) == Option::Some(info.piece_length as int)
    &&& (get_bytes(ies, k_pieces()) matches Option::Some(pb) && pieces_match(pb, info.pieces))
    &&& match info.keys {
        Keys::SingleFile { length } => {
            &&& get_int(ies, k_length()) == Option::Some(length as int)
            &&& dict_get(ies, k_files()) is None
        },
        Keys::MultiFile { files } => {
            &&& dict_get(ies, k_length()) is None
            &&& (get_list(ies, k_files()) matches Option::Some(items) && files_match(
                items,
                files@,
            ))
        },
    }
}

pub open spec fn torrent_matches(v: Bencode, t: Torrent) -> bool {
    &&& v is Dict
    &&& get_bytes(v->Dict_0@, k_announce()) == Option::Some(t.announce@)
    &&& (get_entries(v->Dict_0@, k_info()) matches Option::Some(ies) && info_matches(
        ies,
        t.info,
    ))
}

/// Matching file models name the same lengths the entries do.
pub proof fn lemma_files_match_total(items: Seq<Bencode>, files: Seq<File>)
    requires
        files_match(items, files),
    ensures
        files_total(files) == files_total_b(items),
    decreases items.len(),
{
    if items.len() > 0 {
        let di = items.drop_first();
        let df = files.drop_first();
        assert(forall|i: int| 0 <= i < di.len() ==> #[trigger] di[i] == items[i + 1]);
        assert(forall|i: int| 0 <= i < df.len() ==> #[trigger] df[i] == files[i + 1]);
        assert forall|i: int| 0 <= i < di.len() implies file_matches(
            #[trigger] di[i],
            df[i],
        ) by {
            assert(file_matches(items[i + 1], files[i + 1]));
        }
        lemma_files_match_total(di, df);
        assert(file_matches(items[0], files[0]));
    }
}

impl Torrent {
    /// Reads the typed model out of a decoded document. Succeeds exactly
    /// when the document has an `announce` string and an `info`
    /// dictionary whose `name`, `piece length` and `pieces` keys are well
    /// typed, which carries exactly one of `length` and `files`, whose
    /// sizes fit the machine, and whose digest count matches the piece
    /// count its total length implies.
    pub fn parse_value(v: &Bencode) -> (r: Result<Torrent, BtError>)
        ensures
            match r {
                Ok(t) => t.wf() && torrent_parseable(*v) && torrent_matches(*v, t),
                Err(e) => e is MetainfoInvalid && !torrent_parseable(*v),
            },
    {
        let es: &Vec<(Vec<u8>, Bencode)> = match v {
            Bencode::Dict(es) => es,
            _ => {
                return Err(BtError::MetainfoInvalid);
            },
        };
        let ka = key_announce();
        let announce: Vec<u8> = match dict_find(es, &ka) {
            Some(Bencode::Bytes(b)) => crate::bencode::bytes_copy(b),
            _ => {
                return Err(BtError::MetainfoInvalid);
            },
        };
        let ki = key_info();
        let ies: &Vec<(Vec<u8>, Bencode)> = match dict_find(es, &ki) {
            Some(Bencode::Dict(d)) => d,
            _ => {
                return Err(BtError::MetainfoInvalid);
            },
        };
        let kn = key_name();
        let name: Vec<u8> = match dict_find(ies, &kn) {
            Some(Bencode::Bytes(b)) => crate::bencode::bytes_copy(b),
            _ => {
                return Err(BtError::MetainfoInvalid);
            },
        };
        let kpl = key_piece_length();
        let pl_i: i64 = match dict_find(ies, &kpl) {
            Some(Bencode::Int(x)) => *x,
            _ => {
                return Err(BtError::MetainfoInvalid);
            },
        };
        if pl_i < 1 || pl_i > u32::MAX as i64 {
            return Err(BtError::MetainfoInvalid);
        }
        let piece_length: usize = pl_i as usize;
        let kp = key_pieces();
        let pb: &Vec<u8> = match dict_find(ies, &kp) {
            Some(Bencode::Bytes(b)) => b,
            _ => {
                return Err(BtError::MetainfoInvalid);
            },
        };
        if pb.len() % 20 != 0 {
            return Err(BtError::MetainfoInvalid);
        }
        let npieces: usize = pb.len() / 20;
        if npieces > (u32::MAX as usize) {
            return Err(BtError::MetainfoInvalid);
        }
        let mut hs: Vec<Vec<u8>> = Vec::new();
        let mut i: usize = 0;
        while i < npieces
            invariant
                i <= npieces,
                npieces * 20 == pb@.len(),
                pb@.len() <= usize::MAX,
                hs@.len() == i,
                forall|j: int|
                    0 <= j < i ==> (#[trigger] hs@[j])@ == pb@.subrange(20 * j, 20 * j + 20),
            decreases npieces - i,
        {
            proof {
                assert((i as int) * 20 + 20 <= (npieces as int) * 20) by (nonlinear_arith)
                    requires
                        i < npieces,
                ;
            }
            let h = crate::bencode::bytes_slice(pb, i * 20, 20);
            hs.push(h);
            i = i + 1;
        }
        let pieces = Hashes(hs);
        let kl = key_length();
        let kf = key_files();
        let has_length = dict_find(ies, &kl);
        let has_files = dict_find(ies, &kf);
        let keys: Keys;
        let total: usize;
        match (has_length, has_files) {
            (Some(Bencode::Int(fl)), None) => {
                let fl: i64 = *fl;
                if fl < 0 || (fl as u64) > (usize::MAX as u64) {
                    return Err(BtError::MetainfoInvalid);
                }
                total = fl as usize;
                keys = Keys::SingleFile { length: total };
            },
            (None, Some(Bencode::List(items))) => {
                let (files, ftotal) = match parse_files(items) {
                    Ok(x) => x,
                    Err(e) => {
                        return Err(e);
                    },
                };
                total = ftotal;
                proof {
                    lemma_files_match_total(items@, files@);
                    assert forall|j: int| 0 <= j < files@.len() implies (#[trigger] files@[
                    j]).length <= i64::MAX by {
                        assert(file_matches(items@[j], files@[j]));
                    }
                }
                keys = Keys::MultiFile { files };
            },
            _ => {
                return Err(BtError::MetainfoInvalid);
            },
        }
        // digest count must match the piece count the total implies
        let expected: usize = if total == 0 {
            0
        } else {
            (total - 1) / piece_length + 1
        };
        if npieces != expected {
            return Err(BtError::MetainfoInvalid);
        }
        let t = Torrent { announce, info: Info { name, piece_length, pieces, keys } };
        proof {
            assert(t.info.pieces.0@.len() * 20 == pb@.len()) by (nonlinear_arith)
                requires
                    t.info.pieces.0@.len() == npieces,
                    npieces * 20 == pb@.len(),
            ;
        }
        Ok(t)
    }

    /// Decodes and parses a metainfo file. Fails with the decoder's error
    /// exactly when the bytes encode no well-formed document at all, and
    /// with `MetainfoInvalid` exactly when the document they encode does
    /// not carry a consistent metainfo.
    pub fn parse(input: &Vec<u8>) -> (r: Result<Torrent, BtError>)
        ensures
            match r {
                Ok(t) => t.wf() && exists|v: Bencode|
                    input@ == crate::bencode::enc(v) && #[trigger] torrent_matches(v, t),
                Err(e) => match e {
                    BtError::MalformedBencode { .. } => !crate::bencode::some_document(input@),
                    BtError::MetainfoInvalid => exists|v: Bencode|
                        #![trigger crate::bencode::enc(v)]
                        input@ == crate::bencode::enc(v) && crate::bencode::nodup_deep(v)
                            && !torrent_parseable(v),
                    _ => false,
                },
            },
    {
        let v = match crate::bencode::decode(input) {
            Ok(v) => v,
            Err(e) => {
                return Err(e);
            },
        };
        match Self::parse_value(&v) {
            Ok(t) => {
                proof {
                    assert(input@ == crate::bencode::enc(v) && torrent_matches(v, t));
                }
                Ok(t)
            },
            Err(e) => {
                proof {
                    assert(input@ == crate::bencode::enc(v) && crate::bencode::nodup_deep(v)
                        && !torrent_parseable(v));
                }
                Err(e)
            },
        }
    }
}


/// Reads the multi-file list into file models, also computing the total
/// stream length. Succeeds exactly when every entry is a well-typed file
/// record and the total fits the machine.
fn parse_files(items: &Vec<Bencode>) -> (r: Result<(Vec<File>, usize), BtError>)
    ensures
        match r {
            Ok((files, total)) => {
                &&& forall|i: int| 0 <= i < items@.len() ==> file_parseable(#[trigger] items@[i])
                &&& files_match(items@, files@)
                &&& total as int == files_total_b(items@)
            },
            Err(e) => e is MetainfoInvalid && !((forall|i: int|
                0 <= i < items@.len() ==> file_parseable(#[trigger] items@[i]))
                && 0 <= files_total_b(items@) <= usize::MAX),
        },
{
    let mut files: Vec<File> = Vec::new();
    let mut acc: u64 = 0;
    let mut fi: usize = 0;
    proof {
        assert(items@.take(0) =~= Seq::<Bencode>::empty());
    }
    while fi < items.len()
        invariant
            fi <= items.len(),
            files@.len() == fi,
            forall|j: int|
                0 <= j < fi ==> file_parseable(#[trigger] items@[j]) && file_matches(
                    items@[j],
                    files@[j],
                ),
            acc as int == files_total_b(items@.take(fi as int)),
        decreases items.len() - fi,
    {
        let fes: &Vec<(Vec<u8>, Bencode)> = match &items[fi] {
            Bencode::Dict(d) => d,
            _ => {
                proof {
                    assert(!file_parseable(items@[fi as int]));
                }
                return Err(BtError::MetainfoInvalid);
            },
        };
        let kl2 = key_length();
        let flen_i: i64 = match dict_find(fes, &kl2) {
            Some(Bencode::Int(x)) => *x,
            _ => {
                proof {
                    assert(!file_parseable(items@[fi as int]));
                }
                return Err(BtError::MetainfoInvalid);
            },
        };
        if flen_i < 0 || (flen_i as u64) > (usize::MAX as u64) {
            proof {
                assert(!file_parseable(items@[fi as int]));
            }
            return Err(BtError::MetainfoInvalid);
        }
        let flen: usize = flen_i as usize;
        let kpath = key_path();
        let pitems: &Vec<Bencode> = match dict_find(fes, &kpath) {
            Some(Bencode::List(l)) => l,
            _ => {
                proof {
                    assert(!file_parseable(items@[fi as int]));
                }
                return Err(BtError::MetainfoInvalid);
            },
        };
        if pitems.len() == 0 {
            proof {
                assert(!file_parseable(items@[fi as int]));
            }
            return Err(BtError::MetainfoInvalid);
        }
        let mut path: Vec<Vec<u8>> = Vec::new();
        let mut pi: usize = 0;
        while pi < pitems.len()
            invariant
                pi <= pitems.len(),
                path@.len() == pi,
                fi < items@.len(),
                items@[fi as int] is Dict,
                get_list(items@[fi as int]->Dict_0@, k_path()) == Option::Some(pitems@),
                forall|j: int|
                    0 <= j < pi ==> (#[trigger] pitems@[j]) is Bytes && pitems@[j]->Bytes_0@
                        == path@[j]@,
            decreases pitems.len() - pi,
        {
            match &pitems[pi] {
                Bencode::Bytes(b) => {
                    path.push(crate::bencode::bytes_copy(b));
                },
                _ => {
                    proof {
                        assert(!(pitems@[pi as int] is Bytes));
                        assert(!file_parseable(items@[fi as int]));
                    }
                    return Err(BtError::MetainfoInvalid);
                },
            }
            pi = pi + 1;
        }
        proof {
            assert(file_parseable(items@[fi as int]));
            lemma_files_total_b_push(items@.take(fi as int), items@[fi as int]);
            assert(items@.take(fi + 1) =~= items@.take(fi as int).push(items@[fi as int]));
        }
        if (flen as u64) > u64::MAX - acc {
            // the lengths so far already exceed any machine size
            proof {
                if forall|j: int| 0 <= j < items@.len() ==> file_parseable(#[trigger] items@[j]) {
                    lemma_files_total_b_mono(items@, fi + 1);
                }
            }
            return Err(BtError::MetainfoInvalid);
        }
        acc = acc + flen as u64;
        files.push(File { length: flen, path });
        fi = fi + 1;
    }
    proof {
        assert(items@.take(items@.len() as int) =~= items@);
    }
    if acc > (usize::MAX as u64) {
        return Err(BtError::MetainfoInvalid);
    }
    Ok((files, acc as usize))
}

// ---------------------------------------------------------------------------
// The info-hash: SHA-1 over the canonical re-encoding of `info`.
// ---------------------------------------------------------------------------

/// The wire form of an integer value.
pub open spec fn int_enc(n: int) -> Seq<u8> {
    seq![MARK_INT] + int_bytes(n) + seq![MARK_END]
}

/// The canonical wire form of one file record: `length` then `path`.
pub open spec fn file_bytes(f: File) -> Seq<u8> {
    seq![MARK_DICT] + bstr_bytes(k_length()) + int_enc(f.length as int) + bstr_bytes(k_path())
        + seq![MARK_LIST] + path_bytes(f.path@) + seq![MARK_END] + seq![MARK_END]
}

pub open spec fn path_bytes(path: Seq<Vec<u8>>) -> Seq<u8>
    decreases path,
{
    if path.len() == 0 {
        Seq::empty()
    } else {
        bstr_bytes(path[0]@) + path_bytes(path.drop_first())
    }
}

pub open spec fn files_bytes(files: Seq<File>) -> Seq<u8>
    decreases files,
{
    if files.len() == 0 {
        Seq::empty()
    } else {
        file_bytes(files[0]) + files_bytes(files.drop_first())
    }
}

/// The canonical wire form of the whole `info` dictionary: its keys in
/// ascending order — `files` or `length`, then `name`, `piece length`,
/// `pieces`.
pub open spec fn info_bytes(info: Info) -> Seq<u8> {
    seq![MARK_DICT] + (match info.keys {
        Keys::SingleFile { length } => bstr_bytes(k_length()) + int_enc(length as int),
        Keys::MultiFile { files } => bstr_bytes(k_files()) + seq![MARK_LIST] + files_bytes(
            files@,
        ) + seq![MARK_END],
    }) + bstr_bytes(k_name()) + bstr_bytes(info.name@) + bstr_bytes(k_piece_length()) + int_enc(
        info.piece_length as int,
    ) + bstr_bytes(k_pieces()) + bstr_bytes(hashes_concat(info.pieces.0@)) + seq![MARK_END]
}

pub proof fn lemma_hashes_concat_push(hs: Seq<Vec<u8>>, h: Vec<u8>)
    ensures
        hashes_concat(hs.push(h)) == hashes_concat(hs) + h@,
    decreases hs.len(),
{
    if hs.len() == 0 {
        assert(hs.push(h).drop_first() =~= Seq::<Vec<u8>>::empty());
        assert(hs.push(h)[0] == h);
        assert(hashes_concat(Seq::<Vec<u8>>::empty()) == Seq::<u8>::empty());
        assert(hashes_concat(hs.push(h)) =~= h@);
        assert(hashes_concat(hs) + h@ =~= h@);
    } else {
        lemma_hashes_concat_push(hs.drop_first(), h);
        assert(hs.push(h).drop_first() =~= hs.drop_first().push(h));
        assert(hs.push(h)[0] == hs[0]);
        assert(hashes_concat(hs.push(h)) =~= hashes_concat(hs) + h@);
    }
}

/// Elements that encode pointwise to path records encode as the path run.
pub proof fn lemma_enc_list_paths(items: Seq<Bencode>, path: Seq<Vec<u8>>)
    requires
        items.len() == path.len(),
        forall|i: int|
            0 <= i < items.len() ==> enc(#[trigger] items[i]) == bstr_bytes(path[i]@),
    ensures
        enc_list(items) == path_bytes(path),
    decreases items.len(),
{
    if items.len() > 0 {
        let di = items.drop_first();
        let dp = path.drop_first();
        assert(forall|i: int| 0 <= i < di.len() ==> #[trigger] di[i] == items[i + 1]);
        assert(forall|i: int| 0 <= i < dp.len() ==> #[trigger] dp[i] == path[i + 1]);
        assert forall|i: int| 0 <= i < di.len() implies enc(#[trigger] di[i]) == bstr_bytes(
            dp[i]@,
        ) by {
            assert(enc(items[i + 1]) == bstr_bytes(path[i + 1]@));
        }
        lemma_enc_list_paths(di, dp);
        assert(enc(items[0]) == bstr_bytes(path[0]@));
    }
}

/// Elements that encode pointwise to file records encode as the file run.
pub proof fn lemma_enc_list_files(items: Seq<Bencode>, files: Seq<File>)
    requires
        items.len() == files.len(),
        forall|i: int| 0 <= i < items.len() ==> enc(#[trigger] items[i]) == file_bytes(files[i]),
    ensures
        enc_list(items) == files_bytes(files),
    decreases items.len(),
{
    if items.len() > 0 {
        let di = items.drop_first();
        let df = files.drop_first();
        assert(forall|i: int| 0 <= i < di.len() ==> #[trigger] di[i] == items[i + 1]);
        assert(forall|i: int| 0 <= i < df.len() ==> #[trigger] df[i] == files[i + 1]);
        assert forall|i: int| 0 <= i < di.len() implies enc(#[trigger] di[i]) == file_bytes(
            df[i],
        ) by {
            assert(enc(items[i + 1]) == file_bytes(files[i + 1]));
        }
        lemma_enc_list_files(di, df);
        assert(enc(items[0]) == file_bytes(files[0]));
    }
}

/// Builds the bencode value of one file record, in canonical key order.
fn build_file_value(f: &File) -> (r: Bencode)
    requires
        f.length <= i64::MAX,
    ensures
        enc(r) == file_bytes(*f),
        canon(r),
{
    let mut pitems: Vec<Bencode> = Vec::new();
    let mut pi: usize = 0;
    while pi < f.path.len()
        invariant
            pi <= f.path@.len(),
            pitems@.len() == pi,
            forall|j: int|
                0 <= j < pi ==> enc(#[trigger] pitems@[j]) == bstr_bytes(f.path@[j]@) && canon(
                    pitems@[j],
                ),
        decreases f.path.len() - pi,
    {
        pitems.push(Bencode::Bytes(crate::bencode::bytes_copy(&f.path[pi])));
        pi = pi + 1;
    }
    proof {
        lemma_enc_list_paths(pitems@, f.path@);
        crate::bencode::lemma_canon_list_all(pitems@);
    }
    let path_value = Bencode::List(pitems);
    let mut fes: Vec<(Vec<u8>, Bencode)> = Vec::new();
    fes.push((key_length(), Bencode::Int(f.length as i64)));
    fes.push((key_path(), path_value));
    let r = Bencode::Dict(fes);
    proof {
        reveal_with_fuel(crate::bencode::lex_leq, 3);
        assert(lex_lt(k_length(), k_path()));
        reveal_with_fuel(crate::bencode::keys_ascending, 3);
        assert(keys_ascending(fes@));
        crate::bencode::lemma_canon_entries_all(fes@);
        let e0 = fes@[0];
        let e1 = fes@[1];
        assert(enc(e0.1) == int_enc(f.length as int));
        assert(enc(e1.1) == seq![MARK_LIST] + path_bytes(f.path@) + seq![MARK_END]);
        assert(enc_entries(Seq::<(Vec<u8>, Bencode)>::empty()) == Seq::<u8>::empty());
        let s1 = seq![e1];
        assert(s1.drop_first() =~= Seq::<(Vec<u8>, Bencode)>::empty());
        assert(enc_entries(s1) =~= bstr_bytes(k_path()) + enc(e1.1));
        assert(fes@.drop_first() =~= s1);
        assert(enc_entries(fes@) =~= bstr_bytes(k_length()) + enc(e0.1) + enc_entries(s1));
        assert(enc(r) =~= seq![MARK_DICT] + enc_entries(fes@) + seq![MARK_END]);
        assert(enc(r) =~= file_bytes(*f));
    }
    r
}

impl Torrent {
    /// The torrent's identity: the SHA-1 digest of the canonical
    /// re-encoding of the `info` dictionary. It depends on the parsed
    /// `info` fields alone — never on the order the document stored its
    /// keys in.
    #[verifier::rlimit(100)]
    pub fn info_hash(&self) -> (r: Vec<u8>)
        requires
            self.wf(),
        ensures
            r@ == sha1_of(info_bytes(self.info)),
            r@.len() == 20,
    {
        let mut entries: Vec<(Vec<u8>, Bencode)> = Vec::new();
        match &self.info.keys {
            Keys::SingleFile { length } => {
                entries.push((key_length(), Bencode::Int(*length as i64)));
            },
            Keys::MultiFile { files } => {
                let mut fitems: Vec<Bencode> = Vec::new();
                let mut i: usize = 0;
                while i < files.len()
                    invariant
                        i <= files@.len(),
                        fitems@.len() == i,
                        forall|j: int|
                            0 <= j < files@.len() ==> (#[trigger] files@[j]).length <= i64::MAX,
                        forall|j: int|
                            0 <= j < i ==> enc(#[trigger] fitems@[j]) == file_bytes(files@[j])
                                && canon(fitems@[j]),
                    decreases files.len() - i,
                {
                    let fv = build_file_value(&files[i]);
                    fitems.push(fv);
                    i = i + 1;
                }
                proof {
                    lemma_enc_list_files(fitems@, files@);
                    crate::bencode::lemma_canon_list_all(fitems@);
                }
                entries.push((key_files(), Bencode::List(fitems)));
            },
        }
        entries.push((key_name(), Bencode::Bytes(crate::bencode::bytes_copy(&self.info.name))));
        entries.push((key_piece_length(), Bencode::Int(self.info.piece_length as i64)));
        let mut pcat: Vec<u8> = Vec::new();
        let mut pi: usize = 0;
        while pi < self.info.pieces.0.len()
            invariant
                pi <= self.info.pieces.0@.len(),
                pcat@ == hashes_concat(self.info.pieces.0@.take(pi as int)),
            decreases self.info.pieces.0.len() - pi,
        {
            pcat.extend_from_slice(self.info.pieces.0[pi].as_slice());
            proof {
                lemma_hashes_concat_push(
                    self.info.pieces.0@.take(pi as int),
                    self.info.pieces.0@[pi as int],
                );
                assert(self.info.pieces.0@.take(pi + 1) =~= self.info.pieces.0@.take(
                    pi as int,
                ).push(self.info.pieces.0@[pi as int]));
            }
            pi = pi + 1;
        }
        proof {
            assert(self.info.pieces.0@.take(self.info.pieces.0@.len() as int)
                =~= self.info.pieces.0@);
        }
        entries.push((key_pieces(), Bencode::Bytes(pcat)));
        let dict = Bencode::Dict(entries);
        proof {
            reveal_with_fuel(crate::bencode::lex_leq, 8);
            assert(lex_lt(k_length(), k_name()));
            assert(lex_lt(k_files(), k_name()));
            assert(lex_lt(k_name(), k_piece_length()));
            assert(lex_lt(k_piece_length(), k_pieces()));
            reveal_with_fuel(crate::bencode::keys_ascending, 5);
            assert(keys_ascending(entries@));
            crate::bencode::lemma_canon_entries_all(entries@);
            assert(canon(dict));
            lemma_canon_encs(dict);
            let e0 = entries@[0];
            let e1 = entries@[1];
            let e2 = entries@[2];
            let e3 = entries@[3];
            match &self.info.keys {
                Keys::SingleFile { length } => {
                    assert(enc(e0.1) == int_enc(*length as int));
                },
                Keys::MultiFile { files } => {
                    assert(enc(e0.1) =~= seq![MARK_LIST] + files_bytes(files@) + seq![
                        MARK_END,
                    ]);
                },
            }
            assert(enc(e1.1) == bstr_bytes(self.info.name@));
            assert(enc(e2.1) == int_enc(self.info.piece_length as int));
            assert(enc(e3.1) == bstr_bytes(hashes_concat(self.info.pieces.0@)));
            assert(enc_entries(Seq::<(Vec<u8>, Bencode)>::empty()) == Seq::<u8>::empty());
            let s3 = seq![e3];
            let s2 = seq![e2, e3];
            let s1 = seq![e1, e2, e3];
            assert(s3.drop_first() =~= Seq::<(Vec<u8>, Bencode)>::empty());
            assert(enc_entries(s3) =~= bstr_bytes(k_pieces()) + enc(e3.1));
            assert(s2.drop_first() =~= s3);
            assert(enc_entries(s2) =~= bstr_bytes(k_piece_length()) + enc(e2.1) + enc_entries(
                s3,
            ));
            assert(s1.drop_first() =~= s2);
            assert(enc_entries(s1) =~= bstr_bytes(k_name()) + enc(e1.1) + enc_entries(s2));
            assert(entries@.drop_first() =~= s1);
            assert(enc_entries(entries@) =~= (match self.info.keys {
                Keys::SingleFile { length } => bstr_bytes(k_length()) + enc(e0.1),
                Keys::MultiFile { files } => bstr_bytes(k_files()) + enc(e0.1),
            }) + enc_entries(s1));
            assert(enc(dict) =~= seq![MARK_DICT] + enc_entries(entries@) + seq![MARK_END]);
            assert(enc(dict) =~= info_bytes(self.info));
            assert(encs(dict) == info_bytes(self.info));
        }
        let encoded = encode(&dict);
        sha1_digest(&encoded)
    }
}

// ---------------------------------------------------------------------------
// Key-order independence of the info-hash.
// ---------------------------------------------------------------------------

pub proof fn lemma_hashes_concat_views(h1: Seq<Vec<u8>>, h2: Seq<Vec<u8>>)
    requires
        h1.len() == h2.len(),
        forall|i: int| 0 <= i < h1.len() ==> (#[trigger] h1[i])@ == (#[trigger] h2[i])@,
    ensures
        hashes_concat(h1) == hashes_concat(h2),
    decreases h1.len(),
{
    if h1.len() > 0 {
        let d1 = h1.drop_first();
        let d2 = h2.drop_first();
        assert(forall|i: int| 0 <= i < d1.len() ==> #[trigger] d1[i] == h1[i + 1]);
        assert(forall|i: int| 0 <= i < d2.len() ==> #[trigger] d2[i] == h2[i + 1]);
        assert forall|i: int| 0 <= i < d1.len() implies (#[trigger] d1[i])@ == (
        #[trigger] d2[i])@ by {
            assert(h1[i + 1]@ == h2[i + 1]@);
        }
        lemma_hashes_concat_views(d1, d2);
        assert(h1[0]@ == h2[0]@);
    }
}

pub proof fn lemma_path_bytes_views(p1: Seq<Vec<u8>>, p2: Seq<Vec<u8>>)
    requires
        p1.len() == p2.len(),
        forall|i: int| 0 <= i < p1.len() ==> (#[trigger] p1[i])@ == (#[trigger] p2[i])@,
    ensures
        path_bytes(p1) == path_bytes(p2),
    decreases p1.len(),
{
    if p1.len() > 0 {
        let d1 = p1.drop_first();
        let d2 = p2.drop_first();
        assert(forall|i: int| 0 <= i < d1.len() ==> #[trigger] d1[i] == p1[i + 1]);
        assert(forall|i: int| 0 <= i < d2.len() ==> #[trigger] d2[i] == p2[i + 1]);
        assert forall|i: int| 0 <= i < d1.len() implies (#[trigger] d1[i])@ == (
        #[trigger] d2[i])@ by {
            assert(p1[i + 1]@ == p2[i + 1]@);
        }
        lemma_path_bytes_views(d1, d2);
        assert(p1[0]@ == p2[0]@);
    }
}

/// Two file runs that both read back the same decoded list encode to the
/// same canonical bytes.
pub proof fn lemma_files_bytes_same_items(items: Seq<Bencode>, f1: Seq<File>, f2: Seq<File>)
    requires
        files_match(items, f1),
        files_match(items, f2),
    ensures
        files_bytes(f1) == files_bytes(f2),
    decreases items.len(),
{
    if items.len() > 0 {
        let di = items.drop_first();
        let d1 = f1.drop_first();
        let d2 = f2.drop_first();
        assert(forall|i: int| 0 <= i < di.len() ==> #[trigger] di[i] == items[i + 1]);
        assert(forall|i: int| 0 <= i < d1.len() ==> #[trigger] d1[i] == f1[i + 1]);
        assert(forall|i: int| 0 <= i < d2.len() ==> #[trigger] d2[i] == f2[i + 1]);
        assert forall|i: int| 0 <= i < di.len() implies file_matches(#[trigger] di[i], d1[i])
            && file_matches(di[i], d2[i]) by {
            assert(file_matches(items[i + 1], f1[i + 1]));
            assert(file_matches(items[i + 1], f2[i + 1]));
        }
        lemma_files_bytes_same_items(di, d1, d2);
        assert(file_matches(items[0], f1[0]));
        assert(file_matches(items[0], f2[0]));
        let a = f1[0];
        let b = f2[0];
        assert(a.length == b.length);
        let pitems = get_list(items[0]->Dict_0@, k_path())->Some_0;
        assert(path_matches(pitems, a.path@));
        assert(path_matches(pitems, b.path@));
        assert forall|i: int| 0 <= i < a.path@.len() implies (#[trigger] a.path@[i])@ == (
        #[trigger] b.path@[i])@ by {
            assert(pitems[i]->Bytes_0@ == a.path@[i]@);
            assert(pitems[i]->Bytes_0@ == b.path@[i]@);
        }
        lemma_path_bytes_views(a.path@, b.path@);
        assert(file_bytes(a) == file_bytes(b));
    }
}

/// The info-hash is independent of the key order of the surrounding root
/// document: two decoded documents whose root dictionaries hold the same
/// entries, however arranged, and that parse to torrent models, name the
/// same canonical `info` bytes — and so the same SHA-1 identity.
pub proof fn lemma_info_hash_key_order_independent(
    v1: Bencode,
    v2: Bencode,
    t1: Torrent,
    t2: Torrent,
)
    requires
        v1 is Dict,
        v2 is Dict,
        crate::bencode::nodup_keys(v1->Dict_0@),
        crate::bencode::nodup_keys(v2->Dict_0@),
        v1->Dict_0@.to_multiset() == v2->Dict_0@.to_multiset(),
        torrent_matches(v1, t1),
        torrent_matches(v2, t2),
    ensures
        info_bytes(t1.info) == info_bytes(t2.info),
        sha1_of(info_bytes(t1.info)) == sha1_of(info_bytes(t2.info)),
{
    crate::bencode::lemma_dict_get_order_independent(v1->Dict_0@, v2->Dict_0@, k_info());
    let ies = get_entries(v1->Dict_0@, k_info())->Some_0;
    assert(get_entries(v2->Dict_0@, k_info()) == Option::Some(ies));
    assert(info_matches(ies, t1.info));
    assert(info_matches(ies, t2.info));
    // name, piece length
    assert(t1.info.name@ == t2.info.name@);
    assert(t1.info.piece_length == t2.info.piece_length);
    // pieces
    let pb = get_bytes(ies, k_pieces())->Some_0;
    assert(pieces_match(pb, t1.info.pieces));
    assert(pieces_match(pb, t2.info.pieces));
    assert(t1.info.pieces.0@.len() == t2.info.pieces.0@.len()) by {
        assert(t1.info.pieces.0@.len() * 20 == pb.len());
        assert(t2.info.pieces.0@.len() * 20 == pb.len());
    }
    assert forall|i: int| 0 <= i < t1.info.pieces.0@.len() implies (#[trigger] t1.info.pieces.0@[
    i])@ == (#[trigger] t2.info.pieces.0@[i])@ by {
        assert(t1.info.pieces.0@[i]@ == pb.subrange(20 * i, 20 * i + 20));
        assert(t2.info.pieces.0@[i]@ == pb.subrange(20 * i, 20 * i + 20));
    }
    lemma_hashes_concat_views(t1.info.pieces.0@, t2.info.pieces.0@);
    // length or files
    match (t1.info.keys, t2.info.keys) {
        (Keys::SingleFile { length: l1 }, Keys::SingleFile { length: l2 }) => {
            assert(get_int(ies, k_length()) == Option::Some(l1 as int));
            assert(get_int(ies, k_length()) == Option::Some(l2 as int));
            assert(l1 == l2);
        },
        (Keys::MultiFile { files: f1 }, Keys::MultiFile { files: f2 }) => {
            let items = get_list(ies, k_files())->Some_0;
            assert(files_match(items, f1@));
            assert(files_match(items, f2@));
            lemma_files_bytes_same_items(items, f1@, f2@);
        },
        (Keys::SingleFile { length: l1 }, Keys::MultiFile { files: f2 }) => {
            assert(get_int(ies, k_length()) is Some);
            assert(dict_get(ies, k_length()) is None);
        },
        (Keys::MultiFile { files: f1 }, Keys::SingleFile { length: l2 }) => {
            assert(get_int(ies, k_length()) is Some);
            assert(dict_get(ies, k_length()) is None);
        },
    }
}

} // verus!
