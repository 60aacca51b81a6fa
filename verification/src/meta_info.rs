//! The metainfo descriptor: the torrent's name, piece length, piece hash
//! table and file list, validated once on construction and read-only after.
//! The unverified shell parses the bencoded file and hands the plain fields
//! to `TorrentInfo::new`.
use crate::bencode::push_benc_bytes;
use crate::bencode::push_benc_i64;
use crate::bencode::push_benc_str;
use crate::bencode::spec_benc_bytes;
use crate::bencode::spec_benc_int;
use crate::bencode::spec_benc_str;
use crate::digest::sha1_digest;
use crate::digest::sha1_of;
use crate::error::Error;
use vstd::prelude::*;

verus! {

/// One entry of a multi-file torrent.
pub struct File {
    pub path: Vec<String>,
    pub length: i64,
    pub md5sum: Option<String>,
}

/// Sum of the file lengths, in order.
pub open spec fn sum_lengths(s: Seq<File>) -> int
    decreases s.len(),
{
    if s.len() == 0 {
        0
    } else {
        sum_lengths(s.drop_last()) + s.last().length
    }
}

/// Every file length is non-negative.
pub open spec fn lengths_ok(s: Seq<File>) -> bool {
    forall|i: int| 0 <= i < s.len() ==> (#[trigger] s[i]).length >= 0
}

proof fn lemma_sum_take_step(s: Seq<File>, i: int)
    requires
        0 <= i < s.len(),
    ensures
        sum_lengths(s.take(i + 1)) == sum_lengths(s.take(i)) + s[i].length,
{
    assert(s.take(i + 1).drop_last() =~= s.take(i));
    assert(s.take(i + 1).last() == s[i]);
}

proof fn lemma_sum_take_bound(s: Seq<File>, i: int)
    requires
        0 <= i <= s.len(),
        lengths_ok(s),
    ensures
        sum_lengths(s.take(i)) <= sum_lengths(s),
    decreases s.len() - i,
{
    if i < s.len() {
        lemma_sum_take_step(s, i);
        lemma_sum_take_bound(s, i + 1);
    } else {
        assert(s.take(i) =~= s);
    }
}

/// The total payload length: the single-file `length` when present, else
/// the sum of the file lengths, else zero.
pub open spec fn spec_total_of(length: Option<i64>, files: Option<Seq<File>>) -> int {
    match length {
        Some(v) => v as int,
        None => match files {
            Some(fs) => sum_lengths(fs),
            None => 0,
        },
    }
}

/// What a usable descriptor must satisfy: a whole number of 20-byte piece
/// hashes, piece count and piece length that fit the wire's 32 bits, file
/// lengths that are non-negative, a total that fits `i64`, and a total
/// that makes the piece count exactly `ceil(total / piece_length)`.
pub open spec fn meta_valid(
    pieces: Seq<u8>,
    piece_length: i64,
    length: Option<i64>,
    files: Option<Seq<File>>,
) -> bool {
    let n = pieces.len() as int / 20;
    let total = spec_total_of(length, files);
    &&& pieces.len() % 20 == 0
    &&& 1 <= n <= u32::MAX
    &&& 1 <= piece_length <= u32::MAX
    &&& (length is None ==> (files matches Some(fs) ==> lengths_ok(fs)))
    &&& total <= i64::MAX
    &&& (n - 1) * piece_length < total <= n * piece_length
}

/// The mathematical shape of an optional file list.
pub open spec fn files_view(files: Option<Vec<File>>) -> Option<Seq<File>> {
    match files {
        Some(v) => Some(v@),
        None => None,
    }
}

/// The parsed, validated metainfo descriptor.
pub struct TorrentInfo {
    name: String,
    pieces: Vec<u8>,
    piece_length: i64,
    md5sum: Option<String>,
    length: Option<i64>,
    files: Option<Vec<File>>,
    private: Option<u8>,
    path: Option<Vec<String>>,
    root_hash: Option<String>,
    announce: Option<String>,
    announce_list: Option<Vec<Vec<String>>>,
}

impl TorrentInfo {
    pub closed spec fn spec_name(self) -> Seq<char> {
        self.name@
    }

    pub closed spec fn spec_pieces(self) -> Seq<u8> {
        self.pieces@
    }

    pub closed spec fn spec_piece_len(self) -> int {
        self.piece_length as int
    }

    pub closed spec fn spec_length_opt(self) -> Option<i64> {
        self.length
    }

    pub closed spec fn spec_files(self) -> Option<Seq<File>> {
        files_view(self.files)
    }

    pub closed spec fn spec_announce_opt(self) -> Option<String> {
        self.announce
    }

    pub closed spec fn spec_announce_list(self) -> Option<Vec<Vec<String>>> {
        self.announce_list
    }

    /// Number of pieces.
    pub open spec fn spec_num_pieces(self) -> int {
        self.spec_pieces().len() as int / 20
    }

    /// Total payload length in bytes.
    pub open spec fn spec_total(self) -> int {
        spec_total_of(self.spec_length_opt(), self.spec_files())
    }

    /// A descriptor built by `new` always satisfies this: the same facts
    /// `meta_valid` checks, stated over the accessors.
    pub open spec fn wf(self) -> bool {
        &&& self.spec_pieces().len() % 20 == 0
        &&& 1 <= self.spec_num_pieces() <= u32::MAX
        &&& 1 <= self.spec_piece_len() <= u32::MAX
        &&& (self.spec_length_opt() is None ==> (self.spec_files() matches Some(fs)
            ==> lengths_ok(fs)))
        &&& self.spec_total() <= i64::MAX
        &&& (self.spec_num_pieces() - 1) * self.spec_piece_len() < self.spec_total()
            <= self.spec_num_pieces() * self.spec_piece_len()
    }

    /// Length in bytes of piece `p`: the piece length for all but the last
    /// piece, which takes the remainder.
    pub open spec fn spec_piece_length_of(self, p: int) -> int {
        if p + 1 != self.spec_num_pieces() {
            self.spec_piece_len()
        } else {
            self.spec_total() - self.spec_piece_len() * (self.spec_num_pieces() - 1)
        }
    }

    /// The 20-byte hash table entry of piece `p`.
    pub open spec fn spec_piece_hash(self, p: int) -> Seq<u8> {
        self.spec_pieces().subrange(20 * p, 20 * p + 20)
    }

    /// Validates the parsed fields and builds the descriptor; rejects any
    /// combination that `meta_valid` refuses, and only those.
    #[verifier::loop_isolation(false)]
    pub fn new(
        name: String,
        pieces: Vec<u8>,
        piece_length: i64,
        md5sum: Option<String>,
        length: Option<i64>,
        files: Option<Vec<File>>,
        private: Option<u8>,
        path: Option<Vec<String>>,
        root_hash: Option<String>,
        announce: Option<String>,
        announce_list: Option<Vec<Vec<String>>>,
    ) -> (r: Result<TorrentInfo, Error>)
        ensures
            match r {
                Ok(t) => {
                    &&& meta_valid(pieces@, piece_length, length, files_view(files))
                    &&& t.wf()
                    &&& t.spec_name() == name@
                    &&& t.spec_pieces() == pieces@
                    &&& t.spec_piece_len() == piece_length as int
                    &&& t.spec_length_opt() == length
                    &&& t.spec_files() == files_view(files)
                    &&& t.spec_announce_opt() == announce
                    &&& t.spec_announce_list() == announce_list
                },
                Err(_) => !meta_valid(pieces@, piece_length, length, files_view(files)),
            },
    {
        let n_raw = pieces.len();
        if n_raw % 20 != 0 {
            return Err(Error::SerdeBencode);
        }
        let n = n_raw / 20;
        if n < 1 || (n as u64) > (u32::MAX as u64) {
            return Err(Error::SerdeBencode);
        }
        if piece_length < 1 || piece_length > (u32::MAX as i64) {
            return Err(Error::SerdeBencode);
        }
        let total: i64 = match length {
            Some(v) => v,
            None => {
                match files.as_ref() {
                    Some(fs) => {
                        let mut acc: i64 = 0;
                        let mut i: usize = 0;
                        let fs_len = fs.len();
                        while i < fs_len
                            invariant
                                0 <= i <= fs_len,
                                fs_len == fs@.len(),
                                acc as int == sum_lengths(fs@.take(i as int)),
                                acc >= 0,
                                forall|j: int| 0 <= j < i ==> (#[trigger] fs@[j]).length >= 0,
                            decreases fs_len - i,
                        {
                            let l = fs[i].length;
                            if l < 0 {
                                proof {
                                    assert(!lengths_ok(fs@));
                                    assert(length is None);
                                    assert(files_view(files) == Some(fs@));
                                }
                                return Err(Error::SerdeBencode);
                            }
                            match acc.checked_add(l) {
                                Some(next) => {
                                    proof {
                                        lemma_sum_take_step(fs@, i as int);
                                    }
                                    acc = next;
                                },
                                None => {
                                    // the running sum alone is past `i64`, so the
                                    // total is as well
                                    proof {
                                        lemma_sum_take_step(fs@, i as int);
                                        assert(length is None);
                                        assert(files_view(files) == Some(fs@));
                                        if lengths_ok(fs@) {
                                            lemma_sum_take_bound(fs@, i as int + 1);
                                            assert(sum_lengths(fs@) > i64::MAX);
                                        }
                                        assert(!meta_valid(
                                            pieces@,
                                            piece_length,
                                            length,
                                            files_view(files),
                                        ));
                                    }
                                    return Err(Error::SerdeBencode);
                                },
                            }
                            i = i + 1;
                        }
                        proof {
                            assert(fs@.take(fs_len as int) =~= fs@);
                        }
                        acc
                    },
                    None => 0,
                }
            },
        };
        let n128 = n as i128;
        let p128 = piece_length as i128;
        let t128 = total as i128;
        proof {
            assert(n128 * p128 <= 0x1_0000_0000i128 * 0x1_0000_0000i128) by (nonlinear_arith)
                requires
                    0 < n128 <= 0x1_0000_0000i128,
                    0 < p128 <= 0x1_0000_0000i128,
            ;
            assert((n128 - 1) * p128 >= 0) by (nonlinear_arith)
                requires
                    n128 >= 1,
                    p128 >= 1,
            ;
            assert((n128 - 1) * p128 <= n128 * p128) by (nonlinear_arith)
                requires
                    n128 >= 1,
                    p128 >= 1,
            ;
        }
        if !((n128 - 1) * p128 < t128 && t128 <= n128 * p128) {
            return Err(Error::SerdeBencode);
        }
        Ok(
            TorrentInfo {
                name,
                pieces,
                piece_length,
                md5sum,
                length,
                files,
                private,
                path,
                root_hash,
                announce,
                announce_list,
            },
        )
    }

    pub fn get_number_of_pieces(&self) -> (r: usize)
        ensures
            r as int == self.spec_num_pieces(),
    {
        // 20 bytes per piece
        self.pieces.len() / 20
    }

    #[verifier::loop_isolation(false)]
    pub fn get_total_length(&self) -> (r: i64)
        requires
            self.wf(),
        ensures
            r as int == self.spec_total(),
    {
        let total: i64 = match self.length {
            Some(val) => val,
            None => {
                match self.files.as_ref() {
                    Some(fs) => {
                        let mut acc: i64 = 0;
                        let mut i: usize = 0;
                        let fs_len = fs.len();
                        proof {
                            assert(lengths_ok(fs@));
                        }
                        while i < fs_len
                            invariant
                                0 <= i <= fs_len,
                                fs_len == fs@.len(),
                                lengths_ok(fs@),
                                sum_lengths(fs@) <= i64::MAX,
                                acc as int == sum_lengths(fs@.take(i as int)),
                                acc >= 0,
                            decreases fs_len - i,
                        {
                            proof {
                                lemma_sum_take_step(fs@, i as int);
                                lemma_sum_take_bound(fs@, i as int + 1);
                            }
                            acc = acc + fs[i].length;
                            i = i + 1;
                        }
                        proof {
                            assert(fs@.take(fs_len as int) =~= fs@);
                        }
                        acc
                    },
                    None => 0,
                }
            },
        };
        total
    }

    /// How many bytes piece `piece_idx` holds.
    pub fn get_piece_length(&self, piece_idx: usize) -> (r: u32)
        requires
            self.wf(),
            (piece_idx as int) < self.spec_num_pieces(),
        ensures
            r as int == self.spec_piece_length_of(piece_idx as int),
            1 <= r as int <= self.spec_piece_len(),
    {
        let n = self.pieces.len() / 20;
        proof {
            lemma_piece_length_range(*self, piece_idx as int);
        }
        if piece_idx + 1 != n {
            self.piece_length as u32
        } else {
            // last piece
            let total = self.get_total_length();
            (total - self.piece_length * (n as i64 - 1)) as u32
        }
    }

    /// The 20-byte expected digest of piece `piece_idx`.
    pub fn get_piece_hash(&self, piece_idx: usize) -> (r: [u8; 20])
        requires
            self.wf(),
            (piece_idx as int) < self.spec_num_pieces(),
        ensures
            r@ =~= self.spec_piece_hash(piece_idx as int),
    {
        let plen: usize = self.pieces.len();
        proof {
            assert((piece_idx as int) * 20 + 20 <= self.spec_pieces().len()) by (nonlinear_arith)
                requires
                    0 <= piece_idx as int,
                    (piece_idx as int) < self.spec_pieces().len() as int / 20,
                    self.spec_pieces().len() % 20 == 0,
            ;
        }
        let off = piece_idx * 20;
        let r: [u8; 20] = [
            self.pieces[off],
            self.pieces[off + 1],
            self.pieces[off + 2],
            self.pieces[off + 3],
            self.pieces[off + 4],
            self.pieces[off + 5],
            self.pieces[off + 6],
            self.pieces[off + 7],
            self.pieces[off + 8],
            self.pieces[off + 9],
            self.pieces[off + 10],
            self.pieces[off + 11],
            self.pieces[off + 12],
            self.pieces[off + 13],
            self.pieces[off + 14],
            self.pieces[off + 15],
            self.pieces[off + 16],
            self.pieces[off + 17],
            self.pieces[off + 18],
            self.pieces[off + 19],
        ];
        r
    }

    pub fn get_torrent_name(&self) -> (r: &str)
        ensures
            r@ == self.spec_name(),
    {
        self.name.as_str()
    }

    /// Every announce URL, in order: the announce tiers flattened when
    /// present, else the single announce URL, else nothing.
    #[verifier::loop_isolation(false)]
    pub fn get_announce(&self) -> (r: Vec<String>)
        ensures
            r@.map_values(|s: String| s@) == self.spec_announce_views(),
    {
        let mut out: Vec<String> = Vec::new();
        match self.announce_list.as_ref() {
            Some(list) => {
                let outer = list.len();
                let mut i: usize = 0;
                while i < outer
                    invariant
                        0 <= i <= outer,
                        outer == list@.len(),
                        out@.map_values(|s: String| s@) =~= flat_views(list@.take(i as int)),
                    decreases outer - i,
                {
                    let inner = list[i].len();
                    let mut j: usize = 0;
                    while j < inner
                        invariant
                            0 <= i < outer,
                            0 <= j <= inner,
                            outer == list@.len(),
                            inner == list@[i as int]@.len(),
                            out@.map_values(|s: String| s@) =~= flat_views(list@.take(i as int))
                                + views_of(list@[i as int]@.take(j as int)),
                        decreases inner - j,
                    {
                        let ghost prev = out@;
                        let entry = list[i][j].as_str().to_owned();
                        let ghost ev = entry@;
                        proof {
                            assert(ev == list@[i as int]@[j as int]@);
                        }
                        out.push(entry);
                        proof {
                            assert(out@.map_values(|s: String| s@) =~= prev.map_values(
                                |s: String| s@,
                            ) + seq![ev]) by {
                                assert(out@.len() == prev.len() + 1);
                                assert(forall|q: int| 0 <= q < prev.len() ==> out@[q] == prev[q]);
                                assert(out@[prev.len() as int]@ == ev);
                            }
                            assert(views_of(list@[i as int]@.take(j as int + 1)) =~= views_of(
                                list@[i as int]@.take(j as int),
                            ) + seq![ev]);
                        }
                        j = j + 1;
                    }
                    proof {
                        lemma_flat_views_step(list@, i as int);
                        assert(views_of(list@[i as int]@.take(inner as int)) =~= views_of(
                            list@[i as int]@,
                        ));
                    }
                    i = i + 1;
                }
                proof {
                    assert(list@.take(outer as int) =~= list@);
                }
            },
            None => {
                match self.announce.as_ref() {
                    Some(s) => {
                        out.push(s.as_str().to_owned());
                        proof {
                            assert(out@.map_values(|s2: String| s2@) =~= seq![s@]);
                        }
                    },
                    None => {},
                }
            },
        }
        out
    }

    /// The file-list entry of the info dictionary, when present.
    pub closed spec fn seg_files(self) -> Seq<u8> {
        match self.files {
            Some(fs) => spec_benc_bytes(key_files()) + seq![108u8] + spec_benc_files(fs@) + seq![
                101u8,
            ],
            None => Seq::<u8>::empty(),
        }
    }

    /// The single-file length entry, when present.
    pub closed spec fn seg_length(self) -> Seq<u8> {
        match self.length {
            Some(v) => spec_benc_bytes(key_length()) + spec_benc_int(v as int),
            None => Seq::<u8>::empty(),
        }
    }

    /// The md5sum entry, when present.
    pub closed spec fn seg_md5sum(self) -> Seq<u8> {
        match self.md5sum {
            Some(m) => spec_benc_bytes(key_md5sum()) + spec_benc_str(m@),
            None => Seq::<u8>::empty(),
        }
    }

    /// The name entry.
    pub closed spec fn seg_name(self) -> Seq<u8> {
        spec_benc_bytes(key_name()) + spec_benc_str(self.name@)
    }

    /// The path entry, when present.
    pub closed spec fn seg_path(self) -> Seq<u8> {
        match self.path {
            Some(p) => spec_benc_bytes(key_path()) + seq![108u8] + spec_benc_path(p@) + seq![101u8],
            None => Seq::<u8>::empty(),
        }
    }

    /// The piece length entry.
    pub closed spec fn seg_piece_length(self) -> Seq<u8> {
        spec_benc_bytes(key_piece_length()) + spec_benc_int(self.piece_length as int)
    }

    /// The piece hash table entry.
    pub closed spec fn seg_pieces(self) -> Seq<u8> {
        spec_benc_bytes(key_pieces()) + spec_benc_bytes(self.pieces@)
    }

    /// The private flag entry, when present.
    pub closed spec fn seg_private(self) -> Seq<u8> {
        match self.private {
            Some(v) => spec_benc_bytes(key_private()) + spec_benc_int(v as int),
            None => Seq::<u8>::empty(),
        }
    }

    /// The root hash entry, when present.
    pub closed spec fn seg_root_hash(self) -> Seq<u8> {
        match self.root_hash {
            Some(h) => spec_benc_bytes(key_root_hash()) + spec_benc_str(h@),
            None => Seq::<u8>::empty(),
        }
    }

    /// The bencoded info dictionary: keys in sorted order, fields that
    /// are absent omitted, exactly as the descriptor's producer wrote it.
    pub closed spec fn spec_info_bytes(self) -> Seq<u8> {
        seq![100u8] + self.seg_files() + self.seg_length() + self.seg_md5sum() + self.seg_name()
            + self.seg_path() + self.seg_piece_length() + self.seg_pieces() + self.seg_private()
            + self.seg_root_hash() + seq![101u8]
    }

    fn push_seg_files(&self, out: &mut Vec<u8>)
        ensures
            final(out)@ == old(out)@ + self.seg_files(),
    {
        let ghost b0 = out@;
        match self.files.as_ref() {
            Some(fs) => {
                let key: Vec<u8> = vec![102u8, 105, 108, 101, 115];
                proof {
                    assert(key@ =~= key_files());
                }
                push_benc_bytes(out, &key);
                out.push(108);
                push_files_items(out, fs);
                out.push(101);
            },
            None => {},
        }
        proof {
            assert(out@ =~= b0 + self.seg_files());
        }
    }

    fn push_seg_length(&self, out: &mut Vec<u8>)
        ensures
            final(out)@ == old(out)@ + self.seg_length(),
    {
        let ghost b0 = out@;
        match self.length {
            Some(v) => {
                let key: Vec<u8> = vec![108u8, 101, 110, 103, 116, 104];
                proof {
                    assert(key@ =~= key_length());
                }
                push_benc_bytes(out, &key);
                push_benc_i64(out, v);
            },
            None => {},
        }
        proof {
            assert(out@ =~= b0 + self.seg_length());
        }
    }

    fn push_seg_md5sum(&self, out: &mut Vec<u8>)
        ensures
            final(out)@ == old(out)@ + self.seg_md5sum(),
    {
        let ghost b0 = out@;
        match self.md5sum.as_ref() {
            Some(m) => {
                let key: Vec<u8> = vec![109u8, 100, 53, 115, 117, 109];
                proof {
                    assert(key@ =~= key_md5sum());
                }
                push_benc_bytes(out, &key);
                push_benc_str(out, m.as_str());
            },
            None => {},
        }
        proof {
            assert(out@ =~= b0 + self.seg_md5sum());
        }
    }

    fn push_seg_name(&self, out: &mut Vec<u8>)
        ensures
            final(out)@ == old(out)@ + self.seg_name(),
    {
        let ghost b0 = out@;
        let key: Vec<u8> = vec![110u8, 97, 109, 101];
        proof {
            assert(key@ =~= key_name());
        }
        push_benc_bytes(out, &key);
        push_benc_str(out, self.name.as_str());
        proof {
            assert(out@ =~= b0 + self.seg_name());
        }
    }

    fn push_seg_path(&self, out: &mut Vec<u8>)
        ensures
            final(out)@ == old(out)@ + self.seg_path(),
    {
        let ghost b0 = out@;
        match self.path.as_ref() {
            Some(p) => {
                let key: Vec<u8> = vec![112u8, 97, 116, 104];
                proof {
                    assert(key@ =~= key_path());
                }
                push_benc_bytes(out, &key);
                out.push(108);
                push_path_items(out, p);
                out.push(101);
            },
            None => {},
        }
        proof {
            assert(out@ =~= b0 + self.seg_path());
        }
    }

    fn push_seg_piece_length(&self, out: &mut Vec<u8>)
        ensures
            final(out)@ == old(out)@ + self.seg_piece_length(),
    {
        let ghost b0 = out@;
        let key: Vec<u8> = vec![112u8, 105, 101, 99, 101, 32, 108, 101, 110, 103, 116, 104];
        proof {
            assert(key@ =~= key_piece_length());
        }
        push_benc_bytes(out, &key);
        push_benc_i64(out, self.piece_length);
        proof {
            assert(out@ =~= b0 + self.seg_piece_length());
        }
    }

    fn push_seg_pieces(&self, out: &mut Vec<u8>)
        ensures
            final(out)@ == old(out)@ + self.seg_pieces(),
    {
        let ghost b0 = out@;
        let key: Vec<u8> = vec![112u8, 105, 101, 99, 101, 115];
        proof {
            assert(key@ =~= key_pieces());
        }
        push_benc_bytes(out, &key);
        push_benc_bytes(out, &self.pieces);
        proof {
            assert(out@ =~= b0 + self.seg_pieces());
        }
    }

    fn push_seg_private(&self, out: &mut Vec<u8>)
        ensures
            final(out)@ == old(out)@ + self.seg_private(),
    {
        let ghost b0 = out@;
        match self.private {
            Some(v) => {
                let key: Vec<u8> = vec![112u8, 114, 105, 118, 97, 116, 101];
                proof {
                    assert(key@ =~= key_private());
                }
                push_benc_bytes(out, &key);
                push_benc_i64(out, v as i64);
            },
            None => {},
        }
        proof {
            assert(out@ =~= b0 + self.seg_private());
        }
    }

    fn push_seg_root_hash(&self, out: &mut Vec<u8>)
        ensures
            final(out)@ == old(out)@ + self.seg_root_hash(),
    {
        let ghost b0 = out@;
        match self.root_hash.as_ref() {
            Some(h) => {
                let key: Vec<u8> = vec![114u8, 111, 111, 116, 32, 104, 97, 115, 104];
                proof {
                    assert(key@ =~= key_root_hash());
                }
                push_benc_bytes(out, &key);
                push_benc_str(out, h.as_str());
            },
            None => {},
        }
        proof {
            assert(out@ =~= b0 + self.seg_root_hash());
        }
    }

    /// Re-encode the info dictionary.
    #[verifier::rlimit(100)]
    pub fn info_bytes(&self) -> (r: Vec<u8>)
        ensures
            r@ == self.spec_info_bytes(),
    {
        let mut out: Vec<u8> = Vec::new();
        out.push(100);
        self.push_seg_files(&mut out);
        self.push_seg_length(&mut out);
        self.push_seg_md5sum(&mut out);
        self.push_seg_name(&mut out);
        self.push_seg_path(&mut out);
        self.push_seg_piece_length(&mut out);
        self.push_seg_pieces(&mut out);
        self.push_seg_private(&mut out);
        self.push_seg_root_hash(&mut out);
        out.push(101);
        proof {
            assert(out@ =~= self.spec_info_bytes());
        }
        out
    }

    /// The torrent's identity on the wire: SHA-1 over the bencoded info
    /// dictionary.
    pub fn get_info_hash(&self) -> (r: [u8; 20])
        ensures
            r@ == sha1_of(self.spec_info_bytes()),
    {
        let encoded_pkt = self.info_bytes();
        sha1_digest(&encoded_pkt)
    }

    /// The announce URLs as character sequences.
    pub open spec fn spec_announce_views(self) -> Seq<Seq<char>> {
        match self.spec_announce_list() {
            Some(list) => flat_views(list@),
            None => match self.spec_announce_opt() {
                Some(s) => seq![s@],
                None => Seq::<Seq<char>>::empty(),
            },
        }
    }
}

/// One announce tier as character sequences.
pub open spec fn views_of(row: Seq<String>) -> Seq<Seq<char>> {
    row.map_values(|s: String| s@)
}

/// All announce tiers flattened, in order.
pub open spec fn flat_views(list: Seq<Vec<String>>) -> Seq<Seq<char>>
    decreases list.len(),
{
    if list.len() == 0 {
        Seq::<Seq<char>>::empty()
    } else {
        flat_views(list.drop_last()) + views_of(list.last()@)
    }
}

proof fn lemma_flat_views_step(list: Seq<Vec<String>>, i: int)
    requires
        0 <= i < list.len(),
    ensures
        flat_views(list.take(i + 1)) == flat_views(list.take(i)) + views_of(list[i]@),
{
    assert(list.take(i + 1).drop_last() =~= list.take(i));
    assert(list.take(i + 1).last() == list[i]);
}

/// Under `wf` the last piece's length lies in `[1, piece_length]`, and so
/// does every other piece's.
pub proof fn lemma_piece_length_range(t: TorrentInfo, p: int)
    requires
        t.wf(),
        0 <= p < t.spec_num_pieces(),
    ensures
        1 <= t.spec_piece_length_of(p) <= t.spec_piece_len(),
{
    let n = t.spec_num_pieces();
    let pl = t.spec_piece_len();
    let total = t.spec_total();
    assert((n - 1) * pl == pl * (n - 1)) by (nonlinear_arith);
    assert(n * pl == (n - 1) * pl + pl) by (nonlinear_arith);
}

/// The ASCII bytes of the info dictionary keys, in their sorted order.
pub open spec fn key_files() -> Seq<u8> {
    seq![102u8, 105, 108, 101, 115]
}

pub open spec fn key_length() -> Seq<u8> {
    seq![108u8, 101, 110, 103, 116, 104]
}

pub open spec fn key_md5sum() -> Seq<u8> {
    seq![109u8, 100, 53, 115, 117, 109]
}

pub open spec fn key_name() -> Seq<u8> {
    seq![110u8, 97, 109, 101]
}

pub open spec fn key_path() -> Seq<u8> {
    seq![112u8, 97, 116, 104]
}

pub open spec fn key_piece_length() -> Seq<u8> {
    seq![112u8, 105, 101, 99, 101, 32, 108, 101, 110, 103, 116, 104]
}

pub open spec fn key_pieces() -> Seq<u8> {
    seq![112u8, 105, 101, 99, 101, 115]
}

pub open spec fn key_private() -> Seq<u8> {
    seq![112u8, 114, 105, 118, 97, 116, 101]
}

pub open spec fn key_root_hash() -> Seq<u8> {
    seq![114u8, 111, 111, 116, 32, 104, 97, 115, 104]
}

/// The elements of a bencoded list of strings, in order.
pub open spec fn spec_benc_path(l: Seq<String>) -> Seq<u8>
    decreases l.len(),
{
    if l.len() == 0 {
        Seq::<u8>::empty()
    } else {
        spec_benc_path(l.drop_last()) + spec_benc_str(l.last()@)
    }
}

proof fn lemma_benc_path_step(l: Seq<String>, i: int)
    requires
        0 <= i < l.len(),
    ensures
        spec_benc_path(l.take(i + 1)) == spec_benc_path(l.take(i)) + spec_benc_str(l[i]@),
{
    assert(l.take(i + 1).drop_last() =~= l.take(i));
    assert(l.take(i + 1).last() == l[i]);
}

/// One file entry's dictionary: length, optional md5sum, path.
pub open spec fn spec_benc_file(f: File) -> Seq<u8> {
    seq![100u8] + spec_benc_bytes(key_length()) + spec_benc_int(f.length as int) + (
    match f.md5sum {
        Some(m) => spec_benc_bytes(key_md5sum()) + spec_benc_str(m@),
        None => Seq::<u8>::empty(),
    }) + spec_benc_bytes(key_path()) + seq![108u8] + spec_benc_path(f.path@) + seq![101u8] + seq![
        101u8,
    ]
}

/// The elements of the bencoded file list, in order.
pub open spec fn spec_benc_files(fs: Seq<File>) -> Seq<u8>
    decreases fs.len(),
{
    if fs.len() == 0 {
        Seq::<u8>::empty()
    } else {
        spec_benc_files(fs.drop_last()) + spec_benc_file(fs.last())
    }
}

proof fn lemma_benc_files_step(fs: Seq<File>, i: int)
    requires
        0 <= i < fs.len(),
    ensures
        spec_benc_files(fs.take(i + 1)) == spec_benc_files(fs.take(i)) + spec_benc_file(fs[i]),
{
    assert(fs.take(i + 1).drop_last() =~= fs.take(i));
    assert(fs.take(i + 1).last() == fs[i]);
}

/// Appends each string of `l`, bencoded, in order.
#[verifier::loop_isolation(false)]
fn push_path_items(out: &mut Vec<u8>, l: &Vec<String>)
    ensures
        final(out)@ == old(out)@ + spec_benc_path(l@),
{
    let ghost b0 = out@;
    let len = l.len();
    let mut i: usize = 0;
    while i < len
        invariant
            0 <= i <= len,
            len == l@.len(),
            out@ =~= b0 + spec_benc_path(l@.take(i as int)),
        decreases len - i,
    {
        push_benc_str(out, l[i].as_str());
        proof {
            lemma_benc_path_step(l@, i as int);
        }
        i = i + 1;
    }
    proof {
        assert(l@.take(len as int) =~= l@);
    }
}

/// Appends one file entry's dictionary.
fn push_file(out: &mut Vec<u8>, f: &File)
    ensures
        final(out)@ == old(out)@ + spec_benc_file(*f),
{
    let ghost b0 = out@;
    out.push(100);
    let key_len: Vec<u8> = vec![108u8, 101, 110, 103, 116, 104];
    proof {
        assert(key_len@ =~= key_length());
    }
    push_benc_bytes(out, &key_len);
    push_benc_i64(out, f.length);
    match f.md5sum.as_ref() {
        Some(m) => {
            let key_md5: Vec<u8> = vec![109u8, 100, 53, 115, 117, 109];
            proof {
                assert(key_md5@ =~= key_md5sum());
            }
            push_benc_bytes(out, &key_md5);
            push_benc_str(out, m.as_str());
        },
        None => {},
    }
    let key_p: Vec<u8> = vec![112u8, 97, 116, 104];
    proof {
        assert(key_p@ =~= key_path());
    }
    push_benc_bytes(out, &key_p);
    out.push(108);
    push_path_items(out, &f.path);
    out.push(101);
    out.push(101);
    proof {
        assert(out@ =~= b0 + spec_benc_file(*f));
    }
}

/// Appends each file entry, in order.
#[verifier::loop_isolation(false)]
fn push_files_items(out: &mut Vec<u8>, fs: &Vec<File>)
    ensures
        final(out)@ == old(out)@ + spec_benc_files(fs@),
{
    let ghost b0 = out@;
    let len = fs.len();
    let mut i: usize = 0;
    while i < len
        invariant
            0 <= i <= len,
            len == fs@.len(),
            out@ =~= b0 + spec_benc_files(fs@.take(i as int)),
        decreases len - i,
    {
        push_file(out, &fs[i]);
        proof {
            lemma_benc_files_step(fs@, i as int);
        }
        i = i + 1;
    }
    proof {
        assert(fs@.take(len as int) =~= fs@);
    }
}

} // verus!
