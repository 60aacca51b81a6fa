//! Block-level download bookkeeping: which pieces are being fetched, the
//! lifecycle of each 16 KiB block, piece completion, digest verification
//! and the offsets at which the shell writes to the backing file.
use crate::bitfield::bv_bits;
use crate::bitfield::bv_get;
use crate::bitfield::bv_len;
use crate::digest::digest_eq;
use crate::digest::sha1_digest;
use crate::digest::sha1_of;
use crate::meta_info::TorrentInfo;
use crate::piece::spec_block_size;
use crate::piece::spec_num_blocks;
use crate::piece_control::PieceControler;
use crate::piece_control::PieceStatus;
use vstd::prelude::*;

verus! {

pub const BLOCKSIZE: u32 = 16384;

/// At any time there are at most this many pieces in the downloading list.
pub const MAX_NO_PIECES: usize = 10;

/// Lifecycle of one block: free to hand out, handed to a session, being
/// written, written.
#[derive(Clone, Copy, PartialEq, Eq, Structural, Debug)]
pub enum BlockState {
    Open,
    Requested,
    Writing,
    Finished,
}

/// How many entries of `s` are `Open`.
pub open spec fn count_open(s: Seq<BlockState>) -> int
    decreases s.len(),
{
    if s.len() == 0 {
        0
    } else {
        count_open(s.drop_last()) + if s.last() == BlockState::Open {
            1int
        } else {
            0int
        }
    }
}

proof fn lemma_count_open_bounds(s: Seq<BlockState>)
    ensures
        0 <= count_open(s) <= s.len(),
    decreases s.len(),
{
    if s.len() > 0 {
        lemma_count_open_bounds(s.drop_last());
    }
}

proof fn lemma_count_open_update(s: Seq<BlockState>, i: int, v: BlockState)
    requires
        0 <= i < s.len(),
    ensures
        count_open(s.update(i, v)) == count_open(s) + (if v == BlockState::Open {
            1int
        } else {
            0int
        }) - (if s[i] == BlockState::Open {
            1int
        } else {
            0int
        }),
    decreases s.len(),
{
    let t = s.update(i, v);
    if i == s.len() - 1 {
        assert(t.drop_last() =~= s.drop_last());
    } else {
        assert(t.drop_last() =~= s.drop_last().update(i, v));
        lemma_count_open_update(s.drop_last(), i, v);
    }
}

proof fn lemma_count_open_uniform(s: Seq<BlockState>)
    ensures
        (forall|i: int| 0 <= i < s.len() ==> s[i] == BlockState::Open) ==> count_open(s)
            == s.len(),
        (forall|i: int| 0 <= i < s.len() ==> s[i] != BlockState::Open) ==> count_open(s) == 0,
    decreases s.len(),
{
    if s.len() > 0 {
        lemma_count_open_uniform(s.drop_last());
        assert(forall|i: int| 0 <= i < s.drop_last().len() ==> s.drop_last()[i] == s[i]);
    }
}

/// One piece being fetched: its index, the state of each of its blocks,
/// and how many blocks are still `Open`.
pub struct DownloadingPiece {
    piece_idx: usize,
    blocks: Vec<BlockState>,
    remain_blocks: usize,
}

impl DownloadingPiece {
    pub closed spec fn spec_piece_idx(self) -> usize {
        self.piece_idx
    }

    pub closed spec fn spec_blocks(self) -> Seq<BlockState> {
        self.blocks@
    }

    pub closed spec fn spec_remain(self) -> int {
        self.remain_blocks as int
    }

    pub fn new(piece_idx: usize, no_blocks: usize) -> (r: Self)
        ensures
            r.spec_piece_idx() == piece_idx,
            r.spec_blocks().len() == no_blocks,
            forall|i: int| 0 <= i < no_blocks ==> r.spec_blocks()[i] == BlockState::Open,
            r.spec_remain() == no_blocks,
    {
        Self { piece_idx, blocks: vec![BlockState::Open; no_blocks], remain_blocks: no_blocks }
    }

    pub fn set_state(&mut self, block_idx: usize, state: BlockState)
        requires
            (block_idx as int) < old(self).spec_blocks().len(),
        ensures
            final(self).spec_blocks() == old(self).spec_blocks().update(block_idx as int, state),
            final(self).spec_piece_idx() == old(self).spec_piece_idx(),
            final(self).spec_remain() == old(self).spec_remain(),
    {
        self.blocks.set(block_idx, state);
    }

    /// The first block still `Open`, if any.
    pub fn get_next_free_block(&self) -> (r: Option<usize>)
        ensures
            match r {
                Some(b) => {
                    &&& 0 <= (b as int) < self.spec_blocks().len()
                    &&& self.spec_blocks()[b as int] == BlockState::Open
                    &&& forall|j: int| 0 <= j < b ==> self.spec_blocks()[j] != BlockState::Open
                },
                None => forall|j: int|
                    0 <= j < self.spec_blocks().len() ==> self.spec_blocks()[j]
                        != BlockState::Open,
            },
    {
        let len = self.blocks.len();
        let mut i: usize = 0;
        while i < len
            invariant
                0 <= i <= len,
                len == self.spec_blocks().len(),
                forall|j: int| 0 <= j < i ==> self.spec_blocks()[j] != BlockState::Open,
            decreases len - i,
        {
            if self.blocks[i] == BlockState::Open {
                return Some(i);
            }
            i = i + 1;
        }
        None
    }

    /// True exactly when every block is `Finished`.
    pub fn is_finished(&self) -> (r: bool)
        ensures
            r == (forall|j: int|
                0 <= j < self.spec_blocks().len() ==> self.spec_blocks()[j]
                    == BlockState::Finished),
    {
        let len = self.blocks.len();
        let mut i: usize = 0;
        while i < len
            invariant
                0 <= i <= len,
                len == self.spec_blocks().len(),
                forall|j: int| 0 <= j < i ==> self.spec_blocks()[j] == BlockState::Finished,
            decreases len - i,
        {
            if self.blocks[i] != BlockState::Finished {
                return false;
            }
            i = i + 1;
        }
        true
    }
}

/// The download manager: the rarest-first index, the pieces being
/// fetched, and the descriptor. The backing file itself is driven by the
/// unverified shell, which writes at the offsets this type computes.
pub struct Downloader {
    piece_control: PieceControler,
    downloading: Vec<DownloadingPiece>,
    meta_info: TorrentInfo,
}

impl Downloader {
    pub closed spec fn spec_ctrl(self) -> PieceControler {
        self.piece_control
    }

    pub closed spec fn spec_downloading(self) -> Seq<DownloadingPiece> {
        self.downloading@
    }

    pub closed spec fn spec_meta(self) -> TorrentInfo {
        self.meta_info
    }

    /// Number of pieces of the torrent.
    pub open spec fn n(self) -> int {
        self.spec_ctrl().n()
    }

    /// What every entry of the downloading list satisfies: a real piece,
    /// marked `PICKED`, with one state per block and an accurate count of
    /// the `Open` ones.
    pub open spec fn entry_wf(self, d: DownloadingPiece) -> bool {
        &&& (d.spec_piece_idx() as int) < self.n()
        &&& self.spec_ctrl().status(d.spec_piece_idx() as int) == PieceStatus::PICKED
        &&& d.spec_blocks().len() == spec_num_blocks(
            self.spec_meta().spec_piece_length_of(d.spec_piece_idx() as int),
        )
        &&& d.spec_remain() == count_open(d.spec_blocks())
    }

    /// The manager's invariant.
    pub open spec fn wf(self) -> bool {
        &&& self.spec_meta().wf()
        &&& self.spec_ctrl().well_formed()
        &&& self.spec_ctrl().n() == self.spec_meta().spec_num_pieces()
        &&& self.spec_downloading().len() <= MAX_NO_PIECES
        &&& forall|k: int|
            0 <= k < self.spec_downloading().len() ==> self.entry_wf(
                #[trigger] self.spec_downloading()[k],
            )
        &&& forall|k1: int, k2: int|
            #![trigger self.spec_downloading()[k1], self.spec_downloading()[k2]]
            0 <= k1 < k2 < self.spec_downloading().len()
                ==> self.spec_downloading()[k1].spec_piece_idx()
                != self.spec_downloading()[k2].spec_piece_idx()
    }

    /// Builds the manager over a validated descriptor, with nothing
    /// downloaded yet.
    pub fn new(torrent_info: TorrentInfo) -> (r: Self)
        requires
            torrent_info.wf(),
        ensures
            r.wf(),
            r.spec_meta() == torrent_info,
            r.spec_downloading().len() == 0,
            r.n() == torrent_info.spec_num_pieces(),
            forall|p: int| 0 <= p < r.n() ==> r.spec_ctrl().count(p) == 0,
            forall|p: int| 0 <= p < r.n() ==> r.spec_ctrl().status(p) == PieceStatus::NOTYET,
            r.spec_ctrl().finished() == 0,
    {
        let no_pieces = torrent_info.get_number_of_pieces();
        let piece_control = PieceControler::new(no_pieces);
        Self { piece_control, downloading: Vec::new(), meta_info: torrent_info }
    }

    /// What a peer's departure does to the counts: each piece the peer
    /// reported, and whose count was still positive, drops by one.
    pub open spec fn disconnect_step(pre: Downloader, post: Downloader, bits: Seq<bool>) -> bool {
        &&& post.wf()
        &&& post.n() == pre.n()
        &&& post.spec_meta() == pre.spec_meta()
        &&& post.spec_downloading() == pre.spec_downloading()
        &&& (forall|p: int|
            0 <= p < pre.n() ==> #[trigger] post.spec_ctrl().count(p) as int
                == pre.spec_ctrl().count(p) - (if p < bits.len() && bits[p]
                && pre.spec_ctrl().count(p) > 0 {
                1int
            } else {
                0int
            }))
        &&& (forall|p: int|
            0 <= p < pre.n() ==> #[trigger] post.spec_ctrl().status(p) == pre.spec_ctrl().status(
                p,
            ))
        &&& post.spec_ctrl().finished() == pre.spec_ctrl().finished()
    }

    /// A peer went away: lower the availability count of every piece its
    /// last bitfield reported. A count already at zero stays there.
    #[verifier::loop_isolation(false)]
    pub fn apply_disconnect(&mut self, bit_field: &bit_vec::BitVec)
        requires
            old(self).wf(),
        ensures
            final(self).wf(),
            Self::disconnect_step(*old(self), *final(self), bv_bits(*bit_field)),
    {
        let ghost orig = *old(self);
        let nbits = bv_len(bit_field);
        let n = self.piece_control.get_no_entries();
        let upper = if nbits < n {
            nbits
        } else {
            n
        };
        let mut p: usize = 0;
        while p < upper
            invariant
                0 <= p <= upper,
                self.wf(),
                self.n() == orig.n(),
                self.spec_meta() == orig.spec_meta(),
                self.spec_downloading() == orig.spec_downloading(),
                forall|q: int|
                    0 <= q < orig.n() ==> #[trigger] self.spec_ctrl().count(q) as int
                        == orig.spec_ctrl().count(q) - (if q < p && q < bv_bits(*bit_field).len()
                        && bv_bits(*bit_field)[q] && orig.spec_ctrl().count(q) > 0 {
                        1int
                    } else {
                        0int
                    }),
                forall|q: int|
                    0 <= q < orig.n() ==> #[trigger] self.spec_ctrl().status(q)
                        == orig.spec_ctrl().status(q),
                self.spec_ctrl().finished() == orig.spec_ctrl().finished(),
            decreases upper - p,
        {
            let ghost before = *self;
            if let Some(set) = bv_get(bit_field, p) {
                if set {
                    if self.piece_control.get_peer_count(p) > 0 {
                        self.piece_control.decrease_count(p);
                    }
                }
            }
            proof {
                assert forall|q: int| 0 <= q < orig.n() implies #[trigger] self.spec_ctrl().count(
                    q,
                ) as int == orig.spec_ctrl().count(q) - (if q < p + 1 && q < bv_bits(
                    *bit_field,
                ).len() && bv_bits(*bit_field)[q] && orig.spec_ctrl().count(q) > 0 {
                    1int
                } else {
                    0int
                }) by {
                    if q == p as int {
                        assert(before.spec_ctrl().count(q) as int == orig.spec_ctrl().count(q));
                    } else {
                        assert(self.spec_ctrl().count(q) == before.spec_ctrl().count(q));
                    }
                }
            }
            p = p + 1;
        }
    }

    /// What applying a peer's bitfield does: each reported piece's count
    /// rises by one; statuses, the downloading list and the descriptor are
    /// untouched.
    pub open spec fn update_step(pre: Downloader, post: Downloader, bits: Seq<bool>) -> bool {
        &&& post.wf()
        &&& post.n() == pre.n()
        &&& post.spec_meta() == pre.spec_meta()
        &&& post.spec_downloading() == pre.spec_downloading()
        &&& (forall|p: int|
            0 <= p < pre.n() ==> #[trigger] post.spec_ctrl().count(p) as int
                == pre.spec_ctrl().count(p) + (if p < bits.len() && bits[p] {
                1int
            } else {
                0int
            }))
        &&& (forall|p: int|
            0 <= p < pre.n() ==> #[trigger] post.spec_ctrl().status(p) == pre.spec_ctrl().status(
                p,
            ))
        &&& post.spec_ctrl().finished() == pre.spec_ctrl().finished()
    }

    /// What one remote `Have` does: that piece's count rises by one when
    /// the index is real; nothing else moves.
    pub open spec fn have_step(pre: Downloader, post: Downloader, p: int) -> bool {
        &&& post.wf()
        &&& post.n() == pre.n()
        &&& post.spec_meta() == pre.spec_meta()
        &&& post.spec_downloading() == pre.spec_downloading()
        &&& (forall|q: int|
            0 <= q < pre.n() ==> #[trigger] post.spec_ctrl().count(q) as int
                == pre.spec_ctrl().count(q) + (if q == p {
                1int
            } else {
                0int
            }) || !(0 <= p < pre.n()))
        &&& (!(0 <= p < pre.n()) ==> post == pre)
        &&& (forall|q: int|
            0 <= q < pre.n() ==> #[trigger] post.spec_ctrl().status(q) == pre.spec_ctrl().status(
                q,
            ))
        &&& post.spec_ctrl().finished() == pre.spec_ctrl().finished()
    }

    /// A single remote `Have`: raise that piece's availability count. An
    /// index past the piece count is ignored.
    pub fn apply_have(&mut self, piece_idx: usize)
        requires
            old(self).wf(),
            (piece_idx as int) < old(self).n() ==> old(self).spec_ctrl().count(piece_idx as int)
                < usize::MAX,
        ensures
            final(self).wf(),
            Self::have_step(*old(self), *final(self), piece_idx as int),
    {
        let n = self.piece_control.get_no_entries();
        if piece_idx < n {
            self.piece_control.increase_count(piece_idx);
        }
    }

    /// Raise the availability count of every piece the bitfield reports;
    /// bits beyond the piece count are ignored.
    #[verifier::loop_isolation(false)]
    pub fn update_priority(&mut self, bit_field: &bit_vec::BitVec)
        requires
            old(self).wf(),
            forall|p: int| 0 <= p < old(self).n() ==> old(self).spec_ctrl().count(p) < usize::MAX,
        ensures
            final(self).wf(),
            Self::update_step(*old(self), *final(self), bv_bits(*bit_field)),
    {
        let ghost orig = *old(self);
        let nbits = bv_len(bit_field);
        let n = self.piece_control.get_no_entries();
        let upper = if nbits < n {
            nbits
        } else {
            n
        };
        let mut p: usize = 0;
        while p < upper
            invariant
                0 <= p <= upper,
                self.wf(),
                self.n() == orig.n(),
                self.spec_meta() == orig.spec_meta(),
                self.spec_downloading() == orig.spec_downloading(),
                forall|q: int|
                    0 <= q < orig.n() ==> #[trigger] self.spec_ctrl().count(q) as int
                        == orig.spec_ctrl().count(q) + (if q < p && q < bv_bits(*bit_field).len()
                        && bv_bits(*bit_field)[q] {
                        1int
                    } else {
                        0int
                    }),
                forall|q: int|
                    0 <= q < orig.n() ==> self.spec_ctrl().status(q) == orig.spec_ctrl().status(q),
                self.spec_ctrl().finished() == orig.spec_ctrl().finished(),
            decreases upper - p,
        {
            let ghost before = *self;
            let got = bv_get(bit_field, p);
            let do_inc = match got {
                Some(true) => true,
                _ => false,
            };
            if do_inc {
                self.piece_control.increase_count(p);
                proof {
                    assert((p as int) < bv_bits(*bit_field).len());
                    assert(bv_bits(*bit_field)[p as int]);
                    assert(self.spec_ctrl().count(p as int) as int == before.spec_ctrl().count(
                        p as int,
                    ) + 1);
                }
            } else {
                proof {
                    assert(!((p as int) < bv_bits(*bit_field).len() && bv_bits(*bit_field)[p as int]));
                    assert(*self == before);
                }
            }
            proof {
                assert forall|q: int| 0 <= q < orig.n() implies #[trigger] self.spec_ctrl().count(
                    q,
                ) as int == orig.spec_ctrl().count(q) + (if q < p + 1 && q < bv_bits(
                    *bit_field,
                ).len() && bv_bits(*bit_field)[q] {
                    1int
                } else {
                    0int
                }) by {
                    if q == p as int {
                        assert(before.spec_ctrl().count(q) as int == orig.spec_ctrl().count(q));
                        if q < bv_bits(*bit_field).len() && bv_bits(*bit_field)[q] {
                            assert(self.spec_ctrl().count(q) as int == before.spec_ctrl().count(q)
                                + 1);
                        } else {
                            assert(self.spec_ctrl().count(q) == before.spec_ctrl().count(q));
                        }
                    } else {
                        assert(self.spec_ctrl().count(q) == before.spec_ctrl().count(q));
                    }
                }
            }
            p = p + 1;
        }
    }
}

impl Downloader {
    /// Whether the downloading entry at position `k` can serve this peer:
    /// the peer reports the piece and the entry still has `Open` blocks.
    pub open spec fn entry_serves(self, bits: Seq<bool>, k: int) -> bool {
        let d = self.spec_downloading()[k];
        &&& (d.spec_piece_idx() as int) < bits.len()
        &&& bits[d.spec_piece_idx() as int]
        &&& d.spec_remain() > 0
    }

    /// No block can be handed out for this bitfield: no downloading entry
    /// serves it, and either the downloading list is full or no further
    /// piece is pickable.
    pub open spec fn no_block_available(self, bits: Seq<bool>) -> bool {
        &&& (forall|k: int|
            0 <= k < self.spec_downloading().len() ==> !#[trigger] self.entry_serves(bits, k))
        &&& (self.spec_downloading().len() >= MAX_NO_PIECES || (forall|i: int|
            0 <= i < self.n() ==> !self.spec_ctrl().pickable(
                bits,
                #[trigger] self.spec_ctrl().list_at(i),
            )))
    }

    /// The piece came from the downloading list: the first entry that can
    /// serve the peer, with nothing changed.
    pub open spec fn serves_existing(pre: Downloader, post: Downloader, bits: Seq<bool>, p: usize) -> bool {
        &&& post == pre
        &&& exists|k: int|
            0 <= k < pre.spec_downloading().len() && #[trigger] pre.entry_serves(bits, k)
                && pre.spec_downloading()[k].spec_piece_idx() == p && (forall|k2: int|
                0 <= k2 < k ==> !pre.entry_serves(bits, k2))
    }

    /// The piece is fresh: no entry served the peer, the list had room,
    /// the rarest pickable piece was marked `PICKED` and a new entry with
    /// every block `Open` was appended.
    pub open spec fn picks_fresh(pre: Downloader, post: Downloader, bits: Seq<bool>, p: usize) -> bool {
        &&& (forall|k: int|
            0 <= k < pre.spec_downloading().len() ==> !#[trigger] pre.entry_serves(bits, k))
        &&& pre.spec_downloading().len() < MAX_NO_PIECES
        &&& pre.spec_ctrl().pickable(bits, p as int)
        &&& post.spec_meta() == pre.spec_meta()
        &&& post.n() == pre.n()
        &&& post.spec_ctrl().status(p as int) == PieceStatus::PICKED
        &&& (forall|q: int|
            0 <= q < pre.n() && q != p ==> #[trigger] post.spec_ctrl().status(q)
                == pre.spec_ctrl().status(q))
        &&& (forall|q: int|
            0 <= q < pre.n() ==> #[trigger] post.spec_ctrl().count(q) == pre.spec_ctrl().count(q))
        &&& post.spec_ctrl().finished() == pre.spec_ctrl().finished()
        &&& post.spec_downloading().len() == pre.spec_downloading().len() + 1
        &&& (forall|k: int|
            0 <= k < pre.spec_downloading().len() ==> #[trigger] post.spec_downloading()[k]
                == pre.spec_downloading()[k])
        &&& {
            let d = post.spec_downloading().last();
            &&& d.spec_piece_idx() == p
            &&& d.spec_blocks().len() == spec_num_blocks(
                pre.spec_meta().spec_piece_length_of(p as int),
            )
            &&& (forall|b: int|
                0 <= b < d.spec_blocks().len() ==> #[trigger] d.spec_blocks()[b]
                    == BlockState::Open)
            &&& d.spec_remain() == d.spec_blocks().len()
        }
    }

    /// Choose the piece the next block request should come from: first a
    /// piece already being fetched that the peer has and that still has
    /// `Open` blocks; otherwise, if the downloading list has room, the
    /// rarest piece the peer can serve, which is then marked `PICKED` and
    /// given a fresh entry.
    #[verifier::loop_isolation(false)]
    pub fn pick_next_piece(&mut self, peer_bitfield: &bit_vec::BitVec) -> (r: Option<usize>)
        requires
            old(self).wf(),
        ensures
            final(self).wf(),
            match r {
                Some(p) => Self::serves_existing(
                    *old(self),
                    *final(self),
                    bv_bits(*peer_bitfield),
                    p,
                ) || Self::picks_fresh(*old(self), *final(self), bv_bits(*peer_bitfield), p),
                None => *final(self) == *old(self) && old(self).no_block_available(
                    bv_bits(*peer_bitfield),
                ),
            },
    {
        let ghost orig = *old(self);
        let ghost bits = bv_bits(*peer_bitfield);
        // a piece already being fetched comes first
        let len = self.downloading.len();
        let mut k: usize = 0;
        while k < len
            invariant
                0 <= k <= len,
                *self == orig,
                orig.wf(),
                len == orig.spec_downloading().len(),
                forall|k2: int| 0 <= k2 < k ==> !#[trigger] orig.entry_serves(bits, k2),
            decreases len - k,
        {
            let idx = self.downloading[k].piece_idx;
            if let Some(check) = bv_get(peer_bitfield, idx) {
                if check && self.downloading[k].remain_blocks > 0 {
                    proof {
                        assert(orig.entry_serves(bits, k as int));
                    }
                    return Some(idx);
                }
            }
            proof {
                assert(!orig.entry_serves(bits, k as int));
            }
            k = k + 1;
        }
        // the list is bounded; when it is full the session asks again later
        if len >= MAX_NO_PIECES {
            return None;
        }
        // otherwise take the rarest piece this peer can serve
        match self.piece_control.get_next_piece(peer_bitfield) {
            Some(piece_idx) => {
                proof {
                    assert(orig.spec_ctrl().pickable(bits, piece_idx as int));
                }
                self.piece_control.set_piece_picked(piece_idx);
                let piece_len = self.meta_info.get_piece_length(piece_idx);
                let number_of_blocks = ((piece_len as u64 + 16383) / 16384) as usize;
                let new_piece = DownloadingPiece::new(piece_idx, number_of_blocks);
                self.downloading.push(new_piece);
                proof {
                    let post = *self;
                    let pl = orig.spec_meta().spec_piece_length_of(piece_idx as int);
                    assert(number_of_blocks as int == spec_num_blocks(pl));
                    let d = post.spec_downloading().last();
                    lemma_count_open_uniform(d.spec_blocks());
                    // entries that were present keep their piece, which is not
                    // the fresh one: a fetched piece is PICKED, this one was not
                    assert forall|k2: int| 0 <= k2 < orig.spec_downloading().len() implies post.entry_wf(
                        #[trigger] post.spec_downloading()[k2],
                    ) && post.spec_downloading()[k2].spec_piece_idx() != piece_idx by {
                        assert(orig.entry_wf(orig.spec_downloading()[k2]));
                        assert(orig.spec_ctrl().status(
                            orig.spec_downloading()[k2].spec_piece_idx() as int,
                        ) == PieceStatus::PICKED);
                    }
                    assert(post.entry_wf(d));
                    assert(post.wf());
                    assert(Self::picks_fresh(orig, post, bits, piece_idx));
                }
                Some(piece_idx)
            },
            None => {
                proof {
                    assert forall|i: int| 0 <= i < orig.n() implies !orig.spec_ctrl().pickable(
                        bits,
                        #[trigger] orig.spec_ctrl().list_at(i),
                    ) by {}
                }
                None
            },
        }
    }

    /// How many bytes block `block_idx` of piece `piece_idx` holds.
    pub fn get_block_size(&self, piece_idx: usize, block_idx: usize) -> (r: u32)
        requires
            self.wf(),
            (piece_idx as int) < self.n(),
            (block_idx as int) < spec_num_blocks(
                self.spec_meta().spec_piece_length_of(piece_idx as int),
            ),
        ensures
            r as int == spec_block_size(
                self.spec_meta().spec_piece_length_of(piece_idx as int),
                block_idx as int,
            ),
            1 <= r <= BLOCKSIZE,
    {
        let piece_length = self.meta_info.get_piece_length(piece_idx);
        proof {
            crate::piece::lemma_block_size_range(piece_length as int, block_idx as int);
        }
        if (block_idx as u64 + 1) * 16384 <= piece_length as u64 {
            BLOCKSIZE
        } else {
            piece_length - (block_idx as u32) * BLOCKSIZE
        }
    }
}

impl Downloader {
    /// How the downloading list moves when block `b` of piece `p` is
    /// handed out: the entry for `p` — updated in place, or freshly
    /// appended when the piece was just picked — has exactly its first
    /// `Open` block moved to `Requested`, its open-block count drops by
    /// one, and every other entry stands untouched.
    pub open spec fn claims_block(pre: Downloader, post: Downloader, p: int, b: int) -> bool {
        exists|k: int|
            #![trigger post.spec_downloading()[k]]
            0 <= k < post.spec_downloading().len() && (
            post.spec_downloading()[k].spec_piece_idx() as int) == p && {
                let d = post.spec_downloading()[k];
                ||| (k < pre.spec_downloading().len() && post.spec_downloading()
                    == pre.spec_downloading().update(k, d) && d.spec_blocks()
                    == pre.spec_downloading()[k].spec_blocks().update(b, BlockState::Requested)
                    && pre.spec_downloading()[k].spec_blocks()[b] == BlockState::Open && (forall|
                    j: int,
                |
                    0 <= j < b ==> pre.spec_downloading()[k].spec_blocks()[j] != BlockState::Open)
                    && d.spec_remain() == pre.spec_downloading()[k].spec_remain() - 1)
                ||| (k == pre.spec_downloading().len() && post.spec_downloading()
                    == pre.spec_downloading().push(d) && b == 0 && d.spec_blocks().len()
                    == spec_num_blocks(pre.spec_meta().spec_piece_length_of(p))
                    && d.spec_blocks()[0] == BlockState::Requested && (forall|j: int|
                    1 <= j < d.spec_blocks().len() ==> d.spec_blocks()[j] == BlockState::Open)
                    && d.spec_remain() == d.spec_blocks().len() - 1)
            }
    }

    /// What one block pick does. On `None` nothing changes and nothing was
    /// available. On `Some((p, begin, len))` the first `Open` block of
    /// `p`'s entry — block `begin / 16384`, of a piece the peer has,
    /// `Open` beforehand wherever an entry for `p` existed — is now
    /// `Requested`, one fewer block remains open, the other entries stand,
    /// `p` is `PICKED`, and `len` is the block's size.
    pub open spec fn pick_block_step(
        pre: Downloader,
        post: Downloader,
        bits: Seq<bool>,
        r: Option<(u32, u32, u32)>,
    ) -> bool {
        match r {
            None => post == pre && pre.no_block_available(bits),
            Some(t) => {
                let p = t.0 as int;
                let begin = t.1 as int;
                let blen = t.2 as int;
                let b = begin / 16384;
                let plen = pre.spec_meta().spec_piece_length_of(p);
                &&& post.wf()
                &&& post.spec_meta() == pre.spec_meta()
                &&& post.n() == pre.n()
                &&& 0 <= p < pre.n()
                &&& p < bits.len() && bits[p]
                &&& begin == b * 16384
                &&& 0 <= b < spec_num_blocks(plen)
                &&& blen == spec_block_size(plen, b)
                &&& post.spec_ctrl().status(p) == PieceStatus::PICKED
                &&& (forall|q: int|
                    0 <= q < pre.n() && q != p ==> #[trigger] post.spec_ctrl().status(q)
                        == pre.spec_ctrl().status(q))
                &&& (forall|q: int|
                    0 <= q < pre.n() ==> #[trigger] post.spec_ctrl().count(q)
                        == pre.spec_ctrl().count(q))
                &&& (exists|k: int|
                    0 <= k < post.spec_downloading().len() && (
                    #[trigger] post.spec_downloading()[k]).spec_piece_idx() as int == p
                        && post.spec_downloading()[k].spec_blocks()[b] == BlockState::Requested)
                &&& (forall|j: int|
                    0 <= j < pre.spec_downloading().len() && (
                    #[trigger] pre.spec_downloading()[j]).spec_piece_idx() as int == p
                        ==> pre.spec_downloading()[j].spec_blocks()[b] == BlockState::Open)
                &&& Self::claims_block(pre, post, p, b)
            },
        }
    }

    /// Hand out the next block to request from this peer: the first `Open`
    /// block of the chosen piece, moved to `Requested`. Returns the piece
    /// index, the byte offset of the block inside the piece, and the block
    /// length.
    #[verifier::loop_isolation(false)]
    pub fn pick_next_block(&mut self, peer_bitfield: &bit_vec::BitVec) -> (r: Option<
        (u32, u32, u32),
    >)
        requires
            old(self).wf(),
        ensures
            final(self).wf(),
            Self::pick_block_step(*old(self), *final(self), bv_bits(*peer_bitfield), r),
    {
        let ghost orig = *old(self);
        let ghost bits = bv_bits(*peer_bitfield);
        let picked = self.pick_next_piece(peer_bitfield);
        match picked {
            Some(piece_idx) => {
                let ghost mid = *self;
                // locate the entry for the chosen piece
                let len = self.downloading.len();
                let mut k: usize = 0;
                let mut found: bool = false;
                while k < len
                    invariant
                        0 <= k <= len,
                        len == mid.spec_downloading().len(),
                        *self == mid,
                        !found ==> forall|k2: int|
                            0 <= k2 < k ==> (#[trigger] mid.spec_downloading()[k2]).spec_piece_idx()
                                != piece_idx,
                        found ==> k < len && mid.spec_downloading()[k as int].spec_piece_idx()
                            == piece_idx,
                    decreases len - k, (if found { 0int } else { 1int }),
                {
                    if self.downloading[k].piece_idx == piece_idx {
                        found = true;
                        break;
                    }
                    k = k + 1;
                }
                proof {
                    if Self::serves_existing(orig, mid, bits, piece_idx) {
                        let ks = choose|ks: int|
                            0 <= ks < orig.spec_downloading().len() && #[trigger] orig.entry_serves(
                                bits,
                                ks,
                            ) && orig.spec_downloading()[ks].spec_piece_idx() == piece_idx && (
                            forall|k2: int| 0 <= k2 < ks ==> !orig.entry_serves(bits, k2));
                        assert(mid.spec_downloading()[ks].spec_piece_idx() == piece_idx);
                        assert(found);
                    } else {
                        assert(Self::picks_fresh(orig, mid, bits, piece_idx));
                        assert(mid.spec_downloading().last().spec_piece_idx() == piece_idx);
                        assert(found);
                    }
                }
                let ghost kk = k as int;
                let ghost d0 = mid.spec_downloading()[kk];
                proof {
                    assert(mid.entry_wf(d0));
                    // the entry still has an Open block
                    if Self::serves_existing(orig, mid, bits, piece_idx) {
                        let ks = choose|ks: int|
                            0 <= ks < orig.spec_downloading().len() && #[trigger] orig.entry_serves(
                                bits,
                                ks,
                            ) && orig.spec_downloading()[ks].spec_piece_idx() == piece_idx && (
                            forall|k2: int| 0 <= k2 < ks ==> !orig.entry_serves(bits, k2));
                        assert(orig.spec_downloading()[ks].spec_remain() > 0);
                        assert(ks == kk) by {
                            if ks != kk {
                                assert(orig.spec_downloading()[ks].spec_piece_idx()
                                    == orig.spec_downloading()[kk].spec_piece_idx());
                            }
                        }
                        assert(d0.spec_remain() > 0);
                    } else {
                        assert(Self::picks_fresh(orig, mid, bits, piece_idx));
                        assert(kk == mid.spec_downloading().len() - 1) by {
                            if kk < mid.spec_downloading().len() - 1 {
                                assert(mid.spec_downloading()[kk]
                                    == orig.spec_downloading()[kk]);
                                assert(orig.entry_wf(orig.spec_downloading()[kk]));
                                assert(orig.spec_ctrl().status(piece_idx as int)
                                    == PieceStatus::PICKED);
                                assert(orig.spec_ctrl().pickable(bits, piece_idx as int));
                            }
                        }
                        assert(d0.spec_blocks().len() >= 1) by {
                            crate::meta_info::lemma_piece_length_range(
                                orig.spec_meta(),
                                piece_idx as int,
                            );
                        }
                        assert(d0.spec_remain() > 0);
                    }
                }
                let mut entry = self.downloading.remove(k);
                match entry.get_next_free_block() {
                    Some(block_idx) => {
                        proof {
                            lemma_count_open_update(
                                entry.spec_blocks(),
                                block_idx as int,
                                BlockState::Requested,
                            );
                        }
                        entry.remain_blocks = entry.remain_blocks - 1;
                        entry.set_state(block_idx, BlockState::Requested);
                        self.downloading.insert(k, entry);
                        proof {
                            assert(self.spec_downloading() =~= mid.spec_downloading().update(
                                kk,
                                self.spec_downloading()[kk],
                            ));
                        }
                        proof {
                            let plen = orig.spec_meta().spec_piece_length_of(piece_idx as int);
                            crate::meta_info::lemma_piece_length_range(
                                orig.spec_meta(),
                                piece_idx as int,
                            );
                            assert((block_idx as int) < spec_num_blocks(plen));
                            assert((block_idx as int) * 16384 < plen) by (nonlinear_arith)
                                requires
                                    (block_idx as int) < (plen + 16384 - 1) / 16384,
                                    1 <= plen,
                            ;
                            assert(plen <= u32::MAX);
                        }
                        let begin64 = (block_idx as u64) * 16384;
                        let begin = begin64 as u32;
                        proof {
                            assert(begin as int == (block_idx as int) * 16384);
                            assert((begin as int) / 16384 == block_idx as int);
                        }
                        let size = self.get_block_size(piece_idx, block_idx);
                        proof {
                            let post = *self;
                            let p = piece_idx as int;
                            // well-formedness of the one changed entry
                            assert forall|k2: int|
                                0 <= k2 < post.spec_downloading().len() implies post.entry_wf(
                                #[trigger] post.spec_downloading()[k2],
                            ) by {
                                if k2 != kk {
                                    assert(post.spec_downloading()[k2]
                                        == mid.spec_downloading()[k2]);
                                    assert(mid.entry_wf(mid.spec_downloading()[k2]));
                                } else {
                                    assert(mid.entry_wf(d0));
                                }
                            }
                            assert forall|k1: int, k2: int|
                                #![trigger post.spec_downloading()[k1], post.spec_downloading()[k2]]
                                0 <= k1 < k2 < post.spec_downloading().len() implies post.spec_downloading()[k1].spec_piece_idx()
                                != post.spec_downloading()[k2].spec_piece_idx() by {
                                assert(post.spec_downloading()[k1].spec_piece_idx()
                                    == mid.spec_downloading()[k1].spec_piece_idx());
                                assert(post.spec_downloading()[k2].spec_piece_idx()
                                    == mid.spec_downloading()[k2].spec_piece_idx());
                            }
                            assert(post.wf());
                            // the handed-out block was Open beforehand wherever
                            // an entry for this piece existed
                            assert forall|j: int|
                                0 <= j < orig.spec_downloading().len() && (
                                #[trigger] orig.spec_downloading()[j]).spec_piece_idx() as int == p
                                    implies orig.spec_downloading()[j].spec_blocks()[block_idx as int]
                                == BlockState::Open by {
                                if Self::serves_existing(orig, mid, bits, piece_idx) {
                                    assert(orig.spec_downloading()[j] == mid.spec_downloading()[j]);
                                    assert(j == kk) by {
                                        if j != kk {
                                            assert(mid.spec_downloading()[j].spec_piece_idx()
                                                == mid.spec_downloading()[kk].spec_piece_idx());
                                        }
                                    }
                                } else {
                                    assert(Self::picks_fresh(orig, mid, bits, piece_idx));
                                    assert(orig.spec_ctrl().status(
                                        orig.spec_downloading()[j].spec_piece_idx() as int,
                                    ) == PieceStatus::PICKED);
                                    assert(orig.spec_ctrl().pickable(bits, p));
                                    assert(false);
                                }
                            }
                            assert(post.spec_downloading()[kk].spec_piece_idx() as int == p
                                && post.spec_downloading()[kk].spec_blocks()[block_idx as int]
                                == BlockState::Requested);
                            // the peer has the piece
                            if Self::serves_existing(orig, mid, bits, piece_idx) {
                                let ks = choose|ks: int|
                                    0 <= ks < orig.spec_downloading().len()
                                        && #[trigger] orig.entry_serves(bits, ks)
                                        && orig.spec_downloading()[ks].spec_piece_idx()
                                        == piece_idx && (forall|k2: int|
                                        0 <= k2 < ks ==> !orig.entry_serves(bits, k2));
                                assert((piece_idx as int) < bits.len() && bits[piece_idx as int]);
                            }
                            // the one-entry frame: the claimed block was the
                            // entry's first Open one, and the rest stands
                            let dpost = post.spec_downloading()[kk];
                            assert(dpost.spec_blocks() =~= d0.spec_blocks().update(
                                block_idx as int,
                                BlockState::Requested,
                            ));
                            assert(dpost.spec_remain() == d0.spec_remain() - 1);
                            assert(d0.spec_blocks()[block_idx as int] == BlockState::Open);
                            assert(forall|j: int|
                                0 <= j < block_idx ==> d0.spec_blocks()[j] != BlockState::Open);
                            if Self::serves_existing(orig, mid, bits, piece_idx) {
                                assert(post.spec_downloading() =~= orig.spec_downloading().update(
                                    kk,
                                    dpost,
                                ));
                                assert(Self::claims_block(orig, post, p, block_idx as int));
                            } else {
                                assert(Self::picks_fresh(orig, mid, bits, piece_idx));
                                assert(kk == orig.spec_downloading().len());
                                assert(forall|j: int|
                                    0 <= j < d0.spec_blocks().len() ==> d0.spec_blocks()[j]
                                        == BlockState::Open);
                                assert(block_idx == 0) by {
                                    if block_idx > 0 {
                                        assert(d0.spec_blocks()[0] == BlockState::Open);
                                    }
                                }
                                assert(post.spec_downloading() =~= orig.spec_downloading().push(
                                    dpost,
                                ));
                                assert(dpost.spec_blocks().len() == spec_num_blocks(
                                    orig.spec_meta().spec_piece_length_of(p),
                                ));
                                assert(dpost.spec_blocks()[0] == BlockState::Requested);
                                assert(forall|j: int|
                                    1 <= j < dpost.spec_blocks().len() ==> dpost.spec_blocks()[j]
                                        == BlockState::Open);
                                assert(dpost.spec_remain() == dpost.spec_blocks().len() - 1);
                                assert(Self::claims_block(orig, post, p, block_idx as int));
                            }
                            assert(Self::pick_block_step(
                                orig,
                                post,
                                bits,
                                Some((piece_idx as u32, begin, size)),
                            ));
                        }
                        Some((piece_idx as u32, begin, size))
                    },
                    None => {
                        // cannot happen: the entry still counted an Open block
                        proof {
                            lemma_count_open_uniform(entry.spec_blocks());
                        }
                        assert(false);
                        None
                    },
                }
            },
            None => None,
        }
    }
}

/// Two consecutive block picks never hand out the same piece and offset:
/// the first pick leaves that block `Requested`, and a pick only returns
/// a block that was `Open` in every entry holding its piece.
pub proof fn lemma_no_duplicate_block(
    s0: Downloader,
    s1: Downloader,
    s2: Downloader,
    bits1: Seq<bool>,
    bits2: Seq<bool>,
    t1: (u32, u32, u32),
    t2: (u32, u32, u32),
)
    requires
        Downloader::pick_block_step(s0, s1, bits1, Some(t1)),
        Downloader::pick_block_step(s1, s2, bits2, Some(t2)),
    ensures
        !(t1.0 == t2.0 && t1.1 == t2.1),
{
    if t1.0 == t2.0 && t1.1 == t2.1 {
        let p = t1.0 as int;
        let b = t1.1 as int / 16384;
        let k = choose|k: int|
            0 <= k < s1.spec_downloading().len() && (
            #[trigger] s1.spec_downloading()[k]).spec_piece_idx() as int == p
                && s1.spec_downloading()[k].spec_blocks()[b] == BlockState::Requested;
        assert(s1.spec_downloading()[k].spec_blocks()[b] == BlockState::Open);
        assert(false);
    }
}

impl Downloader {
    /// When a received block may be written: its piece has a downloading
    /// entry, the offset is block-aligned and in range, the block is
    /// `Requested`, and the data has exactly the block's size.
    pub open spec fn write_ok(self, piece_idx: int, block_offset: int, data_len: int) -> bool {
        let b = block_offset / 16384;
        &&& 0 <= piece_idx < self.n()
        &&& block_offset % 16384 == 0
        &&& data_len == spec_block_size(self.spec_meta().spec_piece_length_of(piece_idx), b)
        &&& exists|j: int|
            0 <= j < self.spec_downloading().len() && (
            #[trigger] self.spec_downloading()[j]).spec_piece_idx() as int == piece_idx && 0 <= b
                < self.spec_downloading()[j].spec_blocks().len()
                && self.spec_downloading()[j].spec_blocks()[b] == BlockState::Requested
    }

    /// What recording one received block does. A refused block changes
    /// nothing; an accepted one moves exactly that block to `Finished`,
    /// returns the absolute file offset, and reports whether the piece's
    /// blocks are now all `Finished`.
    pub open spec fn write_step(
        pre: Downloader,
        post: Downloader,
        piece_idx: int,
        block_offset: int,
        data_len: int,
        r: Option<(u64, bool)>,
    ) -> bool {
        match r {
            None => post == pre && !pre.write_ok(piece_idx, block_offset, data_len),
            Some(t) => {
                let b = block_offset / 16384;
                &&& pre.write_ok(piece_idx, block_offset, data_len)
                &&& t.0 as int == piece_idx * pre.spec_meta().spec_piece_len() + block_offset
                &&& post.spec_ctrl() == pre.spec_ctrl()
                &&& post.spec_meta() == pre.spec_meta()
                &&& exists|j: int|
                    0 <= j < pre.spec_downloading().len() && (
                    #[trigger] pre.spec_downloading()[j]).spec_piece_idx() as int == piece_idx
                        && post.spec_downloading() == pre.spec_downloading().update(
                        j,
                        post.spec_downloading()[j],
                    ) && post.spec_downloading()[j].spec_blocks()
                        == pre.spec_downloading()[j].spec_blocks().update(b, BlockState::Finished)
                        && post.spec_downloading()[j].spec_piece_idx() as int == piece_idx && (t.1
                        == (forall|q: int|
                        0 <= q < post.spec_downloading()[j].spec_blocks().len()
                            ==> post.spec_downloading()[j].spec_blocks()[q]
                            == BlockState::Finished))
            },
        }
    }

    /// Record a received block. On success returns the absolute offset at
    /// which the shell must write the data into the backing file, and
    /// whether the piece's blocks are now all `Finished` (the cue to read
    /// the piece back and verify it). A block that was not handed out, a
    /// misaligned offset or wrongly sized data is refused.
    #[verifier::loop_isolation(false)]
    pub fn write_block(&mut self, piece_idx: usize, block_offset: u32, data: &Vec<u8>) -> (r:
        Option<(u64, bool)>)
        requires
            old(self).wf(),
        ensures
            final(self).wf(),
            Self::write_step(
                *old(self),
                *final(self),
                piece_idx as int,
                block_offset as int,
                data@.len() as int,
                r,
            ),
    {
        let ghost orig = *old(self);
        // locate the piece in the downloading list
        let len = self.downloading.len();
        let mut k: usize = 0;
        let mut found: bool = false;
        while k < len
            invariant
                0 <= k <= len,
                len == orig.spec_downloading().len(),
                *self == orig,
                !found ==> forall|k2: int|
                    0 <= k2 < k ==> (#[trigger] orig.spec_downloading()[k2]).spec_piece_idx()
                        != piece_idx,
                found ==> k < len && orig.spec_downloading()[k as int].spec_piece_idx()
                    == piece_idx,
            decreases len - k, (if found { 0int } else { 1int }),
        {
            if self.downloading[k].piece_idx == piece_idx {
                found = true;
                break;
            }
            k = k + 1;
        }
        if !found {
            proof {
                assert(!orig.write_ok(piece_idx as int, block_offset as int, data@.len() as int));
            }
            return None;
        }
        let ghost kk = k as int;
        let ghost d0 = orig.spec_downloading()[kk];
        proof {
            assert(orig.entry_wf(d0));
            // the found entry is the only one holding this piece
            assert forall|j: int|
                0 <= j < orig.spec_downloading().len() && (
                #[trigger] orig.spec_downloading()[j]).spec_piece_idx() == piece_idx implies j
                == kk by {
                if j != kk {
                    assert(orig.spec_downloading()[j].spec_piece_idx()
                        == orig.spec_downloading()[kk].spec_piece_idx());
                }
            }
        }
        if block_offset % BLOCKSIZE != 0 {
            return None;
        }
        let block_idx = (block_offset / BLOCKSIZE) as usize;
        let blocks_len = self.downloading[k].blocks.len();
        if block_idx >= blocks_len {
            return None;
        }
        if self.downloading[k].blocks[block_idx] != BlockState::Requested {
            return None;
        }
        let expected = self.get_block_size(piece_idx, block_idx);
        if data.len() != expected as usize {
            return None;
        }
        // move the block through Writing to Finished
        let mut entry = self.downloading.remove(k);
        proof {
            lemma_count_open_update(entry.spec_blocks(), block_idx as int, BlockState::Writing);
            lemma_count_open_update(
                entry.spec_blocks().update(block_idx as int, BlockState::Writing),
                block_idx as int,
                BlockState::Finished,
            );
        }
        entry.set_state(block_idx, BlockState::Writing);
        entry.set_state(block_idx, BlockState::Finished);
        let complete = entry.is_finished();
        self.downloading.insert(k, entry);
        proof {
            assert(self.spec_downloading() =~= orig.spec_downloading().update(
                kk,
                self.spec_downloading()[kk],
            ));
            assert(self.spec_downloading()[kk].spec_blocks() =~= d0.spec_blocks().update(
                block_idx as int,
                BlockState::Finished,
            ));
        }
        // the absolute offset: pieces are laid out back to back
        let piece_len0 = self.meta_info.get_piece_length(0);
        proof {
            assert((piece_len0 as int) * (piece_idx as int) + (block_offset as int)
                < 0x1_0000_0000_0000_0000) by (nonlinear_arith)
                requires
                    piece_len0 as int <= 0xffff_ffff,
                    (piece_idx as int) <= 0xffff_fffe,
                    block_offset as int <= 0xffff_ffff,
            ;
        }
        let offset = (piece_len0 as u64) * (piece_idx as u64) + (block_offset as u64);
        proof {
            let n = orig.n();
            let pl = orig.spec_meta().spec_piece_len();
            let total = orig.spec_meta().spec_total();
            // for one piece the index is zero; otherwise piece 0 is full-sized
            if n == 1 {
                assert(piece_idx == 0);
            } else {
                assert(piece_len0 as int == pl);
            }
            assert((piece_idx as int) * pl <= (n - 1) * pl) by (nonlinear_arith)
                requires
                    (piece_idx as int) <= n - 1,
                    pl >= 1,
            ;
            assert(offset as int == piece_idx * pl + block_offset);
            let post = *self;
            assert forall|k2: int|
                0 <= k2 < post.spec_downloading().len() implies post.entry_wf(
                #[trigger] post.spec_downloading()[k2],
            ) by {
                if k2 != kk {
                    assert(post.spec_downloading()[k2] == orig.spec_downloading()[k2]);
                    assert(orig.entry_wf(orig.spec_downloading()[k2]));
                } else {
                    assert(orig.entry_wf(d0));
                }
            }
            assert forall|k1: int, k2: int|
                #![trigger post.spec_downloading()[k1], post.spec_downloading()[k2]]
                0 <= k1 < k2 < post.spec_downloading().len() implies post.spec_downloading()[k1].spec_piece_idx()
                != post.spec_downloading()[k2].spec_piece_idx() by {
                assert(post.spec_downloading()[k1].spec_piece_idx()
                    == orig.spec_downloading()[k1].spec_piece_idx());
                assert(post.spec_downloading()[k2].spec_piece_idx()
                    == orig.spec_downloading()[k2].spec_piece_idx());
            }
            assert(self.wf());
            assert(orig.write_ok(piece_idx as int, block_offset as int, data@.len() as int));
        }
        Some((offset, complete))
    }

    /// True when a downloading entry for this piece exists and all its
    /// blocks are `Finished`, so the piece is due for verification.
    pub fn piece_all_finished(&self, piece_idx: usize) -> (r: bool)
        requires
            self.wf(),
        ensures
            r == exists|j: int|
                0 <= j < self.spec_downloading().len() && (
                #[trigger] self.spec_downloading()[j]).spec_piece_idx() == piece_idx && (forall|
                    q: int,
                |
                    0 <= q < self.spec_downloading()[j].spec_blocks().len()
                        ==> self.spec_downloading()[j].spec_blocks()[q] == BlockState::Finished),
    {
        let len = self.downloading.len();
        let mut k: usize = 0;
        while k < len
            invariant
                0 <= k <= len,
                len == self.spec_downloading().len(),
                self.wf(),
                forall|k2: int|
                    0 <= k2 < k ==> (#[trigger] self.spec_downloading()[k2]).spec_piece_idx()
                        != piece_idx,
            decreases len - k,
        {
            if self.downloading[k].piece_idx == piece_idx {
                let r = self.downloading[k].is_finished();
                proof {
                    if !r {
                        assert forall|j: int|
                            0 <= j < self.spec_downloading().len() && (
                            #[trigger] self.spec_downloading()[j]).spec_piece_idx() == piece_idx
                                implies j == k as int by {
                            if j != k as int {
                                assert(self.spec_downloading()[j].spec_piece_idx()
                                    == self.spec_downloading()[k as int].spec_piece_idx());
                            }
                        }
                    }
                }
                return r;
            }
            k = k + 1;
        }
        false
    }
}

impl Downloader {
    /// Verify a fully received piece against its hash table entry. On a
    /// match the piece becomes `HAVE`, its entry leaves the downloading
    /// list, and the second flag says whether every piece is now `HAVE`.
    /// On a mismatch every block returns to `Open` and the piece stays
    /// `PICKED`, to be fetched again.
    #[verifier::loop_isolation(false)]
    pub fn finish_piece(&mut self, piece_idx: usize, data: &Vec<u8>) -> (r: (bool, bool))
        requires
            old(self).wf(),
            exists|j: int|
                0 <= j < old(self).spec_downloading().len()
                    && (#[trigger] old(self).spec_downloading()[j]).spec_piece_idx() == piece_idx
                    && (forall|q: int|
                    0 <= q < old(self).spec_downloading()[j].spec_blocks().len()
                        ==> old(self).spec_downloading()[j].spec_blocks()[q]
                        == BlockState::Finished),
            data@.len() == old(self).spec_meta().spec_piece_length_of(piece_idx as int),
        ensures
            final(self).wf(),
            final(self).spec_meta() == old(self).spec_meta(),
            final(self).n() == old(self).n(),
            r.0 == (sha1_of(data@) == old(self).spec_meta().spec_piece_hash(piece_idx as int)),
            forall|q: int|
                0 <= q < old(self).n() ==> final(self).spec_ctrl().count(q) == old(
                self,
                ).spec_ctrl().count(q),
            r.0 ==> final(self).spec_ctrl().status(piece_idx as int) == PieceStatus::HAVE,
            !r.0 ==> final(self).spec_ctrl().status(piece_idx as int) == old(
                self,
            ).spec_ctrl().status(piece_idx as int),
            forall|q: int|
                0 <= q < old(self).n() && q != piece_idx ==> final(self).spec_ctrl().status(q)
                    == old(self).spec_ctrl().status(q),
            r.0 ==> !(exists|j: int|
                0 <= j < final(self).spec_downloading().len()
                    && (#[trigger] final(self).spec_downloading()[j]).spec_piece_idx()
                    == piece_idx),
            r.0 ==> (r.1 <==> (forall|q: int|
                0 <= q < final(self).n() ==> final(self).spec_ctrl().status(q)
                    == PieceStatus::HAVE)),
            r.0 ==> exists|j: int|
                0 <= j < old(self).spec_downloading().len()
                    && (#[trigger] old(self).spec_downloading()[j]).spec_piece_idx() == piece_idx
                    && final(self).spec_downloading() == old(self).spec_downloading().remove(j),
            !r.0 ==> r.1 == false,
            // on a mismatch the piece's entry stays, every block reopened
            !r.0 ==> ({
                let dl0 = old(self).spec_downloading();
                let dl1 = final(self).spec_downloading();
                exists|j: int|
                    #![trigger dl1[j]]
                    0 <= j < dl0.len() && dl0[j].spec_piece_idx() == piece_idx && dl1
                        == dl0.update(j, dl1[j]) && dl1[j].spec_piece_idx() == piece_idx
                        && dl1[j].spec_blocks().len() == dl0[j].spec_blocks().len() && (forall|
                        q: int,
                    |
                        0 <= q < dl1[j].spec_blocks().len() ==> dl1[j].spec_blocks()[q]
                            == BlockState::Open) && dl1[j].spec_remain()
                        == dl1[j].spec_blocks().len()
            }),
    {
        let ghost orig = *old(self);
        // locate the entry
        let len = self.downloading.len();
        let mut k: usize = 0;
        let mut found: bool = false;
        while k < len
            invariant
                0 <= k <= len,
                len == orig.spec_downloading().len(),
                *self == orig,
                !found ==> forall|k2: int|
                    0 <= k2 < k ==> (#[trigger] orig.spec_downloading()[k2]).spec_piece_idx()
                        != piece_idx,
                found ==> k < len && orig.spec_downloading()[k as int].spec_piece_idx()
                    == piece_idx,
            decreases len - k, (if found { 0int } else { 1int }),
        {
            if self.downloading[k].piece_idx == piece_idx {
                found = true;
                break;
            }
            k = k + 1;
        }
        proof {
            assert(found);
        }
        let ghost kk = k as int;
        let ghost d0 = orig.spec_downloading()[kk];
        proof {
            assert(orig.entry_wf(d0));
        }
        // recompute the digest and compare with the hash table
        let read_hash = sha1_digest(data);
        let piece_hash = self.meta_info.get_piece_hash(piece_idx);
        if digest_eq(&read_hash, &piece_hash) {
            let entry = self.downloading.remove(k);
            let all_done = self.piece_control.set_piece_complete(piece_idx);
            proof {
                let post = *self;
                assert forall|k2: int|
                    0 <= k2 < post.spec_downloading().len() implies post.entry_wf(
                    #[trigger] post.spec_downloading()[k2],
                ) by {
                    let prev = if k2 < kk {
                        k2
                    } else {
                        k2 + 1
                    };
                    assert(post.spec_downloading()[k2] == orig.spec_downloading()[prev]);
                    assert(orig.entry_wf(orig.spec_downloading()[prev]));
                    assert(orig.spec_downloading()[prev].spec_piece_idx() != piece_idx) by {
                        if prev != kk {
                            assert(orig.spec_downloading()[prev].spec_piece_idx()
                                == orig.spec_downloading()[kk].spec_piece_idx()
                                ==> false);
                        }
                    }
                }
                assert forall|k1: int, k2: int|
                    #![trigger post.spec_downloading()[k1], post.spec_downloading()[k2]]
                    0 <= k1 < k2 < post.spec_downloading().len() implies post.spec_downloading()[k1].spec_piece_idx()
                    != post.spec_downloading()[k2].spec_piece_idx() by {
                    let p1 = if k1 < kk {
                        k1
                    } else {
                        k1 + 1
                    };
                    let p2 = if k2 < kk {
                        k2
                    } else {
                        k2 + 1
                    };
                    assert(post.spec_downloading()[k1] == orig.spec_downloading()[p1]);
                    assert(post.spec_downloading()[k2] == orig.spec_downloading()[p2]);
                }
                assert(post.wf());
                assert forall|j: int|
                    0 <= j < post.spec_downloading().len() implies (
                #[trigger] post.spec_downloading()[j]).spec_piece_idx() != piece_idx by {
                    let prev = if j < kk {
                        j
                    } else {
                        j + 1
                    };
                    assert(post.spec_downloading()[j] == orig.spec_downloading()[prev]);
                    if prev != kk {
                        assert(orig.spec_downloading()[prev].spec_piece_idx()
                            == orig.spec_downloading()[kk].spec_piece_idx() ==> false);
                    }
                }
            }
            (true, all_done)
        } else {
            // hash mismatch: every block goes back to Open for a retry
            let blocks_len = self.downloading[k].blocks.len();
            let fresh = DownloadingPiece::new(piece_idx, blocks_len);
            self.downloading.set(k, fresh);
            proof {
                let post = *self;
                lemma_count_open_uniform(post.spec_downloading()[kk].spec_blocks());
                assert forall|k2: int|
                    0 <= k2 < post.spec_downloading().len() implies post.entry_wf(
                    #[trigger] post.spec_downloading()[k2],
                ) by {
                    if k2 != kk {
                        assert(post.spec_downloading()[k2] == orig.spec_downloading()[k2]);
                        assert(orig.entry_wf(orig.spec_downloading()[k2]));
                    } else {
                        assert(orig.entry_wf(d0));
                    }
                }
                assert forall|k1: int, k2: int|
                    #![trigger post.spec_downloading()[k1], post.spec_downloading()[k2]]
                    0 <= k1 < k2 < post.spec_downloading().len() implies post.spec_downloading()[k1].spec_piece_idx()
                    != post.spec_downloading()[k2].spec_piece_idx() by {
                    assert(post.spec_downloading()[k1].spec_piece_idx()
                        == orig.spec_downloading()[k1].spec_piece_idx());
                    assert(post.spec_downloading()[k2].spec_piece_idx()
                        == orig.spec_downloading()[k2].spec_piece_idx());
                }
                assert(post.wf());
            }
            (false, false)
        }
    }

    /// What one startup verification step does: the result says whether
    /// the read bytes hash to the piece's table entry; on a match the
    /// piece is `HAVE`, otherwise nothing changes; counts, the list and
    /// the downloading entries are untouched either way.
    pub open spec fn verify_step(
        pre: Downloader,
        post: Downloader,
        p: int,
        d: Seq<u8>,
        r: bool,
    ) -> bool {
        &&& r == (sha1_of(d) == pre.spec_meta().spec_piece_hash(p))
        &&& post.spec_meta() == pre.spec_meta()
        &&& post.n() == pre.n()
        &&& (forall|q: int|
            0 <= q < pre.n() ==> #[trigger] post.spec_ctrl().count(q) == pre.spec_ctrl().count(q))
        &&& (r ==> post.spec_ctrl().status(p) == PieceStatus::HAVE)
        &&& (!r ==> post.spec_ctrl().status(p) == pre.spec_ctrl().status(p))
        &&& (forall|q: int|
            0 <= q < pre.n() && q != p ==> #[trigger] post.spec_ctrl().status(q)
                == pre.spec_ctrl().status(q))
        &&& post.spec_downloading() == pre.spec_downloading()
    }

    /// One step of the startup verify pass: hash the bytes read for piece
    /// `piece_idx` and mark the piece `HAVE` when they match its table
    /// entry. Run before any download starts.
    pub fn verify_piece(&mut self, piece_idx: usize, data: &Vec<u8>) -> (r: bool)
        requires
            old(self).wf(),
            (piece_idx as int) < old(self).n(),
            old(self).spec_downloading().len() == 0,
            data@.len() == old(self).spec_meta().spec_piece_length_of(piece_idx as int),
        ensures
            final(self).wf(),
            final(self).spec_downloading().len() == 0,
            Self::verify_step(*old(self), *final(self), piece_idx as int, data@, r),
    {
        let ghost orig = *old(self);
        let read_hash = sha1_digest(data);
        let piece_hash = self.meta_info.get_piece_hash(piece_idx);
        if digest_eq(&read_hash, &piece_hash) {
            self.piece_control.set_piece_complete(piece_idx);
            proof {
                assert(self.wf());
            }
            true
        } else {
            false
        }
    }
}

/// Startup verification is idempotent: running the verify step twice on
/// the same bytes gives the same answer and the same statuses as running
/// it once.
pub proof fn lemma_verify_idempotent(
    s0: Downloader,
    s1: Downloader,
    s2: Downloader,
    p: int,
    d: Seq<u8>,
    r1: bool,
    r2: bool,
)
    requires
        0 <= p < s0.n(),
        Downloader::verify_step(s0, s1, p, d, r1),
        Downloader::verify_step(s1, s2, p, d, r2),
    ensures
        r2 == r1,
        forall|q: int| 0 <= q < s1.n() ==> #[trigger] s2.spec_ctrl().status(q)
            == s1.spec_ctrl().status(q),
        forall|q: int| 0 <= q < s1.n() ==> #[trigger] s2.spec_ctrl().count(q)
            == s1.spec_ctrl().count(q),
        s2.spec_downloading() == s1.spec_downloading(),
{
}

} // verus!
