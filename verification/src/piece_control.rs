//! Rarest-first piece index. Pieces are kept in a vector sorted by how many
//! connected peers have each piece; a bucket boundary map gives, for every
//! peer count present, the last position of its run, so that raising a
//! count is a single swap to the frontier of its bucket.
use crate::bitfield::bv_bits;
use crate::bitfield::bv_get;
use std::collections::HashMap;
use vstd::prelude::*;

verus! {

broadcast use vstd::std_specs::hash::group_hash_axioms;

/// Lifecycle of a piece: not fetched yet, handed to a session, or
/// downloaded and verified.
#[allow(non_camel_case_types)]
#[derive(Clone, Copy, PartialEq, Eq, Structural, Debug)]
pub enum PieceStatus {
    HAVE,
    NOTYET,
    PICKED,
}

/// Per-piece bookkeeping: how many peers have it, where it sits in the
/// sorted list, and its download status.
#[derive(Clone, Copy, Debug)]
pub struct PiecePos {
    peer_count: usize,
    piece_list_idx: usize,
    pub piece_status: PieceStatus,
}

impl PiecePos {
    pub closed spec fn spec_peer_count(self) -> usize {
        self.peer_count
    }

    pub closed spec fn spec_list_idx(self) -> usize {
        self.piece_list_idx
    }

    pub closed spec fn spec_status(self) -> PieceStatus {
        self.piece_status
    }

    pub fn new(piece_idx: usize) -> (r: Self)
        ensures
            r.spec_peer_count() == 0,
            r.spec_list_idx() == piece_idx,
            r.spec_status() == PieceStatus::NOTYET,
    {
        Self { peer_count: 0, piece_list_idx: piece_idx, piece_status: PieceStatus::NOTYET }
    }

    /// Increase peer count by one, and also return the new peer count value
    /// of this piece.
    pub fn increase_count(&mut self) -> (r: usize)
        requires
            old(self).spec_peer_count() < usize::MAX,
        ensures
            final(self).spec_peer_count() == old(self).spec_peer_count() + 1,
            final(self).spec_list_idx() == old(self).spec_list_idx(),
            final(self).spec_status() == old(self).spec_status(),
            r == final(self).spec_peer_count(),
    {
        self.peer_count = self.peer_count + 1;
        self.peer_count
    }

    /// Decrease peer count by one, and also return the new peer count value
    /// of this piece.
    pub fn decrease_count(&mut self) -> (r: usize)
        requires
            old(self).spec_peer_count() > 0,
        ensures
            final(self).spec_peer_count() == old(self).spec_peer_count() - 1,
            final(self).spec_list_idx() == old(self).spec_list_idx(),
            final(self).spec_status() == old(self).spec_status(),
            r == final(self).spec_peer_count(),
    {
        self.peer_count = self.peer_count - 1;
        self.peer_count
    }

    /// Set position of this piece in the sorted piece list.
    pub fn set_list_idx(&mut self, list_idx: usize)
        ensures
            final(self).spec_list_idx() == list_idx,
            final(self).spec_peer_count() == old(self).spec_peer_count(),
            final(self).spec_status() == old(self).spec_status(),
    {
        self.piece_list_idx = list_idx;
    }

    /// Get current position in the sorted piece list.
    pub fn get_list_idx(&self) -> (r: usize)
        ensures
            r == self.spec_list_idx(),
    {
        self.piece_list_idx
    }

    pub fn get_peer_count(&self) -> (r: usize)
        ensures
            r == self.spec_peer_count(),
    {
        self.peer_count
    }
}

/// How many entries of `s` are `HAVE`.
pub open spec fn count_have(s: Seq<PieceStatus>) -> int
    decreases s.len(),
{
    if s.len() == 0 {
        0
    } else {
        count_have(s.drop_last()) + if s.last() == PieceStatus::HAVE {
            1int
        } else {
            0int
        }
    }
}

proof fn lemma_count_have_bounds(s: Seq<PieceStatus>)
    ensures
        0 <= count_have(s) <= s.len(),
    decreases s.len(),
{
    if s.len() > 0 {
        lemma_count_have_bounds(s.drop_last());
    }
}

proof fn lemma_count_have_update(s: Seq<PieceStatus>, i: int, v: PieceStatus)
    requires
        0 <= i < s.len(),
    ensures
        count_have(s.update(i, v)) == count_have(s) + (if v == PieceStatus::HAVE {
            1int
        } else {
            0int
        }) - (if s[i] == PieceStatus::HAVE {
            1int
        } else {
            0int
        }),
    decreases s.len(),
{
    let t = s.update(i, v);
    if i == s.len() - 1 {
        assert(t.drop_last() =~= s.drop_last());
    } else {
        assert(t.drop_last() =~= s.drop_last().update(i, v));
        lemma_count_have_update(s.drop_last(), i, v);
    }
}

proof fn lemma_count_have_full(s: Seq<PieceStatus>)
    ensures
        (count_have(s) == s.len()) <==> (forall|p: int| 0 <= p < s.len() ==> s[p]
            == PieceStatus::HAVE),
    decreases s.len(),
{
    if s.len() > 0 {
        lemma_count_have_full(s.drop_last());
        lemma_count_have_bounds(s.drop_last());
        if count_have(s) == s.len() {
            assert forall|p: int| 0 <= p < s.len() implies s[p] == PieceStatus::HAVE by {
                if p < s.len() - 1 {
                    assert(s.drop_last()[p] == s[p]);
                }
            }
        }
        if forall|p: int| 0 <= p < s.len() ==> s[p] == PieceStatus::HAVE {
            assert forall|p: int| 0 <= p < s.drop_last().len() implies s.drop_last()[p]
                == PieceStatus::HAVE by {
                assert(s.drop_last()[p] == s[p]);
            }
        }
    }
}

proof fn lemma_count_have_none(s: Seq<PieceStatus>)
    requires
        forall|p: int| 0 <= p < s.len() ==> s[p] != PieceStatus::HAVE,
    ensures
        count_have(s) == 0,
    decreases s.len(),
{
    if s.len() > 0 {
        assert forall|p: int| 0 <= p < s.drop_last().len() implies s.drop_last()[p]
            != PieceStatus::HAVE by {
            assert(s.drop_last()[p] == s[p]);
        }
        lemma_count_have_none(s.drop_last());
    }
}

/// The rarest-first index over all pieces:
/// a record per piece, a list of piece indices sorted by non-decreasing
/// peer count, and the last position of each count's run.
pub struct PieceControler {
    piece_map: Vec<PiecePos>,
    piece_list: Vec<usize>,
    boundaries: HashMap<usize, usize>,
    finished_piece: usize,
}

impl PieceControler {
    /// Number of pieces tracked.
    pub closed spec fn n(self) -> int {
        self.piece_map@.len() as int
    }

    /// Peer count of piece `p`.
    pub closed spec fn count(self, p: int) -> usize {
        self.piece_map@[p].peer_count
    }

    /// Download status of piece `p`.
    pub closed spec fn status(self, p: int) -> PieceStatus {
        self.piece_map@[p].piece_status
    }

    /// The piece index stored at position `i` of the sorted list.
    pub closed spec fn list_at(self, i: int) -> int {
        self.piece_list@[i] as int
    }

    /// The position of piece `p` in the sorted list.
    pub closed spec fn pos_of(self, p: int) -> int {
        self.piece_map@[p].piece_list_idx as int
    }

    /// Peer count of the piece at position `i` of the sorted list.
    pub open spec fn count_at(self, i: int) -> usize {
        self.count(self.list_at(i))
    }

    /// The bucket boundary map: for each present peer count, the last
    /// position of its run in the sorted list.
    pub closed spec fn bounds(self) -> Map<usize, usize> {
        self.boundaries@
    }

    /// How many pieces have reached `HAVE`.
    pub closed spec fn finished(self) -> int {
        self.finished_piece as int
    }

    /// The statuses of all pieces, by piece index.
    pub closed spec fn statuses(self) -> Seq<PieceStatus> {
        self.piece_map@.map_values(|pp: PiecePos| pp.piece_status)
    }

    /// Length of the sorted position list.
    pub closed spec fn list_len(self) -> int {
        self.piece_list@.len() as int
    }

    /// The sorted list is a permutation of the piece indices, and each
    /// record knows its position.
    pub open spec fn perm_ok(self) -> bool {
        &&& self.list_len() == self.n()
        &&& forall|i: int| 0 <= i < self.n() ==> 0 <= #[trigger] self.list_at(i) < self.n()
        &&& forall|p: int| 0 <= p < self.n() ==> 0 <= #[trigger] self.pos_of(p) < self.n()
        &&& forall|p: int| 0 <= p < self.n() ==> self.list_at(#[trigger] self.pos_of(p)) == p
        &&& forall|i: int| 0 <= i < self.n() ==> self.pos_of(#[trigger] self.list_at(i)) == i
    }

    /// Positions are ordered by non-decreasing peer count.
    pub open spec fn sorted(self) -> bool {
        forall|i: int, j: int|
            #![trigger self.count_at(i), self.count_at(j)]
            0 <= i <= j < self.n() ==> self.count_at(i) <= self.count_at(j)
    }

    /// What one boundary entry promises: the stored position holds the
    /// count, and the next position (if any) holds a larger one.
    pub open spec fn bound_entry_ok(self, c: usize) -> bool {
        {
            let k = self.bounds()[c] as int;
            &&& 0 <= k < self.n()
            &&& self.count_at(k) == c
            &&& (k + 1 == self.n() || self.count_at(k + 1) > c)
        }
    }

    /// Every entry of the boundary map is the last position of its count's
    /// run, and every present count has an entry.
    pub open spec fn bounds_ok(self) -> bool {
        &&& forall|c: usize| self.bounds().contains_key(c) ==> #[trigger] self.bound_entry_ok(c)
        &&& forall|i: int|
            0 <= i < self.n() ==> self.bounds().contains_key(#[trigger] self.count_at(i))
    }

    /// The structural invariant of the index.
    pub open spec fn well_formed(self) -> bool {
        &&& self.n() >= 1
        &&& self.perm_ok()
        &&& self.sorted()
        &&& self.bounds_ok()
        &&& self.finished() == count_have(self.statuses())
    }

    pub fn new(no_of_pieces: usize) -> (r: Self)
        requires
            no_of_pieces >= 1,
        ensures
            r.well_formed(),
            r.n() == no_of_pieces,
            forall|p: int| 0 <= p < r.n() ==> r.count(p) == 0,
            forall|p: int| 0 <= p < r.n() ==> r.status(p) == PieceStatus::NOTYET,
            forall|i: int| 0 <= i < r.n() ==> #[trigger] r.list_at(i) == i,
            r.finished() == 0,
    {
        let mut piece_map: Vec<PiecePos> = Vec::new();
        let mut piece_list: Vec<usize> = Vec::new();
        let mut idx: usize = 0;
        while idx < no_of_pieces
            invariant
                0 <= idx <= no_of_pieces,
                piece_map@.len() == idx,
                piece_list@.len() == idx,
                forall|q: int|
                    0 <= q < idx ==> (#[trigger] piece_map@[q]).peer_count == 0
                        && piece_map@[q].piece_list_idx == q && piece_map@[q].piece_status
                        == PieceStatus::NOTYET,
                forall|q: int| 0 <= q < idx ==> #[trigger] piece_list@[q] == q,
            decreases no_of_pieces - idx,
        {
            piece_map.push(PiecePos::new(idx));
            piece_list.push(idx);
            idx = idx + 1;
        }
        let mut boundaries: HashMap<usize, usize> = HashMap::new();
        boundaries.insert(0, no_of_pieces - 1);
        let finished_piece: usize = 0;
        let r = Self { piece_map, piece_list, boundaries, finished_piece };
        proof {
            assert forall|p: int| 0 <= p < r.statuses().len() implies r.statuses()[p]
                != PieceStatus::HAVE by {}
            lemma_count_have_none(r.statuses());
            assert forall|c: usize| r.bounds().contains_key(c) implies #[trigger] r.bound_entry_ok(
                c,
            ) by {
                assert(c == 0);
                assert(r.bounds()[c] == no_of_pieces - 1);
            }
        }
        r
    }

    /// Runtime check of the sorted-index invariant: true exactly when the
    /// list is ordered by non-decreasing peer count.
    pub fn check_piece_list_invalid(&self) -> (r: bool)
        requires
            self.perm_ok(),
            self.n() >= 1,
        ensures
            r == self.sorted(),
    {
        let len = self.piece_list.len();
        let mut i: usize = 0;
        while i < len - 1
            invariant
                self.perm_ok(),
                self.n() >= 1,
                len == self.n(),
                0 <= i <= len - 1,
                forall|q: int| 0 <= q < i ==> #[trigger] self.count_at(q) <= self.count_at(q + 1),
            decreases len - 1 - i,
        {
            proof {
                assert(0 <= self.list_at(i as int) < self.n());
                assert(0 <= self.list_at(i as int + 1) < self.n());
            }
            if self.piece_map[self.piece_list[i]].get_peer_count() > self.piece_map[self.piece_list[i
                + 1]].get_peer_count() {
                proof {
                    assert(self.count_at(i as int) > self.count_at(i as int + 1));
                }
                return false;
            }
            i = i + 1;
        }
        proof {
            lemma_adjacent_sorted(*self);
        }
        true
    }

    /// Increase the peer count of a piece by one.
    ///
    /// The piece is swapped with the last position of its bucket, its count
    /// is raised, and the bucket boundaries are adjusted, so the sorted
    /// order of the list is kept.
    #[verifier::rlimit(100)]
    pub fn increase_count(&mut self, piece_idx: usize)
        requires
            old(self).well_formed(),
            (piece_idx as int) < old(self).n(),
            old(self).count(piece_idx as int) < usize::MAX,
        ensures
            final(self).well_formed(),
            final(self).n() == old(self).n(),
            final(self).count(piece_idx as int) == old(self).count(piece_idx as int) + 1,
            forall|p: int|
                0 <= p < old(self).n() && p != piece_idx ==> final(self).count(p) == old(
                self,
                ).count(p),
            forall|p: int| 0 <= p < old(self).n() ==> final(self).status(p) == old(self).status(p),
            final(self).finished() == old(self).finished(),
    {
        let ghost s0 = *self;
        let old_avail = self.piece_map[piece_idx].get_peer_count();
        let i = self.piece_map[piece_idx].get_list_idx();
        proof {
            assert(s0.pos_of(piece_idx as int) == i as int);
            assert(s0.list_at(i as int) == piece_idx as int);
            assert(s0.count_at(i as int) == old_avail);
            assert(s0.bounds().contains_key(old_avail));
        }
        let k = *self.boundaries.get(&old_avail).unwrap();
        proof {
            assert(s0.bound_entry_ok(old_avail));
            assert(s0.bounds()[old_avail] == k);
            assert(s0.count_at(k as int) == old_avail);
            if (i as int) > (k as int) {
                assert(s0.count_at(k as int + 1) <= s0.count_at(i as int));
                assert(false);
            }
            assert(i <= k);
            assert(0 <= s0.list_at(k as int) < s0.n());
        }
        // move this piece to the frontier of its bucket
        let other_piece = self.piece_list[k];
        let mut pp = self.piece_map[piece_idx];
        pp.set_list_idx(k);
        self.piece_map.set(piece_idx, pp);
        let mut op = self.piece_map[other_piece];
        op.set_list_idx(i);
        self.piece_map.set(other_piece, op);
        let b = self.piece_list[k];
        self.piece_list.set(k, piece_idx);
        self.piece_list.set(i, b);
        // raise the count of the moved piece
        let mut pc = self.piece_map[piece_idx];
        pc.increase_count();
        self.piece_map.set(piece_idx, pc);
        let ghost s1 = *self;
        proof {
            let n = s0.n();
            let c = old_avail;
            let ii = i as int;
            let kk = k as int;
            let pi = piece_idx as int;
            let ot = s0.list_at(kk);
            // the swap wrote the two positions and the two records
            assert(s1.piece_list@ =~= s0.piece_list@.update(kk, piece_idx).update(ii, other_piece));
            assert(s1.n() == n);
            assert(s1.list_len() == n);
            assert(forall|p: int|
                0 <= p < n && p != pi && p != ot ==> s1.piece_map@[p] == s0.piece_map@[p]);
            assert(s1.count(pi) == c + 1);
            assert(forall|p: int| 0 <= p < n && p != pi ==> s1.count(p) == s0.count(p));
            assert(forall|p: int| 0 <= p < n ==> s1.status(p) == s0.status(p));
            assert(s1.pos_of(pi) == kk);
            assert(ot != pi ==> s1.pos_of(ot) == ii);
            assert(forall|p: int| 0 <= p < n && p != pi && p != ot ==> s1.pos_of(p) == s0.pos_of(p));
            // the list: position kk holds this piece, position ii the displaced one
            assert(s1.list_at(kk) == pi);
            assert(ii != kk ==> s1.list_at(ii) == ot);
            assert(forall|q: int| 0 <= q < n && q != ii && q != kk ==> s1.list_at(q) == s0.list_at(q));
            // permutation is preserved
            assert forall|p: int| 0 <= p < n implies 0 <= #[trigger] s1.pos_of(p) < n && s1.list_at(
                s1.pos_of(p),
            ) == p by {
                if p == pi {
                } else if p == ot {
                    assert(s1.list_at(ii) == ot);
                } else {
                    assert(s0.pos_of(p) != kk && s0.pos_of(p) != ii) by {
                        assert(s0.list_at(s0.pos_of(p)) == p);
                    }
                }
            }
            assert forall|q: int| 0 <= q < n implies 0 <= #[trigger] s1.list_at(q) < n
                && s1.pos_of(s1.list_at(q)) == q by {
                if q == kk {
                } else if q == ii {
                } else {
                    assert(s1.list_at(q) == s0.list_at(q));
                    assert(s0.pos_of(s0.list_at(q)) == q);
                    assert(s0.list_at(q) != pi) by {
                        assert(s0.pos_of(pi) == ii);
                    }
                    assert(s0.list_at(q) != ot || ii == kk) by {
                        assert(s0.pos_of(ot) == kk);
                    }
                }
            }
            assert(s1.perm_ok());
            // counts by position: only position kk changed, from c to c + 1
            assert forall|q: int| 0 <= q < n && q != kk implies #[trigger] s1.count_at(q)
                == s0.count_at(q) by {
                if q == ii {
                    assert(s1.list_at(ii) == ot);
                    assert(ot != pi || ii == kk);
                    assert(s1.count_at(ii) == s0.count(ot));
                    assert(s0.count_at(kk) == c && s0.count_at(ii) == c);
                } else {
                    assert(s1.list_at(q) == s0.list_at(q));
                    assert(s0.list_at(q) != pi) by {
                        assert(s0.pos_of(pi) == ii);
                        assert(s0.pos_of(s0.list_at(q)) == q);
                    }
                }
            }
            assert(s1.count_at(kk) == c + 1);
            // sortedness: position kk was the last of the bucket for c
            assert forall|q1: int, q2: int|
                #![trigger s1.count_at(q1), s1.count_at(q2)]
                0 <= q1 <= q2 < n implies s1.count_at(q1) <= s1.count_at(q2) by {
                if q1 == kk {
                    if q2 != kk {
                        assert(s0.count_at(kk + 1) > c);
                        assert(s0.count_at(kk + 1) <= s0.count_at(q2));
                        assert(s1.count_at(q2) == s0.count_at(q2));
                    }
                } else if q2 == kk {
                    assert(s1.count_at(q1) == s0.count_at(q1));
                    assert(s0.count_at(q1) <= s0.count_at(kk));
                } else {
                    assert(s1.count_at(q1) == s0.count_at(q1));
                    assert(s1.count_at(q2) == s0.count_at(q2));
                }
            }
            assert(s1.sorted());
            assert(s1.statuses() =~= s0.statuses());
        }
        // close or shrink the bucket that was left
        proof {
            if k > 0 {
                assert(0 <= s1.list_at(k as int - 1) < s1.n());
            }
        }
        if k > 0 && self.piece_map[self.piece_list[k - 1]].get_peer_count() == old_avail {
            self.boundaries.insert(old_avail, k - 1);
        } else {
            self.boundaries.remove(&old_avail);
        }
        // open the bucket for the raised count if it has no entry yet
        let new_avail = old_avail + 1;
        if self.boundaries.get(&new_avail).is_none() {
            self.boundaries.insert(new_avail, k);
        }
        proof {
            let n = s0.n();
            let c = old_avail;
            let ii = i as int;
            let kk = k as int;
            let pi = piece_idx as int;
            let fin = *self;
            assert(fin.piece_map@ =~= s1.piece_map@);
            assert(fin.piece_list@ =~= s1.piece_list@);
            assert(fin.statuses() =~= s0.statuses());
            assert(fin.finished() == s0.finished());
            assert(fin.n() == n && fin.list_len() == s1.list_len());
            assert forall|p: int| 0 <= p < n implies 0 <= #[trigger] fin.pos_of(p) < n
                && fin.list_at(fin.pos_of(p)) == p by {
                assert(s1.pos_of(p) == fin.pos_of(p));
                assert(s1.list_at(s1.pos_of(p)) == p);
                assert(fin.list_at(fin.pos_of(p)) == s1.list_at(s1.pos_of(p)));
            }
            assert forall|q: int| 0 <= q < n implies 0 <= #[trigger] fin.list_at(q) < n
                && fin.pos_of(fin.list_at(q)) == q by {
                assert(fin.list_at(q) == s1.list_at(q));
                assert(s1.pos_of(s1.list_at(q)) == q);
            }
            assert(fin.perm_ok());
            assert forall|q1: int, q2: int|
                #![trigger fin.count_at(q1), fin.count_at(q2)]
                0 <= q1 <= q2 < n implies fin.count_at(q1) <= fin.count_at(q2) by {
                assert(fin.count_at(q1) == s1.count_at(q1));
                assert(fin.count_at(q2) == s1.count_at(q2));
            }
            assert(fin.sorted());
            // the boundary map: entries for other counts are untouched
            assert forall|c2: usize| fin.bounds().contains_key(c2) implies #[trigger] fin.bound_entry_ok(c2) by {
                let k2 = fin.bounds()[c2] as int;
                if c2 == c {
                    // only possible when the bucket still has members
                    assert(kk > 0 && s1.count_at(kk - 1) == c);
                    assert(k2 == kk - 1);
                    assert(fin.count_at(kk) == c + 1);
                } else if c2 == c + 1 {
                    if s1.bounds().contains_key(new_avail) {
                        let kb = s1.bounds()[new_avail] as int;
                        assert(k2 == kb);
                        assert(s0.bound_entry_ok(new_avail));
                        assert(s0.count_at(kb) == c + 1);
                        assert(kb != kk);
                        assert(kb > kk) by {
                            if kb < kk {
                                assert(s0.count_at(kb) <= s0.count_at(kk));
                            }
                        }
                        assert(fin.count_at(kb) == s0.count_at(kb));
                        if kb + 1 < n {
                            assert(fin.count_at(kb + 1) == s0.count_at(kb + 1));
                        }
                    } else {
                        assert(k2 == kk);
                        assert(fin.count_at(kk) == c + 1);
                        if kk + 1 < n {
                            assert(s0.count_at(kk + 1) > c);
                            assert(s0.bounds().contains_key(s0.count_at(kk + 1)));
                            assert(s0.count_at(kk + 1) != c + 1);
                            assert(fin.count_at(kk + 1) == s0.count_at(kk + 1));
                        }
                    }
                } else {
                    assert(s0.bounds().contains_key(c2));
                    assert(s0.bound_entry_ok(c2));
                    assert(k2 == s0.bounds()[c2] as int);
                    assert(s0.count_at(k2) == c2);
                    assert(k2 != kk);
                    assert(fin.count_at(k2) == s0.count_at(k2));
                    if k2 + 1 < n {
                        if k2 + 1 == kk {
                            assert(s0.count_at(kk) == c);
                            assert(fin.count_at(kk) == c + 1);
                            assert(c > c2 ==> c + 1 > c2);
                            assert(s0.count_at(k2 + 1) > c2);
                        } else {
                            assert(fin.count_at(k2 + 1) == s0.count_at(k2 + 1));
                        }
                    }
                }
            }
            // every present count still has an entry
            assert forall|q: int| 0 <= q < n implies fin.bounds().contains_key(
                #[trigger] fin.count_at(q),
            ) by {
                if q == kk {
                    assert(fin.count_at(kk) == c + 1);
                    assert(fin.bounds().contains_key(new_avail));
                } else {
                    assert(fin.count_at(q) == s0.count_at(q));
                    assert(s0.bounds().contains_key(s0.count_at(q)));
                    if s0.count_at(q) == c {
                        // the bucket for c kept a member, so its entry stayed
                        if q < kk {
                            assert(s0.count_at(kk - 1) >= s0.count_at(q));
                            assert(s0.count_at(kk - 1) <= s0.count_at(kk));
                            assert(s1.count_at(kk - 1) == s0.count_at(kk - 1));
                            assert(kk > 0 && s1.count_at(kk - 1) == c);
                            assert(fin.bounds().contains_key(c));
                        } else {
                            assert(q > kk);
                            assert(s0.count_at(q) > c);
                            assert(false);
                        }
                    } else if s0.count_at(q) == c + 1 {
                        assert(fin.bounds().contains_key(new_avail));
                    } else {
                        assert(fin.bounds().contains_key(s0.count_at(q)));
                    }
                }
            }
            assert(fin.bounds_ok());
            assert(fin.perm_ok());
            assert(fin.sorted());
            assert(fin.finished() == count_have(fin.statuses()));
            assert(fin.well_formed());
        }
    }

    /// Decrease the peer count of a piece by one; called for each piece a
    /// disconnecting peer had.
    ///
    /// The piece is swapped with the first position of its bucket, its
    /// count is lowered, and the bucket boundaries are adjusted.
    #[verifier::rlimit(100)]
    pub fn decrease_count(&mut self, piece_idx: usize)
        requires
            old(self).well_formed(),
            (piece_idx as int) < old(self).n(),
            old(self).count(piece_idx as int) > 0,
        ensures
            final(self).well_formed(),
            final(self).n() == old(self).n(),
            final(self).count(piece_idx as int) == old(self).count(piece_idx as int) - 1,
            forall|p: int|
                0 <= p < old(self).n() && p != piece_idx ==> final(self).count(p) == old(
                self,
                ).count(p),
            forall|p: int| 0 <= p < old(self).n() ==> final(self).status(p) == old(self).status(p),
            final(self).finished() == old(self).finished(),
    {
        let ghost s0 = *self;
        let c = self.piece_map[piece_idx].get_peer_count();
        let i = self.piece_map[piece_idx].get_list_idx();
        proof {
            assert(s0.pos_of(piece_idx as int) == i as int);
            assert(s0.list_at(i as int) == piece_idx as int);
            assert(s0.count_at(i as int) == c);
            assert forall|q: int| 0 <= q < s0.n() implies 0 <= #[trigger] s0.piece_list@[q] < s0.n() by {
                assert(0 <= s0.list_at(q) < s0.n());
            }
        }
        // walk left to the first position of this piece's bucket
        let mut f = i;
        while f > 0 && self.piece_map[self.piece_list[f - 1]].get_peer_count() == c
            invariant
                *self == s0,
                s0.well_formed(),
                0 <= f <= i,
                (i as int) < s0.n(),
                forall|q: int| 0 <= q < s0.n() ==> 0 <= #[trigger] s0.piece_list@[q] < s0.n(),
                s0.list_len() == s0.n(),
                forall|q: int| f <= q <= i ==> #[trigger] s0.count_at(q) == c,
            decreases f,
        {
            proof {
                assert(s0.count_at(f as int - 1) == s0.count(s0.list_at(f as int - 1)));
            }
            f = f - 1;
        }
        proof {
            assert(f as int == 0 || s0.count_at(f as int - 1) != c);
            assert forall|q: int| 0 <= q < f implies #[trigger] s0.count_at(q) < c by {
                assert(s0.count_at(q) <= s0.count_at(f as int - 1));
                assert(s0.count_at(f as int - 1) <= s0.count_at(i as int));
            }
            assert(0 <= s0.list_at(f as int) < s0.n());
        }
        // swap this piece with the first of its bucket
        let other_piece = self.piece_list[f];
        let mut pp = self.piece_map[piece_idx];
        pp.set_list_idx(f);
        self.piece_map.set(piece_idx, pp);
        let mut op = self.piece_map[other_piece];
        op.set_list_idx(i);
        self.piece_map.set(other_piece, op);
        let b = self.piece_list[f];
        self.piece_list.set(f, piece_idx);
        self.piece_list.set(i, b);
        // lower the count of the moved piece
        let mut pc = self.piece_map[piece_idx];
        pc.decrease_count();
        self.piece_map.set(piece_idx, pc);
        let ghost s1 = *self;
        proof {
            let n = s0.n();
            let ii = i as int;
            let ff = f as int;
            let pi = piece_idx as int;
            let ot = s0.list_at(ff);
            assert(s1.piece_list@ =~= s0.piece_list@.update(ff, piece_idx).update(ii, other_piece));
            assert(s1.n() == n);
            assert(s1.list_len() == n);
            assert(s1.count(pi) == c - 1);
            assert(forall|p: int| 0 <= p < n && p != pi ==> s1.count(p) == s0.count(p));
            assert(forall|p: int| 0 <= p < n ==> s1.status(p) == s0.status(p));
            assert(s1.pos_of(pi) == ff);
            assert(ot != pi ==> s1.pos_of(ot) == ii);
            assert(forall|p: int| 0 <= p < n && p != pi && p != ot ==> s1.pos_of(p) == s0.pos_of(p));
            assert(s1.list_at(ff) == pi);
            assert(ii != ff ==> s1.list_at(ii) == ot);
            assert(forall|q: int| 0 <= q < n && q != ii && q != ff ==> s1.list_at(q) == s0.list_at(q));
            assert forall|p: int| 0 <= p < n implies 0 <= #[trigger] s1.pos_of(p) < n && s1.list_at(
                s1.pos_of(p),
            ) == p by {
                if p == pi {
                } else if p == ot {
                    assert(s1.list_at(ii) == ot);
                } else {
                    assert(s0.pos_of(p) != ff && s0.pos_of(p) != ii) by {
                        assert(s0.list_at(s0.pos_of(p)) == p);
                    }
                }
            }
            assert forall|q: int| 0 <= q < n implies 0 <= #[trigger] s1.list_at(q) < n
                && s1.pos_of(s1.list_at(q)) == q by {
                if q == ff {
                } else if q == ii {
                } else {
                    assert(s1.list_at(q) == s0.list_at(q));
                    assert(s0.pos_of(s0.list_at(q)) == q);
                    assert(s0.list_at(q) != pi) by {
                        assert(s0.pos_of(pi) == ii);
                    }
                    assert(s0.list_at(q) != ot || ii == ff) by {
                        assert(s0.pos_of(ot) == ff);
                    }
                }
            }
            assert(s1.perm_ok());
            // counts by position: only position ff changed, from c to c - 1
            assert forall|q: int| 0 <= q < n && q != ff implies #[trigger] s1.count_at(q)
                == s0.count_at(q) by {
                if q == ii {
                    assert(s1.list_at(ii) == ot);
                    assert(ot != pi || ii == ff);
                    assert(s1.count_at(ii) == s0.count(ot));
                    assert(s0.count_at(ff) == c && s0.count_at(ii) == c);
                } else {
                    assert(s1.list_at(q) == s0.list_at(q));
                    assert(s0.list_at(q) != pi) by {
                        assert(s0.pos_of(pi) == ii);
                        assert(s0.pos_of(s0.list_at(q)) == q);
                    }
                }
            }
            assert(s1.count_at(ff) == c - 1);
            assert forall|q1: int, q2: int|
                #![trigger s1.count_at(q1), s1.count_at(q2)]
                0 <= q1 <= q2 < n implies s1.count_at(q1) <= s1.count_at(q2) by {
                if q1 == ff {
                    if q2 != ff {
                        assert(s0.count_at(q2) >= s0.count_at(ff));
                        assert(s1.count_at(q2) == s0.count_at(q2));
                    }
                } else if q2 == ff {
                    assert(s1.count_at(q1) == s0.count_at(q1));
                    assert(s0.count_at(q1) < c);
                } else {
                    assert(s1.count_at(q1) == s0.count_at(q1));
                    assert(s1.count_at(q2) == s0.count_at(q2));
                }
            }
            assert(s1.sorted());
            assert(s1.statuses() =~= s0.statuses());
            assert(s0.bounds().contains_key(c));
        }
        // the bucket that was left: drop its entry if this was its only
        // member, then record this piece as the new end of the next bucket
        let kc = *self.boundaries.get(&c).unwrap();
        if kc == f {
            self.boundaries.remove(&c);
        }
        self.boundaries.insert(c - 1, f);
        proof {
            let n = s0.n();
            let ii = i as int;
            let ff = f as int;
            let kk = kc as int;
            let pi = piece_idx as int;
            let fin = *self;
            assert(s0.bound_entry_ok(c));
            assert(s0.count_at(kk) == c);
            assert(kk + 1 == n || s0.count_at(kk + 1) > c);
            assert(ff <= kk) by {
                if ff > kk {
                    assert(s0.count_at(ff) >= s0.count_at(kk + 1));
                }
            }
            assert(fin.statuses() =~= s0.statuses());
            assert(fin.finished() == s0.finished());
            assert(fin.n() == n && fin.list_len() == s1.list_len());
            assert forall|p: int| 0 <= p < n implies 0 <= #[trigger] fin.pos_of(p) < n
                && fin.list_at(fin.pos_of(p)) == p by {
                assert(s1.pos_of(p) == fin.pos_of(p));
                assert(s1.list_at(s1.pos_of(p)) == p);
                assert(fin.list_at(fin.pos_of(p)) == s1.list_at(s1.pos_of(p)));
            }
            assert forall|q: int| 0 <= q < n implies 0 <= #[trigger] fin.list_at(q) < n
                && fin.pos_of(fin.list_at(q)) == q by {
                assert(fin.list_at(q) == s1.list_at(q));
                assert(s1.pos_of(s1.list_at(q)) == q);
            }
            assert(fin.perm_ok());
            assert forall|q1: int, q2: int|
                #![trigger fin.count_at(q1), fin.count_at(q2)]
                0 <= q1 <= q2 < n implies fin.count_at(q1) <= fin.count_at(q2) by {
                assert(fin.count_at(q1) == s1.count_at(q1));
                assert(fin.count_at(q2) == s1.count_at(q2));
            }
            assert(fin.sorted());
            assert forall|c2: usize| fin.bounds().contains_key(c2) implies #[trigger] fin.bound_entry_ok(c2) by {
                let k2 = fin.bounds()[c2] as int;
                if c2 == c - 1 {
                    assert(k2 == ff);
                    assert(fin.count_at(ff) == s1.count_at(ff));
                    assert(fin.count_at(ff) == c - 1);
                    if ff + 1 < n {
                        assert(fin.count_at(ff + 1) == s1.count_at(ff + 1));
                        assert(s1.count_at(ff + 1) == s0.count_at(ff + 1));
                        if ff < kk {
                            assert(s0.count_at(ff + 1) == c);
                        } else {
                            assert(ff == kk);
                            assert(s0.count_at(ff + 1) > c);
                        }
                    }
                } else if c2 == c {
                    assert(kk != ff);
                    assert(ff < kk);
                    assert(k2 == kk);
                    assert(fin.count_at(kk) == s1.count_at(kk));
                    assert(s1.count_at(kk) == s0.count_at(kk));
                    if kk + 1 < n {
                        assert(fin.count_at(kk + 1) == s1.count_at(kk + 1));
                        assert(s1.count_at(kk + 1) == s0.count_at(kk + 1));
                    }
                } else {
                    assert(s0.bounds().contains_key(c2));
                    assert(s0.bound_entry_ok(c2));
                    assert(k2 == s0.bounds()[c2] as int);
                    assert(s0.count_at(k2) == c2);
                    assert(k2 != ff);
                    assert(fin.count_at(k2) == s1.count_at(k2));
                    assert(s1.count_at(k2) == s0.count_at(k2));
                    if k2 + 1 < n {
                        if k2 + 1 == ff {
                            assert(s0.count_at(ff) == c);
                            assert(c > c2);
                            assert(fin.count_at(ff) == s1.count_at(ff));
                            assert(fin.count_at(ff) == c - 1);
                            assert(c - 1 > c2 || c - 1 == c2);
                            assert(c2 != c - 1);
                        } else {
                            assert(fin.count_at(k2 + 1) == s1.count_at(k2 + 1));
                            assert(s1.count_at(k2 + 1) == s0.count_at(k2 + 1));
                        }
                    }
                }
            }
            assert forall|q: int| 0 <= q < n implies fin.bounds().contains_key(
                #[trigger] fin.count_at(q),
            ) by {
                if q == ff {
                    assert(fin.count_at(ff) == s1.count_at(ff));
                    assert(fin.count_at(ff) == c - 1);
                    assert(fin.bounds().contains_key((c - 1) as usize));
                } else {
                    assert(fin.count_at(q) == s1.count_at(q));
                    assert(s1.count_at(q) == s0.count_at(q));
                    assert(s0.bounds().contains_key(s0.count_at(q)));
                    if s0.count_at(q) == c {
                        assert(q > ff) by {
                            assert(0 <= q < ff ==> s0.count_at(q) < c);
                        }
                        assert(q <= kk) by {
                            if q > kk {
                                assert(s0.count_at(q) >= s0.count_at(kk + 1));
                            }
                        }
                        assert(kk != ff);
                        assert(fin.bounds().contains_key(c));
                    } else if s0.count_at(q) == c - 1 {
                        assert(fin.bounds().contains_key((c - 1) as usize));
                    } else {
                        assert(fin.bounds().contains_key(s0.count_at(q)));
                    }
                }
            }
            assert(fin.bounds_ok());
            assert(fin.finished() == count_have(fin.statuses()));
            assert(fin.well_formed());
        }
    }

    /// A piece the given peer can serve right now: the peer reports it and
    /// it has not been picked or finished.
    pub open spec fn pickable(self, bits: Seq<bool>, p: int) -> bool {
        &&& 0 <= p < self.n()
        &&& p < bits.len()
        &&& bits[p]
        &&& self.status(p) == PieceStatus::NOTYET
    }

    /// Scan the sorted list from the rarest end and return the first piece
    /// the peer has that is still `NOTYET`.
    pub fn get_next_piece(&self, peer_bitfield: &bit_vec::BitVec) -> (r: Option<usize>)
        requires
            self.well_formed(),
        ensures
            match r {
                Some(p) => {
                    &&& self.pickable(bv_bits(*peer_bitfield), p as int)
                    &&& exists|i: int|
                        #![trigger self.list_at(i)]
                        0 <= i < self.n() && self.list_at(i) == p as int && (forall|j: int|
                            0 <= j < i ==> !self.pickable(
                                bv_bits(*peer_bitfield),
                                #[trigger] self.list_at(j),
                            ))
                },
                None => forall|i: int|
                    0 <= i < self.n() ==> !self.pickable(
                        bv_bits(*peer_bitfield),
                        #[trigger] self.list_at(i),
                    ),
            },
    {
        let len = self.piece_list.len();
        let mut idx: usize = 0;
        while idx < len
            invariant
                self.well_formed(),
                len == self.n(),
                0 <= idx <= len,
                forall|j: int|
                    0 <= j < idx ==> !self.pickable(
                        bv_bits(*peer_bitfield),
                        #[trigger] self.list_at(j),
                    ),
            decreases len - idx,
        {
            proof {
                assert(0 <= self.list_at(idx as int) < self.n());
            }
            let x = self.piece_list[idx];
            if let Some(check) = bv_get(peer_bitfield, x) {
                if check && self.piece_map[x].piece_status == PieceStatus::NOTYET {
                    proof {
                        assert(self.pickable(bv_bits(*peer_bitfield), x as int));
                        assert(self.list_at(idx as int) == x as int);
                    }
                    return Some(x);
                }
            }
            idx = idx + 1;
        }
        None
    }

    /// Mark a piece `HAVE`, once; returns true exactly when every piece is
    /// now `HAVE`.
    pub fn set_piece_complete(&mut self, piece_idx: usize) -> (r: bool)
        requires
            old(self).well_formed(),
            (piece_idx as int) < old(self).n(),
        ensures
            final(self).well_formed(),
            final(self).n() == old(self).n(),
            forall|p: int| 0 <= p < old(self).n() ==> final(self).count(p) == old(self).count(p),
            final(self).status(piece_idx as int) == PieceStatus::HAVE,
            forall|p: int|
                0 <= p < old(self).n() && p != piece_idx ==> final(self).status(p) == old(
                self,
                ).status(p),
            final(self).finished() == old(self).finished() + (if old(self).status(piece_idx as int)
                == PieceStatus::HAVE {
                0int
            } else {
                1int
            }),
            r <==> (forall|p: int| 0 <= p < final(self).n() ==> final(self).status(p)
                == PieceStatus::HAVE),
    {
        let ghost s0 = *self;
        let map_len: usize = self.piece_map.len();
        if self.piece_map[piece_idx].piece_status != PieceStatus::HAVE {
            proof {
                lemma_count_have_bounds(s0.statuses());
                lemma_count_have_full(s0.statuses());
                assert(s0.statuses()[piece_idx as int] != PieceStatus::HAVE);
                assert(count_have(s0.statuses()) < s0.n());
                assert(s0.finished() < map_len as int);
            }
            let mut pp = self.piece_map[piece_idx];
            pp.piece_status = PieceStatus::HAVE;
            self.piece_map.set(piece_idx, pp);
            self.finished_piece = self.finished_piece + 1;
            proof {
                lemma_count_have_update(s0.statuses(), piece_idx as int, PieceStatus::HAVE);
                assert(self.statuses() =~= s0.statuses().update(piece_idx as int, PieceStatus::HAVE));
            }
        }
        let ghost s1 = *self;
        proof {
            let n = s0.n();
            assert(s1.finished() == count_have(s1.statuses()));
            assert forall|p: int| 0 <= p < n implies 0 <= #[trigger] s1.pos_of(p) < n && s1.list_at(
                s1.pos_of(p),
            ) == p by {
                assert(s1.pos_of(p) == s0.pos_of(p));
                assert(s1.list_at(s0.pos_of(p)) == s0.list_at(s0.pos_of(p)));
            }
            assert forall|q: int| 0 <= q < n implies 0 <= #[trigger] s1.list_at(q) < n
                && s1.pos_of(s1.list_at(q)) == q by {
                assert(s1.list_at(q) == s0.list_at(q));
                assert(s1.pos_of(s0.list_at(q)) == s0.pos_of(s0.list_at(q)));
            }
            assert(s1.perm_ok());
            assert forall|q: int| 0 <= q < n implies #[trigger] s1.count_at(q) == s0.count_at(
                q,
            ) by {
                assert(s1.list_at(q) == s0.list_at(q));
            }
            assert forall|q1: int, q2: int|
                #![trigger s1.count_at(q1), s1.count_at(q2)]
                0 <= q1 <= q2 < n implies s1.count_at(q1) <= s1.count_at(q2) by {
                assert(s1.count_at(q1) == s0.count_at(q1));
                assert(s1.count_at(q2) == s0.count_at(q2));
            }
            assert(s1.sorted());
            assert forall|c2: usize| s1.bounds().contains_key(c2) implies #[trigger] s1.bound_entry_ok(c2) by {
                assert(s0.bound_entry_ok(c2));
                let k2 = s0.bounds()[c2] as int;
                assert(s1.count_at(k2) == s0.count_at(k2));
                if k2 + 1 < n {
                    assert(s1.count_at(k2 + 1) == s0.count_at(k2 + 1));
                }
            }
            assert forall|q: int| 0 <= q < n implies s1.bounds().contains_key(
                #[trigger] s1.count_at(q),
            ) by {
                assert(s1.count_at(q) == s0.count_at(q));
            }
            assert(s1.well_formed());
            lemma_count_have_full(s1.statuses());
            lemma_count_have_bounds(s1.statuses());
            assert forall|p: int| 0 <= p < n implies #[trigger] s1.statuses()[p] == s1.status(
                p,
            ) by {}
            if count_have(s1.statuses()) == n {
                assert forall|p: int| 0 <= p < n implies s1.status(p) == PieceStatus::HAVE by {
                    assert(s1.statuses()[p] == s1.status(p));
                }
            }
            if forall|p: int| 0 <= p < n ==> s1.status(p) == PieceStatus::HAVE {
                assert forall|p: int| 0 <= p < s1.statuses().len() implies s1.statuses()[p]
                    == PieceStatus::HAVE by {
                    assert(s1.statuses()[p] == s1.status(p));
                    assert(s1.status(p) == PieceStatus::HAVE);
                }
                assert(count_have(s1.statuses()) == n);
            }
            assert((count_have(s1.statuses()) == n) <==> (forall|p: int|
                0 <= p < n ==> s1.status(p) == PieceStatus::HAVE));
        }
        self.finished_piece == self.piece_map.len()
    }

    /// Mark a piece as handed to a session. A finished piece is never
    /// picked again.
    pub fn set_piece_picked(&mut self, piece_idx: usize)
        requires
            old(self).well_formed(),
            (piece_idx as int) < old(self).n(),
            old(self).status(piece_idx as int) != PieceStatus::HAVE,
        ensures
            final(self).well_formed(),
            final(self).n() == old(self).n(),
            forall|p: int| 0 <= p < old(self).n() ==> final(self).count(p) == old(self).count(p),
            final(self).status(piece_idx as int) == PieceStatus::PICKED,
            forall|p: int|
                0 <= p < old(self).n() && p != piece_idx ==> final(self).status(p) == old(
                self,
                ).status(p),
            final(self).finished() == old(self).finished(),
    {
        let ghost s0 = *self;
        let mut pp = self.piece_map[piece_idx];
        pp.piece_status = PieceStatus::PICKED;
        self.piece_map.set(piece_idx, pp);
        proof {
            let n = s0.n();
            let s1 = *self;
            lemma_count_have_update(s0.statuses(), piece_idx as int, PieceStatus::PICKED);
            assert(s1.statuses() =~= s0.statuses().update(piece_idx as int, PieceStatus::PICKED));
            assert(s1.finished() == count_have(s1.statuses()));
            assert forall|p: int| 0 <= p < n implies 0 <= #[trigger] s1.pos_of(p) < n && s1.list_at(
                s1.pos_of(p),
            ) == p by {
                assert(s1.pos_of(p) == s0.pos_of(p));
                assert(s1.list_at(s0.pos_of(p)) == s0.list_at(s0.pos_of(p)));
            }
            assert forall|q: int| 0 <= q < n implies 0 <= #[trigger] s1.list_at(q) < n
                && s1.pos_of(s1.list_at(q)) == q by {
                assert(s1.list_at(q) == s0.list_at(q));
                assert(s1.pos_of(s0.list_at(q)) == s0.pos_of(s0.list_at(q)));
            }
            assert(s1.perm_ok());
            assert forall|q: int| 0 <= q < n implies #[trigger] s1.count_at(q) == s0.count_at(
                q,
            ) by {
                assert(s1.list_at(q) == s0.list_at(q));
            }
            assert forall|q1: int, q2: int|
                #![trigger s1.count_at(q1), s1.count_at(q2)]
                0 <= q1 <= q2 < n implies s1.count_at(q1) <= s1.count_at(q2) by {
                assert(s1.count_at(q1) == s0.count_at(q1));
                assert(s1.count_at(q2) == s0.count_at(q2));
            }
            assert(s1.sorted());
            assert forall|c2: usize| s1.bounds().contains_key(c2) implies #[trigger] s1.bound_entry_ok(c2) by {
                assert(s0.bound_entry_ok(c2));
                let k2 = s0.bounds()[c2] as int;
                assert(s1.count_at(k2) == s0.count_at(k2));
                if k2 + 1 < n {
                    assert(s1.count_at(k2 + 1) == s0.count_at(k2 + 1));
                }
            }
            assert forall|q: int| 0 <= q < n implies s1.bounds().contains_key(
                #[trigger] s1.count_at(q),
            ) by {
                assert(s1.count_at(q) == s0.count_at(q));
            }
            assert(s1.well_formed());
        }
    }

    /// The availability count of one piece.
    pub fn get_peer_count(&self, piece_idx: usize) -> (r: usize)
        requires
            self.perm_ok(),
            (piece_idx as int) < self.n(),
        ensures
            r == self.count(piece_idx as int),
    {
        self.piece_map[piece_idx].get_peer_count()
    }

    pub fn get_no_entries(&self) -> (r: usize)
        ensures
            r == self.list_len(),
            self.perm_ok() ==> r == self.n(),
    {
        self.piece_list.len()
    }
}

/// A list whose adjacent positions are ordered is sorted overall.
proof fn lemma_adjacent_sorted(s: PieceControler)
    requires
        forall|q: int| 0 <= q < s.n() - 1 ==> #[trigger] s.count_at(q) <= s.count_at(q + 1),
    ensures
        s.sorted(),
{
    assert forall|i: int, j: int|
        #![trigger s.count_at(i), s.count_at(j)]
        0 <= i <= j < s.n() implies s.count_at(i) <= s.count_at(j) by {
        lemma_chain_le(s, i, j);
    }
}

proof fn lemma_chain_le(s: PieceControler, i: int, j: int)
    requires
        forall|q: int| 0 <= q < s.n() - 1 ==> #[trigger] s.count_at(q) <= s.count_at(q + 1),
        0 <= i <= j < s.n(),
    ensures
        s.count_at(i) <= s.count_at(j),
    decreases j - i,
{
    if i < j {
        lemma_chain_le(s, i, j - 1);
        assert(s.count_at(j - 1) <= s.count_at(j));
    }
}

} // verus!
