//! A piece split into fixed 16 KiB blocks: every block is full-sized
//! except possibly the last, and the block sizes sum back to the piece
//! length.
use vstd::prelude::*;

verus! {

pub const BLOCKSIZE: u64 = 16384;

/// How many blocks a piece of `length` bytes has.
pub open spec fn spec_num_blocks(length: int) -> int {
    (length + 16384 - 1) / 16384
}

/// The size of block `b` of a piece of `length` bytes: a full block when
/// one fits, else the remainder.
pub open spec fn spec_block_size(length: int, b: int) -> int {
    if (b + 1) * 16384 <= length {
        16384
    } else {
        length - b * 16384
    }
}

/// The sizes of the first `b` blocks, summed.
pub open spec fn sum_block_sizes(length: int, b: int) -> int
    decreases b,
{
    if b <= 0 {
        0
    } else {
        sum_block_sizes(length, b - 1) + spec_block_size(length, b - 1)
    }
}

/// The partial sums: every full prefix is `b` full blocks, and the whole
/// prefix is the piece length.
proof fn lemma_sum_prefix(length: int, b: int)
    requires
        1 <= length,
        0 <= b <= spec_num_blocks(length),
    ensures
        sum_block_sizes(length, b) == if b < spec_num_blocks(length) {
            b * 16384
        } else {
            length
        },
    decreases b,
{
    let nb = spec_num_blocks(length);
    if b > 0 {
        lemma_sum_prefix(length, b - 1);
        if b < nb {
            assert((b - 1 + 1) * 16384 <= length);
        }
    }
}

/// The block sizes of a piece sum to the piece length.
pub proof fn lemma_block_sizes_sum(length: int)
    requires
        1 <= length,
    ensures
        sum_block_sizes(length, spec_num_blocks(length)) == length,
{
    lemma_sum_prefix(length, spec_num_blocks(length));
}

/// Every block of a piece holds between 1 and 16384 bytes.
pub proof fn lemma_block_size_range(length: int, b: int)
    requires
        1 <= length,
        0 <= b < spec_num_blocks(length),
    ensures
        1 <= spec_block_size(length, b) <= 16384,
{
}

/// One 16 KiB unit of a piece, with its download mark.
#[derive(Clone, Copy)]
pub struct Block {
    index: u64,
    length: u64,
    downloaded: bool,
}

impl Block {
    pub closed spec fn spec_index(self) -> u64 {
        self.index
    }

    pub closed spec fn spec_length(self) -> u64 {
        self.length
    }

    pub closed spec fn spec_downloaded(self) -> bool {
        self.downloaded
    }

    pub fn new(index: u64, length: u64) -> (r: Self)
        ensures
            r.spec_index() == index,
            r.spec_length() == length,
            !r.spec_downloaded(),
    {
        Self { index, length, downloaded: false }
    }

    pub fn get_index(&self) -> (r: u64)
        ensures
            r == self.spec_index(),
    {
        self.index
    }

    pub fn get_length(&self) -> (r: u64)
        ensures
            r == self.spec_length(),
    {
        self.length
    }
}

/// A piece: its length, its expected 20-byte digest, and its blocks.
pub struct Piece {
    length: u64,
    hash: [u8; 20],
    blocks: Vec<Block>,
    is_complete: bool,
}

impl Piece {
    pub closed spec fn spec_length(self) -> u64 {
        self.length
    }

    pub closed spec fn spec_hash(self) -> Seq<u8> {
        self.hash@
    }

    pub closed spec fn spec_blocks(self) -> Seq<Block> {
        self.blocks@
    }

    pub closed spec fn spec_is_complete(self) -> bool {
        self.is_complete
    }

    /// Splits a piece of `length` bytes into its blocks: all of 16384
    /// bytes but the last, which takes what remains.
    #[verifier::loop_isolation(false)]
    pub fn new(length: u64, hash: [u8; 20]) -> (r: Self)
        requires
            1 <= length <= u64::MAX - 16384,
        ensures
            r.spec_length() == length,
            r.spec_hash() == hash@,
            !r.spec_is_complete(),
            r.spec_blocks().len() == spec_num_blocks(length as int),
            forall|b: int|
                0 <= b < r.spec_blocks().len() ==> {
                    &&& (#[trigger] r.spec_blocks()[b]).spec_index() == b
                    &&& r.spec_blocks()[b].spec_length() == spec_block_size(length as int, b)
                    &&& !r.spec_blocks()[b].spec_downloaded()
                },
    {
        let mut blocks: Vec<Block> = Vec::new();
        let number_of_blocks = (length + BLOCKSIZE - 1) / BLOCKSIZE;
        let mut i: u64 = 0;
        while i < number_of_blocks
            invariant
                0 <= i <= number_of_blocks,
                blocks@.len() == i,
                forall|b: int|
                    0 <= b < i ==> {
                        &&& (#[trigger] blocks@[b]).spec_index() == b
                        &&& blocks@[b].spec_length() == spec_block_size(length as int, b)
                        &&& !blocks@[b].spec_downloaded()
                    },
            decreases number_of_blocks - i,
        {
            let block_len = if i < number_of_blocks - 1 {
                BLOCKSIZE
            } else {
                length - (BLOCKSIZE * (number_of_blocks - 1))
            };
            proof {
                if i < number_of_blocks - 1 {
                    assert((i as int + 1) * 16384 <= length as int);
                } else {
                    lemma_block_size_range(length as int, i as int);
                    if (i as int + 1) * 16384 <= length as int {
                        assert(spec_block_size(length as int, i as int) == 16384);
                        assert(length as int - 16384 * (number_of_blocks as int - 1) == 16384);
                    }
                }
            }
            blocks.push(Block::new(i, block_len));
            i = i + 1;
        }
        Self { length, hash, blocks, is_complete: false }
    }

    /// The first block not downloaded yet, if any.
    pub fn get_next_block(&self) -> (r: Option<Block>)
        ensures
            match r {
                Some(b) => {
                    &&& exists|i: int|
                        #![trigger self.spec_blocks()[i]]
                        0 <= i < self.spec_blocks().len() && self.spec_blocks()[i] == b && !b.spec_downloaded()
                            && (forall|j: int|
                            0 <= j < i ==> (#[trigger] self.spec_blocks()[j]).spec_downloaded())
                },
                None => forall|i: int|
                    0 <= i < self.spec_blocks().len() ==> (
                    #[trigger] self.spec_blocks()[i]).spec_downloaded(),
            },
    {
        let len = self.blocks.len();
        let mut i: usize = 0;
        while i < len
            invariant
                0 <= i <= len,
                len == self.spec_blocks().len(),
                forall|j: int| 0 <= j < i ==> (#[trigger] self.spec_blocks()[j]).spec_downloaded(),
            decreases len - i,
        {
            if !self.blocks[i].downloaded {
                let b = self.blocks[i].clone();
                proof {
                    assert(self.spec_blocks()[i as int] == b);
                }
                return Some(b);
            }
            i = i + 1;
        }
        None
    }
}

} // verus!
