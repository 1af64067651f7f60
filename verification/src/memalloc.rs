//! A pooled allocator: memory is handed out from large blocks, rounded up to
//! whole words, and a request that does not fit in the current block starts
//! a new one.
use vstd::prelude::*;
use crate::file::sum_lens;

verus! {

/// `n` rounded up to a whole number of 16-byte words.
pub open spec fn round_up_16(n: nat) -> nat {
    ((n + 15) / 16) * 16
}

/// Rounding up gives the least multiple of 16 that is not below `n`.
pub proof fn lemma_round_up_16(n: nat)
    ensures
        round_up_16(n) % 16 == 0,
        n <= round_up_16(n) < n + 16,
{
}

/// The bytes taken by `count` values of type `T`.
pub open spec fn alloc_bytes<T>(count: usize) -> nat {
    vstd::layout::size_of::<T>() * (count as nat)
}

/// A vector of `n` zero bytes.
fn zeros(n: usize) -> (r: Vec<u8>)
    ensures
        r@ == Seq::new(n as nat, |i: int| 0u8),
{
    let mut r: Vec<u8> = Vec::new();
    let mut i: usize = 0;
    while i < n
        invariant
            0 <= i <= n,
            r@ == Seq::new(i as nat, |k: int| 0u8),
        decreases n - i,
    {
        r.push(0u8);
        i = i + 1;
        proof {
            assert(r@ =~= Seq::new(i as nat, |k: int| 0u8));
        }
    }
    r
}

/// Hands out memory from blocks of `blocksize` bytes, in multiples of
/// `wordsize` bytes, and counts the bytes handed out and the bytes left
/// unused at the end of abandoned blocks.
pub struct PooledAllocator {
    wordsize: usize,
    blocksize: usize,
    blocks: Vec<Vec<u8>>,
    /// Bytes handed out.
    pub used_memory: usize,
    /// Bytes left unused at the end of blocks that were given up.
    pub wasted_memory: usize,
}

impl PooledAllocator {
    /// The lengths of the blocks taken from the system, oldest first.
    pub closed spec fn block_lens(&self) -> Seq<nat> {
        self.blocks@.map_values(|b: Vec<u8>| b@.len())
    }

    /// Bytes handed out.
    pub closed spec fn spec_used(&self) -> nat {
        self.used_memory as nat
    }

    /// Bytes wasted at the end of given-up blocks.
    pub closed spec fn spec_wasted(&self) -> nat {
        self.wasted_memory as nat
    }

    /// The size of a block.
    pub closed spec fn spec_blocksize(&self) -> nat {
        self.blocksize as nat
    }

    /// Words are 16 bytes, and the bytes handed out are the bytes of the
    /// blocks.
    pub closed spec fn wf(&self) -> bool {
        &&& self.wordsize == 16
        &&& self.used_memory == sum_lens(self.block_lens())
    }

    /// The bytes handed out are exactly the bytes held in the blocks.
    pub proof fn lemma_used_is_block_total(&self)
        requires
            self.wf(),
        ensures
            self.spec_used() == sum_lens(self.block_lens()),
    {
    }

    /// An allocator with no blocks, 16-byte words and 8192-byte blocks.
    pub fn new() -> (r: Self)
        ensures
            r.wf(),
            r.spec_blocksize() == 8192,
            r.block_lens() == Seq::<nat>::empty(),
            r.spec_used() == 0,
            r.spec_wasted() == 0,
    {
        let r = PooledAllocator {
            wordsize: 16,
            blocksize: 8192,
            blocks: Vec::new(),
            used_memory: 0,
            wasted_memory: 0,
        };
        assert(r.block_lens() =~= Seq::<nat>::empty());
        r
    }

    /// Gives all blocks back and resets the counters.
    pub fn free_all(&mut self)
        ensures
            old(self).wf() ==> final(self).wf(),
            final(self).spec_blocksize() == old(self).spec_blocksize(),
            final(self).block_lens() == Seq::<nat>::empty(),
            final(self).spec_used() == 0,
            final(self).spec_wasted() == 0,
    {
        self.blocks.clear();
        self.used_memory = 0;
        self.wasted_memory = 0;
        assert(self.block_lens() =~= Seq::<nat>::empty());
    }


    /// Whether a request of `size` rounded bytes fits behind the last block.
    pub open spec fn fits_last_block(&self, size: nat) -> bool {
        self.block_lens().len() > 0 && self.block_lens().last() + size <= self.spec_blocksize()
    }

    /// Hands out `req_size` bytes rounded up to whole words, as zeroed
    /// memory: behind the last block when they fit there, else in a new
    /// block, and the room left in the given-up block counts as wasted.
    pub fn malloc(&mut self, req_size: usize) -> (r: Vec<u8>)
        requires
            old(self).wf(),
            req_size + 15 <= usize::MAX,
            old(self).spec_used() + round_up_16(req_size as nat) <= usize::MAX,
            !old(self).fits_last_block(round_up_16(req_size as nat)) && old(self).block_lens().len() > 0
                ==> {
                &&& old(self).block_lens().last() <= old(self).spec_blocksize()
                &&& old(self).spec_wasted() + (old(self).spec_blocksize() - old(self).block_lens().last())
                    <= usize::MAX
            },
        ensures
            final(self).wf(),
            final(self).spec_blocksize() == old(self).spec_blocksize(),
            r@ == Seq::new(round_up_16(req_size as nat), |i: int| 0u8),
            final(self).spec_used() == old(self).spec_used() + round_up_16(req_size as nat),
            old(self).fits_last_block(round_up_16(req_size as nat)) ==> {
                &&& final(self).block_lens() == old(self).block_lens().update(
                    old(self).block_lens().len() - 1,
                    old(self).block_lens().last() + round_up_16(req_size as nat),
                )
                &&& final(self).spec_wasted() == old(self).spec_wasted()
            },
            !old(self).fits_last_block(round_up_16(req_size as nat)) ==> {
                &&& final(self).block_lens() == old(self).block_lens().push(round_up_16(req_size as nat))
                &&& final(self).spec_wasted() == old(self).spec_wasted() + if old(self).block_lens().len() > 0 {
                    old(self).spec_blocksize() - old(self).block_lens().last()
                } else {
                    0
                }
            },
    {
        let x = req_size + (self.wordsize - 1);
        let size = x & !(self.wordsize - 1);
        assert(size == round_up_16(req_size as nat)) by {
            assert(x & !15usize == (x / 16) * 16) by (bit_vector);
        }
        let ghost old_lens = self.block_lens();
        let nblocks = self.blocks.len();
        if nblocks > 0 {
            let last_len = self.blocks[nblocks - 1].len();
            if size <= self.blocksize && last_len <= self.blocksize - size {
                let mut block = self.blocks.pop().unwrap();
                let ghost before = block@;
                let mut i: usize = 0;
                while i < size
                    invariant
                        0 <= i <= size,
                        block@.len() == before.len() + i,
                    decreases size - i,
                {
                    block.push(0u8);
                    i = i + 1;
                }
                self.blocks.push(block);
                self.used_memory = self.used_memory + size;
                proof {
                    assert(self.block_lens() =~= old_lens.update(old_lens.len() - 1, (old_lens.last() + size) as nat));
                    assert(old_lens.drop_last() =~= self.block_lens().drop_last());
                }
                return zeros(size);
            } else {
                self.wasted_memory = self.wasted_memory + (self.blocksize - last_len);
            }
        }
        let new_block = zeros(size);
        self.blocks.push(new_block);
        self.used_memory = self.used_memory + size;
        proof {
            assert(self.block_lens() =~= old_lens.push(size as nat));
            assert(self.block_lens().drop_last() =~= old_lens);
        }
        zeros(size)
    }

    /// Hands out room for `count` values of type `T` (counted like `malloc`
    /// of their size in bytes) and returns `count` default values.
    pub fn allocate<T: Default + Clone>(&mut self, count: usize) -> (r: Vec<T>)
        requires
            old(self).wf(),
            alloc_bytes::<T>(count) + 15 <= usize::MAX,
            old(self).spec_used() + round_up_16(alloc_bytes::<T>(count)) <= usize::MAX,
            !old(self).fits_last_block(round_up_16(alloc_bytes::<T>(count)))
                && old(self).block_lens().len() > 0 ==> {
                &&& old(self).block_lens().last() <= old(self).spec_blocksize()
                &&& old(self).spec_wasted() + (old(self).spec_blocksize() - old(self).block_lens().last())
                    <= usize::MAX
            },
        ensures
            final(self).wf(),
            final(self).spec_blocksize() == old(self).spec_blocksize(),
            r@.len() == count,
            forall|i: int| 0 <= i < count ==> call_ensures(T::default, (), #[trigger] r@[i]),
            final(self).spec_used() == old(self).spec_used() + round_up_16(alloc_bytes::<T>(count)),
            old(self).fits_last_block(round_up_16(alloc_bytes::<T>(count))) ==> {
                &&& final(self).block_lens() == old(self).block_lens().update(
                    old(self).block_lens().len() - 1,
                    old(self).block_lens().last() + round_up_16(alloc_bytes::<T>(count)),
                )
                &&& final(self).spec_wasted() == old(self).spec_wasted()
            },
            !old(self).fits_last_block(round_up_16(alloc_bytes::<T>(count))) ==> {
                &&& final(self).block_lens() == old(self).block_lens().push(
                    round_up_16(alloc_bytes::<T>(count)),
                )
                &&& final(self).spec_wasted() == old(self).spec_wasted() + if old(self).block_lens().len() > 0 {
                    old(self).spec_blocksize() - old(self).block_lens().last()
                } else {
                    0
                }
            },
    {
        let unit = core::mem::size_of::<T>();
        let size = unit * count;
        let _mem = self.malloc(size);
        let mut v: Vec<T> = Vec::new();
        let mut i: usize = 0;
        while i < count
            invariant
                0 <= i <= count,
                v@.len() == i,
                forall|k: int| 0 <= k < i ==> call_ensures(T::default, (), #[trigger] v@[k]),
            decreases count - i,
        {
            v.push(T::default());
            i = i + 1;
        }
        v
    }
}

} // verus!
