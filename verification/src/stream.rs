//! Shared-memory stream-table buffer protocol: a data region divided into
//! power-of-two-sized blocks, a LIFO free stack of blocks, and scatter-gather
//! chains for payloads larger than one block. A chain of length `L` with
//! block size `B` is a single data block when `L <= B`; otherwise its root is
//! an index block whose `B/4` little-endian 32-bit words name data blocks,
//! the last word chaining to a further index block when needed.

use vstd::prelude::*;

verus! {

/// One block of the shared data region.
pub struct Buffer {
    bytes: Vec<u8>,
}

/// The little-endian 32-bit value of four bytes.
pub open spec fn le32(b0: u8, b1: u8, b2: u8, b3: u8) -> u32 {
    (b0 + 0x100 * b1 + 0x1_0000 * b2 + 0x100_0000 * b3) as u32
}

/// The `k`-th little-endian 32-bit word of a byte sequence.
pub open spec fn word_of(bytes: Seq<u8>, k: int) -> u32 {
    le32(bytes[4 * k], bytes[4 * k + 1], bytes[4 * k + 2], bytes[4 * k + 3])
}

impl Buffer {
    pub closed spec fn view(&self) -> Seq<u8> {
        self.bytes@
    }

    /// A zeroed block of `size` bytes.
    pub fn zeroed(size: u32) -> (r: Buffer)
        ensures
            r@ == Seq::<u8>::new(size as nat, |i: int| 0u8),
    {
        let mut bytes: Vec<u8> = Vec::new();
        let mut i: u32 = 0;
        while i < size
            invariant
                i <= size,
                bytes@ == Seq::<u8>::new(i as nat, |j: int| 0u8),
            decreases size - i,
        {
            bytes.push(0);
            proof {
                assert(bytes@ =~= Seq::<u8>::new((i + 1) as nat, |j: int| 0u8));
            }
            i = i + 1;
        }
        Buffer { bytes }
    }

    pub fn len(&self) -> (r: usize)
        ensures
            r == self@.len(),
    {
        self.bytes.len()
    }

    /// Read one byte.
    pub fn byte(&self, i: usize) -> (r: u8)
        requires
            i < self@.len(),
        ensures
            r == self@[i as int],
    {
        self.bytes[i]
    }

    /// Overwrite one byte.
    pub fn set_byte(&mut self, i: usize, v: u8)
        requires
            i < old(self)@.len(),
        ensures
            final(self)@ == old(self)@.update(i as int, v),
    {
        self.bytes.set(i, v);
    }

    /// Read the `k`-th little-endian 32-bit word.
    pub fn read_word(&self, k: usize) -> (r: u32)
        requires
            4 * k + 4 <= self@.len(),
        ensures
            r == word_of(self@, k as int),
    {
        let _n = self.bytes.len();
        let b0 = self.bytes[4 * k];
        let b1 = self.bytes[4 * k + 1];
        let b2 = self.bytes[4 * k + 2];
        let b3 = self.bytes[4 * k + 3];
        b0 as u32 + 0x100 * (b1 as u32) + 0x1_0000 * (b2 as u32) + 0x100_0000 * (b3 as u32)
    }

    /// Overwrite the `k`-th little-endian 32-bit word; other bytes keep
    /// their values.
    pub fn write_word(&mut self, k: usize, v: u32)
        requires
            4 * k + 4 <= old(self)@.len(),
        ensures
            final(self)@.len() == old(self)@.len(),
            word_of(final(self)@, k as int) == v,
            forall|i: int|
                0 <= i < old(self)@.len() && !(4 * k <= i < 4 * k + 4) ==> final(self)@[i]
                    == old(self)@[i],
    {
        let b0 = (v & 0xff) as u8;
        let b1 = ((v >> 8) & 0xff) as u8;
        let b2 = ((v >> 16) & 0xff) as u8;
        let b3 = ((v >> 24) & 0xff) as u8;
        proof {
            assert(le32(
                (v & 0xff) as u8,
                ((v >> 8) & 0xff) as u8,
                ((v >> 16) & 0xff) as u8,
                ((v >> 24) & 0xff) as u8,
            ) == v) by (bit_vector);
        }
        let _n = self.bytes.len();
        self.bytes.set(4 * k, b0);
        self.bytes.set(4 * k + 1, b1);
        self.bytes.set(4 * k + 2, b2);
        self.bytes.set(4 * k + 3, b3);
    }

    /// Copy `buf` into this block starting at `offset`.
    pub fn copy_from(&mut self, offset: usize, buf: &Vec<u8>)
        requires
            offset + buf@.len() <= old(self)@.len(),
        ensures
            final(self)@.len() == old(self)@.len(),
            forall|i: int|
                offset <= i < offset + buf@.len() ==> final(self)@[i] == buf@[i - offset],
            forall|i: int|
                0 <= i < old(self)@.len() && !(offset <= i < offset + buf@.len())
                    ==> final(self)@[i] == old(self)@[i],
    {
        let mut j: usize = 0;
        while j < buf.len()
            invariant
                j <= buf@.len(),
                offset + buf@.len() <= self@.len(),
                self@.len() == old(self)@.len(),
                forall|i: int| offset <= i < offset + j ==> self@[i] == buf@[i - offset],
                forall|i: int|
                    0 <= i < self@.len() && !(offset <= i < offset + j)
                        ==> self@[i] == old(self)@[i],
            decreases buf@.len() - j,
        {
            let _n = self.bytes.len();
            self.bytes.set(offset + j, buf[j]);
            j = j + 1;
        }
    }

    /// Copy `count` bytes out of this block starting at `offset`.
    pub fn copy_to(&self, offset: usize, count: usize) -> (r: Vec<u8>)
        requires
            offset + count <= self@.len(),
        ensures
            r@ == self@.subrange(offset as int, offset + count),
    {
        let mut out: Vec<u8> = Vec::new();
        let mut j: usize = 0;
        while j < count
            invariant
                j <= count,
                offset + count <= self@.len(),
                out@ == self@.subrange(offset as int, offset + j),
            decreases count - j,
        {
            let _n = self.bytes.len();
            out.push(self.bytes[offset + j]);
            proof {
                assert(out@ =~= self@.subrange(offset as int, offset + j + 1));
            }
            j = j + 1;
        }
        out
    }

    /// Walk this block's bytes in chunks of `n`; the cursor hands whole
    /// chunks out one at a time and what is left after the last whole
    /// chunk as the remainder.
    pub fn array_chunks(&self, n: usize) -> (r: ArrayChunks)
        requires
            1 <= n,
        ensures
            r.bytes_spec() == self@,
            r.pos_spec() == 0,
            r.chunk_spec() == n,
    {
        ArrayChunks { bytes: self.copy_to(0, self.len()), pos: 0, chunk: n }
    }
}

/// A cursor over one block's bytes, whole chunks first.
pub struct ArrayChunks {
    bytes: Vec<u8>,
    pos: usize,
    chunk: usize,
}

impl ArrayChunks {
    pub closed spec fn bytes_spec(&self) -> Seq<u8> {
        self.bytes@
    }

    pub closed spec fn pos_spec(&self) -> int {
        self.pos as int
    }

    pub closed spec fn chunk_spec(&self) -> int {
        self.chunk as int
    }

    /// The next whole chunk, if one is left.
    pub fn next(&mut self) -> (r: Option<Vec<u8>>)
        requires
            1 <= old(self).chunk_spec(),
            0 <= old(self).pos_spec() <= old(self).bytes_spec().len(),
        ensures
            final(self).bytes_spec() == old(self).bytes_spec(),
            final(self).chunk_spec() == old(self).chunk_spec(),
            match r {
                Some(c) => {
                    &&& old(self).pos_spec() + old(self).chunk_spec() <= old(
                        self,
                    ).bytes_spec().len()
                    &&& c@ == old(self).bytes_spec().subrange(
                        old(self).pos_spec(),
                        old(self).pos_spec() + old(self).chunk_spec(),
                    )
                    &&& final(self).pos_spec() == old(self).pos_spec() + old(self).chunk_spec()
                },
                None => {
                    &&& old(self).pos_spec() + old(self).chunk_spec() > old(
                        self,
                    ).bytes_spec().len()
                    &&& final(self).pos_spec() == old(self).pos_spec()
                },
            },
    {
        let blen = self.bytes.len();
        if self.chunk > blen - self.pos {
            return None;
        }
        let mut out: Vec<u8> = Vec::new();
        let mut j: usize = 0;
        while j < self.chunk
            invariant
                j <= self.chunk,
                self.pos + self.chunk <= self.bytes@.len(),
                out@ == self.bytes@.subrange(self.pos as int, self.pos + j),
            decreases self.chunk - j,
        {
            let _n = self.bytes.len();
            out.push(self.bytes[self.pos + j]);
            proof {
                assert(out@ =~= self.bytes@.subrange(self.pos as int, self.pos + j + 1));
            }
            j = j + 1;
        }
        self.pos = self.pos + self.chunk;
        Some(out)
    }

    /// The bytes after the last whole chunk; only meaningful once `next`
    /// has run out of whole chunks.
    pub fn remainder(&self) -> (r: Vec<u8>)
        requires
            0 <= self.pos_spec() <= self.bytes_spec().len(),
            self.bytes_spec().len() - self.pos_spec() < self.chunk_spec(),
        ensures
            r@ == self.bytes_spec().subrange(self.pos_spec(), self.bytes_spec().len() as int),
    {
        let blen = self.bytes.len();
        let mut out: Vec<u8> = Vec::new();
        let mut j: usize = self.pos;
        while j < blen
            invariant
                self.pos <= j <= blen,
                blen == self.bytes@.len(),
                out@ == self.bytes@.subrange(self.pos as int, j as int),
            decreases blen - j,
        {
            out.push(self.bytes[j]);
            proof {
                assert(out@ =~= self.bytes@.subrange(self.pos as int, j + 1));
            }
            j = j + 1;
        }
        out
    }
}

/// The number of data blocks a payload of `len` bytes occupies: `len / bs`
/// rounded up.
pub open spec fn data_block_count(len: nat, bs: nat) -> nat {
    len / bs + if len % bs == 0 {
        0nat
    } else {
        1nat
    }
}

/// The number of index blocks needed for `d` data blocks when one index
/// block holds `w` words: one, plus one more for every `w - 1` data pointers
/// past the first `w` (the last word of a full index block chains onward).
pub open spec fn index_block_count(d: nat, w: nat) -> nat
    decreases d,
{
    if d <= w || w <= 1 {
        1
    } else {
        1 + index_block_count((d - (w - 1)) as nat, w)
    }
}

/// A chain always has at least one index block.
pub proof fn lemma_index_count_pos(d: nat, w: nat)
    ensures
        index_block_count(d, w) >= 1,
    decreases d,
{
    if d <= w || w <= 1 {
    } else {
        lemma_index_count_pos((d - (w - 1)) as nat, w);
    }
}

/// The total number of blocks a payload of `len` bytes occupies with block
/// size `bs`: its data blocks plus its index blocks, if any.
pub open spec fn blocks_needed(len: nat, bs: nat) -> nat {
    if len == 0 {
        0
    } else if len <= bs {
        1
    } else {
        data_block_count(len, bs) + index_block_count(data_block_count(len, bs), bs / 4)
    }
}

/// The shared data region: a pool of equally sized blocks and the LIFO free
/// stack over them. The stack's head is the last element of `free_list`.
pub struct Buffers {
    block_size: u32,
    blocks: Vec<Buffer>,
    free: Vec<u32>,
}

impl Buffers {
    /// The bytes of every block.
    pub closed spec fn mem(&self) -> Seq<Seq<u8>> {
        self.blocks@.map(|i: int, b: Buffer| b@)
    }

    pub closed spec fn num_blocks(&self) -> nat {
        self.blocks@.len()
    }

    pub closed spec fn block_size_spec(&self) -> nat {
        self.block_size as nat
    }

    /// The free stack, bottom first; the head is the last element.
    pub closed spec fn free_list(&self) -> Seq<u32> {
        self.free@
    }

    /// Words per index block.
    pub open spec fn w(&self) -> nat {
        self.block_size_spec() / 4
    }

    pub open spec fn word_at(&self, b: u32, k: int) -> u32 {
        word_of(self.mem()[b as int], k)
    }

    pub open spec fn wf(&self) -> bool {
        &&& 8 <= self.block_size_spec()
        &&& self.block_size_spec() % 4 == 0
        &&& self.num_blocks() <= 0xffff_ffff
        &&& forall|b: int|
            0 <= b < self.num_blocks() ==> (#[trigger] self.mem()[b]).len()
                == self.block_size_spec()
        &&& forall|k: int|
            0 <= k < self.free_list().len() ==> (#[trigger] self.free_list()[k]) < self.num_blocks()
        &&& self.free_list().no_duplicates()
    }

    /// The data blocks of a chain rooted at index block `idx` carrying `d`
    /// data blocks, in payload order.
    pub open spec fn data_blocks_rec(&self, idx: u32, d: nat) -> Seq<u32>
        decreases d,
    {
        if d <= self.w() || self.w() <= 1 {
            Seq::new(d, |k: int| self.word_at(idx, k))
        } else {
            Seq::new((self.w() - 1) as nat, |k: int| self.word_at(idx, k)) + self.data_blocks_rec(
                self.word_at(idx, self.w() - 1),
                (d - (self.w() - 1)) as nat,
            )
        }
    }

    /// The index blocks of the same chain, root first.
    pub open spec fn index_blocks_rec(&self, idx: u32, d: nat) -> Seq<u32>
        decreases d,
    {
        if d <= self.w() || self.w() <= 1 {
            seq![idx]
        } else {
            seq![idx] + self.index_blocks_rec(
                self.word_at(idx, self.w() - 1),
                (d - (self.w() - 1)) as nat,
            )
        }
    }

    /// Whether every block reached by the chain's traversal is in range.
    pub open spec fn chain_ok_rec(&self, idx: u32, d: nat) -> bool
        decreases d,
    {
        &&& idx < self.num_blocks()
        &&& if d <= self.w() || self.w() <= 1 {
            forall|k: int| 0 <= k < d ==> (#[trigger] self.word_at(idx, k)) < self.num_blocks()
        } else {
            &&& forall|k: int|
                0 <= k < self.w() - 1 ==> (#[trigger] self.word_at(idx, k)) < self.num_blocks()
            &&& self.chain_ok_rec(self.word_at(idx, self.w() - 1), (d - (self.w() - 1)) as nat)
        }
    }

    /// The data blocks of the chain for a payload of `len` bytes rooted at
    /// `offset`: a single data block when `len <= block_size`, otherwise the
    /// blocks named by the index chain rooted at `offset`.
    pub open spec fn chain_data_blocks(&self, offset: u32, len: nat) -> Seq<u32> {
        if len == 0 {
            Seq::empty()
        } else if len <= self.block_size_spec() {
            seq![offset]
        } else {
            self.data_blocks_rec(offset, data_block_count(len, self.block_size_spec()))
        }
    }

    /// The index blocks of the same chain; none for payloads that fit one
    /// block.
    pub open spec fn chain_index_blocks(&self, offset: u32, len: nat) -> Seq<u32> {
        if len <= self.block_size_spec() {
            Seq::empty()
        } else {
            self.index_blocks_rec(offset, data_block_count(len, self.block_size_spec()))
        }
    }

    /// Every block of the chain, data then index.
    pub open spec fn chain_blocks(&self, offset: u32, len: nat) -> Seq<u32> {
        self.chain_data_blocks(offset, len) + self.chain_index_blocks(offset, len)
    }

    /// The order in which the blocks of the chain rooted at `idx` with `d`
    /// data blocks go back to the free stack: each index block's data
    /// pointers, then the index block itself, then the rest of the chain.
    pub open spec fn drop_order_rec(&self, idx: u32, d: nat) -> Seq<u32>
        decreases d,
    {
        if d <= self.w() || self.w() <= 1 {
            Seq::new(d, |k: int| self.word_at(idx, k)).push(idx)
        } else {
            Seq::new((self.w() - 1) as nat, |k: int| self.word_at(idx, k)).push(idx)
                + self.drop_order_rec(
                self.word_at(idx, self.w() - 1),
                (d - (self.w() - 1)) as nat,
            )
        }
    }

    /// The order in which a whole payload's blocks go back to the free
    /// stack.
    pub open spec fn chain_drop_order(&self, offset: u32, len: nat) -> Seq<u32> {
        if len == 0 {
            Seq::empty()
        } else if len <= self.block_size_spec() {
            seq![offset]
        } else {
            self.drop_order_rec(offset, data_block_count(len, self.block_size_spec()))
        }
    }

    /// Every offset the traversal of the chain reads is within the region.
    pub open spec fn chain_ok(&self, offset: u32, len: nat) -> bool {
        if len == 0 {
            true
        } else if len <= self.block_size_spec() {
            offset < self.num_blocks()
        } else {
            self.chain_ok_rec(offset, data_block_count(len, self.block_size_spec()))
        }
    }

    /// A region of `num_blocks` zeroed blocks of `block_size` bytes each,
    /// with every block on the free stack, block 0 at the bottom.
    pub fn new(num_blocks: u32, block_size: u32) -> (r: Buffers)
        requires
            8 <= block_size,
            block_size & ((block_size - 1) as u32) == 0,
        ensures
            r.wf(),
            r.block_size_spec() == block_size,
            r.num_blocks() == num_blocks,
            r.free_list() == Seq::new(num_blocks as nat, |i: int| i as u32),
            forall|b: int|
                0 <= b < num_blocks ==> r.mem()[b] =~= Seq::<u8>::new(
                    block_size as nat,
                    |i: int| 0u8,
                ),
    {
        proof {
            assert(block_size % 4 == 0 && block_size / 4 >= 2) by (bit_vector)
                requires
                    8 <= block_size,
                    block_size & ((block_size - 1) as u32) == 0u32,
            ;
        }
        let mut blocks: Vec<Buffer> = Vec::new();
        let mut free: Vec<u32> = Vec::new();
        let mut i: u32 = 0;
        while i < num_blocks
            invariant
                i <= num_blocks,
                blocks@.len() == i,
                free@ == Seq::new(i as nat, |j: int| j as u32),
                forall|b: int|
                    0 <= b < i ==> (#[trigger] blocks@[b])@ =~= Seq::<u8>::new(
                        block_size as nat,
                        |j: int| 0u8,
                    ),
            decreases num_blocks - i,
        {
            blocks.push(Buffer::zeroed(block_size));
            free.push(i);
            proof {
                assert(free@ =~= Seq::new((i + 1) as nat, |j: int| j as u32));
            }
            i = i + 1;
        }
        Buffers { block_size, blocks, free }
    }

    pub fn block_size(&self) -> (r: u32)
        ensures
            r == self.block_size_spec(),
    {
        self.block_size
    }

    pub fn free_len(&self) -> (r: usize)
        ensures
            r == self.free_list().len(),
    {
        self.free.len()
    }

    /// Push a block back on the free stack. The index must be in range —
    /// every length and offset read from the shared region is bounds-checked
    /// before use — and not already free.
    pub fn dealloc(&mut self, buf: u32)
        requires
            old(self).wf(),
            buf < old(self).num_blocks(),
            !old(self).free_list().contains(buf),
        ensures
            final(self).wf(),
            final(self).free_list() == old(self).free_list().push(buf),
            final(self).mem() == old(self).mem(),
            final(self).block_size_spec() == old(self).block_size_spec(),
            final(self).num_blocks() == old(self).num_blocks(),
    {
        self.free.push(buf);
        proof {
            assert(self.mem() == old(self).mem());
            assert forall|b: int| 0 <= b < self.num_blocks()
                implies (#[trigger] self.mem()[b]).len() == self.block_size_spec() by {
                assert(old(self).mem()[b].len() == old(self).block_size_spec());
            }
            let f0 = old(self).free_list();
            let f1 = self.free_list();
            assert forall|i: int, j: int| 0 <= i < j < f1.len() implies f1[i] != f1[j] by {
                if j == f1.len() - 1 {
                    assert(f1[i] == f0[i]);
                    if f1[i] == buf {
                        assert(f0.contains(buf));
                    }
                }
            }
        }
    }

    /// Pop the head of the free stack.
    fn pop_free(&mut self) -> (r: Option<u32>)
        requires
            old(self).wf(),
        ensures
            final(self).wf(),
            final(self).mem() == old(self).mem(),
            final(self).block_size_spec() == old(self).block_size_spec(),
            final(self).num_blocks() == old(self).num_blocks(),
            match r {
                Some(b) => {
                    &&& old(self).free_list().len() > 0
                    &&& b == old(self).free_list().last()
                    &&& b < old(self).num_blocks()
                    &&& final(self).free_list() == old(self).free_list().drop_last()
                },
                None => {
                    &&& old(self).free_list().len() == 0
                    &&& final(self).free_list() == old(self).free_list()
                },
            },
    {
        let r = self.free.pop();
        proof {
            assert(self.mem() == old(self).mem());
            assert forall|b: int| 0 <= b < self.num_blocks()
                implies (#[trigger] self.mem()[b]).len() == self.block_size_spec() by {
                assert(old(self).mem()[b].len() == old(self).block_size_spec());
            }
            let f0 = old(self).free_list();
            let f1 = self.free_list();
            if f0.len() > 0 {
                assert(f1 =~= f0.drop_last());
                assert forall|i: int, j: int| 0 <= i < j < f1.len() implies f1[i] != f1[j] by {
                    assert(f0[i] != f0[j]);
                }
            }
        }
        r
    }

    pub fn num_blocks_exec(&self) -> (r: usize)
        ensures
            r == self.num_blocks(),
    {
        self.blocks.len()
    }

    /// The number of data blocks a payload of `len` bytes occupies.
    fn data_count(&self, len: u32) -> (r: usize)
        requires
            self.wf(),
        ensures
            r == data_block_count(len as nat, self.block_size_spec()),
    {
        let q = len / self.block_size;
        let rem = len % self.block_size;
        proof {
            assert(q < 0xffff_ffffu32) by (nonlinear_arith)
                requires
                    8 <= self.block_size,
                    q == len / self.block_size,
            ;
        }
        let d = if rem == 0 {
            q
        } else {
            q + 1
        };
        d as usize
    }

    /// The number of index blocks a chain of `d` data blocks needs.
    fn index_count(&self, d: usize) -> (r: usize)
        requires
            self.wf(),
            1 <= d,
        ensures
            r == index_block_count(d as nat, self.w()),
            r <= d,
    {
        let w = (self.block_size / 4) as usize;
        let mut ic: usize = 1;
        let mut rem: usize = d;
        while rem > w
            invariant
                self.wf(),
                w == self.w(),
                1 <= rem,
                1 <= ic,
                ic + rem <= d + 1,
                index_block_count(d as nat, self.w()) == (ic - 1) + index_block_count(
                    rem as nat,
                    self.w(),
                ),
            decreases rem,
        {
            ic = ic + 1;
            rem = rem - (w - 1);
        }
        ic
    }

    /// Read one word of one block.
    fn word_in(&self, b: u32, k: usize) -> (r: u32)
        requires
            self.wf(),
            b < self.num_blocks(),
            4 * k + 4 <= self.block_size_spec(),
        ensures
            r == self.word_at(b, k as int),
    {
        let buf = &self.blocks[b as usize];
        proof {
            assert(self.mem()[b as int] == buf@);
        }
        buf.read_word(k)
    }

    /// Collect the data blocks of the chain rooted at index block `idx`
    /// carrying `d` data blocks, bounds-checking every offset read.
    fn collect_chain(&self, idx: u32, d: usize) -> (r: Option<Vec<u32>>)
        requires
            self.wf(),
            1 <= d,
        ensures
            match r {
                Some(v) => {
                    &&& self.chain_ok_rec(idx, d as nat)
                    &&& v@ == self.data_blocks_rec(idx, d as nat)
                    &&& forall|k: int| 0 <= k < v@.len() ==> (#[trigger] v@[k]) < self.num_blocks()
                },
                None => !self.chain_ok_rec(idx, d as nat),
            },
        decreases d,
    {
        let nb = self.blocks.len();
        if !((idx as usize) < nb) {
            return None;
        }
        let w = (self.block_size / 4) as usize;
        if d <= w {
            let mut out: Vec<u32> = Vec::new();
            let mut k: usize = 0;
            while k < d
                invariant
                    self.wf(),
                    w == self.w(),
                    nb == self.num_blocks(),
                    idx < nb,
                    k <= d,
                    d <= w,
                    out@.len() == k,
                    forall|j: int| 0 <= j < k ==> (#[trigger] out@[j]) == self.word_at(idx, j),
                    forall|j: int| 0 <= j < k ==> (#[trigger] out@[j]) < self.num_blocks(),
                decreases d - k,
            {
                let v = self.word_in(idx, k);
                if !((v as usize) < nb) {
                    return None;
                }
                out.push(v);
                k = k + 1;
            }
            proof {
                assert(out@ =~= Seq::new(d as nat, |j: int| self.word_at(idx, j)));
                assert forall|j: int| 0 <= j < d implies (#[trigger] self.word_at(idx, j))
                    < self.num_blocks() by {
                    assert(out@[j] == self.word_at(idx, j) && out@[j] < self.num_blocks());
                }
            }
            Some(out)
        } else {
            let mut out: Vec<u32> = Vec::new();
            let mut k: usize = 0;
            while k < w - 1
                invariant
                    self.wf(),
                    w == self.w(),
                    nb == self.num_blocks(),
                    idx < nb,
                    k <= w - 1,
                    w < d,
                    out@.len() == k,
                    forall|j: int| 0 <= j < k ==> (#[trigger] out@[j]) == self.word_at(idx, j),
                    forall|j: int| 0 <= j < k ==> (#[trigger] out@[j]) < self.num_blocks(),
                decreases w - 1 - k,
            {
                let v = self.word_in(idx, k);
                if !((v as usize) < nb) {
                    return None;
                }
                out.push(v);
                k = k + 1;
            }
            proof {
                assert forall|j: int| 0 <= j < w - 1 implies (#[trigger] self.word_at(idx, j))
                    < self.num_blocks() by {
                    assert(out@[j] == self.word_at(idx, j) && out@[j] < self.num_blocks());
                }
            }
            let next = self.word_in(idx, w - 1);
            match self.collect_chain(next, d - (w - 1)) {
                Some(rest) => {
                    let mut out = out;
                    let mut i: usize = 0;
                    let ghost head = Seq::new((w - 1) as nat, |j: int| self.word_at(idx, j));
                    proof {
                        assert(out@ =~= head);
                    }
                    while i < rest.len()
                        invariant
                            i <= rest@.len(),
                            out@ == head + rest@.subrange(0, i as int),
                        decreases rest@.len() - i,
                    {
                        out.push(rest[i]);
                        proof {
                            assert(out@ =~= head + rest@.subrange(0, i + 1));
                        }
                        i = i + 1;
                    }
                    proof {
                        assert(rest@.subrange(0, rest@.len() as int) =~= rest@);
                        assert(out@ =~= self.data_blocks_rec(idx, d as nat));
                    }
                    Some(out)
                },
                None => None,
            }
        }
    }

    /// Collect the data blocks of the chain for a payload of `len` bytes
    /// rooted at `offset`, bounds-checking every offset read against the
    /// region. `None` exactly when some read would land out of range.
    pub fn blocks(&self, offset: u32, len: u32) -> (r: Option<Vec<u32>>)
        requires
            self.wf(),
        ensures
            match r {
                Some(v) => {
                    &&& self.chain_ok(offset, len as nat)
                    &&& v@ == self.chain_data_blocks(offset, len as nat)
                    &&& forall|k: int| 0 <= k < v@.len() ==> (#[trigger] v@[k]) < self.num_blocks()
                },
                None => !self.chain_ok(offset, len as nat),
            },
    {
        if len == 0 {
            Some(Vec::new())
        } else if len <= self.block_size {
            if (offset as usize) < self.blocks.len() {
                let mut v: Vec<u32> = Vec::new();
                v.push(offset);
                proof {
                    assert(v@ =~= seq![offset]);
                }
                Some(v)
            } else {
                None
            }
        } else {
            let d = self.data_count(len);
            proof {
                assert(d >= 1) by {
                    assert(len as nat / self.block_size_spec() >= 1 || len as nat
                        % self.block_size_spec() != 0) by (nonlinear_arith)
                        requires
                            len as nat > self.block_size_spec(),
                            self.block_size_spec() >= 8,
                    ;
                }
            }
            self.collect_chain(offset, d)
        }
    }

    /// Look a peer-provided `(offset, length)` pair up in the region,
    /// bounds-checking the whole chain it names before use.
    pub fn get(&self, offset: u32, length: u32) -> (r: Option<Data>)
        requires
            self.wf(),
        ensures
            match r {
                Some(d) => {
                    &&& self.chain_ok(offset, length as nat)
                    &&& d.offset_spec() == offset
                    &&& d.len_spec() == length
                },
                None => !self.chain_ok(offset, length as nat),
            },
    {
        match self.blocks(offset, length) {
            Some(_) => Some(Data { offset, len: length }),
            None => None,
        }
    }
}

/// A chain's data-block list is as long as its data-block count, and its
/// index-block list as long as [`index_block_count`] says.
pub proof fn lemma_chain_rec_lengths(b: &Buffers, idx: u32, d: nat)
    requires
        1 <= d,
    ensures
        b.data_blocks_rec(idx, d).len() == d,
        b.index_blocks_rec(idx, d).len() == index_block_count(d, b.w()),
    decreases d,
{
    if d <= b.w() || b.w() <= 1 {
    } else {
        lemma_chain_rec_lengths(b, b.word_at(idx, b.w() - 1), (d - (b.w() - 1)) as nat);
    }
}

/// A chain is determined by the contents of its index blocks: two region
/// states that agree on them name the same blocks.
pub proof fn lemma_chain_frame(b1: &Buffers, b2: &Buffers, idx: u32, d: nat)
    requires
        1 <= d,
        b1.w() == b2.w(),
        b1.num_blocks() == b2.num_blocks(),
        forall|blk: u32|
            b1.index_blocks_rec(idx, d).contains(blk)
                ==> b2.mem()[blk as int] == b1.mem()[blk as int],
    ensures
        b2.data_blocks_rec(idx, d) == b1.data_blocks_rec(idx, d),
        b2.index_blocks_rec(idx, d) == b1.index_blocks_rec(idx, d),
        b2.chain_ok_rec(idx, d) == b1.chain_ok_rec(idx, d),
        b2.drop_order_rec(idx, d) == b1.drop_order_rec(idx, d),
    decreases d,
{
    let w = b1.w();
    assert(b1.index_blocks_rec(idx, d)[0] == idx);
    assert(b1.index_blocks_rec(idx, d).contains(idx));
    assert(b2.mem()[idx as int] == b1.mem()[idx as int]);
    assert forall|k: int| true implies #[trigger] b2.word_at(idx, k) == b1.word_at(idx, k) by {
        assert(b2.mem()[idx as int] == b1.mem()[idx as int]);
    }
    if d <= w || w <= 1 {
        assert(b2.data_blocks_rec(idx, d) =~= b1.data_blocks_rec(idx, d));
        assert(b2.index_blocks_rec(idx, d) =~= b1.index_blocks_rec(idx, d));
        assert(b2.drop_order_rec(idx, d) =~= b1.drop_order_rec(idx, d));
        if b1.chain_ok_rec(idx, d) {
            assert forall|k: int| 0 <= k < d implies (#[trigger] b2.word_at(idx, k))
                < b2.num_blocks() by {
                assert(b1.word_at(idx, k) < b1.num_blocks());
            }
            assert(b2.chain_ok_rec(idx, d));
        }
        if b2.chain_ok_rec(idx, d) {
            assert forall|k: int| 0 <= k < d implies (#[trigger] b1.word_at(idx, k))
                < b1.num_blocks() by {
                assert(b2.word_at(idx, k) < b2.num_blocks());
            }
            assert(b1.chain_ok_rec(idx, d));
        }
    } else {
        let next = b1.word_at(idx, w - 1);
        let d2 = (d - (w - 1)) as nat;
        assert forall|blk: u32| b1.index_blocks_rec(next, d2).contains(blk)
            implies b2.mem()[blk as int] == b1.mem()[blk as int] by {
            let k = choose|k: int|
                0 <= k < b1.index_blocks_rec(next, d2).len() && b1.index_blocks_rec(next, d2)[k]
                    == blk;
            assert(b1.index_blocks_rec(idx, d)[k + 1] == blk);
            assert(b1.index_blocks_rec(idx, d).contains(blk));
        }
        lemma_chain_frame(b1, b2, next, d2);
        assert(b2.data_blocks_rec(idx, d) =~= b1.data_blocks_rec(idx, d));
        assert(b2.index_blocks_rec(idx, d) =~= b1.index_blocks_rec(idx, d));
        assert(b2.drop_order_rec(idx, d) =~= b1.drop_order_rec(idx, d));
        if b1.chain_ok_rec(idx, d) {
            assert forall|k: int| 0 <= k < w - 1 implies (#[trigger] b2.word_at(idx, k))
                < b2.num_blocks() by {
                assert(b1.word_at(idx, k) < b1.num_blocks());
            }
            assert(b2.chain_ok_rec(idx, d));
        }
        if b2.chain_ok_rec(idx, d) {
            assert forall|k: int| 0 <= k < w - 1 implies (#[trigger] b1.word_at(idx, k))
                < b1.num_blocks() by {
                assert(b2.word_at(idx, k) < b2.num_blocks());
            }
            assert(b1.chain_ok_rec(idx, d));
        }
    }
}

impl Buffers {
    /// Overwrite one word of one block; every other byte of the region keeps
    /// its value.
    fn write_word_in(&mut self, b: u32, k: usize, v: u32)
        requires
            old(self).wf(),
            b < old(self).num_blocks(),
            4 * k + 4 <= old(self).block_size_spec(),
        ensures
            final(self).wf(),
            final(self).block_size_spec() == old(self).block_size_spec(),
            final(self).num_blocks() == old(self).num_blocks(),
            final(self).free_list() == old(self).free_list(),
            final(self).word_at(b, k as int) == v,
            forall|i: int|
                0 <= i < old(self).block_size_spec() && !(4 * k <= i < 4 * k + 4)
                    ==> final(self).mem()[b as int][i] == old(self).mem()[b as int][i],
            forall|bb: int|
                0 <= bb < old(self).num_blocks() && bb != b
                    ==> final(self).mem()[bb] == old(self).mem()[bb],
    {
        proof {
            assert(old(self).mem()[b as int] == old(self).blocks@[b as int]@);
        }
        let buf = &mut self.blocks[b as usize];
        buf.write_word(k, v);
        proof {
            assert(self.mem()[b as int] == self.blocks@[b as int]@);
            assert forall|bb: int| 0 <= bb < self.num_blocks() && bb != b implies self.mem()[bb]
                == old(self).mem()[bb] by {
                assert(self.blocks@[bb] == old(self).blocks@[bb]);
            }
            assert forall|bb: int| 0 <= bb < self.num_blocks()
                implies (#[trigger] self.mem()[bb]).len() == self.block_size_spec() by {
                assert(old(self).mem()[bb].len() == old(self).block_size_spec());
                if bb != b {
                    assert(self.mem()[bb] == old(self).mem()[bb]);
                }
            }
        }
    }
}

/// A payload of `len >= 1` bytes fits in its data blocks.
pub proof fn lemma_len_fits_blocks(len: nat, bs: nat)
    requires
        1 <= bs,
    ensures
        len <= data_block_count(len, bs) * bs,
{
    vstd::arithmetic::div_mod::lemma_fundamental_div_mod(len as int, bs as int);
    vstd::arithmetic::div_mod::lemma_mod_division_less_than_divisor(len as int, bs as int);
    let q = len / bs;
    if len % bs == 0 {
        assert(data_block_count(len, bs) * bs == q * bs);
        assert(q * bs == bs * q) by (nonlinear_arith);
    } else {
        assert((q + 1) * bs == bs * q + bs) by (nonlinear_arith);
    }
}

/// The payload byte at position `p` of a chain whose data blocks are
/// `chain`, in a region `mem` of blocks of `bs` bytes.
pub open spec fn stride_byte(mem: Seq<Seq<u8>>, chain: Seq<u32>, bs: int, p: int) -> u8 {
    mem[chain[p / bs] as int][p % bs]
}

impl Buffers {
    /// The `j`-th payload byte of the chain rooted at `offset` carrying
    /// `len` bytes.
    pub open spec fn payload_byte(&self, offset: u32, len: nat, j: int) -> u8 {
        stride_byte(
            self.mem(),
            self.chain_data_blocks(offset, len),
            self.block_size_spec() as int,
            j,
        )
    }

    /// Read one byte of one block.
    fn byte_in(&self, b: u32, i: usize) -> (r: u8)
        requires
            self.wf(),
            b < self.num_blocks(),
            i < self.block_size_spec(),
        ensures
            r == self.mem()[b as int][i as int],
    {
        let buf = &self.blocks[b as usize];
        proof {
            assert(self.mem()[b as int] == buf@);
        }
        buf.byte(i)
    }

    /// Overwrite one byte of one block; every other byte of the region keeps
    /// its value.
    fn set_byte_in(&mut self, b: u32, i: usize, v: u8)
        requires
            old(self).wf(),
            b < old(self).num_blocks(),
            i < old(self).block_size_spec(),
        ensures
            final(self).wf(),
            final(self).block_size_spec() == old(self).block_size_spec(),
            final(self).num_blocks() == old(self).num_blocks(),
            final(self).free_list() == old(self).free_list(),
            final(self).mem()[b as int] == old(self).mem()[b as int].update(i as int, v),
            forall|bb: int|
                0 <= bb < old(self).num_blocks() && bb != b
                    ==> final(self).mem()[bb] == old(self).mem()[bb],
    {
        proof {
            assert(old(self).mem()[b as int] == old(self).blocks@[b as int]@);
        }
        let buf = &mut self.blocks[b as usize];
        buf.set_byte(i, v);
        proof {
            assert(self.mem()[b as int] == self.blocks@[b as int]@);
            assert forall|bb: int| 0 <= bb < self.num_blocks() && bb != b implies self.mem()[bb]
                == old(self).mem()[bb] by {
                assert(self.blocks@[bb] == old(self).blocks@[bb]);
            }
            assert forall|bb: int| 0 <= bb < self.num_blocks()
                implies (#[trigger] self.mem()[bb]).len() == self.block_size_spec() by {
                assert(old(self).mem()[bb].len() == old(self).block_size_spec());
                if bb != b {
                    assert(self.mem()[bb] == old(self).mem()[bb]);
                }
            }
        }
    }
}

impl Buffers {
    /// Write the index chain that makes `index[ipos]` the root of a chain
    /// naming `data[dpos..]` as its data blocks, linking onward through
    /// `index[ipos + 1..]`.
    fn build_chain(&mut self, data: &Vec<u32>, dpos: usize, index: &Vec<u32>, ipos: usize)
        requires
            old(self).wf(),
            dpos < data@.len(),
            ipos < index@.len(),
            index@.len() - ipos == index_block_count((data@.len() - dpos) as nat, old(self).w()),
            forall|k: int|
                ipos <= k < index@.len() ==> (#[trigger] index@[k]) < old(self).num_blocks(),
            forall|k: int|
                dpos <= k < data@.len() ==> (#[trigger] data@[k]) < old(self).num_blocks(),
            index@.subrange(ipos as int, index@.len() as int).no_duplicates(),
        ensures
            final(self).wf(),
            final(self).block_size_spec() == old(self).block_size_spec(),
            final(self).num_blocks() == old(self).num_blocks(),
            final(self).free_list() == old(self).free_list(),
            final(self).data_blocks_rec(index@[ipos as int], (data@.len() - dpos) as nat)
                == data@.subrange(dpos as int, data@.len() as int),
            final(self).index_blocks_rec(index@[ipos as int], (data@.len() - dpos) as nat)
                == index@.subrange(ipos as int, index@.len() as int),
            final(self).chain_ok_rec(index@[ipos as int], (data@.len() - dpos) as nat),
            forall|bb: int|
                0 <= bb < old(self).num_blocks() && !index@.subrange(
                    ipos as int,
                    index@.len() as int,
                ).contains(bb as u32) ==> final(self).mem()[bb] == old(self).mem()[bb],
        decreases data@.len() - dpos,
    {
        let w = (self.block_size / 4) as usize;
        let dlen = data.len();
        let ilen = index.len();
        let d = dlen - dpos;
        let idx = index[ipos];
        proof {
            assert(4 * self.w() == self.block_size_spec());
        }
        if d <= w {
            let mut k: usize = 0;
            while k < d
                invariant
                    self.wf(),
                    self.block_size_spec() == old(self).block_size_spec(),
                    self.num_blocks() == old(self).num_blocks(),
                    self.free_list() == old(self).free_list(),
                    w == self.w(),
                    4 * w <= self.block_size_spec(),
                    idx == index@[ipos as int],
                    idx < self.num_blocks(),
                    dpos + d == dlen,
                    dlen == data@.len(),
                    k <= d <= w,
                    forall|k2: int|
                        dpos <= k2 < data@.len() ==> (#[trigger] data@[k2]) < self.num_blocks(),
                    forall|j: int|
                        0 <= j < k ==> #[trigger] self.word_at(idx, j) == data@[dpos + j],
                    forall|bb: int|
                        0 <= bb < self.num_blocks() && bb != idx ==> self.mem()[bb] == old(
                            self,
                        ).mem()[bb],
                decreases d - k,
            {
                let ghost pre = *self;
                self.write_word_in(idx, k, data[dpos + k]);
                proof {
                    assert forall|j: int| 0 <= j < k + 1 implies #[trigger] self.word_at(idx, j)
                        == data@[dpos + j] by {
                        if j < k {
                            assert(self.mem()[idx as int][4 * j] == pre.mem()[idx as int][4 * j]);
                            assert(self.mem()[idx as int][4 * j + 1] == pre.mem()[idx as int][4 * j
                                + 1]);
                            assert(self.mem()[idx as int][4 * j + 2] == pre.mem()[idx as int][4 * j
                                + 2]);
                            assert(self.mem()[idx as int][4 * j + 3] == pre.mem()[idx as int][4 * j
                                + 3]);
                            assert(pre.word_at(idx, j) == data@[dpos + j]);
                        }
                    }
                }
                k = k + 1;
            }
            proof {
                assert(self.data_blocks_rec(idx, d as nat) =~= data@.subrange(
                    dpos as int,
                    data@.len() as int,
                ));
                assert(self.index_blocks_rec(idx, d as nat) =~= index@.subrange(
                    ipos as int,
                    index@.len() as int,
                ));
                assert forall|j: int| 0 <= j < d implies (#[trigger] self.word_at(idx, j))
                    < self.num_blocks() by {
                    assert(self.word_at(idx, j) == data@[dpos + j]);
                }
                assert(self.chain_ok_rec(idx, d as nat));
                let whole = index@.subrange(ipos as int, index@.len() as int);
                assert forall|bb: int|
                    0 <= bb < old(self).num_blocks() && !whole.contains(
                        bb as u32,
                    ) implies self.mem()[bb] == old(self).mem()[bb] by {
                    if bb == idx {
                        assert(whole[0] == idx);
                        assert(whole.contains(bb as u32));
                    }
                }
            }
        } else {
            let mut k: usize = 0;
            while k < w - 1
                invariant
                    self.wf(),
                    self.block_size_spec() == old(self).block_size_spec(),
                    self.num_blocks() == old(self).num_blocks(),
                    self.free_list() == old(self).free_list(),
                    w == self.w(),
                    2 <= w,
                    4 * w <= self.block_size_spec(),
                    idx == index@[ipos as int],
                    idx < self.num_blocks(),
                    dpos + d == dlen,
                    dlen == data@.len(),
                    w < d,
                    k <= w - 1,
                    forall|k2: int|
                        dpos <= k2 < data@.len() ==> (#[trigger] data@[k2]) < self.num_blocks(),
                    forall|j: int|
                        0 <= j < k ==> #[trigger] self.word_at(idx, j) == data@[dpos + j],
                    forall|bb: int|
                        0 <= bb < self.num_blocks() && bb != idx ==> self.mem()[bb] == old(
                            self,
                        ).mem()[bb],
                decreases w - 1 - k,
            {
                let ghost pre = *self;
                self.write_word_in(idx, k, data[dpos + k]);
                proof {
                    assert forall|j: int| 0 <= j < k + 1 implies #[trigger] self.word_at(idx, j)
                        == data@[dpos + j] by {
                        if j < k {
                            assert(self.mem()[idx as int][4 * j] == pre.mem()[idx as int][4 * j]);
                            assert(self.mem()[idx as int][4 * j + 1] == pre.mem()[idx as int][4 * j
                                + 1]);
                            assert(self.mem()[idx as int][4 * j + 2] == pre.mem()[idx as int][4 * j
                                + 2]);
                            assert(self.mem()[idx as int][4 * j + 3] == pre.mem()[idx as int][4 * j
                                + 3]);
                            assert(pre.word_at(idx, j) == data@[dpos + j]);
                        }
                    }
                }
                k = k + 1;
            }
            proof {
                assert(index@.len() - ipos >= 2) by {
                    assert(index_block_count(d as nat, self.w()) == 1 + index_block_count(
                        (d - (w - 1)) as nat,
                        self.w(),
                    ));
                    lemma_index_count_pos((d - (w - 1)) as nat, self.w());
                }
                assert(ipos + 1 < ilen);
            }
            let ghost pre = *self;
            self.write_word_in(idx, w - 1, index[ipos + 1]);
            proof {
                assert forall|j: int| 0 <= j < w - 1 implies #[trigger] self.word_at(idx, j)
                    == data@[dpos + j] by {
                    assert(self.mem()[idx as int][4 * j] == pre.mem()[idx as int][4 * j]);
                    assert(self.mem()[idx as int][4 * j + 1] == pre.mem()[idx as int][4 * j + 1]);
                    assert(self.mem()[idx as int][4 * j + 2] == pre.mem()[idx as int][4 * j + 2]);
                    assert(self.mem()[idx as int][4 * j + 3] == pre.mem()[idx as int][4 * j + 3]);
                    assert(pre.word_at(idx, j) == data@[dpos + j]);
                }
                // the tail of the index list stays free of duplicates
                let tail = index@.subrange(ipos + 1, index@.len() as int);
                let whole = index@.subrange(ipos as int, index@.len() as int);
                assert forall|i: int, j: int| 0 <= i < j < tail.len() implies tail[i] != tail[j] by {
                    assert(whole[i + 1] == tail[i] && whole[j + 1] == tail[j]);
                }
            }
            let ghost mid = *self;
            self.build_chain(data, dpos + (w - 1), index, ipos + 1);
            proof {
                let d2 = (d - (w - 1)) as nat;
                let next = index@[ipos + 1];
                let tail = index@.subrange(ipos + 1, index@.len() as int);
                let whole = index@.subrange(ipos as int, index@.len() as int);
                // the root block was not rewritten by the recursive call
                assert(!tail.contains(idx)) by {
                    if tail.contains(idx) {
                        let j = choose|j: int| 0 <= j < tail.len() && tail[j] == idx;
                        assert(whole[j + 1] == idx && whole[0] == idx);
                    }
                }
                assert(self.mem()[idx as int] == mid.mem()[idx as int]);
                assert forall|j: int| 0 <= j < w implies #[trigger] self.word_at(idx, j)
                    == mid.word_at(idx, j) by {
                    assert(self.mem()[idx as int] == mid.mem()[idx as int]);
                }
                assert(self.word_at(idx, w - 1) == next);
                assert(self.data_blocks_rec(idx, d as nat) =~= data@.subrange(
                    dpos as int,
                    data@.len() as int,
                ));
                assert(self.index_blocks_rec(idx, d as nat) =~= whole);
                assert forall|j: int| 0 <= j < w - 1 implies (#[trigger] self.word_at(idx, j))
                    < self.num_blocks() by {
                    assert(self.word_at(idx, j) == data@[dpos + j]);
                }
                assert(self.chain_ok_rec(idx, d as nat));
                assert forall|bb: int|
                    0 <= bb < old(self).num_blocks() && !whole.contains(
                        bb as u32,
                    ) implies self.mem()[bb] == old(self).mem()[bb] by {
                    assert(!tail.contains(bb as u32)) by {
                        if tail.contains(bb as u32) {
                            let j = choose|j: int| 0 <= j < tail.len() && tail[j] == bb as u32;
                            assert(whole[j + 1] == bb as u32);
                        }
                    }
                    assert(self.mem()[bb] == mid.mem()[bb]);
                    if bb == idx {
                        assert(whole[0] == idx);
                        assert(whole.contains(bb as u32));
                    }
                    assert(mid.mem()[bb] == old(self).mem()[bb]);
                }
            }
        }
    }
}

impl Buffers {
    /// Carve a chain for a payload of `size` bytes out of the free stack.
    /// The allocation is atomic: either every needed block is popped and the
    /// index chain is written, or the region is left untouched. Together the
    /// new free stack and the chain's blocks are exactly the old free stack:
    /// every block is on one side or the other, never both.
    pub fn allocate(&mut self, size: usize) -> (r: Option<Data>)
        requires
            old(self).wf(),
            size <= 0xffff_ffff,
        ensures
            final(self).wf(),
            final(self).block_size_spec() == old(self).block_size_spec(),
            final(self).num_blocks() == old(self).num_blocks(),
            match r {
                Some(d) => {
                    &&& d.len_spec() == size
                    &&& blocks_needed(size as nat, old(self).block_size_spec()) <= old(
                        self,
                    ).free_list().len()
                    &&& final(self).free_list() == old(self).free_list().take(
                        old(self).free_list().len() - blocks_needed(
                            size as nat,
                            old(self).block_size_spec(),
                        ),
                    )
                    &&& size > 0 ==> d.offset_spec() == old(self).free_list().last()
                    &&& final(self).chain_ok(d.offset_spec(), size as nat)
                    &&& final(self).chain_data_blocks(d.offset_spec(), size as nat).len()
                        == data_block_count(size as nat, old(self).block_size_spec())
                    &&& final(self).chain_index_blocks(d.offset_spec(), size as nat).len() == (
                    if size <= old(self).block_size_spec() {
                        0nat
                    } else {
                        index_block_count(
                            data_block_count(size as nat, old(self).block_size_spec()),
                            old(self).w(),
                        )
                    })
                    &&& final(self).chain_blocks(d.offset_spec(), size as nat).no_duplicates()
                    &&& (final(self).free_list() + final(self).chain_blocks(
                        d.offset_spec(),
                        size as nat,
                    )).to_multiset() == old(self).free_list().to_multiset()
                    &&& forall|bb: int|
                        0 <= bb < old(self).num_blocks() && !final(self).chain_index_blocks(
                            d.offset_spec(),
                            size as nat,
                        ).contains(bb as u32) ==> final(self).mem()[bb] == old(self).mem()[bb]
                },
                None => {
                    &&& final(self).free_list() == old(self).free_list()
                    &&& final(self).mem() == old(self).mem()
                    &&& blocks_needed(size as nat, old(self).block_size_spec()) > old(
                        self,
                    ).free_list().len()
                },
            },
    {
        if size == 0 {
            proof {
                let chain = self.chain_blocks(0, 0);
                assert(chain =~= Seq::<u32>::empty());
                assert(self.free_list() + chain =~= self.free_list());
                assert(self.free_list().take(self.free_list().len() as int) =~= self.free_list());
                assert(chain.no_duplicates());
                vstd::arithmetic::div_mod::lemma_div_of0(self.block_size_spec() as int);
                vstd::arithmetic::div_mod::lemma_small_mod(0, self.block_size_spec());
            }
            return Some(Data { offset: 0, len: 0 });
        }
        let bs = self.block_size;
        if size <= bs as usize {
            match self.pop_free() {
                None => None,
                Some(b) => {
                    proof {
                        let f0 = old(self).free_list();
                        let f1 = self.free_list();
                        let bsn = self.block_size_spec();
                        let chain = self.chain_blocks(b, size as nat);
                        assert(self.chain_index_blocks(b, size as nat) =~= Seq::<u32>::empty());
                        assert(chain =~= seq![b]);
                        assert(chain.no_duplicates());
                        assert(f1 + chain =~= f0);
                        assert(f1 == f0.take(f0.len() - 1));
                        assert(data_block_count(size as nat, bsn) == 1) by {
                            if (size as nat) < bsn {
                                vstd::arithmetic::div_mod::lemma_basic_div(size as int, bsn as int);
                                vstd::arithmetic::div_mod::lemma_small_mod(size as nat, bsn);
                            } else {
                                vstd::arithmetic::div_mod::lemma_div_by_self(bsn as int);
                                vstd::arithmetic::div_mod::lemma_mod_self_0(bsn as int);
                            }
                        }
                    }
                    Some(Data { offset: b, len: size as u32 })
                },
            }
        } else {
            let dcount = self.data_count(size as u32);
            proof {
                assert(dcount >= 1) by {
                    assert(size as nat / self.block_size_spec() >= 1 || size as nat
                        % self.block_size_spec() != 0) by (nonlinear_arith)
                        requires
                            size as nat > self.block_size_spec(),
                            self.block_size_spec() >= 8,
                    ;
                }
                vstd::arithmetic::div_mod::lemma_div_is_ordered_by_denominator(
                    size as int,
                    8,
                    bs as int,
                );
                assert(dcount <= size as int / 8 + 1);
            }
            let icount = self.index_count(dcount);
            let k = dcount + icount;
            if self.free.len() < k {
                return None;
            }
            let ghost f0 = self.free_list();
            let mut popped: Vec<u32> = Vec::new();
            while popped.len() < k
                invariant
                    self.wf(),
                    self.mem() == old(self).mem(),
                    self.block_size_spec() == old(self).block_size_spec(),
                    self.num_blocks() == old(self).num_blocks(),
                    popped@.len() <= k <= f0.len(),
                    f0 == old(self).free_list(),
                    self.free_list() == f0.take(f0.len() - popped@.len()),
                    forall|j: int|
                        0 <= j < popped@.len() ==> (#[trigger] popped@[j]) == f0[f0.len() - 1 - j],
                decreases k - popped@.len(),
            {
                let b = match self.pop_free() {
                    Some(b) => b,
                    None => {
                        proof {
                            assert(self.free_list().len() == f0.len() - popped@.len());
                            assert(false);
                        }
                        return None;
                    },
                };
                popped.push(b);
            }
            proof {
                // popped blocks are pairwise distinct and in range
                assert forall|i: int, j: int| 0 <= i < j < popped@.len() implies popped@[i]
                    != popped@[j] by {
                    assert(f0[f0.len() - 1 - i] != f0[f0.len() - 1 - j]);
                }
                assert forall|j: int| 0 <= j < popped@.len() implies (#[trigger] popped@[j])
                    < self.num_blocks() by {
                    assert(f0[f0.len() - 1 - j] < old(self).num_blocks());
                }
            }
            let mut index: Vec<u32> = Vec::new();
            let mut i: usize = 0;
            while i < icount
                invariant
                    i <= icount <= popped@.len(),
                    index@ == popped@.subrange(0, i as int),
                decreases icount - i,
            {
                index.push(popped[i]);
                proof {
                    assert(index@ =~= popped@.subrange(0, i + 1));
                }
                i = i + 1;
            }
            let mut data: Vec<u32> = Vec::new();
            let mut i: usize = icount;
            while i < k
                invariant
                    icount <= i <= k == popped@.len(),
                    data@ == popped@.subrange(icount as int, i as int),
                decreases k - i,
            {
                data.push(popped[i]);
                proof {
                    assert(data@ =~= popped@.subrange(icount as int, i + 1));
                }
                i = i + 1;
            }
            proof {
                assert(index@.subrange(0, index@.len() as int) =~= index@);
                assert forall|i2: int, j2: int| 0 <= i2 < j2 < index@.len() implies index@[i2]
                    != index@[j2] by {
                    assert(popped@[i2] != popped@[j2]);
                }
                assert(data@.len() == dcount && index@.len() == icount);
            }
            let ghost pre_build = *self;
            self.build_chain(&data, 0, &index, 0);
            let off = index[0];
            proof {
                let bsn = old(self).block_size_spec();
                let chain_data = self.chain_data_blocks(off, size as nat);
                let chain_index = self.chain_index_blocks(off, size as nat);
                let chain = self.chain_blocks(off, size as nat);
                assert(data@.subrange(0, data@.len() as int) =~= data@);
                assert(chain_data == data@ && chain_index == index@);
                assert(chain =~= popped@.subrange(icount as int, k as int) + popped@.subrange(
                    0,
                    icount as int,
                ));
                // the chain has no duplicates
                assert forall|i2: int, j2: int| 0 <= i2 < j2 < chain.len() implies chain[i2]
                    != chain[j2] by {
                    let m = (k - icount) as int;
                    let pi = if i2 < m { icount + i2 } else { i2 - m };
                    let pj = if j2 < m { icount + j2 } else { j2 - m };
                    assert(chain[i2] == popped@[pi] && chain[j2] == popped@[pj]);
                    assert(pi != pj);
                    if pi < pj {
                        assert(popped@[pi] != popped@[pj]);
                    } else {
                        assert(popped@[pj] != popped@[pi]);
                    }
                }
                // free stack and chain together are the old free stack
                let suffix = f0.subrange(f0.len() - k, f0.len() as int);
                assert(popped@ =~= suffix.reverse());
                suffix.lemma_reverse_to_multiset();
                vstd::seq_lib::lemma_multiset_commutative(
                    popped@.subrange(icount as int, k as int),
                    popped@.subrange(0, icount as int),
                );
                assert(popped@.subrange(0, icount as int) + popped@.subrange(icount as int, k as int)
                    =~= popped@);
                vstd::seq_lib::lemma_multiset_commutative(
                    popped@.subrange(0, icount as int),
                    popped@.subrange(icount as int, k as int),
                );
                assert(chain.to_multiset() =~= popped@.to_multiset());
                assert(self.free_list() + suffix =~= f0);
                vstd::seq_lib::lemma_multiset_commutative(self.free_list(), suffix);
                vstd::seq_lib::lemma_multiset_commutative(self.free_list(), chain);
                assert((self.free_list() + chain).to_multiset() =~= f0.to_multiset());
                // the root is the old head of the free stack
                assert(off == popped@[0] && popped@[0] == f0[f0.len() - 1]);
                // lengths
                lemma_chain_rec_lengths(self, off, dcount as nat);
                // untouched blocks
                assert forall|bb: int|
                    0 <= bb < old(self).num_blocks() && !chain_index.contains(
                        bb as u32,
                    ) implies self.mem()[bb] == old(self).mem()[bb] by {
                    assert(self.mem()[bb] == pre_build.mem()[bb]);
                }
            }
            Some(Data { offset: off, len: size as u32 })
        }
    }
}

/// An intact chain's index blocks are all within the region.
pub proof fn lemma_index_ok(b: &Buffers, idx: u32, d: nat)
    requires
        1 <= d,
        b.chain_ok_rec(idx, d),
    ensures
        forall|k: int|
            0 <= k < b.index_blocks_rec(idx, d).len() ==> (#[trigger] b.index_blocks_rec(idx, d)[k])
                < b.num_blocks(),
    decreases d,
{
    let w = b.w();
    if d <= w || w <= 1 {
    } else {
        let next = b.word_at(idx, w - 1);
        let d2 = (d - (w - 1)) as nat;
        lemma_index_ok(b, next, d2);
        assert forall|k: int| 0 <= k < b.index_blocks_rec(idx, d).len() implies (
        #[trigger] b.index_blocks_rec(idx, d)[k]) < b.num_blocks() by {
            if k > 0 {
                assert(b.index_blocks_rec(idx, d)[k] == b.index_blocks_rec(next, d2)[k - 1]);
            }
        }
    }
}

/// A sequence with the same elements as a duplicate-free one is itself
/// duplicate-free.
pub proof fn lemma_no_dup_perm(a: Seq<u32>, b: Seq<u32>)
    requires
        a.to_multiset() == b.to_multiset(),
        a.no_duplicates(),
    ensures
        b.no_duplicates(),
{
    a.lemma_multiset_has_no_duplicates();
    b.lemma_multiset_has_no_duplicates_conv();
}

/// The drop order of a chain returns exactly the chain's blocks: it is a
/// rearrangement of its data and index blocks.
pub proof fn lemma_drop_order_multiset(b: &Buffers, idx: u32, d: nat)
    requires
        1 <= d,
    ensures
        b.drop_order_rec(idx, d).to_multiset() == (b.data_blocks_rec(idx, d) + b.index_blocks_rec(
            idx,
            d,
        )).to_multiset(),
    decreases d,
{
    broadcast use vstd::multiset::group_multiset_axioms;

    let w = b.w();
    if d <= w || w <= 1 {
        let s = Seq::new(d, |k: int| b.word_at(idx, k));
        assert(b.drop_order_rec(idx, d) =~= s + seq![idx]);
        assert(b.data_blocks_rec(idx, d) + b.index_blocks_rec(idx, d) =~= s + seq![idx]);
    } else {
        let h = Seq::new((w - 1) as nat, |k: int| b.word_at(idx, k));
        let next = b.word_at(idx, w - 1);
        let d2 = (d - (w - 1)) as nat;
        lemma_drop_order_multiset(b, next, d2);
        let rd = b.data_blocks_rec(next, d2);
        let ri = b.index_blocks_rec(next, d2);
        let dro = b.drop_order_rec(next, d2);
        assert(b.drop_order_rec(idx, d) =~= (h + seq![idx]) + dro);
        vstd::seq_lib::lemma_multiset_commutative(h + seq![idx], dro);
        vstd::seq_lib::lemma_multiset_commutative(h, seq![idx]);
        vstd::seq_lib::lemma_multiset_commutative(rd, ri);
        assert(b.data_blocks_rec(idx, d) =~= h + rd);
        assert(b.index_blocks_rec(idx, d) =~= seq![idx] + ri);
        vstd::seq_lib::lemma_multiset_commutative(h + rd, seq![idx] + ri);
        vstd::seq_lib::lemma_multiset_commutative(h, rd);
        vstd::seq_lib::lemma_multiset_commutative(seq![idx], ri);
        assert(b.drop_order_rec(idx, d).to_multiset() =~= (b.data_blocks_rec(idx, d)
            + b.index_blocks_rec(idx, d)).to_multiset());
    }
}

impl Buffers {
    /// Return every block of the chain rooted at `idx` with `d` data blocks
    /// to the free stack, in drop order.
    fn drop_chain(&mut self, idx: u32, d: usize)
        requires
            old(self).wf(),
            1 <= d,
            old(self).chain_ok_rec(idx, d as nat),
            (old(self).free_list() + old(self).data_blocks_rec(idx, d as nat) + old(
                self,
            ).index_blocks_rec(idx, d as nat)).no_duplicates(),
        ensures
            final(self).wf(),
            final(self).mem() == old(self).mem(),
            final(self).block_size_spec() == old(self).block_size_spec(),
            final(self).num_blocks() == old(self).num_blocks(),
            final(self).free_list() == old(self).free_list() + old(self).drop_order_rec(
                idx,
                d as nat,
            ),
        decreases d,
    {
        broadcast use vstd::multiset::group_multiset_axioms;

        let w = (self.block_size / 4) as usize;
        let ghost f0 = old(self).free_list();
        let ghost dat = old(self).data_blocks_rec(idx, d as nat);
        let ghost ind = old(self).index_blocks_rec(idx, d as nat);
        proof {
            lemma_chain_rec_lengths(old(self), idx, d as nat);
            assert(4 * self.w() == self.block_size_spec());
        }
        let m = if d <= w {
            d
        } else {
            w - 1
        };
        let mut k: usize = 0;
        while k < m
            invariant
                self.wf(),
                self.mem() == old(self).mem(),
                self.block_size_spec() == old(self).block_size_spec(),
                self.num_blocks() == old(self).num_blocks(),
                w == self.w(),
                4 * w <= self.block_size_spec(),
                1 <= d,
                m == (if d <= w {
                    d as int
                } else {
                    w - 1
                }),
                k <= m,
                f0 == old(self).free_list(),
                dat == old(self).data_blocks_rec(idx, d as nat),
                ind == old(self).index_blocks_rec(idx, d as nat),
                dat.len() == d,
                idx < self.num_blocks(),
                old(self).chain_ok_rec(idx, d as nat),
                (f0 + dat + ind).no_duplicates(),
                self.free_list() == f0 + dat.take(k as int),
            decreases m - k,
        {
            let v = self.word_in(idx, k);
            proof {
                assert(self.word_at(idx, k as int) == old(self).word_at(idx, k as int));
                assert(dat[k as int] == old(self).word_at(idx, k as int));
                assert(v == dat[k as int]);
                let c = f0 + dat + ind;
                assert(c[f0.len() + k] == dat[k as int]);
                assert(v < self.num_blocks()) by {
                    if d <= self.w() || self.w() <= 1 {
                        assert(old(self).word_at(idx, k as int) < old(self).num_blocks());
                    } else {
                        assert(old(self).word_at(idx, k as int) < old(self).num_blocks());
                    }
                }
                assert(!self.free_list().contains(v)) by {
                    if self.free_list().contains(v) {
                        let j = choose|j: int|
                            0 <= j < self.free_list().len() && self.free_list()[j] == v;
                        if j < f0.len() {
                            assert(c[j] == v);
                            assert(c[j] == c[f0.len() + k] && j != f0.len() + k);
                        } else {
                            assert(self.free_list()[j] == dat.take(m as int)[j - f0.len()]);
                            assert(c[j] == v);
                            assert(c[j] == c[f0.len() + k] && j != f0.len() + k);
                        }
                    }
                }
            }
            self.dealloc(v);
            proof {
                assert(self.free_list() =~= f0 + dat.take(k + 1));
            }
            k = k + 1;
        }
        // the index block itself goes back after its data pointers
        proof {
            let c = f0 + dat + ind;
            assert(ind[0] == idx);
            assert(c[f0.len() + dat.len() as int] == idx);
            assert(!self.free_list().contains(idx)) by {
                if self.free_list().contains(idx) {
                    let j = choose|j: int|
                        0 <= j < self.free_list().len() && self.free_list()[j] == idx;
                    if j < f0.len() {
                        assert(c[j] == idx);
                        assert(c[j] == c[f0.len() + dat.len() as int] && j != f0.len() + dat.len() as int);
                    } else {
                        assert(self.free_list()[j] == dat[j - f0.len()]);
                        assert(c[j] == idx);
                        assert(c[j] == c[f0.len() + dat.len() as int] && j != f0.len() + dat.len() as int);
                    }
                }
            }
        }
        self.dealloc(idx);
        if d <= w {
            proof {
                assert(dat.take(d as int) =~= dat);
                let s = Seq::new(d as nat, |k2: int| old(self).word_at(idx, k2));
                assert(s =~= dat);
                assert(old(self).drop_order_rec(idx, d as nat) == s.push(idx));
                assert(self.free_list() =~= f0 + old(self).drop_order_rec(idx, d as nat));
            }
        } else {
            let ghost mid = *self;
            let ghost h = Seq::new((w - 1) as nat, |k2: int| old(self).word_at(idx, k2));
            let ghost d2 = (d - (w - 1)) as nat;
            let next = self.word_in(idx, w - 1);
            proof {
                assert(self.word_at(idx, (w - 1) as int) == old(self).word_at(idx, (w - 1) as int));
                assert(next == old(self).word_at(idx, (w - 1) as int));
                // the chain facts carry over to the current state: memory is
                // untouched by frees
                lemma_chain_frame(old(self), self, next, d2);
                assert(self.chain_ok_rec(next, d2));
                // the remaining chain together with the grown free stack
                // still has no duplicate block
                let rd = old(self).data_blocks_rec(next, d2);
                let ri = old(self).index_blocks_rec(next, d2);
                assert(dat =~= h + rd);
                assert(ind =~= seq![idx] + ri);
                let a = f0 + dat + ind;
                let bseq = (f0 + h + seq![idx]) + rd + ri;
                vstd::seq_lib::lemma_multiset_commutative(f0 + dat, ind);
                vstd::seq_lib::lemma_multiset_commutative(f0, dat);
                vstd::seq_lib::lemma_multiset_commutative(h, rd);
                vstd::seq_lib::lemma_multiset_commutative(seq![idx], ri);
                vstd::seq_lib::lemma_multiset_commutative((f0 + h + seq![idx]) + rd, ri);
                vstd::seq_lib::lemma_multiset_commutative(f0 + h + seq![idx], rd);
                vstd::seq_lib::lemma_multiset_commutative(f0 + h, seq![idx]);
                vstd::seq_lib::lemma_multiset_commutative(f0, h);
                assert(a.to_multiset() =~= bseq.to_multiset());
                lemma_no_dup_perm(a, bseq);
                assert(dat.take((w - 1) as int) =~= h);
                assert(self.free_list() =~= f0 + h + seq![idx]);
                assert(self.data_blocks_rec(next, d2) == rd);
                assert(self.index_blocks_rec(next, d2) == ri);
                assert((self.free_list() + self.data_blocks_rec(next, d2)
                    + self.index_blocks_rec(next, d2)) =~= bseq);
            }
            self.drop_chain(next, d - (w - 1));
            proof {
                assert(mid.drop_order_rec(next, d2) == old(self).drop_order_rec(next, d2)) by {
                    lemma_chain_frame(old(self), &mid, next, d2);
                }
                assert(old(self).drop_order_rec(idx, d as nat) == h.push(idx) + old(
                    self,
                ).drop_order_rec(next, d2));
                assert(self.free_list() =~= f0 + old(self).drop_order_rec(idx, d as nat));
            }
        }
    }
}

/// A payload held by the data region: the root offset and byte length of a
/// scatter-gather chain.
pub struct Data {
    offset: u32,
    len: u32,
}

impl Data {
    pub closed spec fn offset_spec(&self) -> u32 {
        self.offset
    }

    pub closed spec fn len_spec(&self) -> u32 {
        self.len
    }

    /// The root block offset of this payload's chain.
    pub fn offset(&self) -> (r: usize)
        ensures
            r == self.offset_spec(),
    {
        self.offset as usize
    }

    /// The payload length in bytes.
    pub fn len(&self) -> (r: usize)
        ensures
            r == self.len_spec(),
    {
        self.len as usize
    }

    /// Copy `count` payload bytes out of the region, starting at payload
    /// byte `at`, striding through the chain block by block.
    pub fn copy_to(&self, b: &Buffers, at: usize, count: usize) -> (r: Vec<u8>)
        requires
            b.wf(),
            b.chain_ok(self.offset_spec(), self.len_spec() as nat),
            at + count <= self.len_spec(),
        ensures
            r@.len() == count,
            forall|j: int|
                0 <= j < count ==> r@[j] == b.payload_byte(
                    self.offset_spec(),
                    self.len_spec() as nat,
                    at + j,
                ),
    {
        let chain = match b.blocks(self.offset, self.len) {
            Some(c) => c,
            None => {
                proof {
                    assert(false);
                }
                return Vec::new();
            },
        };
        let bs = b.block_size() as usize;
        proof {
            let bsn = b.block_size_spec();
            let len = self.len_spec() as nat;
            lemma_len_fits_blocks(len, bsn);
            if len > bsn {
                let d = data_block_count(len, bsn);
                assert(d >= 1) by {
                    assert(len / bsn >= 1 || len % bsn != 0) by (nonlinear_arith)
                        requires
                            len > bsn,
                            bsn >= 8,
                    ;
                }
                lemma_chain_rec_lengths(b, self.offset_spec(), d);
                assert(chain@.len() == d);
            }
            assert(len <= chain@.len() * bsn) by {
                if len == 0 {
                    assert(chain@.len() * bsn >= 0) by (nonlinear_arith);
                } else if len <= bsn {
                    assert(chain@.len() == 1);
                    assert(chain@.len() * bsn == bsn) by (nonlinear_arith)
                        requires
                            chain@.len() == 1,
                    ;
                }
            }
        }
        let mut out: Vec<u8> = Vec::new();
        let mut j: usize = 0;
        while j < count
            invariant
                b.wf(),
                bs == b.block_size_spec(),
                at + count <= self.len_spec(),
                chain@ == b.chain_data_blocks(self.offset_spec(), self.len_spec() as nat),
                forall|k: int| 0 <= k < chain@.len() ==> (#[trigger] chain@[k]) < b.num_blocks(),
                self.len_spec() as nat <= chain@.len() * b.block_size_spec(),
                j <= count,
                out@.len() == j,
                forall|p: int|
                    0 <= p < j ==> out@[p] == b.payload_byte(
                        self.offset_spec(),
                        self.len_spec() as nat,
                        at + p,
                    ),
            decreases count - j,
        {
            let pos = at + j;
            let bi = pos / bs;
            let off = pos % bs;
            proof {
                assert(pos < chain@.len() * bs);
                assert(chain@.len() * bs == bs * chain@.len()) by (nonlinear_arith);
                vstd::arithmetic::div_mod::lemma_multiply_divide_lt(
                    pos as int,
                    bs as int,
                    chain@.len() as int,
                );
                vstd::arithmetic::div_mod::lemma_mod_division_less_than_divisor(
                    pos as int,
                    bs as int,
                );
            }
            let blk = chain[bi];
            let byte = b.byte_in(blk, off);
            out.push(byte);
            j = j + 1;
        }
        out
    }

    /// Copy `buf` into the region's payload bytes starting at payload byte
    /// `at`, striding through the chain block by block. Only the chain's
    /// data blocks are written, so the chain itself stays intact.
    pub fn copy_from(&self, b: &mut Buffers, at: usize, buf: &Vec<u8>)
        requires
            old(b).wf(),
            old(b).chain_ok(self.offset_spec(), self.len_spec() as nat),
            old(b).chain_blocks(self.offset_spec(), self.len_spec() as nat).no_duplicates(),
            at + buf@.len() <= self.len_spec(),
        ensures
            final(b).wf(),
            final(b).block_size_spec() == old(b).block_size_spec(),
            final(b).num_blocks() == old(b).num_blocks(),
            final(b).free_list() == old(b).free_list(),
            final(b).chain_data_blocks(self.offset_spec(), self.len_spec() as nat)
                == old(b).chain_data_blocks(self.offset_spec(), self.len_spec() as nat),
            final(b).chain_index_blocks(self.offset_spec(), self.len_spec() as nat)
                == old(b).chain_index_blocks(self.offset_spec(), self.len_spec() as nat),
            final(b).chain_drop_order(self.offset_spec(), self.len_spec() as nat)
                == old(b).chain_drop_order(self.offset_spec(), self.len_spec() as nat),
            final(b).chain_ok(self.offset_spec(), self.len_spec() as nat),
            forall|p: int|
                at <= p < at + buf@.len() ==> final(b).payload_byte(
                    self.offset_spec(),
                    self.len_spec() as nat,
                    p,
                ) == buf@[p - at],
            forall|p: int|
                0 <= p < self.len_spec() && !(at <= p < at + buf@.len())
                    ==> final(b).payload_byte(self.offset_spec(), self.len_spec() as nat, p)
                    == old(b).payload_byte(self.offset_spec(), self.len_spec() as nat, p),
            forall|bb: int|
                0 <= bb < old(b).num_blocks() && !old(b).chain_data_blocks(
                    self.offset_spec(),
                    self.len_spec() as nat,
                ).contains(bb as u32) ==> final(b).mem()[bb] == old(b).mem()[bb],
    {
        let ghost len = self.len_spec() as nat;
        let ghost off0 = self.offset_spec();
        let chain = match b.blocks(self.offset, self.len) {
            Some(c) => c,
            None => {
                proof {
                    assert(false);
                }
                return ;
            },
        };
        let bs = b.block_size() as usize;
        proof {
            let bsn = old(b).block_size_spec();
            lemma_len_fits_blocks(len, bsn);
            if len > bsn {
                let d = data_block_count(len, bsn);
                assert(d >= 1) by {
                    assert(len / bsn >= 1 || len % bsn != 0) by (nonlinear_arith)
                        requires
                            len > bsn,
                            bsn >= 8,
                    ;
                }
                lemma_chain_rec_lengths(b, off0, d);
                assert(chain@.len() == d);
            }
            assert(len <= chain@.len() * bsn) by {
                if len == 0 {
                    assert(chain@.len() * bsn >= 0) by (nonlinear_arith);
                } else if len <= bsn {
                    assert(chain@.len() == 1);
                    assert(chain@.len() * bsn == bsn) by (nonlinear_arith)
                        requires
                            chain@.len() == 1,
                    ;
                }
            }
            // the data blocks are pairwise distinct
            let cb = old(b).chain_blocks(off0, len);
            let cd = old(b).chain_data_blocks(off0, len);
            assert forall|q1: int, q2: int| 0 <= q1 < q2 < cd.len() implies cd[q1] != cd[q2] by {
                assert(cb[q1] == cd[q1] && cb[q2] == cd[q2]);
            }
        }
        let mut j: usize = 0;
        while j < buf.len()
            invariant
                b.wf(),
                b.block_size_spec() == old(b).block_size_spec(),
                b.num_blocks() == old(b).num_blocks(),
                b.free_list() == old(b).free_list(),
                bs == b.block_size_spec(),
                at + buf@.len() <= len,
                len == self.len_spec() as nat,
                off0 == self.offset_spec(),
                chain@ == old(b).chain_data_blocks(off0, len),
                forall|k: int| 0 <= k < chain@.len() ==> (#[trigger] chain@[k]) < b.num_blocks(),
                forall|q1: int, q2: int|
                    0 <= q1 < q2 < chain@.len() ==> chain@[q1] != chain@[q2],
                len <= chain@.len() * b.block_size_spec(),
                j <= buf@.len(),
                forall|p: int|
                    0 <= p < len ==> #[trigger] stride_byte(b.mem(), chain@, bs as int, p) == (
                    if at <= p < at + j {
                        buf@[p - at]
                    } else {
                        stride_byte(old(b).mem(), chain@, bs as int, p)
                    }),
                forall|bb: int|
                    0 <= bb < b.num_blocks() && !chain@.contains(bb as u32)
                        ==> b.mem()[bb] == old(b).mem()[bb],
            decreases buf@.len() - j,
        {
            let pos = at + j;
            let bi = pos / bs;
            let off = pos % bs;
            proof {
                assert(pos < chain@.len() * bs);
                assert(chain@.len() * bs == bs * chain@.len()) by (nonlinear_arith);
                vstd::arithmetic::div_mod::lemma_multiply_divide_lt(
                    pos as int,
                    bs as int,
                    chain@.len() as int,
                );
                vstd::arithmetic::div_mod::lemma_mod_division_less_than_divisor(
                    pos as int,
                    bs as int,
                );
            }
            let blk = chain[bi];
            let ghost pre = *b;
            b.set_byte_in(blk, off, buf[j]);
            proof {
                vstd::arithmetic::div_mod::lemma_fundamental_div_mod(pos as int, bs as int);
                assert forall|p: int| 0 <= p < len implies #[trigger] stride_byte(
                    b.mem(),
                    chain@,
                    bs as int,
                    p,
                ) == (if at <= p < at + j + 1 {
                    buf@[p - at]
                } else {
                    stride_byte(old(b).mem(), chain@, bs as int, p)
                }) by {
                    let q = p / (bs as int);
                    let i = p % (bs as int);
                    vstd::arithmetic::div_mod::lemma_fundamental_div_mod(p, bs as int);
                    vstd::arithmetic::div_mod::lemma_mod_division_less_than_divisor(p, bs as int);
                    assert(chain@.len() * bs == bs * chain@.len()) by (nonlinear_arith);
                    vstd::arithmetic::div_mod::lemma_multiply_divide_lt(
                        p,
                        bs as int,
                        chain@.len() as int,
                    );
                    assert(stride_byte(pre.mem(), chain@, bs as int, p) == (if at <= p < at + j {
                        buf@[p - at]
                    } else {
                        stride_byte(old(b).mem(), chain@, bs as int, p)
                    }));
                    if p == pos {
                        assert(q == bi as int && i == off as int);
                        assert(b.mem()[blk as int] == pre.mem()[blk as int].update(
                            off as int,
                            buf@[j as int],
                        ));
                        assert(b.mem()[blk as int][i] == buf@[j as int]);
                    } else if q == bi as int {
                        assert(i != off as int);
                        assert(b.mem()[blk as int][i] == pre.mem()[blk as int][i]);
                    } else {
                        assert(chain@[q] != chain@[bi as int]);
                        assert(b.mem()[chain@[q] as int] == pre.mem()[chain@[q] as int]);
                    }
                }
            }
            j = j + 1;
        }
        proof {
            // the index blocks were never written, so the chain is intact
            let ci = old(b).chain_index_blocks(off0, len);
            let cb = old(b).chain_blocks(off0, len);
            assert forall|blk: u32| ci.contains(blk)
                implies b.mem()[blk as int] == old(b).mem()[blk as int] by {
                let k = choose|k: int| 0 <= k < ci.len() && ci[k] == blk;
                assert(cb[chain@.len() + k] == blk);
                assert(!chain@.contains(blk)) by {
                    if chain@.contains(blk) {
                        let k2 = choose|k2: int| 0 <= k2 < chain@.len() && chain@[k2] == blk;
                        assert(cb[k2] == blk);
                        assert(cb[k2] == cb[chain@.len() + k] && k2 != chain@.len() + k);
                    }
                }
                assert(blk < b.num_blocks()) by {
                    if len <= old(b).block_size_spec() {
                        assert(ci.len() == 0);
                    } else {
                        lemma_index_ok(old(b), off0, data_block_count(len, old(b).block_size_spec()));
                    }
                }
            }
            if len > old(b).block_size_spec() {
                let d = data_block_count(len, old(b).block_size_spec());
                lemma_chain_frame(old(b), b, off0, d);
            }
        }
    }

    /// Return every block of this payload's chain to the free stack. The
    /// chain must be intact and disjoint from the free stack; afterwards its
    /// blocks sit on the stack in drop order, the region's bytes untouched.
    pub fn manual_drop(self, b: &mut Buffers)
        requires
            old(b).wf(),
            old(b).chain_ok(self.offset_spec(), self.len_spec() as nat),
            (old(b).free_list() + old(b).chain_blocks(
                self.offset_spec(),
                self.len_spec() as nat,
            )).no_duplicates(),
        ensures
            final(b).wf(),
            final(b).mem() == old(b).mem(),
            final(b).block_size_spec() == old(b).block_size_spec(),
            final(b).num_blocks() == old(b).num_blocks(),
            final(b).free_list() == old(b).free_list() + old(b).chain_drop_order(
                self.offset_spec(),
                self.len_spec() as nat,
            ),
    {
        let ghost f0 = old(b).free_list();
        let ghost chain = old(b).chain_blocks(self.offset_spec(), self.len_spec() as nat);
        if self.len == 0 {
            proof {
                assert(b.free_list() =~= f0 + old(b).chain_drop_order(
                    self.offset_spec(),
                    0,
                ));
            }
            return ;
        }
        if self.len <= b.block_size {
            proof {
                assert(chain =~= seq![self.offset_spec()]);
                assert((f0 + chain)[f0.len() as int] == self.offset_spec());
                assert(!f0.contains(self.offset_spec())) by {
                    if f0.contains(self.offset_spec()) {
                        let j = choose|j: int| 0 <= j < f0.len() && f0[j] == self.offset_spec();
                        assert((f0 + chain)[j] == (f0 + chain)[f0.len() as int]);
                    }
                }
            }
            b.dealloc(self.offset);
            proof {
                assert(b.free_list() =~= f0 + old(b).chain_drop_order(
                    self.offset_spec(),
                    self.len_spec() as nat,
                ));
            }
        } else {
            let d = b.data_count(self.len);
            proof {
                assert(d >= 1) by {
                    assert(self.len as nat / b.block_size_spec() >= 1 || self.len as nat
                        % b.block_size_spec() != 0) by (nonlinear_arith)
                        requires
                            self.len as nat > b.block_size_spec(),
                            b.block_size_spec() >= 8,
                    ;
                }
                let dat = old(b).data_blocks_rec(self.offset_spec(), d as nat);
                let ind = old(b).index_blocks_rec(self.offset_spec(), d as nat);
                assert(f0 + (dat + ind) =~= f0 + dat + ind);
            }
            b.drop_chain(self.offset, d);
        }
    }
}

/// Chain shape: a payload of `len` bytes occupies exactly `len / bs` rounded
/// up data blocks; payloads over one block add index blocks by the
/// recurrence of [`index_block_count`] — one, plus one more each time the
/// previous index block spends its last word chaining onward.
pub proof fn lemma_chain_block_counts(b: &Buffers, offset: u32, len: nat)
    requires
        b.wf(),
    ensures
        b.chain_data_blocks(offset, len).len() == data_block_count(len, b.block_size_spec()),
        b.chain_index_blocks(offset, len).len() == (if len <= b.block_size_spec() {
            0nat
        } else {
            index_block_count(data_block_count(len, b.block_size_spec()), b.w())
        }),
{
    let bs = b.block_size_spec();
    if len == 0 {
        vstd::arithmetic::div_mod::lemma_div_of0(bs as int);
        vstd::arithmetic::div_mod::lemma_small_mod(0, bs);
    } else if len <= bs {
        if len < bs {
            vstd::arithmetic::div_mod::lemma_basic_div(len as int, bs as int);
            vstd::arithmetic::div_mod::lemma_small_mod(len, bs);
        } else {
            vstd::arithmetic::div_mod::lemma_div_by_self(bs as int);
            vstd::arithmetic::div_mod::lemma_mod_self_0(bs as int);
        }
    } else {
        let d = data_block_count(len, bs);
        assert(d >= 1) by {
            assert(len / bs >= 1 || len % bs != 0) by (nonlinear_arith)
                requires
                    len > bs,
                    bs >= 8,
            ;
        }
        lemma_chain_rec_lengths(b, offset, d);
    }
}

/// Every block is in exactly one place: an allocation moves blocks from
/// the free stack into its chain and nowhere else, so returning the chain
/// restores exactly the original stack contents, whatever the chain's
/// shape.
pub proof fn lemma_block_partition(b1: &Buffers, f0: Seq<u32>, f2: Seq<u32>, offset: u32, len: nat)
    requires
        b1.wf(),
        1 <= len,
        (b1.free_list() + b1.chain_blocks(offset, len)).to_multiset() == f0.to_multiset(),
        f2 == b1.free_list() + b1.chain_drop_order(offset, len),
    ensures
        f2.to_multiset() == f0.to_multiset(),
        f2.len() == f0.len(),
{
    broadcast use vstd::multiset::group_multiset_axioms;

    let bs = b1.block_size_spec();
    let free = b1.free_list();
    let chain = b1.chain_blocks(offset, len);
    let dro = b1.chain_drop_order(offset, len);
    assert(dro.to_multiset() == chain.to_multiset()) by {
        if len <= bs {
            assert(chain =~= seq![offset]);
            assert(dro =~= seq![offset]);
        } else {
            let d = data_block_count(len, bs);
            assert(d >= 1) by {
                assert(len / bs >= 1 || len % bs != 0) by (nonlinear_arith)
                    requires
                        len > bs,
                        bs >= 8,
                ;
            }
            lemma_drop_order_multiset(b1, offset, d);
        }
    }
    vstd::seq_lib::lemma_multiset_commutative(free, chain);
    vstd::seq_lib::lemma_multiset_commutative(free, dro);
    assert(f2.to_multiset() =~= f0.to_multiset());
    f2.to_multiset_ensures();
    f0.to_multiset_ensures();
}

/// Free-stack duality: allocating a payload whose chain has at most one
/// index block and then returning it leaves the free stack at its original
/// size, holding the same blocks, with its original head offset on top.
pub proof fn lemma_free_stack_duality(b1: &Buffers, f0: Seq<u32>, f2: Seq<u32>, offset: u32, len: nat)
    requires
        b1.wf(),
        1 <= len,
        data_block_count(len, b1.block_size_spec()) <= b1.w(),
        blocks_needed(len, b1.block_size_spec()) <= f0.len(),
        b1.free_list() == f0.take(
            f0.len() - blocks_needed(len, b1.block_size_spec()),
        ),
        offset == f0.last(),
        (b1.free_list() + b1.chain_blocks(offset, len)).to_multiset() == f0.to_multiset(),
        f2 == b1.free_list() + b1.chain_drop_order(offset, len),
    ensures
        f2.len() == f0.len(),
        f2.last() == f0.last(),
        f2.to_multiset() == f0.to_multiset(),
{
    broadcast use vstd::multiset::group_multiset_axioms;

    let bs = b1.block_size_spec();
    let free = b1.free_list();
    let chain = b1.chain_blocks(offset, len);
    let dro = b1.chain_drop_order(offset, len);
    // the drop order returns exactly the chain's blocks
    assert(dro.to_multiset() == chain.to_multiset()) by {
        if len <= bs {
            assert(chain =~= seq![offset]);
            assert(dro =~= seq![offset]);
        } else {
            let d = data_block_count(len, bs);
            assert(d >= 1) by {
                assert(len / bs >= 1 || len % bs != 0) by (nonlinear_arith)
                    requires
                        len > bs,
                        bs >= 8,
                ;
            }
            lemma_drop_order_multiset(b1, offset, d);
        }
    }
    vstd::seq_lib::lemma_multiset_commutative(free, chain);
    vstd::seq_lib::lemma_multiset_commutative(free, dro);
    assert(f2.to_multiset() =~= f0.to_multiset());
    // equal multisets have equal sizes
    f2.to_multiset_ensures();
    f0.to_multiset_ensures();
    // the last block returned is the chain's root, the old head
    assert(dro.len() >= 1 && dro.last() == offset) by {
        if len <= bs {
            assert(dro =~= seq![offset]);
        } else {
            let d = data_block_count(len, bs);
            assert(dro == b1.drop_order_rec(offset, d));
            assert(b1.drop_order_rec(offset, d) == Seq::new(
                d,
                |k: int| b1.word_at(offset, k),
            ).push(offset));
        }
    }
    assert(f2.last() == dro.last());
}

} // verus!
