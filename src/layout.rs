//! On-disk structures: the super block, the disk inode with its block-pointer
//! table, and the directory entry.
use vstd::prelude::*;
use vstd::arithmetic::div_mod::{lemma_div_is_ordered, lemma_fundamental_div_mod, lemma_fundamental_div_mod_converse};
use vstd::arithmetic::mul::lemma_mul_inequality;

verus! {

/// Size of a block in bytes.
pub const BLOCK_SZ: usize = 512;

/// Magic number that a formatted volume carries in its super block.
pub const EFS_MAGIC: u32 = 0x3b800001;

/// Block pointers held directly in a disk inode.
pub const INODE_DIRECT_COUNT: usize = 28;

/// Block pointers that one index block holds.
pub const INODE_INDIRECT1_COUNT: usize = 128;

/// Data blocks reachable through the doubly indirect pointer.
pub const INODE_INDIRECT2_COUNT: usize = 16384;

/// Data blocks reachable before the doubly indirect pointer is needed.
pub const INDIRECT1_BOUND: usize = 156;

/// Largest number of data blocks a file can have.
pub const MAX_FILE_BLOCKS: usize = 16540;

/// Largest size of a file in bytes.
pub const MAX_FILE_SIZE: u32 = 8468480;

/// Bytes that a disk inode occupies in the inode area.
pub const DISK_INODE_SZ: usize = 128;

/// Disk inodes in one block of the inode area.
pub const INODES_PER_BLOCK: usize = 4;

/// Capacity of a directory entry's name field, terminating zero included.
pub const NAME_LENGTH_LIMIT: usize = 27;

/// Size of a directory entry in bytes.
pub const DIRENT_SZ: usize = 32;

/// Geometry of a volume, kept in its first block.
#[derive(Clone, Copy, PartialEq, Eq, Structural)]
pub struct SuperBlock {
    pub magic: u32,
    pub total_blocks: u32,
    pub inode_bitmap_blocks: u32,
    pub inode_area_blocks: u32,
    pub data_bitmap_blocks: u32,
    pub data_area_blocks: u32,
}

impl SuperBlock {
    /// A super block for the given region sizes, carrying the magic number.
    pub fn initialize(
        total_blocks: u32,
        inode_bitmap_blocks: u32,
        inode_area_blocks: u32,
        data_bitmap_blocks: u32,
        data_area_blocks: u32,
    ) -> (r: SuperBlock)
        ensures
            r == (SuperBlock {
                magic: EFS_MAGIC,
                total_blocks,
                inode_bitmap_blocks,
                inode_area_blocks,
                data_bitmap_blocks,
                data_area_blocks,
            }),
    {
        SuperBlock {
            magic: EFS_MAGIC,
            total_blocks,
            inode_bitmap_blocks,
            inode_area_blocks,
            data_bitmap_blocks,
            data_area_blocks,
        }
    }

    /// Whether the block carries the magic number of a formatted volume.
    pub fn is_valid(&self) -> (r: bool)
        ensures
            r == (self.magic == EFS_MAGIC),
    {
        self.magic == EFS_MAGIC
    }
}

/// Kind of a disk inode.
#[derive(Clone, Copy, PartialEq, Eq, Structural)]
pub enum DiskInodeType {
    File,
    Directory,
}

/// Data blocks that `size` bytes occupy.
pub open spec fn data_blocks_of(size: int) -> int {
    (size + BLOCK_SZ as int - 1) / BLOCK_SZ as int
}

/// Index blocks needed to reach `data` data blocks: one for the indirect
/// pointer once the direct ones are used up, then one for the doubly
/// indirect pointer and one for every started group of 128 blocks behind it.
pub open spec fn index_blocks_of(data: int) -> int {
    (if data > INODE_DIRECT_COUNT as int { 1int } else { 0int }) + (if data
        > INDIRECT1_BOUND as int {
        1 + (data - INDIRECT1_BOUND as int + INODE_INDIRECT1_COUNT as int - 1)
            / INODE_INDIRECT1_COUNT as int
    } else {
        0int
    })
}

/// All blocks, data and index, that a file of `size` bytes occupies.
pub open spec fn total_blocks_of(size: int) -> int {
    data_blocks_of(size) + index_blocks_of(data_blocks_of(size))
}

/// Address in the data area of byte `p` of a file whose data blocks are `ids`.
pub open spec fn byte_addr(ids: Seq<u32>, p: int) -> int {
    ids[p / BLOCK_SZ as int] as int * BLOCK_SZ as int + p % BLOCK_SZ as int
}

/// Whether no block id appears twice in `ids`.
pub open spec fn distinct_ids(ids: Seq<u32>) -> bool {
    forall|i: int, j: int| 0 <= i < ids.len() && 0 <= j < ids.len() && i != j ==> ids[i] != ids[j]
}

/// Whether address `a` of the data area lies inside one of the blocks `ids`.
pub open spec fn in_blocks(ids: Seq<u32>, a: int) -> bool {
    exists|k: int| 0 <= k < ids.len() && #[trigger] ids[k] as int * 512 <= a < ids[k] as int * 512 + 512
}

/// Bytes of `content` after `buf` is written at `offset`, clipped to the content's length.
pub open spec fn overwrite(content: Seq<u8>, offset: int, buf: Seq<u8>) -> Seq<u8> {
    Seq::new(
        content.len(),
        |j: int|
            if offset <= j < offset + buf.len() {
                buf[j - offset]
            } else {
                content[j]
            },
    )
}

/// `total_blocks_of` grows with the size: growing a file never frees blocks.
pub proof fn lemma_total_blocks_monotone(a: int, b: int)
    requires
        0 <= a <= b,
    ensures
        data_blocks_of(a) <= data_blocks_of(b),
        total_blocks_of(a) <= total_blocks_of(b),
        data_blocks_of(a) >= 0,
{
    lemma_div_is_ordered(a + 511, b + 511, 512);
    let da = data_blocks_of(a);
    let db = data_blocks_of(b);
    assert(da >= 0) by {
        lemma_div_is_ordered(0, a + 511, 512);
    }
    if da > 156 {
        lemma_div_is_ordered(da - 156 + 127, db - 156 + 127, 128);
    }
    if db > 156 && da <= 156 {
        lemma_div_is_ordered(0, db - 156 + 127, 128);
    }
}

/// Two bytes of a file with distinct data blocks never share an address, and
/// each address lies inside its block.
pub proof fn lemma_byte_addr(ids: Seq<u32>, p: int, q: int)
    requires
        distinct_ids(ids),
        0 <= p < ids.len() * BLOCK_SZ,
        0 <= q < ids.len() * BLOCK_SZ,
    ensures
        ids[p / 512] as int * 512 <= byte_addr(ids, p) < ids[p / 512] as int * 512 + 512,
        byte_addr(ids, p) == byte_addr(ids, q) ==> p == q,
        0 <= p / 512 < ids.len(),
{
    lemma_fundamental_div_mod(p, 512);
    lemma_fundamental_div_mod(q, 512);
    assert(p / 512 < ids.len()) by {
        if p / 512 >= ids.len() {
            lemma_mul_inequality(ids.len() as int, p / 512, 512);
        }
    }
    assert(q / 512 < ids.len()) by {
        if q / 512 >= ids.len() {
            lemma_mul_inequality(ids.len() as int, q / 512, 512);
        }
    }
    assert(p / 512 >= 0) by {
        lemma_div_is_ordered(0, p, 512);
    }
    assert(q / 512 >= 0) by {
        lemma_div_is_ordered(0, q, 512);
    }
    let ip = ids[p / 512] as int;
    let iq = ids[q / 512] as int;
    if byte_addr(ids, p) == byte_addr(ids, q) {
        lemma_fundamental_div_mod_converse(byte_addr(ids, p), 512, ip, p % 512);
        lemma_fundamental_div_mod_converse(byte_addr(ids, q), 512, iq, q % 512);
    }
}

/// Metadata of a file or directory: its size, kind, link count, and the block
/// pointer table. `data_ids` lists the data blocks in file order: the first 28
/// through direct pointers, the next 128 through the indirect block, the rest
/// through the doubly indirect tier. `index_ids` lists the index blocks those
/// tiers occupy, in the order they were taken.
pub struct DiskInode {
    pub size: u32,
    pub type_: DiskInodeType,
    pub nlink: u32,
    pub data_ids: Vec<u32>,
    pub index_ids: Vec<u32>,
}

impl DiskInode {
    /// The pointer table holds exactly the blocks that the size needs.
    pub open spec fn wf(&self) -> bool {
        &&& self.size <= MAX_FILE_SIZE
        &&& self.data_ids@.len() == data_blocks_of(self.size as int)
        &&& self.index_ids@.len() == index_blocks_of(data_blocks_of(self.size as int))
    }

    /// Every block this inode occupies, data blocks first.
    pub open spec fn all_ids(&self) -> Seq<u32> {
        self.data_ids@ + self.index_ids@
    }

    /// Well formed, with distinct data blocks that lie inside a data area of `len` bytes.
    pub open spec fn wf_in(&self, len: int) -> bool {
        &&& self.wf()
        &&& distinct_ids(self.data_ids@)
        &&& forall|i: int|
            0 <= i < self.data_ids@.len() ==> (self.data_ids@[i] as int + 1) * BLOCK_SZ as int
                <= len
    }

    /// Content of the file: `size` bytes read through the pointer table from the data area.
    pub open spec fn content(&self, data: Seq<u8>) -> Seq<u8> {
        Seq::new(self.size as nat, |p: int| data[byte_addr(self.data_ids@, p)])
    }

    /// A fresh inode of the given kind: empty, with one link.
    pub fn initialize(type_: DiskInodeType) -> (r: DiskInode)
        ensures
            r.size == 0,
            r.type_ == type_,
            r.nlink == 1,
            r.data_ids@.len() == 0,
            r.index_ids@.len() == 0,
            r.wf(),
    {
        DiskInode { size: 0, type_, nlink: 1, data_ids: Vec::new(), index_ids: Vec::new() }
    }

    /// Whether this is a directory.
    pub fn is_dir(&self) -> (r: bool)
        ensures
            r == (self.type_ == DiskInodeType::Directory),
    {
        match self.type_ {
            DiskInodeType::Directory => true,
            DiskInodeType::File => false,
        }
    }

    /// Whether this is a regular file.
    pub fn is_file(&self) -> (r: bool)
        ensures
            r == (self.type_ == DiskInodeType::File),
    {
        match self.type_ {
            DiskInodeType::File => true,
            DiskInodeType::Directory => false,
        }
    }

    /// Data blocks that `size` bytes occupy.
    pub fn data_blocks_for(size: u32) -> (r: u32)
        ensures
            r == data_blocks_of(size as int),
    {
        ((size as u64 + 511) / 512) as u32
    }

    /// Data blocks this inode's size occupies.
    pub fn data_blocks(&self) -> (r: u32)
        ensures
            r == data_blocks_of(self.size as int),
    {
        Self::data_blocks_for(self.size)
    }

    /// All blocks, data and index, that a file of `size` bytes occupies.
    pub fn total_blocks(size: u32) -> (r: u32)
        requires
            size <= MAX_FILE_SIZE,
        ensures
            r == total_blocks_of(size as int),
    {
        proof {
            lemma_total_blocks_monotone(size as int, MAX_FILE_SIZE as int);
        }
        let data = Self::data_blocks_for(size);
        let mut total = data;
        if data > INODE_DIRECT_COUNT as u32 {
            total = total + 1;
        }
        if data > INDIRECT1_BOUND as u32 {
            total = total + 1 + (data - INDIRECT1_BOUND as u32 + INODE_INDIRECT1_COUNT as u32 - 1)
                / INODE_INDIRECT1_COUNT as u32;
        }
        total
    }

    /// Blocks to allocate, data and index, to grow to `new_size`.
    pub fn blocks_num_needed(&self, new_size: u32) -> (r: u32)
        requires
            self.size <= new_size <= MAX_FILE_SIZE,
        ensures
            r == total_blocks_of(new_size as int) - total_blocks_of(self.size as int),
    {
        proof {
            lemma_total_blocks_monotone(self.size as int, new_size as int);
        }
        Self::total_blocks(new_size) - Self::total_blocks(self.size)
    }

    /// Data block that holds block `inner_id` of the file.
    pub fn get_block_id(&self, inner_id: u32) -> (r: u32)
        requires
            inner_id < self.data_ids@.len(),
        ensures
            r == self.data_ids@[inner_id as int],
    {
        self.data_ids[inner_id as usize]
    }

    /// Grows the file to `new_size`, wiring in `new_blocks`, which must be
    /// exactly the blocks that the growth needs: data blocks first, then the
    /// index blocks. The new bytes are whatever those blocks hold.
    pub fn increase_size(&mut self, new_size: u32, new_blocks: Vec<u32>)
        requires
            old(self).wf(),
            old(self).size <= new_size <= MAX_FILE_SIZE,
            new_blocks@.len() == total_blocks_of(new_size as int) - total_blocks_of(
                old(self).size as int,
            ),
        ensures
            final(self).wf(),
            final(self).size == new_size,
            final(self).type_ == old(self).type_,
            final(self).nlink == old(self).nlink,
            ({
                let dd = data_blocks_of(new_size as int) - data_blocks_of(old(self).size as int);
                &&& final(self).data_ids@ == old(self).data_ids@ + new_blocks@.subrange(0, dd)
                &&& final(self).index_ids@ == old(self).index_ids@ + new_blocks@.subrange(
                    dd,
                    new_blocks@.len() as int,
                )
            }),
    {
        proof {
            lemma_total_blocks_monotone(self.size as int, new_size as int);
            lemma_total_blocks_monotone(new_size as int, MAX_FILE_SIZE as int);
        }
        let dd = (Self::data_blocks_for(new_size) - Self::data_blocks_for(self.size)) as usize;
        let ghost old_data = self.data_ids@;
        let ghost old_index = self.index_ids@;
        let mut i: usize = 0;
        while i < new_blocks.len()
            invariant
                self.type_ == old(self).type_,
                self.nlink == old(self).nlink,
                self.size == old(self).size,
                0 <= dd <= new_blocks@.len(),
                i <= new_blocks@.len(),
                i <= dd ==> self.data_ids@ == old_data + new_blocks@.subrange(0, i as int)
                    && self.index_ids@ == old_index,
                i > dd ==> self.data_ids@ == old_data + new_blocks@.subrange(0, dd as int)
                    && self.index_ids@ == old_index + new_blocks@.subrange(dd as int, i as int),
            decreases new_blocks@.len() - i,
        {
            if i < dd {
                self.data_ids.push(new_blocks[i]);
                assert(new_blocks@.subrange(0, i + 1) == new_blocks@.subrange(0, i as int).push(
                    new_blocks@[i as int],
                ));
            } else {
                self.index_ids.push(new_blocks[i]);
                assert(new_blocks@.subrange(dd as int, i + 1) == new_blocks@.subrange(
                    dd as int,
                    i as int,
                ).push(new_blocks@[i as int]));
            }
            i = i + 1;
        }
        assert(new_blocks@.subrange(dd as int, dd as int) =~= Seq::<u32>::empty());
        self.size = new_size;
    }

    /// Empties the file: size becomes 0 and every block it held, data and
    /// index, is handed back for the caller to free.
    pub fn clear_size(&mut self) -> (r: Vec<u32>)
        requires
            old(self).wf(),
        ensures
            final(self).wf(),
            final(self).size == 0,
            final(self).data_ids@.len() == 0,
            final(self).index_ids@.len() == 0,
            final(self).type_ == old(self).type_,
            final(self).nlink == old(self).nlink,
            r@ == old(self).all_ids(),
            r@.len() == total_blocks_of(old(self).size as int),
    {
        let mut r: Vec<u32> = Vec::new();
        r.append(&mut self.data_ids);
        r.append(&mut self.index_ids);
        self.size = 0;
        r
    }

    /// Copies file bytes from `offset` into `buf`, clipped to the size; returns
    /// how many were copied.
    pub fn read_at(&self, offset: usize, buf: &mut [u8], data: &Vec<u8>) -> (r: usize)
        requires
            self.wf_in(data@.len() as int),
        ensures
            r == (if offset >= self.size { 0 } else if old(buf)@.len() <= self.size - offset {
                old(buf)@.len() as int
            } else {
                self.size - offset
            }),
            final(buf)@.len() == old(buf)@.len(),
            forall|j: int| 0 <= j < r ==> final(buf)@[j] == self.content(data@)[offset + j],
            final(buf)@.subrange(r as int, old(buf)@.len() as int) == old(buf)@.subrange(
                r as int,
                old(buf)@.len() as int,
            ),
    {
        let size = self.size as usize;
        if offset >= size {
            return 0;
        }
        let n = if buf.len() <= size - offset {
            buf.len()
        } else {
            size - offset
        };
        let dl = data.len();
        let mut i: usize = 0;
        while i < n
            invariant
                self.wf_in(data@.len() as int),
                dl == data@.len(),
                n <= buf@.len(),
                offset + n <= self.size,
                i <= n,
                buf@.len() == old(buf)@.len(),
                forall|j: int| 0 <= j < i ==> buf@[j] == self.content(data@)[offset + j],
                forall|j: int| n <= j < buf@.len() ==> buf@[j] == old(buf)@[j],
            decreases n - i,
        {
            proof {
                lemma_total_blocks_monotone(self.size as int, MAX_FILE_SIZE as int);
                lemma_byte_addr(self.data_ids@, offset + i, offset + i);
                lemma_fundamental_div_mod(self.size as int + 511, 512);
            }
            let p = offset + i;
            let blk = self.data_ids[p / BLOCK_SZ] as usize;
            assert((self.data_ids@[p as int / 512] as int + 1) * 512 <= data@.len());
            buf[i] = data[blk * BLOCK_SZ + p % BLOCK_SZ];
            i = i + 1;
        }
        assert(buf@.subrange(n as int, buf@.len() as int) =~= old(buf)@.subrange(
            n as int,
            old(buf)@.len() as int,
        ));
        n
    }

    /// Copies `buf` into the file from `offset`, clipped to the size: the file
    /// is never extended here. Returns how many bytes were written. Only bytes
    /// inside this file's data blocks change.
    pub fn write_at(&self, offset: usize, buf: &[u8], data: &mut Vec<u8>) -> (r: usize)
        requires
            self.wf_in(old(data)@.len() as int),
        ensures
            r == (if offset >= self.size { 0 } else if buf@.len() <= self.size - offset {
                buf@.len() as int
            } else {
                self.size - offset
            }),
            final(data)@.len() == old(data)@.len(),
            self.content(final(data)@) == overwrite(
                self.content(old(data)@),
                offset as int,
                buf@.subrange(0, r as int),
            ),
            forall|a: int|
                0 <= a < old(data)@.len() && final(data)@[a] != old(data)@[a] ==> in_blocks(
                    self.data_ids@,
                    a,
                ),
    {
        let ghost before = data@;
        let size = self.size as usize;
        let n: usize = if offset >= size {
            0
        } else if buf.len() <= size - offset {
            buf.len()
        } else {
            size - offset
        };
        let dl = data.len();
        let mut i: usize = 0;
        while i < n
            invariant
                self.wf_in(data@.len() as int),
                dl == data@.len(),
                before.len() == dl,
                n <= buf@.len(),
                n > 0 ==> offset + n <= self.size,
                i <= n,
                forall|j: int|
                    0 <= j < self.size ==> #[trigger] self.content(data@)[j] == (if offset <= j
                        < offset + i {
                        buf@[j - offset]
                    } else {
                        self.content(before)[j]
                    }),
                forall|a: int|
                    0 <= a < dl && data@[a] != before[a] ==> in_blocks(self.data_ids@, a),
            decreases n - i,
        {
            let p = offset + i;
            proof {
                lemma_total_blocks_monotone(self.size as int, MAX_FILE_SIZE as int);
                lemma_fundamental_div_mod(self.size as int + 511, 512);
                lemma_byte_addr(self.data_ids@, p as int, p as int);
            }
            let blk = self.data_ids[p / BLOCK_SZ] as usize;
            assert((self.data_ids@[p as int / 512] as int + 1) * 512 <= data@.len());
            let addr = blk * BLOCK_SZ + p % BLOCK_SZ;
            let ghost prev = data@;
            data.set(addr, buf[i]);
            assert forall|j: int|
                0 <= j < self.size implies #[trigger] self.content(data@)[j] == (if offset <= j
                    < offset + i + 1 {
                buf@[j - offset]
            } else {
                self.content(before)[j]
            }) by {
                lemma_byte_addr(self.data_ids@, j, p as int);
                assert(self.content(prev)[j] == prev[byte_addr(self.data_ids@, j)]);
            }
            assert forall|a: int|
                0 <= a < dl && data@[a] != before[a] implies in_blocks(self.data_ids@, a) by {
                if a == addr {
                    let k = p as int / 512;
                    assert(0 <= k < self.data_ids@.len() && self.data_ids@[k] as int * 512 <= a
                        < self.data_ids@[k] as int * 512 + 512);
                } else {
                    assert(prev[a] == data@[a]);
                }
            }
            i = i + 1;
        }
        assert(self.content(data@) =~= overwrite(
            self.content(before),
            offset as int,
            buf@.subrange(0, n as int),
        ));
        n
    }
}

/// Growing a file never shrinks it or its pointer table, and the table gains
/// exactly the blocks that `blocks_num_needed` asks for.
pub proof fn law_growth(d0: DiskInode, d1: DiskInode)
    requires
        d0.wf(),
        d1.wf(),
        d0.size <= d1.size,
    ensures
        d0.all_ids().len() <= d1.all_ids().len(),
        d1.all_ids().len() - d0.all_ids().len() == total_blocks_of(d1.size as int)
            - total_blocks_of(d0.size as int),
{
    lemma_total_blocks_monotone(d0.size as int, d1.size as int);
}

} // verus!
