//! The volume: super block, the two allocation bitmaps, the inode area and
//! the data area, with allocation and freeing of inodes and data blocks.
use vstd::prelude::*;
use vstd::arithmetic::div_mod::lemma_fundamental_div_mod_converse;
use vstd::arithmetic::mul::lemma_mul_inequality;
use crate::bitmap::{Bitmap, BLOCK_BITS, free_count, lemma_free_count_empty, lemma_free_count_full, lemma_free_count_set};
use crate::layout::{
    DiskInode, DiskInodeType, SuperBlock, BLOCK_SZ, DISK_INODE_SZ, INODES_PER_BLOCK, MAX_FILE_SIZE,
    distinct_ids, in_blocks, byte_addr, overwrite, lemma_byte_addr, lemma_total_blocks_monotone,
    data_blocks_of, total_blocks_of,
};

verus! {

/// Inode number of the root directory.
pub const ROOT_INODE_ID: u32 = 0;

/// A mounted volume. Block 0 holds the super block; then come the inode
/// bitmap, the inode area, the data bitmap and the data area. The inode area
/// holds one disk inode per inode number; the data area is kept as bytes,
/// data block `i` at `[i * BLOCK_SZ, (i + 1) * BLOCK_SZ)`.
pub struct EasyFileSystem {
    pub super_block: SuperBlock,
    pub inode_bitmap: Bitmap,
    pub data_bitmap: Bitmap,
    pub inodes: Vec<DiskInode>,
    pub data: Vec<u8>,
    pub inode_area_start_block: u32,
    pub data_area_start_block: u32,
}

/// Blocks that inode `d1` holds beyond those of `d0`: its new data blocks,
/// then its new index blocks.
pub open spec fn taken(d0: DiskInode, d1: DiskInode) -> Seq<u32> {
    d1.data_ids@.skip(d0.data_ids@.len() as int) + d1.index_ids@.skip(d0.index_ids@.len() as int)
}

/// Bits `b1` are bits `b0` with the blocks `t` taken: each of them was clear
/// and is now set, no block is taken twice, and no other bit changed; so
/// `t.len()` fewer bits are free.
pub open spec fn takes(b0: Seq<bool>, t: Seq<u32>, b1: Seq<bool>) -> bool {
    &&& b1.len() == b0.len()
    &&& free_count(b1) + t.len() == free_count(b0)
    &&& distinct_ids(t)
    &&& forall|j: int| 0 <= j < t.len() ==> t[j] < b0.len() && !b0[t[j] as int]
    &&& forall|x: int| 0 <= x < b0.len() ==> #[trigger] b1[x] == (b0[x] || t.contains(x as u32))
}

/// Whether address `a` lies in data block `x`.
pub open spec fn in_block(x: int, a: int) -> bool {
    x * 512 <= a < x * 512 + 512
}

proof fn lemma_one_block(x: int, y: int, a: int)
    requires
        in_block(x, a),
        in_block(y, a),
    ensures
        x == y,
{
    lemma_fundamental_div_mod_converse(a, 512, x, a - x * 512);
    lemma_fundamental_div_mod_converse(a, 512, y, a - y * 512);
}

impl EasyFileSystem {
    /// Block `i` of inode `k`'s data blocks (`t`) or index blocks (`!t`).
    pub open spec fn ids_of(&self, k: int, t: bool) -> Seq<u32> {
        if t {
            self.inodes@[k].data_ids@
        } else {
            self.inodes@[k].index_ids@
        }
    }

    /// Entry `i` of `ids_of(k, t)`.
    pub open spec fn owned(&self, k: int, t: bool, i: int) -> u32 {
        self.ids_of(k, t)[i]
    }

    /// Whether `(k, t, i)` names a block that inode `k` holds.
    pub open spec fn slot(&self, k: int, t: bool, i: int) -> bool {
        0 <= k < self.inodes@.len() && 0 <= i < self.ids_of(k, t).len()
    }

    /// Every block that an inode holds is allocated in the data bitmap.
    pub open spec fn ids_allocated(&self) -> bool {
        forall|k: int, t: bool, i: int|
            self.slot(k, t, i) ==> {
                &&& #[trigger] self.owned(k, t, i) < self.data_bitmap@.len()
                &&& self.data_bitmap@[self.owned(k, t, i) as int]
            }
    }

    /// No block is held twice, by two inodes or twice by one.
    pub open spec fn ids_disjoint(&self) -> bool {
        forall|k1: int, t1: bool, i1: int, k2: int, t2: bool, i2: int|
            self.slot(k1, t1, i1) && self.slot(k2, t2, i2) && #[trigger] self.owned(k1, t1, i1)
                == #[trigger] self.owned(k2, t2, i2) ==> k1 == k2 && t1 == t2 && i1 == i2
    }

    /// The volume's invariant.
    pub open spec fn wf(&self) -> bool {
        &&& self.inode_bitmap@.len() == self.inodes@.len()
        &&& self.inode_area_start_block as int + self.inodes@.len() <= u32::MAX
        &&& self.data_bitmap@.len() <= u32::MAX
        &&& self.data@.len() == self.data_bitmap@.len() * BLOCK_SZ
        &&& forall|k: int| 0 <= k < self.inodes@.len() ==> (#[trigger] self.inodes@[k]).wf()
        &&& self.ids_allocated()
        &&& self.ids_disjoint()
    }

    /// Content of inode `k`.
    pub open spec fn content(&self, k: int) -> Seq<u8> {
        self.inodes@[k].content(self.data@)
    }

    /// Whether inode slot `k` is in use.
    pub open spec fn inode_used(&self, k: int) -> bool {
        self.inode_bitmap@[k]
    }

    /// Slot of inode `id` in the inode area: its block and the byte offset in it.
    pub open spec fn pos_of(&self, id: int) -> (int, int) {
        (
            self.inode_area_start_block + id / INODES_PER_BLOCK as int,
            (id % INODES_PER_BLOCK as int) * DISK_INODE_SZ as int,
        )
    }

    /// Inode number whose slot is at `block_id`, `block_offset`.
    pub open spec fn id_at(&self, block_id: int, block_offset: int) -> int {
        (block_id - self.inode_area_start_block) * INODES_PER_BLOCK as int + block_offset
            / DISK_INODE_SZ as int
    }

    /// An inode of a well-formed volume has distinct data blocks inside the data area.
    pub proof fn lemma_inode_wf_in(&self, k: int)
        requires
            self.wf(),
            0 <= k < self.inodes@.len(),
        ensures
            self.inodes@[k].wf_in(self.data@.len() as int),
    {
        let di = self.inodes@[k];
        assert(di.wf());
        assert forall|i: int, j: int|
            0 <= i < di.data_ids@.len() && 0 <= j < di.data_ids@.len() && i != j implies di.data_ids@[i]
            != di.data_ids@[j] by {
            assert(self.slot(k, true, i) && self.slot(k, true, j));
            assert(self.owned(k, true, i) == di.data_ids@[i]);
            assert(self.owned(k, true, j) == di.data_ids@[j]);
        }
        assert forall|i: int| 0 <= i < di.data_ids@.len() implies (di.data_ids@[i] as int + 1)
            * BLOCK_SZ as int <= self.data@.len() by {
            assert(self.slot(k, true, i));
            assert(self.owned(k, true, i) == di.data_ids@[i]);
            lemma_mul_inequality(di.data_ids@[i] as int + 1, self.data_bitmap@.len() as int, 512);
        }
    }

    /// Formats a volume of `total_blocks` blocks whose inode bitmap has
    /// `inode_bitmap_blocks` blocks: every bit clear but the root directory's
    /// inode, which is an empty directory.
    pub fn create(total_blocks: u32, inode_bitmap_blocks: u32) -> (r: EasyFileSystem)
        requires
            1 <= inode_bitmap_blocks,
            1 + 1025 * inode_bitmap_blocks + 2 <= total_blocks,
            // inode numbers are four bytes on disk
            inode_bitmap_blocks as int * 4097 + 1 <= u32::MAX,
            // the volume's bytes fit in memory
            (total_blocks as int + 4096) * BLOCK_SZ as int <= usize::MAX,
        ensures
            r.wf(),
            r.super_block.magic == crate::layout::EFS_MAGIC,
            r.super_block.total_blocks == total_blocks,
            r.inodes@.len() == inode_bitmap_blocks * BLOCK_BITS,
            r.inode_area_start_block == 1 + inode_bitmap_blocks,
            r.inode_used(ROOT_INODE_ID as int),
            forall|k: int| 0 <= k < r.inodes@.len() && k != ROOT_INODE_ID ==> !r.inode_used(k),
            forall|i: int| 0 <= i < r.data_bitmap@.len() ==> !r.data_bitmap@[i],
            r.super_block.data_bitmap_blocks >= 1,
            r.data_bitmap@.len() == r.super_block.data_bitmap_blocks * BLOCK_BITS,
            free_count(r.data_bitmap@) == r.data_bitmap@.len(),
            r.inodes@[ROOT_INODE_ID as int].type_ == DiskInodeType::Directory,
            r.inodes@[ROOT_INODE_ID as int].size == 0,
    {
        let inode_num = inode_bitmap_blocks as usize * BLOCK_BITS;
        let inode_area_blocks = inode_bitmap_blocks * 1024;
        let data_total_blocks = total_blocks - 1 - inode_bitmap_blocks - inode_area_blocks;
        let data_bitmap_blocks = ((data_total_blocks as u64 + 4096) / 4097) as u32;
        assert(data_bitmap_blocks >= 1);
        let data_area_blocks = data_total_blocks - data_bitmap_blocks;
        let super_block = SuperBlock::initialize(
            total_blocks,
            inode_bitmap_blocks,
            inode_area_blocks,
            data_bitmap_blocks,
            data_area_blocks,
        );
        let mut inode_bitmap = Bitmap::new(inode_bitmap_blocks as usize);
        let data_bitmap = Bitmap::new(data_bitmap_blocks as usize);
        // The data area is as large as the data bitmap can describe.
        assert(data_bitmap_blocks as int * 4096 * 512 <= (total_blocks as int + 4096) * 512)
            by (nonlinear_arith)
            requires
                data_bitmap_blocks as int * 4097 <= data_total_blocks as int + 4096,
                data_total_blocks <= total_blocks,
        ;
        let data_len = data_bitmap_blocks as usize * BLOCK_BITS * BLOCK_SZ;
        let mut inodes: Vec<DiskInode> = Vec::new();
        while inodes.len() < inode_num
            invariant
                inodes@.len() <= inode_num,
                forall|k: int| 0 <= k < inodes@.len() ==> (#[trigger] inodes@[k]).wf() && inodes@[k].all_ids().len() == 0,
            decreases inode_num - inodes@.len(),
        {
            let di = DiskInode::initialize(DiskInodeType::File);
            assert(di.all_ids() =~= Seq::<u32>::empty());
            inodes.push(di);
        }
        let mut data: Vec<u8> = Vec::new();
        while data.len() < data_len
            invariant
                data@.len() <= data_len,
            decreases data_len - data@.len(),
        {
            data.push(0u8);
        }
        assert(inode_bitmap@.len() > 0 && !inode_bitmap@[0]);
        let root = inode_bitmap.alloc_bit();
        assert(root == Some(0usize));
        let mut fs = EasyFileSystem {
            super_block,
            inode_bitmap,
            data_bitmap,
            inodes,
            data,
            inode_area_start_block: 1 + inode_bitmap_blocks,
            data_area_start_block: 1 + inode_bitmap_blocks + inode_area_blocks + data_bitmap_blocks,
        };
        proof {
            lemma_free_count_empty(fs.data_bitmap@);
        }
        let dir = DiskInode::initialize(DiskInodeType::Directory);
        assert(dir.all_ids() =~= Seq::<u32>::empty());
        fs.inodes.set(0, dir);
        fs
    }

    /// Everything but the inode bitmap is as in `o`.
    pub open spec fn same_but_inode_bitmap(&self, o: &Self) -> bool {
        &&& self.data_bitmap@ == o.data_bitmap@
        &&& self.inodes@ == o.inodes@
        &&& self.data@ == o.data@
        &&& self.super_block == o.super_block
        &&& self.inode_area_start_block == o.inode_area_start_block
        &&& self.data_area_start_block == o.data_area_start_block
    }

    /// The geometry and the inode bitmap are as in `o`.
    pub open spec fn same_geometry(&self, o: &Self) -> bool {
        &&& self.inode_bitmap@ == o.inode_bitmap@
        &&& self.super_block == o.super_block
        &&& self.inode_area_start_block == o.inode_area_start_block
        &&& self.data_area_start_block == o.data_area_start_block
        &&& self.inodes@.len() == o.inodes@.len()
        &&& self.data_bitmap@.len() == o.data_bitmap@.len()
    }

    /// Inodes other than `k` and their content are as in `o`.
    pub open spec fn others_kept(&self, o: &Self, k: int) -> bool {
        forall|j: int|
            0 <= j < self.inodes@.len() && j != k ==> #[trigger] self.inodes@[j] == o.inodes@[j]
                && self.content(j) == o.content(j)
    }

    /// The invariant survives any change that keeps the inodes and the sizes
    /// and only sets bits of the data bitmap.
    pub proof fn lemma_wf_frame(new: &Self, old: &Self)
        requires
            old.wf(),
            new.inodes@ == old.inodes@,
            new.inode_bitmap@.len() == old.inode_bitmap@.len(),
            new.data_bitmap@.len() == old.data_bitmap@.len(),
            new.data@.len() == old.data@.len(),
            new.inode_area_start_block == old.inode_area_start_block,
            forall|x: int| 0 <= x < old.data_bitmap@.len() && old.data_bitmap@[x] ==> new.data_bitmap@[x],
        ensures
            new.wf(),
    {
        assert forall|k: int, t: bool, j: int| new.slot(k, t, j) implies {
            &&& #[trigger] new.owned(k, t, j) < new.data_bitmap@.len()
            &&& new.data_bitmap@[new.owned(k, t, j) as int]
        } by {
            assert(old.slot(k, t, j) && old.owned(k, t, j) == new.owned(k, t, j));
        }
        assert forall|k1: int, t1: bool, i1: int, k2: int, t2: bool, i2: int|
            new.slot(k1, t1, i1) && new.slot(k2, t2, i2) && #[trigger] new.owned(k1, t1, i1)
                == #[trigger] new.owned(k2, t2, i2) implies k1 == k2 && t1 == t2 && i1 == i2 by {
            assert(old.slot(k1, t1, i1) && old.owned(k1, t1, i1) == new.owned(k1, t1, i1));
            assert(old.slot(k2, t2, i2) && old.owned(k2, t2, i2) == new.owned(k2, t2, i2));
        }
        assert forall|k: int| 0 <= k < new.inodes@.len() implies (#[trigger] new.inodes@[k]).wf() by {
            assert(old.inodes@[k].wf());
        }
    }

    /// Block and byte offset of the slot of inode `inode_id` in the inode area.
    pub fn get_disk_inode_pos(&self, inode_id: u32) -> (r: (u32, usize))
        requires
            self.wf(),
            inode_id < self.inodes@.len(),
        ensures
            r.0 == self.pos_of(inode_id as int).0,
            r.1 == self.pos_of(inode_id as int).1,
    {
        let block = self.inode_area_start_block + inode_id / INODES_PER_BLOCK as u32;
        (block, (inode_id % INODES_PER_BLOCK as u32) as usize * DISK_INODE_SZ)
    }

    /// Inode number of the slot at `block_id`, `block_offset`.
    pub fn get_disk_inode(&self, block_id: u32, block_offset: usize) -> (r: u32)
        requires
            self.wf(),
            self.inode_area_start_block <= block_id,
            0 <= self.id_at(block_id as int, block_offset as int) < self.inodes@.len(),
        ensures
            r == self.id_at(block_id as int, block_offset as int),
    {
        (block_id - self.inode_area_start_block) * INODES_PER_BLOCK as u32 + (block_offset
            / DISK_INODE_SZ) as u32
    }

    /// Takes the lowest free inode number, or `None` when all are in use.
    pub fn alloc_inode(&mut self) -> (r: Option<u32>)
        requires
            old(self).wf(),
        ensures
            final(self).wf(),
            final(self).same_but_inode_bitmap(old(self)),
            match r {
                Some(id) => {
                    &&& id < old(self).inodes@.len()
                    &&& !old(self).inode_used(id as int)
                    &&& forall|j: int| 0 <= j < id ==> old(self).inode_used(j)
                    &&& final(self).inode_bitmap@ == old(self).inode_bitmap@.update(id as int, true)
                },
                None => {
                    &&& forall|j: int| 0 <= j < old(self).inodes@.len() ==> old(self).inode_used(j)
                    &&& final(self).inode_bitmap@ == old(self).inode_bitmap@
                },
            },
    {
        let r = self.inode_bitmap.alloc_bit();
        proof {
            Self::lemma_wf_frame(self, old(self));
        }
        match r {
            Some(i) => Some(i as u32),
            None => None,
        }
    }

    /// Takes the lowest free data block, or `None` when all are in use.
    pub fn alloc_data(&mut self) -> (r: Option<u32>)
        requires
            old(self).wf(),
        ensures
            final(self).wf(),
            final(self).inodes@ == old(self).inodes@,
            final(self).data@ == old(self).data@,
            final(self).same_geometry(old(self)),
            match r {
                Some(id) => {
                    &&& id < old(self).data_bitmap@.len()
                    &&& !old(self).data_bitmap@[id as int]
                    &&& forall|j: int| 0 <= j < id ==> old(self).data_bitmap@[j]
                    &&& final(self).data_bitmap@ == old(self).data_bitmap@.update(id as int, true)
                },
                None => {
                    &&& forall|j: int|
                        0 <= j < old(self).data_bitmap@.len() ==> old(self).data_bitmap@[j]
                    &&& final(self).data_bitmap@ == old(self).data_bitmap@
                },
            },
    {
        let r = self.data_bitmap.alloc_bit();
        proof {
            Self::lemma_wf_frame(self, old(self));
        }
        match r {
            Some(i) => Some(i as u32),
            None => None,
        }
    }

    /// Frees data block `block_id`, which must be allocated and held by no inode.
    pub fn dealloc_data(&mut self, block_id: u32)
        requires
            old(self).wf(),
            block_id < old(self).data_bitmap@.len(),
            old(self).data_bitmap@[block_id as int],
            forall|k: int, t: bool, i: int|
                old(self).slot(k, t, i) ==> #[trigger] old(self).owned(k, t, i) != block_id,
        ensures
            final(self).wf(),
            final(self).inodes@ == old(self).inodes@,
            final(self).data@ == old(self).data@,
            final(self).same_geometry(old(self)),
            final(self).data_bitmap@ == old(self).data_bitmap@.update(block_id as int, false),
    {
        self.data_bitmap.dealloc_bit(block_id as usize);
        assert forall|k: int, t: bool, j: int| self.slot(k, t, j) implies {
            &&& #[trigger] self.owned(k, t, j) < self.data_bitmap@.len()
            &&& self.data_bitmap@[self.owned(k, t, j) as int]
        } by {
            assert(old(self).slot(k, t, j) && old(self).owned(k, t, j) == self.owned(k, t, j));
            assert(old(self).owned(k, t, j) != block_id);
        }
        assert forall|k1: int, t1: bool, i1: int, k2: int, t2: bool, i2: int|
            self.slot(k1, t1, i1) && self.slot(k2, t2, i2) && #[trigger] self.owned(k1, t1, i1)
                == #[trigger] self.owned(k2, t2, i2) implies k1 == k2 && t1 == t2 && i1 == i2 by {
            assert(old(self).slot(k1, t1, i1) && old(self).owned(k1, t1, i1) == self.owned(k1, t1, i1));
            assert(old(self).slot(k2, t2, i2) && old(self).owned(k2, t2, i2) == self.owned(k2, t2, i2));
        }
        assert forall|k: int| 0 <= k < self.inodes@.len() implies (#[trigger] self.inodes@[k]).wf() by {
            assert(old(self).inodes@[k].wf());
        }
    }

    /// Makes inode `id` a fresh inode of the given kind: empty, with one link.
    pub fn initialize_inode(&mut self, id: u32, type_: DiskInodeType)
        requires
            old(self).wf(),
            id < old(self).inodes@.len(),
        ensures
            final(self).wf(),
            final(self).data@ == old(self).data@,
            final(self).data_bitmap@ == old(self).data_bitmap@,
            final(self).same_geometry(old(self)),
            final(self).inodes@[id as int].size == 0,
            final(self).inodes@[id as int].type_ == type_,
            final(self).inodes@[id as int].nlink == 1,
            final(self).others_kept(old(self), id as int),
    {
        let di = DiskInode::initialize(type_);
        self.inodes.set(id as usize, di);
        assert forall|k: int, t: bool, j: int| self.slot(k, t, j) implies {
            &&& #[trigger] self.owned(k, t, j) < self.data_bitmap@.len()
            &&& self.data_bitmap@[self.owned(k, t, j) as int]
        } by {
            assert(old(self).slot(k, t, j) && old(self).owned(k, t, j) == self.owned(k, t, j));
        }
        assert forall|k1: int, t1: bool, i1: int, k2: int, t2: bool, i2: int|
            self.slot(k1, t1, i1) && self.slot(k2, t2, i2) && #[trigger] self.owned(k1, t1, i1)
                == #[trigger] self.owned(k2, t2, i2) implies k1 == k2 && t1 == t2 && i1 == i2 by {
            assert(old(self).slot(k1, t1, i1) && old(self).owned(k1, t1, i1) == self.owned(k1, t1, i1));
            assert(old(self).slot(k2, t2, i2) && old(self).owned(k2, t2, i2) == self.owned(k2, t2, i2));
        }
    }

    /// Grows inode `k` to `new_size`, taking from the data bitmap exactly the
    /// blocks, data and index, that the growth needs. When the data area has
    /// too few free blocks, returns false and leaves the volume as it was.
    #[verifier::rlimit(60)]
    pub fn increase_size(&mut self, k: u32, new_size: u32) -> (r: bool)
        requires
            old(self).wf(),
            k < old(self).inodes@.len(),
            old(self).inodes@[k as int].size <= new_size <= MAX_FILE_SIZE,
        ensures
            final(self).wf(),
            final(self).data@ == old(self).data@,
            final(self).same_geometry(old(self)),
            r ==> {
                let t = taken(old(self).inodes@[k as int], final(self).inodes@[k as int]);
                &&& final(self).inodes@[k as int].size == new_size
                &&& t.len() == total_blocks_of(new_size as int) - total_blocks_of(
                    old(self).inodes@[k as int].size as int,
                )
                &&& takes(old(self).data_bitmap@, t, final(self).data_bitmap@)
                &&& final(self).inodes@[k as int].data_ids@.subrange(
                    0,
                    old(self).inodes@[k as int].data_ids@.len() as int,
                ) == old(self).inodes@[k as int].data_ids@
                &&& final(self).inodes@[k as int].index_ids@.subrange(
                    0,
                    old(self).inodes@[k as int].index_ids@.len() as int,
                ) == old(self).inodes@[k as int].index_ids@
                &&& final(self).inodes@[k as int].type_ == old(self).inodes@[k as int].type_
                &&& final(self).inodes@[k as int].nlink == old(self).inodes@[k as int].nlink
                &&& forall|j: int|
                    0 <= j < old(self).inodes@[k as int].size ==> #[trigger] final(self).content(
                        k as int,
                    )[j] == old(self).content(k as int)[j]
                &&& final(self).others_kept(old(self), k as int)
            },
            !r ==> {
                &&& final(self).inodes@ == old(self).inodes@
                &&& final(self).data_bitmap@ == old(self).data_bitmap@
                &&& free_count(old(self).data_bitmap@) < total_blocks_of(new_size as int)
                    - total_blocks_of(old(self).inodes@[k as int].size as int)
            },
    {
        let needed = self.inodes[k as usize].blocks_num_needed(new_size) as usize;
        let ghost bm0 = self.data_bitmap@;
        let mut v: Vec<u32> = Vec::new();
        while v.len() < needed
            invariant
                self.wf(),
                old(self).wf(),
                k < old(self).inodes@.len(),
                needed == total_blocks_of(new_size as int) - total_blocks_of(
                    old(self).inodes@[k as int].size as int,
                ),
                self.inodes@ == old(self).inodes@,
                self.data@ == old(self).data@,
                self.same_geometry(old(self)),
                bm0 == old(self).data_bitmap@,
                v@.len() <= needed,
                free_count(self.data_bitmap@) + v@.len() == free_count(bm0),
                forall|j: int| 0 <= j < v@.len() ==> v@[j] < bm0.len() && !bm0[v@[j] as int],
                distinct_ids(v@),
                forall|x: int|
                    0 <= x < bm0.len() ==> #[trigger] self.data_bitmap@[x] == (bm0[x]
                        || v@.contains(x as u32)),
            decreases needed - v@.len(),
        {
            let ghost bprev = self.data_bitmap@;
            match self.alloc_data() {
                Some(id) => {
                    proof {
                        lemma_free_count_set(bprev, id as int);
                    }
                    let ghost prev = v@;
                    v.push(id);
                    assert forall|x: int|
                        0 <= x < bm0.len() implies #[trigger] self.data_bitmap@[x] == (bm0[x]
                            || v@.contains(x as u32)) by {
                        if x == id as int {
                            assert(v@[prev.len() as int] == id);
                        } else {
                            assert(v@.contains(x as u32) == prev.contains(x as u32)) by {
                                if prev.contains(x as u32) {
                                    let w = choose|w: int| 0 <= w < prev.len() && prev[w] == x as u32;
                                    assert(v@[w] == x as u32);
                                }
                                if v@.contains(x as u32) {
                                    let w = choose|w: int| 0 <= w < v@.len() && v@[w] == x as u32;
                                    assert(w < prev.len());
                                    assert(prev[w] == x as u32);
                                }
                            }
                        }
                    }
                },
                None => {
                    proof {
                        lemma_free_count_full(bprev);
                    }
                    assert(v@.subrange(0, v@.len() as int) =~= v@);
                    let mut j: usize = 0;
                    while j < v.len()
                        invariant
                            self.wf(),
                            self.inodes@ == old(self).inodes@,
                            self.data@ == old(self).data@,
                            self.same_geometry(old(self)),
                            bm0 == old(self).data_bitmap@,
                            old(self).wf(),
                            j <= v@.len(),
                            forall|i: int| 0 <= i < v@.len() ==> v@[i] < bm0.len() && !bm0[v@[i] as int],
                            distinct_ids(v@),
                            forall|x: int|
                                0 <= x < bm0.len() ==> #[trigger] self.data_bitmap@[x] == (bm0[x]
                                    || v@.subrange(j as int, v@.len() as int).contains(x as u32)),
                        decreases v@.len() - j,
                    {
                        let id = v[j];
                        assert(v@.subrange(j as int, v@.len() as int)[0] == id);
                        proof {
                            assert forall|k2: int, t: bool, i: int|
                                self.slot(k2, t, i) implies #[trigger] self.owned(k2, t, i) != id by {
                                assert(old(self).slot(k2, t, i) && old(self).owned(k2, t, i) == self.owned(k2, t, i));
                            }
                        }
                        let ghost prev = self.data_bitmap@;
                        self.dealloc_data(id);
                        assert forall|x: int|
                            0 <= x < bm0.len() implies #[trigger] self.data_bitmap@[x] == (bm0[x]
                                || v@.subrange(j + 1, v@.len() as int).contains(x as u32)) by {
                            let tail = v@.subrange(j as int, v@.len() as int);
                            let rest = v@.subrange(j + 1, v@.len() as int);
                            if rest.contains(x as u32) {
                                let w = choose|w: int| 0 <= w < rest.len() && rest[w] == x as u32;
                                assert(tail[w + 1] == x as u32);
                                assert(v@[j + 1 + w] != v@[j as int]);
                            }
                            if x != id as int && tail.contains(x as u32) {
                                let w = choose|w: int| 0 <= w < tail.len() && tail[w] == x as u32;
                                assert(w != 0);
                                assert(rest[w - 1] == x as u32);
                            }
                            assert(prev[x] == (bm0[x] || tail.contains(x as u32)));
                        }
                        j = j + 1;
                    }
                    assert(self.data_bitmap@ =~= bm0) by {
                        assert forall|x: int| 0 <= x < bm0.len() implies self.data_bitmap@[x] == bm0[x] by {
                            assert(self.data_bitmap@[x] == (bm0[x]
                                || v@.subrange(j as int, v@.len() as int).contains(x as u32)));
                        }
                    }
                    return false;
                },
            }
        }
        let ghost mid = *self;
        let ghost vs = v@;
        let ghost dd = data_blocks_of(new_size as int) - data_blocks_of(
            old(self).inodes@[k as int].size as int,
        );
        proof {
            lemma_total_blocks_monotone(old(self).inodes@[k as int].size as int, new_size as int);
        }
        let ghost d_old = old(self).inodes@[k as int];
        self.inodes[k as usize].increase_size(new_size, v);
        proof {
            let d_new = self.inodes@[k as int];
            assert(vs.subrange(0, dd) + vs.subrange(dd, vs.len() as int) =~= vs);
            assert(d_new.data_ids@.skip(d_old.data_ids@.len() as int) =~= vs.subrange(0, dd));
            assert(d_new.index_ids@.skip(d_old.index_ids@.len() as int) =~= vs.subrange(dd, vs.len() as int));
            assert(taken(d_old, d_new) =~= vs);
            assert(free_count(self.data_bitmap@) + vs.len() == free_count(bm0));
            assert(d_new.data_ids@.subrange(0, d_old.data_ids@.len() as int) =~= d_old.data_ids@);
            assert(d_new.index_ids@.subrange(0, d_old.index_ids@.len() as int) =~= d_old.index_ids@);
        }
        assert forall|j: int| 0 <= j < self.inodes@.len() && j != k implies #[trigger] self.inodes@[j]
            == old(self).inodes@[j] by {}
        let ghost ki = k as int;
        // The invariant: each block is either one the inode held before, or a new one.
        assert forall|k2: int, t: bool, i: int| self.slot(k2, t, i) implies {
            &&& #[trigger] self.owned(k2, t, i) < self.data_bitmap@.len()
            &&& self.data_bitmap@[self.owned(k2, t, i) as int]
        } by {
            if mid.slot(k2, t, i) {
                assert(mid.owned(k2, t, i) == self.owned(k2, t, i));
            } else {
                assert(k2 == ki);
                if t {
                    assert(self.owned(k2, t, i) == vs[i - mid.ids_of(k2, t).len()]);
                } else {
                    assert(self.owned(k2, t, i) == vs[dd + i - mid.ids_of(k2, t).len()]);
                }
            }
        }
        assert forall|k1: int, t1: bool, i1: int, k2: int, t2: bool, i2: int|
            self.slot(k1, t1, i1) && self.slot(k2, t2, i2) && #[trigger] self.owned(k1, t1, i1)
                == #[trigger] self.owned(k2, t2, i2) implies k1 == k2 && t1 == t2 && i1 == i2 by {
            let m1 = if t1 { i1 - mid.ids_of(k1, t1).len() } else { dd + i1 - mid.ids_of(k1, t1).len() };
            let m2 = if t2 { i2 - mid.ids_of(k2, t2).len() } else { dd + i2 - mid.ids_of(k2, t2).len() };
            if mid.slot(k1, t1, i1) {
                assert(mid.owned(k1, t1, i1) == self.owned(k1, t1, i1));
                assert(old(self).slot(k1, t1, i1) && old(self).owned(k1, t1, i1) == mid.owned(k1, t1, i1));
                assert(bm0[mid.owned(k1, t1, i1) as int]);
            } else {
                assert(k1 == ki);
                assert(self.owned(k1, t1, i1) == vs[m1]);
            }
            if mid.slot(k2, t2, i2) {
                assert(mid.owned(k2, t2, i2) == self.owned(k2, t2, i2));
                assert(old(self).slot(k2, t2, i2) && old(self).owned(k2, t2, i2) == mid.owned(k2, t2, i2));
                assert(bm0[mid.owned(k2, t2, i2) as int]);
            } else {
                assert(k2 == ki);
                assert(self.owned(k2, t2, i2) == vs[m2]);
            }
        }
        assert forall|j: int| 0 <= j < self.inodes@.len() implies (#[trigger] self.inodes@[j]).wf() by {
            if j != ki {
                assert(old(self).inodes@[j].wf());
            }
        }
        assert forall|j: int|
            0 <= j < old(self).inodes@[k as int].size implies #[trigger] self.content(k as int)[j]
            == old(self).content(k as int)[j] by {
            let s0 = old(self).inodes@[ki].size as int;
            vstd::arithmetic::div_mod::lemma_fundamental_div_mod(s0 + 511, 512);
            vstd::arithmetic::div_mod::lemma_div_is_ordered(j, s0 + 511, 512);
            vstd::arithmetic::div_mod::lemma_div_is_ordered(0, j, 512);
            vstd::arithmetic::div_mod::lemma_fundamental_div_mod(self.inodes@[ki].size as int + 511, 512);
            vstd::arithmetic::div_mod::lemma_div_is_ordered(s0, new_size as int, 512);
        }
        true
    }

    /// Copies `buf` into inode `k` from `offset`, clipped to its size; returns
    /// how many bytes were written. No other inode's content changes.
    pub fn write_data(&mut self, k: u32, offset: usize, buf: &[u8]) -> (r: usize)
        requires
            old(self).wf(),
            k < old(self).inodes@.len(),
        ensures
            final(self).wf(),
            final(self).inodes@ == old(self).inodes@,
            final(self).data_bitmap@ == old(self).data_bitmap@,
            final(self).same_geometry(old(self)),
            r == (if offset >= old(self).inodes@[k as int].size { 0 } else if buf@.len()
                <= old(self).inodes@[k as int].size - offset {
                buf@.len() as int
            } else {
                old(self).inodes@[k as int].size - offset
            }),
            final(self).content(k as int) == overwrite(
                old(self).content(k as int),
                offset as int,
                buf@.subrange(0, r as int),
            ),
            final(self).others_kept(old(self), k as int),
    {
        proof {
            self.lemma_inode_wf_in(k as int);
        }
        let r = self.inodes[k as usize].write_at(offset, buf, &mut self.data);
        proof {
            Self::lemma_wf_frame(self, old(self));
            let ki = k as int;
            let idk = self.inodes@[ki].data_ids@;
            assert forall|j: int|
                0 <= j < self.inodes@.len() && j != ki implies #[trigger] self.inodes@[j]
                == old(self).inodes@[j] && self.content(j) == old(self).content(j) by {
                old(self).lemma_inode_wf_in(j);
                let idj = self.inodes@[j].data_ids@;
                assert forall|p: int| 0 <= p < self.inodes@[j].size implies self.content(j)[p]
                    == old(self).content(j)[p] by {
                    let s0 = self.inodes@[j].size as int;
                    vstd::arithmetic::div_mod::lemma_fundamental_div_mod(s0 + 511, 512);
                    lemma_byte_addr(idj, p, p);
                    let a = byte_addr(idj, p);
                    assert((idj[p / 512] as int + 1) * 512 <= old(self).data@.len());
                    if self.data@[a] != old(self).data@[a] {
                        assert(in_blocks(idk, a));
                        let w = choose|w: int|
                            0 <= w < idk.len() && #[trigger] idk[w] as int * 512 <= a < idk[w] as int
                                * 512 + 512;
                        lemma_one_block(idk[w] as int, idj[p / 512] as int, a);
                        assert(old(self).slot(ki, true, w) && old(self).slot(j, true, p / 512));
                        assert(old(self).owned(ki, true, w) == old(self).owned(j, true, p / 512));
                    }
                }
                assert(self.content(j) =~= old(self).content(j));
            }
        }
        r
    }

    /// Copies bytes of inode `k` from `offset` into `buf`, clipped to its
    /// size; returns how many were copied.
    pub fn read_data(&self, k: u32, offset: usize, buf: &mut [u8]) -> (r: usize)
        requires
            self.wf(),
            k < self.inodes@.len(),
        ensures
            r == (if offset >= self.inodes@[k as int].size { 0 } else if old(buf)@.len()
                <= self.inodes@[k as int].size - offset {
                old(buf)@.len() as int
            } else {
                self.inodes@[k as int].size - offset
            }),
            final(buf)@.len() == old(buf)@.len(),
            forall|j: int| 0 <= j < r ==> final(buf)@[j] == self.content(k as int)[offset + j],
            final(buf)@.subrange(r as int, old(buf)@.len() as int) == old(buf)@.subrange(
                r as int,
                old(buf)@.len() as int,
            ),
    {
        proof {
            self.lemma_inode_wf_in(k as int);
        }
        self.inodes[k as usize].read_at(offset, buf, &self.data)
    }

    /// Empties inode `k` and frees every block it held, data and index;
    /// returns how many blocks were freed.
    pub fn clear_blocks(&mut self, k: u32) -> (r: usize)
        requires
            old(self).wf(),
            k < old(self).inodes@.len(),
        ensures
            final(self).wf(),
            final(self).data@ == old(self).data@,
            final(self).same_geometry(old(self)),
            final(self).inodes@[k as int].size == 0,
            final(self).inodes@[k as int].type_ == old(self).inodes@[k as int].type_,
            final(self).inodes@[k as int].nlink == old(self).inodes@[k as int].nlink,
            final(self).others_kept(old(self), k as int),
            r == total_blocks_of(old(self).inodes@[k as int].size as int),
            forall|m: int|
                0 <= m < old(self).inodes@[k as int].all_ids().len() ==> !final(self).data_bitmap@[
                    #[trigger] old(self).inodes@[k as int].all_ids()[m] as int],
            forall|x: int|
                0 <= x < old(self).data_bitmap@.len() && !old(self).inodes@[k as int].all_ids().contains(
                    x as u32,
                ) ==> #[trigger] final(self).data_bitmap@[x] == old(self).data_bitmap@[x],
    {
        let ghost ki = k as int;
        let ghost dl = old(self).inodes@[ki].data_ids@.len() as int;
        let freed = self.inodes[k as usize].clear_size();
        assert forall|j: int| 0 <= j < self.inodes@.len() && j != ki implies #[trigger] self.inodes@[j]
            == old(self).inodes@[j] by {}
        // Entry `m` of the freed list was block `m` (or `m - dl` of the index
        // blocks) of inode `k`.
        assert forall|m: int| 0 <= m < freed@.len() implies #[trigger] freed@[m] == (if m < dl {
            old(self).owned(ki, true, m)
        } else {
            old(self).owned(ki, false, m - dl)
        }) && (if m < dl { old(self).slot(ki, true, m) } else { old(self).slot(ki, false, m - dl) }) by {}
        let ghost mid = *self;
        let ghost bm0 = self.data_bitmap@;
        proof {
            assert forall|k2: int, t: bool, j: int| mid.slot(k2, t, j) implies {
                &&& #[trigger] mid.owned(k2, t, j) < mid.data_bitmap@.len()
                &&& mid.data_bitmap@[mid.owned(k2, t, j) as int]
            } by {
                assert(old(self).slot(k2, t, j) && old(self).owned(k2, t, j) == mid.owned(k2, t, j));
            }
            assert forall|k1: int, t1: bool, i1: int, k2: int, t2: bool, i2: int|
                mid.slot(k1, t1, i1) && mid.slot(k2, t2, i2) && #[trigger] mid.owned(k1, t1, i1)
                    == #[trigger] mid.owned(k2, t2, i2) implies k1 == k2 && t1 == t2 && i1 == i2 by {
                assert(old(self).slot(k1, t1, i1) && old(self).owned(k1, t1, i1) == mid.owned(k1, t1, i1));
                assert(old(self).slot(k2, t2, i2) && old(self).owned(k2, t2, i2) == mid.owned(k2, t2, i2));
            }
            assert forall|j: int| 0 <= j < mid.inodes@.len() implies (#[trigger] mid.inodes@[j]).wf() by {
                if j != ki {
                    assert(old(self).inodes@[j].wf());
                }
            }
        }
        let mut i: usize = 0;
        while i < freed.len()
            invariant
                old(self).wf(),
                self.wf(),
                k < old(self).inodes@.len(),
                self.inodes@ == mid.inodes@,
                self.data@ == mid.data@,
                self.same_geometry(&mid),
                bm0 == old(self).data_bitmap@,
                mid.same_geometry(old(self)),
                k < mid.inodes@.len(),
                mid.inodes@[ki].data_ids@.len() == 0,
                mid.inodes@[ki].index_ids@.len() == 0,
                forall|j: int|
                    0 <= j < mid.inodes@.len() && j != ki ==> #[trigger] mid.inodes@[j]
                        == old(self).inodes@[j],
                freed@ == old(self).inodes@[ki].all_ids(),
                dl == old(self).inodes@[ki].data_ids@.len(),
                i <= freed@.len(),
                forall|m: int| 0 <= m < freed@.len() ==> #[trigger] freed@[m] == (if m < dl {
                    old(self).owned(ki, true, m)
                } else {
                    old(self).owned(ki, false, m - dl)
                }) && (if m < dl { old(self).slot(ki, true, m) } else { old(self).slot(ki, false, m - dl) }),
                forall|m: int| 0 <= m < i ==> !self.data_bitmap@[#[trigger] freed@[m] as int],
                forall|x: int|
                    0 <= x < bm0.len() && !freed@.subrange(0, i as int).contains(x as u32)
                        ==> #[trigger] self.data_bitmap@[x] == bm0[x],
            decreases freed@.len() - i,
        {
            let id = freed[i];
            proof {
                let ii = i as int;
                assert(freed@[ii] == id);
                // Still allocated: no earlier entry of the list is the same block.
                assert(!freed@.subrange(0, ii).contains(id)) by {
                    if freed@.subrange(0, ii).contains(id) {
                        let w = choose|w: int| 0 <= w < ii && freed@.subrange(0, ii)[w] == id;
                        assert(freed@[w] == id);
                        let tw = w < dl;
                        let iw = if w < dl { w } else { w - dl };
                        let ti = ii < dl;
                        let iii = if ii < dl { ii } else { ii - dl };
                        assert(old(self).owned(ki, tw, iw) == old(self).owned(ki, ti, iii));
                    }
                }
                let ti = ii < dl;
                let iii = if ii < dl { ii } else { ii - dl };
                assert(old(self).slot(ki, ti, iii));
                assert(old(self).owned(ki, ti, iii) == id);
                assert(bm0[id as int]);
                assert forall|k2: int, t: bool, j: int| self.slot(k2, t, j) implies #[trigger] self.owned(
                    k2,
                    t,
                    j,
                ) != id by {
                    assert(k2 != ki);
                    assert(old(self).slot(k2, t, j) && old(self).owned(k2, t, j) == self.owned(k2, t, j));
                }
            }
            let ghost prev = self.data_bitmap@;
            self.dealloc_data(id);
            proof {
                let ii = i as int;
                assert forall|x: int|
                    0 <= x < bm0.len() && !freed@.subrange(0, ii + 1).contains(x as u32)
                        implies #[trigger] self.data_bitmap@[x] == bm0[x] by {
                    assert(freed@.subrange(0, ii + 1)[ii] == id);
                    if freed@.subrange(0, ii).contains(x as u32) {
                        let w = choose|w: int| 0 <= w < ii && freed@.subrange(0, ii)[w] == x as u32;
                        assert(freed@.subrange(0, ii + 1)[w] == x as u32);
                    }
                }
                assert forall|m: int| 0 <= m < ii + 1 implies !self.data_bitmap@[#[trigger] freed@[m] as int] by {
                    if m < ii {
                        assert(!prev[freed@[m] as int]);
                    }
                }
            }
            i = i + 1;
        }
        proof {
            assert forall|x: int|
                0 <= x < bm0.len() && !old(self).inodes@[ki].all_ids().contains(x as u32)
                    implies #[trigger] self.data_bitmap@[x] == bm0[x] by {
                assert(freed@.subrange(0, i as int) =~= freed@);
            }
            assert forall|j: int|
                0 <= j < self.inodes@.len() && j != ki implies #[trigger] self.inodes@[j]
                == old(self).inodes@[j] && self.content(j) == old(self).content(j) by {}
        }
        freed.len()
    }

    /// Frees inode number `id`, which must be in use.
    pub fn dealloc_inode(&mut self, id: u32)
        requires
            old(self).wf(),
            id < old(self).inodes@.len(),
            old(self).inode_used(id as int),
        ensures
            final(self).wf(),
            final(self).inode_bitmap@ == old(self).inode_bitmap@.update(id as int, false),
            final(self).super_block == old(self).super_block,
            final(self).inode_area_start_block == old(self).inode_area_start_block,
            final(self).data_area_start_block == old(self).data_area_start_block,
            final(self).inodes@ == old(self).inodes@,
            final(self).data@ == old(self).data@,
            final(self).data_bitmap@ == old(self).data_bitmap@,
    {
        self.inode_bitmap.dealloc_bit(id as usize);
        proof {
            Self::lemma_wf_frame(self, old(self));
        }
    }

    /// Sets the link count of inode `k`.
    pub fn set_nlink(&mut self, k: u32, nlink: u32)
        requires
            old(self).wf(),
            k < old(self).inodes@.len(),
        ensures
            final(self).wf(),
            final(self).data@ == old(self).data@,
            final(self).data_bitmap@ == old(self).data_bitmap@,
            final(self).same_geometry(old(self)),
            final(self).inodes@[k as int].nlink == nlink,
            final(self).inodes@[k as int].size == old(self).inodes@[k as int].size,
            final(self).inodes@[k as int].type_ == old(self).inodes@[k as int].type_,
            final(self).inodes@[k as int].data_ids == old(self).inodes@[k as int].data_ids,
            final(self).inodes@[k as int].index_ids == old(self).inodes@[k as int].index_ids,
            final(self).content(k as int) == old(self).content(k as int),
            final(self).others_kept(old(self), k as int),
    {
        self.inodes[k as usize].nlink = nlink;
        assert(self.content(k as int) =~= old(self).content(k as int));
        assert forall|k2: int, t: bool, j: int| self.slot(k2, t, j) implies {
            &&& #[trigger] self.owned(k2, t, j) < self.data_bitmap@.len()
            &&& self.data_bitmap@[self.owned(k2, t, j) as int]
        } by {
            assert(old(self).slot(k2, t, j) && old(self).owned(k2, t, j) == self.owned(k2, t, j));
        }
        assert forall|k1: int, t1: bool, i1: int, k2: int, t2: bool, i2: int|
            self.slot(k1, t1, i1) && self.slot(k2, t2, i2) && #[trigger] self.owned(k1, t1, i1)
                == #[trigger] self.owned(k2, t2, i2) implies k1 == k2 && t1 == t2 && i1 == i2 by {
            assert(old(self).slot(k1, t1, i1) && old(self).owned(k1, t1, i1) == self.owned(k1, t1, i1));
            assert(old(self).slot(k2, t2, i2) && old(self).owned(k2, t2, i2) == self.owned(k2, t2, i2));
        }
        assert forall|j: int| 0 <= j < self.inodes@.len() implies (#[trigger] self.inodes@[j]).wf() by {
            assert(old(self).inodes@[j].wf());
        }
        assert forall|j: int|
            0 <= j < self.inodes@.len() && j != k implies #[trigger] self.inodes@[j]
            == old(self).inodes@[j] && self.content(j) == old(self).content(j) by {}
    }
}

} // verus!
