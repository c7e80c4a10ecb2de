//! A write-back cache of device blocks. A bounded queue of cached blocks,
//! oldest first; a block missing from the cache is fetched on first use, and
//! when the cache is full the oldest block is dropped, written back first if
//! it was modified.
use vstd::prelude::*;
use crate::layout::{BLOCK_SZ, overwrite};

verus! {

/// Blocks the cache holds at most.
pub const BLOCK_CACHE_SIZE: usize = 16;

/// A block device held in memory: whole blocks of `BLOCK_SZ` bytes.
pub struct BlockDevice {
    blocks: Vec<Vec<u8>>,
}

impl View for BlockDevice {
    type V = Seq<Seq<u8>>;

    closed spec fn view(&self) -> Seq<Seq<u8>> {
        Seq::new(self.blocks@.len(), |i: int| self.blocks@[i]@)
    }
}

impl BlockDevice {
    /// Every block is `BLOCK_SZ` bytes.
    pub open spec fn wf(&self) -> bool {
        forall|i: int| 0 <= i < self@.len() ==> (#[trigger] self@[i]).len() == BLOCK_SZ
    }

    /// A device of `n` zeroed blocks.
    pub fn new(n: usize) -> (r: BlockDevice)
        ensures
            r.wf(),
            r@.len() == n,
            forall|i: int| 0 <= i < n ==> #[trigger] r@[i] == Seq::new(BLOCK_SZ as nat, |j: int| 0u8),
    {
        let mut blocks: Vec<Vec<u8>> = Vec::new();
        while blocks.len() < n
            invariant
                blocks@.len() <= n,
                forall|i: int| 0 <= i < blocks@.len() ==> (#[trigger] blocks@[i])@ == Seq::new(BLOCK_SZ as nat, |j: int| 0u8),
            decreases n - blocks@.len(),
        {
            let mut b: Vec<u8> = Vec::new();
            while b.len() < BLOCK_SZ
                invariant
                    b@.len() <= BLOCK_SZ,
                    forall|j: int| 0 <= j < b@.len() ==> b@[j] == 0u8,
                decreases BLOCK_SZ - b@.len(),
            {
                b.push(0u8);
            }
            assert(b@ =~= Seq::new(BLOCK_SZ as nat, |j: int| 0u8));
            blocks.push(b);
        }
        BlockDevice { blocks }
    }

    /// Number of blocks.
    pub fn num_blocks(&self) -> (r: usize)
        ensures
            r == self@.len(),
    {
        self.blocks.len()
    }

    /// A copy of block `block_id`.
    pub fn read_block(&self, block_id: usize) -> (r: Vec<u8>)
        requires
            block_id < self@.len(),
        ensures
            r@ == self@[block_id as int],
    {
        self.blocks[block_id].clone()
    }

    /// Replaces block `block_id` with `data`, which must be a whole block.
    pub fn write_block(&mut self, block_id: usize, data: Vec<u8>)
        requires
            old(self).wf(),
            block_id < old(self)@.len(),
            data@.len() == BLOCK_SZ,
        ensures
            final(self).wf(),
            final(self)@ == old(self)@.update(block_id as int, data@),
    {
        let ghost d = data@;
        self.blocks.set(block_id, data);
        assert(self@ =~= old(self)@.update(block_id as int, d));
    }
}

/// A cached block: its id, its bytes, and whether they differ from the device.
pub struct CacheEntry {
    pub block_id: usize,
    pub data: Vec<u8>,
    pub dirty: bool,
}

/// The cache. Entries are kept oldest first.
pub struct BlockCacheManager {
    pub entries: Vec<CacheEntry>,
}

impl BlockCacheManager {
    /// Whether block `b` is cached.
    pub open spec fn cached(&self, b: int) -> bool {
        exists|i: int| 0 <= i < self.entries@.len() && #[trigger] self.entries@[i].block_id == b
    }

    /// Contents of block `b` as seen through the cache.
    pub open spec fn block(&self, dev: Seq<Seq<u8>>, b: int) -> Seq<u8> {
        if self.cached(b) {
            let i = choose|i: int|
                0 <= i < self.entries@.len() && #[trigger] self.entries@[i].block_id == b;
            self.entries@[i].data@
        } else {
            dev[b]
        }
    }

    /// The device as seen through the cache.
    pub open spec fn view_of(&self, dev: Seq<Seq<u8>>) -> Seq<Seq<u8>> {
        Seq::new(dev.len(), |b: int| self.block(dev, b))
    }

    /// At most `BLOCK_CACHE_SIZE` entries, for distinct blocks of the device,
    /// each a whole block; an entry not marked dirty matches the device.
    pub open spec fn wf(&self, dev: Seq<Seq<u8>>) -> bool {
        &&& self.entries@.len() <= BLOCK_CACHE_SIZE
        &&& forall|i: int|
            0 <= i < self.entries@.len() ==> {
                &&& (#[trigger] self.entries@[i]).block_id < dev.len()
                &&& self.entries@[i].data@.len() == BLOCK_SZ
                &&& !self.entries@[i].dirty ==> self.entries@[i].data@ == dev[self.entries@[i].block_id as int]
            }
        &&& forall|i: int, j: int|
            0 <= i < self.entries@.len() && 0 <= j < self.entries@.len() && i != j ==> (#[trigger] self.entries@[i]).block_id
                != (#[trigger] self.entries@[j]).block_id
    }

    /// The entry of a cached block is the one `block` reads.
    pub proof fn lemma_block_at(&self, dev: Seq<Seq<u8>>, i: int)
        requires
            self.wf(dev),
            0 <= i < self.entries@.len(),
        ensures
            self.cached(self.entries@[i].block_id as int),
            self.block(dev, self.entries@[i].block_id as int) == self.entries@[i].data@,
    {
        let b = self.entries@[i].block_id as int;
        assert(self.entries@[i].block_id == b);
    }

    /// An empty cache.
    pub fn new() -> (r: BlockCacheManager)
        ensures
            r.entries@.len() == 0,
            forall|dev: Seq<Seq<u8>>| #[trigger] r.wf(dev),
    {
        BlockCacheManager { entries: Vec::new() }
    }

    /// Position of block `block_id` in the cache, if cached.
    fn position(&self, block_id: usize) -> (r: Option<usize>)
        ensures
            match r {
                Some(i) => i < self.entries@.len() && self.entries@[i as int].block_id == block_id,
                None => forall|i: int| 0 <= i < self.entries@.len() ==> #[trigger] self.entries@[i].block_id != block_id,
            },
    {
        let mut i: usize = 0;
        while i < self.entries.len()
            invariant
                i <= self.entries@.len(),
                forall|j: int| 0 <= j < i ==> #[trigger] self.entries@[j].block_id != block_id,
            decreases self.entries@.len() - i,
        {
            if self.entries[i].block_id == block_id {
                return Some(i);
            }
            i = i + 1;
        }
        None
    }

    /// Brings block `block_id` into the cache and returns its position. When
    /// the cache is full, the oldest entry leaves first, written back if
    /// dirty. What the cache shows of the device does not change.
    pub fn get_block_cache(&mut self, dev: &mut BlockDevice, block_id: usize) -> (r: usize)
        requires
            old(dev).wf(),
            old(self).wf(old(dev)@),
            block_id < old(dev)@.len(),
        ensures
            final(dev).wf(),
            final(self).wf(final(dev)@),
            final(dev)@.len() == old(dev)@.len(),
            final(self).view_of(final(dev)@) == old(self).view_of(old(dev)@),
            r < final(self).entries@.len(),
            final(self).entries@[r as int].block_id == block_id,
    {
        if let Some(i) = self.position(block_id) {
            return i;
        }
        let ghost v0 = self.view_of(dev@);
        if self.entries.len() == BLOCK_CACHE_SIZE {
            let ghost es = self.entries@;
            let ghost d0 = dev@;
            let e = self.entries.remove(0);
            let ghost ed = e.data@;
            proof {
                old(self).lemma_block_at(d0, 0);
            }
            if e.dirty {
                dev.write_block(e.block_id, e.data);
            }
            proof {
                assert forall|i: int| 0 <= i < self.entries@.len() implies ({
                    &&& (#[trigger] self.entries@[i]).block_id < dev@.len()
                    &&& self.entries@[i].data@.len() == BLOCK_SZ
                    &&& !self.entries@[i].dirty ==> self.entries@[i].data@ == dev@[self.entries@[i].block_id as int]
                }) by {
                    assert(self.entries@[i] == es[i + 1]);
                    assert(es[i + 1].block_id != es[0].block_id);
                }
                assert forall|i: int, j: int|
                    0 <= i < self.entries@.len() && 0 <= j < self.entries@.len() && i != j implies (#[trigger] self.entries@[i]).block_id
                        != (#[trigger] self.entries@[j]).block_id by {
                    assert(self.entries@[i] == es[i + 1]);
                    assert(self.entries@[j] == es[j + 1]);
                }
                assert forall|b: int| 0 <= b < d0.len() implies self.block(dev@, b) == old(self).block(d0, b) by {
                    if b == es[0].block_id {
                        assert(!self.cached(b)) by {
                            if self.cached(b) {
                                let i = choose|i: int| 0 <= i < self.entries@.len() && #[trigger] self.entries@[i].block_id == b;
                                assert(self.entries@[i] == es[i + 1]);
                            }
                        }
                    } else if old(self).cached(b) {
                        let i = choose|i: int| 0 <= i < es.len() && #[trigger] es[i].block_id == b;
                        assert(i != 0);
                        assert(self.entries@[i - 1] == es[i]);
                        self.lemma_block_at(dev@, i - 1);
                        old(self).lemma_block_at(d0, i);
                    } else {
                        assert(!self.cached(b)) by {
                            if self.cached(b) {
                                let i = choose|i: int| 0 <= i < self.entries@.len() && #[trigger] self.entries@[i].block_id == b;
                                assert(self.entries@[i] == es[i + 1]);
                            }
                        }
                    }
                }
                assert(self.view_of(dev@) =~= v0);
            }
        }
        let data = dev.read_block(block_id);
        let ghost before = self.entries@;
        self.entries.push(CacheEntry { block_id, data, dirty: false });
        proof {
            let n = before.len() as int;
            assert forall|i: int, j: int|
                0 <= i < self.entries@.len() && 0 <= j < self.entries@.len() && i != j implies (#[trigger] self.entries@[i]).block_id
                    != (#[trigger] self.entries@[j]).block_id by {
                if i < n && j < n {
                    assert(self.entries@[i] == before[i] && self.entries@[j] == before[j]);
                } else if i < n {
                    assert(self.entries@[i] == before[i]);
                } else if j < n {
                    assert(self.entries@[j] == before[j]);
                }
            }
            assert forall|i: int| 0 <= i < self.entries@.len() implies ({
                &&& (#[trigger] self.entries@[i]).block_id < dev@.len()
                &&& self.entries@[i].data@.len() == BLOCK_SZ
                &&& !self.entries@[i].dirty ==> self.entries@[i].data@ == dev@[self.entries@[i].block_id as int]
            }) by {
                if i < n {
                    assert(self.entries@[i] == before[i]);
                }
            }
            assert forall|b: int| 0 <= b < dev@.len() implies self.block(dev@, b) == v0[b] by {
                if b == block_id {
                    self.lemma_block_at(dev@, n);
                } else if self.cached(b) {
                    let i = choose|i: int| 0 <= i < self.entries@.len() && #[trigger] self.entries@[i].block_id == b;
                    assert(i < n);
                    assert(self.entries@[i] == before[i]);
                    self.lemma_block_at(dev@, i);
                    assert(before[i].block_id == b);
                } else {
                    assert(forall|i: int| 0 <= i < n ==> #[trigger] before[i].block_id != b) by {
                        assert forall|i: int| 0 <= i < n implies #[trigger] before[i].block_id != b by {
                            assert(self.entries@[i] == before[i]);
                        }
                    }
                }
            }
            assert(self.view_of(dev@) =~= v0);
        }
        self.entries.len() - 1
    }

    /// Copies bytes `[offset, offset + buf.len())` of block `block_id`, as
    /// the cache shows it, into `buf`.
    pub fn read(&mut self, dev: &mut BlockDevice, block_id: usize, offset: usize, buf: &mut [u8])
        requires
            old(dev).wf(),
            old(self).wf(old(dev)@),
            block_id < old(dev)@.len(),
            offset + old(buf)@.len() <= BLOCK_SZ,
        ensures
            final(dev).wf(),
            final(self).wf(final(dev)@),
            final(self).view_of(final(dev)@) == old(self).view_of(old(dev)@),
            final(buf)@ == old(self).view_of(old(dev)@)[block_id as int].subrange(
                offset as int,
                offset + old(buf)@.len(),
            ),
    {
        let idx = self.get_block_cache(dev, block_id);
        proof {
            self.lemma_block_at(dev@, idx as int);
        }
        let ghost want = self.entries@[idx as int].data@.subrange(offset as int, offset + buf@.len());
        let mut j: usize = 0;
        while j < buf.len()
            invariant
                self.wf(dev@),
                idx < self.entries@.len(),
                offset + buf@.len() <= BLOCK_SZ,
                want == self.entries@[idx as int].data@.subrange(offset as int, offset + buf@.len()),
                buf@.len() == old(buf)@.len(),
                j <= buf@.len(),
                forall|k: int| 0 <= k < j ==> buf@[k] == want[k],
            decreases buf@.len() - j,
        {
            buf[j] = self.entries[idx].data[offset + j];
            j = j + 1;
        }
        assert(buf@ =~= want);
    }

    /// Writes `src` into block `block_id` at `offset`, in the cache; the
    /// block is marked dirty and reaches the device on eviction or sync.
    pub fn modify(&mut self, dev: &mut BlockDevice, block_id: usize, offset: usize, src: &[u8])
        requires
            old(dev).wf(),
            old(self).wf(old(dev)@),
            block_id < old(dev)@.len(),
            offset + src@.len() <= BLOCK_SZ,
        ensures
            final(dev).wf(),
            final(self).wf(final(dev)@),
            final(self).view_of(final(dev)@) == old(self).view_of(old(dev)@).update(
                block_id as int,
                overwrite(old(self).view_of(old(dev)@)[block_id as int], offset as int, src@),
            ),
    {
        let ghost v0 = self.view_of(dev@);
        let idx = self.get_block_cache(dev, block_id);
        proof {
            self.lemma_block_at(dev@, idx as int);
        }
        let ghost e0 = self.entries@;
        let ghost d0 = e0[idx as int].data@;
        let mut j: usize = 0;
        while j < src.len()
            invariant
                self.entries@.len() == e0.len(),
                idx < e0.len(),
                offset + src@.len() <= BLOCK_SZ,
                d0.len() == BLOCK_SZ,
                forall|i: int| 0 <= i < e0.len() && i != idx ==> #[trigger] self.entries@[i] == e0[i],
                self.entries@[idx as int].block_id == e0[idx as int].block_id,
                self.entries@[idx as int].dirty == e0[idx as int].dirty,
                self.entries@[idx as int].data@ == overwrite(d0, offset as int, src@.subrange(0, j as int)),
                j <= src@.len(),
            decreases src@.len() - j,
        {
            self.entries[idx].data.set(offset + j, src[j]);
            assert(self.entries@[idx as int].data@ =~= overwrite(d0, offset as int, src@.subrange(0, j + 1)));
            j = j + 1;
        }
        self.entries[idx].dirty = true;
        proof {
            assert(src@.subrange(0, src@.len() as int) =~= src@);
            assert forall|i: int| 0 <= i < self.entries@.len() implies ({
                &&& (#[trigger] self.entries@[i]).block_id < dev@.len()
                &&& self.entries@[i].data@.len() == BLOCK_SZ
                &&& !self.entries@[i].dirty ==> self.entries@[i].data@ == dev@[self.entries@[i].block_id as int]
            }) by {
                if i != idx {
                    assert(self.entries@[i] == e0[i]);
                }
            }
            assert forall|i: int, k: int|
                0 <= i < self.entries@.len() && 0 <= k < self.entries@.len() && i != k implies (#[trigger] self.entries@[i]).block_id
                    != (#[trigger] self.entries@[k]).block_id by {
                assert(self.entries@[i].block_id == e0[i].block_id);
                assert(self.entries@[k].block_id == e0[k].block_id);
            }
            assert forall|b: int| 0 <= b < dev@.len() implies self.block(dev@, b) == v0.update(
                block_id as int,
                overwrite(v0[block_id as int], offset as int, src@),
            )[b] by {
                self.lemma_block_at(dev@, idx as int);
                if b != block_id {
                    if self.cached(b) {
                        let i = choose|i: int| 0 <= i < self.entries@.len() && #[trigger] self.entries@[i].block_id == b;
                        assert(self.entries@[i] == e0[i]);
                        self.lemma_block_at(dev@, i);
                    } else {
                        assert forall|i: int| 0 <= i < e0.len() implies #[trigger] e0[i].block_id != b by {
                            assert(self.entries@[i].block_id == e0[i].block_id);
                        }
                    }
                }
            }
            assert(self.view_of(dev@) =~= v0.update(
                block_id as int,
                overwrite(v0[block_id as int], offset as int, src@),
            ));
        }
    }

    /// Writes every dirty block back to the device, oldest first. The device
    /// then holds what the cache showed, and every entry is clean.
    pub fn sync_all(&mut self, dev: &mut BlockDevice)
        requires
            old(dev).wf(),
            old(self).wf(old(dev)@),
        ensures
            final(dev).wf(),
            final(self).wf(final(dev)@),
            final(dev)@ == old(self).view_of(old(dev)@),
            final(self).view_of(final(dev)@) == old(self).view_of(old(dev)@),
            forall|i: int| 0 <= i < final(self).entries@.len() ==> !(#[trigger] final(self).entries@[i]).dirty,
    {
        let ghost v0 = self.view_of(dev@);
        let ghost e0 = self.entries@;
        let ghost dv0 = dev@;
        let mut i: usize = 0;
        while i < self.entries.len()
            invariant
                dev.wf(),
                dev@.len() == dv0.len(),
                old(self).wf(dv0),
                e0 == old(self).entries@,
                self.entries@.len() == e0.len(),
                v0 == old(self).view_of(dv0),
                forall|k: int| 0 <= k < e0.len() ==> (#[trigger] self.entries@[k]).block_id == e0[k].block_id
                    && self.entries@[k].data == e0[k].data,
                forall|k: int| 0 <= k < e0.len() ==> (#[trigger] self.entries@[k]).dirty == (k >= i && e0[k].dirty),
                forall|k: int| 0 <= k < i ==> dev@[(#[trigger] e0[k]).block_id as int] == e0[k].data@,
                forall|b: int| 0 <= b < dv0.len() && !(exists|k: int| 0 <= k < i && #[trigger] e0[k].block_id == b)
                    ==> dev@[b] == dv0[b],
                i <= e0.len(),
            decreases e0.len() - i,
        {
            let ghost ii = i as int;
            proof {
                assert(e0[ii].block_id < dv0.len() && e0[ii].data@.len() == BLOCK_SZ);
                assert(!(exists|k: int| 0 <= k < ii && #[trigger] e0[k].block_id == e0[ii].block_id)) by {
                    if exists|k: int| 0 <= k < ii && #[trigger] e0[k].block_id == e0[ii].block_id {
                        let k = choose|k: int| 0 <= k < ii && #[trigger] e0[k].block_id == e0[ii].block_id;
                        assert(old(self).entries@[k].block_id != old(self).entries@[ii].block_id);
                    }
                }
            }
            if self.entries[i].dirty {
                let data = self.entries[i].data.clone();
                assert(data@ =~= e0[ii].data@);
                dev.write_block(self.entries[i].block_id, data);
                self.entries[i].dirty = false;
            }
            proof {
                assert forall|b: int| 0 <= b < dv0.len() && !(exists|k: int| 0 <= k < ii + 1 && #[trigger] e0[k].block_id == b)
                    implies dev@[b] == dv0[b] by {
                    assert(e0[ii].block_id != b);
                    assert(!(exists|k: int| 0 <= k < ii && #[trigger] e0[k].block_id == b));
                }
                assert forall|k: int| 0 <= k < ii + 1 implies dev@[(#[trigger] e0[k]).block_id as int] == e0[k].data@ by {
                    if k < ii {
                        assert(old(self).entries@[k].block_id != old(self).entries@[ii].block_id);
                    }
                }
            }
            i = i + 1;
        }
        proof {
            assert forall|b: int| 0 <= b < dv0.len() implies dev@[b] == v0[b] by {
                if old(self).cached(b) {
                    let k = choose|k: int| 0 <= k < e0.len() && #[trigger] e0[k].block_id == b;
                    old(self).lemma_block_at(dv0, k);
                } else {
                    assert(!(exists|k: int| 0 <= k < e0.len() && #[trigger] e0[k].block_id == b));
                }
            }
            assert(dev@ =~= v0);
            assert forall|k: int| 0 <= k < self.entries@.len() implies ({
                &&& (#[trigger] self.entries@[k]).block_id < dev@.len()
                &&& self.entries@[k].data@.len() == BLOCK_SZ
                &&& !self.entries@[k].dirty ==> self.entries@[k].data@ == dev@[self.entries@[k].block_id as int]
            }) by {
                assert(dev@[e0[k].block_id as int] == e0[k].data@);
            }
            assert forall|b: int| 0 <= b < dev@.len() implies self.block(dev@, b) == v0[b] by {
                if self.cached(b) {
                    let k = choose|k: int| 0 <= k < self.entries@.len() && #[trigger] self.entries@[k].block_id == b;
                    self.lemma_block_at(dev@, k);
                    assert(e0[k].block_id == b);
                    assert(dev@[e0[k].block_id as int] == e0[k].data@);
                }
            }
            assert(self.view_of(dev@) =~= v0);
        }
    }
}

} // verus!
