//! Inode handles: the files and directories of a volume, and what can be done
//! with them. A handle names the slot of a disk inode; every operation goes
//! through the volume, which the caller holds exclusively for its duration.
use vstd::prelude::*;
use vstd::string::StringSliceAdditionalSpecFns;
use vstd::arithmetic::div_mod::{lemma_fundamental_div_mod, lemma_fundamental_div_mod_converse};
use crate::dirent::{DirEntry, entry_bytes, entry_ino, name_len_from, name_matches, stored_name, lemma_entry_bytes};
use vstd::utf8::{valid_utf8, decode_utf8};
use crate::efs::{EasyFileSystem, taken, takes};
use crate::bitmap::free_count;
use crate::layout::{DiskInodeType, DIRENT_SZ, MAX_FILE_SIZE, NAME_LENGTH_LIMIT, total_blocks_of};

verus! {

/// Bytes of entry `i` of directory content `c`.
pub open spec fn dir_entry(c: Seq<u8>, i: int) -> Seq<u8> {
    c.subrange(i * 32, i * 32 + 32)
}

/// Number of whole entries in directory content `c`.
pub open spec fn dir_count(c: Seq<u8>) -> int {
    c.len() as int / 32
}

/// Inode number of the first entry at or after `i` that holds `name`.
pub open spec fn lookup_from(c: Seq<u8>, name: Seq<u8>, i: int) -> Option<u32>
    decreases dir_count(c) - i,
{
    if i < 0 || i >= dir_count(c) {
        None
    } else if name_matches(dir_entry(c, i), name) {
        Some(entry_ino(dir_entry(c, i)))
    } else {
        lookup_from(c, name, i + 1)
    }
}

/// Inode number that `name` stands for in directory content `c`: the first
/// entry that holds it wins.
pub open spec fn dir_lookup(c: Seq<u8>, name: Seq<u8>) -> Option<u32> {
    lookup_from(c, name, 0)
}

/// Names held by the first `n` entries of `c`, in order, free slots left out.
pub open spec fn names_upto(c: Seq<u8>, n: int) -> Seq<Seq<u8>>
    decreases n,
{
    if n <= 0 {
        Seq::empty()
    } else if stored_name(dir_entry(c, n - 1)).len() == 0 {
        names_upto(c, n - 1)
    } else {
        names_upto(c, n - 1).push(stored_name(dir_entry(c, n - 1)))
    }
}

/// Names listed by directory content `c`.
pub open spec fn dir_names(c: Seq<u8>) -> Seq<Seq<u8>> {
    names_upto(c, dir_count(c))
}

/// Directory content `c` once every whole entry among the first `n` that
/// holds `name` is overwritten with zeros.
pub open spec fn removed_upto(c: Seq<u8>, name: Seq<u8>, n: int) -> Seq<u8> {
    Seq::new(
        c.len(),
        |j: int|
            if j < n * 32 && name_matches(dir_entry(c, j / 32), name) {
                0u8
            } else {
                c[j]
            },
    )
}

/// Directory content `c` once every entry holding `name` is overwritten with zeros.
pub open spec fn remove_name(c: Seq<u8>, name: Seq<u8>) -> Seq<u8> {
    removed_upto(c, name, dir_count(c))
}

/// `c1` is content `c0` after `b` was written at `offset`: the bytes of `b`
/// stand at `offset`, the file reaches at least to their end, and every other
/// byte of `c0` is kept.
pub open spec fn written(c0: Seq<u8>, c1: Seq<u8>, offset: int, b: Seq<u8>) -> bool {
    &&& c1.len() == (if offset + b.len() > c0.len() { offset + b.len() } else { c0.len() as int })
    &&& forall|j: int| 0 <= j < b.len() ==> c1[offset + j] == b[j]
    &&& forall|j: int| 0 <= j < c0.len() && !(offset <= j < offset + b.len()) ==> c1[j] == c0[j]
}

/// Bytes a read of content `c` at `offset` into a buffer of `n` bytes copies.
pub open spec fn read_len(c: Seq<u8>, offset: int, n: int) -> int {
    if offset >= c.len() {
        0
    } else if n <= c.len() - offset {
        n
    } else {
        c.len() - offset
    }
}

/// A read of content `c` at `offset` turned buffer `before` into `after`,
/// returning `r`: the first `r` bytes come from the content, the rest stay.
pub open spec fn read_into(c: Seq<u8>, offset: int, before: Seq<u8>, after: Seq<u8>, r: int) -> bool {
    &&& r == read_len(c, offset, before.len() as int)
    &&& after.len() == before.len()
    &&& forall|j: int| 0 <= j < r ==> after[j] == c[offset + j]
    &&& after.subrange(r, before.len() as int) == before.subrange(r, before.len() as int)
}

/// Bytes written at `offset` come back unchanged from a read at `offset`
/// into a buffer of the same length.
pub proof fn law_round_trip(
    c0: Seq<u8>,
    c1: Seq<u8>,
    offset: int,
    b: Seq<u8>,
    before: Seq<u8>,
    after: Seq<u8>,
    r: int,
)
    requires
        0 <= offset,
        written(c0, c1, offset, b),
        read_into(c1, offset, before, after, r),
        before.len() == b.len(),
    ensures
        r == b.len(),
        after == b,
{
    assert(after =~= b);
}

/// A read of an emptied inode copies nothing and leaves the buffer as it was.
pub proof fn law_read_after_clear(c: Seq<u8>, offset: int, before: Seq<u8>, after: Seq<u8>, r: int)
    requires
        0 <= offset,
        c.len() == 0,
        read_into(c, offset, before, after, r),
    ensures
        r == 0,
        after == before,
{
    assert(after =~= after.subrange(0, before.len() as int));
    assert(before =~= before.subrange(0, before.len() as int));
}

proof fn lemma_lookup_append(c0: Seq<u8>, e: Seq<u8>, name: Seq<u8>, i: int)
    requires
        e.len() == 32,
        0 <= i <= dir_count(c0),
    ensures
        ({
            let c1 = c0.subrange(0, dir_count(c0) * 32) + e;
            lookup_from(c1, name, i) == match lookup_from(c0, name, i) {
                Some(x) => Some(x),
                None => if name_matches(e, name) {
                    Some(entry_ino(e))
                } else {
                    None
                },
            }
        }),
    decreases dir_count(c0) - i,
{
    let n = dir_count(c0);
    let c1 = c0.subrange(0, n * 32) + e;
    lemma_fundamental_div_mod(c0.len() as int, 32);
    assert(c1.len() == n * 32 + 32);
    lemma_fundamental_div_mod_converse(c1.len() as int, 32, n + 1, 0);
    assert(dir_count(c1) == n + 1);
    if i < n {
        assert(dir_entry(c1, i) =~= dir_entry(c0, i));
        lemma_lookup_append(c0, e, name, i + 1);
    } else {
        assert(dir_entry(c1, n) =~= e);
        assert(lookup_from(c1, name, n + 1) == None::<u32>);
    }
}

/// Two names that one entry both holds are the same name.
proof fn lemma_name_unique(e: Seq<u8>, a: Seq<u8>, b: Seq<u8>)
    requires
        name_matches(e, a),
        name_matches(e, b),
    ensures
        a == b,
{
    if a.len() < b.len() {
        assert(e[a.len() as int] == b[a.len() as int]);
    } else if b.len() < a.len() {
        assert(e[b.len() as int] == a[b.len() as int]);
    }
    assert(a =~= b);
}

/// After an entry `b` for the inode that `a` stands for is appended, as
/// `create_nlink(b, a)` does, `a` and `b` both stand for that inode.
pub proof fn law_hard_link_aliases(c0: Seq<u8>, a: Seq<u8>, b: Seq<u8>)
    requires
        dir_lookup(c0, a).is_some(),
        dir_lookup(c0, b).is_none(),
        b.len() <= NAME_LENGTH_LIMIT,
        forall|j: int| 0 <= j < b.len() ==> b[j] != 0,
    ensures
        ({
            let c1 = c0.subrange(0, dir_count(c0) * 32) + entry_bytes(b, dir_lookup(c0, a).unwrap());
            &&& dir_lookup(c1, a) == dir_lookup(c0, a)
            &&& dir_lookup(c1, b) == dir_lookup(c0, a)
        }),
{
    let id = dir_lookup(c0, a).unwrap();
    lemma_entry_bytes(b, id);
    lemma_lookup_append(c0, entry_bytes(b, id), a, 0);
    lemma_lookup_append(c0, entry_bytes(b, id), b, 0);
}

/// A name created in a directory where it was free now stands for the new inode.
pub proof fn law_create_then_find(c0: Seq<u8>, name: Seq<u8>, id: u32)
    requires
        dir_lookup(c0, name).is_none(),
        name.len() <= NAME_LENGTH_LIMIT,
        forall|j: int| 0 <= j < name.len() ==> name[j] != 0,
    ensures
        dir_lookup(c0.subrange(0, dir_count(c0) * 32) + entry_bytes(name, id), name) == Some(id),
{
    lemma_entry_bytes(name, id);
    lemma_lookup_append(c0, entry_bytes(name, id), name, 0);
}

proof fn lemma_lookup_removed(c: Seq<u8>, a: Seq<u8>, b: Seq<u8>, i: int)
    requires
        a != b,
        b.len() > 0,
        0 <= i <= dir_count(c),
    ensures
        lookup_from(remove_name(c, a), b, i) == lookup_from(c, b, i),
    decreases dir_count(c) - i,
{
    let c1 = remove_name(c, a);
    assert(dir_count(c1) == dir_count(c));
    if i < dir_count(c) {
        lemma_fundamental_div_mod(c.len() as int, 32);
        assert(i * 32 + 32 <= c.len()) by {
            vstd::arithmetic::mul::lemma_mul_inequality(i + 1, dir_count(c), 32);
        }
        if name_matches(dir_entry(c, i), a) {
            assert(dir_entry(c1, i) =~= Seq::new(32, |j: int| 0u8)) by {
                assert forall|j: int| 0 <= j < 32 implies dir_entry(c1, i)[j] == 0u8 by {
                    lemma_fundamental_div_mod_converse(i * 32 + j, 32, i, j);
                }
            }
            assert(dir_entry(c1, i)[0] == 0u8);
            assert(!name_matches(dir_entry(c1, i), b)) by {
                if name_matches(dir_entry(c1, i), b) {
                    assert(b[0] != 0 && dir_entry(c1, i)[0] == b[0]);
                }
            }
            assert(!name_matches(dir_entry(c, i), b)) by {
                if name_matches(dir_entry(c, i), b) {
                    lemma_name_unique(dir_entry(c, i), a, b);
                }
            }
        } else {
            assert(dir_entry(c1, i) =~= dir_entry(c, i)) by {
                assert forall|j: int| 0 <= j < 32 implies dir_entry(c1, i)[j] == dir_entry(c, i)[j] by {
                    lemma_fundamental_div_mod_converse(i * 32 + j, 32, i, j);
                }
            }
        }
        lemma_lookup_removed(c, a, b, i + 1);
    }
}

/// Removing the entries of `a`, as `delete_nlink(a)` does, leaves what any
/// other non-empty name stands for as it was.
pub proof fn law_unlink_keeps_other(c: Seq<u8>, a: Seq<u8>, b: Seq<u8>)
    requires
        a != b,
        b.len() > 0,
    ensures
        dir_lookup(remove_name(c, a), b) == dir_lookup(c, b),
{
    lemma_lookup_removed(c, a, b, 0);
}

proof fn lemma_name_prefix(e1: Seq<u8>, e2: Seq<u8>, name: Seq<u8>)
    requires
        e1.len() >= 28,
        e2.len() >= 28,
        forall|j: int| 0 <= j < 28 ==> e1[j] == e2[j],
    ensures
        name_matches(e1, name) == name_matches(e2, name),
{
}

proof fn lemma_name_len_same(e1: Seq<u8>, e2: Seq<u8>, i: int)
    requires
        e1.len() >= 28,
        e2.len() >= 28,
        0 <= i,
        forall|j: int| 0 <= j < 28 ==> e1[j] == e2[j],
    ensures
        name_len_from(e1, i) == name_len_from(e2, i),
        0 <= i <= 28 ==> i <= name_len_from(e1, i) <= 28,
    decreases 28 - i,
{
    if i < 28 {
        lemma_name_len_same(e1, e2, i + 1);
    }
}

/// Relies on `String::from_utf8_lossy`: bytes that are valid UTF-8 come back
/// as the string they encode.
#[verifier::external_body]
fn string_from_bytes(b: &[u8]) -> (r: String)
    ensures
        valid_utf8(b@) ==> r@ == decode_utf8(b@),
{
    String::from_utf8_lossy(b).into_owned()
}

fn zeroed(n: usize) -> (r: Vec<u8>)
    ensures
        r@.len() == n,
{
    let mut r: Vec<u8> = Vec::new();
    while r.len() < n
        invariant
            r@.len() <= n,
        decreases n - r@.len(),
    {
        r.push(0u8);
    }
    r
}

/// A handle on the disk inode whose slot is at block `block_id`, byte
/// `block_offset`. Many handles may name the same slot.
pub struct Inode {
    block_id: u64,
    block_offset: usize,
}

impl Inode {
    /// The slot the handle names: block and byte offset.
    pub closed spec fn pos(&self) -> (int, int) {
        (self.block_id as int, self.block_offset as int)
    }

    /// Inode number of the slot.
    pub open spec fn id(&self, fs: &EasyFileSystem) -> int {
        fs.id_at(self.pos().0, self.pos().1)
    }

    /// Whether the handle names an inode of the volume.
    pub open spec fn valid(&self, fs: &EasyFileSystem) -> bool {
        &&& fs.inode_area_start_block <= self.pos().0 <= u32::MAX
        &&& 0 <= self.id(fs) < fs.inodes@.len()
    }

    /// Content of the inode the handle names.
    pub open spec fn content(&self, fs: &EasyFileSystem) -> Seq<u8> {
        fs.content(self.id(fs))
    }

    /// Whether the handle names a directory.
    pub open spec fn is_dir(&self, fs: &EasyFileSystem) -> bool {
        fs.inodes@[self.id(fs)].type_ == DiskInodeType::Directory
    }

    /// The handle on the slot of inode `id`.
    pub proof fn lemma_pos_id(fs: &EasyFileSystem, id: int)
        requires
            fs.wf(),
            0 <= id < fs.inodes@.len(),
        ensures
            fs.id_at(fs.pos_of(id).0, fs.pos_of(id).1) == id,
            fs.inode_area_start_block <= fs.pos_of(id).0 <= u32::MAX,
    {
        lemma_fundamental_div_mod(id, 4);
        lemma_fundamental_div_mod_converse((id % 4) * 128, 128, id % 4, 0);
    }

    /// A handle on the slot at block `block_id`, byte `block_offset`.
    pub fn new(block_id: u32, block_offset: usize) -> (r: Inode)
        ensures
            r.pos() == (block_id as int, block_offset as int),
    {
        Inode { block_id: block_id as u64, block_offset }
    }

    /// A handle on the root directory of the volume.
    pub fn root(fs: &EasyFileSystem) -> (r: Inode)
        requires
            fs.wf(),
            fs.inodes@.len() > 0,
        ensures
            r.valid(fs),
            r.id(fs) == crate::efs::ROOT_INODE_ID,
            r.pos() == fs.pos_of(crate::efs::ROOT_INODE_ID as int),
    {
        Self::handle_of(fs, crate::efs::ROOT_INODE_ID)
    }

    fn handle_of(fs: &EasyFileSystem, id: u32) -> (r: Inode)
        requires
            fs.wf(),
            id < fs.inodes@.len(),
        ensures
            r.valid(fs),
            r.id(fs) == id,
            r.pos() == fs.pos_of(id as int),
    {
        let (block_id, block_offset) = fs.get_disk_inode_pos(id);
        proof {
            Self::lemma_pos_id(fs, id as int);
        }
        Self::new(block_id, block_offset)
    }

    fn inode_id(&self, fs: &EasyFileSystem) -> (r: u32)
        requires
            fs.wf(),
            self.valid(fs),
        ensures
            r == self.id(fs),
    {
        fs.get_disk_inode(self.block_id as u32, self.block_offset)
    }

    /// Inode number of the handle's inode.
    pub fn get_disk_inode(&self, fs: &EasyFileSystem) -> (r: usize)
        requires
            fs.wf(),
            self.valid(fs),
        ensures
            r == self.id(fs),
    {
        self.inode_id(fs) as usize
    }

    fn find_inode_id(&self, fs: &EasyFileSystem, name: &[u8]) -> (r: Option<u32>)
        requires
            fs.wf(),
            self.valid(fs),
        ensures
            r == dir_lookup(self.content(fs), name@),
    {
        let k = self.inode_id(fs);
        let ghost c = self.content(fs);
        let count = fs.inodes[k as usize].size as usize / DIRENT_SZ;
        let mut i: usize = 0;
        while i < count
            invariant
                fs.wf(),
                k == self.id(fs),
                k < fs.inodes@.len(),
                c == fs.content(k as int),
                count == dir_count(c),
                i <= count,
                lookup_from(c, name@, 0) == lookup_from(c, name@, i as int),
            decreases count - i,
        {
            let mut buf = zeroed(DIRENT_SZ);
            let n = fs.read_data(k, i * DIRENT_SZ, buf.as_mut_slice());
            proof {
                lemma_fundamental_div_mod(c.len() as int, 32);
                assert(n == 32);
                assert(buf@ =~= dir_entry(c, i as int));
            }
            let e = DirEntry::from_bytes(buf.as_slice());
            let hit = e.has_name(name);
            proof {
                lemma_name_prefix(e.bytes(), buf@, name@);
            }
            if hit {
                return Some(e.inode_number());
            }
            i = i + 1;
        }
        None
    }

    /// The handle on the slot of inode number `id`, which the volume need not have.
    fn handle_at(fs: &EasyFileSystem, id: u32) -> (r: Inode)
        requires
            fs.wf(),
        ensures
            r.pos() == fs.pos_of(id as int),
            id < fs.inodes@.len() ==> r.valid(fs) && r.id(fs) == id,
    {
        if id < fs.inodes.len() as u32 {
            return Self::handle_of(fs, id);
        }
        let block_id = fs.inode_area_start_block as u64 + (id / 4) as u64;
        Inode { block_id, block_offset: (id % 4) as usize * 128 }
    }

    /// The inode that `name` stands for in this directory: the first entry
    /// holding the name wins. `None` when no entry holds it. A handle whose
    /// entry names an inode number the volume does not have is not valid, and
    /// no operation accepts it.
    pub fn find(&self, fs: &EasyFileSystem, name: &str) -> (r: Option<Inode>)
        requires
            fs.wf(),
            self.valid(fs),
            self.is_dir(fs),
        ensures
            r.is_some() == dir_lookup(self.content(fs), name.spec_bytes()).is_some(),
            r.is_some() ==> {
                let h = r.unwrap();
                let id = dir_lookup(self.content(fs), name.spec_bytes()).unwrap();
                &&& h.pos() == fs.pos_of(id as int)
                &&& id < fs.inodes@.len() ==> h.valid(fs) && h.id(fs) == id
            },
    {
        match self.find_inode_id(fs, name.as_bytes()) {
            Some(id) => Some(Self::handle_at(fs, id)),
            None => None,
        }
    }

    /// The same as `find`.
    pub fn find_inode(&self, fs: &EasyFileSystem, name: &str) -> (r: Option<Inode>)
        requires
            fs.wf(),
            self.valid(fs),
            self.is_dir(fs),
        ensures
            r.is_some() == dir_lookup(self.content(fs), name.spec_bytes()).is_some(),
            r.is_some() ==> {
                let h = r.unwrap();
                let id = dir_lookup(self.content(fs), name.spec_bytes()).unwrap();
                &&& h.pos() == fs.pos_of(id as int)
                &&& id < fs.inodes@.len() ==> h.valid(fs) && h.id(fs) == id
            },
    {
        self.find(fs, name)
    }

    /// Whether the handle names an inode of the volume.
    pub fn is_valid(&self, fs: &EasyFileSystem) -> (r: bool)
        requires
            fs.wf(),
        ensures
            r == self.valid(fs),
    {
        let start = fs.inode_area_start_block as u64;
        let top = u32::MAX as u64;
        if self.block_id < start || self.block_id > top {
            return false;
        }
        let rel = self.block_id - start;
        let n = fs.inodes.len() as u64;
        rel * 4 + ((self.block_offset / 128) as u64) < n
    }

    /// Whether the inode the handle names is marked in use in the inode bitmap.
    pub fn is_allocated(&self, fs: &EasyFileSystem) -> (r: bool)
        requires
            fs.wf(),
            self.valid(fs),
        ensures
            r == fs.inode_used(self.id(fs)),
    {
        let k = self.inode_id(fs);
        fs.inode_bitmap.is_allocated(k as usize)
    }

    /// Copies bytes of the inode from `offset` into `buf`, clipped to its
    /// size; returns how many were copied.
    pub fn read_at(&self, fs: &EasyFileSystem, offset: usize, buf: &mut [u8]) -> (r: usize)
        requires
            fs.wf(),
            self.valid(fs),
        ensures
            read_into(self.content(fs), offset as int, old(buf)@, final(buf)@, r as int),
    {
        let k = self.inode_id(fs);
        fs.read_data(k, offset, buf)
    }

    /// Size of the inode in bytes.
    pub fn get_file_size(&self, fs: &EasyFileSystem) -> (r: usize)
        requires
            fs.wf(),
            self.valid(fs),
        ensures
            r == self.content(fs).len(),
    {
        let k = self.inode_id(fs);
        fs.inodes[k as usize].size as usize
    }

    /// Link count of the inode.
    pub fn get_disk_nlink(&self, fs: &EasyFileSystem) -> (r: u32)
        requires
            fs.wf(),
            self.valid(fs),
        ensures
            r == fs.inodes@[self.id(fs)].nlink,
    {
        let k = self.inode_id(fs);
        fs.inodes[k as usize].nlink
    }

    /// Mode bits of the inode's kind: 0o040000 for a directory, 0o100000 for a file.
    pub fn get_disk_type(&self, fs: &EasyFileSystem) -> (r: u32)
        requires
            fs.wf(),
            self.valid(fs),
        ensures
            r == (if self.is_dir(fs) { 0o040000u32 } else { 0o100000u32 }),
    {
        let k = self.inode_id(fs);
        if fs.inodes[k as usize].is_dir() {
            0o040000
        } else {
            0o100000
        }
    }

    /// Writes `buf` into the inode at `offset`, first growing the inode when
    /// the write reaches past its end. Returns `buf.len()`, or 0 when the write
    /// would pass the largest file size or the volume has too few free
    /// blocks; then nothing changes.
    pub fn write_at(&self, fs: &mut EasyFileSystem, offset: usize, buf: &[u8]) -> (r: usize)
        requires
            old(fs).wf(),
            self.valid(old(fs)),
        ensures
            final(fs).wf(),
            final(fs).same_geometry(old(fs)),
            self.valid(final(fs)),
            self.id(final(fs)) == self.id(old(fs)),
            final(fs).others_kept(old(fs), self.id(old(fs))),
            r == 0 || r == buf@.len(),
            offset + buf@.len() <= self.content(old(fs)).len() ==> r == buf@.len(),
            r == 0 && buf@.len() > 0 ==> {
                &&& final(fs).inodes@ == old(fs).inodes@
                &&& final(fs).data@ == old(fs).data@
                &&& final(fs).data_bitmap@ == old(fs).data_bitmap@
                &&& (offset + buf@.len() > MAX_FILE_SIZE || free_count(old(fs).data_bitmap@)
                    < total_blocks_of(offset + buf@.len()) - total_blocks_of(
                    self.content(old(fs)).len() as int,
                ))
            },
            buf@.len() == 0 ==> *final(fs) == *old(fs),
            r == buf@.len() && buf@.len() > 0 ==> {
                let d0 = old(fs).inodes@[self.id(old(fs))];
                let d1 = final(fs).inodes@[self.id(old(fs))];
                &&& written(self.content(old(fs)), self.content(final(fs)), offset as int, buf@)
                &&& takes(old(fs).data_bitmap@, taken(d0, d1), final(fs).data_bitmap@)
                &&& taken(d0, d1).len() == total_blocks_of(d1.size as int) - total_blocks_of(
                    d0.size as int,
                )
                &&& d1.type_ == d0.type_
                &&& d1.nlink == d0.nlink
            },
    {
        let k = self.inode_id(fs);
        let size = fs.inodes[k as usize].size as usize;
        if buf.len() == 0 {
            return 0;
        }
        if buf.len() > MAX_FILE_SIZE as usize || offset > MAX_FILE_SIZE as usize - buf.len() {
            return 0;
        }
        let end = offset + buf.len();
        if end > size {
            if !fs.increase_size(k, end as u32) {
                return 0;
            }
        } else {
            let ghost d = fs.inodes@[k as int];
            assert(taken(d, d) =~= Seq::<u32>::empty());
        }
        let ghost mid = *fs;
        let n = fs.write_data(k, offset, buf);
        assert(buf@.subrange(0, n as int) =~= buf@);
        proof {
            assert forall|j: int|
                0 <= j < fs.inodes@.len() && j != k implies #[trigger] fs.inodes@[j]
                == old(fs).inodes@[j] && fs.content(j) == old(fs).content(j) by {
                assert(mid.inodes@[j] == old(fs).inodes@[j] && mid.content(j) == old(fs).content(j));
            }
        }
        n
    }

    /// Empties the inode and frees every block it held.
    pub fn clear(&self, fs: &mut EasyFileSystem)
        requires
            old(fs).wf(),
            self.valid(old(fs)),
        ensures
            final(fs).wf(),
            final(fs).same_geometry(old(fs)),
            self.valid(final(fs)),
            self.id(final(fs)) == self.id(old(fs)),
            self.content(final(fs)).len() == 0,
            final(fs).inodes@[self.id(old(fs))].type_ == old(fs).inodes@[self.id(old(fs))].type_,
            final(fs).inodes@[self.id(old(fs))].nlink == old(fs).inodes@[self.id(old(fs))].nlink,
            final(fs).others_kept(old(fs), self.id(old(fs))),
            forall|m: int|
                0 <= m < old(fs).inodes@[self.id(old(fs))].all_ids().len() ==> !final(fs).data_bitmap@[#[trigger] old(fs).inodes@[self.id(old(fs))].all_ids()[m] as int],
            forall|x: int|
                0 <= x < old(fs).data_bitmap@.len() && !old(fs).inodes@[self.id(
                    old(fs),
                )].all_ids().contains(x as u32) ==> #[trigger] final(fs).data_bitmap@[x] == old(fs).data_bitmap@[x],
    {
        let k = self.inode_id(fs);
        let _freed = fs.clear_blocks(k);
    }

    /// Adds one to the link count.
    pub fn add_disk_nlink(&self, fs: &mut EasyFileSystem)
        requires
            old(fs).wf(),
            self.valid(old(fs)),
            old(fs).inodes@[self.id(old(fs))].nlink < u32::MAX,
        ensures
            final(fs).wf(),
            final(fs).same_geometry(old(fs)),
            final(fs).data_bitmap@ == old(fs).data_bitmap@,
            self.valid(final(fs)),
            self.id(final(fs)) == self.id(old(fs)),
            final(fs).inodes@[self.id(old(fs))].nlink == old(fs).inodes@[self.id(old(fs))].nlink + 1,
            final(fs).inodes@[self.id(old(fs))].type_ == old(fs).inodes@[self.id(old(fs))].type_,
            self.content(final(fs)) == self.content(old(fs)),
            final(fs).others_kept(old(fs), self.id(old(fs))),
    {
        let k = self.inode_id(fs);
        let n = fs.inodes[k as usize].nlink;
        fs.set_nlink(k, n + 1);
    }

    /// Takes one from the link count, which must be positive.
    pub fn sub_disk_nlink(&self, fs: &mut EasyFileSystem)
        requires
            old(fs).wf(),
            self.valid(old(fs)),
            old(fs).inodes@[self.id(old(fs))].nlink > 0,
        ensures
            final(fs).wf(),
            final(fs).same_geometry(old(fs)),
            final(fs).data_bitmap@ == old(fs).data_bitmap@,
            self.valid(final(fs)),
            self.id(final(fs)) == self.id(old(fs)),
            final(fs).inodes@[self.id(old(fs))].nlink == old(fs).inodes@[self.id(old(fs))].nlink - 1,
            final(fs).inodes@[self.id(old(fs))].type_ == old(fs).inodes@[self.id(old(fs))].type_,
            self.content(final(fs)) == self.content(old(fs)),
            final(fs).others_kept(old(fs), self.id(old(fs))),
    {
        let k = self.inode_id(fs);
        let n = fs.inodes[k as usize].nlink;
        fs.set_nlink(k, n - 1);
    }

    /// Appends to directory inode `k` an entry naming `name` and inode `ino`,
    /// growing the directory by one entry. Returns false, changing nothing,
    /// when the directory is at its largest size or the volume has too few
    /// free blocks.
    fn append_entry(fs: &mut EasyFileSystem, k: u32, name: &str, ino: u32) -> (r: bool)
        requires
            old(fs).wf(),
            k < old(fs).inodes@.len(),
            name.spec_bytes().len() <= NAME_LENGTH_LIMIT,
        ensures
            final(fs).wf(),
            final(fs).same_geometry(old(fs)),
            final(fs).others_kept(old(fs), k as int),
            r ==> {
                &&& final(fs).content(k as int) == old(fs).content(k as int).subrange(
                    0,
                    dir_count(old(fs).content(k as int)) * 32,
                ) + entry_bytes(name.spec_bytes(), ino)
                &&& final(fs).inodes@[k as int].type_ == old(fs).inodes@[k as int].type_
                &&& final(fs).inodes@[k as int].nlink == old(fs).inodes@[k as int].nlink
                &&& takes(
                    old(fs).data_bitmap@,
                    taken(old(fs).inodes@[k as int], final(fs).inodes@[k as int]),
                    final(fs).data_bitmap@,
                )
                &&& taken(old(fs).inodes@[k as int], final(fs).inodes@[k as int]).len()
                    == total_blocks_of((dir_count(old(fs).content(k as int)) + 1) * 32)
                    - total_blocks_of(old(fs).content(k as int).len() as int)
            },
            !r ==> {
                &&& final(fs).inodes@ == old(fs).inodes@
                &&& final(fs).data@ == old(fs).data@
                &&& final(fs).data_bitmap@ == old(fs).data_bitmap@
                &&& ((dir_count(old(fs).content(k as int)) + 1) * 32 > MAX_FILE_SIZE
                    || free_count(old(fs).data_bitmap@) < total_blocks_of(
                    (dir_count(old(fs).content(k as int)) + 1) * 32,
                ) - total_blocks_of(old(fs).content(k as int).len() as int))
            },
    {
        let size = fs.inodes[k as usize].size as usize;
        let count = size / DIRENT_SZ;
        proof {
            lemma_fundamental_div_mod(size as int, 32);
        }
        if count + 1 > MAX_FILE_SIZE as usize / DIRENT_SZ {
            return false;
        }
        let new_size = (count + 1) * DIRENT_SZ;
        if !fs.increase_size(k, new_size as u32) {
            return false;
        }
        let ghost mid = *fs;
        let e = DirEntry::new(name, ino);
        let bytes = e.as_bytes();
        let n = fs.write_data(k, count * DIRENT_SZ, bytes.as_slice());
        proof {
            let c0 = old(fs).content(k as int);
            let target = c0.subrange(0, count * 32) + entry_bytes(name.spec_bytes(), ino);
            assert(n == 32);
            assert(bytes@.subrange(0, 32) =~= bytes@);
            assert forall|j: int| 0 <= j < target.len() implies fs.content(k as int)[j] == target[j] by {
                if j < count * 32 {
                    assert(mid.content(k as int)[j] == c0[j]);
                }
            }
            assert(fs.content(k as int) =~= target);
            assert forall|j: int|
                0 <= j < fs.inodes@.len() && j != k implies #[trigger] fs.inodes@[j]
                == old(fs).inodes@[j] && fs.content(j) == old(fs).content(j) by {
                assert(mid.inodes@[j] == old(fs).inodes@[j] && mid.content(j) == old(fs).content(j));
            }
        }
        true
    }

    /// Creates an empty file named `name` (at most 27 bytes) in this
    /// directory and returns a handle on it. Returns `None` when the name is
    /// taken, changing nothing; and when no inode or too few data blocks are
    /// free, or the directory is at its largest size, with the volume as it was.
    /// The directory's own inode must be marked in use.
    pub fn create(&self, fs: &mut EasyFileSystem, name: &str) -> (r: Option<Inode>)
        requires
            old(fs).wf(),
            self.valid(old(fs)),
            self.is_dir(old(fs)),
            old(fs).inode_used(self.id(old(fs))),
            name.spec_bytes().len() <= NAME_LENGTH_LIMIT,
        ensures
            final(fs).wf(),
            final(fs).inode_area_start_block == old(fs).inode_area_start_block,
            final(fs).inodes@.len() == old(fs).inodes@.len(),
            self.valid(final(fs)),
            dir_lookup(self.content(old(fs)), name.spec_bytes()).is_some() ==> r.is_none() && *final(fs) == *old(fs),
            r.is_none() ==> {
                &&& final(fs).inodes@ == old(fs).inodes@
                &&& final(fs).data@ == old(fs).data@
                &&& final(fs).data_bitmap@ == old(fs).data_bitmap@
                &&& final(fs).inode_bitmap@ == old(fs).inode_bitmap@
            },
            r.is_none() && dir_lookup(self.content(old(fs)), name.spec_bytes()).is_none() ==> {
                ||| forall|j: int| 0 <= j < old(fs).inodes@.len() ==> old(fs).inode_used(j)
                ||| (dir_count(self.content(old(fs))) + 1) * 32 > MAX_FILE_SIZE
                ||| free_count(old(fs).data_bitmap@) < total_blocks_of(
                    (dir_count(self.content(old(fs))) + 1) * 32,
                ) - total_blocks_of(self.content(old(fs)).len() as int)
            },
            r.is_some() ==> {
                let h = r.unwrap();
                let id = h.id(final(fs));
                let d = self.id(old(fs));
                &&& h.valid(final(fs))
                &&& h.pos() == final(fs).pos_of(id)
                &&& id != d
                &&& !old(fs).inode_used(id)
                &&& final(fs).inode_bitmap@ == old(fs).inode_bitmap@.update(id, true)
                &&& final(fs).inodes@[id].size == 0
                &&& final(fs).inodes@[id].type_ == DiskInodeType::File
                &&& final(fs).inodes@[id].nlink == 1
                &&& final(fs).inodes@[d].type_ == old(fs).inodes@[d].type_
                &&& final(fs).inodes@[d].nlink == old(fs).inodes@[d].nlink
                &&& takes(old(fs).data_bitmap@, taken(old(fs).inodes@[d], final(fs).inodes@[d]), final(fs).data_bitmap@)
                &&& taken(old(fs).inodes@[d], final(fs).inodes@[d]).len() == total_blocks_of(
                    (dir_count(self.content(old(fs))) + 1) * 32,
                ) - total_blocks_of(self.content(old(fs)).len() as int)
                &&& self.content(final(fs)) == self.content(old(fs)).subrange(
                    0,
                    dir_count(self.content(old(fs))) * 32,
                ) + entry_bytes(name.spec_bytes(), id as u32)
                &&& forall|j: int|
                    0 <= j < final(fs).inodes@.len() && j != id && j != d ==> #[trigger] final(fs).inodes@[j] == old(fs).inodes@[j] && final(fs).content(j) == old(fs).content(j)
            },
    {
        let k = self.inode_id(fs);
        if self.find_inode_id(fs, name.as_bytes()).is_some() {
            return None;
        }
        let new_id = match fs.alloc_inode() {
            Some(id) => id,
            None => {
                return None;
            },
        };
        assert(new_id != k);
        let ghost a = *fs;
        if !Self::append_entry(fs, k, name, new_id) {
            fs.dealloc_inode(new_id);
            assert(fs.inode_bitmap@ =~= old(fs).inode_bitmap@);
            return None;
        }
        let ghost b = *fs;
        fs.initialize_inode(new_id, DiskInodeType::File);
        let h = Self::handle_of(fs, new_id);
        proof {
            assert forall|j: int|
                0 <= j < fs.inodes@.len() && j != new_id && j != k implies #[trigger] fs.inodes@[j]
                == old(fs).inodes@[j] && fs.content(j) == old(fs).content(j) by {
                assert(b.inodes@[j] == a.inodes@[j] && b.content(j) == a.content(j));
                assert(fs.inodes@[j] == b.inodes@[j] && fs.content(j) == b.content(j));
            }
            assert(fs.inodes@[k as int] == b.inodes@[k as int] && fs.content(k as int) == b.content(k as int));
        }
        Some(h)
    }

    /// Names of the directory's entries in on-disk order; free slots, whose
    /// name is empty, are left out.
    pub fn ls(&self, fs: &EasyFileSystem) -> (r: Vec<String>)
        requires
            fs.wf(),
            self.valid(fs),
            self.is_dir(fs),
        ensures
            r@.len() == dir_names(self.content(fs)).len(),
            forall|j: int|
                0 <= j < r@.len() && valid_utf8(#[trigger] dir_names(self.content(fs))[j])
                    ==> r@[j]@ == decode_utf8(dir_names(self.content(fs))[j]),
    {
        let k = self.inode_id(fs);
        let ghost c = self.content(fs);
        let count = fs.inodes[k as usize].size as usize / DIRENT_SZ;
        let mut v: Vec<String> = Vec::new();
        let mut i: usize = 0;
        while i < count
            invariant
                fs.wf(),
                k == self.id(fs),
                k < fs.inodes@.len(),
                c == fs.content(k as int),
                count == dir_count(c),
                i <= count,
                v@.len() == names_upto(c, i as int).len(),
                forall|j: int|
                    0 <= j < v@.len() && valid_utf8(#[trigger] names_upto(c, i as int)[j])
                        ==> v@[j]@ == decode_utf8(names_upto(c, i as int)[j]),
            decreases count - i,
        {
            let mut buf = zeroed(DIRENT_SZ);
            let n = fs.read_data(k, i * DIRENT_SZ, buf.as_mut_slice());
            proof {
                lemma_fundamental_div_mod(c.len() as int, 32);
                assert(n == 32);
                assert(buf@ =~= dir_entry(c, i as int));
            }
            let e = DirEntry::from_bytes(buf.as_slice());
            let name = e.name();
            proof {
                lemma_name_len_same(e.bytes(), buf@, 0);
                assert(name@ =~= stored_name(dir_entry(c, i as int)));
            }
            let ghost prev = names_upto(c, i as int);
            if name.len() > 0 {
                let s = string_from_bytes(name.as_slice());
                v.push(s);
                assert(names_upto(c, i + 1) == prev.push(name@));
            } else {
                assert(names_upto(c, i + 1) == prev);
            }
            i = i + 1;
        }
        v
    }

    /// Turns every entry of this directory that holds `path` into a free slot
    /// (all its bytes zero). Entries are never moved. Returns 0.
    pub fn delete_file(&self, fs: &mut EasyFileSystem, path: &str) -> (r: isize)
        requires
            old(fs).wf(),
            self.valid(old(fs)),
        ensures
            r == 0,
            final(fs).wf(),
            final(fs).same_geometry(old(fs)),
            final(fs).data_bitmap@ == old(fs).data_bitmap@,
            final(fs).inodes@ == old(fs).inodes@,
            self.valid(final(fs)),
            self.content(final(fs)) == remove_name(self.content(old(fs)), path.spec_bytes()),
            final(fs).others_kept(old(fs), self.id(old(fs))),
    {
        let k = self.inode_id(fs);
        let name = path.as_bytes();
        let ghost c = self.content(fs);
        let count = fs.inodes[k as usize].size as usize / DIRENT_SZ;
        let empty = DirEntry::empty();
        let zeros = empty.as_bytes();
        let mut i: usize = 0;
        assert(removed_upto(c, name@, 0) =~= c);
        while i < count
            invariant
                fs.wf(),
                old(fs).wf(),
                k == self.id(old(fs)),
                k < fs.inodes@.len(),
                fs.same_geometry(old(fs)),
                fs.data_bitmap@ == old(fs).data_bitmap@,
                fs.inodes@ == old(fs).inodes@,
                c == old(fs).content(k as int),
                fs.content(k as int) == removed_upto(c, name@, i as int),
                fs.others_kept(old(fs), k as int),
                count == dir_count(c),
                zeros@ == Seq::new(32, |j: int| 0u8),
                i <= count,
            decreases count - i,
        {
            let mut buf = zeroed(DIRENT_SZ);
            let ghost cur = fs.content(k as int);
            let n = fs.read_data(k, i * DIRENT_SZ, buf.as_mut_slice());
            proof {
                lemma_fundamental_div_mod(c.len() as int, 32);
                assert(n == 32);
                assert forall|j: int| 0 <= j < 32 implies buf@[j] == dir_entry(c, i as int)[j] by {
                    lemma_fundamental_div_mod_converse(i * 32 + j, 32, i as int, j);
                }
                assert(buf@ =~= dir_entry(c, i as int));
            }
            let e = DirEntry::from_bytes(buf.as_slice());
            let hit = e.has_name(name);
            proof {
                lemma_name_prefix(e.bytes(), buf@, name@);
            }
            if hit {
                let ghost before = *fs;
                let w = fs.write_data(k, i * DIRENT_SZ, zeros.as_slice());
                proof {
                    assert(w == 32);
                    assert(zeros@.subrange(0, 32) =~= zeros@);
                    assert forall|j: int| 0 <= j < c.len() implies fs.content(k as int)[j]
                        == removed_upto(c, name@, i + 1)[j] by {
                        if i * 32 <= j < i * 32 + 32 {
                            lemma_fundamental_div_mod_converse(j, 32, i as int, j - i * 32);
                        } else if j < i * 32 {
                            lemma_fundamental_div_mod(j, 32);
                            vstd::arithmetic::div_mod::lemma_div_is_ordered(j, i * 32, 32);
                            lemma_fundamental_div_mod_converse(i * 32, 32, i as int, 0);
                        } else {
                            lemma_fundamental_div_mod(j, 32);
                            vstd::arithmetic::div_mod::lemma_div_is_ordered(i * 32 + 32, j, 32);
                            lemma_fundamental_div_mod_converse(i * 32 + 32, 32, i + 1, 0);
                        }
                    }
                    assert(fs.content(k as int) =~= removed_upto(c, name@, i + 1));
                    assert forall|j: int|
                        0 <= j < fs.inodes@.len() && j != k implies #[trigger] fs.inodes@[j]
                        == old(fs).inodes@[j] && fs.content(j) == old(fs).content(j) by {
                        assert(before.inodes@[j] == old(fs).inodes@[j] && before.content(j) == old(fs).content(j));
                    }
                }
            } else {
                proof {
                    assert forall|j: int| 0 <= j < c.len() implies cur[j]
                        == removed_upto(c, name@, i + 1)[j] by {
                        if i * 32 <= j < i * 32 + 32 {
                            lemma_fundamental_div_mod_converse(j, 32, i as int, j - i * 32);
                        } else if j < i * 32 {
                            lemma_fundamental_div_mod(j, 32);
                            vstd::arithmetic::div_mod::lemma_div_is_ordered(j, i * 32, 32);
                            lemma_fundamental_div_mod_converse(i * 32, 32, i as int, 0);
                        } else {
                            lemma_fundamental_div_mod(j, 32);
                            vstd::arithmetic::div_mod::lemma_div_is_ordered(i * 32 + 32, j, 32);
                            lemma_fundamental_div_mod_converse(i * 32 + 32, 32, i + 1, 0);
                        }
                    }
                    assert(cur =~= removed_upto(c, name@, i + 1));
                }
            }
            i = i + 1;
        }
        0
    }

    /// Adds to this directory an entry `newname` (at most 27 bytes) for the
    /// inode that `oldname` stands for, counts the new link, and returns a
    /// handle on that inode. Returns `None` when `newname` is taken, changing
    /// nothing; and when `oldname` is not found, its link count is at its
    /// largest, the directory is at its largest size or too few data blocks
    /// are free, with the volume as it was. An entry for `oldname` must name an
    /// inode of the volume.
    pub fn create_nlink(&self, fs: &mut EasyFileSystem, newname: &str, oldname: &str) -> (r:
        Option<Inode>)
        requires
            old(fs).wf(),
            self.valid(old(fs)),
            self.is_dir(old(fs)),
            newname.spec_bytes().len() <= NAME_LENGTH_LIMIT,
            dir_lookup(self.content(old(fs)), oldname.spec_bytes()).is_some() ==> dir_lookup(
                self.content(old(fs)),
                oldname.spec_bytes(),
            ).unwrap() < old(fs).inodes@.len(),
        ensures
            final(fs).wf(),
            final(fs).same_geometry(old(fs)),
            self.valid(final(fs)),
            dir_lookup(self.content(old(fs)), newname.spec_bytes()).is_some() ==> r.is_none()
                && *final(fs) == *old(fs),
            r.is_none() ==> {
                &&& final(fs).inodes@ == old(fs).inodes@
                &&& final(fs).data@ == old(fs).data@
                &&& final(fs).data_bitmap@ == old(fs).data_bitmap@
            },
            ({
                let c0 = self.content(old(fs));
                let target = dir_lookup(c0, oldname.spec_bytes());
                r.is_none() && dir_lookup(c0, newname.spec_bytes()).is_none() ==> {
                    ||| target.is_none()
                    ||| old(fs).inodes@[target.unwrap() as int].nlink == u32::MAX
                    ||| (dir_count(c0) + 1) * 32 > MAX_FILE_SIZE
                    ||| free_count(old(fs).data_bitmap@) < total_blocks_of((dir_count(c0) + 1) * 32)
                        - total_blocks_of(c0.len() as int)
                }
            }),
            r.is_some() ==> {
                let h = r.unwrap();
                let c0 = self.content(old(fs));
                let id = dir_lookup(c0, oldname.spec_bytes()).unwrap() as int;
                let d = self.id(old(fs));
                &&& dir_lookup(c0, oldname.spec_bytes()).is_some()
                &&& h.valid(final(fs))
                &&& h.id(final(fs)) == id
                &&& h.pos() == final(fs).pos_of(id)
                &&& final(fs).inodes@[id].nlink == old(fs).inodes@[id].nlink + 1
                &&& final(fs).inodes@[id].type_ == old(fs).inodes@[id].type_
                &&& takes(old(fs).data_bitmap@, taken(old(fs).inodes@[d], final(fs).inodes@[d]), final(fs).data_bitmap@)
                &&& taken(old(fs).inodes@[d], final(fs).inodes@[d]).len() == total_blocks_of(
                    (dir_count(c0) + 1) * 32,
                ) - total_blocks_of(c0.len() as int)
                &&& self.content(final(fs)) == c0.subrange(0, dir_count(c0) * 32) + entry_bytes(
                    newname.spec_bytes(),
                    id as u32,
                )
                &&& id != d ==> final(fs).content(id) == old(fs).content(id)
                &&& forall|j: int|
                    0 <= j < final(fs).inodes@.len() && j != id && j != d ==> #[trigger] final(fs).inodes@[j]
                        == old(fs).inodes@[j] && final(fs).content(j) == old(fs).content(j)
            },
    {
        let k = self.inode_id(fs);
        if self.find_inode_id(fs, newname.as_bytes()).is_some() {
            return None;
        }
        let target = match self.find_inode_id(fs, oldname.as_bytes()) {
            Some(id) => id,
            None => {
                return None;
            },
        };
        if target as usize >= fs.inodes.len() {
            return None;
        }
        let n = fs.inodes[target as usize].nlink;
        if n == u32::MAX {
            return None;
        }
        let ghost a = *fs;
        if !Self::append_entry(fs, k, newname, target) {
            return None;
        }
        let ghost b = *fs;
        fs.set_nlink(target, n + 1);
        let h = Self::handle_of(fs, target);
        proof {
            assert forall|j: int|
                0 <= j < fs.inodes@.len() && j != target && j != k implies #[trigger] fs.inodes@[j]
                == old(fs).inodes@[j] && fs.content(j) == old(fs).content(j) by {
                assert(b.inodes@[j] == a.inodes@[j] && b.content(j) == a.content(j));
                assert(fs.inodes@[j] == b.inodes@[j] && fs.content(j) == b.content(j));
            }
            if target != k {
                assert(b.inodes@[target as int] == a.inodes@[target as int]);
                assert(b.content(target as int) == a.content(target as int));
                assert(fs.inodes@[k as int] == b.inodes@[k as int] && fs.content(k as int) == b.content(k as int));
            }
        }
        Some(h)
    }

    /// Removes the link `path` from this directory: the inode it stands for
    /// loses one link, every entry holding `path` becomes a free slot, and once
    /// no link is left the inode is emptied and its blocks freed. Returns 0,
    /// or -1 when `path` is not found, changing nothing. An entry for `path`
    /// must name an inode of the volume.
    pub fn delete_nlink(&self, fs: &mut EasyFileSystem, path: &str) -> (r: isize)
        requires
            old(fs).wf(),
            self.valid(old(fs)),
            self.is_dir(old(fs)),
            dir_lookup(self.content(old(fs)), path.spec_bytes()).is_some() ==> dir_lookup(
                self.content(old(fs)),
                path.spec_bytes(),
            ).unwrap() < old(fs).inodes@.len(),
        ensures
            final(fs).wf(),
            final(fs).same_geometry(old(fs)),
            self.valid(final(fs)),
            ({
                let c0 = self.content(old(fs));
                let target = dir_lookup(c0, path.spec_bytes());
                let found = target.is_some();
                &&& r == (if found { 0isize } else { -1isize })
                &&& !found ==> *final(fs) == *old(fs)
                &&& found ==> {
                    let id = target.unwrap() as int;
                    let d = self.id(old(fs));
                    let n0 = old(fs).inodes@[id].nlink;
                    let n1 = final(fs).inodes@[id].nlink;
                    &&& n1 == (if n0 > 0 { n0 - 1 } else { 0 })
                    &&& n1 > 0 ==> final(fs).data_bitmap@ == old(fs).data_bitmap@
                    &&& n1 == 0 ==> forall|x: int|
                        0 <= x < old(fs).data_bitmap@.len() && !old(fs).inodes@[id].all_ids().contains(
                            x as u32,
                        ) ==> #[trigger] final(fs).data_bitmap@[x] == old(fs).data_bitmap@[x]
                    &&& id != d ==> {
                        &&& self.content(final(fs)) == remove_name(c0, path.spec_bytes())
                        &&& n1 > 0 ==> final(fs).content(id) == old(fs).content(id)
                        &&& n1 == 0 ==> final(fs).content(id).len() == 0
                        &&& n1 == 0 ==> forall|m: int|
                            0 <= m < old(fs).inodes@[id].all_ids().len() ==> !final(fs).data_bitmap@[#[trigger] old(fs).inodes@[id].all_ids()[m] as int]
                    }
                    &&& forall|j: int|
                        0 <= j < final(fs).inodes@.len() && j != id && j != d ==> #[trigger] final(fs).inodes@[j]
                            == old(fs).inodes@[j] && final(fs).content(j) == old(fs).content(j)
                }
            }),
    {
        let k = self.inode_id(fs);
        let target = match self.find_inode_id(fs, path.as_bytes()) {
            Some(id) => id,
            None => {
                return -1;
            },
        };
        if target as usize >= fs.inodes.len() {
            return -1;
        }
        let ghost f0 = *fs;
        let n = fs.inodes[target as usize].nlink;
        if n > 0 {
            fs.set_nlink(target, n - 1);
        }
        let ghost f1 = *fs;
        if n <= 1 {
            let _freed = fs.clear_blocks(target);
        }
        let ghost f2 = *fs;
        let _ = self.delete_file(fs, path);
        proof {
            let id = target as int;
            let d = k as int;
            assert forall|j: int|
                0 <= j < fs.inodes@.len() && j != id && j != d implies #[trigger] fs.inodes@[j]
                == old(fs).inodes@[j] && fs.content(j) == old(fs).content(j) by {
                assert(f1.inodes@[j] == f0.inodes@[j] && f1.content(j) == f0.content(j));
                assert(f2.inodes@[j] == f1.inodes@[j] && f2.content(j) == f1.content(j));
                assert(fs.inodes@[j] == f2.inodes@[j] && fs.content(j) == f2.content(j));
            }
            assert(f1.inodes@[id].all_ids() == f0.inodes@[id].all_ids());
            if id != d {
                assert(f1.inodes@[d] == f0.inodes@[d] && f1.content(d) == f0.content(d));
                assert(f2.inodes@[d] == f1.inodes@[d] && f2.content(d) == f1.content(d));
                assert(fs.inodes@[id] == f2.inodes@[id] && fs.content(id) == f2.content(id));
            }
        }
        0
    }
}

} // verus!
