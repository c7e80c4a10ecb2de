//! Directory entries: a name field of 28 bytes, zero padded, then the inode
//! number in four little-endian bytes.
use vstd::prelude::*;
use vstd::string::StringSliceAdditionalSpecFns;
use crate::layout::{DIRENT_SZ, NAME_LENGTH_LIMIT};

verus! {

/// Bytes of the name field.
pub const NAME_FIELD_SZ: usize = 28;

/// The four little-endian bytes of `v`.
pub open spec fn le_bytes(v: u32) -> Seq<u8> {
    seq![
        (v & 0xff) as u8,
        ((v >> 8u32) & 0xff) as u8,
        ((v >> 16u32) & 0xff) as u8,
        ((v >> 24u32) & 0xff) as u8,
    ]
}

/// The number that four little-endian bytes spell.
pub open spec fn le_value(b0: u8, b1: u8, b2: u8, b3: u8) -> u32 {
    (b0 as u32) | ((b1 as u32) << 8u32) | ((b2 as u32) << 16u32) | ((b3 as u32) << 24u32)
}

/// The 32 bytes of an entry naming `name` (at most 27 bytes) and inode `ino`.
pub open spec fn entry_bytes(name: Seq<u8>, ino: u32) -> Seq<u8> {
    name + Seq::new((NAME_FIELD_SZ - name.len()) as nat, |i: int| 0u8) + le_bytes(ino)
}

/// Whether entry bytes `e` hold the name `name`: its bytes, none of them
/// zero, followed by a zero.
pub open spec fn name_matches(e: Seq<u8>, name: Seq<u8>) -> bool {
    &&& name.len() <= NAME_LENGTH_LIMIT
    &&& forall|j: int| 0 <= j < name.len() ==> e[j] == name[j] && name[j] != 0
    &&& e[name.len() as int] == 0
}

/// Inode number held by entry bytes `e`.
pub open spec fn entry_ino(e: Seq<u8>) -> u32 {
    le_value(e[28], e[29], e[30], e[31])
}

/// Length of the name in the entry bytes `e`: the position of the first zero
/// byte at or after `i` in the name field.
pub open spec fn name_len_from(e: Seq<u8>, i: int) -> int
    decreases NAME_FIELD_SZ - i,
{
    if i >= NAME_FIELD_SZ {
        NAME_FIELD_SZ as int
    } else if e[i] == 0 {
        i
    } else {
        name_len_from(e, i + 1)
    }
}

/// The name that entry bytes `e` hold.
pub open spec fn stored_name(e: Seq<u8>) -> Seq<u8> {
    e.subrange(0, name_len_from(e, 0))
}

/// Entry bytes written for `name` and `ino` give back `ino`, and `name` if it
/// holds no zero byte.
pub proof fn lemma_entry_bytes(name: Seq<u8>, ino: u32)
    requires
        name.len() <= NAME_LENGTH_LIMIT,
    ensures
        entry_bytes(name, ino).len() == 32,
        entry_ino(entry_bytes(name, ino)) == ino,
        (forall|j: int| 0 <= j < name.len() ==> name[j] != 0) ==> name_matches(
            entry_bytes(name, ino),
            name,
        ),
{
    let e = entry_bytes(name, ino);
    lemma_le_round_trip(ino);
    assert(e[28] == le_bytes(ino)[0] && e[29] == le_bytes(ino)[1] && e[30] == le_bytes(ino)[2]
        && e[31] == le_bytes(ino)[3]);
}

proof fn lemma_le_round_trip(v: u32)
    ensures
        le_value(le_bytes(v)[0], le_bytes(v)[1], le_bytes(v)[2], le_bytes(v)[3]) == v,
{
    assert(((((v & 0xff) as u8) as u32) | (((((v >> 8u32) & 0xff) as u8) as u32) << 8u32) | (((((v
        >> 16u32) & 0xff) as u8) as u32) << 16u32) | (((((v >> 24u32) & 0xff) as u8) as u32)
        << 24u32)) == v) by (bit_vector);
}

/// A directory entry. An entry whose name is empty marks a free slot.
pub struct DirEntry {
    name: Vec<u8>,
    inode_number: u32,
}

impl DirEntry {
    /// The name field holds exactly its 28 bytes.
    pub closed spec fn wf(&self) -> bool {
        self.name@.len() == NAME_FIELD_SZ
    }

    /// The entry's 32 bytes.
    pub closed spec fn bytes(&self) -> Seq<u8> {
        self.name@ + le_bytes(self.inode_number)
    }

    /// An entry with an empty name and inode number 0: a free slot.
    pub fn empty() -> (r: DirEntry)
        ensures
            r.wf(),
            r.bytes() == Seq::new(DIRENT_SZ as nat, |i: int| 0u8),
    {
        let mut name: Vec<u8> = Vec::new();
        while name.len() < NAME_FIELD_SZ
            invariant
                name@.len() <= NAME_FIELD_SZ,
                forall|j: int| 0 <= j < name@.len() ==> name@[j] == 0u8,
            decreases NAME_FIELD_SZ - name@.len(),
        {
            name.push(0u8);
        }
        let r = DirEntry { name, inode_number: 0 };
        assert(le_bytes(0) =~= seq![0u8, 0u8, 0u8, 0u8]) by {
            assert((0u32 & 0xff) as u8 == 0u8 && ((0u32 >> 8u32) & 0xff) as u8 == 0u8 && ((0u32
                >> 16u32) & 0xff) as u8 == 0u8 && ((0u32 >> 24u32) & 0xff) as u8 == 0u8)
                by (bit_vector);
        }
        assert(r.bytes() =~= Seq::new(DIRENT_SZ as nat, |i: int| 0u8));
        r
    }

    /// An entry naming `name`, which has at most 27 bytes, and inode `inode_number`.
    pub fn new(name: &str, inode_number: u32) -> (r: DirEntry)
        requires
            name.spec_bytes().len() <= NAME_LENGTH_LIMIT,
        ensures
            r.wf(),
            r.bytes() == entry_bytes(name.spec_bytes(), inode_number),
    {
        let src = name.as_bytes();
        let mut field: Vec<u8> = Vec::new();
        let mut i: usize = 0;
        while i < src.len()
            invariant
                src@ == name.spec_bytes(),
                src@.len() <= NAME_LENGTH_LIMIT,
                i <= src@.len(),
                field@ == src@.subrange(0, i as int),
            decreases src@.len() - i,
        {
            field.push(src[i]);
            i = i + 1;
        }
        while field.len() < NAME_FIELD_SZ
            invariant
                src@ == name.spec_bytes(),
                src@.len() <= field@.len() <= NAME_FIELD_SZ,
                field@.subrange(0, src@.len() as int) == src@,
                forall|j: int| src@.len() <= j < field@.len() ==> field@[j] == 0u8,
            decreases NAME_FIELD_SZ - field@.len(),
        {
            field.push(0u8);
            assert(field@.subrange(0, src@.len() as int) =~= src@);
        }
        let r = DirEntry { name: field, inode_number };
        assert(r.bytes() =~= entry_bytes(name.spec_bytes(), inode_number)) by {
            assert(field@ =~= src@ + Seq::new((NAME_FIELD_SZ - src@.len()) as nat, |i: int| 0u8));
        }
        r
    }

    /// Decodes an entry from its 32 bytes.
    pub fn from_bytes(b: &[u8]) -> (r: DirEntry)
        requires
            b@.len() == DIRENT_SZ,
        ensures
            r.wf(),
            r.bytes() == b@.subrange(0, 28) + le_bytes(entry_ino(b@)),
            r.inode_number() == entry_ino(b@),
    {
        let mut name: Vec<u8> = Vec::new();
        let mut i: usize = 0;
        while i < NAME_FIELD_SZ
            invariant
                b@.len() == DIRENT_SZ,
                i <= NAME_FIELD_SZ,
                name@ == b@.subrange(0, i as int),
            decreases NAME_FIELD_SZ - i,
        {
            name.push(b[i]);
            i = i + 1;
        }
        let ino = (b[28] as u32) | ((b[29] as u32) << 8u32) | ((b[30] as u32) << 16u32) | ((
        b[31] as u32) << 24u32);
        DirEntry { name, inode_number: ino }
    }

    /// The entry's 32 bytes.
    pub fn as_bytes(&self) -> (r: Vec<u8>)
        requires
            self.wf(),
        ensures
            r@ == self.bytes(),
            r@.len() == DIRENT_SZ,
    {
        let mut r: Vec<u8> = Vec::new();
        let mut i: usize = 0;
        while i < NAME_FIELD_SZ
            invariant
                self.wf(),
                i <= NAME_FIELD_SZ,
                r@ == self.name@.subrange(0, i as int),
            decreases NAME_FIELD_SZ - i,
        {
            r.push(self.name[i]);
            i = i + 1;
        }
        let v = self.inode_number;
        r.push((v & 0xff) as u8);
        r.push(((v >> 8u32) & 0xff) as u8);
        r.push(((v >> 16u32) & 0xff) as u8);
        r.push(((v >> 24u32) & 0xff) as u8);
        assert(r@ =~= self.bytes());
        r
    }

    /// Inode number of the entry.
    pub closed spec fn inode_number_spec(&self) -> u32 {
        self.inode_number
    }

    /// Inode number of the entry.
    #[verifier::when_used_as_spec(inode_number_spec)]
    pub fn inode_number(&self) -> (r: u32)
        ensures
            r == self.inode_number_spec(),
    {
        self.inode_number
    }

    /// The name: the bytes of the name field before its first zero.
    pub fn name(&self) -> (r: Vec<u8>)
        requires
            self.wf(),
        ensures
            r@ == stored_name(self.bytes()),
    {
        let ghost e = self.bytes();
        let mut r: Vec<u8> = Vec::new();
        let mut i: usize = 0;
        while i < NAME_FIELD_SZ && self.name[i] != 0
            invariant
                self.wf(),
                e == self.bytes(),
                i <= NAME_FIELD_SZ,
                r@ == e.subrange(0, i as int),
                name_len_from(e, 0) == name_len_from(e, i as int),
            decreases NAME_FIELD_SZ - i,
        {
            assert(e[i as int] == self.name@[i as int]);
            r.push(self.name[i]);
            i = i + 1;
        }
        assert(name_len_from(e, i as int) == i as int) by {
            if i < NAME_FIELD_SZ {
                assert(e[i as int] == self.name@[i as int]);
            }
        }
        r
    }

    /// Whether the entry holds the name `name`.
    pub fn has_name(&self, name: &[u8]) -> (r: bool)
        requires
            self.wf(),
        ensures
            r == name_matches(self.bytes(), name@),
    {
        if name.len() > NAME_LENGTH_LIMIT {
            return false;
        }
        let ghost e = self.bytes();
        let mut i: usize = 0;
        while i < name.len()
            invariant
                self.wf(),
                e == self.bytes(),
                name@.len() <= NAME_LENGTH_LIMIT,
                i <= name@.len(),
                forall|j: int| 0 <= j < i ==> e[j] == name@[j] && name@[j] != 0,
            decreases name@.len() - i,
        {
            assert(e[i as int] == self.name@[i as int]);
            if self.name[i] != name[i] || name[i] == 0 {
                return false;
            }
            i = i + 1;
        }
        assert(e[name@.len() as int] == self.name@[name@.len() as int]);
        self.name[name.len()] == 0
    }
}

} // verus!
