use easy_fs::bitmap::Bitmap;
use easy_fs::dirent::DirEntry;
use easy_fs::efs::EasyFileSystem;
use easy_fs::layout::{DiskInode, DiskInodeType, SuperBlock, EFS_MAGIC};
use easy_fs::vfs::Inode;

fn volume() -> EasyFileSystem {
    EasyFileSystem::create(4096, 1)
}

fn pattern(n: usize, seed: u8) -> Vec<u8> {
    (0..n).map(|i| (i as u8).wrapping_mul(31).wrapping_add(seed)).collect()
}

#[test]
fn format_create_write_find_ls_scenario() {
    let mut fs = volume();
    let root = Inode::root(&fs);
    assert!(root.create(&mut fs, "a").is_some());
    assert!(root.create(&mut fs, "a").is_none());
    let a = root.find(&fs, "a").unwrap();
    let data = pattern(600, 7);
    assert_eq!(a.write_at(&mut fs, 0, &data), 600);
    let again = root.find(&fs, "a").unwrap();
    let mut buf = vec![0u8; 600];
    assert_eq!(again.read_at(&fs, 0, &mut buf), 600);
    assert_eq!(buf, data);
    assert_eq!(root.ls(&fs), vec![String::from("a")]);
}

#[test]
fn create_existing_name_changes_nothing() {
    let mut fs = volume();
    let root = Inode::root(&fs);
    root.create(&mut fs, "x").unwrap();
    let size = root.get_file_size(&fs);
    let free = fs.alloc_inode();
    assert_eq!(free, Some(2));
    assert!(root.create(&mut fs, "x").is_none());
    assert_eq!(root.get_file_size(&fs), size);
    assert_eq!(fs.alloc_inode(), Some(3));
}

#[test]
fn round_trip_across_indirect_tiers() {
    let mut fs = volume();
    let root = Inode::root(&fs);
    let f = root.create(&mut fs, "big").unwrap();
    let data = pattern(90_000, 3);
    assert_eq!(f.write_at(&mut fs, 0, &data), 90_000);
    assert_eq!(f.get_file_size(&fs), 90_000);
    let mut buf = vec![0u8; 90_000];
    assert_eq!(f.read_at(&fs, 0, &mut buf), 90_000);
    assert_eq!(buf, data);
}

#[test]
fn write_in_the_middle_keeps_other_bytes() {
    let mut fs = volume();
    let root = Inode::root(&fs);
    let f = root.create(&mut fs, "m").unwrap();
    f.write_at(&mut fs, 0, &[1u8; 1000]);
    assert_eq!(f.write_at(&mut fs, 510, &[9u8; 4]), 4);
    let mut buf = vec![0u8; 1000];
    assert_eq!(f.read_at(&fs, 0, &mut buf), 1000);
    assert_eq!(&buf[..510], &[1u8; 510][..]);
    assert_eq!(&buf[510..514], &[9u8; 4][..]);
    assert_eq!(&buf[514..], &[1u8; 486][..]);
}

#[test]
fn read_is_clipped_to_size() {
    let mut fs = volume();
    let root = Inode::root(&fs);
    let f = root.create(&mut fs, "s").unwrap();
    f.write_at(&mut fs, 0, b"hello");
    let mut buf = [7u8; 8];
    assert_eq!(f.read_at(&fs, 2, &mut buf), 3);
    assert_eq!(&buf, b"llo\x07\x07\x07\x07\x07");
    assert_eq!(f.read_at(&fs, 5, &mut buf), 0);
    assert_eq!(f.read_at(&fs, 50, &mut buf), 0);
}

#[test]
fn write_past_largest_file_is_refused() {
    let mut fs = volume();
    let root = Inode::root(&fs);
    let f = root.create(&mut fs, "huge").unwrap();
    assert_eq!(f.write_at(&mut fs, 8_468_480, b"x"), 0);
    assert_eq!(f.get_file_size(&fs), 0);
    assert_eq!(f.write_at(&mut fs, 0, b""), 0);
}

#[test]
fn clear_empties_and_frees_blocks() {
    let mut fs = volume();
    let root = Inode::root(&fs);
    let f = root.create(&mut fs, "c").unwrap();
    // the root directory holds data block 0
    f.write_at(&mut fs, 0, &pattern(2000, 1));
    f.clear(&mut fs);
    assert_eq!(f.get_file_size(&fs), 0);
    let mut buf = [5u8; 16];
    assert_eq!(f.read_at(&fs, 0, &mut buf), 0);
    assert_eq!(buf, [5u8; 16]);
    // the four freed data blocks are handed out again, lowest first
    assert_eq!(fs.alloc_data(), Some(1));
    assert_eq!(fs.alloc_data(), Some(2));
}

#[test]
fn clear_of_indirect_file_returns_all_blocks() {
    let mut fs = volume();
    let root = Inode::root(&fs);
    let f = root.create(&mut fs, "c2").unwrap();
    f.write_at(&mut fs, 0, &pattern(30 * 512, 1));
    let id = f.get_disk_inode(&fs) as u32;
    assert_eq!(fs.clear_blocks(id), 31);
}

#[test]
fn hard_link_counting() {
    let mut fs = volume();
    let root = Inode::root(&fs);
    let a = root.create(&mut fs, "a").unwrap();
    let data = pattern(1500, 11);
    a.write_at(&mut fs, 0, &data);
    let b = root.create_nlink(&mut fs, "b", "a").unwrap();
    let fa = root.find(&fs, "a").unwrap();
    let fb = root.find(&fs, "b").unwrap();
    assert_eq!(fa.get_disk_inode(&fs), fb.get_disk_inode(&fs));
    assert_eq!(b.get_disk_inode(&fs), a.get_disk_inode(&fs));
    assert_eq!(fa.get_disk_nlink(&fs), 2);
    assert_eq!(fb.get_disk_nlink(&fs), 2);

    assert_eq!(root.delete_nlink(&mut fs, "a"), 0);
    assert!(root.find(&fs, "a").is_none());
    let fb = root.find(&fs, "b").unwrap();
    assert_eq!(fb.get_disk_nlink(&fs), 1);
    let mut buf = vec![0u8; 1500];
    assert_eq!(fb.read_at(&fs, 0, &mut buf), 1500);
    assert_eq!(buf, data);

    assert_eq!(root.delete_nlink(&mut fs, "b"), 0);
    assert!(root.find(&fs, "b").is_none());
    assert_eq!(fb.get_disk_nlink(&fs), 0);
    assert_eq!(fb.get_file_size(&fs), 0);
    // blocks 1..=3 held the file's data and are free again
    assert_eq!(fs.alloc_data(), Some(1));
}

#[test]
fn hard_link_refusals() {
    let mut fs = volume();
    let root = Inode::root(&fs);
    root.create(&mut fs, "a").unwrap();
    root.create(&mut fs, "b").unwrap();
    assert!(root.create_nlink(&mut fs, "b", "a").is_none());
    assert!(root.create_nlink(&mut fs, "c", "missing").is_none());
    assert_eq!(root.ls(&fs), vec![String::from("a"), String::from("b")]);
}

#[test]
fn unlink_of_missing_name() {
    let mut fs = volume();
    let root = Inode::root(&fs);
    assert_eq!(root.delete_nlink(&mut fs, "nope"), -1);
}

#[test]
fn deleted_entries_leave_holes_and_are_not_listed() {
    let mut fs = volume();
    let root = Inode::root(&fs);
    root.create(&mut fs, "one").unwrap();
    root.create(&mut fs, "two").unwrap();
    root.create(&mut fs, "three").unwrap();
    assert_eq!(root.delete_file(&mut fs, "two"), 0);
    assert_eq!(root.get_file_size(&fs), 96);
    assert_eq!(root.ls(&fs), vec![String::from("one"), String::from("three")]);
    assert!(root.find(&fs, "two").is_none());
    assert!(root.find(&fs, "three").is_some());
}

#[test]
fn stat_accessors() {
    let mut fs = volume();
    let root = Inode::root(&fs);
    let f = root.create(&mut fs, "f").unwrap();
    assert_eq!(root.get_disk_type(&fs), 0o040000);
    assert_eq!(f.get_disk_type(&fs), 0o100000);
    assert_eq!(f.get_disk_nlink(&fs), 1);
    f.add_disk_nlink(&mut fs);
    assert_eq!(f.get_disk_nlink(&fs), 2);
    f.sub_disk_nlink(&mut fs);
    assert_eq!(f.get_disk_nlink(&fs), 1);
    assert_eq!(f.get_disk_inode(&fs), 1);
    assert_eq!(root.get_disk_inode(&fs), 0);
    assert!(root.find_inode(&fs, "f").is_some());
}

#[test]
fn inode_positions() {
    let fs = volume();
    assert_eq!(fs.get_disk_inode_pos(0), (2, 0));
    assert_eq!(fs.get_disk_inode_pos(5), (3, 128));
    assert_eq!(fs.get_disk_inode(3, 128), 5);
    let h = Inode::new(3, 384);
    assert_eq!(h.get_disk_inode(&fs), 7);
}

#[test]
fn volume_geometry() {
    let fs = volume();
    assert!(fs.super_block.is_valid());
    assert_eq!(fs.super_block.total_blocks, 4096);
    assert_eq!(fs.super_block.inode_bitmap_blocks, 1);
    assert_eq!(fs.super_block.inode_area_blocks, 1024);
    assert_eq!(fs.super_block.data_bitmap_blocks, 1);
    assert_eq!(fs.super_block.data_area_blocks, 3069);
    let sb = SuperBlock::initialize(10, 1, 2, 3, 4);
    assert_eq!(sb.magic, EFS_MAGIC);
    let bad = SuperBlock { magic: 1, ..sb };
    assert!(!bad.is_valid());
}

#[test]
fn bitmap_allocates_lowest_free() {
    let mut b = Bitmap::new(1);
    assert_eq!(b.maximum(), 4096);
    assert_eq!(b.alloc_bit(), Some(0));
    assert_eq!(b.alloc_bit(), Some(1));
    assert_eq!(b.alloc_bit(), Some(2));
    b.dealloc_bit(1);
    assert!(!b.is_allocated(1));
    assert!(b.is_allocated(2));
    assert_eq!(b.alloc_bit(), Some(1));
    assert_eq!(b.alloc_bit(), Some(3));
}

#[test]
fn bitmap_exhaustion() {
    let mut b = Bitmap::new(1);
    for i in 0..4096 {
        assert_eq!(b.alloc_bit(), Some(i));
    }
    assert_eq!(b.alloc_bit(), None);
    b.dealloc_bit(4000);
    assert_eq!(b.alloc_bit(), Some(4000));
}

#[test]
fn block_counts() {
    assert_eq!(DiskInode::total_blocks(0), 0);
    assert_eq!(DiskInode::total_blocks(1), 1);
    assert_eq!(DiskInode::total_blocks(512), 1);
    assert_eq!(DiskInode::total_blocks(513), 2);
    assert_eq!(DiskInode::total_blocks(28 * 512), 28);
    assert_eq!(DiskInode::total_blocks(29 * 512), 30);
    assert_eq!(DiskInode::total_blocks(156 * 512), 157);
    assert_eq!(DiskInode::total_blocks(157 * 512), 160);
    assert_eq!(DiskInode::total_blocks(284 * 512), 287);
    assert_eq!(DiskInode::total_blocks(285 * 512), 289);
    let d = DiskInode::initialize(DiskInodeType::File);
    assert_eq!(d.blocks_num_needed(600), 2);
    assert_eq!(d.blocks_num_needed(29 * 512), 30);
    assert_eq!(DiskInode::data_blocks_for(1025), 3);
}

#[test]
fn disk_inode_grow_and_clear() {
    let mut d = DiskInode::initialize(DiskInodeType::Directory);
    assert!(d.is_dir());
    assert!(!d.is_file());
    d.increase_size(29 * 512, (100..130).collect());
    assert_eq!(d.size, 29 * 512);
    assert_eq!(d.get_block_id(0), 100);
    assert_eq!(d.get_block_id(28), 128);
    let freed = d.clear_size();
    assert_eq!(freed.len(), 30);
    assert_eq!(freed, (100..130).collect::<Vec<u32>>());
    assert_eq!(d.size, 0);
}

#[test]
fn dir_entry_bytes() {
    let e = DirEntry::new("abc", 0x0102_0304);
    let b = e.as_bytes();
    assert_eq!(b.len(), 32);
    assert_eq!(&b[..4], b"abc\0");
    assert!(b[3..28].iter().all(|x| *x == 0));
    assert_eq!(&b[28..], &[4u8, 3, 2, 1][..]);
    let d = DirEntry::from_bytes(&b);
    assert_eq!(d.inode_number(), 0x0102_0304);
    assert_eq!(d.name(), b"abc".to_vec());
    assert!(d.has_name(b"abc"));
    assert!(!d.has_name(b"ab"));
    assert!(!d.has_name(b"abcd"));
    let z = DirEntry::empty();
    assert_eq!(z.as_bytes(), vec![0u8; 32]);
    assert_eq!(z.name(), Vec::<u8>::new());
}

#[test]
fn find_returns_handle_for_entry_naming_missing_inode() {
    let mut fs = volume();
    let root = Inode::root(&fs);
    root.create(&mut fs, "ok").unwrap();
    let entry = DirEntry::new("bad", 999_999).as_bytes();
    let end = root.get_file_size(&fs);
    assert_eq!(root.write_at(&mut fs, end, &entry), 32);
    let h = root.find(&fs, "bad").unwrap();
    assert!(!h.is_valid(&fs));
    assert!(root.find(&fs, "ok").unwrap().is_valid(&fs));
}

#[test]
fn handle_validity_and_use() {
    let fs = volume();
    let root = Inode::root(&fs);
    assert!(root.is_valid(&fs));
    assert!(root.is_allocated(&fs));
    assert!(!Inode::new(0, 0).is_valid(&fs));
    assert!(!Inode::new(2 + 1024, 0).is_valid(&fs));
    let other = Inode::new(2, 128);
    assert!(other.is_valid(&fs));
    assert!(!other.is_allocated(&fs));
}

#[test]
fn write_beyond_free_blocks_is_refused_and_changes_nothing() {
    let mut fs = volume();
    let root = Inode::root(&fs);
    let f = root.create(&mut fs, "full").unwrap();
    // 4096 data bits, one held by the root directory
    assert_eq!(f.write_at(&mut fs, 0, &vec![1u8; 4095 * 512]), 0);
    assert_eq!(f.get_file_size(&fs), 0);
    assert_eq!(f.write_at(&mut fs, 0, &vec![2u8; 4000 * 512]), 4000 * 512);
    assert_eq!(f.get_file_size(&fs), 4000 * 512);
}

#[test]
fn second_clear_changes_nothing() {
    let mut fs = volume();
    let root = Inode::root(&fs);
    let f = root.create(&mut fs, "c3").unwrap();
    f.write_at(&mut fs, 0, &[3u8; 700]);
    f.clear(&mut fs);
    f.clear(&mut fs);
    assert_eq!(f.get_file_size(&fs), 0);
    assert_eq!(fs.alloc_data(), Some(1));
    assert_eq!(fs.alloc_data(), Some(2));
    assert_eq!(fs.alloc_data(), Some(3));
}
