use easy_fs::block_cache::{BlockCacheManager, BlockDevice, BLOCK_CACHE_SIZE};

#[test]
fn modify_is_seen_through_cache_before_sync() {
    let mut dev = BlockDevice::new(64);
    let mut cache = BlockCacheManager::new();
    cache.modify(&mut dev, 3, 10, &[1, 2, 3]);
    let mut buf = [0u8; 5];
    cache.read(&mut dev, 3, 9, &mut buf);
    assert_eq!(buf, [0, 1, 2, 3, 0]);
    // not yet on the device
    assert_eq!(&dev.read_block(3)[9..14], &[0u8; 5][..]);
    cache.sync_all(&mut dev);
    assert_eq!(&dev.read_block(3)[9..14], &[0, 1, 2, 3, 0][..]);
    assert!(cache.entries.iter().all(|e| !e.dirty));
}

#[test]
fn eviction_writes_back_oldest_dirty_block() {
    let mut dev = BlockDevice::new(64);
    let mut cache = BlockCacheManager::new();
    cache.modify(&mut dev, 0, 0, &[9u8; 4]);
    for b in 1..BLOCK_CACHE_SIZE {
        let mut buf = [0u8; 1];
        cache.read(&mut dev, b, 0, &mut buf);
    }
    assert_eq!(cache.entries.len(), BLOCK_CACHE_SIZE);
    assert_eq!(&dev.read_block(0)[..4], &[0u8; 4][..]);
    let i = cache.get_block_cache(&mut dev, 40);
    assert_eq!(cache.entries[i].block_id, 40);
    assert_eq!(cache.entries.len(), BLOCK_CACHE_SIZE);
    assert!(cache.entries.iter().all(|e| e.block_id != 0));
    assert_eq!(&dev.read_block(0)[..4], &[9u8; 4][..]);
    let mut buf = [0u8; 4];
    cache.read(&mut dev, 0, 0, &mut buf);
    assert_eq!(buf, [9u8; 4]);
}

#[test]
fn device_blocks() {
    let mut dev = BlockDevice::new(4);
    assert_eq!(dev.num_blocks(), 4);
    assert_eq!(dev.read_block(2), vec![0u8; 512]);
    dev.write_block(2, vec![7u8; 512]);
    assert_eq!(dev.read_block(2), vec![7u8; 512]);
    assert_eq!(dev.read_block(1), vec![0u8; 512]);
}
