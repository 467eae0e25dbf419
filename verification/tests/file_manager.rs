use record_store::error::StorageError;
use record_store::fm::{
    FileHeader, FileManager, FileManagerConfig, BLOCK_SIZE, MAX_BLOCK_SIZE, MIN_BLOCK_SIZE,
    PREALLOC_SIZE,
};

fn manager(block_size: usize, preallocate_bytes: u64) -> FileManager {
    FileManager::new(FileManagerConfig { block_size, preallocate_bytes })
}

#[test]
fn default_configuration() {
    let c = FileManagerConfig::default();
    assert_eq!(c.block_size, 4096);
    assert_eq!(c.preallocate_bytes, 16 * 4096);
    assert_eq!(BLOCK_SIZE, 4096);
    assert_eq!(PREALLOC_SIZE, 256 * 4096);
    assert_eq!((MIN_BLOCK_SIZE, MAX_BLOCK_SIZE), (16, 65535));
    let fm = FileManager::new(c);
    assert_eq!(fm.config().block_size, 4096);
    assert_eq!(fm.align_prealloc(), 65536);
}

#[test]
fn preallocation_is_rounded_up_to_whole_blocks() {
    assert_eq!(manager(4096, 0).align_prealloc(), 4096);
    assert_eq!(manager(4096, 1).align_prealloc(), 4096);
    assert_eq!(manager(4096, 4096).align_prealloc(), 4096);
    assert_eq!(manager(4096, 4097).align_prealloc(), 8192);
    assert_eq!(manager(100, 250).align_prealloc(), 300);
    assert_eq!(manager(100, 250).create_table_file().unwrap().len(), 300);
}

#[test]
fn new_file_image() {
    let image = manager(64, 100).create_table_file().unwrap();
    assert_eq!(image.len(), 128);
    assert_eq!(&image[..16], &FileHeader::new().to_bytes()[..]);
    assert_eq!(&image[..8], &[1, 0, 0, 0, 255, 255, 255, 255]);
    assert!(image[8..].iter().all(|b| *b == 0));
    let h = manager(64, 100).open_file(image).unwrap();
    assert_eq!(*h.header(), FileHeader::new());
    assert_eq!(h.file_blocks(), 2);
    assert_eq!(h.block_size(), 64);
    assert!(!h.header_dirty());
}

#[test]
fn unusable_configurations() {
    assert_eq!(manager(15, 0).create_table_file(), Err(StorageError::InvalidInput));
    assert_eq!(manager(65536, 0).create_table_file(), Err(StorageError::InvalidInput));
    assert_eq!(manager(0, 0).create_table_file(), Err(StorageError::InvalidInput));
    assert_eq!(manager(16, u64::MAX).create_table_file(), Err(StorageError::InvalidInput));
    assert!(manager(16, 0).create_table_file().is_ok());
    assert!(matches!(manager(15, 0).open_file(vec![0u8; 64]), Err(StorageError::InvalidInput)));
    assert!(matches!(manager(65536, 0).open_file(vec![0u8; 65536]), Err(StorageError::InvalidInput)));
}

#[test]
fn broken_images_are_corrupt() {
    let fm = manager(64, 0);
    let good = fm.create_table_file().unwrap();
    assert!(fm.open_file(good.clone()).is_ok());
    // shorter than one block, or not a whole number of blocks
    assert!(matches!(fm.open_file(vec![0u8; 63]), Err(StorageError::Corrupt)));
    assert!(matches!(fm.open_file(Vec::new()), Err(StorageError::Corrupt)));
    let mut ragged = good.clone();
    ragged.push(0);
    assert!(matches!(fm.open_file(ragged), Err(StorageError::Corrupt)));
    // a block count of zero, or beyond the file
    let with_header = |h: FileHeader| {
        let mut image = vec![0u8; 128];
        image[..16].copy_from_slice(&h.to_bytes());
        image
    };
    let h = FileHeader::new();
    assert!(matches!(fm.open_file(with_header(FileHeader { blk_cnt: 0, ..h })), Err(StorageError::Corrupt)));
    assert!(matches!(fm.open_file(with_header(FileHeader { blk_cnt: 3, ..h })), Err(StorageError::Corrupt)));
    assert!(fm.open_file(with_header(FileHeader { blk_cnt: 2, ..h })).is_ok());
    // a free-list head that is no data block
    for head in [-2, 0, 2, 100] {
        let bad = FileHeader { blk_cnt: 2, first_free_hole: head, ..h };
        assert!(matches!(fm.open_file(with_header(bad)), Err(StorageError::Corrupt)));
    }
    let ok = FileHeader { blk_cnt: 2, first_free_hole: 1, pre_f: 5, next_f: -7 };
    let opened = fm.open_file(with_header(ok)).unwrap();
    assert_eq!(*opened.header(), ok);
}

#[test]
fn reserved_fields_round_trip() {
    let fm = manager(64, 0);
    let mut image = vec![0u8; 128];
    let h = FileHeader { blk_cnt: 1, first_free_hole: -1, pre_f: 0x01020304, next_f: -99 };
    image[..16].copy_from_slice(&h.to_bytes());
    let mut handle = fm.open_file(image).unwrap();
    assert_eq!(handle.allocate_block(), Ok(1));
    handle.flush().unwrap();
    let back = fm.open_file(handle.to_image()).unwrap();
    assert_eq!(back.header().pre_f, 0x01020304);
    assert_eq!(back.header().next_f, -99);
    assert_eq!(back.header().blk_cnt, 2);
}

#[test]
fn reopening_finds_the_file_as_it_was_left() {
    let fm = manager(4096, 0);
    let mut h = fm.open_file(fm.create_table_file().unwrap()).unwrap();
    for i in 1..=3u32 {
        assert_eq!(h.allocate_block(), Ok(i));
    }
    h.write_block(2, &vec![0x5Au8; 4096]).unwrap();
    h.free_block(3).unwrap();
    h.flush().unwrap();
    let image = h.to_image();
    assert_eq!(image.len(), 4 * 4096);
    let back = fm.open_file(image.clone()).unwrap();
    assert_eq!(back.header(), h.header());
    assert_eq!(back.header().first_free_hole, 3);
    assert_eq!(back.to_image(), image);
    let mut buf = vec![0u8; 4096];
    back.read_block(2, &mut buf).unwrap();
    assert_eq!(buf, vec![0x5Au8; 4096]);
}
