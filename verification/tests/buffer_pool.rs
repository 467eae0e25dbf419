use record_store::error::StorageError;
use record_store::fm::{FileHandle, FileManager, FileManagerConfig};
use record_store::mm::BufferManager;

fn open_new() -> FileHandle {
    let fm = FileManager::new(FileManagerConfig::default());
    fm.open_file(fm.create_table_file().unwrap()).unwrap()
}

fn with_blocks(n: u32) -> FileHandle {
    let mut h = open_new();
    for i in 1..=n {
        assert_eq!(h.allocate_block(), Ok(i));
    }
    h
}

#[test]
fn written_frame_survives_reopen() {
    let mut pool = BufferManager::new(with_blocks(1), 4);
    let guard = pool.fetch(1).unwrap();
    assert_eq!(pool.write_frame(&guard, 0, &vec![0xAAu8; 4096]), Ok(()));
    pool.mark_dirty(1);
    pool.release(guard);
    assert_eq!(pool.flush_all(), Ok(()));
    let image = pool.into_handle().to_image();
    let fm = FileManager::new(FileManagerConfig::default());
    let mut pool = BufferManager::new(fm.open_file(image).unwrap(), 4);
    assert_eq!(pool.handle().header().blk_cnt, 2);
    let guard = pool.fetch(1).unwrap();
    assert_eq!(pool.frame(&guard).unwrap()[0], 0xAA);
    assert!(pool.frame(&guard).unwrap().iter().all(|b| *b == 0xAA));
}

#[test]
fn all_pinned_then_unpin_evicts() {
    let mut pool = BufferManager::new(with_blocks(3), 2);
    let g1 = pool.fetch(1).unwrap();
    let _g2 = pool.fetch(2).unwrap();
    assert_eq!(pool.write_frame(&g1, 0, &[9, 9, 9, 9]), Ok(()));
    pool.mark_dirty(1);
    assert!(matches!(pool.fetch(3), Err(StorageError::NoVictim)));
    pool.unpin(1);
    let g3 = pool.fetch(3).unwrap();
    assert_eq!(g3.block_id(), 3);
    // block 1 is gone from the pool and its bytes are on disk
    assert!(pool.frame(&g1).is_none());
    let mut buf = vec![0u8; 4096];
    pool.handle().read_block(1, &mut buf).unwrap();
    assert_eq!(&buf[..4], &[9, 9, 9, 9]);
    assert!(pool.frame(&_g2).is_some());
}

#[test]
fn hit_sees_the_same_bytes() {
    let mut pool = BufferManager::new(with_blocks(2), 4);
    let g = pool.fetch(1).unwrap();
    pool.write_frame(&g, 0, &42u32.to_le_bytes()).unwrap();
    let first = pool.frame(&g).unwrap().to_vec();
    pool.mark_dirty(1);
    pool.unpin(1);
    let g = pool.fetch(1).unwrap();
    assert_eq!(pool.frame(&g).unwrap(), &first[..]);
    assert_eq!(&pool.frame(&g).unwrap()[..4], &[42, 0, 0, 0]);
    pool.release(g);
    pool.flush_all().unwrap();
    let mut buf = vec![0u8; 4096];
    pool.handle().read_block(1, &mut buf).unwrap();
    assert_eq!(buf, first);
}

#[test]
fn least_recently_used_goes_first() {
    let mut pool = BufferManager::new(with_blocks(4), 3);
    for b in 1..=3u32 {
        let g = pool.fetch(b).unwrap();
        pool.release(g);
    }
    // use block 1 again: block 2 is now the least recently used
    let g = pool.fetch(1).unwrap();
    pool.release(g);
    let g4 = pool.fetch(4).unwrap();
    assert!(pool.frame(&g4).is_some());
    assert!(pool.is_resident(1));
    assert!(!pool.is_resident(2));
    assert!(pool.is_resident(3));
    assert!(pool.is_resident(4));
    assert_eq!(pool.pin_count(4), Some(1));
    assert_eq!(pool.pin_count(1), Some(0));
    assert_eq!(pool.pin_count(2), None);
}

#[test]
fn fetch_errors() {
    let mut pool = BufferManager::new(with_blocks(1), 0);
    assert!(matches!(pool.fetch(0), Err(StorageError::InvalidInput)));
    assert!(matches!(pool.fetch(2), Err(StorageError::OutOfRange)));
    assert!(matches!(pool.fetch(1), Err(StorageError::NoVictim)));
    pool.unpin(1);
    pool.mark_dirty(1);
}

#[test]
fn data_pages_start_empty() {
    let mut pool = BufferManager::new(open_new(), 4);
    assert_eq!(pool.allocate_data_page(), Ok(1));
    assert!(!pool.is_resident(1));
    let g = pool.fetch(1).unwrap();
    assert_eq!(&pool.frame(&g).unwrap()[..8], &[0, 0, 6, 0, 0xFA, 0x0F, 0, 0]);
    pool.release(g);
    assert_eq!(pool.free_page(0), Err(StorageError::InvalidInput));
    assert_eq!(pool.free_page(9), Err(StorageError::OutOfRange));
}

#[test]
fn free_page_drops_the_frame_and_frees_the_block() {
    let mut pool = BufferManager::new(with_blocks(2), 4);
    let g = pool.fetch(2).unwrap();
    pool.write_frame(&g, 100, &[1, 2, 3]).unwrap();
    pool.mark_dirty(2);
    assert_eq!(pool.free_page(2), Ok(()));
    assert!(!pool.is_resident(2));
    assert!(pool.frame(&g).is_none());
    assert_eq!(pool.write_frame(&g, 0, &[1]), Err(StorageError::NotFound));
    assert_eq!(pool.handle().header().first_free_hole, 2);
    // nothing was written back: the block is zero behind its links
    let mut buf = vec![9u8; 4096];
    pool.handle().read_block(2, &mut buf).unwrap();
    assert!(buf[12..].iter().all(|b| *b == 0));
    // freeing it again changes nothing
    assert_eq!(pool.free_page(2), Ok(()));
    assert_eq!(pool.handle().header().first_free_hole, 2);
    assert_eq!(pool.allocate_data_page(), Ok(2));
    assert_eq!(pool.handle().header().first_free_hole, -1);
}

#[test]
fn freeing_a_data_page_makes_it_the_head() {
    let mut pool = BufferManager::new(open_new(), 4);
    assert_eq!(pool.allocate_data_page(), Ok(1));
    assert_eq!(pool.allocate_data_page(), Ok(2));
    let g = pool.fetch(1).unwrap();
    pool.write_frame(&g, 6, b"changed").unwrap();
    pool.mark_dirty(1);
    pool.release(g);
    assert_eq!(pool.free_page(1), Ok(()));
    assert!(!pool.is_resident(1));
    assert_eq!(pool.handle().header().first_free_hole, 1);
    let links = pool.handle().read_page_header(1).unwrap();
    assert_eq!((links.next_free_page, links.prev_free_page, links.free_bytes), (-1, -1, 4084));
    // the frame was not written back: the block is zero behind its links
    let mut buf = vec![9u8; 4096];
    pool.handle().read_block(1, &mut buf).unwrap();
    assert!(buf[12..].iter().all(|b| *b == 0));
    assert_eq!(pool.free_page(2), Ok(()));
    assert_eq!(pool.handle().header().first_free_hole, 2);
    assert_eq!(pool.handle().read_page_header(2).unwrap().next_free_page, 1);
    assert_eq!(pool.handle().read_page_header(1).unwrap().prev_free_page, 2);
    assert_eq!(pool.allocate_data_page(), Ok(2));
    assert_eq!(pool.allocate_data_page(), Ok(1));
    assert_eq!(pool.allocate_data_page(), Ok(3));
}

#[test]
fn write_frame_bounds() {
    let mut pool = BufferManager::new(with_blocks(1), 1);
    let g = pool.fetch(1).unwrap();
    assert_eq!(pool.write_frame(&g, 4095, &[1]), Ok(()));
    assert_eq!(pool.write_frame(&g, 4095, &[1, 2]), Err(StorageError::InvalidInput));
    assert_eq!(pool.write_frame(&g, 4097, &[]), Err(StorageError::InvalidInput));
    assert_eq!(pool.write_frame(&g, 4096, &[]), Ok(()));
    assert_eq!(pool.frame(&g).unwrap()[4095], 1);
    assert_eq!(pool.capacity(), 1);
    assert_eq!(pool.block_size(), 4096);
}

#[test]
fn a_hit_keeps_frame_bytes_pins_and_dirty_flag() {
    let mut pool = BufferManager::new(with_blocks(2), 2);
    let g1 = pool.fetch(1).unwrap();
    let g2 = pool.fetch(1).unwrap();
    assert_eq!(pool.pin_count(1), Some(2));
    pool.write_frame(&g1, 10, &[1, 2, 3]).unwrap();
    let seen = pool.frame(&g1).unwrap().to_vec();
    let on_disk = pool.handle().to_image();
    pool.release(g2);
    let g3 = pool.fetch(1).unwrap();
    assert_eq!(pool.pin_count(1), Some(2));
    assert_eq!(pool.frame(&g3).unwrap(), &seen[..]);
    // nothing was marked dirty and nothing written
    assert_eq!(pool.handle().to_image(), on_disk);
    pool.release(g3);
    pool.release(g1);
    assert_eq!(pool.pin_count(1), Some(0));
    let g = pool.fetch(1).unwrap();
    assert_eq!(pool.pin_count(1), Some(1));
    assert_eq!(&pool.frame(&g).unwrap()[10..13], &[1, 2, 3]);
}
