use record_store::error::StorageError;
use record_store::fm::{block_offset, FileHandle, FileManager, FileManagerConfig, PageHeader};

fn with_blocks(n: u32) -> FileHandle {
    let fm = FileManager::new(FileManagerConfig::default());
    let mut h = fm.open_file(fm.create_table_file().unwrap()).unwrap();
    for i in 1..=n {
        assert_eq!(h.allocate_block(), Ok(i));
    }
    h
}

fn links(h: &FileHandle, n: u32) -> (i32, i32) {
    let p = h.read_page_header(n).unwrap();
    (p.next_free_page, p.prev_free_page)
}

#[test]
fn first_block_with_enough_room_is_taken() {
    let mut h = with_blocks(4);
    for b in [1u32, 2, 3, 4] {
        h.free_block(b).unwrap();
    }
    // the list is 4, 3, 2, 1; give them 10, 20, 30 and 40 free bytes
    h.update_free_bytes(4, 10).unwrap();
    h.update_free_bytes(3, 20).unwrap();
    h.update_free_bytes(2, 30).unwrap();
    h.update_free_bytes(1, 40).unwrap();
    assert_eq!(h.header().first_free_hole, 4);
    assert_eq!(h.allocate_block_with_space(25), Ok(2));
    assert_eq!(links(&h, 2), (-1, -1));
    assert_eq!(h.read_page_header(2).unwrap().free_bytes, 30);
    assert_eq!(links(&h, 3), (1, 4));
    assert_eq!(links(&h, 1), (-1, 3));
    assert_eq!(h.header().first_free_hole, 4);
    // nothing on the list has 100 bytes free: a block is appended
    assert_eq!(h.allocate_block_with_space(100), Ok(5));
    assert_eq!(h.header().blk_cnt, 6);
    assert_eq!(h.read_page_header(5).unwrap(), PageHeader::clear(4096 - 12));
    // the head fits
    assert_eq!(h.allocate_block_with_space(10), Ok(4));
    assert_eq!(h.header().first_free_hole, 3);
    assert_eq!(links(&h, 3), (1, -1));
    assert_eq!(h.allocate_block_with_space(0), Ok(3));
    assert_eq!(h.allocate_block_with_space(0), Ok(1));
    assert_eq!(h.header().first_free_hole, -1);
    assert_eq!(h.allocate_block_with_space(0), Ok(6));
}

#[test]
fn free_bytes_move_a_block_on_and_off_the_list() {
    let mut h = with_blocks(3);
    // not on the list, bytes free: it becomes the head
    assert_eq!(h.update_free_bytes(2, 100), Ok(()));
    assert_eq!(h.header().first_free_hole, 2);
    assert_eq!(h.read_page_header(2).unwrap(), PageHeader::new_free(100, -1));
    assert_eq!(h.update_free_bytes(3, 50), Ok(()));
    assert_eq!(h.header().first_free_hole, 3);
    assert_eq!(links(&h, 3), (2, -1));
    assert_eq!(links(&h, 2), (-1, 3));
    // on the list, other count: only the count changes
    assert_eq!(h.update_free_bytes(2, 7), Ok(()));
    assert_eq!(h.read_page_header(2).unwrap().free_bytes, 7);
    assert_eq!(links(&h, 2), (-1, 3));
    // on the list, nothing free: it leaves the list
    assert_eq!(h.update_free_bytes(3, 0), Ok(()));
    assert_eq!(h.header().first_free_hole, 2);
    assert_eq!(h.read_page_header(3).unwrap(), PageHeader::clear(0));
    assert_eq!(links(&h, 2), (-1, -1));
    // not on the list, nothing free: only the count changes
    assert_eq!(h.update_free_bytes(1, 0), Ok(()));
    assert_eq!(h.read_page_header(1).unwrap(), PageHeader::clear(0));
    assert_eq!(h.header().first_free_hole, 2);
}

#[test]
fn update_free_bytes_errors() {
    let mut h = with_blocks(2);
    assert_eq!(h.update_free_bytes(1, 4085), Err(StorageError::InvalidInput));
    assert_eq!(h.update_free_bytes(1, 4084), Ok(()));
    assert_eq!(h.update_free_bytes(0, 1), Err(StorageError::InvalidInput));
    assert_eq!(h.update_free_bytes(3, 1), Err(StorageError::OutOfRange));
    // block 2 is on no list: what its first bytes say of links does not
    // count, and only the count is written
    h.write_page_header(2, &PageHeader { next_free_page: 77, prev_free_page: -1, free_bytes: 5 })
        .unwrap();
    assert_eq!(h.update_free_bytes(2, 0), Ok(()));
    assert_eq!(
        h.read_page_header(2).unwrap(),
        PageHeader { next_free_page: 77, prev_free_page: -1, free_bytes: 0 }
    );
    // the head of the list links to a block that the file does not have
    h.free_block(1).unwrap();
    h.write_page_header(1, &PageHeader { next_free_page: 77, prev_free_page: -1, free_bytes: 9 })
        .unwrap();
    assert_eq!(h.update_free_bytes(2, 1), Err(StorageError::Corrupt));
    assert_eq!(h.update_free_bytes(1, 0), Err(StorageError::Corrupt));
    assert_eq!(h.free_block(2), Err(StorageError::Corrupt));
    assert_eq!(h.read_page_header(1).unwrap().free_bytes, 9);
    assert_eq!(h.header().first_free_hole, 1);
}

#[test]
fn a_block_with_any_bytes_can_be_freed() {
    let mut h = with_blocks(3);
    // block 2 holds bytes that read as links
    h.write_block(2, &vec![0x11u8; 4096]).unwrap();
    assert_eq!(h.read_page_header(2).unwrap().next_free_page, 0x11111111);
    h.free_block(3).unwrap();
    assert_eq!(h.free_block(2), Ok(()));
    assert_eq!(h.header().first_free_hole, 2);
    assert_eq!(h.read_page_header(2).unwrap(), PageHeader::new_free(4084, 3));
    assert_eq!(h.read_page_header(3).unwrap().prev_free_page, 2);
    let mut buf = vec![1u8; 4096];
    h.read_block(2, &mut buf).unwrap();
    assert!(buf[12..].iter().all(|b| *b == 0));
    // and so can its free bytes be recorded
    h.write_block(1, &vec![0x22u8; 4096]).unwrap();
    assert_eq!(h.update_free_bytes(1, 40), Ok(()));
    assert_eq!(h.header().first_free_hole, 1);
    assert_eq!(h.read_page_header(1).unwrap(), PageHeader::new_free(40, 2));
    assert_eq!(h.read_page_header(2).unwrap().prev_free_page, 1);
}

#[test]
fn broken_lists_are_reported() {
    let mut h = with_blocks(3);
    h.free_block(1).unwrap();
    h.free_block(2).unwrap();
    // the head's forward link names block 9
    let mut p = h.read_page_header(2).unwrap();
    p.next_free_page = 9;
    h.write_page_header(2, &p).unwrap();
    assert_eq!(h.allocate_block(), Err(StorageError::Corrupt));
    assert_eq!(h.header().first_free_hole, 2);
    // a list that runs in a circle
    p.next_free_page = 1;
    p.free_bytes = 0;
    h.write_page_header(2, &p).unwrap();
    let mut q = h.read_page_header(1).unwrap();
    q.next_free_page = 2;
    q.free_bytes = 0;
    h.write_page_header(1, &q).unwrap();
    assert_eq!(h.allocate_block_with_space(1), Err(StorageError::Corrupt));
}

#[test]
fn block_access_errors() {
    let mut h = with_blocks(2);
    let mut buf = vec![0u8; 4096];
    assert_eq!(h.read_block(0, &mut buf), Err(StorageError::InvalidInput));
    assert_eq!(h.read_block(3, &mut buf), Err(StorageError::OutOfRange));
    assert_eq!(h.read_block(1, &mut buf[..10]), Err(StorageError::InvalidInput));
    assert_eq!(h.write_block(0, &buf), Err(StorageError::InvalidInput));
    assert_eq!(h.write_block(3, &buf), Err(StorageError::OutOfRange));
    assert_eq!(h.write_block(1, &buf[..10]), Err(StorageError::InvalidInput));
    assert_eq!(h.check_block(2), Ok(()));
    assert_eq!(h.free_block(0), Err(StorageError::InvalidInput));
    assert_eq!(h.free_block(3), Err(StorageError::OutOfRange));
    assert_eq!(h.read_page_header(0), Err(StorageError::InvalidInput));
    assert_eq!(h.write_page_header(3, &PageHeader::clear(0)), Err(StorageError::OutOfRange));
    assert_eq!(block_offset(3), 3 * 4096);
    buf[100] = 7;
    assert_eq!(h.write_block(2, &buf), Ok(()));
    let mut back = vec![1u8; 4096];
    assert_eq!(h.read_block(2, &mut back), Ok(()));
    assert_eq!(back, buf);
}

#[test]
fn freeing_twice_is_freeing_once() {
    let mut h = with_blocks(3);
    h.free_block(2).unwrap();
    h.free_block(1).unwrap();
    let image = h.to_image();
    assert_eq!(h.free_block(2), Ok(()));
    assert_eq!(h.free_block(1), Ok(()));
    assert_eq!(h.to_image(), image);
    assert_eq!(h.header().first_free_hole, 1);
    assert_eq!(links(&h, 1), (2, -1));
    assert_eq!(links(&h, 2), (-1, 1));
}

#[test]
fn flush_writes_the_header_block() {
    let mut h = with_blocks(2);
    assert!(h.header_dirty());
    let before = h.to_image();
    assert_eq!(&before[..4], &[1, 0, 0, 0]);
    assert_eq!(h.flush(), Ok(()));
    assert!(!h.header_dirty());
    let after = h.to_image();
    assert_eq!(&after[..16], &h.header().to_bytes()[..]);
    assert_eq!(&after[..8], &[3, 0, 0, 0, 255, 255, 255, 255]);
    assert!(after[16..4096].iter().all(|b| *b == 0));
    assert_eq!(&after[4096..], &before[4096..]);
    assert_eq!(h.sync(), Ok(()));
    assert_eq!(h.file_blocks(), 16);
    assert_eq!(h.block_size(), 4096);
}
