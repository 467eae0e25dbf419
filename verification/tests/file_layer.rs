use record_store::error::StorageError;
use record_store::fm::{FileHandle, FileHeader, FileManager, FileManagerConfig, PageHeader};

fn open_new() -> FileHandle {
    let fm = FileManager::new(FileManagerConfig::default());
    let image = fm.create_table_file().unwrap();
    assert_eq!(image.len(), 16 * 4096);
    fm.open_file(image).unwrap()
}

#[test]
fn allocate_free_allocate_reuses_block() {
    let mut h = open_new();
    assert_eq!(h.allocate_block(), Ok(1));
    assert_eq!(h.allocate_block(), Ok(2));
    assert_eq!(h.free_block(1), Ok(()));
    assert_eq!(h.header().first_free_hole, 1);
    assert_eq!(h.allocate_block(), Ok(1));
    assert_eq!(h.header().blk_cnt, 3);
    assert_eq!(h.header().first_free_hole, -1);
}

#[test]
fn freed_blocks_are_linked_both_ways() {
    let mut h = open_new();
    assert_eq!(h.allocate_block(), Ok(1));
    assert_eq!(h.allocate_block(), Ok(2));
    assert_eq!(h.allocate_block(), Ok(3));
    h.free_block(2).unwrap();
    h.free_block(3).unwrap();
    assert_eq!(h.header().first_free_hole, 3);
    let b3 = h.read_page_header(3).unwrap();
    let b2 = h.read_page_header(2).unwrap();
    assert_eq!(b3.next_free_page, 2);
    assert_eq!(b3.prev_free_page, -1);
    assert_eq!(b2.prev_free_page, 3);
    assert_eq!(b2.next_free_page, -1);
    assert_eq!(b2.free_bytes, 4096 - 12);
}

#[test]
fn header_bytes_are_little_endian() {
    let h = FileHeader { blk_cnt: 0x01020304, first_free_hole: -1, pre_f: 7, next_f: -2 };
    let b = h.to_bytes();
    assert_eq!(b, [4, 3, 2, 1, 255, 255, 255, 255, 7, 0, 0, 0, 254, 255, 255, 255]);
    assert_eq!(FileHeader::from_bytes(&b), Ok(h));
    assert_eq!(FileHeader::from_bytes(&b[..15]), Err(StorageError::Corrupt));
    let p = PageHeader::new_free(4084, 9);
    let pb = p.to_bytes();
    assert_eq!(pb, [9, 0, 0, 0, 255, 255, 255, 255, 0xF4, 0x0F, 0, 0]);
    assert_eq!(PageHeader::from_bytes(&pb), Ok(p));
}

#[test]
fn written_page_header_reads_back_through_bincode() {
    let mut h = open_new();
    assert_eq!(h.allocate_block(), Ok(1));
    let p = PageHeader { next_free_page: 0x11223344, prev_free_page: -5, free_bytes: 0xA0B0C0D0 };
    h.write_page_header(1, &p).unwrap();
    assert_eq!(h.read_page_header(1), Ok(p));
    let mut buf = vec![0u8; 4096];
    h.read_block(1, &mut buf).unwrap();
    assert_eq!(&buf[..12], &p.to_bytes()[..]);
    assert_eq!(&buf[..4], &[0x44, 0x33, 0x22, 0x11]);
}
