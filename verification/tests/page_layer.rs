use record_store::error::StorageError;
use record_store::mm::page::Page;
use record_store::mm::page_compact::PageCompact;
use record_store::mm::page_header::PageHeader;
use record_store::mm::page_ops::PageOps;

const LONG: &[u8] = b"a longer record to test fragmentation and compaction";

#[test]
fn insert_read_delete_compact() {
    let mut page = Page::new(4096).unwrap();
    assert_eq!(LONG.len(), 52);
    assert_eq!(page.insert_record(b"hello"), Ok(0));
    assert_eq!(page.insert_record(b"rustacean"), Ok(1));
    assert_eq!(page.insert_record(LONG), Ok(2));
    assert_eq!(page.get_record(0), Ok(&b"hello"[..]));
    assert_eq!(page.get_record(1), Ok(&b"rustacean"[..]));
    assert_eq!(page.get_record(2), Ok(LONG));
    let before = page.header().free_bytes;
    assert_eq!(before, 4096 - 6 - (5 + 4) - (9 + 4) - (52 + 4));
    assert_eq!(page.delete_record(1), Ok(()));
    assert_eq!(page.get_record(1), Err(StorageError::NotFound));
    assert_eq!(page.compact(4096), Ok(()));
    assert_eq!(page.get_record(0), Ok(&b"hello"[..]));
    assert_eq!(page.get_record(1), Err(StorageError::NotFound));
    assert_eq!(page.get_record(2), Ok(LONG));
    assert_eq!(page.header().free_bytes, before + 9 + 4);
    assert_eq!(page.header().slot_count, 3);
    assert_eq!(page.header().free_offset, 6 + 5 + 52);
    assert_eq!(page.slots(), &[(6, 5), (0, 0), (11, 52)]);
}

#[test]
fn insert_accounting() {
    let mut page = Page::new(4096).unwrap();
    let h0 = *page.header();
    assert_eq!(h0, PageHeader { slot_count: 0, free_offset: 6, free_bytes: 4090 });
    assert_eq!(page.insert_record(&[7u8; 100]), Ok(0));
    let h1 = *page.header();
    assert_eq!(h1.free_bytes, h0.free_bytes - 104);
    assert_eq!(h1.slot_count, 1);
    assert_eq!(h1.free_offset, 106);
}

#[test]
fn insert_errors() {
    let mut page = Page::new(64).unwrap();
    assert_eq!(page.insert_record(&[1u8; 55]), Err(StorageError::NoSpace));
    assert_eq!(page.insert_record(&[1u8; 54]), Ok(0));
    assert_eq!(page.header().free_bytes, 0);
    assert_eq!(page.insert_record(&[1u8; 1]), Err(StorageError::NoSpace));
    // a record without bytes needs its directory entry all the same
    assert_eq!(page.insert_record(b""), Err(StorageError::NoSpace));
    assert_eq!(page.get_record(1), Err(StorageError::InvalidInput));
    assert_eq!(page.delete_record(1), Err(StorageError::InvalidInput));
    assert_eq!(page.delete_record(0), Ok(()));
    assert_eq!(page.delete_record(0), Err(StorageError::NotFound));
    assert_eq!(page.header().free_bytes, 58);
    assert_eq!(page.compact(64), Ok(()));
    assert_eq!(page.header().free_offset, 6);
    assert_eq!(page.header().free_bytes, 58);
    assert_eq!(page.insert_record(&[2u8; 10]), Ok(1));
    assert!(matches!(Page::new(5), Err(StorageError::InvalidInput)));
    assert!(matches!(Page::new(65542), Err(StorageError::InvalidInput)));
    assert_eq!(Page::new(65541).unwrap().header().free_bytes, 65535);
}

#[test]
fn a_record_without_bytes() {
    let mut page = Page::new(64).unwrap();
    assert_eq!(page.insert_record(b"ab"), Ok(0));
    assert_eq!(page.insert_record(b""), Ok(1));
    assert_eq!(page.header().free_bytes, 58 - 6 - 4);
    assert_eq!(page.header().slot_count, 2);
    assert_eq!(page.header().free_offset, 8);
    assert_eq!(page.slots(), &[(6, 2), (8, 0)]);
    // an entry of length 0 is a tombstone
    assert_eq!(page.get_record(1), Err(StorageError::NotFound));
    assert_eq!(page.delete_record(1), Err(StorageError::NotFound));
    assert_eq!(page.get_record(0), Ok(&b"ab"[..]));
    // fewer than 4 bytes free: no room for the entry
    let mut full = Page::new(64).unwrap();
    assert_eq!(full.insert_record(&[1u8; 51]), Ok(0));
    assert_eq!(full.header().free_bytes, 3);
    assert_eq!(full.insert_record(b""), Err(StorageError::NoSpace));
    assert_eq!(full.header().slot_count, 1);
}

#[test]
fn compact_errors() {
    let mut page = Page::new(64).unwrap();
    page.insert_record(&[1u8; 20]).unwrap();
    page.insert_record(&[2u8; 20]).unwrap();
    // header, 40 bytes of records and two entries need 54 bytes
    assert_eq!(page.compact(53), Err(StorageError::InvalidInput));
    assert_eq!(page.header().free_bytes, 10);
    assert_eq!(page.compact(54), Ok(()));
    assert_eq!(page.header().free_bytes, 0);
    assert_eq!(page.compact(70000), Err(StorageError::InvalidInput));
    assert_eq!(page.compact(100), Ok(()));
    assert_eq!(page.header().free_bytes, 46);
    assert_eq!(page.get_record(1), Ok(&[2u8; 20][..]));
}

#[test]
fn flush_then_load_gives_the_page_back() {
    let mut page = Page::new(4096).unwrap();
    page.insert_record(b"hello").unwrap();
    page.insert_record(b"rustacean").unwrap();
    page.insert_record(LONG).unwrap();
    page.delete_record(1).unwrap();
    let mut frame = vec![0x55u8; 4096];
    assert_eq!(page.flush(&mut frame), Ok(()));
    assert_eq!(&frame[..6], &[3, 0, 72, 0, 0xB9, 0x0F]);
    assert_eq!(&frame[6..11], b"hello");
    assert_eq!(&frame[4096 - 12..], &[6, 0, 5, 0, 0, 0, 0, 0, 20, 0, 52, 0]);
    assert_eq!(frame[72], 0x55);
    let back = Page::load(&frame).unwrap();
    assert_eq!(back.header(), page.header());
    assert_eq!(back.data(), page.data());
    assert_eq!(back.slots(), page.slots());
}

#[test]
fn flush_needs_room_for_header_payload_and_directory() {
    let mut page = Page::new(4096).unwrap();
    page.insert_record(b"hello").unwrap();
    page.insert_record(b"rustacean").unwrap();
    // 6 + 14 + 8 bytes
    let mut short = vec![7u8; 27];
    assert_eq!(page.flush(&mut short), Err(StorageError::InvalidInput));
    assert_eq!(short, vec![7u8; 27]);
    let mut tight = vec![7u8; 28];
    assert_eq!(page.flush(&mut tight), Ok(()));
    assert_eq!(&tight[20..], &[6, 0, 5, 0, 11, 0, 9, 0]);
    assert_eq!(Page::load(&tight).unwrap().slots(), page.slots());
    // a frame larger than the block the page was made for
    let mut large = vec![7u8; 8192];
    assert_eq!(page.flush(&mut large), Ok(()));
    assert_eq!(&large[8192 - 8..], &[6, 0, 5, 0, 11, 0, 9, 0]);
    assert_eq!(large[20], 7);
    let back = Page::load(&large).unwrap();
    assert_eq!(back.header(), page.header());
    assert_eq!(back.data(), page.data());
    assert_eq!(back.slots(), page.slots());
    assert_eq!(back.get_record(1), Ok(&b"rustacean"[..]));
}

#[test]
fn load_takes_every_frame_with_a_legal_free_offset() {
    assert!(matches!(Page::load(&[0u8; 5]), Err(StorageError::Corrupt)));
    // free_offset below the header
    let mut frame = vec![0u8; 64];
    assert!(matches!(Page::load(&frame), Err(StorageError::Corrupt)));
    assert!(matches!(Page::load(&vec![0u8; 65536]), Err(StorageError::Corrupt)));
    // an empty page
    PageHeader { slot_count: 0, free_offset: 6, free_bytes: 58 }.to_bytes(&mut frame).unwrap();
    assert!(Page::load(&frame).is_ok());
    // whatever free_bytes says
    PageHeader { slot_count: 0, free_offset: 6, free_bytes: 59 }.to_bytes(&mut frame).unwrap();
    assert_eq!(Page::load(&frame).unwrap().header().free_bytes, 59);
    // two live slots on the same four bytes
    PageHeader { slot_count: 2, free_offset: 10, free_bytes: 46 }.to_bytes(&mut frame).unwrap();
    frame[6..10].copy_from_slice(b"abcd");
    frame[56..64].copy_from_slice(&[6, 0, 4, 0, 6, 0, 4, 0]);
    let page = Page::load(&frame).unwrap();
    assert_eq!(page.get_record(0), Ok(&b"abcd"[..]));
    assert_eq!(page.get_record(1), Ok(&b"abcd"[..]));
    // a slot that points past the payload loads, and reads as corrupt
    frame[56..64].copy_from_slice(&[6, 0, 5, 0, 3, 0, 4, 0]);
    let mut page = Page::load(&frame).unwrap();
    assert_eq!(page.get_record(0), Err(StorageError::Corrupt));
    // an offset inside the header reads from the payload's start
    assert_eq!(page.get_record(1), Ok(&b"abcd"[..]));
    assert_eq!(page.compact(64), Err(StorageError::Corrupt));
    assert_eq!(page.slots(), &[(6, 5), (3, 4)]);
    // free_offset at the directory's start, and inside it
    PageHeader { slot_count: 2, free_offset: 56, free_bytes: 0 }.to_bytes(&mut frame).unwrap();
    assert!(Page::load(&frame).is_ok());
    PageHeader { slot_count: 2, free_offset: 57, free_bytes: 0 }.to_bytes(&mut frame).unwrap();
    assert!(matches!(Page::load(&frame), Err(StorageError::Corrupt)));
    PageHeader { slot_count: 15, free_offset: 10, free_bytes: 0 }.to_bytes(&mut frame).unwrap();
    assert!(matches!(Page::load(&frame), Err(StorageError::Corrupt)));
}

#[test]
fn pages_with_broken_accounting() {
    let mut frame = vec![0u8; 64];
    PageHeader { slot_count: 1, free_offset: 10, free_bytes: 65535 }.to_bytes(&mut frame).unwrap();
    frame[60..64].copy_from_slice(&[6, 0, 4, 0]);
    let mut page = Page::load(&frame).unwrap();
    // free_bytes cannot grow by 8
    assert_eq!(page.delete_record(0), Err(StorageError::Corrupt));
    assert_eq!(page.slots(), &[(6, 4)]);
    PageHeader { slot_count: 65535, free_offset: 6, free_bytes: 100 }.to_bytes(&mut frame).unwrap();
    let mut big = vec![0u8; 6 + 4 * 65535];
    big[..6].copy_from_slice(&frame[..6]);
    let mut page = Page::load(&big).unwrap();
    // no slot number left
    assert_eq!(page.insert_record(b"x"), Err(StorageError::Corrupt));
    assert_eq!(page.insert_record(&[0u8; 97]), Err(StorageError::NoSpace));
}

#[test]
fn page_header_bytes() {
    let h = PageHeader { slot_count: 0x0102, free_offset: 0x0304, free_bytes: 0xFFFE };
    let mut buf = [0u8; 8];
    assert_eq!(h.to_bytes(&mut buf), Ok(()));
    assert_eq!(buf, [2, 1, 4, 3, 0xFE, 0xFF, 0, 0]);
    assert_eq!(PageHeader::from_bytes(&buf), Ok(h));
    assert_eq!(PageHeader::from_bytes(&buf[..5]), Err(StorageError::Corrupt));
    assert_eq!(h.to_bytes(&mut buf[..5]), Err(StorageError::InvalidInput));
}
