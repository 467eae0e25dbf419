use record_store::fm::{FileHandle, FileManager, FileManagerConfig};

fn open_new() -> FileHandle {
    let fm = FileManager::new(FileManagerConfig::default());
    fm.open_file(fm.create_table_file().unwrap()).unwrap()
}

/// The blocks reached from the head along forward links.
fn forward(h: &FileHandle) -> Vec<u32> {
    let mut out = Vec::new();
    let mut at = h.header().first_free_hole;
    while at != -1 {
        assert!(out.len() < h.header().blk_cnt as usize, "the list does not end");
        out.push(at as u32);
        at = h.read_page_header(at as u32).unwrap().next_free_page;
    }
    out
}

/// The blocks reached from `tail` along back links.
fn backward(h: &FileHandle, tail: Option<u32>) -> Vec<u32> {
    let mut out = Vec::new();
    let mut at = tail.map(|t| t as i32).unwrap_or(-1);
    while at != -1 {
        assert!(out.len() < h.header().blk_cnt as usize, "the list does not end");
        out.push(at as u32);
        at = h.read_page_header(at as u32).unwrap().prev_free_page;
    }
    out
}

fn assert_consistent(h: &FileHandle) -> Vec<u32> {
    let list = forward(h);
    let mut back = backward(h, list.last().copied());
    back.reverse();
    assert_eq!(list, back);
    let mut sorted = list.clone();
    sorted.sort();
    sorted.dedup();
    assert_eq!(sorted.len(), list.len());
    assert!(list.iter().all(|b| 1 <= *b && *b < h.header().blk_cnt));
    assert!(h.header().blk_cnt >= 1);
    if let Some(first) = list.first() {
        assert_eq!(h.read_page_header(*first).unwrap().prev_free_page, -1);
    }
    list
}

#[test]
fn free_list_stays_consistent() {
    let mut h = open_new();
    let mut seed: u32 = 12345;
    let mut live: Vec<u32> = Vec::new();
    for step in 0..400 {
        seed = seed.wrapping_mul(1664525).wrapping_add(1013904223);
        let before = assert_consistent(&h);
        match (seed >> 16) % 4 {
            0 | 1 => {
                let n = h.allocate_block().unwrap();
                match before.first() {
                    Some(head) => assert_eq!(n, *head),
                    None => assert_eq!(n + 1, h.header().blk_cnt),
                }
                assert!(!live.contains(&n));
                live.push(n);
                let after = assert_consistent(&h);
                assert_eq!(after, before.iter().skip(1).copied().collect::<Vec<u32>>());
            }
            2 => {
                if !live.is_empty() {
                    let n = live.remove((seed as usize >> 8) % live.len());
                    h.free_block(n).unwrap();
                    let after = assert_consistent(&h);
                    assert_eq!(after[0], n);
                    assert_eq!(&after[1..], &before[..]);
                }
            }
            _ => {
                if !before.is_empty() {
                    // freeing a block that is free already changes nothing
                    let n = before[(seed as usize >> 8) % before.len()];
                    let image = h.to_image();
                    h.free_block(n).unwrap();
                    assert_eq!(h.to_image(), image);
                } else if step % 2 == 0 {
                    h.flush().unwrap();
                }
            }
        }
    }
    assert_consistent(&h);
}

#[test]
fn allocate_then_free_from_the_list() {
    let mut h = open_new();
    for i in 1..=3u32 {
        assert_eq!(h.allocate_block(), Ok(i));
    }
    h.free_block(1).unwrap();
    h.free_block(3).unwrap();
    let before = *h.header();
    assert_eq!(before.first_free_hole, 3);
    let n = h.allocate_block().unwrap();
    assert_eq!(n, 3);
    assert_eq!(h.header().first_free_hole, 1);
    h.free_block(n).unwrap();
    assert_eq!(h.header().first_free_hole, before.first_free_hole);
    assert_eq!(h.header().blk_cnt, before.blk_cnt);
    assert_eq!(forward(&h), vec![3, 1]);
}

#[test]
fn allocate_then_free_by_appending() {
    let mut h = open_new();
    assert_eq!(h.allocate_block(), Ok(1));
    let before = *h.header();
    assert_eq!(before.first_free_hole, -1);
    let n = h.allocate_block().unwrap();
    assert_eq!(n, before.blk_cnt);
    h.free_block(n).unwrap();
    assert_eq!(h.header().first_free_hole, n as i32);
    assert_eq!(h.header().blk_cnt, before.blk_cnt + 1);
}

#[test]
fn appended_blocks_grow_the_file() {
    let mut h = open_new();
    assert_eq!(h.file_blocks(), 16);
    for i in 1..=20u32 {
        assert_eq!(h.allocate_block(), Ok(i));
    }
    assert_eq!(h.file_blocks(), 21);
    assert_eq!(h.header().blk_cnt, 21);
    let mut buf = vec![9u8; 4096];
    h.read_block(20, &mut buf).unwrap();
    assert_eq!(&buf[..12], &[255, 255, 255, 255, 255, 255, 255, 255, 0xF4, 0x0F, 0, 0]);
    assert!(buf[12..].iter().all(|b| *b == 0));
}
