use record_store::error::StorageError;
use record_store::fm::{FileManager, FileManagerConfig};
use record_store::rm::{RecAux, Rid, TableManager};

fn new_table(capacity: usize) -> TableManager {
    let fm = FileManager::new(FileManagerConfig::default());
    let handle = fm.open_file(fm.create_table_file().unwrap()).unwrap();
    TableManager::new(handle, capacity)
}

fn account(i: usize) -> Vec<u8> {
    let cents = 100_000 + i * 50;
    format!("{},User{:05},{}.{:02}", i + 1, i + 1, cents / 100, cents % 100).into_bytes()
}

#[test]
fn ten_thousand_records() {
    let mut table = new_table(4);
    let mut rids: Vec<Rid> = Vec::new();
    for i in 0..10_000usize {
        let rid = table.insert(&account(i)).unwrap();
        assert_eq!(rid, (i as u32 + 1, 0));
        rids.push(rid);
    }
    assert_eq!(table.pool().handle().header().blk_cnt, 10_001);
    let blocks: Vec<u32> = (1..10_001u32).collect();
    let found = table.scan(&blocks).unwrap();
    assert_eq!(found.len(), 10_000);
    assert_eq!(found, rids);
    for (i, rid) in rids.iter().enumerate() {
        assert_eq!(table.get(*rid).unwrap(), account(i));
    }
    // the records survive closing and reopening the file
    let image = table.close().to_image();
    assert_eq!(image.len(), 10_001 * 4096);
    let fm = FileManager::new(FileManagerConfig::default());
    let mut table = TableManager::new(fm.open_file(image).unwrap(), 4);
    assert_eq!(table.pool().handle().header().blk_cnt, 10_001);
    assert_eq!(table.pool().handle().header().first_free_hole, -1);
    assert_eq!(table.get((1, 0)).unwrap(), account(0));
    assert_eq!(table.get((10_000, 0)).unwrap(), account(9_999));
}

#[test]
fn insert_get_delete() {
    let mut table = new_table(2);
    let a = table.insert(b"first").unwrap();
    let b = table.insert(b"second").unwrap();
    let c = table.insert(b"third").unwrap();
    assert_eq!((a, b, c), ((1, 0), (2, 0), (3, 0)));
    assert_eq!(table.get(a).unwrap(), b"first");
    assert_eq!(table.get(b).unwrap(), b"second");
    assert_eq!(table.delete(b), Ok(()));
    assert_eq!(table.get(b), Err(StorageError::NotFound));
    assert_eq!(table.delete(b), Err(StorageError::NotFound));
    assert_eq!(table.get((2, 1)), Err(StorageError::InvalidInput));
    assert_eq!(table.get((0, 0)), Err(StorageError::InvalidInput));
    assert_eq!(table.get((4, 0)), Err(StorageError::OutOfRange));
    assert_eq!(table.scan(&[1, 2, 3]).unwrap(), vec![(1, 0), (3, 0)]);
    assert_eq!(table.scan(&[3, 1]).unwrap(), vec![(3, 0), (1, 0)]);
    assert_eq!(table.scan(&[1, 9]), Err(StorageError::OutOfRange));
    assert_eq!(table.pool().pin_count(1), Some(0));
    assert_eq!(table.get(c).unwrap(), b"third");
}

#[test]
fn insert_errors_leave_the_file_alone() {
    let mut table = new_table(2);
    assert_eq!(table.insert(&vec![1u8; 4087]), Err(StorageError::NoSpace));
    assert_eq!(table.pool().handle().header().blk_cnt, 1);
    assert_eq!(table.insert(&vec![1u8; 4086]), Ok((1, 0)));
    assert_eq!(table.get((1, 0)).unwrap(), vec![1u8; 4086]);
    // a record without bytes gets a page and a slot, and reads as a
    // tombstone
    assert_eq!(table.insert(b""), Ok((2, 0)));
    assert_eq!(table.get((2, 0)), Err(StorageError::NotFound));
    assert_eq!(table.scan(&[1, 2]).unwrap(), vec![(1, 0)]);
    let mut none = new_table(0);
    assert_eq!(none.insert(b"x"), Err(StorageError::NoVictim));
    assert_eq!(none.pool().handle().header().blk_cnt, 1);
}

#[test]
fn raw_block_is_no_page() {
    let fm = FileManager::new(FileManagerConfig::default());
    let mut handle = fm.open_file(fm.create_table_file().unwrap()).unwrap();
    assert_eq!(handle.allocate_block(), Ok(1));
    let mut table = TableManager::new(handle, 2);
    assert_eq!(table.get((1, 0)), Err(StorageError::Corrupt));
    assert_eq!(table.delete((1, 0)), Err(StorageError::Corrupt));
    assert_eq!(table.scan(&[1]), Err(StorageError::Corrupt));
    assert_eq!(table.pool().pin_count(1), Some(0));
}

#[test]
fn columns_keep_their_order() {
    let mut rec = RecAux::new();
    assert!(rec.cols.is_empty());
    rec.push("id".to_string(), vec![1]);
    rec.push("name".to_string(), b"User00001".to_vec());
    assert_eq!(rec.cols.len(), 2);
    assert_eq!(rec.cols[0], ("id".to_string(), vec![1u8]));
    assert_eq!(rec.cols[1].0, "name");
}
