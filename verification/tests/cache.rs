use record_store::fm::{FileManager, FileManagerConfig};
use record_store::mm::{Cache, MemoryManager, ReplacementPolicy};

#[test]
fn lru_gives_up_the_least_recently_used() {
    let mut c: Cache<u32> = Cache::new(2, ReplacementPolicy::LRU);
    c.insert("a".to_string(), 1);
    c.insert("b".to_string(), 2);
    assert_eq!(c.get("a"), Some(&1));
    c.insert("c".to_string(), 3);
    assert_eq!(c.len(), 2);
    assert!(!c.contains_key("b"));
    assert_eq!(c.get("b"), None);
    assert_eq!(c.get("a"), Some(&1));
    assert_eq!(c.get("c"), Some(&3));
}

#[test]
fn reinserting_replaces_the_value() {
    let mut c: Cache<u32> = Cache::new(2, ReplacementPolicy::LRU);
    c.insert("a".to_string(), 1);
    c.insert("b".to_string(), 2);
    c.insert("a".to_string(), 10);
    assert_eq!(c.len(), 2);
    // "a" was used last, so "b" goes
    c.insert("c".to_string(), 3);
    assert_eq!(c.get("a"), Some(&10));
    assert!(!c.contains_key("b"));
}

#[test]
fn clock_gives_a_second_chance() {
    let mut c: Cache<u32> = Cache::new(3, ReplacementPolicy::CLOCK);
    c.insert("a".to_string(), 1);
    c.insert("b".to_string(), 2);
    c.insert("c".to_string(), 3);
    // every entry is marked: the sweep clears all marks and takes the
    // entry at the hand
    c.insert("d".to_string(), 4);
    assert!(!c.contains_key("a"));
    assert_eq!(c.len(), 3);
    // "b" and "c" lost their mark, "d" is marked; mark "b" again
    assert_eq!(c.get("b"), Some(&2));
    c.insert("e".to_string(), 5);
    assert!(c.contains_key("b"));
    assert!(!c.contains_key("c"));
    assert!(c.contains_key("d"));
    assert!(c.contains_key("e"));
}

#[test]
fn a_cache_without_capacity_holds_one_value() {
    let mut c: Cache<u32> = Cache::new(0, ReplacementPolicy::LRU);
    c.insert("a".to_string(), 1);
    assert_eq!(c.len(), 1);
    c.insert("b".to_string(), 2);
    assert_eq!(c.len(), 1);
    assert_eq!(c.get("a"), None);
    assert_eq!(c.get("b"), Some(&2));
    let mut k: Cache<u32> = Cache::new(0, ReplacementPolicy::CLOCK);
    k.insert("a".to_string(), 1);
    k.insert("b".to_string(), 2);
    assert_eq!(k.len(), 1);
    assert_eq!(k.get("b"), Some(&2));
}

#[test]
fn memory_manager_fetches_through_the_pool() {
    let fm = FileManager::new(FileManagerConfig::default());
    let mut handle = fm.open_file(fm.create_table_file().unwrap()).unwrap();
    assert_eq!(handle.allocate_block(), Ok(1));
    assert_eq!(handle.allocate_block(), Ok(2));
    let mut mm = MemoryManager::new(handle, 1, 2, 2, 2, ReplacementPolicy::CLOCK);
    mm.query_cache.insert("select 1".to_string(), "plan".to_string());
    assert_eq!(mm.query_cache.get("select 1"), Some(&"plan".to_string()));
    let g = mm.fetch_page(1).unwrap();
    assert_eq!(g.block_id(), 1);
    assert!(mm.load_page_to_victim_slot(2).is_err());
    mm.data_buffer.release(g);
    let g = mm.load_page_to_victim_slot(2).unwrap();
    assert!(mm.data_buffer.frame(&g).is_some());
    assert!(!mm.data_buffer.is_resident(1));
    assert!(mm.load_page_to_empty_slot(2).is_ok());
}
