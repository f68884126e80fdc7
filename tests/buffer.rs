use matidb::buffer::BufferPool;
use matidb::storage::{DiskManager, Page};

fn pool(capacity: usize) -> BufferPool {
    BufferPool::new(DiskManager::open(&[]), capacity)
}

fn set_byte(pool: &mut BufferPool, frame: usize, at: usize, value: u8) {
    let mut page = pool.page(frame).clone();
    page.data[at] = value;
    pool.swap_page(frame, &mut page);
}

#[test]
fn test_create_and_fetch_page() {
    let mut pool = pool(10);
    let (page_id, frame) = pool.create_page().unwrap();
    assert_eq!(page_id, 0);
    set_byte(&mut pool, frame, 0, 42);
    set_byte(&mut pool, frame, 100, 99);
    let fetched = pool.fetch_page(page_id).unwrap();
    let page = pool.page(fetched);
    assert_eq!(page.data[0], 42);
    assert_eq!(page.data[100], 99);
}

#[test]
fn test_cache_hit() {
    let mut pool = pool(10);
    let (page_id, frame) = pool.create_page().unwrap();
    set_byte(&mut pool, frame, 0, 123);
    let fetched = pool.fetch_page(page_id).unwrap();
    assert_eq!(frame, fetched);
    assert_eq!(pool.page(fetched).data[0], 123);
}

#[test]
fn test_flush_and_reload() {
    let image = {
        let mut pool = pool(10);
        let (page_id, frame) = pool.create_page().unwrap();
        assert_eq!(page_id, 0);
        set_byte(&mut pool, frame, 0, 77);
        set_byte(&mut pool, frame, 4095, 88);
        pool.flush_all().unwrap();
        pool.disk().to_bytes()
    };
    let mut pool = BufferPool::new(DiskManager::open(&image), 10);
    let frame = pool.fetch_page(0).unwrap();
    let page = pool.page(frame);
    assert_eq!(page.data[0], 77);
    assert_eq!(page.data[4095], 88);
}

#[test]
fn test_eviction() {
    let mut pool = pool(3);
    let (id0, f0) = pool.create_page().unwrap();
    let (_id1, _f1) = pool.create_page().unwrap();
    let (_id2, _f2) = pool.create_page().unwrap();
    set_byte(&mut pool, f0, 0, 111);
    assert_eq!(pool.num_resident(), 3);
    let (_id3, _f3) = pool.create_page().unwrap();
    assert!(pool.num_resident() <= 3);
    pool.flush_all().unwrap();
    let fetched = pool.fetch_page(id0).unwrap();
    assert_eq!(pool.page(fetched).data[0], 111);
}

#[test]
fn buffer_test_multiple_pages() {
    let mut pool = pool(10);
    for i in 0..5u32 {
        let (page_id, frame) = pool.create_page().unwrap();
        assert_eq!(page_id, i);
        set_byte(&mut pool, frame, 0, i as u8);
    }
    for i in 0..5u32 {
        let frame = pool.fetch_page(i).unwrap();
        assert_eq!(pool.page(frame).data[0], i as u8);
    }
}

#[test]
fn test_shared_references() {
    let mut pool = pool(10);
    let (page_id, f1) = pool.create_page().unwrap();
    let f2 = pool.fetch_page(page_id).unwrap();
    let f3 = pool.fetch_page(page_id).unwrap();
    assert_eq!(f1, f2);
    assert_eq!(f2, f3);
    set_byte(&mut pool, f1, 0, 55);
    assert_eq!(pool.page(f2).data[0], 55);
    assert_eq!(pool.page(f3).data[0], 55);
}

#[test]
fn eviction_writes_back_and_reloads() {
    let mut pool = pool(1);
    let (a, fa) = pool.create_page().unwrap();
    set_byte(&mut pool, fa, 9, 7);
    let (_b, _fb) = pool.create_page().unwrap();
    assert_eq!(pool.num_resident(), 1);
    assert_eq!(pool.disk().read_page(a).unwrap().data[9], 7);
    let f = pool.fetch_page(a).unwrap();
    assert_eq!(pool.page(f).data[9], 7);
    assert_eq!(pool.num_resident(), 1);
}

#[test]
fn fetching_an_unknown_page_fails() {
    let mut pool = pool(4);
    assert!(pool.fetch_page(0).is_err());
    pool.create_page().unwrap();
    assert!(pool.fetch_page(1).is_err());
}

#[test]
fn created_pages_are_not_on_disk_until_flushed() {
    let mut pool = pool(4);
    let (id, _f) = pool.create_page().unwrap();
    assert!(pool.disk().read_page(id).is_err());
    pool.flush_all().unwrap();
    assert_eq!(pool.disk().read_page(id).unwrap().data, Page::new().data);
}

#[test]
fn zero_capacity_holds_one_page() {
    let mut pool = pool(0);
    pool.create_page().unwrap();
    pool.create_page().unwrap();
    assert_eq!(pool.num_resident(), 1);
}
