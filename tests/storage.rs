use matidb::storage::{DiskManager, Page, PAGE_SIZE};

fn empty_disk() -> DiskManager {
    DiskManager::open(&[])
}

#[test]
fn test_write_and_read_page() {
    let mut dm = empty_disk();
    let page_id = dm.allocate_page();
    let mut page = Page::new();
    page.data[0] = 42;
    page.data[1] = 123;
    page.data[4095] = 255;
    dm.write_page(page_id, &page).unwrap();
    let read_page = dm.read_page(page_id).unwrap();
    assert_eq!(read_page.data[0], 42);
    assert_eq!(read_page.data[1], 123);
    assert_eq!(read_page.data[4095], 255);
}

#[test]
fn storage_test_multiple_pages() {
    let mut dm = empty_disk();
    let page_id_0 = dm.allocate_page();
    let page_id_1 = dm.allocate_page();
    let mut page0 = Page::new();
    page0.data[0] = 11;
    let mut page1 = Page::new();
    page1.data[0] = 22;
    dm.write_page(page_id_0, &page0).unwrap();
    dm.write_page(page_id_1, &page1).unwrap();
    let read0 = dm.read_page(page_id_0).unwrap();
    let read1 = dm.read_page(page_id_1).unwrap();
    assert_eq!(read0.data[0], 11);
    assert_eq!(read1.data[0], 22);
}

#[test]
fn test_persistence_across_reopen() {
    let image = {
        let mut dm = empty_disk();
        let page_id = dm.allocate_page();
        let mut page = Page::new();
        page.data[0] = 99;
        dm.write_page(page_id, &page).unwrap();
        assert_eq!(dm.next_page_id(), 1);
        dm.to_bytes()
    };
    let dm = DiskManager::open(&image);
    assert_eq!(dm.next_page_id(), 1);
    let page = dm.read_page(0).unwrap();
    assert_eq!(page.data[0], 99);
}

#[test]
fn test_allocate_page_increments() {
    let mut dm = empty_disk();
    assert_eq!(dm.allocate_page(), 0);
    assert_eq!(dm.allocate_page(), 1);
    assert_eq!(dm.allocate_page(), 2);
    assert_eq!(dm.next_page_id(), 3);
}

#[test]
fn test_overwrite_page() {
    let mut dm = empty_disk();
    let page_id = dm.allocate_page();
    let mut page = Page::new();
    page.data[0] = 1;
    dm.write_page(page_id, &page).unwrap();
    page.data[0] = 2;
    dm.write_page(page_id, &page).unwrap();
    let read_page = dm.read_page(page_id).unwrap();
    assert_eq!(read_page.data[0], 2);
}

#[test]
fn reading_past_the_end_fails() {
    let mut dm = empty_disk();
    let id = dm.allocate_page();
    assert!(dm.read_page(id).is_err());
}

#[test]
fn open_counts_whole_pages_only() {
    let bytes = vec![3u8; 2 * PAGE_SIZE + 100];
    let dm = DiskManager::open(&bytes);
    assert_eq!(dm.next_page_id(), 2);
    assert_eq!(dm.read_page(1).unwrap().data[0], 3);
    assert!(dm.read_page(2).is_err());
}

#[test]
fn writing_past_the_end_fills_with_zero_pages() {
    let mut dm = empty_disk();
    for _ in 0..3 {
        dm.allocate_page();
    }
    let mut page = Page::new();
    page.data[7] = 9;
    dm.write_page(2, &page).unwrap();
    assert_eq!(dm.to_bytes().len(), 3 * PAGE_SIZE);
    assert_eq!(dm.read_page(0).unwrap().data, vec![0u8; PAGE_SIZE]);
    assert_eq!(dm.read_page(2).unwrap().data[7], 9);
    assert_eq!(dm.take_written(), vec![2]);
    assert!(dm.take_written().is_empty());
}

#[test]
fn reopen_recovers_page_bytes() {
    let mut dm = empty_disk();
    let id = dm.allocate_page();
    let mut page = Page::new();
    for (i, b) in page.data.iter_mut().enumerate() {
        *b = (i % 251) as u8;
    }
    dm.write_page(id, &page).unwrap();
    let image = dm.to_bytes();
    drop(dm);
    let reopened = DiskManager::open(&image);
    assert_eq!(reopened.read_page(id).unwrap().data, page.data);
}

#[test]
fn writing_an_unallocated_id_grows_the_file_only() {
    let mut dm = empty_disk();
    let mut page = Page::new();
    page.data[0] = 4;
    dm.write_page(5, &page).unwrap();
    assert_eq!(dm.next_page_id(), 0);
    assert_eq!(dm.to_bytes().len(), 6 * PAGE_SIZE);
    assert_eq!(dm.read_page(5).unwrap().data[0], 4);
    assert_eq!(dm.allocate_page(), 0);
}
