use matidb::database::{Row, Value};
use matidb::slotted_page::{SlottedPage, NO_NEXT_PAGE};
use matidb::storage::{Page, PAGE_SIZE};

fn fresh() -> SlottedPage {
    let mut slotted = SlottedPage::new(Page::new());
    slotted.init();
    slotted
}

#[test]
fn test_add_and_get_tuple() {
    let mut slotted = fresh();
    let data = vec![1, 2, 3, 4, 5];
    let slot_id = slotted.add_tuple(&data).unwrap();
    assert_eq!(slot_id, 0);
    let retrieved = slotted.get_tuple(0).unwrap();
    assert_eq!(retrieved, data);
}

#[test]
fn test_multiple_tuples() {
    let mut slotted = fresh();
    let data1 = vec![1, 2, 3];
    let data2 = vec![4, 5, 6, 7];
    let data3 = vec![8, 9];
    let slot1 = slotted.add_tuple(&data1).unwrap();
    let slot2 = slotted.add_tuple(&data2).unwrap();
    let slot3 = slotted.add_tuple(&data3).unwrap();
    assert_eq!(slot1, 0);
    assert_eq!(slot2, 1);
    assert_eq!(slot3, 2);
    assert_eq!(slotted.get_tuple(0).unwrap(), data1);
    assert_eq!(slotted.get_tuple(1).unwrap(), data2);
    assert_eq!(slotted.get_tuple(2).unwrap(), data3);
}

#[test]
fn test_get_invalid_slot() {
    let slotted = fresh();
    assert!(slotted.get_tuple(0).is_none());
    assert!(slotted.get_tuple(99).is_none());
}

#[test]
fn test_page_full() {
    let mut slotted = fresh();
    let huge_data = vec![0u8; PAGE_SIZE];
    let result = slotted.add_tuple(&huge_data);
    assert!(result.is_err());
    assert_eq!(result.unwrap_err(), "Page full");
}

#[test]
fn test_fill_page_gradually() {
    let mut slotted = fresh();
    let tuple_data = vec![0u8; 100];
    let mut count = 0;
    while slotted.add_tuple(&tuple_data).is_ok() {
        count += 1;
        if count > 100 {
            break;
        }
    }
    assert!(count > 0);
    assert_eq!(slotted.num_slots(), count);
    for i in 0..count {
        assert_eq!(slotted.get_tuple(i).unwrap(), tuple_data);
    }
}

#[test]
fn test_variable_length_tuples() {
    let mut slotted = fresh();
    let short = vec![1u8; 10];
    let medium = vec![2u8; 100];
    let long = vec![3u8; 500];
    slotted.add_tuple(&short).unwrap();
    slotted.add_tuple(&medium).unwrap();
    slotted.add_tuple(&long).unwrap();
    assert_eq!(slotted.get_tuple(0).unwrap(), short);
    assert_eq!(slotted.get_tuple(1).unwrap(), medium);
    assert_eq!(slotted.get_tuple(2).unwrap(), long);
}

#[test]
fn test_next_page_id() {
    let mut slotted = fresh();
    assert_eq!(slotted.next_page_id(), NO_NEXT_PAGE);
    slotted.set_next_page_id(42);
    assert_eq!(slotted.next_page_id(), 42);
    slotted.set_next_page_id(NO_NEXT_PAGE);
    assert_eq!(slotted.next_page_id(), NO_NEXT_PAGE);
}

#[test]
fn test_with_row_serialization() {
    let mut slotted = fresh();
    let row = Row {
        values: vec![
            Value::Long(42),
            Value::Text("Alice".to_string()),
            Value::Bool(true),
        ],
    };
    let bytes = row.to_bytes();
    let slot_id = slotted.add_tuple(&bytes).unwrap();
    let retrieved_bytes = slotted.get_tuple(slot_id).unwrap();
    let restored_row = Row::from_bytes(&retrieved_bytes).unwrap();
    assert_eq!(restored_row.values.len(), 3);
    assert!(matches!(restored_row.values[0], Value::Long(42)));
    assert!(matches!(&restored_row.values[1], Value::Text(s) if s == "Alice"));
    assert!(matches!(restored_row.values[2], Value::Bool(true)));
}

#[test]
fn init_writes_empty_header() {
    let slotted = fresh();
    assert_eq!(slotted.num_slots(), 0);
    assert_eq!(slotted.free_space(), PAGE_SIZE - 8);
    assert_eq!(&slotted.page.data[0..8], &[0, 0, 0, 16, 255, 255, 255, 255]);
}

#[test]
fn add_tuple_lays_out_payload_and_slot() {
    let mut slotted = fresh();
    slotted.add_tuple(&[7, 8, 9]).unwrap();
    let d = &slotted.page.data;
    // one slot, free-space pointer 4093, slot (4093, 3), payload at the end
    assert_eq!(&d[0..4], &[1, 0, 0xfd, 0x0f]);
    assert_eq!(&d[8..12], &[0xfd, 0x0f, 3, 0]);
    assert_eq!(&d[4093..4096], &[7, 8, 9]);
    assert_eq!(slotted.free_space(), 4093 - 12);
}

#[test]
fn largest_tuple_fits_exactly() {
    let mut slotted = fresh();
    let max = vec![5u8; PAGE_SIZE - 8 - 4];
    assert_eq!(slotted.add_tuple(&max).unwrap(), 0);
    assert_eq!(slotted.free_space(), 0);
    assert_eq!(slotted.add_tuple(&[]).unwrap_err(), "Page full");
    let mut other = fresh();
    let too_big = vec![5u8; PAGE_SIZE - 8 - 3];
    assert!(other.add_tuple(&too_big).is_err());
}

#[test]
fn empty_tuple_is_stored() {
    let mut slotted = fresh();
    assert_eq!(slotted.add_tuple(&[]).unwrap(), 0);
    assert_eq!(slotted.get_tuple(0).unwrap(), Vec::<u8>::new());
}

#[test]
fn zeroed_page_is_full() {
    let mut slotted = SlottedPage::new(Page::new());
    assert!(slotted.add_tuple(&[1]).is_err());
}

#[test]
fn set_next_keeps_tuples() {
    let mut slotted = fresh();
    slotted.add_tuple(&[1, 2]).unwrap();
    slotted.set_next_page_id(7);
    assert_eq!(slotted.get_tuple(0).unwrap(), vec![1, 2]);
    assert_eq!(slotted.num_slots(), 1);
    assert_eq!(slotted.next_page_id(), 7);
}
