use fluxdb::disk::DiskManager;
use fluxdb::error::{DiskError, IoError};

const PAGE_SIZE: usize = 4096;

#[test]
fn write_and_read_page_roundtrip() {
    let mut dm = DiskManager::new(PAGE_SIZE);
    let data: Vec<u8> = (0..PAGE_SIZE).map(|i| (i % 256) as u8).collect();

    dm.write_page(0, &data).unwrap();

    let mut buf = vec![0u8; PAGE_SIZE];
    dm.read_page(0, &mut buf).unwrap();

    assert_eq!(buf, data);
}

#[test]
fn multiple_pages_are_independent() {
    let mut dm = DiskManager::new(PAGE_SIZE);
    let page0 = vec![1u8; PAGE_SIZE];
    let page1 = vec![2u8; PAGE_SIZE];

    dm.write_page(0, &page0).unwrap();
    dm.write_page(1, &page1).unwrap();

    let mut buf = vec![0u8; PAGE_SIZE];
    dm.read_page(0, &mut buf).unwrap();
    assert_eq!(buf, page0);

    dm.read_page(1, &mut buf).unwrap();
    assert_eq!(buf, page1);
}

#[test]
fn write_rejects_wrong_size_buffer() {
    let mut dm = DiskManager::new(PAGE_SIZE);
    let bad = vec![0u8; PAGE_SIZE - 1];
    assert!(matches!(
        dm.write_page(0, &bad),
        Err(DiskError::InvalidPageSize)
    ));
}

#[test]
fn read_rejects_wrong_size_buffer() {
    let mut dm = DiskManager::new(PAGE_SIZE);
    let data = vec![0u8; PAGE_SIZE];
    dm.write_page(0, &data).unwrap();

    let mut bad = vec![0u8; PAGE_SIZE + 1];
    assert!(matches!(
        dm.read_page(0, &mut bad),
        Err(DiskError::InvalidPageSize)
    ));
}

#[test]
fn overwrite_page_reflects_new_data() {
    let mut dm = DiskManager::new(PAGE_SIZE);
    let first = vec![0xAAu8; PAGE_SIZE];
    let second = vec![0xBBu8; PAGE_SIZE];

    dm.write_page(0, &first).unwrap();
    dm.write_page(0, &second).unwrap();

    let mut buf = vec![0u8; PAGE_SIZE];
    dm.read_page(0, &mut buf).unwrap();
    assert_eq!(buf, second);
}

#[test]
fn sync_data_does_not_error() {
    let mut dm = DiskManager::new(PAGE_SIZE);
    let data = vec![0u8; PAGE_SIZE];
    dm.write_page(0, &data).unwrap();
    assert!(dm.sync_data().is_ok());
}

#[test]
fn page_count_is_that_of_the_furthest_write() {
    let mut dm = DiskManager::new(PAGE_SIZE);
    assert_eq!(dm.num_pages(), Ok(0));
    dm.write_page(6, &vec![9u8; PAGE_SIZE]).unwrap();
    assert_eq!(dm.num_pages(), Ok(7));
    assert_eq!(dm.page_size(), PAGE_SIZE);

    let mut buf = vec![1u8; PAGE_SIZE];
    dm.read_page(3, &mut buf).unwrap();
    assert_eq!(buf, vec![0u8; PAGE_SIZE]);
}

#[test]
fn read_behind_the_end_fails_and_keeps_the_buffer() {
    let dm = DiskManager::new(PAGE_SIZE);
    let mut buf = vec![5u8; PAGE_SIZE];
    assert_eq!(
        dm.read_page(0, &mut buf),
        Err(DiskError::Io(IoError::UnexpectedEof))
    );
    assert_eq!(buf, vec![5u8; PAGE_SIZE]);
}

#[test]
fn failed_host_fails_every_operation_until_mended() {
    let mut dm = DiskManager::new(PAGE_SIZE);
    let page = vec![3u8; PAGE_SIZE];
    dm.write_page(0, &page).unwrap();
    dm.fail(IoError::Failed);

    let mut buf = vec![0u8; PAGE_SIZE];
    let failed = Err(DiskError::Io(IoError::Failed));
    assert_eq!(dm.write_page(1, &page), failed);
    assert_eq!(dm.read_page(0, &mut buf), failed);
    assert_eq!(dm.sync_data(), failed);
    assert_eq!(dm.num_pages(), Err(DiskError::Io(IoError::Failed)));

    dm.mend();
    dm.read_page(0, &mut buf).unwrap();
    assert_eq!(buf, page);
    assert_eq!(dm.num_pages(), Ok(1));
    assert_eq!(dm.sync_data_call_count(), 1);
}

#[test]
fn unsaved_pages_are_handed_out_once_in_order() {
    let mut dm = DiskManager::new(PAGE_SIZE);
    let page = vec![0u8; PAGE_SIZE];
    dm.write_page(4, &page).unwrap();
    dm.write_page(1, &page).unwrap();
    dm.write_page(4, &page).unwrap();
    assert_eq!(dm.take_unsaved(), vec![4, 1, 4]);
    assert!(dm.take_unsaved().is_empty());
}
