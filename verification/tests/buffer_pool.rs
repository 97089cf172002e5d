use fluxdb::buffer_pool::manager::BufferPoolManager;
use fluxdb::buffer_pool::replacer::ClockReplacer;
use fluxdb::constants::{MAX_FRAMES, MAX_PAGE_SIZE};
use fluxdb::disk::DiskManager;
use fluxdb::error::BufferPoolError;
use fluxdb::page::{verify_checksum, LEAF};
use fluxdb::wal::Wal;

fn new_pool() -> BufferPoolManager {
    let disk = DiskManager::new(MAX_PAGE_SIZE);
    let wal = Wal::new(Vec::new()).unwrap();
    BufferPoolManager::new(disk, wal)
}

#[test]
fn test_clock_replacer_eviction_order() {
    let mut replacer = ClockReplacer::new(4);
    replacer.unpin(0);
    replacer.unpin(1);
    replacer.unpin(2);
    replacer.unpin(3);
    let v1 = replacer.victim().unwrap();
    assert_eq!(v1, 0);
    let v2 = replacer.victim().unwrap();
    assert_eq!(v2, 1);
    replacer.pin(2);
    let v3 = replacer.victim().unwrap();
    assert_eq!(v3, 3);
    let result = replacer.victim();
    assert!(result.is_err());
}

#[test]
fn test_buffer_pool_manager_basic() {
    let mut bpm = new_pool();
    let page_id;
    {
        let mut page = bpm.new_page().unwrap();
        page_id = page.page_id;
        page.memory_mut()[0] = 1;
        page.memory_mut()[1] = 2;
        bpm.release_mut(page);
    }
    {
        let page = bpm.fetch_page(page_id).unwrap();
        assert_eq!(page.memory()[0], 1);
        assert_eq!(page.memory()[1], 2);
        bpm.release(page);
    }
    {
        let mut page = bpm.fetch_page_mut(page_id).unwrap();
        page.memory_mut()[0] = 3;
        bpm.release_mut(page);
    }
    {
        let page = bpm.fetch_page(page_id).unwrap();
        assert_eq!(page.memory()[0], 3);
        bpm.release(page);
    }
}

#[test]
fn test_buffer_pool_manager_eviction_persistence() {
    let mut bpm = new_pool();
    let mut page_ids = Vec::new();
    for i in 0..MAX_FRAMES + 1 {
        let mut page = bpm.new_page().unwrap();
        page.memory_mut()[0] = i as u8;
        page_ids.push(page.page_id);
        bpm.release_mut(page);
    }
    for i in 0..MAX_FRAMES + 1 {
        let page = bpm.fetch_page(page_ids[i]).unwrap();
        assert_eq!(page.memory()[0], i as u8);
        bpm.release(page);
    }
}

#[test]
fn test_buffer_pool_manager_full_lifecycle() {
    let mut bpm = new_pool();
    let mut page_ids = Vec::new();
    for i in 0..10 {
        let mut page = bpm.new_page().unwrap();
        let pid = page.page_id;
        page.memory_mut()[0] = i as u8;
        page_ids.push(pid);
        bpm.release_mut(page);
    }
    for i in 0..10 {
        let page = bpm.fetch_page(page_ids[i]).unwrap();
        assert_eq!(page.memory()[0], i as u8);
        bpm.release(page);
    }
    for i in 0..10 {
        let mut page = bpm.fetch_page_mut(page_ids[i]).unwrap();
        page.memory_mut()[0] = (i + 10) as u8;
        bpm.release_mut(page);
    }
    for i in 0..10 {
        bpm.flush_page(page_ids[i]).unwrap();
    }
    for i in 0..10 {
        let page = bpm.fetch_page(page_ids[i]).unwrap();
        assert_eq!(page.memory()[0], (i + 10) as u8);
        bpm.release(page);
    }
}

#[test]
fn test_buffer_pool_manager_pin_count() {
    let mut bpm = new_pool();
    let mut pages = Vec::new();
    for _ in 0..MAX_FRAMES {
        pages.push(bpm.new_page().unwrap());
    }
    let res = bpm.new_page();
    assert!(matches!(res, Err(BufferPoolError::NoEvictableFrames)));
    for page in pages {
        bpm.release_mut(page);
    }
    assert!(bpm.new_page().is_ok());
}

#[test]
fn dirty_page_reaches_the_disk_with_a_checksum() {
    let mut bpm = new_pool();
    let mut page = bpm.new_page().unwrap();
    let id = page.page_id;
    page.memory_mut()[0] = LEAF;
    page.memory_mut()[100] = 77;
    bpm.release_mut(page);
    assert_eq!(bpm.flush_page(id), Ok(true));

    let mut raw = vec![0u8; MAX_PAGE_SIZE];
    bpm.disk.read_page(id, &mut raw).unwrap();
    assert_eq!(raw[100], 77);
    assert!(verify_checksum(&raw).is_ok());
    assert_ne!(raw[44..48], [0, 0, 0, 0]);
    raw[101] = 1;
    assert!(verify_checksum(&raw).is_err());
}

#[test]
fn corrupted_page_is_refused() {
    let mut bpm = new_pool();
    let mut page = bpm.new_page().unwrap();
    let id = page.page_id;
    page.memory_mut()[0] = LEAF;
    page.memory_mut()[100] = 77;
    bpm.release_mut(page);
    bpm.flush_all_pages().unwrap();

    let mut disk = DiskManager::new(MAX_PAGE_SIZE);
    let mut raw = vec![0u8; MAX_PAGE_SIZE];
    bpm.disk.read_page(id, &mut raw).unwrap();
    raw[100] = 78;
    disk.write_page(id, &raw).unwrap();
    let mut reopened = BufferPoolManager::new(disk, Wal::new(Vec::new()).unwrap());
    assert!(matches!(
        reopened.fetch_page(id),
        Err(BufferPoolError::PageCorruption { page_id, .. }) if page_id == id
    ));
}

#[test]
fn missing_page_is_reported() {
    let mut bpm = new_pool();
    assert!(matches!(
        bpm.fetch_page(900),
        Err(BufferPoolError::PageNotFound(900))
    ));
}

#[test]
fn pinned_page_is_not_deleted() {
    let mut bpm = new_pool();
    let page = bpm.new_page().unwrap();
    let id = page.page_id;
    assert_eq!(bpm.delete_page(id), Err(BufferPoolError::PinCountError));
    bpm.release_mut(page);
    assert_eq!(bpm.delete_page(id), Ok(()));
}

#[test]
fn first_record_since_the_write_is_kept() {
    let mut bpm = new_pool();
    // Two pages of one shard.
    let mut ids = Vec::new();
    for _ in 0..9 {
        let page = bpm.new_page().unwrap();
        ids.push(page.page_id);
        bpm.release_mut(page);
    }
    let (a, b) = (ids[0], ids[8]);
    assert_eq!(a % 8, b % 8);
    let k = (a % 8) as usize;

    let mut page = bpm.fetch_page_mut(a).unwrap();
    assert!(bpm.mark_dirty_with_lsn(&mut page, 7));
    assert!(!bpm.mark_dirty_with_lsn(&mut page, 9));
    bpm.release_mut(page);
    assert_eq!(bpm.shards[k].inner.min_rec_lsn, Some(7));

    let mut page = bpm.fetch_page_mut(b).unwrap();
    assert!(bpm.mark_dirty_with_lsn(&mut page, 5));
    bpm.release_mut(page);
    assert_eq!(bpm.shards[k].inner.min_rec_lsn, Some(5));

    assert!(bpm.flush_page(b).unwrap());
    assert_eq!(bpm.shards[k].inner.min_rec_lsn, Some(7));
    bpm.delete_page(a).unwrap();
    assert_eq!(bpm.shards[k].inner.min_rec_lsn, None);
    assert!(bpm.shards[k].inner.metadata.iter().all(|m| m.rec_lsn.is_none()));
}

#[test]
fn clock_chooses_the_frame_once_none_is_free() {
    let mut bpm = new_pool();
    // Ten pages fill the frames of one shard; the others of the same eighty lie elsewhere.
    for _ in 0..80 {
        let page = bpm.new_page().unwrap();
        bpm.release_mut(page);
    }
    assert!(bpm.shards[0].inner.free_list.is_empty());
    let first = bpm.shards[0].inner.metadata[0].page_id;
    assert_eq!(bpm.shards[0].inner.find_victim_frame_id().unwrap(), 0);
    assert_eq!(bpm.shards[0].inner.metadata[0].page_id, first);
    assert_eq!(bpm.shards[0].inner.find_victim_frame_id().unwrap(), 1);
}
