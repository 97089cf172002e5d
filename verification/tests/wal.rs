use fluxdb::error::{IoError, WalError};
use fluxdb::page::PAGE_SIZE;
use fluxdb::wal::names::{list_segments, parse_segment_index, segment_file_name};
use fluxdb::wal::record::{
    Block, WalRecordType, BLK_HAS_DATA, UNLINK_KEEP_RIGHT, UNLINK_ROLE_LEFT, UNLINK_ROLE_PARENT,
    UNLINK_ROLE_RIGHT,
};
use fluxdb::wal::segment::{Segment, WalIterator};
use fluxdb::wal::Wal;

fn u64_of(bytes: &[u8]) -> u64 {
    u64::from_le_bytes(bytes.try_into().unwrap())
}

/// A log of an insert and a commit, both durable.
fn two_records() -> Vec<Segment> {
    let mut wal = Wal::new(Vec::new()).unwrap();
    let block1 = Block {
        page_id: 100,
        blk_flags: 2,
        fpi: None,
        data: Some(&[1, 2, 3, 4]),
    };
    wal.append(WalRecordType::Insert, 42, &[block1], None).unwrap();
    let block2 = Block {
        page_id: 101,
        blk_flags: 0,
        fpi: None,
        data: None,
    };
    wal.append(WalRecordType::Commit, 43, &[block2], None).unwrap();
    wal.flush_up_to(1).unwrap();
    wal.writer.segments
}

#[test]
fn test_wal_roundtrip() -> Result<(), WalError> {
    let mut wal = Wal::new(Vec::new())?;

    let block1 = Block {
        page_id: 100,
        blk_flags: 2,
        fpi: None,
        data: Some(&[1, 2, 3, 4]),
    };

    wal.append(WalRecordType::Insert, 42, &[block1], None)?;

    let fpi2 = [0u8; PAGE_SIZE];
    let block2 = Block {
        page_id: 101,
        blk_flags: 1,
        fpi: Some(&fpi2),
        data: None,
    };

    wal.append(
        WalRecordType::Commit,
        43,
        &[block2],
        Some(&[8, 7, 6, 5, 4, 3, 2, 1]),
    )?;

    wal.flush_up_to(2)?;

    let mut iter = WalIterator::new(&wal.writer.segments);

    {
        let entry1 = iter.next_record().unwrap()?;
        assert_eq!(entry1.lsn, 1);
        assert_eq!(entry1.entry_type, WalRecordType::Insert);
        assert_eq!(entry1.txn_id, 42);
        assert_eq!(entry1.blocks.len(), 1);
        assert_eq!(entry1.blocks[0].page_id, 100);
        assert_eq!(entry1.blocks[0].data.unwrap(), &[1, 2, 3, 4]);
    }

    {
        let entry2 = iter.next_record().unwrap()?;
        assert_eq!(entry2.lsn, 2);
        assert_eq!(entry2.entry_type, WalRecordType::Commit);
        assert_eq!(entry2.txn_id, 43);
        assert_eq!(entry2.blocks.len(), 1);
        assert_eq!(entry2.blocks[0].page_id, 101);
        assert!(entry2.blocks[0].fpi.is_some());
        assert_eq!(entry2.main_data.unwrap(), &[8, 7, 6, 5, 4, 3, 2, 1]);
    }

    assert!(iter.next_record().is_none());

    Ok(())
}

#[test]
fn test_mark_half_dead_roundtrip() -> Result<(), WalError> {
    let mut wal = Wal::new(Vec::new())?;
    let lsn = wal.log_mark_half_dead(0, 42)?;
    wal.flush_up_to(lsn)?;

    let mut iter = WalIterator::new(&wal.writer.segments);
    let record = iter.next_record().unwrap()?;
    assert_eq!(record.entry_type, WalRecordType::MarkHalfDead);
    assert_eq!(record.txn_id, 0);
    assert_eq!(record.blocks.len(), 1);
    assert_eq!(record.blocks[0].page_id, 42);
    assert_eq!(record.blocks[0].blk_flags, 0);
    assert!(record.blocks[0].fpi.is_none());
    assert!(record.blocks[0].data.is_none());
    assert!(record.main_data.is_none());
    assert!(iter.next_record().is_none());

    Ok(())
}

#[test]
fn test_unlink_page_roundtrip() -> Result<(), WalError> {
    let mut wal = Wal::new(Vec::new())?;
    let lsn = wal.log_unlink_page(0, 22, Some(11), 33, 44, 2, true)?;
    wal.flush_up_to(lsn)?;

    let mut iter = WalIterator::new(&wal.writer.segments);
    let record = iter.next_record().unwrap()?;
    assert_eq!(record.entry_type, WalRecordType::UnlinkPage);
    assert_eq!(record.txn_id, 0);
    assert_eq!(record.main_data.unwrap(), &22u64.to_le_bytes());
    assert_eq!(record.blocks.len(), 3);

    assert_eq!(record.blocks[0].page_id, 11);
    assert_eq!(record.blocks[0].blk_flags, BLK_HAS_DATA);
    let left = record.blocks[0].data.unwrap();
    assert_eq!(left[0], UNLINK_ROLE_LEFT);
    assert_eq!(u64_of(&left[1..9]), 33);

    assert_eq!(record.blocks[1].page_id, 33);
    assert_eq!(record.blocks[1].blk_flags, BLK_HAS_DATA);
    let right = record.blocks[1].data.unwrap();
    assert_eq!(right[0], UNLINK_ROLE_RIGHT);
    assert_eq!(u64_of(&right[1..9]), 11);

    assert_eq!(record.blocks[2].page_id, 44);
    assert_eq!(record.blocks[2].blk_flags, BLK_HAS_DATA);
    let parent = record.blocks[2].data.unwrap();
    assert_eq!(parent[0], UNLINK_ROLE_PARENT);
    assert_eq!(u16::from_le_bytes(parent[1..3].try_into().unwrap()), 2);
    assert_eq!(parent[3], UNLINK_KEEP_RIGHT);
    assert!(iter.next_record().is_none());

    Ok(())
}

#[test]
fn test_wal_recovery_clean() -> Result<(), WalError> {
    let wal = Wal::new(two_records())?;
    assert_eq!(wal.next_lsn(), 3);
    Ok(())
}

#[test]
fn test_flush_tracks_requested_lsn_and_noops_when_durable() -> Result<(), WalError> {
    let mut wal = Wal::new(Vec::new())?;
    let first = wal.append(WalRecordType::Insert, 42, &[], None)?;
    let second = wal.append(WalRecordType::Commit, 42, &[], None)?;

    assert_eq!(first, 1);
    assert_eq!(second, 2);
    assert_eq!(wal.flushed_lsn(), None);

    wal.flush_up_to(first)?;
    assert!(wal.flushed_lsn().is_some_and(|flushed| flushed >= first));

    wal.flush_up_to(first)?;
    assert!(wal.flushed_lsn().is_some_and(|flushed| flushed >= first));

    wal.flush_up_to(second)?;
    assert_eq!(wal.flushed_lsn(), Some(second));

    Ok(())
}

#[test]
fn test_circular_buffer_wraparound_preserves_record_order() -> Result<(), WalError> {
    let mut wal = Wal::new_with_buffer_capacity(Vec::new(), 96)?;

    for txn_id in 0..3 {
        wal.append(WalRecordType::Commit, txn_id, &[], None)?;
    }
    wal.flush_up_to(1)?;

    for txn_id in 3..5 {
        wal.append(WalRecordType::Commit, txn_id, &[], None)?;
    }
    wal.flush_up_to(5)?;

    let mut iter = WalIterator::new(&wal.writer.segments);
    for expected in 0..5 {
        let record = iter.next_record().unwrap()?;
        assert_eq!(record.lsn, expected + 1);
        assert_eq!(record.txn_id, expected);
    }
    assert!(iter.next_record().is_none());

    Ok(())
}

#[test]
fn test_circular_buffer_append_error_does_not_consume_lsn() -> Result<(), WalError> {
    let mut wal = Wal::new_with_buffer_capacity(Vec::new(), 27)?;
    let result = wal.append(WalRecordType::Commit, 1, &[], None);

    assert!(matches!(
        result,
        Err(WalError::RecordTooLarge {
            lsn: 1,
            record_len: 28,
            capacity: 27
        })
    ));
    assert_eq!(wal.next_lsn(), 1);

    Ok(())
}

#[test]
fn test_wal_rotates_segments_without_splitting_records() -> Result<(), WalError> {
    let mut wal = Wal::new_with_options(Vec::new(), 1024, 64)?;

    for txn_id in 0..5 {
        wal.log_commit(txn_id)?;
    }
    wal.flush_up_to(5)?;
    let segments = wal.writer.segments;

    assert_eq!(segments.len(), 3);
    assert_eq!(segments[0].index, 1);
    assert_eq!(segments[0].bytes.len(), 56);
    assert_eq!(segments[1].index, 2);
    assert_eq!(segments[1].bytes.len(), 56);
    assert_eq!(segments[2].index, 3);
    assert_eq!(segments[2].bytes.len(), 28);

    let mut iter = WalIterator::new(&segments);
    for expected in 0..5 {
        let record = iter.next_record().unwrap()?;
        assert_eq!(record.lsn, expected + 1);
        assert_eq!(record.txn_id, expected);
    }
    assert!(iter.next_record().is_none());

    let reopened = Wal::new_with_options(segments, 1024, 64)?;
    assert_eq!(reopened.next_lsn(), 6);

    Ok(())
}

#[test]
fn test_wal_recovery_torn_tail() -> Result<(), WalError> {
    let mut segments = two_records();
    let file_len = segments[0].bytes.len();
    segments[0].bytes[file_len - 1] = 0xFF;

    let wal = Wal::new(segments)?;
    assert_eq!(wal.next_lsn(), 2);

    let new_file_len = wal.writer.segments[0].bytes.len();
    assert!(new_file_len < file_len);

    Ok(())
}

#[test]
fn test_wal_mid_log_corruption() {
    let mut segments = two_records();
    segments[0].bytes[40] = 0xFF;

    match Wal::new(segments) {
        Err(WalError::ChecksumMismatch { lsn, .. }) => assert_eq!(lsn, 1),
        Err(e) => panic!("Expected ChecksumMismatch error, got error: {:?}", e),
        Ok(_) => panic!("Expected ChecksumMismatch error, got Ok(_)"),
    }
}

#[test]
fn test_wal_torn_lsn() -> Result<(), WalError> {
    let mut wal = Wal::new(Vec::new())?;
    let block1 = Block {
        page_id: 100,
        blk_flags: 2,
        fpi: None,
        data: Some(&[1, 2, 3, 4]),
    };
    wal.append(WalRecordType::Insert, 42, &[block1], None)?;
    wal.flush_up_to(1)?;
    let mut segments = wal.writer.segments;
    let clean_len = segments[0].bytes.len();

    segments[0].bytes.extend_from_slice(&[0xFF, 0xFF, 0xFF, 0xFF]);

    let reopened = Wal::new(segments)?;
    assert_eq!(reopened.writer.segments[0].bytes.len(), clean_len);

    Ok(())
}

#[test]
fn test_flush_up_to_on_empty_wal_does_not_deadlock() -> Result<(), WalError> {
    let mut wal = Wal::new(Vec::new())?;

    wal.flush_up_to(5)?;
    wal.flush_up_to(0)?;
    wal.flush_up_to(1)?;

    Ok(())
}

#[test]
fn test_flush_stops_on_io_error() -> Result<(), WalError> {
    let mut wal = Wal::new(Vec::new())?;
    wal.append(WalRecordType::Commit, 1, &[], None)?;

    // The host reports that the segments cannot be written any more.
    wal.writer.broken = Some(IoError::Failed);

    let result = wal.flush_up_to(1);
    assert!(
        matches!(result, Err(WalError::FlushFailed(_))),
        "Expected FlushFailed, got {:?}",
        result
    );

    let result = wal.append(WalRecordType::Commit, 2, &[], None);
    assert!(
        matches!(result, Err(WalError::FlushFailed(_))),
        "Expected FlushFailed on subsequent append, got {:?}",
        result
    );

    Ok(())
}

#[test]
fn test_segment_size_check_in_append() -> Result<(), WalError> {
    let mut wal = Wal::new_with_options(Vec::new(), 4096, 30)?;

    let lsn = wal.append(WalRecordType::Commit, 1, &[], None)?;
    assert_eq!(lsn, 1);

    let block = Block {
        page_id: 42,
        blk_flags: BLK_HAS_DATA,
        fpi: None,
        data: Some(&[1, 2, 3, 4]),
    };
    let result = wal.append(WalRecordType::Insert, 2, &[block], None);
    assert!(
        matches!(result, Err(WalError::RecordTooLarge { .. })),
        "Expected RecordTooLarge, got {:?}",
        result
    );
    assert_eq!(wal.next_lsn(), 2);

    Ok(())
}

#[test]
fn full_ring_refuses_a_record_whose_number_stays_used() {
    let mut wal = Wal::new_with_buffer_capacity(Vec::new(), 60).unwrap();
    assert_eq!(wal.log_commit(7), Ok(1));
    assert_eq!(wal.log_commit(8), Ok(2));
    assert_eq!(
        wal.log_commit(9),
        Err(WalError::BufferFull {
            needed: 28,
            available: 4
        })
    );
    wal.flush_up_to(2).unwrap();
    assert_eq!(wal.log_abort(9), Ok(4));
}

#[test]
fn unknown_record_type_is_refused() {
    assert_eq!(
        WalRecordType::try_from(99),
        Err(WalError::InvalidEntryType(99))
    );
    let types = [
        WalRecordType::Insert,
        WalRecordType::Commit,
        WalRecordType::Abort,
        WalRecordType::MarkHalfDead,
        WalRecordType::UnlinkPage,
    ];
    for t in types {
        assert_eq!(WalRecordType::try_from(t.to_byte()), Ok(t));
    }
}

#[test]
fn segment_names_are_read_back_and_listed_in_order() {
    assert_eq!(segment_file_name(7), b"wal_00007.log".to_vec());
    assert_eq!(segment_file_name(123456), b"wal_123456.log".to_vec());
    for index in [0, 1, 99999, 100000, u64::MAX] {
        assert_eq!(parse_segment_index(&segment_file_name(index)), Some(index));
    }
    assert_eq!(parse_segment_index(b"wal_x.log"), None);
    assert_eq!(parse_segment_index(b"data.db"), None);

    let names = vec![
        segment_file_name(10),
        b"data.db".to_vec(),
        segment_file_name(2),
        segment_file_name(1),
    ];
    assert_eq!(list_segments(&names), vec![(1, 3), (2, 2), (10, 0)]);
}

#[test]
fn log_is_cut_after_the_last_record_of_a_type() {
    let mut wal = Wal::new(Vec::new()).unwrap();
    wal.log_set_xmax(5, 9, 2, 5).unwrap();
    wal.log_commit(5).unwrap();
    wal.log_abort(6).unwrap();
    wal.flush_up_to(3).unwrap();
    let mut segments = wal.writer.segments;
    assert!(Wal::truncate_wal_after(&mut segments, WalRecordType::Commit));
    let mut iter = WalIterator::new(&segments);
    assert_eq!(iter.next_record().unwrap().unwrap().txn_id, 5);
    assert_eq!(
        iter.next_record().unwrap().unwrap().entry_type,
        WalRecordType::Commit
    );
    assert!(iter.next_record().is_none());
    assert!(!Wal::truncate_wal_after(&mut segments, WalRecordType::Abort));
}
