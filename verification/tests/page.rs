use fluxdb::page::meta::{init, read_root, set_root};
use fluxdb::page::{
    clear_half_dead, clear_incomplete_split, is_half_dead, is_incomplete_split, page_lsn,
    set_half_dead, set_incomplete_split, set_lsn, stamp_checksum, verify_checksum, PageBuffer,
    INTERNAL,
};

#[test]
fn flags_are_set_and_cleared_apart() {
    let mut page = PageBuffer::new();
    set_incomplete_split(page.memory_mut());
    set_half_dead(page.memory_mut());
    assert!(is_incomplete_split(page.memory()));
    assert!(is_half_dead(page.memory()));
    clear_incomplete_split(page.memory_mut());
    assert!(!is_incomplete_split(page.memory()));
    assert!(is_half_dead(page.memory()));
    clear_half_dead(page.memory_mut());
    assert!(!is_half_dead(page.memory()));
}

#[test]
fn lsn_is_read_back() {
    let mut page = PageBuffer::new();
    assert_eq!(page_lsn(page.memory()), 0);
    set_lsn(page.memory_mut(), 0x0102030405060708);
    assert_eq!(page_lsn(page.memory()), 0x0102030405060708);
}

#[test]
fn metadata_page_names_the_root() {
    let mut page = PageBuffer::new();
    assert_eq!(read_root(page.memory()), None);
    init(page.memory_mut(), 7);
    assert_eq!(read_root(page.memory()), Some(7));
    set_root(page.memory_mut(), 9);
    assert_eq!(read_root(page.memory()), Some(9));
}

#[test]
fn checksum_is_that_of_the_bytes() {
    let mut page = PageBuffer::new();
    page.memory_mut()[0] = INTERNAL;
    stamp_checksum(page.memory_mut());
    let stored = u32::from_le_bytes(page.memory()[32..36].try_into().unwrap());
    let mut plain = page.memory().to_vec();
    plain[32..36].copy_from_slice(&[0; 4]);
    assert_eq!(stored, crc32fast::hash(&plain));
    assert!(verify_checksum(page.memory()).is_ok());

    page.memory_mut()[2000] = 1;
    plain[2000] = 1;
    assert_eq!(
        verify_checksum(page.memory()),
        Err((stored, crc32fast::hash(&plain)))
    );
}

#[test]
fn header_fields_need_no_whole_page() {
    let mut bytes = vec![0u8; 24];
    set_lsn(&mut bytes, 77);
    assert_eq!(page_lsn(&bytes), 77);
    set_half_dead(&mut bytes[..2]);
    assert!(is_half_dead(&bytes[..2]));

    let mut bytes = vec![0u8; 40];
    init(&mut bytes, 3);
    assert_eq!(read_root(&bytes), Some(3));
}

/// CRC-32, one bit at a time.
fn bitwise_crc(bytes: &[u8]) -> u32 {
    let mut crc = 0xFFFF_FFFFu32;
    for b in bytes {
        crc ^= *b as u32;
        for _ in 0..8 {
            crc = if crc & 1 == 1 { (crc >> 1) ^ 0xEDB8_8320 } else { crc >> 1 };
        }
    }
    !crc
}

#[test]
fn checksum_is_the_reflected_crc() {
    assert_eq!(bitwise_crc(b"123456789"), 0xCBF4_3926);
    let mut page = PageBuffer::new();
    for (i, b) in page.memory_mut().iter_mut().enumerate() {
        *b = (i * 7 + i / 256) as u8;
    }
    page.memory_mut()[0] = INTERNAL;
    stamp_checksum(page.memory_mut());
    let stored = u32::from_le_bytes(page.memory()[32..36].try_into().unwrap());
    let mut plain = page.memory().to_vec();
    plain[32..36].copy_from_slice(&[0; 4]);
    assert_eq!(stored, bitwise_crc(&plain));
}

#[test]
fn any_changed_byte_is_noticed() {
    let mut page = PageBuffer::new();
    page.memory_mut()[0] = INTERNAL;
    page.memory_mut()[100] = 42;
    stamp_checksum(page.memory_mut());
    for i in [1usize, 16, 31, 32, 33, 35, 36, 100, 4095] {
        let was = page.memory()[i];
        page.memory_mut()[i] = was ^ 0x10;
        let (stored, actual) = verify_checksum(page.memory()).unwrap_err();
        assert_ne!(stored, actual);
        page.memory_mut()[i] = was;
        assert!(verify_checksum(page.memory()).is_ok());
    }
}
