use pe_layout::data_directories::{
    DataDirectories, DataDirectory, DataDirectoryInner, DataDirectoryType,
    NUM_DATA_DIRECTORIES, SIZEOF_DATA_DIRECTORY,
};
use pe_layout::error::{Error, Malformed};

fn entry(virtual_address: u32, size: u32) -> Vec<u8> {
    let mut v = virtual_address.to_le_bytes().to_vec();
    v.extend_from_slice(&size.to_le_bytes());
    v
}

fn table_bytes(pairs: &[(u32, u32)]) -> Vec<u8> {
    let mut v = Vec::new();
    for &(a, s) in pairs {
        v.extend(entry(a, s));
    }
    v
}

#[test]
fn zeroed_entries_list_nothing_for_every_count() {
    let bytes = vec![0u8; 16 * 8];
    for count in 0..=16usize {
        let mut offset = 0usize;
        let t = DataDirectories::parse(&bytes, count, &mut offset).unwrap();
        assert!(t.dirs().is_empty());
        assert_eq!(offset, count * 8);
        assert!(t.data_directories.iter().all(|d| d.is_none()));
    }
}

#[test]
fn count_above_sixteen_is_malformed() {
    let bytes = vec![0u8; 17 * 8];
    let mut offset = 0usize;
    let r = DataDirectories::parse(&bytes, 17, &mut offset);
    assert_eq!(
        r,
        Err(Error::Malformed(Malformed::DirectoryCount { count: 17, max: 16 }))
    );
    assert_eq!(offset, 0);
}

#[test]
fn short_input_is_truncated_and_offset_kept() {
    let bytes = vec![1u8; 20];
    let mut offset = 4usize;
    let r = DataDirectories::parse(&bytes, 3, &mut offset);
    assert_eq!(r, Err(Error::Malformed(Malformed::Truncated { offset: 4 })));
    assert_eq!(offset, 4);
}

#[test]
fn entry_decodes_little_endian_and_records_offset() {
    let mut bytes = vec![0xaau8; 3];
    bytes.extend(entry(0x1234_5678, 0x0000_0102));
    let mut offset = 3usize;
    let d = DataDirectory::parse(&bytes, &mut offset).unwrap();
    assert_eq!(d.inner.virtual_address, 0x1234_5678);
    assert_eq!(d.virtual_address(), 0x1234_5678);
    assert_eq!(d.size(), 0x102);
    assert_eq!(d.offset, Some(11));
    assert_eq!(offset, 11);
}

#[test]
fn entry_past_end_is_truncated() {
    let bytes = vec![0u8; 7];
    let mut offset = 0usize;
    let r = DataDirectory::parse(&bytes, &mut offset);
    assert_eq!(r, Err(Error::Malformed(Malformed::Truncated { offset: 0 })));
    assert_eq!(offset, 0);
}

#[test]
fn payload_slices_from_recorded_offset() {
    let mut bytes = entry(0x10, 3);
    bytes.extend_from_slice(&[7, 8, 9, 10]);
    let mut offset = 0usize;
    let d = DataDirectory::parse(&bytes, &mut offset).unwrap();
    assert_eq!(d.data(&bytes).unwrap(), &[7u8, 8, 9][..]);
}

#[test]
fn payload_past_end_is_malformed() {
    let mut bytes = entry(0x10, 5);
    bytes.extend_from_slice(&[7, 8, 9, 10]);
    let mut offset = 0usize;
    let d = DataDirectory::parse(&bytes, &mut offset).unwrap();
    assert_eq!(
        d.data(&bytes),
        Err(Error::Malformed(Malformed::PayloadOutOfBounds {
            start: 8,
            size: 5,
            len: 12
        }))
    );
}

#[test]
fn payload_with_huge_size_is_malformed() {
    let d = DataDirectory {
        inner: DataDirectoryInner { virtual_address: 1, size: u32::MAX },
        offset: Some(usize::MAX - 2),
    };
    let bytes = vec![0u8; 16];
    assert!(matches!(
        d.data(&bytes),
        Err(Error::Malformed(Malformed::PayloadOutOfBounds { .. }))
    ));
}

#[test]
fn payload_without_offset_is_malformed() {
    let d = DataDirectory {
        inner: DataDirectoryInner { virtual_address: 1, size: 0 },
        offset: None,
    };
    assert_eq!(
        d.data(&[1, 2, 3]),
        Err(Error::Malformed(Malformed::MissingSourceOffset))
    );
}

#[test]
fn zero_pairs_are_absent_and_others_present() {
    let bytes = table_bytes(&[(0, 0), (0x2000, 0x40), (0, 5), (0, 0)]);
    let mut offset = 0usize;
    let t = DataDirectories::parse(&bytes, 4, &mut offset).unwrap();
    assert!(t.get_export_table().is_none());
    assert_eq!(t.get_import_table().unwrap().inner.virtual_address, 0x2000);
    assert_eq!(t.get_import_table().unwrap().inner.size, 0x40);
    assert_eq!(t.get_resource_table().unwrap().inner.size, 5);
    assert!(t.get_exception_table().is_none());
    assert!(t.get_clr_runtime_header().is_none());
    let dirs = t.dirs();
    assert_eq!(dirs.len(), 2);
    assert_eq!(dirs[0].0, DataDirectoryType::ImportTable);
    assert_eq!(dirs[1].0, DataDirectoryType::ResourceTable);
    assert_eq!(dirs[1].1.offset, Some(24));
}

#[test]
fn every_accessor_reads_its_slot() {
    let pairs: Vec<(u32, u32)> = (0..16u32).map(|i| (0x100 * (i + 1), i + 1)).collect();
    let bytes = table_bytes(&pairs);
    let mut offset = 0usize;
    let t = DataDirectories::parse(&bytes, 16, &mut offset).unwrap();
    let got = [
        t.get_export_table(),
        t.get_import_table(),
        t.get_resource_table(),
        t.get_exception_table(),
        t.get_certificate_table(),
        t.get_base_relocation_table(),
        t.get_debug_table(),
        t.get_architecture(),
        t.get_global_ptr(),
        t.get_tls_table(),
        t.get_load_config_table(),
        t.get_bound_import_table(),
        t.get_import_address_table(),
        t.get_delay_import_descriptor(),
        t.get_clr_runtime_header(),
    ];
    for (i, d) in got.iter().enumerate() {
        assert_eq!(d.unwrap().inner.size, i as u32 + 1);
        assert_eq!(d.unwrap().inner.virtual_address, 0x100 * (i as u32 + 1));
    }
    let dirs = t.dirs();
    assert_eq!(dirs.len(), 15);
    for (i, (ty, d)) in dirs.iter().enumerate() {
        assert_eq!(ty.index(), i);
        assert_eq!(d.inner.size, i as u32 + 1);
    }
}

#[test]
fn type_index_mapping_is_total_below_fifteen() {
    assert_eq!(
        DataDirectoryType::try_from_index(4),
        Ok(DataDirectoryType::CertificateTable)
    );
    assert_eq!(
        DataDirectoryType::try_from_index(14),
        Ok(DataDirectoryType::ClrRuntimeHeader)
    );
    for i in 0..15usize {
        assert_eq!(DataDirectoryType::try_from_index(i).unwrap().index(), i);
    }
    assert_eq!(
        DataDirectoryType::try_from_index(15),
        Err(Error::Malformed(Malformed::DirectoryIndex { index: 15 }))
    );
}

#[test]
fn write_always_emits_128_bytes() {
    assert_eq!(NUM_DATA_DIRECTORIES * SIZEOF_DATA_DIRECTORY, 128);
    for count in [0usize, 1, 5, 16] {
        let pairs: Vec<(u32, u32)> = (0..count as u32).map(|i| (i + 1, 2 * i + 1)).collect();
        let bytes = table_bytes(&pairs);
        let mut offset = 0usize;
        let t = DataDirectories::parse(&bytes, count, &mut offset).unwrap();
        let mut out = vec![0xeeu8; 140];
        assert_eq!(t.write(&mut out, 6), Ok(128));
        assert_eq!(&out[..6], &[0xee; 6]);
        assert_eq!(&out[134..], &[0xee; 6]);
        assert_eq!(&out[6..6 + 8 * count], &bytes[..]);
        assert!(out[6 + 8 * count..134].iter().all(|&b| b == 0));
    }
}

#[test]
fn write_into_short_buffer_fails_untouched() {
    let t = DataDirectories { data_directories: [None; 16] };
    let mut out = vec![0x55u8; 130];
    assert_eq!(
        t.write(&mut out, 3),
        Err(Error::BufferTooSmall { needed: 128, available: 127 })
    );
    assert!(out.iter().all(|&b| b == 0x55));
    assert_eq!(
        t.write(&mut out, 200),
        Err(Error::BufferTooSmall { needed: 128, available: 0 })
    );
}

#[test]
fn write_then_parse_keeps_entries() {
    let pairs = [(0u32, 0u32), (0x3000, 0x28), (0, 0), (0, 0), (0x9000, 0x1a00)];
    let bytes = table_bytes(&pairs);
    let mut offset = 0usize;
    let t = DataDirectories::parse(&bytes, 5, &mut offset).unwrap();
    let mut out = vec![0u8; 128];
    t.write(&mut out, 0).unwrap();
    let mut offset = 0usize;
    let again = DataDirectories::parse(&out, 16, &mut offset).unwrap();
    assert_eq!(t.dirs().len(), again.dirs().len());
    for (a, b) in t.dirs().iter().zip(again.dirs().iter()) {
        assert_eq!(a.0, b.0);
        assert_eq!(a.1.inner, b.1.inner);
    }
    assert_eq!(again.get_certificate_table().unwrap().inner.size, 0x1a00);
}

#[test]
fn try_from_matches_index_mapping() {
    assert_eq!(DataDirectoryType::try_from(9usize), Ok(DataDirectoryType::TlsTable));
    assert_eq!(
        DataDirectoryType::try_from(16usize),
        Err(Error::Malformed(Malformed::DirectoryIndex { index: 16 }))
    );
}

#[test]
fn context_decode_has_no_source_offset() {
    let bytes = entry(0xdead_beef, 0x10);
    let (d, n) = DataDirectory::try_from_ctx(&bytes).unwrap();
    assert_eq!(n, SIZEOF_DATA_DIRECTORY);
    assert_eq!(d.inner, DataDirectoryInner { virtual_address: 0xdead_beef, size: 0x10 });
    assert_eq!(d.offset, None);
    assert_eq!(
        d.data(&bytes),
        Err(Error::Malformed(Malformed::MissingSourceOffset))
    );
    assert_eq!(
        DataDirectory::try_from_ctx(&bytes[..5]),
        Err(Error::Malformed(Malformed::Truncated { offset: 0 }))
    );
}

#[test]
fn zero_count_succeeds_wherever_offset_points() {
    let bytes = vec![1u8; 4];
    let mut offset = 100usize;
    let t = DataDirectories::parse(&bytes, 0, &mut offset).unwrap();
    assert!(t.data_directories.iter().all(|d| d.is_none()));
    assert!(t.dirs().is_empty());
    assert_eq!(offset, 100);
}
