use pe_layout::certificates::certificates;
use pe_layout::data_directories::{DataDirectories, DataDirectory, DataDirectoryInner};
use pe_layout::error::{Error, Malformed};
use pe_layout::section_table::{
    parse_section_table, section_by_name, Section, IMAGE_SCN_MEM_EXECUTE, IMAGE_SCN_MEM_READ,
};
use pe_layout::writer::{LayoutWriter, PeImage};

fn header(name: &[u8; 8], vs: u32, va: u32, rs: u32, rp: u32, ch: u32) -> Vec<u8> {
    let mut v = name.to_vec();
    for x in [vs, va, rs, rp, 0, 0, 0, ch] {
        v.extend_from_slice(&x.to_le_bytes());
    }
    v
}

fn cert_table(at: u32, size: u32) -> DataDirectories {
    let mut t = DataDirectories { data_directories: [None; 16] };
    t.data_directories[4] = Some(DataDirectory {
        inner: DataDirectoryInner { virtual_address: at, size },
        offset: None,
    });
    t
}

fn record(revision: u16, kind: u16, body: &[u8]) -> Vec<u8> {
    let mut v = ((body.len() + 8) as u32).to_le_bytes().to_vec();
    v.extend_from_slice(&revision.to_le_bytes());
    v.extend_from_slice(&kind.to_le_bytes());
    v.extend_from_slice(body);
    while v.len() % 8 != 0 {
        v.push(0);
    }
    v
}

#[test]
fn section_header_decodes_fields() {
    let mut bytes = vec![0u8; 2];
    bytes.extend(header(b".text\0\0\0", 0x30, 0x1000, 0x200, 0x400, 0x6000_0020));
    let mut offset = 2usize;
    let s = Section::parse(&bytes, &mut offset).unwrap();
    assert_eq!(&s.name, b".text\0\0\0");
    assert_eq!(s.virtual_size, 0x30);
    assert_eq!(s.virtual_address, 0x1000);
    assert_eq!(s.size_of_raw_data, 0x200);
    assert_eq!(s.pointer_to_raw_data, 0x400);
    assert_eq!(s.characteristics, 0x6000_0020);
    assert_eq!(offset, 42);
}

#[test]
fn truncated_section_table_fails() {
    let bytes = header(b".text\0\0\0", 1, 2, 3, 4, 5);
    let mut offset = 0usize;
    assert_eq!(
        parse_section_table(&bytes, 2, &mut offset),
        Err(Error::Malformed(Malformed::Truncated { offset: 0 }))
    );
    assert_eq!(offset, 0);
    let mut offset = 1usize;
    assert_eq!(
        Section::parse(&bytes, &mut offset),
        Err(Error::Malformed(Malformed::Truncated { offset: 1 }))
    );
}

#[test]
fn section_lookup_by_name_finds_first() {
    let mut bytes = header(b".text\0\0\0", 1, 2, 3, 4, 5);
    bytes.extend(header(b".data\0\0\0", 6, 7, 8, 9, 10));
    let mut offset = 0usize;
    let secs = parse_section_table(&bytes, 2, &mut offset).unwrap();
    assert_eq!(secs.len(), 2);
    assert_eq!(section_by_name(&secs, b".data\0\0\0"), Some(1));
    assert_eq!(section_by_name(&secs, b".bss\0\0\0\0"), None);
    assert_eq!(secs[1].characteristics, 10);
}

#[test]
fn inserted_section_is_found_after_reparse() {
    let image = PeImage {
        headers: vec![0u8; 128 + 32],
        section_count_offset: 2,
        size_of_headers_offset: 4,
        directory_offset: 16,
        number_of_sections: 1,
        file_alignment: 0x200,
        section_alignment: 0x1000,
        directories: DataDirectories { data_directories: [None; 16] },
        sections: vec![Section::new(b".text", Some(vec![0xcc; 16]), IMAGE_SCN_MEM_READ).unwrap()],
        certificate: vec![],
    };
    let mut w = LayoutWriter::new(image).unwrap();
    let ch = IMAGE_SCN_MEM_EXECUTE | IMAGE_SCN_MEM_READ;
    w.insert_section(Section::new(b".added\0\0", Some(vec![0]), ch).unwrap()).unwrap();
    let mut out = vec![0u8; 0x1000];
    let n = w.write_into(&mut out, 0).unwrap();
    assert_eq!(n, 0x600);
    let count = u16::from_le_bytes([out[2], out[3]]) as usize;
    assert_eq!(count, 2);
    let mut offset = 160usize;
    let secs = parse_section_table(&out, count, &mut offset).unwrap();
    let i = section_by_name(&secs, b".added\0\0").unwrap();
    assert_eq!(i, 1);
    assert_eq!(secs[i].characteristics, ch);
    assert_eq!(secs[0].characteristics, IMAGE_SCN_MEM_READ);
    let at = secs[0].pointer_to_raw_data as usize;
    assert_eq!(&out[at..at + 16], &[0xcc; 16][..]);
    assert_eq!(out[secs[1].pointer_to_raw_data as usize], 0);
}

#[test]
fn certificate_records_are_listed_in_order() {
    let mut file = vec![0xeeu8; 16];
    let r1 = record(0x0200, 0x0002, &[1, 2, 3]);
    let r2 = record(0x0200, 0x0002, &[9; 8]);
    file.extend(&r1);
    file.extend(&r2);
    let t = cert_table(16, (r1.len() + r2.len()) as u32);
    let recs = certificates(&t, &file).unwrap();
    assert_eq!(recs.len(), 2);
    assert_eq!(recs[0].length, 11);
    assert_eq!(recs[0].revision, 0x0200);
    assert_eq!(recs[0].certificate_type, 2);
    assert_eq!(recs[0].certificate, vec![1, 2, 3]);
    assert_eq!(recs[1].certificate, vec![9; 8]);
}

#[test]
fn no_certificate_directory_means_no_records() {
    let t = DataDirectories { data_directories: [None; 16] };
    assert_eq!(certificates(&t, &[1, 2, 3]).unwrap().len(), 0);
}

#[test]
fn truncated_certificate_record_is_malformed() {
    let mut file = record(1, 2, &[5; 12]);
    file.truncate(16);
    let t = cert_table(0, 16);
    assert_eq!(
        certificates(&t, &file),
        Err(Error::Malformed(Malformed::CertificateRecords))
    );
}

#[test]
fn record_shorter_than_its_header_is_malformed() {
    let mut file = vec![4u8, 0, 0, 0, 0, 0, 0, 0];
    file.extend(vec![0u8; 8]);
    let t = cert_table(0, 16);
    assert_eq!(
        certificates(&t, &file),
        Err(Error::Malformed(Malformed::CertificateRecords))
    );
}

#[test]
fn certificate_directory_past_end_is_malformed() {
    let t = cert_table(8, 100);
    assert_eq!(
        certificates(&t, &[0u8; 20]),
        Err(Error::Malformed(Malformed::PayloadOutOfBounds { start: 8, size: 100, len: 20 }))
    );
}
