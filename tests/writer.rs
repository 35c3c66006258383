use pe_layout::data_directories::{DataDirectories, DataDirectory, DataDirectoryInner};
use pe_layout::error::{Error, Malformed};
use pe_layout::section_table::{
    Section, IMAGE_SCN_MEM_EXECUTE, IMAGE_SCN_MEM_READ, IMAGE_SCN_MEM_WRITE,
};
use pe_layout::writer::{LayoutWriter, PeImage};

const COUNT_AT: usize = 6;
const SIZE_OF_HEADERS_AT: usize = 16;
const DIRS_AT: usize = 24;
const HEADERS_LEN: usize = 160;

fn u32_at(b: &[u8], at: usize) -> u32 {
    u32::from_le_bytes([b[at], b[at + 1], b[at + 2], b[at + 3]])
}

fn dirs(pairs: &[(usize, u32, u32)]) -> DataDirectories {
    let mut t = DataDirectories { data_directories: [None; 16] };
    for &(slot, a, s) in pairs {
        t.data_directories[slot] = Some(DataDirectory {
            inner: DataDirectoryInner { virtual_address: a, size: s },
            offset: None,
        });
    }
    t
}

fn section(name: &[u8], data: Vec<u8>, ch: u32) -> Section {
    Section::new(name, Some(data), ch).unwrap()
}

fn image(sections: Vec<Section>, certificate: Vec<u8>, t: DataDirectories) -> PeImage {
    PeImage {
        headers: vec![0xabu8; HEADERS_LEN],
        section_count_offset: COUNT_AT,
        size_of_headers_offset: SIZE_OF_HEADERS_AT,
        directory_offset: DIRS_AT,
        number_of_sections: sections.len() as u16,
        file_alignment: 0x200,
        section_alignment: 0x1000,
        directories: t,
        sections,
        certificate,
    }
}

fn sample() -> PeImage {
    image(
        vec![
            section(b".text", vec![0x90; 0x30], IMAGE_SCN_MEM_EXECUTE | IMAGE_SCN_MEM_READ),
            section(b".data", vec![7; 0x210], IMAGE_SCN_MEM_READ | IMAGE_SCN_MEM_WRITE),
        ],
        vec![0xc5; 0x18],
        dirs(&[(1, 0x1000, 0x28), (4, 0x600, 0x18)]),
    )
}

#[test]
fn section_new_pads_name_and_sizes_from_data() {
    let s = Section::new(b".rsrc", Some(vec![1, 2, 3]), IMAGE_SCN_MEM_READ).unwrap();
    assert_eq!(&s.name, b".rsrc\0\0\0");
    assert_eq!(s.virtual_size, 3);
    assert_eq!(s.size_of_raw_data, 3);
    assert_eq!(s.characteristics, IMAGE_SCN_MEM_READ);
    let e = Section::new(b"12345678", None, 0).unwrap();
    assert_eq!(&e.name, b"12345678");
    assert!(e.data.is_empty());
}

#[test]
fn section_name_over_eight_bytes_is_malformed() {
    assert_eq!(
        Section::new(b".toolong!", None, 0),
        Err(Error::Malformed(Malformed::SectionName { len: 9 }))
    );
}

#[test]
fn has_name_compares_all_eight_bytes() {
    let s = section(b".text", vec![], 0);
    assert!(s.has_name(b".text\0\0\0"));
    assert!(!s.has_name(b".text\0\0x"));
}

#[test]
fn inconsistent_header_is_refused() {
    let mut img = sample();
    img.number_of_sections = 3;
    assert_eq!(
        LayoutWriter::new(img).err(),
        Some(Error::Malformed(Malformed::InconsistentHeader))
    );
    let mut img = sample();
    img.file_alignment = 0;
    assert!(LayoutWriter::new(img).is_err());
    let mut img = sample();
    img.directory_offset = HEADERS_LEN - 100;
    assert!(LayoutWriter::new(img).is_err());
    let mut img = sample();
    img.directories = dirs(&[(2, 0, 0)]);
    assert!(LayoutWriter::new(img).is_err());
}

#[test]
fn duplicate_name_fails_and_changes_nothing() {
    let mut w = LayoutWriter::new(sample()).unwrap();
    let r = w.insert_section(section(b".data", vec![1], IMAGE_SCN_MEM_READ));
    assert_eq!(
        r,
        Err(Error::Malformed(Malformed::DuplicateSectionName { index: 1 }))
    );
    assert_eq!(w.pending.len(), 0);
    assert_eq!(w.section_count(), 2);
    w.insert_section(section(b".added", vec![0], IMAGE_SCN_MEM_EXECUTE)).unwrap();
    let r = w.insert_section(section(b".added", vec![2], 0));
    assert_eq!(
        r,
        Err(Error::Malformed(Malformed::DuplicateSectionName { index: 2 }))
    );
    assert_eq!(w.pending.len(), 1);
    assert_eq!(w.pending[0].data, vec![0]);
}

#[test]
fn layout_places_sections_on_alignment() {
    let mut w = LayoutWriter::new(sample()).unwrap();
    w.insert_section(section(b".added", vec![0], IMAGE_SCN_MEM_EXECUTE | IMAGE_SCN_MEM_READ))
        .unwrap();
    let l = w.layout().unwrap();
    // 160 header bytes + 3 records of 40 = 280, rounded up to 0x200.
    assert_eq!(l.header_end, 0x200);
    assert_eq!(l.raw_offsets, vec![0x200, 0x400, 0x800]);
    assert_eq!(l.virtual_addresses, vec![0x1000, 0x2000, 0x3000]);
    assert_eq!(l.certificate_offset, 0xa00);
    assert_eq!(l.total, 0xa18);
}

#[test]
fn inserted_section_is_emitted_after_the_others() {
    let mut w = LayoutWriter::new(sample()).unwrap();
    let ch = IMAGE_SCN_MEM_EXECUTE | IMAGE_SCN_MEM_READ;
    w.insert_section(section(b".added", vec![0x42], ch)).unwrap();
    let mut out = vec![0xffu8; 0x1000];
    let n = w.write_into(&mut out, 0).unwrap();
    // header size + section table, aligned; then 0x200 + 0x400 + 0x200; then 0x18.
    assert_eq!(n, 0x200 + 0x200 + 0x400 + 0x200 + 0x18);
    assert_eq!(u16::from_le_bytes([out[COUNT_AT], out[COUNT_AT + 1]]), 3);
    assert_eq!(u32_at(&out, SIZE_OF_HEADERS_AT), 0x200);
    let names: Vec<&[u8]> = (0..3).map(|i| &out[HEADERS_LEN + 40 * i..HEADERS_LEN + 40 * i + 8]).collect();
    assert_eq!(names, vec![&b".text\0\0\0"[..], &b".data\0\0\0"[..], &b".added\0\0"[..]]);
    let rec = HEADERS_LEN + 80;
    assert_eq!(u32_at(&out, rec + 8), 1);
    assert_eq!(u32_at(&out, rec + 12), 0x3000);
    assert_eq!(u32_at(&out, rec + 16), 0x200);
    assert_eq!(u32_at(&out, rec + 20), 0x800);
    assert_eq!(u32_at(&out, rec + 36), ch);
    assert!(out[HEADERS_LEN + 120..0x200].iter().all(|&b| b == 0));
    assert_eq!(&out[0x200..0x230], &[0x90; 0x30][..]);
    assert!(out[0x230..0x400].iter().all(|&b| b == 0));
    assert_eq!(&out[0x400..0x610], &[7; 0x210][..]);
    assert_eq!(out[0x800], 0x42);
    assert!(out[0x801..0xa00].iter().all(|&b| b == 0));
    assert_eq!(&out[0xa00..0xa18], &[0xc5; 0x18][..]);
    assert!(out[0xa18..].iter().all(|&b| b == 0xff));
}

#[test]
fn certificate_entry_reports_new_offset() {
    let mut w = LayoutWriter::new(sample()).unwrap();
    w.insert_section(section(b".added", vec![1; 0x300], IMAGE_SCN_MEM_READ)).unwrap();
    let mut out = vec![0u8; 0x2000];
    let n = w.write_into(&mut out, 0).unwrap();
    let mut offset = DIRS_AT;
    let t = DataDirectories::parse(&out, 16, &mut offset).unwrap();
    let cert = t.get_certificate_table().unwrap();
    assert_ne!(cert.inner.virtual_address, 0x600);
    assert_eq!(cert.inner.virtual_address, 0xc00);
    assert_eq!(cert.inner.size, 0x18);
    assert_eq!(n, 0xc18);
    assert_eq!(&out[0xc00..0xc18], &[0xc5; 0x18][..]);
    let import = t.get_import_table().unwrap();
    assert_eq!(import.inner, DataDirectoryInner { virtual_address: 0x1000, size: 0x28 });
    assert_eq!(t.dirs().len(), 2);
}

#[test]
fn rewrite_without_edits_keeps_sections_and_directories() {
    let w = LayoutWriter::new(sample()).unwrap();
    let mut out = vec![0u8; 0x1000];
    let n = w.write_into(&mut out, 0).unwrap();
    assert_eq!(n, 0x200 + 0x200 + 0x400 + 0x18);
    assert_eq!(u16::from_le_bytes([out[COUNT_AT], out[COUNT_AT + 1]]), 2);
    assert_eq!(u32_at(&out, HEADERS_LEN + 36), IMAGE_SCN_MEM_EXECUTE | IMAGE_SCN_MEM_READ);
    assert_eq!(u32_at(&out, HEADERS_LEN + 40 + 36), IMAGE_SCN_MEM_READ | IMAGE_SCN_MEM_WRITE);
    let mut offset = DIRS_AT;
    let t = DataDirectories::parse(&out, 16, &mut offset).unwrap();
    let kinds: Vec<usize> = t.dirs().iter().map(|(k, _)| k.index()).collect();
    assert_eq!(kinds, vec![1, 4]);
    assert_eq!(t.get_certificate_table().unwrap().inner.virtual_address, 0x800);
}

#[test]
fn unsigned_image_has_no_certificate_entry() {
    let img = image(
        vec![section(b".text", vec![1; 4], IMAGE_SCN_MEM_EXECUTE)],
        vec![],
        dirs(&[(0, 0x3000, 0x40)]),
    );
    let w = LayoutWriter::new(img).unwrap();
    let mut out = vec![0u8; 0x400];
    assert_eq!(w.write_into(&mut out, 0), Ok(0x400));
    let mut offset = DIRS_AT;
    let t = DataDirectories::parse(&out, 16, &mut offset).unwrap();
    assert!(t.get_certificate_table().is_none());
    assert_eq!(t.get_export_table().unwrap().inner.virtual_address, 0x3000);
}

#[test]
fn short_destination_fails_untouched() {
    let w = LayoutWriter::new(sample()).unwrap();
    let mut out = vec![0x11u8; 0x300];
    assert_eq!(
        w.write_into(&mut out, 0),
        Err(Error::BufferTooSmall { needed: 0x818, available: 0x300 })
    );
    assert!(out.iter().all(|&b| b == 0x11));
}

#[test]
fn offsets_beyond_32_bits_overflow() {
    let mut img = sample();
    img.section_alignment = 0x8000_0000;
    let w = LayoutWriter::new(img).unwrap();
    assert_eq!(
        w.layout().err(),
        Some(Error::Malformed(Malformed::LayoutOverflow))
    );
    let mut out = vec![0x11u8; 0x1000];
    assert_eq!(
        w.write_into(&mut out, 0),
        Err(Error::Malformed(Malformed::LayoutOverflow))
    );
    assert!(out.iter().all(|&b| b == 0x11));
}

#[test]
fn entries_move_with_their_section() {
    let mut text = section(b".text", vec![0x90; 0x100], IMAGE_SCN_MEM_EXECUTE);
    text.virtual_address = 0x1000;
    let img = PeImage {
        headers: vec![0u8; 0xff0],
        section_count_offset: COUNT_AT,
        size_of_headers_offset: SIZE_OF_HEADERS_AT,
        directory_offset: DIRS_AT,
        number_of_sections: 1,
        file_alignment: 0x200,
        section_alignment: 0x1000,
        directories: dirs(&[(1, 0x1010, 0x20), (6, 0x9000, 0x10)]),
        sections: vec![text],
        certificate: vec![],
    };
    let mut w = LayoutWriter::new(img).unwrap();
    w.insert_section(section(b".added", vec![1], IMAGE_SCN_MEM_READ)).unwrap();
    let l = w.layout().unwrap();
    assert_eq!(l.virtual_addresses, vec![0x2000, 0x3000]);
    let mut out = vec![0u8; 0x2000];
    w.write_into(&mut out, 0).unwrap();
    let mut offset = DIRS_AT;
    let t = DataDirectories::parse(&out, 16, &mut offset).unwrap();
    assert_eq!(
        t.get_import_table().unwrap().inner,
        DataDirectoryInner { virtual_address: 0x2010, size: 0x20 }
    );
    assert_eq!(
        t.get_debug_table().unwrap().inner,
        DataDirectoryInner { virtual_address: 0x9000, size: 0x10 }
    );
}

#[test]
fn image_is_emitted_from_the_requested_offset() {
    let w = LayoutWriter::new(sample()).unwrap();
    let mut out = vec![0x77u8; 0x900];
    assert_eq!(
        w.write_into(&mut out, 0x100),
        Err(Error::BufferTooSmall { needed: 0x818, available: 0x800 })
    );
    assert!(out.iter().all(|&b| b == 0x77));
    let w = LayoutWriter::new(sample()).unwrap();
    let mut out = vec![0x77u8; 0x920];
    assert_eq!(w.write_into(&mut out, 0x100), Ok(0x818));
    assert!(out[..0x100].iter().all(|&b| b == 0x77));
    assert_eq!(u16::from_le_bytes([out[0x100 + COUNT_AT], out[0x100 + COUNT_AT + 1]]), 2);
    assert_eq!(&out[0x100 + 0x800..0x100 + 0x818], &[0xc5; 0x18][..]);
    assert!(out[0x918..].iter().all(|&b| b == 0x77));
}

#[test]
fn certificate_entry_must_match_blob() {
    let mut img = sample();
    img.certificate = vec![];
    assert_eq!(
        LayoutWriter::new(img).err(),
        Some(Error::Malformed(Malformed::InconsistentHeader))
    );
    let mut img = sample();
    img.directories = dirs(&[(1, 0x1000, 0x28), (4, 0x600, 0)]);
    img.certificate = vec![];
    assert!(LayoutWriter::new(img).is_err());
    let mut img = sample();
    img.directories = dirs(&[(1, 0x1000, 0x28), (4, 0x600, 0x10)]);
    assert!(LayoutWriter::new(img).is_err());
    let mut img = sample();
    img.directories = dirs(&[(1, 0x1000, 0x28)]);
    assert!(LayoutWriter::new(img).is_err());
}
