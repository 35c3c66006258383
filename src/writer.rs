use crate::bytes::{
    copy_into, fill_zeros, le16_bytes, le32_at, le32_bytes, lemma_le32_round_trip,
    lemma_splice_extend, splice, write_u16_le, write_u32_le, zeros,
};
use crate::data_directories::{
    canonical, lemma_parsed_slots_local, lemma_write_parse_round_trip, parsed_slots, same_entries,
    table_bytes, DataDirectories, DataDirectory, DataDirectoryInner, CERTIFICATE_SLOT,
};
use crate::error::{Error, Malformed};
use crate::section_table::Section;
use vstd::prelude::*;

verus! {

/// Largest number of sections that the 16-bit count field can declare.
pub const MAX_SECTIONS: usize = 65535;

/// A parsed image, as the layout writer consumes it.
pub struct PeImage {
    /// The DOS, COFF and optional headers, up to where the section table starts.
    pub headers: Vec<u8>,
    /// Offset within `headers` of the 16-bit number-of-sections field.
    pub section_count_offset: usize,
    /// Offset within `headers` of the 32-bit size-of-headers field.
    pub size_of_headers_offset: usize,
    /// Offset within `headers` of the directory table.
    pub directory_offset: usize,
    /// The declared number of sections.
    pub number_of_sections: u16,
    pub file_alignment: u32,
    pub section_alignment: u32,
    pub directories: DataDirectories,
    /// Sections in ascending placement order.
    pub sections: Vec<Section>,
    /// The attribute-certificate blob appended after the sections; empty when unsigned.
    pub certificate: Vec<u8>,
}

impl PeImage {
    /// The certificate directory is present exactly when there is a blob,
    /// and then gives the blob's length.
    pub open spec fn certificate_entry_matches(&self) -> bool {
        let slot = self.directories.data_directories@[CERTIFICATE_SLOT as int];
        &&& (slot is Some) == (self.certificate@.len() > 0)
        &&& slot is Some ==> slot->0.inner.size == self.certificate@.len()
    }

    /// The header fields agree with the rest of the image.
    pub open spec fn wf(&self) -> bool {
        &&& self.file_alignment > 0
        &&& self.section_alignment > 0
        &&& self.number_of_sections == self.sections@.len()
        &&& self.section_count_offset + 2 <= self.headers@.len()
        &&& self.size_of_headers_offset + 4 <= self.headers@.len()
        &&& self.directory_offset + 128 <= self.headers@.len()
        &&& self.certificate@.len() <= u32::MAX
        &&& self.directories.wf()
        &&& self.certificate_entry_matches()
        &&& forall|i: int|
            0 <= i < self.sections@.len() ==> #[trigger] self.sections@[i].data@.len()
                <= u32::MAX
    }
}

/// `x` rounded up to a multiple of `a`.
pub open spec fn align_to(x: int, a: int) -> int {
    if a <= 0 || x % a == 0 {
        x
    } else {
        x + (a - x % a)
    }
}

/// Bytes a section occupies in the file: its data rounded up to `fa`.
pub open spec fn raw_size(s: Section, fa: int) -> int {
    align_to(s.data@.len() as int, fa)
}

/// Address space a section occupies once loaded, rounded up to `sa`.
pub open spec fn virtual_extent(s: Section, sa: int) -> int {
    align_to(
        if s.virtual_size >= s.data@.len() {
            s.virtual_size as int
        } else {
            s.data@.len() as int
        },
        sa,
    )
}

/// Sum of the padded raw sizes of sections `0 .. k`.
pub open spec fn sum_raw_sizes(secs: Seq<Section>, fa: int, k: int) -> int
    decreases k,
{
    if k <= 0 {
        0
    } else {
        sum_raw_sizes(secs, fa, k - 1) + raw_size(secs[k - 1], fa)
    }
}

/// Sum of the padded virtual extents of sections `0 .. k`.
pub open spec fn sum_virtual_extents(secs: Seq<Section>, sa: int, k: int) -> int
    decreases k,
{
    if k <= 0 {
        0
    } else {
        sum_virtual_extents(secs, sa, k - 1) + virtual_extent(secs[k - 1], sa)
    }
}

/// Rounding up never lowers a value and adds less than one alignment unit.
proof fn lemma_align_to(x: int, a: int)
    requires
        0 <= x,
        0 < a,
    ensures
        x <= align_to(x, a) < x + a,
{
    vstd::arithmetic::div_mod::lemma_mod_bound(x, a);
}

/// Each step of the running sums adds a non-negative amount.
proof fn lemma_sum_step(secs: Seq<Section>, fa: int, sa: int, k: int)
    requires
        0 < fa,
        0 < sa,
        0 <= k < secs.len(),
    ensures
        sum_raw_sizes(secs, fa, k) <= sum_raw_sizes(secs, fa, k + 1),
        sum_virtual_extents(secs, sa, k) <= sum_virtual_extents(secs, sa, k + 1),
{
    let s = secs[k];
    lemma_align_to(s.data@.len() as int, fa);
    lemma_align_to(
        if s.virtual_size >= s.data@.len() {
            s.virtual_size as int
        } else {
            s.data@.len() as int
        },
        sa,
    );
}

/// The running sums start at zero and only grow.
proof fn lemma_sums_monotone(secs: Seq<Section>, fa: int, sa: int, k: int, m: int)
    requires
        0 < fa,
        0 < sa,
        0 <= k <= m <= secs.len(),
    ensures
        0 <= sum_raw_sizes(secs, fa, k) <= sum_raw_sizes(secs, fa, m),
        0 <= sum_virtual_extents(secs, sa, k) <= sum_virtual_extents(secs, sa, m),
    decreases m,
{
    if m > 0 {
        if k < m {
            lemma_sums_monotone(secs, fa, sa, k, m - 1);
        } else {
            lemma_sums_monotone(secs, fa, sa, m - 1, m - 1);
        }
        lemma_sum_step(secs, fa, sa, m - 1);
    }
}

/// `x` rounded up to a multiple of `a`.
fn align_up(x: u64, a: u64) -> (r: u64)
    requires
        0 < a,
        x <= u64::MAX - a,
    ensures
        r == align_to(x as int, a as int),
{
    let rem = x % a;
    if rem == 0 {
        x
    } else {
        proof {
            vstd::arithmetic::div_mod::lemma_mod_bound(x as int, a as int);
        }
        x + (a - rem)
    }
}

/// Where each staged section is placed in the emitted image.
pub struct Layout {
    /// End of the headers and section table, rounded up to the file alignment.
    pub header_end: u32,
    pub raw_offsets: Vec<u32>,
    pub virtual_addresses: Vec<u32>,
    /// File offset of the certificate blob: the end of the last section's padding.
    pub certificate_offset: u32,
    /// Length of the whole emitted image.
    pub total: u64,
}

/// The 40-byte header record of `s` with the given placement fields, its
/// relocation and line-number fields zero.
pub open spec fn record_bytes(s: Section, virtual_address: u32, raw_size: u32, raw_offset: u32) -> Seq<
    u8,
> {
    s.name@ + le32_bytes(s.virtual_size) + le32_bytes(virtual_address) + le32_bytes(raw_size)
        + le32_bytes(raw_offset) + zeros(12) + le32_bytes(s.characteristics)
}

/// The header record of section `s` placed at `virtual_address` in memory
/// and `raw_offset` in the file.
pub open spec fn section_record(s: Section, virtual_address: int, raw_offset: int, fa: int) -> Seq<
    u8,
> {
    record_bytes(s, virtual_address as u32, raw_size(s, fa) as u32, raw_offset as u32)
}

/// Writes the header record of `s` at `pos`.
fn write_record(
    dst: &mut Vec<u8>,
    pos: usize,
    s: &Section,
    virtual_address: u32,
    raw_size: u32,
    raw_offset: u32,
)
    requires
        pos + 40 <= old(dst)@.len(),
    ensures
        final(dst)@ == splice(
            old(dst)@,
            pos as int,
            record_bytes(*s, virtual_address, raw_size, raw_offset),
        ),
{
    let ghost orig = dst@;
    assert(orig.len() == dst.len());
    copy_into(dst, pos, s.name.as_slice());
    write_u32_le(dst, pos + 8, s.virtual_size);
    write_u32_le(dst, pos + 12, virtual_address);
    write_u32_le(dst, pos + 16, raw_size);
    write_u32_le(dst, pos + 20, raw_offset);
    fill_zeros(dst, pos + 24, 12);
    write_u32_le(dst, pos + 36, s.characteristics);
    assert(dst@ =~= splice(orig, pos as int, record_bytes(*s, virtual_address, raw_size, raw_offset)));
}

/// Writes the data of `s` at `pos` followed by zeros up to `raw_size` bytes.
fn write_body(dst: &mut Vec<u8>, pos: usize, s: &Section, raw_size: usize)
    requires
        s.data@.len() <= raw_size,
        pos + raw_size <= old(dst)@.len(),
    ensures
        final(dst)@ == splice(
            old(dst)@,
            pos as int,
            s.data@ + zeros(raw_size - s.data@.len()),
        ),
{
    let ghost orig = dst@;
    assert(orig.len() == dst.len());
    let len = s.data.len();
    copy_into(dst, pos, s.data.as_slice());
    fill_zeros(dst, pos + len, raw_size - len);
    assert(dst@ =~= splice(orig, pos as int, s.data@ + zeros(raw_size - s.data@.len())));
}

/// A section's data followed by the zero padding up to its raw size.
pub open spec fn section_body(s: Section, fa: int) -> Seq<u8> {
    s.data@ + zeros(raw_size(s, fa) - s.data@.len())
}

/// The first of sections `i .. k` whose original extent,
/// `virtual_address .. virtual_address + virtual_size`, holds `addr`.
pub open spec fn containing_section(secs: Seq<Section>, addr: int, i: int, k: int) -> Option<int>
    decreases k - i,
{
    if i >= k {
        None
    } else if secs[i].virtual_address <= addr < secs[i].virtual_address + secs[i].virtual_size {
        Some(i)
    } else {
        containing_section(secs, addr, i + 1, k)
    }
}

/// One step of the search for the section holding an address.
proof fn lemma_containing_step(secs: Seq<Section>, addr: int, i: int, k: int)
    requires
        0 <= i < k,
    ensures
        containing_section(secs, addr, i, k) == if secs[i].virtual_address <= addr
            < secs[i].virtual_address + secs[i].virtual_size {
            Some(i)
        } else {
            containing_section(secs, addr, i + 1, k)
        },
{
    reveal_with_fuel(containing_section, 1);
}

/// A section found by `containing_section` is in range and holds the address.
proof fn lemma_containing_section(secs: Seq<Section>, addr: int, i: int, k: int)
    ensures
        containing_section(secs, addr, i, k) matches Some(j) ==> i <= j < k
            && secs[j].virtual_address <= addr < secs[j].virtual_address + secs[j].virtual_size,
    decreases k - i,
{
    if i < k {
        lemma_containing_section(secs, addr, i + 1, k);
    }
}

/// Stages section insertions on an image and emits the rewritten image.
pub struct LayoutWriter {
    pub image: PeImage,
    /// Sections to append after the image's own, in insertion order.
    pub pending: Vec<Section>,
}

impl LayoutWriter {
    /// The sections of the image to be emitted, in order.
    pub open spec fn staged(&self) -> Seq<Section> {
        self.image.sections@ + self.pending@
    }

    pub open spec fn wf(&self) -> bool {
        &&& self.image.wf()
        &&& self.staged().len() <= MAX_SECTIONS
        &&& forall|i: int|
            0 <= i < self.staged().len() ==> #[trigger] self.staged()[i].data@.len() <= u32::MAX
    }

    /// Wraps `image` with no pending edits; fails when its header fields
    /// disagree with the rest of it.
    pub fn new(image: PeImage) -> (r: Result<LayoutWriter, Error>)
        ensures
            image.wf() ==> r is Ok && r->Ok_0.image == image && r->Ok_0.pending@.len() == 0,
            !image.wf() ==> r == Err::<LayoutWriter, Error>(
                Error::Malformed(Malformed::InconsistentHeader),
            ),
            r is Ok ==> r->Ok_0.wf(),
    {
        let len = image.headers.len();
        let consistent = image.file_alignment > 0 && image.section_alignment > 0
            && image.number_of_sections as usize == image.sections.len()
            && image.section_count_offset <= len && len - image.section_count_offset >= 2
            && image.size_of_headers_offset <= len && len - image.size_of_headers_offset >= 4
            && image.directory_offset <= len && len - image.directory_offset >= 128
            && image.certificate.len() <= u32::MAX as usize && image.directories.is_canonical()
            && match image.directories.data_directories[CERTIFICATE_SLOT] {
            Some(d) => image.certificate.len() > 0 && d.inner.size as usize
                == image.certificate.len(),
            None => image.certificate.len() == 0,
        };
        if !consistent {
            return Err(Error::Malformed(Malformed::InconsistentHeader));
        }
        let mut i: usize = 0;
        while i < image.sections.len()
            invariant
                i <= image.sections@.len(),
                forall|j: int| 0 <= j < i ==> #[trigger] image.sections@[j].data@.len() <= u32::MAX,
            decreases image.sections@.len() - i,
        {
            if image.sections[i].data.len() > u32::MAX as usize {
                return Err(Error::Malformed(Malformed::InconsistentHeader));
            }
            i += 1;
        }
        let w = LayoutWriter { image, pending: Vec::new() };
        assert(w.staged() =~= w.image.sections@);
        Ok(w)
    }

    /// The staged section at `i`.
    fn staged_at(&self, i: usize) -> (r: &Section)
        requires
            i < self.staged().len(),
        ensures
            *r == self.staged()[i as int],
    {
        if i < self.image.sections.len() {
            &self.image.sections[i]
        } else {
            &self.pending[i - self.image.sections.len()]
        }
    }

    /// Number of staged sections.
    pub fn section_count(&self) -> (r: usize)
        requires
            self.wf(),
        ensures
            r == self.staged().len(),
    {
        self.image.sections.len() + self.pending.len()
    }

    /// Stages `section` after all others. Fails, changing nothing, when a
    /// staged section already has its name, when the count would no longer
    /// fit its header field, or when its data exceeds a 32-bit size.
    pub fn insert_section(&mut self, section: Section) -> (r: Result<(), Error>)
        requires
            old(self).wf(),
        ensures
            final(self).wf(),
            r is Err ==> *final(self) == *old(self),
            (exists|i: int|
                0 <= i < old(self).staged().len() && #[trigger] old(self).staged()[i].name@
                    == section.name@) <==> r matches Err(
                Error::Malformed(Malformed::DuplicateSectionName { .. }),
            ),
            r matches Err(Error::Malformed(Malformed::DuplicateSectionName { index })) ==> index
                < old(self).staged().len() && old(self).staged()[index as int].name@
                == section.name@,
            r is Ok <==> (forall|i: int|
                0 <= i < old(self).staged().len() ==> #[trigger] old(self).staged()[i].name@
                    != section.name@) && old(self).staged().len() < MAX_SECTIONS
                && section.data@.len() <= u32::MAX,
            r is Ok ==> final(self).image == old(self).image && final(self).pending@ == old(
                self,
            ).pending@.push(section),
    {
        let n = self.section_count();
        let mut i: usize = 0;
        while i < n
            invariant
                n == self.staged().len(),
                self.wf(),
                i <= n,
                forall|j: int| 0 <= j < i ==> #[trigger] self.staged()[j].name@ != section.name@,
            decreases n - i,
        {
            if self.staged_at(i).has_name(&section.name) {
                return Err(Error::Malformed(Malformed::DuplicateSectionName { index: i }));
            }
            i += 1;
        }
        if n >= MAX_SECTIONS {
            return Err(Error::Malformed(Malformed::TooManySections));
        }
        if section.data.len() > u32::MAX as usize {
            return Err(Error::Malformed(Malformed::SectionTooLarge { len: section.data.len() }));
        }
        let ghost before = self.staged();
        self.pending.push(section);
        assert(self.staged() =~= before.push(section));
        Ok(())
    }

    /// Bytes of headers plus section table before alignment padding.
    pub open spec fn header_len(&self) -> int {
        self.image.headers@.len() + 40 * (self.staged().len() as int)
    }

    /// Where section data starts in the file.
    pub open spec fn header_end(&self) -> int {
        align_to(self.header_len(), self.image.file_alignment as int)
    }

    /// File offset of staged section `i`; for `i` the section count, the end
    /// of the last section's padding.
    pub open spec fn raw_offset(&self, i: int) -> int {
        self.header_end() + sum_raw_sizes(self.staged(), self.image.file_alignment as int, i)
    }

    /// Virtual address of staged section `i`; for `i` the section count, the
    /// end of the last section's extent.
    pub open spec fn virtual_address(&self, i: int) -> int {
        align_to(self.header_len(), self.image.section_alignment as int) + sum_virtual_extents(
            self.staged(),
            self.image.section_alignment as int,
            i,
        )
    }

    /// File offset at which the certificate blob is appended.
    pub open spec fn certificate_offset(&self) -> int {
        self.raw_offset(self.staged().len() as int)
    }

    /// Length of the emitted image.
    pub open spec fn total_len(&self) -> int {
        self.certificate_offset() + self.image.certificate@.len()
    }

    /// Every offset and address of the layout fits its 32-bit field.
    pub open spec fn fits(&self) -> bool {
        &&& self.certificate_offset() <= u32::MAX
        &&& self.virtual_address(self.staged().len() as int) <= u32::MAX
    }

    /// Computes where every staged section goes: data starts after the
    /// headers and section table rounded up to the file alignment; each
    /// section follows the previous one's padded end, in the file and in
    /// memory; the certificate blob follows the last section.
    pub fn layout(&self) -> (r: Result<Layout, Error>)
        requires
            self.wf(),
        ensures
            !self.fits() ==> r == Err::<Layout, Error>(Error::Malformed(Malformed::LayoutOverflow)),
            self.fits() ==> r is Ok,
            r is Ok ==> {
                let l = r->Ok_0;
                &&& l.header_end == self.header_end()
                &&& l.raw_offsets@.len() == self.staged().len()
                &&& l.virtual_addresses@.len() == self.staged().len()
                &&& forall|i: int|
                    0 <= i < self.staged().len() ==> #[trigger] l.raw_offsets@[i]
                        == self.raw_offset(i)
                &&& forall|i: int|
                    0 <= i < self.staged().len() ==> #[trigger] l.virtual_addresses@[i]
                        == self.virtual_address(i)
                &&& l.certificate_offset == self.certificate_offset()
                &&& l.total == self.total_len()
            },
    {
        let n = self.section_count();
        let fa = self.image.file_alignment as u64;
        let sa = self.image.section_alignment as u64;
        let ghost secs = self.staged();
        proof {
            lemma_sums_monotone(secs, fa as int, sa as int, 0, n as int);
            lemma_align_to(self.header_len(), fa as int);
            lemma_align_to(self.header_len(), sa as int);
        }
        if self.image.headers.len() > u32::MAX as usize {
            return Err(Error::Malformed(Malformed::LayoutOverflow));
        }
        let header_len = self.image.headers.len() as u64 + 40 * (n as u64);
        let header_end = align_up(header_len, fa);
        let first_virtual = align_up(header_len, sa);
        if header_end > u32::MAX as u64 || first_virtual > u32::MAX as u64 {
            return Err(Error::Malformed(Malformed::LayoutOverflow));
        }
        let mut raw: u64 = header_end;
        let mut virt: u64 = first_virtual;
        let mut raw_offsets: Vec<u32> = Vec::new();
        let mut virtual_addresses: Vec<u32> = Vec::new();
        let mut i: usize = 0;
        while i < n
            invariant
                self.wf(),
                n == secs.len(),
                secs == self.staged(),
                fa == self.image.file_alignment,
                sa == self.image.section_alignment,
                i <= n,
                raw == self.raw_offset(i as int),
                virt == self.virtual_address(i as int),
                raw <= u32::MAX,
                virt <= u32::MAX,
                raw_offsets@.len() == i,
                virtual_addresses@.len() == i,
                forall|j: int| 0 <= j < i ==> #[trigger] raw_offsets@[j] == self.raw_offset(j),
                forall|j: int|
                    0 <= j < i ==> #[trigger] virtual_addresses@[j] == self.virtual_address(j),
            decreases n - i,
        {
            let s = self.staged_at(i);
            raw_offsets.push(raw as u32);
            virtual_addresses.push(virt as u32);
            let len = s.data.len() as u64;
            let extent = if s.virtual_size as u64 >= len {
                s.virtual_size as u64
            } else {
                len
            };
            let rs = align_up(len, fa);
            let vs = align_up(extent, sa);
            proof {
                lemma_align_to(len as int, fa as int);
                lemma_align_to(extent as int, sa as int);
                lemma_sums_monotone(secs, fa as int, sa as int, i + 1, n as int);
            }
            raw = raw + rs;
            virt = virt + vs;
            i += 1;
            if raw > u32::MAX as u64 || virt > u32::MAX as u64 {
                return Err(Error::Malformed(Malformed::LayoutOverflow));
            }
        }
        let total = raw + self.image.certificate.len() as u64;
        Ok(
            Layout {
                header_end: header_end as u32,
                raw_offsets,
                virtual_addresses,
                certificate_offset: raw as u32,
                total,
            },
        )
    }

    /// Header records of staged sections `0 .. k`.
    pub open spec fn section_table_upto(&self, k: int) -> Seq<u8>
        decreases k,
    {
        if k <= 0 {
            Seq::empty()
        } else {
            self.section_table_upto(k - 1) + section_record(
                self.staged()[k - 1],
                self.virtual_address(k - 1),
                self.raw_offset(k - 1),
                self.image.file_alignment as int,
            )
        }
    }

    /// Padded data of staged sections `0 .. k`.
    pub open spec fn section_bodies_upto(&self, k: int) -> Seq<u8>
        decreases k,
    {
        if k <= 0 {
            Seq::empty()
        } else {
            self.section_bodies_upto(k - 1) + section_body(
                self.staged()[k - 1],
                self.image.file_alignment as int,
            )
        }
    }

    /// `e` with its address moved along with the image section whose
    /// original extent holds it; unchanged when no section holds it.
    pub open spec fn relocated(&self, e: DataDirectoryInner) -> DataDirectoryInner {
        match containing_section(
            self.image.sections@,
            e.virtual_address as int,
            0,
            self.image.sections@.len() as int,
        ) {
            Some(i) => DataDirectoryInner {
                virtual_address: (e.virtual_address - self.image.sections@[i].virtual_address
                    + self.virtual_address(i)) as u32,
                size: e.size,
            },
            None => e,
        }
    }

    /// The directory table to emit: the certificate entry gives the blob's
    /// new file offset and exact length, or is absent when there is no blob;
    /// every other present entry is relocated with the section holding it.
    pub open spec fn patched_directories(&self) -> Seq<Option<DataDirectory>> {
        Seq::new(
            16,
            |j: int|
                if j == CERTIFICATE_SLOT {
                    if self.image.certificate@.len() > 0 {
                        Some(
                            DataDirectory {
                                inner: DataDirectoryInner {
                                    virtual_address: self.certificate_offset() as u32,
                                    size: self.image.certificate@.len() as u32,
                                },
                                offset: None,
                            },
                        )
                    } else {
                        None
                    }
                } else {
                    match self.image.directories.data_directories@[j] {
                        Some(d) => Some(
                            DataDirectory { inner: self.relocated(d.inner), offset: d.offset },
                        ),
                        None => None,
                    }
                },
        )
    }

    /// Where the entry `e` goes in the layout `l`.
    fn relocate(&self, l: &Layout, e: DataDirectoryInner) -> (r: DataDirectoryInner)
        requires
            self.wf(),
            self.fits(),
            l.virtual_addresses@.len() == self.staged().len(),
            forall|i: int|
                0 <= i < self.staged().len() ==> #[trigger] l.virtual_addresses@[i]
                    == self.virtual_address(i),
        ensures
            r == self.relocated(e),
    {
        let m = self.image.sections.len();
        let ghost secs = self.image.sections@;
        let ghost addr = e.virtual_address as int;
        let mut i: usize = 0;
        while i < m
            invariant
                self.wf(),
                self.fits(),
                m == secs.len(),
                secs == self.image.sections@,
                addr == e.virtual_address as int,
                i <= m,
                l.virtual_addresses@.len() == self.staged().len(),
                forall|q: int|
                    0 <= q < self.staged().len() ==> #[trigger] l.virtual_addresses@[q]
                        == self.virtual_address(q),
                containing_section(secs, addr, 0, m as int) == containing_section(
                    secs,
                    addr,
                    i as int,
                    m as int,
                ),
            decreases m - i,
        {
            let s = &self.image.sections[i];
            if s.virtual_address <= e.virtual_address && e.virtual_address - s.virtual_address
                < s.virtual_size {
                proof {
                    let n = self.staged().len() as int;
                    let sa = self.image.section_alignment as int;
                    assert(self.staged()[i as int] == *s);
                    lemma_sums_monotone(self.staged(), 1, sa, i + 1, n);
                    lemma_align_to(
                        if s.virtual_size >= s.data@.len() {
                            s.virtual_size as int
                        } else {
                            s.data@.len() as int
                        },
                        sa,
                    );
                    assert(self.virtual_address(i + 1) == self.virtual_address(i as int)
                        + virtual_extent(*s, sa));
                    assert(secs[i as int] == *s);
                    lemma_containing_step(secs, addr, i as int, m as int);
                }
                return DataDirectoryInner {
                    virtual_address: (e.virtual_address - s.virtual_address)
                        + l.virtual_addresses[i],
                    size: e.size,
                };
            }
            assert(secs[i as int] == *s);
            proof {
                lemma_containing_step(secs, addr, i as int, m as int);
            }
            i += 1;
        }
        e
    }

    /// The directory table of the layout `l`, as `patched_directories` gives it.
    fn patched_table(&self, l: &Layout) -> (r: DataDirectories)
        requires
            self.wf(),
            self.fits(),
            l.certificate_offset == self.certificate_offset(),
            l.virtual_addresses@.len() == self.staged().len(),
            forall|i: int|
                0 <= i < self.staged().len() ==> #[trigger] l.virtual_addresses@[i]
                    == self.virtual_address(i),
        ensures
            r.data_directories@ == self.patched_directories(),
    {
        let mut dirs = self.image.directories;
        let mut j: usize = 0;
        while j < 16
            invariant
                self.wf(),
                self.fits(),
                l.virtual_addresses@.len() == self.staged().len(),
                forall|q: int|
                    0 <= q < self.staged().len() ==> #[trigger] l.virtual_addresses@[q]
                        == self.virtual_address(q),
                j <= 16,
                forall|q: int|
                    0 <= q < 16 ==> #[trigger] dirs.data_directories@[q] == if q < j && q
                        != CERTIFICATE_SLOT {
                        self.patched_directories()[q]
                    } else {
                        self.image.directories.data_directories@[q]
                    },
            decreases 16 - j,
        {
            if j != CERTIFICATE_SLOT {
                if let Some(d) = dirs.data_directories[j] {
                    let inner = self.relocate(l, d.inner);
                    dirs.data_directories[j] = Some(DataDirectory { inner, offset: d.offset });
                }
            }
            j += 1;
        }
        let cert_len = self.image.certificate.len();
        dirs.data_directories[CERTIFICATE_SLOT] = if cert_len > 0 {
            Some(
                DataDirectory {
                    inner: DataDirectoryInner {
                        virtual_address: l.certificate_offset,
                        size: cert_len as u32,
                    },
                    offset: None,
                },
            )
        } else {
            None
        };
        assert(dirs.data_directories@ =~= self.patched_directories());
        dirs
    }

    /// The headers with the section count, the size of headers and the
    /// directory table brought up to date.
    pub open spec fn patched_headers(&self) -> Seq<u8> {
        splice(
            splice(
                splice(
                    self.image.headers@,
                    self.image.section_count_offset as int,
                    le16_bytes(self.staged().len() as u16),
                ),
                self.image.size_of_headers_offset as int,
                le32_bytes(self.header_end() as u32),
            ),
            self.image.directory_offset as int,
            table_bytes(self.patched_directories()),
        )
    }

    /// The bytes of the rewritten image: headers, section table, padding to
    /// the file alignment, each section's padded data, then the certificate blob.
    pub open spec fn emitted(&self) -> Seq<u8> {
        self.patched_headers() + self.section_table_upto(self.staged().len() as int) + zeros(
            self.header_end() - self.header_len(),
        ) + self.section_bodies_upto(self.staged().len() as int) + self.image.certificate@
    }

    /// Emits the rewritten image into `dst` from `offset` on, never growing
    /// `dst`, and returns its length. The layout is computed in full first: on any
    /// failure `dst` is left untouched.
    pub fn write_into(self, dst: &mut Vec<u8>, offset: usize) -> (r: Result<usize, Error>)
        requires
            self.wf(),
        ensures
            !self.fits() ==> r == Err::<usize, Error>(Error::Malformed(Malformed::LayoutOverflow)),
            self.fits() && offset + self.total_len() > old(dst)@.len() ==> r == Err::<
                usize,
                Error,
            >(
                Error::BufferTooSmall {
                    needed: self.total_len() as u64,
                    available: if offset <= old(dst)@.len() {
                        (old(dst)@.len() - offset) as u64
                    } else {
                        0
                    },
                },
            ),
            self.fits() && offset + self.total_len() <= old(dst)@.len() ==> {
                &&& r == Ok::<usize, Error>(self.total_len() as usize)
                &&& final(dst)@ == splice(old(dst)@, offset as int, self.emitted())
            },
            r is Err ==> final(dst)@ == old(dst)@,
    {
        let layout = match self.layout() {
            Ok(l) => l,
            Err(e) => return Err(e),
        };
        if offset > dst.len() || ((dst.len() - offset) as u64) < layout.total {
            let available = if offset <= dst.len() {
                (dst.len() - offset) as u64
            } else {
                0
            };
            return Err(Error::BufferTooSmall { needed: layout.total, available });
        }
        let n = self.section_count();
        let fa = self.image.file_alignment as u64;
        let ghost secs = self.staged();
        let ghost orig = dst@;
        assert(orig.len() == dst.len());
        proof {
            self.lemma_lengths();
            lemma_sums_monotone(secs, fa as int, self.image.section_alignment as int, 0, n as int);
        }

        let mut hdr = vstd::slice::slice_to_vec(self.image.headers.as_slice());
        write_u16_le(&mut hdr, self.image.section_count_offset, n as u16);
        write_u32_le(&mut hdr, self.image.size_of_headers_offset, layout.header_end);
        let dirs = self.patched_table(&layout);
        let _ = dirs.write(&mut hdr, self.image.directory_offset);
        assert(hdr@ == self.patched_headers());

        copy_into(dst, offset, hdr.as_slice());
        let ghost done = hdr@;
        proof {
            assert(splice(orig, offset as int, Seq::<u8>::empty()) =~= orig);
            lemma_splice_extend(orig, offset as int, Seq::empty(), hdr@);
            assert(Seq::<u8>::empty() + hdr@ =~= hdr@);
        }
        let mut pos: usize = offset + hdr.len();
        let mut i: usize = 0;
        while i < n
            invariant
                self.wf(),
                n == secs.len(),
                secs == self.staged(),
                fa == self.image.file_alignment,
                i <= n,
                layout.total == self.total_len(),
                offset + self.total_len() <= orig.len(),
                orig.len() == dst@.len(),
                orig.len() <= usize::MAX,
                self.fits(),
                layout.raw_offsets@.len() == n,
                layout.virtual_addresses@.len() == n,
                forall|j: int| 0 <= j < n ==> #[trigger] layout.raw_offsets@[j] == self.raw_offset(j),
                forall|j: int|
                    0 <= j < n ==> #[trigger] layout.virtual_addresses@[j] == self.virtual_address(j),
                self.header_len() <= self.header_end() <= self.raw_offset(n as int),
                self.raw_offset(n as int) <= self.total_len(),
                pos == offset + self.image.headers@.len() + 40 * i,
                done == self.patched_headers() + self.section_table_upto(i as int),
                offset + done.len() == pos,
                dst@ == splice(orig, offset as int, done),
            decreases n - i,
        {
            let s = self.staged_at(i);
            let rs = align_up(s.data.len() as u64, fa);
            let ghost rec = section_record(
                secs[i as int],
                self.virtual_address(i as int),
                self.raw_offset(i as int),
                fa as int,
            );
            proof {
                lemma_align_to(s.data@.len() as int, fa as int);
                lemma_sums_monotone(secs, fa as int, 1, i as int + 1, n as int);
                lemma_sum_step(secs, fa as int, 1, i as int);
                lemma_splice_extend(orig, offset as int, done, rec);
                assert(self.raw_offset(i as int + 1) == self.raw_offset(i as int) + rs);
            }
            write_record(dst, pos, s, layout.virtual_addresses[i], rs as u32, layout.raw_offsets[i]);
            proof {
                done = done + rec;
            }
            pos = pos + 40;
            i += 1;
        }
        let pad = (offset + layout.header_end as usize) - pos;
        proof {
            lemma_splice_extend(orig, offset as int, done, zeros(pad as int));
        }
        fill_zeros(dst, pos, pad);
        proof {
            done = done + zeros(pad as int);
        }
        pos = offset + layout.header_end as usize;
        let mut i: usize = 0;
        while i < n
            invariant
                self.wf(),
                n == secs.len(),
                secs == self.staged(),
                fa == self.image.file_alignment,
                i <= n,
                offset + self.total_len() <= orig.len(),
                orig.len() == dst@.len(),
                orig.len() <= usize::MAX,
                self.fits(),
                self.raw_offset(n as int) <= self.total_len(),
                pos == offset + self.raw_offset(i as int),
                done == self.patched_headers() + self.section_table_upto(n as int) + zeros(
                    self.header_end() - self.header_len(),
                ) + self.section_bodies_upto(i as int),
                offset + done.len() == pos,
                dst@ == splice(orig, offset as int, done),
            decreases n - i,
        {
            let s = self.staged_at(i);
            let len = s.data.len();
            let rs = align_up(len as u64, fa);
            let ghost body = section_body(secs[i as int], fa as int);
            proof {
                lemma_align_to(len as int, fa as int);
                lemma_sums_monotone(secs, fa as int, 1, i as int + 1, n as int);
                lemma_splice_extend(orig, offset as int, done, body);
                assert(self.raw_offset(i as int + 1) == self.raw_offset(i as int) + rs);
            }
            write_body(dst, pos, s, rs as usize);
            proof {
                done = done + body;
            }
            pos = pos + rs as usize;
            i += 1;
        }
        proof {
            lemma_splice_extend(orig, offset as int, done, self.image.certificate@);
        }
        copy_into(dst, pos, self.image.certificate.as_slice());
        proof {
            assert(done + self.image.certificate@ =~= self.emitted());
        }
        Ok(layout.total as usize)
    }

    /// The lengths of the parts of the emitted image.
    proof fn lemma_lengths(&self)
        requires
            self.wf(),
        ensures
            self.patched_headers().len() == self.image.headers@.len(),
            forall|k: int|
                0 <= k <= self.staged().len() ==> #[trigger] self.section_table_upto(k).len() == 40
                    * k,
            forall|k: int|
                0 <= k <= self.staged().len() ==> #[trigger] self.section_bodies_upto(k).len()
                    == sum_raw_sizes(self.staged(), self.image.file_alignment as int, k),
            self.emitted().len() == self.total_len(),
    {
        crate::data_directories::lemma_table_bytes_len(self.patched_directories());
        assert forall|k: int| 0 <= k <= self.staged().len() implies #[trigger] self.section_table_upto(
            k,
        ).len() == 40 * k by {
            self.lemma_table_len(k);
        }
        assert forall|k: int| 0 <= k <= self.staged().len() implies #[trigger] self.section_bodies_upto(
            k,
        ).len() == sum_raw_sizes(self.staged(), self.image.file_alignment as int, k) by {
            self.lemma_bodies_len(k);
        }
        lemma_align_to(self.header_len(), self.image.file_alignment as int);
    }

    proof fn lemma_table_len(&self, k: int)
        requires
            0 <= k,
        ensures
            self.section_table_upto(k).len() == 40 * k,
        decreases k,
    {
        if k > 0 {
            self.lemma_table_len(k - 1);
        }
    }

    proof fn lemma_bodies_len(&self, k: int)
        requires
            self.wf(),
            0 <= k <= self.staged().len(),
        ensures
            self.section_bodies_upto(k).len() == sum_raw_sizes(
                self.staged(),
                self.image.file_alignment as int,
                k,
            ),
        decreases k,
    {
        if k > 0 {
            self.lemma_bodies_len(k - 1);
            lemma_align_to(self.staged()[k - 1].data@.len() as int, self.image.file_alignment as int);
        }
    }
    /// Bytes `40 * i .. 40 * i + 40` of the records of sections `0 .. k` are record `i`.
    proof fn lemma_table_record(&self, k: int, i: int)
        requires
            0 <= i < k,
        ensures
            self.section_table_upto(k).subrange(40 * i, 40 * i + 40) == section_record(
                self.staged()[i],
                self.virtual_address(i),
                self.raw_offset(i),
                self.image.file_alignment as int,
            ),
        decreases k,
    {
        self.lemma_table_len(k - 1);
        let rec = section_record(
            self.staged()[k - 1],
            self.virtual_address(k - 1),
            self.raw_offset(k - 1),
            self.image.file_alignment as int,
        );
        let prev = self.section_table_upto(k - 1);
        assert(rec.len() == 40);
        if i == k - 1 {
            assert((prev + rec).subrange(40 * i, 40 * i + 40) =~= rec);
        } else {
            self.lemma_table_record(k - 1, i);
            assert((prev + rec).subrange(40 * i, 40 * i + 40) =~= prev.subrange(40 * i, 40 * i + 40));
        }
    }

    /// Within the padded data of sections `0 .. k`, section `i`'s data starts
    /// at the sum of the padded sizes before it.
    proof fn lemma_body_data(&self, k: int, i: int)
        requires
            self.wf(),
            0 <= i < k <= self.staged().len(),
        ensures
            ({
                let start = sum_raw_sizes(self.staged(), self.image.file_alignment as int, i);
                self.section_bodies_upto(k).subrange(start, start + self.staged()[i].data@.len())
                    == self.staged()[i].data@
            }),
        decreases k,
    {
        let fa = self.image.file_alignment as int;
        self.lemma_bodies_len(k - 1);
        lemma_align_to(self.staged()[k - 1].data@.len() as int, fa);
        let body = section_body(self.staged()[k - 1], fa);
        let prev = self.section_bodies_upto(k - 1);
        let start = sum_raw_sizes(self.staged(), fa, i);
        let len = self.staged()[i].data@.len() as int;
        if i == k - 1 {
            assert((prev + body).subrange(start, start + len) =~= self.staged()[i].data@);
        } else {
            self.lemma_body_data(k - 1, i);
            lemma_sums_monotone(self.staged(), fa, 1, i + 1, k - 1);
            lemma_sums_monotone(self.staged(), fa, 1, i, i);
            lemma_align_to(self.staged()[i].data@.len() as int, fa);
            assert(sum_raw_sizes(self.staged(), fa, i + 1) == start + raw_size(self.staged()[i], fa));
            assert((prev + body).subrange(start, start + len) =~= prev.subrange(start, start + len));
        }
    }

    /// The parts of the emitted image lie where the layout puts them: the
    /// headers first, record `i` at `headers.len() + 40 * i`, section `i`'s
    /// data at its raw offset, and the certificate blob at its offset.
    pub proof fn lemma_emitted_parts(&self)
        requires
            self.wf(),
        ensures
            self.emitted().len() == self.total_len(),
            self.emitted().subrange(0, self.image.headers@.len() as int) == self.patched_headers(),
            forall|i: int|
                0 <= i < self.staged().len() ==> #[trigger] self.emitted().subrange(
                    self.image.headers@.len() + 40 * i,
                    self.image.headers@.len() + 40 * i + 40,
                ) == section_record(
                    self.staged()[i],
                    self.virtual_address(i),
                    self.raw_offset(i),
                    self.image.file_alignment as int,
                ),
            forall|i: int|
                0 <= i < self.staged().len() ==> #[trigger] self.emitted().subrange(
                    self.raw_offset(i),
                    self.raw_offset(i) + self.staged()[i].data@.len(),
                ) == self.staged()[i].data@,
            self.emitted().subrange(self.certificate_offset(), self.total_len())
                == self.image.certificate@,
    {
        let n = self.staged().len() as int;
        let fa = self.image.file_alignment as int;
        let hl = self.image.headers@.len() as int;
        self.lemma_lengths();
        lemma_align_to(self.header_len(), fa);
        let ph = self.patched_headers();
        let tbl = self.section_table_upto(n);
        let pad = zeros(self.header_end() - self.header_len());
        let bodies = self.section_bodies_upto(n);
        let cert = self.image.certificate@;
        let e = self.emitted();
        assert(e == ph + tbl + pad + bodies + cert);
        assert(e.subrange(0, hl) =~= ph);
        assert forall|i: int| 0 <= i < n implies #[trigger] e.subrange(hl + 40 * i, hl + 40 * i + 40)
            == section_record(self.staged()[i], self.virtual_address(i), self.raw_offset(i), fa) by {
            self.lemma_table_record(n, i);
            assert(e.subrange(hl + 40 * i, hl + 40 * i + 40) =~= tbl.subrange(40 * i, 40 * i + 40));
        }
        assert forall|i: int| 0 <= i < n implies #[trigger] e.subrange(
            self.raw_offset(i),
            self.raw_offset(i) + self.staged()[i].data@.len(),
        ) == self.staged()[i].data@ by {
            self.lemma_body_data(n, i);
            let start = sum_raw_sizes(self.staged(), fa, i);
            let len = self.staged()[i].data@.len() as int;
            lemma_sums_monotone(self.staged(), fa, 1, i + 1, n);
            lemma_sums_monotone(self.staged(), fa, 1, i, i);
            lemma_align_to(len, fa);
            assert(sum_raw_sizes(self.staged(), fa, i + 1) == start + raw_size(self.staged()[i], fa));
            assert(ph.len() + tbl.len() + pad.len() == self.header_end());
            assert(e.subrange(self.raw_offset(i), self.raw_offset(i) + len) =~= bodies.subrange(
                start,
                start + len,
            ));
        }
        assert(e.subrange(self.certificate_offset(), self.total_len()) =~= cert);
    }

    /// Decoding the directory table of the emitted image gives the patched
    /// directories: every entry keeps its address and size, except the
    /// certificate entry, which describes the appended blob.
    pub proof fn lemma_emitted_directories(&self)
        requires
            self.wf(),
            self.fits(),
        ensures
            same_entries(
                parsed_slots(self.emitted(), self.image.directory_offset as int, 16),
                self.patched_directories(),
            ),
    {
        let at = self.image.directory_offset as int;
        let hl = self.image.headers@.len() as int;
        let s = self.patched_directories();
        let inner = splice(
            splice(
                self.image.headers@,
                self.image.section_count_offset as int,
                le16_bytes(self.staged().len() as u16),
            ),
            self.image.size_of_headers_offset as int,
            le32_bytes(self.header_end() as u32),
        );
        self.lemma_emitted_parts();
        crate::data_directories::lemma_table_bytes_len(s);
        let ph = self.patched_headers();
        let e = self.emitted();
        assert(ph == splice(inner, at, table_bytes(s)));
        assert(e.subrange(at, at + 128) =~= ph.subrange(at, at + 128)) by {
            assert(e.subrange(at, at + 128) =~= e.subrange(0, hl).subrange(at, at + 128));
        }
        assert(canonical(s)) by {
            assert forall|i: int| 0 <= i < s.len() && #[trigger] s[i] is Some implies !(
            s[i]->0.inner.virtual_address == 0 && s[i]->0.inner.size == 0) by {
                if i != CERTIFICATE_SLOT {
                    let d = self.image.directories.data_directories@[i]->0;
                    let secs = self.image.sections@;
                    let m = secs.len() as int;
                    lemma_containing_section(secs, d.inner.virtual_address as int, 0, m);
                    if let Some(j) = containing_section(secs, d.inner.virtual_address as int, 0, m) {
                        let sa = self.image.section_alignment as int;
                        let n = self.staged().len() as int;
                        let sj = secs[j];
                        lemma_align_to(self.header_len(), sa);
                        lemma_sums_monotone(self.staged(), 1, sa, j, j);
                        lemma_sums_monotone(self.staged(), 1, sa, j + 1, n);
                        assert(self.staged()[j] == sj);
                        lemma_align_to(
                            if sj.virtual_size >= sj.data@.len() {
                                sj.virtual_size as int
                            } else {
                                sj.data@.len() as int
                            },
                            sa,
                        );
                        assert(self.virtual_address(j + 1) == self.virtual_address(j)
                            + virtual_extent(sj, sa));
                        assert(s[i] == Some(
                            DataDirectory { inner: self.relocated(d.inner), offset: d.offset },
                        ));
                        assert(s[i]->0.inner.virtual_address > 0);
                    }
                }
            }
        }
        lemma_parsed_slots_local(e, ph, at);
        lemma_write_parse_round_trip(s, inner, at);
    }

    /// A rewrite keeps every directory type: a slot of the emitted table is
    /// present exactly when it is present in the image's own table.
    pub proof fn lemma_rewrite_keeps_directory_types(&self)
        requires
            self.wf(),
            self.fits(),
        ensures
            forall|i: int|
                0 <= i < 16 ==> (#[trigger] parsed_slots(
                    self.emitted(),
                    self.image.directory_offset as int,
                    16,
                )[i] is Some) == (self.image.directories.data_directories@[i] is Some),
    {
        self.lemma_emitted_directories();
        let p = self.patched_directories();
        assert forall|i: int| 0 <= i < 16 implies (p[i] is Some)
            == (self.image.directories.data_directories@[i] is Some) by {}
    }

    /// In a rewritten signed image the certificate entry, read back from the
    /// emitted directory table, gives the blob's actual new file offset and
    /// its exact length, and the blob lies there unchanged.
    pub proof fn lemma_certificate_entry_tracks_blob(&self)
        requires
            self.wf(),
            self.fits(),
            self.image.certificate@.len() > 0,
        ensures
            ({
                let slot = parsed_slots(
                    self.emitted(),
                    self.image.directory_offset as int,
                    16,
                )[CERTIFICATE_SLOT as int];
                &&& slot is Some
                &&& slot->0.inner.virtual_address == self.certificate_offset()
                &&& slot->0.inner.size == self.image.certificate@.len()
            }),
            self.emitted().subrange(self.certificate_offset(), self.total_len())
                == self.image.certificate@,
    {
        self.lemma_emitted_directories();
        self.lemma_emitted_parts();
    }
}

/// A header decoded from a record holds the name and characteristics it was
/// written with.
proof fn lemma_record_decodes(
    s: Section,
    virtual_address: u32,
    raw_size: u32,
    raw_offset: u32,
    b: Seq<u8>,
    at: int,
    x: Section,
)
    requires
        0 <= at,
        at + 40 <= b.len(),
        b.subrange(at, at + 40) == record_bytes(s, virtual_address, raw_size, raw_offset),
        Section::decoded_from(x, b, at),
    ensures
        x.name@ == s.name@,
        x.characteristics == s.characteristics,
{
    let r = record_bytes(s, virtual_address, raw_size, raw_offset);
    let c = le32_bytes(s.characteristics);
    assert(b.subrange(at, at + 8) =~= s.name@) by {
        assert forall|j: int| 0 <= j < 8 implies b[at + j] == s.name@[j] by {
            assert(b[at + j] == b.subrange(at, at + 40)[j]);
        }
    }
    assert forall|j: int| 0 <= j < 4 implies b[at + 36 + j] == #[trigger] c[j] by {
        assert(b[at + 36 + j] == b.subrange(at, at + 40)[36 + j]);
    }
    assert(b[at + 36] == c[0] && b[at + 37] == c[1] && b[at + 38] == c[2] && b[at + 39] == c[3]);
    lemma_le32_round_trip(s.characteristics);
    assert(le32_at(b, at + 36) == le32_at(c, 0));
}

/// Re-reading the section table of an emitted image gives every staged
/// section, in order, with its name and characteristics.
pub proof fn lemma_emitted_sections_decode(w: LayoutWriter)
    requires
        w.wf(),
        w.fits(),
    ensures
        forall|i: int, x: Section|
            0 <= i < w.staged().len() && #[trigger] Section::decoded_from(
                x,
                w.emitted(),
                w.image.headers@.len() + 40 * i,
            ) ==> x.name@ == w.staged()[i].name@ && x.characteristics
                == w.staged()[i].characteristics,
{
    w.lemma_emitted_parts();
    w.lemma_lengths();
    let fa = w.image.file_alignment as int;
    lemma_align_to(w.header_len(), fa);
    lemma_sums_monotone(w.staged(), fa, 1, 0, w.staged().len() as int);
    assert forall|i: int, x: Section|
        0 <= i < w.staged().len() && #[trigger] Section::decoded_from(
            x,
            w.emitted(),
            w.image.headers@.len() + 40 * i,
        ) implies x.name@ == w.staged()[i].name@ && x.characteristics
        == w.staged()[i].characteristics by {
        let s = w.staged()[i];
        lemma_record_decodes(
            s,
            w.virtual_address(i) as u32,
            raw_size(s, fa) as u32,
            w.raw_offset(i) as u32,
            w.emitted(),
            w.image.headers@.len() + 40 * i,
            x,
        );
    }
}

/// Inserting a section and emitting the image: the new section's record,
/// with its name and characteristics, comes after those of all the earlier
/// sections, which keep their order and their data; and the image is exactly
/// the headers with the section table rounded up to the file alignment, plus
/// every section's padded size, plus the certificate blob.
pub proof fn lemma_inserted_section_emitted(
    before: LayoutWriter,
    after: LayoutWriter,
    section: Section,
)
    requires
        before.wf(),
        after.wf(),
        after.image == before.image,
        after.pending@ == before.pending@.push(section),
    ensures
        ({
            let k = before.staged().len() as int;
            let rec = after.image.headers@.len() + 40 * k;
            let fa = after.image.file_alignment as int;
            &&& after.staged().len() == k + 1
            &&& after.staged()[k] == section
            &&& forall|i: int| 0 <= i < k ==> #[trigger] after.staged()[i] == before.staged()[i]
            &&& after.emitted().subrange(rec, rec + 8) == section.name@
            &&& after.emitted().subrange(rec + 36, rec + 40) == le32_bytes(section.characteristics)
            &&& forall|x: Section|
                #[trigger] Section::decoded_from(x, after.emitted(), rec) ==> x.name@
                    == section.name@ && x.characteristics == section.characteristics
            &&& forall|i: int|
                0 <= i <= k ==> #[trigger] after.emitted().subrange(
                    after.raw_offset(i),
                    after.raw_offset(i) + after.staged()[i].data@.len(),
                ) == after.staged()[i].data@
            &&& after.emitted().len() == align_to(
                after.image.headers@.len() + 40 * (k + 1),
                fa,
            ) + sum_raw_sizes(after.staged(), fa, k + 1) + after.image.certificate@.len()
        }),
{
    let k = before.staged().len() as int;
    let rec = after.image.headers@.len() + 40 * k;
    assert(after.staged() =~= before.staged().push(section));
    after.lemma_emitted_parts();
    let r = section_record(
        section,
        after.virtual_address(k),
        after.raw_offset(k),
        after.image.file_alignment as int,
    );
    let e = after.emitted();
    after.lemma_lengths();
    lemma_align_to(after.header_len(), after.image.file_alignment as int);
    lemma_sums_monotone(
        after.staged(),
        after.image.file_alignment as int,
        1,
        0,
        after.staged().len() as int,
    );
    assert(rec + 40 <= e.len());
    let big = e.subrange(rec, rec + 40);
    assert(big == r);
    assert(r.len() == 40);
    assert(e.subrange(rec, rec + 8) =~= big.subrange(0, 8));
    assert(r.subrange(0, 8) =~= section.name@);
    assert(e.subrange(rec + 36, rec + 40) =~= big.subrange(36, 40));
    assert(r.subrange(36, 40) =~= le32_bytes(section.characteristics));
    assert forall|x: Section| #[trigger] Section::decoded_from(x, e, rec) implies x.name@
        == section.name@ && x.characteristics == section.characteristics by {
        lemma_record_decodes(
            section,
            after.virtual_address(k) as u32,
            raw_size(section, after.image.file_alignment as int) as u32,
            after.raw_offset(k) as u32,
            e,
            rec,
            x,
        );
    }
}

} // verus!
