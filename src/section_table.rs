use crate::bytes::{le32_at, read_u32_le};
use crate::error::{Error, Malformed};
use vstd::prelude::*;

verus! {

/// The section holds executable code.
pub const IMAGE_SCN_MEM_EXECUTE: u32 = 0x2000_0000;

/// The section can be read.
pub const IMAGE_SCN_MEM_READ: u32 = 0x4000_0000;

/// The section can be written.
pub const IMAGE_SCN_MEM_WRITE: u32 = 0x8000_0000;

/// Size in bytes of one encoded section header.
pub const SIZEOF_SECTION_HEADER: usize = 40;

/// A section descriptor with the raw bytes it carries. Addresses and raw
/// placement are assigned by the layout writer when an image is emitted.
#[derive(Debug, Clone, PartialEq, Eq)]
pub struct Section {
    /// NUL-padded name; all eight bytes may be used.
    pub name: [u8; 8],
    pub virtual_size: u32,
    pub virtual_address: u32,
    pub size_of_raw_data: u32,
    pub pointer_to_raw_data: u32,
    pub characteristics: u32,
    pub data: Vec<u8>,
}

/// `name` padded with NUL bytes to eight bytes.
pub open spec fn padded_name(name: Seq<u8>) -> Seq<u8>
    recommends
        name.len() <= 8,
{
    Seq::new(8, |i: int| if i < name.len() { name[i] } else { 0u8 })
}

impl Section {
    /// A section named `name` carrying `data` (empty when `None`); its sizes
    /// are the data length and its placement is left to the writer.
    pub fn new(name: &[u8], data: Option<Vec<u8>>, characteristics: u32) -> (r: Result<
        Section,
        Error,
    >)
        ensures
            name@.len() > 8 ==> r == Err::<Section, Error>(
                Error::Malformed(Malformed::SectionName { len: name@.len() as usize }),
            ),
            name@.len() <= 8 && (data is Some && data->0@.len() > u32::MAX) ==> r == Err::<
                Section,
                Error,
            >(Error::Malformed(Malformed::SectionTooLarge { len: data->0@.len() as usize })),
            name@.len() <= 8 && !(data is Some && data->0@.len() > u32::MAX) ==> {
                &&& r is Ok
                &&& r->Ok_0.name@ == padded_name(name@)
                &&& r->Ok_0.data@ == (if data is Some {
                    data->0@
                } else {
                    Seq::empty()
                })
                &&& r->Ok_0.virtual_size == r->Ok_0.data@.len()
                &&& r->Ok_0.size_of_raw_data == r->Ok_0.data@.len()
                &&& r->Ok_0.virtual_address == 0
                &&& r->Ok_0.pointer_to_raw_data == 0
                &&& r->Ok_0.characteristics == characteristics
            },
    {
        if name.len() > 8 {
            return Err(Error::Malformed(Malformed::SectionName { len: name.len() }));
        }
        let data = match data {
            Some(d) => d,
            None => Vec::new(),
        };
        if data.len() > u32::MAX as usize {
            return Err(Error::Malformed(Malformed::SectionTooLarge { len: data.len() }));
        }
        let mut padded: [u8; 8] = [0u8; 8];
        let mut i: usize = 0;
        while i < name.len()
            invariant
                i <= name@.len() <= 8,
                forall|j: int|
                    0 <= j < 8 ==> #[trigger] padded@[j] == if j < i {
                        name@[j]
                    } else {
                        0u8
                    },
            decreases name@.len() - i,
        {
            padded[i] = name[i];
            i += 1;
        }
        assert(padded@ =~= padded_name(name@));
        let len = data.len() as u32;
        Ok(
            Section {
                name: padded,
                virtual_size: len,
                virtual_address: 0,
                size_of_raw_data: len,
                pointer_to_raw_data: 0,
                characteristics,
                data,
            },
        )
    }

    /// Whether this section's name is `name`, compared over all eight bytes.
    pub fn has_name(&self, name: &[u8; 8]) -> (r: bool)
        ensures
            r == (self.name@ == name@),
    {
        let mut i: usize = 0;
        while i < 8
            invariant
                i <= 8,
                forall|j: int| 0 <= j < i ==> self.name@[j] == name@[j],
            decreases 8 - i,
        {
            if self.name[i] != name[i] {
                return false;
            }
            i += 1;
        }
        assert(self.name@ =~= name@);
        true
    }

    /// The header fields of `s` are those encoded at `at .. at + 40` of `b`;
    /// the name is the first eight bytes.
    pub open spec fn decoded_from(s: Section, b: Seq<u8>, at: int) -> bool {
        &&& s.name@ == b.subrange(at, at + 8)
        &&& s.virtual_size == le32_at(b, at + 8)
        &&& s.virtual_address == le32_at(b, at + 12)
        &&& s.size_of_raw_data == le32_at(b, at + 16)
        &&& s.pointer_to_raw_data == le32_at(b, at + 20)
        &&& s.characteristics == le32_at(b, at + 36)
    }

    /// Decodes the section header at `*offset` and advances `offset` past
    /// it; the section's data is left empty.
    pub fn parse(bytes: &[u8], offset: &mut usize) -> (r: Result<Section, Error>)
        ensures
            *old(offset) + 40 <= bytes@.len() ==> {
                &&& r is Ok
                &&& Section::decoded_from(r->Ok_0, bytes@, *old(offset) as int)
                &&& r->Ok_0.data@.len() == 0
                &&& *final(offset) == *old(offset) + 40
            },
            *old(offset) + 40 > bytes@.len() ==> {
                &&& r == Err::<Section, Error>(
                    Error::Malformed(Malformed::Truncated { offset: *old(offset) }),
                )
                &&& *final(offset) == *old(offset)
            },
    {
        let at = *offset;
        if at > bytes.len() || bytes.len() - at < SIZEOF_SECTION_HEADER {
            return Err(Error::Malformed(Malformed::Truncated { offset: at }));
        }
        let mut name: [u8; 8] = [0u8; 8];
        let mut i: usize = 0;
        while i < 8
            invariant
                i <= 8,
                at + 40 <= bytes@.len(),
                bytes@.len() <= usize::MAX,
                forall|j: int| 0 <= j < i ==> #[trigger] name@[j] == bytes@[at + j],
            decreases 8 - i,
        {
            name[i] = bytes[at + i];
            i += 1;
        }
        assert(name@ =~= bytes@.subrange(at as int, at + 8));
        let fields = (
            read_u32_le(bytes, at + 8),
            read_u32_le(bytes, at + 12),
            read_u32_le(bytes, at + 16),
            read_u32_le(bytes, at + 20),
            read_u32_le(bytes, at + 36),
        );
        match fields {
            (Some(vs), Some(va), Some(rs), Some(rp), Some(ch)) => {
                *offset = at + SIZEOF_SECTION_HEADER;
                Ok(
                    Section {
                        name,
                        virtual_size: vs,
                        virtual_address: va,
                        size_of_raw_data: rs,
                        pointer_to_raw_data: rp,
                        characteristics: ch,
                        data: Vec::new(),
                    },
                )
            },
            _ => Err(Error::Malformed(Malformed::Truncated { offset: at })),
        }
    }
}

/// Decodes `count` consecutive section headers starting at `*offset`, in
/// order, and advances `offset` past them; on failure `offset` is unchanged.
pub fn parse_section_table(bytes: &[u8], count: usize, offset: &mut usize) -> (r: Result<
    Vec<Section>,
    Error,
>)
    ensures
        *old(offset) + 40 * count <= bytes@.len() ==> {
            &&& r is Ok
            &&& r->Ok_0@.len() == count
            &&& forall|i: int|
                0 <= i < count ==> Section::decoded_from(
                    #[trigger] r->Ok_0@[i],
                    bytes@,
                    *old(offset) + 40 * i,
                )
            &&& *final(offset) == *old(offset) + 40 * count
        },
        *old(offset) + 40 * count > bytes@.len() ==> {
            &&& r == Err::<Vec<Section>, Error>(
                Error::Malformed(Malformed::Truncated { offset: *old(offset) }),
            )
            &&& *final(offset) == *old(offset)
        },
{
    let start = *offset;
    if start > bytes.len() || (bytes.len() - start) / SIZEOF_SECTION_HEADER < count {
        return Err(Error::Malformed(Malformed::Truncated { offset: start }));
    }
    let mut r: Vec<Section> = Vec::new();
    let mut i: usize = 0;
    while i < count
        invariant
            i <= count,
            start + 40 * count <= bytes@.len(),
            *offset == start + 40 * i,
            r@.len() == i,
            forall|j: int|
                0 <= j < i ==> Section::decoded_from(#[trigger] r@[j], bytes@, start + 40 * j),
        decreases count - i,
    {
        let s = match Section::parse(bytes, offset) {
            Ok(s) => s,
            Err(e) => return Err(e),
        };
        r.push(s);
        i += 1;
    }
    Ok(r)
}

/// The index of the first section named `name`, if any.
pub fn section_by_name(sections: &Vec<Section>, name: &[u8; 8]) -> (r: Option<usize>)
    ensures
        r is Some ==> r->0 < sections@.len() && sections@[r->0 as int].name@ == name@ && forall|
            j: int,
        | 0 <= j < r->0 ==> #[trigger] sections@[j].name@ != name@,
        r is None ==> forall|j: int|
            0 <= j < sections@.len() ==> #[trigger] sections@[j].name@ != name@,
{
    let mut i: usize = 0;
    while i < sections.len()
        invariant
            i <= sections@.len(),
            forall|j: int| 0 <= j < i ==> #[trigger] sections@[j].name@ != name@,
        decreases sections@.len() - i,
    {
        if sections[i].has_name(name) {
            return Some(i);
        }
        i += 1;
    }
    None
}

} // verus!
