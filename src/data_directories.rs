use crate::bytes::{
    le32_at, le32_bytes, lemma_le32_round_trip, lemma_le32_zero, read_u32_le, splice,
    write_u32_le,
};
use crate::error::{Error, Malformed};
use vstd::prelude::*;

verus! {

/// Size in bytes of one encoded directory entry.
pub const SIZEOF_DATA_DIRECTORY: usize = 8;

/// Number of slots in the directory table.
pub const NUM_DATA_DIRECTORIES: usize = 16;

/// Slot of the certificate directory, whose address is a raw file offset.
pub const CERTIFICATE_SLOT: usize = 4;

/// The serialized (address, size) pair of a directory entry.
#[derive(Debug, Clone, Copy, PartialEq, Eq, Structural)]
pub struct DataDirectoryInner {
    /// A virtual address; for the certificate directory, a raw file offset.
    pub virtual_address: u32,
    pub size: u32,
}

/// A directory entry together with where its payload was found.
#[derive(Debug, Clone, Copy, PartialEq, Eq, Structural)]
pub struct DataDirectory {
    pub inner: DataDirectoryInner,
    /// Byte offset in the source buffer just past the decoded entry; never serialized.
    pub offset: Option<usize>,
}

/// The entry encoded at `at .. at + 8` of `b`.
pub open spec fn entry_at(b: Seq<u8>, at: int) -> DataDirectoryInner {
    DataDirectoryInner { virtual_address: le32_at(b, at), size: le32_at(b, at + 4) }
}

/// The eight bytes that encode `e`.
pub open spec fn entry_bytes(e: DataDirectoryInner) -> Seq<u8> {
    le32_bytes(e.virtual_address) + le32_bytes(e.size)
}

impl DataDirectory {
    /// Decodes the entry at `*offset` and advances `offset` past it; the
    /// advanced offset is recorded as the entry's source offset.
    pub fn parse(bytes: &[u8], offset: &mut usize) -> (r: Result<Self, Error>)
        ensures
            *old(offset) + 8 <= bytes@.len() ==> {
                &&& r == Ok::<DataDirectory, Error>(
                    DataDirectory {
                        inner: entry_at(bytes@, *old(offset) as int),
                        offset: Some((*old(offset) + 8) as usize),
                    },
                )
                &&& *final(offset) == *old(offset) + 8
            },
            *old(offset) + 8 > bytes@.len() ==> {
                &&& r == Err::<DataDirectory, Error>(
                    Error::Malformed(Malformed::Truncated { offset: *old(offset) }),
                )
                &&& *final(offset) == *old(offset)
            },
    {
        let start = *offset;
        if start > bytes.len() || bytes.len() - start < SIZEOF_DATA_DIRECTORY {
            return Err(Error::Malformed(Malformed::Truncated { offset: start }));
        }
        let virtual_address = match read_u32_le(bytes, start) {
            Some(v) => v,
            None => return Err(Error::Malformed(Malformed::Truncated { offset: start })),
        };
        let size = match read_u32_le(bytes, start + 4) {
            Some(v) => v,
            None => return Err(Error::Malformed(Malformed::Truncated { offset: start })),
        };
        *offset = start + SIZEOF_DATA_DIRECTORY;
        Ok(DataDirectory { inner: DataDirectoryInner { virtual_address, size }, offset: Some(*offset) })
    }

    /// Decodes the entry at the start of `from`, with no source offset, and
    /// returns it with the number of bytes consumed.
    pub fn try_from_ctx(from: &[u8]) -> (r: Result<(DataDirectory, usize), Error>)
        ensures
            from@.len() >= 8 ==> r == Ok::<(DataDirectory, usize), Error>(
                (DataDirectory { inner: entry_at(from@, 0), offset: None }, 8),
            ),
            from@.len() < 8 ==> r == Err::<(DataDirectory, usize), Error>(
                Error::Malformed(Malformed::Truncated { offset: 0 }),
            ),
    {
        let mut offset: usize = 0;
        match DataDirectory::parse(from, &mut offset) {
            Ok(d) => Ok((DataDirectory { inner: d.inner, offset: None }, offset)),
            Err(e) => Err(e),
        }
    }

    /// The payload bytes `pe[offset .. offset + size]`, where `offset` is the
    /// source offset recorded at parse time.
    pub fn data<'a>(&self, pe: &'a [u8]) -> (r: Result<&'a [u8], Error>)
        ensures
            self.offset is None ==> r == Err::<&[u8], Error>(
                Error::Malformed(Malformed::MissingSourceOffset),
            ),
            self.offset is Some ==> {
                let start = self.offset->0;
                if start + self.inner.size <= pe@.len() {
                    r is Ok && r->Ok_0@ == pe@.subrange(start as int, start + self.inner.size)
                } else {
                    r == Err::<&[u8], Error>(
                        Error::Malformed(
                            Malformed::PayloadOutOfBounds {
                                start,
                                size: self.inner.size,
                                len: pe@.len() as usize,
                            },
                        ),
                    )
                }
            },
    {
        let start = match self.offset {
            Some(s) => s,
            None => return Err(Error::Malformed(Malformed::MissingSourceOffset)),
        };
        let size = self.inner.size as usize;
        if start > pe.len() || pe.len() - start < size {
            return Err(
                Error::Malformed(
                    Malformed::PayloadOutOfBounds { start, size: self.inner.size, len: pe.len() },
                ),
            );
        }
        Ok(vstd::slice::slice_subrange(pe, start, start + size))
    }

    /// The entry's address field.
    pub fn virtual_address(&self) -> (r: u32)
        ensures
            r == self.inner.virtual_address,
    {
        self.inner.virtual_address
    }

    /// The entry's size field.
    pub fn size(&self) -> (r: u32)
        ensures
            r == self.inner.size,
    {
        self.inner.size
    }
}

/// The well-known directories, in table order; slot 15 is reserved and has no type.
#[derive(Debug, Clone, Copy, PartialEq, Eq, Structural)]
pub enum DataDirectoryType {
    ExportTable,
    ImportTable,
    ResourceTable,
    ExceptionTable,
    CertificateTable,
    BaseRelocationTable,
    DebugTable,
    Architecture,
    GlobalPtr,
    TlsTable,
    LoadConfigTable,
    BoundImportTable,
    ImportAddressTable,
    DelayImportDescriptor,
    ClrRuntimeHeader,
}

/// The table slot that holds directories of type `t`.
pub open spec fn type_index(t: DataDirectoryType) -> int {
    match t {
        DataDirectoryType::ExportTable => 0,
        DataDirectoryType::ImportTable => 1,
        DataDirectoryType::ResourceTable => 2,
        DataDirectoryType::ExceptionTable => 3,
        DataDirectoryType::CertificateTable => 4,
        DataDirectoryType::BaseRelocationTable => 5,
        DataDirectoryType::DebugTable => 6,
        DataDirectoryType::Architecture => 7,
        DataDirectoryType::GlobalPtr => 8,
        DataDirectoryType::TlsTable => 9,
        DataDirectoryType::LoadConfigTable => 10,
        DataDirectoryType::BoundImportTable => 11,
        DataDirectoryType::ImportAddressTable => 12,
        DataDirectoryType::DelayImportDescriptor => 13,
        DataDirectoryType::ClrRuntimeHeader => 14,
    }
}

/// The directory type held in slot `i`, for `i < 15`.
pub open spec fn type_at(i: int) -> DataDirectoryType
    recommends
        0 <= i < 15,
{
    if i == 0 {
        DataDirectoryType::ExportTable
    } else if i == 1 {
        DataDirectoryType::ImportTable
    } else if i == 2 {
        DataDirectoryType::ResourceTable
    } else if i == 3 {
        DataDirectoryType::ExceptionTable
    } else if i == 4 {
        DataDirectoryType::CertificateTable
    } else if i == 5 {
        DataDirectoryType::BaseRelocationTable
    } else if i == 6 {
        DataDirectoryType::DebugTable
    } else if i == 7 {
        DataDirectoryType::Architecture
    } else if i == 8 {
        DataDirectoryType::GlobalPtr
    } else if i == 9 {
        DataDirectoryType::TlsTable
    } else if i == 10 {
        DataDirectoryType::LoadConfigTable
    } else if i == 11 {
        DataDirectoryType::BoundImportTable
    } else if i == 12 {
        DataDirectoryType::ImportAddressTable
    } else if i == 13 {
        DataDirectoryType::DelayImportDescriptor
    } else {
        DataDirectoryType::ClrRuntimeHeader
    }
}

/// The type held in slot `index`, or the error for the reserved slot and beyond.
pub open spec fn type_from_index(index: usize) -> Result<DataDirectoryType, Error> {
    if index < 15 {
        Ok(type_at(index as int))
    } else {
        Err(Error::Malformed(Malformed::DirectoryIndex { index }))
    }
}

impl TryFrom<usize> for DataDirectoryType {
    type Error = Error;

    fn try_from(value: usize) -> (r: Result<Self, Error>) {
        DataDirectoryType::try_from_index(value)
    }
}

impl vstd::std_specs::convert::TryFromSpecImpl<usize> for DataDirectoryType {
    open spec fn obeys_try_from_spec() -> bool {
        true
    }

    open spec fn try_from_spec(v: usize) -> Result<Self, Error> {
        type_from_index(v)
    }
}

impl DataDirectoryType {
    /// The type whose slot is `index`; fails for the reserved slot and beyond.
    pub fn try_from_index(index: usize) -> (r: Result<Self, Error>)
        ensures
            index < 15 ==> r == Ok::<DataDirectoryType, Error>(type_at(index as int)),
            index >= 15 ==> r == Err::<DataDirectoryType, Error>(
                Error::Malformed(Malformed::DirectoryIndex { index }),
            ),
    {
        match index {
            0 => Ok(DataDirectoryType::ExportTable),
            1 => Ok(DataDirectoryType::ImportTable),
            2 => Ok(DataDirectoryType::ResourceTable),
            3 => Ok(DataDirectoryType::ExceptionTable),
            4 => Ok(DataDirectoryType::CertificateTable),
            5 => Ok(DataDirectoryType::BaseRelocationTable),
            6 => Ok(DataDirectoryType::DebugTable),
            7 => Ok(DataDirectoryType::Architecture),
            8 => Ok(DataDirectoryType::GlobalPtr),
            9 => Ok(DataDirectoryType::TlsTable),
            10 => Ok(DataDirectoryType::LoadConfigTable),
            11 => Ok(DataDirectoryType::BoundImportTable),
            12 => Ok(DataDirectoryType::ImportAddressTable),
            13 => Ok(DataDirectoryType::DelayImportDescriptor),
            14 => Ok(DataDirectoryType::ClrRuntimeHeader),
            _ => Err(Error::Malformed(Malformed::DirectoryIndex { index })),
        }
    }

    /// The table slot of this type.
    pub fn index(&self) -> (r: usize)
        ensures
            r == type_index(*self),
    {
        match self {
            DataDirectoryType::ExportTable => 0,
            DataDirectoryType::ImportTable => 1,
            DataDirectoryType::ResourceTable => 2,
            DataDirectoryType::ExceptionTable => 3,
            DataDirectoryType::CertificateTable => 4,
            DataDirectoryType::BaseRelocationTable => 5,
            DataDirectoryType::DebugTable => 6,
            DataDirectoryType::Architecture => 7,
            DataDirectoryType::GlobalPtr => 8,
            DataDirectoryType::TlsTable => 9,
            DataDirectoryType::LoadConfigTable => 10,
            DataDirectoryType::BoundImportTable => 11,
            DataDirectoryType::ImportAddressTable => 12,
            DataDirectoryType::DelayImportDescriptor => 13,
            DataDirectoryType::ClrRuntimeHeader => 14,
        }
    }
}


/// The sixteen directory slots of an image, indexed by `type_index`.
#[derive(Debug, Clone, Copy, PartialEq, Eq)]
pub struct DataDirectories {
    pub data_directories: [Option<DataDirectory>; NUM_DATA_DIRECTORIES],
}

/// The slot decoded from the entry at `at`: absent when both fields are zero.
pub open spec fn slot_at(b: Seq<u8>, at: int) -> Option<DataDirectory> {
    let e = entry_at(b, at);
    if e.virtual_address == 0 && e.size == 0 {
        None
    } else {
        Some(DataDirectory { inner: e, offset: Some((at + 8) as usize) })
    }
}

/// The table decoded from `count` consecutive entries starting at `start`;
/// slots from `count` on are absent.
pub open spec fn parsed_slots(b: Seq<u8>, start: int, count: int) -> Seq<Option<DataDirectory>> {
    Seq::new(16, |i: int| if i < count { slot_at(b, start + 8 * i) } else { None })
}

/// No present slot uses the absent encoding (both fields zero).
pub open spec fn canonical(s: Seq<Option<DataDirectory>>) -> bool {
    forall|i: int|
        0 <= i < s.len() && #[trigger] s[i] is Some ==> !(s[i]->0.inner.virtual_address == 0
            && s[i]->0.inner.size == 0)
}

/// The present entries among slots `0 .. n`, in slot order, with their types.
pub open spec fn present_upto(s: Seq<Option<DataDirectory>>, n: nat) -> Seq<
    (DataDirectoryType, DataDirectory),
>
    decreases n,
{
    if n == 0 {
        Seq::empty()
    } else {
        let prev = present_upto(s, (n - 1) as nat);
        match s[n - 1] {
            Some(d) => prev.push((type_at(n - 1), d)),
            None => prev,
        }
    }
}

/// The present entries of the typed slots, in slot order.
pub open spec fn present_entries(s: Seq<Option<DataDirectory>>) -> Seq<
    (DataDirectoryType, DataDirectory),
> {
    present_upto(s, 15)
}

/// The eight bytes emitted for a slot: an absent slot is written as (0, 0).
pub open spec fn slot_bytes(o: Option<DataDirectory>) -> Seq<u8> {
    match o {
        Some(d) => entry_bytes(d.inner),
        None => entry_bytes(DataDirectoryInner { virtual_address: 0, size: 0 }),
    }
}

/// The encoding of slots `0 .. n`.
pub open spec fn slots_bytes(s: Seq<Option<DataDirectory>>, n: nat) -> Seq<u8>
    decreases n,
{
    if n == 0 {
        Seq::empty()
    } else {
        slots_bytes(s, (n - 1) as nat) + slot_bytes(s[n - 1])
    }
}

/// The encoding of a whole table.
pub open spec fn table_bytes(s: Seq<Option<DataDirectory>>) -> Seq<u8> {
    slots_bytes(s, 16)
}

/// Two tables hold the same directories with the same (address, size) pairs.
pub open spec fn same_entries(a: Seq<Option<DataDirectory>>, b: Seq<Option<DataDirectory>>) -> bool {
    forall|i: int|
        0 <= i < 16 ==> (#[trigger] a[i] is Some) == b[i] is Some && (a[i] is Some
            ==> a[i]->0.inner == b[i]->0.inner)
}

impl DataDirectories {
    /// Every present slot is stored as present only because it is non-zero.
    pub open spec fn wf(&self) -> bool {
        canonical(self.data_directories@)
    }

    /// Whether no present slot uses the absent encoding.
    pub fn is_canonical(&self) -> (r: bool)
        ensures
            r == self.wf(),
    {
        let mut i: usize = 0;
        while i < NUM_DATA_DIRECTORIES
            invariant
                i <= 16,
                forall|j: int|
                    0 <= j < i && #[trigger] self.data_directories@[j] is Some ==> !(
                    self.data_directories@[j]->0.inner.virtual_address == 0
                        && self.data_directories@[j]->0.inner.size == 0),
            decreases 16 - i,
        {
            if let Some(d) = self.data_directories[i] {
                if d.inner.virtual_address == 0 && d.inner.size == 0 {
                    return false;
                }
            }
            i += 1;
        }
        true
    }

    /// Decodes `count` entries starting at `*offset`; entries whose fields are
    /// both zero, and all slots from `count` on, are absent. Reading no entries
    /// always succeeds, wherever `offset` points. On success
    /// `offset` is advanced past the entries read; on failure it is unchanged.
    pub fn parse(bytes: &[u8], count: usize, offset: &mut usize) -> (r: Result<Self, Error>)
        ensures
            count > NUM_DATA_DIRECTORIES ==> r == Err::<DataDirectories, Error>(
                Error::Malformed(
                    Malformed::DirectoryCount { count, max: NUM_DATA_DIRECTORIES },
                ),
            ),
            count <= NUM_DATA_DIRECTORIES && (count == 0 || *old(offset) + 8 * count
                <= bytes@.len()) ==> {
                &&& r is Ok
                &&& r->Ok_0.data_directories@ == parsed_slots(
                    bytes@,
                    *old(offset) as int,
                    count as int,
                )
                &&& *final(offset) == *old(offset) + 8 * count
            },
            0 < count <= NUM_DATA_DIRECTORIES && *old(offset) + 8 * count > bytes@.len() ==> r
                == Err::<DataDirectories, Error>(
                Error::Malformed(Malformed::Truncated { offset: *old(offset) }),
            ),
            r is Err ==> *final(offset) == *old(offset),
            r is Ok ==> r->Ok_0.wf(),
    {
        if count > NUM_DATA_DIRECTORIES {
            return Err(
                Error::Malformed(
                    Malformed::DirectoryCount { count, max: NUM_DATA_DIRECTORIES },
                ),
            );
        }
        let start = *offset;
        if count > 0 && (start > bytes.len() || bytes.len() - start < count
            * SIZEOF_DATA_DIRECTORY) {
            return Err(Error::Malformed(Malformed::Truncated { offset: start }));
        }
        let mut data_directories: [Option<DataDirectory>; NUM_DATA_DIRECTORIES] = [None; 16];
        let mut i: usize = 0;
        while i < count
            invariant
                i <= count <= 16,
                count == 0 || start + 8 * count <= bytes@.len(),
                *offset == start + 8 * i,
                forall|j: int|
                    0 <= j < 16 ==> #[trigger] data_directories@[j] == if j < i {
                        slot_at(bytes@, start + 8 * j)
                    } else {
                        None
                    },
            decreases count - i,
        {
            let dd = match DataDirectory::parse(bytes, offset) {
                Ok(d) => d,
                Err(e) => return Err(e),
            };
            let slot = if dd.inner.virtual_address == 0 && dd.inner.size == 0 {
                None
            } else {
                Some(dd)
            };
            data_directories[i] = slot;
            i += 1;
        }
        let r = DataDirectories { data_directories };
        assert(r.data_directories@ =~= parsed_slots(bytes@, start as int, count as int));
        Ok(r)
    }

    /// The export directory, if present.
    pub fn get_export_table(&self) -> (r: &Option<DataDirectory>)
        ensures
            *r == self.data_directories@[0],
    {
        &self.data_directories[0]
    }

    /// The import directory, if present.
    pub fn get_import_table(&self) -> (r: &Option<DataDirectory>)
        ensures
            *r == self.data_directories@[1],
    {
        &self.data_directories[1]
    }

    /// The resource directory, if present.
    pub fn get_resource_table(&self) -> (r: &Option<DataDirectory>)
        ensures
            *r == self.data_directories@[2],
    {
        &self.data_directories[2]
    }

    /// The exception directory, if present.
    pub fn get_exception_table(&self) -> (r: &Option<DataDirectory>)
        ensures
            *r == self.data_directories@[3],
    {
        &self.data_directories[3]
    }

    /// The certificate (its address is a raw file offset) directory, if present.
    pub fn get_certificate_table(&self) -> (r: &Option<DataDirectory>)
        ensures
            *r == self.data_directories@[4],
    {
        &self.data_directories[4]
    }

    /// The base relocation directory, if present.
    pub fn get_base_relocation_table(&self) -> (r: &Option<DataDirectory>)
        ensures
            *r == self.data_directories@[5],
    {
        &self.data_directories[5]
    }

    /// The debug directory, if present.
    pub fn get_debug_table(&self) -> (r: &Option<DataDirectory>)
        ensures
            *r == self.data_directories@[6],
    {
        &self.data_directories[6]
    }

    /// The architecture directory, if present.
    pub fn get_architecture(&self) -> (r: &Option<DataDirectory>)
        ensures
            *r == self.data_directories@[7],
    {
        &self.data_directories[7]
    }

    /// The global pointer directory, if present.
    pub fn get_global_ptr(&self) -> (r: &Option<DataDirectory>)
        ensures
            *r == self.data_directories@[8],
    {
        &self.data_directories[8]
    }

    /// The thread-local storage directory, if present.
    pub fn get_tls_table(&self) -> (r: &Option<DataDirectory>)
        ensures
            *r == self.data_directories@[9],
    {
        &self.data_directories[9]
    }

    /// The load configuration directory, if present.
    pub fn get_load_config_table(&self) -> (r: &Option<DataDirectory>)
        ensures
            *r == self.data_directories@[10],
    {
        &self.data_directories[10]
    }

    /// The bound import directory, if present.
    pub fn get_bound_import_table(&self) -> (r: &Option<DataDirectory>)
        ensures
            *r == self.data_directories@[11],
    {
        &self.data_directories[11]
    }

    /// The import address directory, if present.
    pub fn get_import_address_table(&self) -> (r: &Option<DataDirectory>)
        ensures
            *r == self.data_directories@[12],
    {
        &self.data_directories[12]
    }

    /// The delay import descriptor directory, if present.
    pub fn get_delay_import_descriptor(&self) -> (r: &Option<DataDirectory>)
        ensures
            *r == self.data_directories@[13],
    {
        &self.data_directories[13]
    }

    /// The CLR runtime header directory, if present.
    pub fn get_clr_runtime_header(&self) -> (r: &Option<DataDirectory>)
        ensures
            *r == self.data_directories@[14],
    {
        &self.data_directories[14]
    }

    /// The present directories of the typed slots with their types, in
    /// ascending slot order.
    pub fn dirs(&self) -> (r: Vec<(DataDirectoryType, DataDirectory)>)
        ensures
            r@ == present_entries(self.data_directories@),
    {
        let mut r: Vec<(DataDirectoryType, DataDirectory)> = Vec::new();
        let mut i: usize = 0;
        while i < 15
            invariant
                i <= 15,
                r@ == present_upto(self.data_directories@, i as nat),
            decreases 15 - i,
        {
            if let Some(d) = self.data_directories[i] {
                if let Ok(t) = DataDirectoryType::try_from_index(i) {
                    r.push((t, d));
                }
            }
            i += 1;
        }
        r
    }

    /// Writes the 128-byte encoding of the table into `dst` at `offset`:
    /// each slot's (address, size) pair in order, an absent slot as zeros.
    /// Fails, leaving `dst` untouched, when fewer than 128 bytes remain there.
    pub fn write(&self, dst: &mut Vec<u8>, offset: usize) -> (r: Result<usize, Error>)
        ensures
            offset + 128 <= old(dst)@.len() ==> {
                &&& r == Ok::<usize, Error>(128)
                &&& final(dst)@ == splice(
                    old(dst)@,
                    offset as int,
                    table_bytes(self.data_directories@),
                )
            },
            offset + 128 > old(dst)@.len() ==> {
                &&& r == Err::<usize, Error>(
                    Error::BufferTooSmall {
                        needed: 128,
                        available: if offset <= old(dst)@.len() {
                            (old(dst)@.len() - offset) as u64
                        } else {
                            0
                        },
                    },
                )
                &&& final(dst)@ == old(dst)@
            },
    {
        let total = NUM_DATA_DIRECTORIES * SIZEOF_DATA_DIRECTORY;
        if offset > dst.len() || dst.len() - offset < total {
            let available = if offset <= dst.len() {
                (dst.len() - offset) as u64
            } else {
                0
            };
            return Err(Error::BufferTooSmall { needed: 128, available });
        }
        let ghost s = self.data_directories@;
        let ghost orig = dst@;
        assert(orig.len() == dst.len());
        let mut i: usize = 0;
        while i < NUM_DATA_DIRECTORIES
            invariant
                i <= 16,
                s == self.data_directories@,
                offset + 128 <= orig.len(),
                dst@.len() == orig.len(),
                orig.len() <= usize::MAX,
                dst@ == splice(orig, offset as int, slots_bytes(s, i as nat)),
            decreases 16 - i,
        {
            proof {
                lemma_slots_bytes_len(s, i as nat);
            }
            let pos = offset + 8 * i;
            let inner = match self.data_directories[i] {
                Some(d) => d.inner,
                None => DataDirectoryInner { virtual_address: 0, size: 0 },
            };
            write_u32_le(dst, pos, inner.virtual_address);
            write_u32_le(dst, pos + 4, inner.size);
            proof {
                lemma_slots_bytes_len(s, (i + 1) as nat);
                assert(slots_bytes(s, (i + 1) as nat) == slots_bytes(s, i as nat) + entry_bytes(
                    inner,
                ));
                assert(dst@ =~= splice(orig, offset as int, slots_bytes(s, (i + 1) as nat)));
            }
            i += 1;
        }
        Ok(total)
    }
}

/// The encoding of `n` slots is `8 * n` bytes long.
pub proof fn lemma_slots_bytes_len(s: Seq<Option<DataDirectory>>, n: nat)
    ensures
        slots_bytes(s, n).len() == 8 * n,
    decreases n,
{
    if n > 0 {
        lemma_slots_bytes_len(s, (n - 1) as nat);
    }
}

/// Byte `8 * i + k` of the encoding of slots `0 .. n` is byte `k` of slot `i`'s encoding.
proof fn lemma_slots_bytes_index(s: Seq<Option<DataDirectory>>, n: nat, i: int, k: int)
    requires
        0 <= i < n,
        0 <= k < 8,
    ensures
        slots_bytes(s, n)[8 * i + k] == slot_bytes(s[i])[k],
    decreases n,
{
    lemma_slots_bytes_len(s, (n - 1) as nat);
    if i < n - 1 {
        lemma_slots_bytes_index(s, (n - 1) as nat, i, k);
    }
}

/// With no present slot among `0 .. n`, nothing is listed.
proof fn lemma_present_upto_none(s: Seq<Option<DataDirectory>>, n: nat)
    requires
        n <= s.len(),
        forall|i: int| 0 <= i < n ==> #[trigger] s[i] is None,
    ensures
        present_upto(s, n) == Seq::<(DataDirectoryType, DataDirectory)>::empty(),
    decreases n,
{
    if n > 0 {
        lemma_present_upto_none(s, (n - 1) as nat);
    }
}

/// A table always encodes to exactly 128 bytes, however many slots are present.
pub proof fn lemma_table_bytes_len(s: Seq<Option<DataDirectory>>)
    ensures
        table_bytes(s).len() == NUM_DATA_DIRECTORIES * SIZEOF_DATA_DIRECTORY,
{
    lemma_slots_bytes_len(s, 16);
}

/// Entries whose bytes are all zero decode as absent: for any declared count
/// up to 16, a table read from zeroed entries lists no directories.
pub proof fn lemma_zeroed_entries_absent(b: Seq<u8>, start: int, count: int)
    requires
        0 <= start,
        0 <= count <= 16,
        start + 8 * count <= b.len(),
        forall|j: int| start <= j < start + 8 * count ==> #[trigger] b[j] == 0,
    ensures
        present_entries(parsed_slots(b, start, count)) == Seq::<
            (DataDirectoryType, DataDirectory),
        >::empty(),
{
    let s = parsed_slots(b, start, count);
    assert forall|i: int| 0 <= i < 16 implies #[trigger] s[i] is None by {
        if i < count {
            let at = start + 8 * i;
            assert(b[at] == 0 && b[at + 1] == 0 && b[at + 2] == 0 && b[at + 3] == 0);
            assert(b[at + 4] == 0 && b[at + 5] == 0 && b[at + 6] == 0 && b[at + 7] == 0);
            lemma_le32_zero(b, at);
            lemma_le32_zero(b, at + 4);
        }
    }
    lemma_present_upto_none(s, 15);
}

/// Decoding sixteen entries reads only the 128 bytes from `at` on.
pub proof fn lemma_parsed_slots_local(b1: Seq<u8>, b2: Seq<u8>, at: int)
    requires
        0 <= at,
        at + 128 <= b1.len(),
        at + 128 <= b2.len(),
        b1.subrange(at, at + 128) == b2.subrange(at, at + 128),
    ensures
        parsed_slots(b1, at, 16) == parsed_slots(b2, at, 16),
{
    assert forall|j: int| at <= j < at + 128 implies #[trigger] b1[j] == b2[j] by {
        assert(b1[j] == b1.subrange(at, at + 128)[j - at]);
        assert(b2[j] == b2.subrange(at, at + 128)[j - at]);
    }
    assert(parsed_slots(b1, at, 16) =~= parsed_slots(b2, at, 16));
}

/// Writing a canonical table and decoding sixteen entries from the same place
/// gives back the same directories with the same (address, size) pairs.
pub proof fn lemma_write_parse_round_trip(s: Seq<Option<DataDirectory>>, buf: Seq<u8>, at: int)
    requires
        s.len() == 16,
        canonical(s),
        0 <= at,
        at + 128 <= buf.len(),
    ensures
        same_entries(parsed_slots(splice(buf, at, table_bytes(s)), at, 16), s),
{
    let t = table_bytes(s);
    let out = splice(buf, at, t);
    lemma_table_bytes_len(s);
    let parsed = parsed_slots(out, at, 16);
    assert forall|i: int| 0 <= i < 16 implies (#[trigger] parsed[i] is Some) == s[i] is Some && (
    parsed[i] is Some ==> parsed[i]->0.inner == s[i]->0.inner) by {
        let e = match s[i] {
            Some(d) => d.inner,
            None => DataDirectoryInner { virtual_address: 0, size: 0 },
        };
        let base = at + 8 * i;
        let eb = entry_bytes(e);
        assert forall|k: int| 0 <= k < 8 implies out[base + k] == #[trigger] eb[k] by {
            lemma_slots_bytes_index(s, 16, i, k);
        }
        let va = le32_bytes(e.virtual_address);
        let sz = le32_bytes(e.size);
        assert(eb[0] == va[0] && eb[1] == va[1] && eb[2] == va[2] && eb[3] == va[3]);
        assert(eb[4] == sz[0] && eb[5] == sz[1] && eb[6] == sz[2] && eb[7] == sz[3]);
        assert(out[base] == eb[0]);
        assert(le32_at(out, base) == le32_at(va, 0));
        assert(le32_at(out, base + 4) == le32_at(sz, 0));
        lemma_le32_round_trip(e.virtual_address);
        lemma_le32_round_trip(e.size);
        assert(entry_at(out, at + 8 * i) == e);
    }
}

} // verus!
