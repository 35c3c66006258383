use crate::bytes::{le32_at, read_u32_le};
use crate::data_directories::{DataDirectories, CERTIFICATE_SLOT};
use crate::error::{Error, Malformed};
use vstd::prelude::*;

verus! {

/// Size of the header that precedes each attribute certificate.
pub const SIZEOF_CERTIFICATE_HEADER: usize = 8;

/// One attribute-certificate record copied out of the certificate directory.
#[derive(Debug, Clone, PartialEq, Eq)]
pub struct CertificateRecord {
    /// Length of the record, header included.
    pub length: u32,
    pub revision: u16,
    pub certificate_type: u16,
    /// The record's content after its header.
    pub certificate: Vec<u8>,
}

/// `x` rounded up to a multiple of eight.
pub open spec fn align8(x: int) -> int {
    if x % 8 == 0 {
        x
    } else {
        x + (8 - x % 8)
    }
}

/// Start positions of the records that fill `pos .. end` of `b`, each
/// starting eight-byte aligned after the previous one; `None` when a record
/// header or body runs past `end`, or a record is shorter than its header.
pub open spec fn record_starts(b: Seq<u8>, pos: int, end: int) -> Option<Seq<int>>
    decreases end - pos,
    via record_starts_decreases
{
    if pos >= end {
        Some(Seq::empty())
    } else if pos + 8 > end {
        None
    } else {
        let len = le32_at(b, pos) as int;
        if len < 8 || pos + len > end {
            None
        } else if align8(pos + len) >= end {
            Some(seq![pos])
        } else {
            match record_starts(b, align8(pos + len), end) {
                Some(rest) => Some(seq![pos] + rest),
                None => None,
            }
        }
    }
}

#[via_fn]
proof fn record_starts_decreases(b: Seq<u8>, pos: int, end: int) {
    if pos < end && pos + 8 <= end {
        let len = le32_at(b, pos) as int;
        if !(len < 8 || pos + len > end) && align8(pos + len) < end {
            vstd::arithmetic::div_mod::lemma_mod_bound(pos + len, 8);
            assert(align8(pos + len) >= pos + len);
        }
    }
}

/// `r` is the record whose header starts at `p` in `b`.
pub open spec fn record_at(r: CertificateRecord, b: Seq<u8>, p: int) -> bool {
    &&& r.length == le32_at(b, p)
    &&& r.revision == le32_at(b, p + 4) % 0x10000
    &&& r.certificate_type == le32_at(b, p + 4) / 0x10000
    &&& r.certificate@ == b.subrange(p + 8, p + le32_at(b, p))
}

/// `end` as seen by the certificate directory: its address is a raw file
/// offset, not a virtual address.
pub open spec fn certificate_end(t: DataDirectories) -> int {
    t.data_directories@[CERTIFICATE_SLOT as int]->0.inner.virtual_address + t.data_directories@[CERTIFICATE_SLOT as int]->0.inner.size
}

/// Copies the bytes `file[from .. to]`.
fn copy_range(file: &[u8], from: usize, to: usize) -> (r: Vec<u8>)
    requires
        from <= to <= file@.len(),
    ensures
        r@ == file@.subrange(from as int, to as int),
{
    let mut r: Vec<u8> = Vec::new();
    let mut i: usize = from;
    while i < to
        invariant
            from <= i <= to <= file@.len(),
            r@ == file@.subrange(from as int, i as int),
        decreases to - i,
    {
        r.push(file[i]);
        i += 1;
        assert(r@ =~= file@.subrange(from as int, i as int));
    }
    r
}

/// The attribute-certificate records of the certificate directory, in file
/// order. An image without that directory has none. Fails when the
/// directory lies outside the file, or when its records do not exactly tile
/// it (a header or body past its end, or a record shorter than its header).
pub fn certificates(table: &DataDirectories, file: &[u8]) -> (r: Result<
    Vec<CertificateRecord>,
    Error,
>)
    ensures
        table.data_directories@[CERTIFICATE_SLOT as int] is None ==> r is Ok && r->Ok_0@.len() == 0,
        table.data_directories@[CERTIFICATE_SLOT as int] is Some && certificate_end(*table) > file@.len() ==> r
            == Err::<Vec<CertificateRecord>, Error>(
            Error::Malformed(
                Malformed::PayloadOutOfBounds {
                    start: table.data_directories@[CERTIFICATE_SLOT as int]->0.inner.virtual_address as usize,
                    size: table.data_directories@[CERTIFICATE_SLOT as int]->0.inner.size,
                    len: file@.len() as usize,
                },
            ),
        ),
        table.data_directories@[CERTIFICATE_SLOT as int] is Some && certificate_end(*table) <= file@.len() ==> {
            let starts = record_starts(
                file@,
                table.data_directories@[CERTIFICATE_SLOT as int]->0.inner.virtual_address as int,
                certificate_end(*table),
            );
            &&& starts is None ==> r == Err::<Vec<CertificateRecord>, Error>(
                Error::Malformed(Malformed::CertificateRecords),
            )
            &&& starts is Some ==> {
                &&& r is Ok
                &&& r->Ok_0@.len() == starts->0.len()
                &&& forall|i: int|
                    0 <= i < starts->0.len() ==> record_at(
                        #[trigger] r->Ok_0@[i],
                        file@,
                        starts->0[i],
                    )
            }
        },
{
    let dir = match table.data_directories[CERTIFICATE_SLOT] {
        Some(d) => d,
        None => return Ok(Vec::new()),
    };
    let start = dir.inner.virtual_address as usize;
    let size = dir.inner.size as usize;
    if start > file.len() || file.len() - start < size {
        return Err(
            Error::Malformed(
                Malformed::PayloadOutOfBounds {
                    start,
                    size: dir.inner.size,
                    len: file.len(),
                },
            ),
        );
    }
    let end = start + size;
    let ghost all = record_starts(file@, start as int, end as int);
    let ghost done: Seq<int> = Seq::empty();
    let mut r: Vec<CertificateRecord> = Vec::new();
    let mut pos: usize = start;
    while pos < end
        invariant
            table.data_directories@[CERTIFICATE_SLOT as int] == Some(dir),
            start == dir.inner.virtual_address,
            end == certificate_end(*table),
            end <= file@.len(),
            file@.len() <= usize::MAX,
            all == record_starts(file@, start as int, end as int),
            all == match record_starts(file@, pos as int, end as int) {
                Some(rest) => Some(done + rest),
                None => None::<Seq<int>>,
            },
            r@.len() == done.len(),
            forall|i: int| 0 <= i < done.len() ==> record_at(#[trigger] r@[i], file@, done[i]),
        decreases end - pos,
    {
        if end - pos < SIZEOF_CERTIFICATE_HEADER {
            return Err(Error::Malformed(Malformed::CertificateRecords));
        }
        let (len, kind) = match (read_u32_le(file, pos), read_u32_le(file, pos + 4)) {
            (Some(l), Some(k)) => (l, k),
            _ => return Err(Error::Malformed(Malformed::CertificateRecords)),
        };
        if (len as usize) < SIZEOF_CERTIFICATE_HEADER || end - pos < len as usize {
            return Err(Error::Malformed(Malformed::CertificateRecords));
        }
        let body = copy_range(file, pos + 8, pos + len as usize);
        let rec = CertificateRecord {
            length: len,
            revision: (kind % 0x10000) as u16,
            certificate_type: (kind / 0x10000) as u16,
            certificate: body,
        };
        let ghost p = pos as int;
        let next = pos + len as usize;
        let rem = next % 8;
        let pad = if rem == 0 {
            0
        } else {
            8 - rem
        };
        r.push(rec);
        if end - next <= pad {
            proof {
                assert(align8(next as int) >= end);
                assert(all == Some(done.push(p) + Seq::<int>::empty())) by {
                    assert(done + seq![p] =~= done.push(p) + Seq::<int>::empty());
                }
                done = done.push(p);
            }
            pos = end;
        } else {
            proof {
                assert(align8(next as int) == next + pad);
                let rest = record_starts(file@, next + pad, end as int);
                if rest is Some {
                    assert(done + (seq![p] + rest->0) =~= done.push(p) + rest->0);
                }
                done = done.push(p);
            }
            pos = next + pad;
        }
    }
    proof {
        assert(done + Seq::<int>::empty() =~= done);
    }
    Ok(r)
}

} // verus!
