//! Reading the process table the kernel writes for a `SystemProcessInformation`
//! query: a chain of 64-bit `SYSTEM_PROCESS_INFORMATION` records, each linked to
//! the next by `NextEntryOffset`, with each image name stored as UTF-16 in the
//! same buffer and referenced by address.
use vstd::prelude::*;
use crate::probe::SystemProcessInformation;

verus! {

/// Bytes of one record, without the thread records that may follow it.
pub const ENTRY_BYTES: usize = 256;

/// Byte offsets of the fields read from a record.
pub const OFF_NEXT_ENTRY: usize = 0;
pub const OFF_THREADS: usize = 4;
pub const OFF_CREATE_TIME: usize = 32;
pub const OFF_USER_TIME: usize = 40;
pub const OFF_KERNEL_TIME: usize = 48;
pub const OFF_NAME_LENGTH: usize = 56;
pub const OFF_NAME_BUFFER: usize = 64;
pub const OFF_PID: usize = 80;
pub const OFF_PARENT_PID: usize = 88;
pub const OFF_HANDLES: usize = 96;
pub const OFF_WORKING_SET: usize = 144;
pub const OFF_PRIVATE_PAGES: usize = 200;
pub const OFF_READ_BYTES: usize = 232;
pub const OFF_WRITE_BYTES: usize = 240;

/// The little-endian 16-bit value at `o`.
pub open spec fn u16_le(b: Seq<u8>, o: int) -> int {
    b[o] + b[o + 1] * 0x100
}

/// The little-endian 32-bit value at `o`.
pub open spec fn u32_le(b: Seq<u8>, o: int) -> int {
    u16_le(b, o) + u16_le(b, o + 2) * 0x1_0000
}

/// The little-endian 64-bit value at `o`.
pub open spec fn u64_le(b: Seq<u8>, o: int) -> int {
    u32_le(b, o) + u32_le(b, o + 4) * 0x1_0000_0000
}

/// The offsets of the records reached from `off`: a record is read where it
/// fits in the buffer; the chain ends at a zero `NextEntryOffset` or where the
/// next record would not fit.
pub open spec fn entry_offsets(b: Seq<u8>, off: int) -> Seq<int>
    decreases b.len() - off,
{
    if off < 0 || off + ENTRY_BYTES > b.len() {
        Seq::empty()
    } else {
        let nx = u32_le(b, off);
        if nx <= 0 || off + nx + ENTRY_BYTES > b.len() {
            seq![off]
        } else {
            seq![off] + entry_offsets(b, off + nx)
        }
    }
}

/// The UTF-16 code units of the image name of the record at `o`, for a buffer
/// that starts at address `base`: none for a null or empty name, or for one
/// whose bytes do not lie inside the buffer.
pub open spec fn name_units(b: Seq<u8>, base: u64, o: int) -> Seq<u16> {
    let bytes = u16_le(b, o + OFF_NAME_LENGTH);
    let ptr = u64_le(b, o + OFF_NAME_BUFFER);
    let start = ptr - base;
    let count = bytes / 2;
    if ptr == 0 || bytes == 0 || start < 0 || start + count * 2 > b.len() {
        Seq::empty()
    } else {
        Seq::new(count as nat, |k: int| u16_le(b, start + 2 * k) as u16)
    }
}

/// What `String::from_utf16_lossy` makes of a sequence of UTF-16 code units.
pub uninterp spec fn utf16_lossy(units: Seq<u16>) -> Seq<char>;

/// The record at `o` as decoded: counts, times and sizes as the kernel wrote
/// them (64-bit values truncated to the field's width), the image name decoded
/// from its UTF-16 units.
pub open spec fn decoded_at(b: Seq<u8>, base: u64, o: int, e: SystemProcessInformation) -> bool {
    &&& e.NextEntryOffset == u32_le(b, o + OFF_NEXT_ENTRY)
    &&& e.NumberOfThreads == u32_le(b, o + OFF_THREADS)
    &&& e.CreateTime == u64_le(b, o + OFF_CREATE_TIME) as i64
    &&& e.UserTime == u64_le(b, o + OFF_USER_TIME) as i64
    &&& e.KernelTime == u64_le(b, o + OFF_KERNEL_TIME) as i64
    &&& e.ImageName@ == utf16_lossy(name_units(b, base, o))
    &&& e.UniqueProcessId == u64_le(b, o + OFF_PID) as usize
    &&& e.InheritedFromUniqueProcessId == u64_le(b, o + OFF_PARENT_PID) as usize
    &&& e.HandleCount == u32_le(b, o + OFF_HANDLES)
    &&& e.WorkingSetSize == u64_le(b, o + OFF_WORKING_SET) as usize
    &&& e.PrivatePageCount == u64_le(b, o + OFF_PRIVATE_PAGES) as usize
    &&& e.ReadTransferCount == u64_le(b, o + OFF_READ_BYTES) as i64
    &&& e.WriteTransferCount == u64_le(b, o + OFF_WRITE_BYTES) as i64
}

/// `String::from_utf16_lossy`: trusted to give the decoding that
/// [`utf16_lossy`] names, which depends on the code units alone.
#[verifier::external_body]
fn string_from_utf16_lossy(units: &[u16]) -> (s: String)
    ensures
        s@ == utf16_lossy(units@),
{
    String::from_utf16_lossy(units)
}

fn read_u16(b: &[u8], o: usize) -> (r: u16)
    requires
        o + 2 <= b@.len(),
    ensures
        r == u16_le(b@, o as int),
{
    b[o] as u16 + (b[o + 1] as u16) * 0x100
}

fn read_u32(b: &[u8], o: usize) -> (r: u32)
    requires
        o + 4 <= b@.len(),
    ensures
        r == u32_le(b@, o as int),
{
    let blen = b.len();
    let lo = read_u16(b, o);
    let hi = read_u16(b, o + 2);
    lo as u32 + (hi as u32) * 0x1_0000
}

fn read_u64(b: &[u8], o: usize) -> (r: u64)
    requires
        o + 8 <= b@.len(),
    ensures
        r == u64_le(b@, o as int),
{
    let blen = b.len();
    let lo = read_u32(b, o);
    let hi = read_u32(b, o + 4);
    lo as u64 + (hi as u64) * 0x1_0000_0000
}

/// The image name of the record at `o`.
fn read_name(b: &[u8], base: u64, o: usize) -> (s: String)
    requires
        o + ENTRY_BYTES <= b@.len(),
    ensures
        s@ == utf16_lossy(name_units(b@, base, o as int)),
{
    let blen = b.len();
    let bytes = read_u16(b, o + OFF_NAME_LENGTH);
    let ptr = read_u64(b, o + OFF_NAME_BUFFER);
    let count = (bytes / 2) as usize;
    let mut units: Vec<u16> = Vec::new();
    if ptr != 0 && bytes != 0 && ptr >= base {
        let start = ptr - base;
        let len = b.len() as u64;
        if start <= len && (count as u64) * 2 <= len - start {
            let start = start as usize;
            let mut k: usize = 0;
            while k < count
                invariant
                    k <= count,
                    count == bytes / 2,
                    start + count * 2 <= blen,
                    blen == b@.len(),
                    units@.len() == k,
                    forall|t: int| 0 <= t < k ==> #[trigger] units@[t] == u16_le(b@, start + 2 * t) as u16,
                decreases count - k,
            {
                units.push(read_u16(b, start + 2 * k));
                k = k + 1;
            }
            assert(units@ =~= name_units(b@, base, o as int));
            return string_from_utf16_lossy(units.as_slice());
        }
    }
    assert(units@ =~= name_units(b@, base, o as int));
    string_from_utf16_lossy(units.as_slice())
}

/// The record at `o`, decoded.
fn read_entry(b: &[u8], base: u64, o: usize) -> (e: SystemProcessInformation)
    requires
        o + ENTRY_BYTES <= b@.len(),
    ensures
        decoded_at(b@, base, o as int, e),
{
    let blen = b.len();
    assert(o + OFF_WRITE_BYTES + 8 <= blen);
    SystemProcessInformation {
        NextEntryOffset: read_u32(b, o + OFF_NEXT_ENTRY),
        NumberOfThreads: read_u32(b, o + OFF_THREADS),
        CreateTime: read_u64(b, o + OFF_CREATE_TIME) as i64,
        UserTime: read_u64(b, o + OFF_USER_TIME) as i64,
        KernelTime: read_u64(b, o + OFF_KERNEL_TIME) as i64,
        ImageName: read_name(b, base, o),
        UniqueProcessId: read_u64(b, o + OFF_PID) as usize,
        InheritedFromUniqueProcessId: read_u64(b, o + OFF_PARENT_PID) as usize,
        HandleCount: read_u32(b, o + OFF_HANDLES),
        WorkingSetSize: read_u64(b, o + OFF_WORKING_SET) as usize,
        PrivatePageCount: read_u64(b, o + OFF_PRIVATE_PAGES) as usize,
        ReadTransferCount: read_u64(b, o + OFF_READ_BYTES) as i64,
        WriteTransferCount: read_u64(b, o + OFF_WRITE_BYTES) as i64,
    }
}

/// Walk the records the kernel wrote into `b` (the bytes it reported, read
/// from address `base`): one decoded record per offset of the chain from 0,
/// in chain order.
pub fn walk_process_buffer(b: &[u8], base: u64) -> (r: Vec<SystemProcessInformation>)
    ensures
        r@.len() == entry_offsets(b@, 0).len(),
        forall|i: int|
            0 <= i < r@.len() ==> decoded_at(b@, base, entry_offsets(b@, 0)[i], #[trigger] r@[i]),
{
    let mut r: Vec<SystemProcessInformation> = Vec::new();
    let mut off: usize = 0;
    let ghost mut done: Seq<int> = Seq::empty();
    while off <= b.len() && ENTRY_BYTES <= b.len() - off
        invariant
            off <= b@.len() + ENTRY_BYTES,
            entry_offsets(b@, 0) == done + entry_offsets(b@, off as int),
            r@.len() == done.len(),
            forall|i: int| 0 <= i < r@.len() ==> decoded_at(b@, base, done[i], #[trigger] r@[i]),
        decreases b@.len() + ENTRY_BYTES - off,
    {
        let e = read_entry(b, base, off);
        let nx = e.NextEntryOffset;
        r.push(e);
        let ghost rest = entry_offsets(b@, off as int);
        proof {
            done = done.push(off as int);
        }
        if nx == 0 || nx as usize > b.len() - ENTRY_BYTES - off {
            proof {
                assert(rest =~= seq![off as int]);
                assert(entry_offsets(b@, 0) =~= done);
            }
            return r;
        }
        proof {
            assert(rest =~= seq![off as int] + entry_offsets(b@, off + nx));
            assert(entry_offsets(b@, 0) =~= done + entry_offsets(b@, off + nx));
        }
        off = off + nx as usize;
    }
    proof {
        assert(entry_offsets(b@, off as int) =~= Seq::<int>::empty());
        assert(entry_offsets(b@, 0) =~= done);
    }
    r
}

} // verus!
