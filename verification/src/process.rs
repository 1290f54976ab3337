//! The decisions of the process-management syscalls.
//!
//! Each syscall here is the part that computes: it checks the arguments,
//! says which kernel service to call and with what, and turns what the
//! service reports into the syscall's return value.  Calling the services
//! (page tables, timers, the scheduler) is left to the kernel around it.
use vstd::prelude::*;

verus! {

/// Bytes in a page.
pub const PAGE_SIZE: usize = 4096;

/// Bits of a virtual address under Sv39.
pub const VA_WIDTH_SV39: usize = 39;

/// Page-permission bits of a mapping.
pub const MAP_PERM_R: u8 = 2;
pub const MAP_PERM_W: u8 = 4;
pub const MAP_PERM_X: u8 = 8;
pub const MAP_PERM_U: u8 = 16;

/// A point in time split into seconds and microseconds.
#[derive(Debug, Clone, Copy, PartialEq, Eq, Structural)]
pub struct TimeVal {
    pub sec: usize,
    pub usec: usize,
}

/// The eight bytes of `x`, least significant first.
pub open spec fn u64_le_bytes(x: u64) -> Seq<u8> {
    Seq::new(8, |k: int| ((x >> ((8 * k) as u64)) & 0xff) as u8)
}

impl TimeVal {
    /// The record as the user sees it in memory: `sec`, then `usec`, each
    /// a 64-bit little-endian word (the layout of the C struct on RISC-V 64).
    pub fn to_bytes(&self) -> (bytes: Vec<u8>)
        ensures
            bytes@ == u64_le_bytes(self.sec as u64) + u64_le_bytes(self.usec as u64),
    {
        let mut bytes: Vec<u8> = Vec::new();
        push_le_bytes(&mut bytes, self.sec as u64);
        push_le_bytes(&mut bytes, self.usec as u64);
        proof {
            assert(bytes@ =~= u64_le_bytes(self.sec as u64) + u64_le_bytes(self.usec as u64));
        }
        bytes
    }
}

/// Appends the eight little-endian bytes of `x`.
fn push_le_bytes(bytes: &mut Vec<u8>, x: u64)
    ensures
        final(bytes)@ == old(bytes)@ + u64_le_bytes(x),
{
    let mut k: u64 = 0;
    while k < 8
        invariant
            0 <= k <= 8,
            bytes@ =~= old(bytes)@ + u64_le_bytes(x).take(k as int),
        decreases 8 - k,
    {
        bytes.push(((x >> (8 * k)) & 0xff) as u8);
        proof {
            assert(u64_le_bytes(x).take(k + 1) =~= u64_le_bytes(x).take(k as int).push(((x >> (8 * k)) & 0xff) as u8));
        }
        k = k + 1;
    }
    proof {
        assert(u64_le_bytes(x).take(8) =~= u64_le_bytes(x));
    }
}

/// The number that bytes `b[0..8]` stand for, least significant first.
pub open spec fn le_word(b: Seq<u8>) -> int {
    b[0] as int + b[1] as int * 0x100 + b[2] as int * 0x1_0000 + b[3] as int * 0x100_0000
        + b[4] as int * 0x1_0000_0000 + b[5] as int * 0x100_0000_0000 + b[6] as int * 0x1_0000_0000_0000
        + b[7] as int * 0x100_0000_0000_0000
}

/// The eight bytes of a word, read back least significant first, give the
/// word; and each byte is the word's digit in base 256.
pub proof fn lemma_le_bytes_read_back(x: u64)
    ensures
        u64_le_bytes(x).len() == 8,
        le_word(u64_le_bytes(x)) == x,
        u64_le_bytes(x)[0] == x % 0x100,
        u64_le_bytes(x)[1] == (x / 0x100) % 0x100,
        u64_le_bytes(x)[7] == x / 0x100_0000_0000_0000,
{
    let b = u64_le_bytes(x);
    assert(b[0] == ((x >> 0u64) & 0xff) as u8);
    assert(b[1] == ((x >> 8u64) & 0xff) as u8);
    assert(b[2] == ((x >> 16u64) & 0xff) as u8);
    assert(b[3] == ((x >> 24u64) & 0xff) as u8);
    assert(b[4] == ((x >> 32u64) & 0xff) as u8);
    assert(b[5] == ((x >> 40u64) & 0xff) as u8);
    assert(b[6] == ((x >> 48u64) & 0xff) as u8);
    assert(b[7] == ((x >> 56u64) & 0xff) as u8);
    assert(x == (((x >> 0u64) & 0xff) as u8) as u64 + (((x >> 8u64) & 0xff) as u8) as u64 * 0x100
        + (((x >> 16u64) & 0xff) as u8) as u64 * 0x1_0000 + (((x >> 24u64) & 0xff) as u8) as u64 * 0x100_0000
        + (((x >> 32u64) & 0xff) as u8) as u64 * 0x1_0000_0000 + (((x >> 40u64) & 0xff) as u8) as u64 * 0x100_0000_0000
        + (((x >> 48u64) & 0xff) as u8) as u64 * 0x1_0000_0000_0000
        + (((x >> 56u64) & 0xff) as u8) as u64 * 0x100_0000_0000_0000) by (bit_vector);
    assert((((x >> 0u64) & 0xff) as u8) as u64 == x % 0x100) by (bit_vector);
    assert((((x >> 8u64) & 0xff) as u8) as u64 == (x / 0x100) % 0x100) by (bit_vector);
    assert((((x >> 56u64) & 0xff) as u8) as u64 == x / 0x100_0000_0000_0000) by (bit_vector);
}

/// The bytes of a time record read back as two words give its seconds and
/// its microseconds.
pub proof fn lemma_time_val_bytes_read_back(tv: TimeVal)
    ensures
        le_word((u64_le_bytes(tv.sec as u64) + u64_le_bytes(tv.usec as u64)).subrange(0, 8)) == tv.sec as u64,
        le_word((u64_le_bytes(tv.sec as u64) + u64_le_bytes(tv.usec as u64)).subrange(8, 16)) == tv.usec as u64,
{
    let a = u64_le_bytes(tv.sec as u64);
    let b = u64_le_bytes(tv.usec as u64);
    lemma_le_bytes_read_back(tv.sec as u64);
    lemma_le_bytes_read_back(tv.usec as u64);
    assert((a + b).subrange(0, 8) =~= a);
    assert((a + b).subrange(8, 16) =~= b);
}

/// The page permission asks for reading exactly when bit 0 of `port` is
/// set, for writing exactly when bit 1 is, for executing exactly when bit 2
/// is, and always for user access.
pub proof fn lemma_map_permission_bits(port: usize)
    ensures
        (map_permission(port) & MAP_PERM_R != 0) <==> (port & 1 == 1),
        (map_permission(port) & MAP_PERM_W != 0) <==> ((port >> 1) & 1 == 1),
        (map_permission(port) & MAP_PERM_X != 0) <==> ((port >> 2) & 1 == 1),
        map_permission(port) & MAP_PERM_U != 0,
{
    let r: u8 = if port & 1 == 1 { MAP_PERM_R } else { 0u8 };
    let w: u8 = if (port >> 1) & 1 == 1 { MAP_PERM_W } else { 0u8 };
    let x: u8 = if (port >> 2) & 1 == 1 { MAP_PERM_X } else { 0u8 };
    assert(map_permission(port) == 16u8 | r | w | x);
    assert((r == 0u8 || r == 2u8) && (w == 0u8 || w == 4u8) && (x == 0u8 || x == 8u8));
    assert(((16u8 | r | w | x) & 2u8 != 0) <==> r == 2u8) by (bit_vector)
        requires
            (r == 0u8 || r == 2u8) && (w == 0u8 || w == 4u8) && (x == 0u8 || x == 8u8),
    ;
    assert(((16u8 | r | w | x) & 4u8 != 0) <==> w == 4u8) by (bit_vector)
        requires
            (r == 0u8 || r == 2u8) && (w == 0u8 || w == 4u8) && (x == 0u8 || x == 8u8),
    ;
    assert(((16u8 | r | w | x) & 8u8 != 0) <==> x == 8u8) by (bit_vector)
        requires
            (r == 0u8 || r == 2u8) && (w == 0u8 || w == 4u8) && (x == 0u8 || x == 8u8),
    ;
    assert((16u8 | r | w | x) & 16u8 != 0) by (bit_vector);
}

/// `us` microseconds as seconds and the microseconds left over.
pub fn time_val_from_us(us: usize) -> (tv: TimeVal)
    ensures
        tv.sec == us / 1_000_000,
        tv.usec == us % 1_000_000,
        tv.sec * 1_000_000 + tv.usec == us,
{
    TimeVal { sec: us / 1000000, usec: us % 1000000 }
}

/// Where the copy into the `k`-th buffer starts, when `total` bytes are
/// spread over buffers of the given lengths, filling each in turn.
pub open spec fn copy_offset(lens: Seq<usize>, total: int, k: int) -> int
    decreases k,
{
    if k <= 0 {
        0
    } else {
        let prev = copy_offset(lens, total, k - 1);
        prev + copy_len(lens[k - 1] as int, total - prev)
    }
}

/// The lengths of the first `k` buffers, added up.
pub open spec fn total_len(lens: Seq<usize>, k: int) -> int
    decreases k,
{
    if k <= 0 {
        0
    } else {
        total_len(lens, k - 1) + lens[k - 1]
    }
}

/// Bytes that go into a buffer of length `len` when `left` bytes remain.
pub open spec fn copy_len(len: int, left: int) -> int {
    if len <= left {
        len
    } else {
        left
    }
}

/// How `total` bytes are spread over buffers of lengths `buffer_lens`: for
/// each buffer, the offset in the source and the number of bytes copied to
/// its start.  Each buffer takes as much as fits of what is left.
#[verifier::spinoff_prover]
pub fn copy_plan(total: usize, buffer_lens: &Vec<usize>) -> (plan: Vec<(usize, usize)>)
    ensures
        plan@.len() == buffer_lens@.len(),
        forall|k: int|
            0 <= k < plan@.len() ==> #[trigger] plan@[k].0 == copy_offset(buffer_lens@, total as int, k)
                && plan@[k].1 == copy_len(buffer_lens@[k] as int, total - copy_offset(buffer_lens@, total as int, k)),
        forall|k: int| 0 <= k <= plan@.len() ==> 0 <= #[trigger] copy_offset(buffer_lens@, total as int, k) <= total,
        copy_offset(buffer_lens@, total as int, buffer_lens@.len() as int) == if total_len(
            buffer_lens@,
            buffer_lens@.len() as int,
        ) <= total {
            total_len(buffer_lens@, buffer_lens@.len() as int)
        } else {
            total as int
        },
{
    let mut plan: Vec<(usize, usize)> = Vec::new();
    let mut offset: usize = 0;
    let mut k: usize = 0;
    while k < buffer_lens.len()
        invariant
            0 <= k <= buffer_lens@.len(),
            plan@.len() == k,
            offset == copy_offset(buffer_lens@, total as int, k as int),
            offset <= total,
            offset == if total_len(buffer_lens@, k as int) <= total {
                total_len(buffer_lens@, k as int)
            } else {
                total as int
            },
            forall|a: int|
                0 <= a < k ==> #[trigger] plan@[a].0 == copy_offset(buffer_lens@, total as int, a)
                    && plan@[a].1 == copy_len(buffer_lens@[a] as int, total - copy_offset(buffer_lens@, total as int, a)),
            forall|a: int| 0 <= a <= k ==> 0 <= #[trigger] copy_offset(buffer_lens@, total as int, a) <= total,
        decreases buffer_lens@.len() - k,
    {
        let left = total - offset;
        let len = if buffer_lens[k] <= left {
            buffer_lens[k]
        } else {
            left
        };
        let ghost before = plan@;
        plan.push((offset, len));
        proof {
            assert(plan@[k as int] == (offset, len));
            assert(copy_offset(buffer_lens@, total as int, k + 1) == offset + len);
            assert forall|a: int| 0 <= a < k + 1 implies #[trigger] plan@[a].0 == copy_offset(buffer_lens@, total as int, a)
                && plan@[a].1 == copy_len(buffer_lens@[a] as int, total - copy_offset(buffer_lens@, total as int, a)) by {
                if a < k {
                    assert(plan@[a] == before[a]);
                }
            }
        }
        offset = offset + len;
        k = k + 1;
    }
    plan
}

/// The services that `sys_trace` asks for.
#[derive(Debug, Clone, Copy, PartialEq, Eq, Structural)]
pub enum TraceRequest {
    /// Read the user byte at `addr`.
    ReadByte { addr: usize },
    /// Write the low byte of `data` to the user byte at `addr`.
    WriteByte { addr: usize, data: usize },
    /// Report how often the current task made syscall `syscall_id`.
    SyscallCount { syscall_id: usize },
    /// An unknown request: the syscall fails with -1.
    Unknown,
}

/// Decodes a `trace` request: 0 reads a byte at `id`, 1 writes `data` to the
/// byte at `id`, 2 asks for the count of syscall `id`; anything else fails.
pub fn sys_trace(trace_request: usize, id: usize, data: usize) -> (req: TraceRequest)
    ensures
        trace_request == 0 ==> req == (TraceRequest::ReadByte { addr: id }),
        trace_request == 1 ==> req == (TraceRequest::WriteByte { addr: id, data }),
        trace_request == 2 ==> req == (TraceRequest::SyscallCount { syscall_id: id }),
        trace_request > 2 ==> req == TraceRequest::Unknown,
{
    match trace_request {
        0 => TraceRequest::ReadByte { addr: id },
        1 => TraceRequest::WriteByte { addr: id, data },
        2 => TraceRequest::SyscallCount { syscall_id: id },
        _ => TraceRequest::Unknown,
    }
}

/// The result of a byte read: the byte, or -1 when the address is not
/// readable by the user (`None`).
pub fn read_byte(fetched: Option<u8>) -> (r: isize)
    ensures
        fetched.is_none() ==> r == -1,
        fetched.is_some() ==> r == fetched.unwrap() as isize,
{
    match fetched {
        None => -1,
        Some(b) => b as isize,
    }
}

/// A byte write: when the address is writable by the user, the low byte of
/// `data` is what to store and the result is 0; otherwise nothing is stored
/// and the result is -1.
pub fn write_byte(writable: bool, data: usize) -> (r: (isize, Option<u8>))
    ensures
        writable ==> r == (0isize, Some(data as u8)),
        !writable ==> r == (-1isize, None::<u8>),
{
    if !writable {
        (-1, None)
    } else {
        (0, Some(data as u8))
    }
}

/// A virtual address as Sv39 keeps it: the low 39 bits.
pub open spec fn sv39(v: usize) -> usize {
    ((v as u64) & 0x7f_ffff_ffffu64) as usize
}

/// The Sv39 virtual address of `v`.
fn va_from(v: usize) -> (va: usize)
    ensures
        va == sv39(v),
{
    ((v as u64) & 0x7f_ffff_ffffu64) as usize
}

/// The address starts a page.
pub open spec fn page_aligned(va: usize) -> bool {
    va & 0xfff == 0
}

/// The page permission that the `port` bits 0, 1, 2 ask for (read, write,
/// execute), always with user access.
pub open spec fn map_permission(port: usize) -> u8 {
    MAP_PERM_U
        | (if port & 1 == 1 { MAP_PERM_R } else { 0u8 })
        | (if (port >> 1) & 1 == 1 { MAP_PERM_W } else { 0u8 })
        | (if (port >> 2) & 1 == 1 { MAP_PERM_X } else { 0u8 })
}

/// A request to map the pages that cover `[start_va, end_va)`.
#[derive(Debug, Clone, Copy, PartialEq, Eq, Structural)]
pub struct MapRequest {
    pub start_va: usize,
    pub end_va: usize,
    pub permission: u8,
}

/// Checks an `mmap` call.  It fails (`None`, the syscall returns -1) when
/// `start` does not start a page, when `port` has bits beyond the low three,
/// or when it asks for no access at all.  Otherwise it names the range and
/// the permission to map.
pub fn sys_mmap(start: usize, len: usize, port: usize) -> (req: Option<MapRequest>)
    requires
        start + len <= usize::MAX,
    ensures
        req.is_some() <==> page_aligned(sv39(start)) && port & !7usize == 0 && port & 7 != 0,
        req.is_some() ==> req.unwrap() == (MapRequest {
            start_va: sv39(start),
            end_va: sv39((start + len) as usize),
            permission: map_permission(port),
        }),
{
    let start_va = va_from(start);
    let end_va = va_from(start + len);
    if start_va & (PAGE_SIZE - 1) != 0 {
        return None;
    }
    if port & !7usize != 0 {
        return None;
    }
    if port & 7 == 0 {
        return None;
    }
    let read: u8 = if port & 1 == 1 { MAP_PERM_R } else { 0 };
    let write: u8 = if (port >> 1) & 1 == 1 { MAP_PERM_W } else { 0 };
    let exec: u8 = if (port >> 2) & 1 == 1 { MAP_PERM_X } else { 0 };
    let mp: u8 = MAP_PERM_U | read | write | exec;
    Some(MapRequest { start_va, end_va, permission: mp })
}

/// Checks a `munmap` call: it fails (`None`) when `start` does not start a
/// page; otherwise it names the range to unmap.
pub fn sys_munmap(start: usize, len: usize) -> (range: Option<(usize, usize)>)
    requires
        start + len <= usize::MAX,
    ensures
        range.is_some() <==> page_aligned(sv39(start)),
        range.is_some() ==> range.unwrap() == (sv39(start), sv39((start + len) as usize)),
{
    let start_va = va_from(start);
    let end_va = va_from(start + len);
    if start_va & (PAGE_SIZE - 1) != 0 {
        return None;
    }
    Some((start_va, end_va))
}

/// The result of `sbrk`: the old break when the heap could be resized, -1
/// when it could not.
pub fn sys_sbrk(old_brk: Option<usize>) -> (r: isize)
    ensures
        old_brk.is_none() ==> r == -1,
        old_brk.is_some() ==> r == old_brk.unwrap() as isize,
{
    if let Some(b) = old_brk {
        b as isize
    } else {
        -1
    }
}

} // verus!
