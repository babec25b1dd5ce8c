//! Sampling backends: what a probe can measure, why a pass fails, and the
//! decisions a probe makes between OS calls.
//!
//! The OS calls themselves live outside the library. What stands here works on
//! the records those calls return, decoded into plain values: naming a process
//! when the kernel gives no name, turning a FILETIME into a Unix timestamp,
//! sizing the query buffer, mapping logical processors to physical cores and
//! efficiency classes, and differencing monotonic counters between passes.
use std::collections::HashMap;
use vstd::prelude::*;
use vstd::wrapping::u64_specs::{wrapping_add, wrapping_sub};
use crate::format::dec;
use crate::process_rows::{key_code, key_code_exec, lemma_key_code_injective};
use crate::model::{CoreKind, Integrity, ProcessKey, ProcessStatic};

verus! {

broadcast use vstd::std_specs::hash::group_hash_axioms;

#[verifier::external_type_specification]
#[verifier::external_body]
pub struct ExIoError(std::io::Error);

/// Why a sampling pass could not produce data.
#[derive(Debug)]
pub enum ProbeError {
    /// This platform has no implementation yet.
    Unsupported(&'static str),
    /// An OS call failed.
    Os { context: &'static str, source: std::io::Error },
}

impl ProbeError {
    pub fn os(context: &'static str, source: std::io::Error) -> (e: Self)
        ensures
            e matches ProbeError::Os { context: c, source: s } && c == context && s == source,
    {
        ProbeError::Os { context, source }
    }
}

/// Which metrics this platform can actually supply.
///
/// The UI uses this to hide columns rather than show a grid of dashes.
#[derive(Debug, Clone, Copy, PartialEq, Eq, Structural)]
pub struct Capabilities {
    pub per_process_cpu: bool,
    pub per_process_disk: bool,
    pub per_process_network: bool,
    pub per_process_gpu: bool,
    pub per_process_power: bool,
    pub core_frequency: bool,
    pub package_power: bool,
    pub thermals: bool,
    pub hybrid_core_kinds: bool,
}

/// Nothing measurable.
pub open spec fn no_capabilities() -> Capabilities {
    Capabilities {
        per_process_cpu: false,
        per_process_disk: false,
        per_process_network: false,
        per_process_gpu: false,
        per_process_power: false,
        core_frequency: false,
        package_power: false,
        thermals: false,
        hybrid_core_kinds: false,
    }
}

impl Default for Capabilities {
    fn default() -> (c: Self)
        ensures
            c == no_capabilities(),
    {
        Capabilities {
            per_process_cpu: false,
            per_process_disk: false,
            per_process_network: false,
            per_process_gpu: false,
            per_process_power: false,
            core_frequency: false,
            package_power: false,
            thermals: false,
            hybrid_core_kinds: false,
        }
    }
}

/// Probe that measures nothing, for platforms without an implementation yet.
/// Every pass reports [`ProbeError::Unsupported`] rather than fabricating data.
#[derive(Debug, Default)]
pub struct StubProbe;

/// The platform name a stub reports for a target operating system name.
pub open spec fn platform_named(os: Seq<char>) -> Seq<char> {
    if os == seq!['l', 'i', 'n', 'u', 'x'] {
        seq!['l', 'i', 'n', 'u', 'x']
    } else if os == seq!['m', 'a', 'c', 'o', 's'] {
        seq!['m', 'a', 'c', 'o', 's']
    } else {
        seq!['u', 'n', 'k', 'n', 'o', 'w', 'n']
    }
}

pub(crate) fn str_equals(a: &str, b: &str) -> (r: bool)
    ensures
        r == (a@ == b@),
{
    let ab = a.as_bytes();
    let bb = b.as_bytes();
    proof {
        vstd::utf8::encode_utf8_decode_utf8(a@);
        vstd::utf8::encode_utf8_decode_utf8(b@);
    }
    if ab.len() != bb.len() {
        proof {
            if a@ == b@ {
                assert(ab@ == bb@);
            }
        }
        return false;
    }
    let mut i: usize = 0;
    while i < ab.len()
        invariant
            ab@ == vstd::utf8::encode_utf8(a@),
            bb@ == vstd::utf8::encode_utf8(b@),
            ab@.len() == bb@.len(),
            i <= ab@.len(),
            forall|t: int| 0 <= t < i ==> ab@[t] == bb@[t],
        decreases ab@.len() - i,
    {
        if ab[i] != bb[i] {
            proof {
                if a@ == b@ {
                    assert(ab@ == bb@);
                }
            }
            return false;
        }
        i = i + 1;
    }
    proof {
        assert(ab@ =~= bb@);
        vstd::utf8::encode_utf8_decode_utf8(a@);
        vstd::utf8::encode_utf8_decode_utf8(b@);
    }
    true
}

impl StubProbe {
    /// Construct the stub. Never fails; the result type matches the other probes.
    pub fn new() -> (r: Result<Self, ProbeError>)
        ensures
            r is Ok,
    {
        Ok(StubProbe)
    }

    /// Name of the platform this stub stands in for, for log messages, given the
    /// target operating system's name.
    pub fn platform_name(os: &str) -> (r: &'static str)
        ensures
            r@ == platform_named(os@),
    {
        proof {
            reveal_strlit("linux");
            reveal_strlit("macos");
            reveal_strlit("unknown");
            assert("linux"@ =~= seq!['l', 'i', 'n', 'u', 'x']);
            assert("macos"@ =~= seq!['m', 'a', 'c', 'o', 's']);
            assert("unknown"@ =~= seq!['u', 'n', 'k', 'n', 'o', 'w', 'n']);
        }
        if str_equals(os, "linux") {
            "linux"
        } else if str_equals(os, "macos") {
            "macos"
        } else {
            "unknown"
        }
    }

    /// What the stub can measure: nothing.
    pub fn capabilities(&self) -> (c: Capabilities)
        ensures
            c == no_capabilities(),
    {
        Capabilities::default()
    }

    /// A pass on the stub: always unsupported, naming the platform.
    pub fn sample(&mut self, os: &str) -> (r: Result<(), ProbeError>)
        ensures
            r matches Err(ProbeError::Unsupported(name)) && name@ == platform_named(os@),
    {
        Err(ProbeError::Unsupported(StubProbe::platform_name(os)))
    }
}

/// One process entry of the kernel's process list, decoded into plain values.
///
/// Times are in 100 ns units; `CreateTime` is a FILETIME. `KernelTime` and
/// `UserTime` are cumulative for the process.
#[allow(non_snake_case)]
#[derive(Debug, Clone)]
pub struct SystemProcessInformation {
    pub NextEntryOffset: u32,
    pub NumberOfThreads: u32,
    pub CreateTime: i64,
    pub UserTime: i64,
    pub KernelTime: i64,
    /// The image name, decoded; empty when the kernel gives none.
    pub ImageName: String,
    pub UniqueProcessId: usize,
    pub InheritedFromUniqueProcessId: usize,
    pub HandleCount: u32,
    pub WorkingSetSize: usize,
    pub PrivatePageCount: usize,
    pub ReadTransferCount: i64,
    pub WriteTransferCount: i64,
}

/// Difference between the FILETIME epoch (1601-01-01) and the Unix epoch, in
/// 100 ns units.
pub const FILETIME_UNIX_OFFSET_100NS: i64 = 116444736000000000;

/// Division rounding toward zero, as integer division does.
pub open spec fn div_toward_zero(x: int, d: int) -> int {
    if x >= 0 {
        x / d
    } else {
        -((-x) / d)
    }
}

/// The name shown for a process: the image name, or for a nameless one the
/// kernel's pseudo-process names by PID, else `<pid N>`.
pub open spec fn process_name(image: Seq<char>, pid: u32) -> Seq<char> {
    if image.len() > 0 {
        image
    } else if pid == 0 {
        "System Idle Process"@
    } else if pid == 4 {
        "System"@
    } else {
        seq!['<', 'p', 'i', 'd', ' '] + dec(pid as nat) + seq!['>']
    }
}

/// The first entry of `live` at or after `j` whose PID is `ppid` and whose
/// creation time is no later than `t`, or -1.
pub open spec fn parent_entry(live: Seq<SystemProcessInformation>, ppid: u32, t: i64, j: int) -> int
    decreases live.len() - j,
{
    if j < 0 || j >= live.len() {
        -1
    } else if live[j].UniqueProcessId as u32 == ppid && live[j].CreateTime <= t {
        j
    } else {
        parent_entry(live, ppid, t, j + 1)
    }
}

/// The parent identity of `p` among the live entries of its pass: the entry
/// with the parent PID that was created no later than `p`, so that a process
/// that inherited a recycled PID is never adopted; none when there is no such
/// entry or the parent PID is the process's own.
pub open spec fn live_parent(p: SystemProcessInformation, pid: u32, live: Seq<SystemProcessInformation>) -> Option<
    ProcessKey,
> {
    let ppid = p.InheritedFromUniqueProcessId as u32;
    let j = parent_entry(live, ppid, p.CreateTime, 0);
    if ppid == pid || j < 0 {
        None
    } else {
        Some(entry_key(live[j]))
    }
}

/// The immutable half of a process record, from its first observation among
/// the `live` entries of its pass: the parent is resolved to a live identity
/// once, here ([`live_parent`]); the start time is the creation FILETIME as
/// Unix milliseconds, absent when the kernel gives none.
pub open spec fn statics_ok(
    p: SystemProcessInformation,
    key: ProcessKey,
    live: Seq<SystemProcessInformation>,
    s: ProcessStatic,
) -> bool {
    &&& s.key == key
    &&& s.parent == live_parent(p, key.pid, live)
    &&& s.name@ == process_name(p.ImageName@, key.pid)
    &&& s.image_path is None
    &&& s.command_line is None
    &&& s.user is None
    &&& s.integrity == Integrity::Unknown
    &&& s.started_unix_ms == (if p.CreateTime > 0 {
        Some(div_toward_zero(p.CreateTime - FILETIME_UNIX_OFFSET_100NS, 10000) as i64)
    } else {
        None
    })
}

/// Build the immutable half of a process record from its first observation,
/// resolving its parent against the `live` entries of the same pass.
pub fn build_statics(p: &SystemProcessInformation, key: ProcessKey, live: &[SystemProcessInformation]) -> (s: ProcessStatic)
    ensures
        statics_ok(*p, key, live@, s),
{
    let mut name = String::new();
    if !p.ImageName.as_str().is_empty() {
        name.append(p.ImageName.as_str());
    } else if key.pid == 0 {
        name.append("System Idle Process");
    } else if key.pid == 4 {
        name.append("System");
    } else {
        let mut num = String::new();
        crate::format::count(&mut num, key.pid);
        name.append("<pid ");
        name.append(num.as_str());
        name.append(">");
        proof {
            reveal_strlit("<pid ");
            reveal_strlit(">");
        }
    }
    proof {
        reveal_strlit("System Idle Process");
        reveal_strlit("System");
        assert(name@ =~= process_name(p.ImageName@, key.pid));
    }
    let ppid = p.InheritedFromUniqueProcessId as u32;
    let mut j: usize = 0;
    while j < live.len() && !(live[j].UniqueProcessId as u32 == ppid && live[j].CreateTime <= p.CreateTime)
        invariant
            j <= live@.len(),
            parent_entry(live@, ppid, p.CreateTime, 0) == parent_entry(live@, ppid, p.CreateTime, j as int),
        decreases live@.len() - j,
    {
        j = j + 1;
    }
    let parent = if ppid == key.pid || j == live.len() {
        None
    } else {
        Some(ProcessKey::new(live[j].UniqueProcessId as u32, live[j].CreateTime as u64))
    };
    let started_unix_ms = if p.CreateTime > 0 {
        let x = p.CreateTime - FILETIME_UNIX_OFFSET_100NS;
        let ms = if x >= 0 {
            x / 10000
        } else {
            -((-x) / 10000)
        };
        Some(ms)
    } else {
        None
    };
    ProcessStatic {
        key,
        parent,
        name,
        image_path: None,
        command_line: None,
        user: None,
        integrity: Integrity::Unknown,
        started_unix_ms,
    }
}

/// The kernel's success status.
pub const STATUS_SUCCESS: i32 = 0;
/// The kernel's "buffer too small" status, 0xC0000004.
pub const STATUS_INFO_LENGTH_MISMATCH: i32 = -1073741820;
/// The size the process query buffer starts at.
pub const QUERY_INITIAL_BYTES: usize = 262144;
/// Headroom added when the query buffer grows, since the process table can grow
/// between the size query and the fill.
pub const QUERY_HEADROOM_BYTES: usize = 65536;

/// What to do after one call of a growing query.
#[derive(Debug, Clone, Copy, PartialEq, Eq, Structural)]
pub enum QueryStep {
    /// The buffer holds this many bytes of result.
    Filled(usize),
    /// Resize the buffer to this many bytes and call again.
    Grow(usize),
    /// The call failed.
    Failed,
}

/// The size a query buffer of `len` bytes is given before the first call.
pub fn query_start_len(len: usize) -> (r: usize)
    ensures
        r == (if len == 0 {
            QUERY_INITIAL_BYTES
        } else {
            len
        }),
{
    if len == 0 {
        QUERY_INITIAL_BYTES
    } else {
        len
    }
}

/// Decide the next step of a growing query from the call's status, the size
/// the kernel asked for, and the buffer's current size: on a size mismatch grow
/// to the larger of the two (doubling at least) plus headroom.
pub fn query_step(status: i32, needed: u32, len_bytes: usize) -> (r: QueryStep)
    requires
        len_bytes * 2 + QUERY_HEADROOM_BYTES <= usize::MAX,
        needed + QUERY_HEADROOM_BYTES <= usize::MAX,
    ensures
        r == (if status == STATUS_SUCCESS {
            QueryStep::Filled(needed as usize)
        } else if status == STATUS_INFO_LENGTH_MISMATCH {
            QueryStep::Grow(
                ((if needed >= len_bytes * 2 {
                    needed as int
                } else {
                    len_bytes * 2
                }) + QUERY_HEADROOM_BYTES) as usize,
            )
        } else {
            QueryStep::Failed
        }),
{
    if status == STATUS_SUCCESS {
        return QueryStep::Filled(needed as usize);
    }
    if status == STATUS_INFO_LENGTH_MISMATCH {
        let doubled = len_bytes * 2;
        let n = needed as usize;
        let target = if n >= doubled {
            n
        } else {
            doubled
        };
        return QueryStep::Grow(target + QUERY_HEADROOM_BYTES);
    }
    QueryStep::Failed
}

/// An uppercase hexadecimal digit.
pub open spec fn hex_char(d: nat) -> char {
    if d < 10 {
        ((d + 48) as u8) as char
    } else {
        ((d + 55) as u8) as char
    }
}

/// The low `k` hexadecimal digits of `v`, most significant first.
pub open spec fn hex_digits(v: nat, k: nat) -> Seq<char>
    decreases k,
{
    if k == 0 {
        Seq::empty()
    } else {
        hex_digits(v / 16, (k - 1) as nat).push(hex_char(v % 16))
    }
}

/// How a failed kernel status reads: `NTSTATUS 0x` and its eight hex digits.
pub open spec fn nt_status_text(status: i32) -> Seq<char> {
    "NTSTATUS 0x"@ + hex_digits(status as u32 as nat, 8)
}

fn hex_str(d: u32) -> (s: &'static str)
    requires
        d < 16,
    ensures
        s@ == seq![hex_char(d as nat)],
{
    proof {
        reveal_strlit("0");
        reveal_strlit("1");
        reveal_strlit("2");
        reveal_strlit("3");
        reveal_strlit("4");
        reveal_strlit("5");
        reveal_strlit("6");
        reveal_strlit("7");
        reveal_strlit("8");
        reveal_strlit("9");
        reveal_strlit("A");
        reveal_strlit("B");
        reveal_strlit("C");
        reveal_strlit("D");
        reveal_strlit("E");
        reveal_strlit("F");
    }
    if d == 0 {
        "0"
    } else if d == 1 {
        "1"
    } else if d == 2 {
        "2"
    } else if d == 3 {
        "3"
    } else if d == 4 {
        "4"
    } else if d == 5 {
        "5"
    } else if d == 6 {
        "6"
    } else if d == 7 {
        "7"
    } else if d == 8 {
        "8"
    } else if d == 9 {
        "9"
    } else if d == 10 {
        "A"
    } else if d == 11 {
        "B"
    } else if d == 12 {
        "C"
    } else if d == 13 {
        "D"
    } else if d == 14 {
        "E"
    } else {
        "F"
    }
}

fn write_hex(out: &mut String, v: u32, k: u8)
    requires
        k <= 8,
    ensures
        final(out)@ == old(out)@ + hex_digits(v as nat, k as nat),
    decreases k,
{
    if k > 0 {
        write_hex(out, v / 16, k - 1);
        out.append(hex_str(v % 16));
    } else {
        assert(hex_digits(v as nat, 0) =~= Seq::<char>::empty());
    }
}

/// The text of a failed kernel status.
pub fn nt_status_message(status: i32) -> (s: String)
    ensures
        s@ == nt_status_text(status),
{
    let mut s = String::new();
    s.append("NTSTATUS 0x");
    write_hex(&mut s, status as u32, 8);
    s
}

/// The text an I/O error displays (its `to_string()`).
pub uninterp spec fn io_error_text(e: std::io::Error) -> Seq<char>;

/// Whether an I/O error's kind (`kind()`) is `ErrorKind::Other`.
pub uninterp spec fn io_error_kind_other(e: std::io::Error) -> bool;

/// `std::io::Error::other` with a message. Trusted, as std documents it: the
/// error has kind `Other` and carries the message as its payload, so it
/// displays exactly the message.
#[verifier::external_body]
fn io_error_other(msg: String) -> (e: std::io::Error)
    ensures
        io_error_text(e) == msg@,
        io_error_kind_other(e),
{
    std::io::Error::other(msg)
}

/// The I/O error a failed kernel status stands for: kind `Other`, reading as
/// the status text.
pub fn nt_error(status: i32) -> (e: std::io::Error)
    ensures
        io_error_text(e) == nt_status_text(status),
        io_error_kind_other(e),
{
    io_error_other(nt_status_message(status))
}

/// The error a failed kernel query reports: its context, and as the source an
/// error of kind `Other` reading as the status text.
pub fn nt_failure(context: &'static str, status: i32) -> (e: ProbeError)
    ensures
        e matches ProbeError::Os { context: c, source: s } && c == context && io_error_text(s)
            == nt_status_text(status) && io_error_kind_other(s),
{
    ProbeError::os(context, nt_error(status))
}

/// A byte buffer with 8-byte alignment, because the structures the kernel
/// writes into it are 8-byte aligned.
#[derive(Debug, Default)]
pub struct AlignedBuf(pub Vec<u64>);

impl AlignedBuf {
    pub fn len_bytes(&self) -> (r: usize)
        requires
            self.0@.len() * 8 <= usize::MAX,
        ensures
            r == self.0@.len() * 8,
    {
        self.0.len() * 8
    }

    /// Resize to hold at least `bytes` bytes: whole words, new ones zeroed.
    pub fn resize_bytes(&mut self, bytes: usize)
        ensures
            final(self).0@.len() == bytes / 8 + (if bytes % 8 == 0 {
                0int
            } else {
                1int
            }),
            forall|i: int| 0 <= i < final(self).0@.len() ==> #[trigger] final(self).0@[i] == (if i < old(self).0@.len() {
                old(self).0@[i]
            } else {
                0
            }),
    {
        let words = bytes / 8 + if bytes % 8 == 0 {
            0
        } else {
            1
        };
        let ghost before = self.0@;
        if words <= self.0.len() {
            self.0.truncate(words);
        } else {
            while self.0.len() < words
                invariant
                    before.len() <= self.0@.len() <= words,
                    forall|i: int| 0 <= i < self.0@.len() ==> #[trigger] self.0@[i] == (if i < before.len() {
                        before[i]
                    } else {
                        0
                    }),
                decreases words - self.0@.len(),
            {
                self.0.push(0);
            }
        }
    }
}

/// One record of the logical-processor query, decoded: whether it describes a
/// processor core, and for a core the first group's number and affinity mask
/// and the core's efficiency class.
#[derive(Debug, Clone, Copy)]
pub struct CoreRecord {
    pub is_core: bool,
    pub group: u16,
    pub mask: u64,
    pub efficiency_class: u8,
}

/// Whether logical processor `b` of a group is in `mask`.
pub open spec fn has_bit(mask: u64, b: int) -> bool {
    0 <= b < 64 && mask & (1u64 << (b as u64)) != 0
}

/// The number of core records among the first `k`: the physical index the next
/// core gets.
pub open spec fn cores_before(recs: Seq<CoreRecord>, k: int) -> nat
    decreases k,
{
    if k <= 0 {
        0
    } else {
        cores_before(recs, k - 1) + (if recs[k - 1].is_core {
            1nat
        } else {
            0nat
        })
    }
}

/// The last core record among the first `k` whose group-0 mask holds logical
/// processor `b`, or -1.
pub open spec fn slot_record(recs: Seq<CoreRecord>, b: int, k: int) -> int
    decreases k,
{
    if k <= 0 {
        -1
    } else if recs[k - 1].is_core && recs[k - 1].group == 0 && has_bit(recs[k - 1].mask, b) {
        k - 1
    } else {
        slot_record(recs, b, k - 1)
    }
}

/// Efficiency class of logical processor `b`; 0 when no record names it.
pub open spec fn slot_class(recs: Seq<CoreRecord>, b: int) -> int {
    let j = slot_record(recs, b, recs.len() as int);
    if j < 0 {
        0
    } else {
        recs[j].efficiency_class as int
    }
}

/// Physical core index of logical processor `b`; its own index when no record
/// names it.
pub open spec fn slot_physical(recs: Seq<CoreRecord>, b: int) -> int {
    let j = slot_record(recs, b, recs.len() as int);
    if j < 0 {
        b
    } else {
        cores_before(recs, j) as int
    }
}

/// The largest class among the first `k` logical processors (0 for none).
pub open spec fn class_max(recs: Seq<CoreRecord>, k: int) -> int
    decreases k,
{
    if k <= 0 {
        0
    } else if class_max(recs, k - 1) >= slot_class(recs, k - 1) {
        class_max(recs, k - 1)
    } else {
        slot_class(recs, k - 1)
    }
}

/// The smallest class among the first `k` logical processors (0 for none).
pub open spec fn class_min(recs: Seq<CoreRecord>, k: int) -> int
    decreases k,
{
    if k <= 0 {
        0
    } else if k == 1 || slot_class(recs, k - 1) < class_min(recs, k - 1) {
        slot_class(recs, k - 1)
    } else {
        class_min(recs, k - 1)
    }
}

/// The kind of logical processor `b` among `n`: efficiency classes are
/// relative, a higher value more performant; when all are equal the processor
/// is homogeneous and the distinction is meaningless.
pub open spec fn slot_kind(recs: Seq<CoreRecord>, n: int, b: int) -> CoreKind {
    if class_max(recs, n) != class_min(recs, n) {
        if slot_class(recs, b) == class_max(recs, n) {
            CoreKind::Performance
        } else {
            CoreKind::Efficiency
        }
    } else {
        CoreKind::Unknown
    }
}

/// Map each of `logical_count` logical processors to its physical core and
/// efficiency class. Only the first processor group is represented.
pub fn classify_topology(logical_count: u32, recs: &[CoreRecord]) -> (topo: Vec<(u32, CoreKind)>)
    requires
        recs@.len() < u32::MAX,
    ensures
        topo@.len() == logical_count,
        forall|b: int|
            0 <= b < logical_count ==> #[trigger] topo@[b] == (
                slot_physical(recs@, b) as u32,
                slot_kind(recs@, logical_count as int, b),
            ),
{
    let n = logical_count as usize;
    let mut topo: Vec<(u32, CoreKind)> = Vec::new();
    let mut classes: Vec<u8> = Vec::new();
    let mut i: usize = 0;
    while i < n
        invariant
            n == logical_count,
            i <= n,
            topo@.len() == i,
            classes@.len() == i,
            forall|b: int| 0 <= b < i ==> #[trigger] topo@[b] == (u32::MAX, CoreKind::Unknown),
            forall|b: int| 0 <= b < i ==> #[trigger] classes@[b] == 0,
        decreases n - i,
    {
        topo.push((u32::MAX, CoreKind::Unknown));
        classes.push(0);
        i = i + 1;
    }
    let mut physical: u32 = 0;
    let mut k: usize = 0;
    while k < recs.len()
        invariant
            n == logical_count,
            recs@.len() < u32::MAX,
            k <= recs@.len(),
            topo@.len() == n,
            classes@.len() == n,
            physical == cores_before(recs@, k as int),
            physical <= k,
            forall|b: int|
                0 <= b < n ==> #[trigger] topo@[b] == (
                    if slot_record(recs@, b, k as int) < 0 {
                        u32::MAX
                    } else {
                        cores_before(recs@, slot_record(recs@, b, k as int)) as u32
                    },
                    CoreKind::Unknown,
                ),
            forall|b: int|
                0 <= b < n ==> #[trigger] classes@[b] == (if slot_record(recs@, b, k as int) < 0 {
                    0
                } else {
                    recs@[slot_record(recs@, b, k as int)].efficiency_class
                }),
        decreases recs@.len() - k,
    {
        let rec = recs[k];
        if rec.is_core {
            if rec.group == 0 {
                let mut bit: u64 = 0;
                while bit < 64
                    invariant
                        n == logical_count,
                        rec == recs@[k as int],
                        rec.is_core && rec.group == 0,
                        k < recs@.len(),
                        bit <= 64,
                        topo@.len() == n,
                        classes@.len() == n,
                        physical == cores_before(recs@, k as int),
                        forall|b: int|
                            0 <= b < n ==> #[trigger] topo@[b] == (
                                if b < bit && has_bit(rec.mask, b) {
                                    physical
                                } else if slot_record(recs@, b, k as int) < 0 {
                                    u32::MAX
                                } else {
                                    cores_before(recs@, slot_record(recs@, b, k as int)) as u32
                                },
                                CoreKind::Unknown,
                            ),
                        forall|b: int|
                            0 <= b < n ==> #[trigger] classes@[b] == (if b < bit && has_bit(rec.mask, b) {
                                rec.efficiency_class
                            } else if slot_record(recs@, b, k as int) < 0 {
                                0
                            } else {
                                recs@[slot_record(recs@, b, k as int)].efficiency_class
                            }),
                    decreases 64 - bit,
                {
                    if rec.mask & (1u64 << bit) != 0 && (bit as usize) < n {
                        let b = bit as usize;
                        topo.set(b, (physical, CoreKind::Unknown));
                        classes.set(b, rec.efficiency_class);
                    }
                    bit = bit + 1;
                }
            }
            physical = physical + 1;
        }
        proof {
            assert forall|b: int| 0 <= b < n implies #[trigger] slot_record(recs@, b, k + 1) == (if rec.is_core
                && rec.group == 0 && has_bit(rec.mask, b) {
                k as int
            } else {
                slot_record(recs@, b, k as int)
            }) by {}
        }
        k = k + 1;
    }
    proof {
        assert(recs@.len() as int == k as int);
    }
    let mut max_class: u8 = 0;
    let mut min_class: u8 = 0;
    let mut i: usize = 0;
    while i < n
        invariant
            n == logical_count,
            i <= n,
            classes@.len() == n,
            forall|b: int| 0 <= b < n ==> #[trigger] classes@[b] == slot_class(recs@, b),
            max_class == class_max(recs@, i as int),
            min_class == class_min(recs@, i as int),
        decreases n - i,
    {
        let c = classes[i];
        if c > max_class {
            max_class = c;
        }
        if i == 0 || c < min_class {
            min_class = c;
        }
        i = i + 1;
    }
    let mut i: usize = 0;
    while i < n
        invariant
            n == logical_count,
            i <= n,
            topo@.len() == n,
            classes@.len() == n,
            forall|b: int| 0 <= b < n ==> #[trigger] classes@[b] == slot_class(recs@, b),
            max_class == class_max(recs@, n as int),
            min_class == class_min(recs@, n as int),
            forall|b: int|
                0 <= b < n ==> #[trigger] topo@[b] == (
                    if slot_record(recs@, b, recs@.len() as int) < 0 {
                        u32::MAX
                    } else {
                        cores_before(recs@, slot_record(recs@, b, recs@.len() as int)) as u32
                    },
                    if b < i {
                        slot_kind(recs@, n as int, b)
                    } else {
                        CoreKind::Unknown
                    },
                ),
        decreases n - i,
    {
        let kind = if max_class != min_class {
            if classes[i] == max_class {
                CoreKind::Performance
            } else {
                CoreKind::Efficiency
            }
        } else {
            CoreKind::Unknown
        };
        let phys = topo[i].0;
        topo.set(i, (phys, kind));
        i = i + 1;
    }
    let mut i: usize = 0;
    while i < n
        invariant
            n == logical_count,
            n <= u32::MAX,
            recs@.len() < u32::MAX,
            i <= n,
            topo@.len() == n,
            forall|b: int|
                0 <= b < n ==> #[trigger] topo@[b] == (
                    if b >= i && slot_record(recs@, b, recs@.len() as int) < 0 {
                        u32::MAX
                    } else {
                        slot_physical(recs@, b) as u32
                    },
                    slot_kind(recs@, n as int, b),
                ),
        decreases n - i,
    {
        proof {
            let j = slot_record(recs@, i as int, recs@.len() as int);
            if j >= 0 {
                lemma_slot_record_range(recs@, i as int, recs@.len() as int);
                lemma_cores_before_bound(recs@, j);
            }
        }
        if topo[i].0 == u32::MAX {
            let kind = topo[i].1;
            topo.set(i, (i as u32, kind));
        }
        i = i + 1;
    }
    topo
}

proof fn lemma_slot_record_range(recs: Seq<CoreRecord>, b: int, k: int)
    requires
        0 <= k,
    ensures
        -1 <= slot_record(recs, b, k) < k,
    decreases k,
{
    if k > 0 {
        lemma_slot_record_range(recs, b, k - 1);
    }
}

proof fn lemma_cores_before_bound(recs: Seq<CoreRecord>, k: int)
    ensures
        cores_before(recs, k) <= (if k < 0 {
            0
        } else {
            k
        }),
    decreases k,
{
    if k > 0 {
        lemma_cores_before_bound(recs, k - 1);
    }
}

/// Raw per-core times of one pass, in 100 ns units. Kernel time includes idle
/// time.
#[derive(Debug, Clone, Copy, Default, PartialEq, Eq, Structural)]
pub struct CoreTimes {
    pub idle: u64,
    pub kernel: u64,
    pub user: u64,
}

/// One logical processor's load over the last interval: `busy` of `total`
/// ticks; both zero when there is no interval yet or no time passed.
#[derive(Debug, Clone, Copy, PartialEq, Eq, Structural)]
pub struct CoreLoad {
    pub index: u32,
    pub physical: u32,
    pub kind: CoreKind,
    pub busy: u64,
    pub total: u64,
}

/// Raw monotonic counters of a process.
#[derive(Debug, Clone, Copy, Default, PartialEq, Eq, Structural)]
pub struct Counters {
    /// Kernel + user time in 100 ns units.
    pub cpu_100ns: u64,
    pub read_bytes: u64,
    pub write_bytes: u64,
}

/// A process's usage over the last interval.
#[derive(Debug, Clone, Copy, PartialEq, Eq, Structural)]
pub struct ProcessDelta {
    pub key: ProcessKey,
    /// First sight of this process: its statics are to be built now.
    pub first_seen: bool,
    /// Whether the deltas cover an interval; false on a first pass, a first
    /// sight, a repeated entry or a zero wall time, when they are zero.
    pub counted: bool,
    pub cpu_100ns: u64,
    pub disk_read: u64,
    pub disk_write: u64,
}

/// The identity of a process entry.
pub open spec fn entry_key(e: SystemProcessInformation) -> ProcessKey {
    ProcessKey { pid: e.UniqueProcessId as u32, birth: crate::model::ProcessKeyRaw(e.CreateTime as u64) }
}

/// The counters of a process entry.
pub open spec fn entry_counters(e: SystemProcessInformation) -> Counters {
    Counters {
        cpu_100ns: wrapping_add(e.KernelTime as u64, e.UserTime as u64),
        read_bytes: e.ReadTransferCount as u64,
        write_bytes: e.WriteTransferCount as u64,
    }
}

/// Whether an earlier entry of the pass has the same identity.
pub open spec fn repeated(es: Seq<SystemProcessInformation>, i: int) -> bool {
    exists|j: int| 0 <= j < i && #[trigger] entry_key(es[j]) == entry_key(es[i])
}

/// The load of one core given its previous and current times.
pub open spec fn core_load(
    index: int,
    topo: Seq<(u32, CoreKind)>,
    prev: CoreTimes,
    now: CoreTimes,
    have_interval: bool,
) -> CoreLoad {
    let d_total = wrapping_add(wrapping_sub(now.kernel, prev.kernel), wrapping_sub(now.user, prev.user));
    let d_idle = wrapping_sub(now.idle, prev.idle);
    let (physical, kind) = if index < topo.len() {
        topo[index]
    } else {
        (index as u32, CoreKind::Unknown)
    };
    CoreLoad {
        index: index as u32,
        physical,
        kind,
        busy: if !have_interval || d_total == 0 {
            0
        } else if d_total >= d_idle {
            (d_total - d_idle) as u64
        } else {
            0
        },
        total: if !have_interval || d_total == 0 {
            0
        } else {
            d_total
        },
    }
}

/// The usage of entry `i` of a pass, given the counters remembered from the
/// previous pass.
pub open spec fn process_delta(
    es: Seq<SystemProcessInformation>,
    i: int,
    known: Map<u128, Counters>,
    have_interval: bool,
    wall_100ns: u64,
) -> ProcessDelta {
    let e = es[i];
    let code = key_code(entry_key(e)) as u128;
    let seen = known.contains_key(code);
    let counted = have_interval && seen && !repeated(es, i) && wall_100ns != 0;
    let now = entry_counters(e);
    let prev = known[code];
    ProcessDelta {
        key: entry_key(e),
        first_seen: !seen && !repeated(es, i),
        counted,
        cpu_100ns: if counted {
            wrapping_sub(now.cpu_100ns, prev.cpu_100ns)
        } else {
            0
        },
        disk_read: if counted {
            wrapping_sub(now.read_bytes, prev.read_bytes)
        } else {
            0
        },
        disk_write: if counted {
            wrapping_sub(now.write_bytes, prev.write_bytes)
        } else {
            0
        },
    }
}

/// The counters remembered after a pass: for every process in it, those of its
/// last entry; processes absent from the pass are forgotten.
pub open spec fn remembered(es: Seq<SystemProcessInformation>, k: int) -> Map<u128, Counters>
    decreases k,
{
    if k <= 0 {
        Map::empty()
    } else {
        remembered(es, k - 1).insert(key_code(entry_key(es[k - 1])) as u128, entry_counters(es[k - 1]))
    }
}

/// The decisions of the kernel-query probe between its OS calls: per-core and
/// per-process differencing against the previous pass.
#[derive(Debug)]
pub struct WindowsProbe {
    counters: HashMap<u128, Counters>,
    prev_cores: Vec<CoreTimes>,
    /// Physical core index and class for each logical processor, computed once.
    topology: Vec<(u32, CoreKind)>,
    logical_count: u32,
    /// Whether a full pass has completed, so that rates have an interval.
    completed: bool,
    pass: u64,
}

impl WindowsProbe {
    pub closed spec fn counters_view(&self) -> Map<u128, Counters> {
        self.counters@
    }

    pub closed spec fn prev_view(&self) -> Seq<CoreTimes> {
        self.prev_cores@
    }

    pub closed spec fn topology_view(&self) -> Seq<(u32, CoreKind)> {
        self.topology@
    }

    pub closed spec fn has_interval(&self) -> bool {
        self.completed
    }

    pub closed spec fn logical(&self) -> u32 {
        self.logical_count
    }

    pub closed spec fn passes(&self) -> u64 {
        self.pass
    }

    pub closed spec fn wf(&self) -> bool {
        self.prev_cores@.len() == self.logical_count
    }

    /// A probe for `logical_count` processors with the given topology.
    pub fn new(logical_count: u32, topology: Vec<(u32, CoreKind)>) -> (p: Self)
        ensures
            p.wf(),
            p.counters_view() == Map::<u128, Counters>::empty(),
            p.prev_view() == Seq::new(logical_count as nat, |i: int| CoreTimes { idle: 0, kernel: 0, user: 0 }),
            p.topology_view() == topology@,
            p.logical() == logical_count,
            !p.has_interval(),
            p.passes() == 0,
    {
        let mut prev: Vec<CoreTimes> = Vec::new();
        let mut i: u32 = 0;
        while i < logical_count
            invariant
                i <= logical_count,
                prev@ == Seq::new(i as nat, |t: int| CoreTimes { idle: 0, kernel: 0, user: 0 }),
            decreases logical_count - i,
        {
            prev.push(CoreTimes { idle: 0, kernel: 0, user: 0 });
            i = i + 1;
            proof {
                assert(prev@ =~= Seq::new(i as nat, |t: int| CoreTimes { idle: 0, kernel: 0, user: 0 }));
            }
        }
        WindowsProbe {
            counters: HashMap::new(),
            prev_cores: prev,
            topology,
            logical_count,
            completed: false,
            pass: 0,
        }
    }

    /// What this probe can measure: per-process CPU and disk, and core kinds
    /// when the processor is hybrid.
    pub fn capabilities(&self) -> (c: Capabilities)
        ensures
            c == (Capabilities {
                per_process_cpu: true,
                per_process_disk: true,
                hybrid_core_kinds: exists|i: int| 0 <= i < self.topology_view().len() && #[trigger] self.topology_view()[i].1 != CoreKind::Unknown,
                ..no_capabilities()
            }),
    {
        let mut hybrid = false;
        let mut i: usize = 0;
        while i < self.topology.len()
            invariant
                i <= self.topology@.len(),
                hybrid == exists|t: int| 0 <= t < i && #[trigger] self.topology@[t].1 != CoreKind::Unknown,
            decreases self.topology@.len() - i,
        {
            if self.topology[i].1 != CoreKind::Unknown {
                hybrid = true;
            }
            i = i + 1;
        }
        Capabilities {
            per_process_cpu: true,
            per_process_disk: true,
            per_process_network: false,
            per_process_gpu: false,
            per_process_power: false,
            core_frequency: false,
            package_power: false,
            thermals: false,
            hybrid_core_kinds: hybrid,
        }
    }

    /// Difference the per-core times of a pass against the previous one. At
    /// most `logical_count` cores are read.
    pub fn sample_cores(&mut self, now: &[CoreTimes]) -> (loads: Vec<CoreLoad>)
        requires
            old(self).wf(),
        ensures
            final(self).wf(),
            loads@.len() == (if now@.len() < old(self).logical() {
                now@.len() as int
            } else {
                old(self).logical() as int
            }),
            forall|i: int|
                0 <= i < loads@.len() ==> #[trigger] loads@[i] == core_load(
                    i,
                    old(self).topology_view(),
                    old(self).prev_view()[i],
                    now@[i],
                    old(self).has_interval(),
                ),
            final(self).prev_view() == now@.take(loads@.len() as int) + old(self).prev_view().skip(
                loads@.len() as int,
            ),
            final(self).counters_view() == old(self).counters_view(),
            final(self).topology_view() == old(self).topology_view(),
            final(self).logical() == old(self).logical(),
            final(self).has_interval() == old(self).has_interval(),
            final(self).passes() == old(self).passes(),
    {
        let n = self.logical_count as usize;
        let count = if now.len() < n {
            now.len()
        } else {
            n
        };
        let ghost prev0 = self.prev_cores@;
        let ghost s0 = *self;
        let mut loads: Vec<CoreLoad> = Vec::new();
        let mut i: usize = 0;
        while i < count
            invariant
                n == self.logical_count,
                self.topology@ == s0.topology@,
                self.counters@ == s0.counters@,
                self.completed == s0.completed,
                self.pass == s0.pass,
                self.logical_count == s0.logical_count,
                count <= n,
                count <= now@.len(),
                self.prev_cores@.len() == n,
                prev0.len() == n,
                i <= count,
                loads@.len() == i,
                forall|t: int|
                    0 <= t < i ==> #[trigger] loads@[t] == core_load(
                        t,
                        self.topology@,
                        prev0[t],
                        now@[t],
                        self.completed,
                    ),
                forall|t: int| 0 <= t < n ==> #[trigger] self.prev_cores@[t] == (if t < i {
                    now@[t]
                } else {
                    prev0[t]
                }),
            decreases count - i,
        {
            let c = now[i];
            let prev = self.prev_cores[i];
            self.prev_cores.set(i, c);
            let d_total = c.kernel.wrapping_sub(prev.kernel).wrapping_add(c.user.wrapping_sub(prev.user));
            let d_idle = c.idle.wrapping_sub(prev.idle);
            let (busy, total) = if !self.completed || d_total == 0 {
                (0u64, 0u64)
            } else {
                (d_total.saturating_sub(d_idle), d_total)
            };
            let (physical, kind) = if i < self.topology.len() {
                self.topology[i]
            } else {
                (i as u32, CoreKind::Unknown)
            };
            loads.push(CoreLoad { index: i as u32, physical, kind, busy, total });
            i = i + 1;
        }
        proof {
            assert(self.prev_cores@ =~= now@.take(count as int) + prev0.skip(count as int));
        }
        loads
    }

    /// Difference the process entries of a pass against the previous pass, and
    /// remember this pass's counters; processes absent from it are forgotten.
    pub fn sample_processes(&mut self, es: &[SystemProcessInformation], wall_100ns: u64) -> (out: Vec<ProcessDelta>)
        requires
            old(self).wf(),
        ensures
            final(self).wf(),
            out@.len() == es@.len(),
            forall|i: int|
                0 <= i < es@.len() ==> #[trigger] out@[i] == process_delta(
                    es@,
                    i,
                    old(self).counters_view(),
                    old(self).has_interval(),
                    wall_100ns,
                ),
            final(self).counters_view() == remembered(es@, es@.len() as int),
            final(self).passes() == wrapping_add(old(self).passes(), 1),
            final(self).prev_view() == old(self).prev_view(),
            final(self).topology_view() == old(self).topology_view(),
            final(self).logical() == old(self).logical(),
            final(self).has_interval() == old(self).has_interval(),
    {
        self.pass = self.pass.wrapping_add(1);
        let mut fresh: HashMap<u128, Counters> = HashMap::new();
        let mut out: Vec<ProcessDelta> = Vec::new();
        let n = es.len();
        let mut i: usize = 0;
        proof {
            assert(fresh@ =~= remembered(es@, 0));
        }
        while i < n
            invariant
                n == es@.len(),
                i <= n,
                out@.len() == i,
                fresh@ == remembered(es@, i as int),
                forall|t: int|
                    0 <= t < i ==> #[trigger] out@[t] == process_delta(
                        es@,
                        t,
                        self.counters@,
                        self.completed,
                        wall_100ns,
                    ),
            decreases n - i,
        {
            let e = &es[i];
            let key = ProcessKey::new(e.UniqueProcessId as u32, e.CreateTime as u64);
            let code = key_code_exec(key);
            let now = Counters {
                cpu_100ns: (e.KernelTime as u64).wrapping_add(e.UserTime as u64),
                read_bytes: e.ReadTransferCount as u64,
                write_bytes: e.WriteTransferCount as u64,
            };
            proof {
                assert(key == entry_key(es@[i as int]));
                lemma_remembered_keys(es@, i as int, code);
            }
            let repeat = fresh.contains_key(&code);
            let (known, prev) = match self.counters.get(&code) {
                Some(c) => (true, *c),
                None => (false, Counters { cpu_100ns: 0, read_bytes: 0, write_bytes: 0 }),
            };
            let counted = self.completed && known && !repeat && wall_100ns != 0;
            let d = if counted {
                ProcessDelta {
                    key,
                    first_seen: false,
                    counted: true,
                    cpu_100ns: now.cpu_100ns.wrapping_sub(prev.cpu_100ns),
                    disk_read: now.read_bytes.wrapping_sub(prev.read_bytes),
                    disk_write: now.write_bytes.wrapping_sub(prev.write_bytes),
                }
            } else {
                ProcessDelta {
                    key,
                    first_seen: !known && !repeat,
                    counted: false,
                    cpu_100ns: 0,
                    disk_read: 0,
                    disk_write: 0,
                }
            };
            proof {
                assert(repeat == repeated(es@, i as int));
            }
            out.push(d);
            fresh.insert(code, now);
            i = i + 1;
        }
        self.counters = fresh;
        out
    }

    /// Record that a full pass completed, so that the next one has an interval.
    pub fn finish_pass(&mut self)
        ensures
            final(self).has_interval(),
            final(self).counters_view() == old(self).counters_view(),
            final(self).prev_view() == old(self).prev_view(),
            final(self).topology_view() == old(self).topology_view(),
            final(self).logical() == old(self).logical(),
            final(self).passes() == old(self).passes(),
            old(self).wf() ==> final(self).wf(),
    {
        self.completed = true;
    }
}

/// A code is remembered after the first `k` entries exactly when one of them
/// has that identity.
proof fn lemma_remembered_keys(es: Seq<SystemProcessInformation>, k: int, code: u128)
    requires
        0 <= k < es.len(),
        code == key_code(entry_key(es[k])),
    ensures
        remembered(es, k).contains_key(code) == repeated(es, k),
    decreases k,
{
    if k > 0 {
        let c = key_code(entry_key(es[k - 1])) as u128;
        if c == code {
            lemma_key_code_injective(entry_key(es[k - 1]), entry_key(es[k]));
            assert(entry_key(es[k - 1]) == entry_key(es[k]));
        }
        lemma_remembered_upto(es, k - 1, code, entry_key(es[k]));
        if repeated(es, k) {
            let j = choose|j: int| 0 <= j < k && #[trigger] entry_key(es[j]) == entry_key(es[k]);
            if j < k - 1 {
                assert(exists|t: int| 0 <= t < k - 1 && #[trigger] entry_key(es[t]) == entry_key(es[k]));
            }
        }
    }
}

/// The same, for any identity and a prefix of any length.
proof fn lemma_remembered_upto(es: Seq<SystemProcessInformation>, k: int, code: u128, key: ProcessKey)
    requires
        0 <= k <= es.len(),
        code == key_code(key),
    ensures
        remembered(es, k).contains_key(code) == exists|j: int| 0 <= j < k && #[trigger] entry_key(es[j]) == key,
    decreases k,
{
    if k > 0 {
        lemma_remembered_upto(es, k - 1, code, key);
        lemma_key_code_injective(entry_key(es[k - 1]), key);
        if exists|j: int| 0 <= j < k && #[trigger] entry_key(es[j]) == key {
            let j = choose|j: int| 0 <= j < k && #[trigger] entry_key(es[j]) == key;
            if j < k - 1 {
                assert(exists|t: int| 0 <= t < k - 1 && #[trigger] entry_key(es[t]) == key);
            }
        }
        if remembered(es, k - 1).contains_key(code) {
            let j = choose|j: int| 0 <= j < k - 1 && #[trigger] entry_key(es[j]) == key;
            assert(0 <= j < k && entry_key(es[j]) == key);
        }
    }
}

/// The counters remembered after a pass, for a process whose last entry in it
/// is `es[j]`, are that entry's.
proof fn lemma_remembered_last(es: Seq<SystemProcessInformation>, k: int, j: int)
    requires
        0 <= j < k <= es.len(),
        forall|t: int| j < t < k ==> #[trigger] entry_key(es[t]) != entry_key(es[j]),
    ensures
        remembered(es, k).contains_key(key_code(entry_key(es[j])) as u128),
        remembered(es, k)[key_code(entry_key(es[j])) as u128] == entry_counters(es[j]),
    decreases k,
{
    if k - 1 > j {
        lemma_remembered_last(es, k - 1, j);
        let a = entry_key(es[k - 1]);
        let b = entry_key(es[j]);
        lemma_key_code_injective(a, b);
        assert(key_code(a) != key_code(b));
        lemma_key_code_range(a);
        lemma_key_code_range(b);
        assert(key_code(a) as u128 != key_code(b) as u128);
    }
}

proof fn lemma_key_code_range(k: ProcessKey)
    ensures
        0 <= key_code(k) < 0x1_0000_0000_0000_0000_0000_0000,
{
    assert((k.pid as int) * 0x1_0000_0000_0000_0000 + (k.birth.0 as int) < 0x1_0000_0000_0000_0000_0000_0000)
        by (nonlinear_arith)
        requires
            k.pid < 0x1_0000_0000,
            k.birth.0 < 0x1_0000_0000_0000_0000,
    ;
    assert(0 <= (k.pid as int) * 0x1_0000_0000_0000_0000) by (nonlinear_arith)
        requires
            k.pid >= 0,
    ;
}

/// Between two passes, a process listed once in the second pass and last seen
/// at `prev[j]` in the first is charged exactly the growth of its own
/// counters: CPU time (kernel plus user), bytes read and bytes written each
/// difference their own counter, wrapping as the counters do.
pub proof fn lemma_counted_deltas_difference_each_counter(
    prev: Seq<SystemProcessInformation>,
    es: Seq<SystemProcessInformation>,
    i: int,
    j: int,
    wall_100ns: u64,
)
    requires
        0 <= i < es.len(),
        0 <= j < prev.len(),
        entry_key(prev[j]) == entry_key(es[i]),
        forall|t: int| j < t < prev.len() ==> #[trigger] entry_key(prev[t]) != entry_key(prev[j]),
        forall|t: int| 0 <= t < i ==> #[trigger] entry_key(es[t]) != entry_key(es[i]),
        wall_100ns != 0,
    ensures
        ({
            let d = process_delta(es, i, remembered(prev, prev.len() as int), true, wall_100ns);
            &&& d.counted
            &&& d.key == entry_key(es[i])
            &&& d.disk_write == wrapping_sub(es[i].WriteTransferCount as u64, prev[j].WriteTransferCount as u64)
            &&& d.disk_read == wrapping_sub(es[i].ReadTransferCount as u64, prev[j].ReadTransferCount as u64)
            &&& d.cpu_100ns == wrapping_sub(
                wrapping_add(es[i].KernelTime as u64, es[i].UserTime as u64),
                wrapping_add(prev[j].KernelTime as u64, prev[j].UserTime as u64),
            )
        }),
{
    lemma_remembered_last(prev, prev.len() as int, j);
    assert(!repeated(es, i));
}

/// A process that the previous pass did not list is seen for the first time
/// (at its first entry of the pass) and charged nothing; so is every process
/// on a pass with no previous one, and every repeated entry.
pub proof fn lemma_uncounted_deltas_are_zero(
    prev: Seq<SystemProcessInformation>,
    es: Seq<SystemProcessInformation>,
    i: int,
    have_interval: bool,
    wall_100ns: u64,
)
    requires
        0 <= i < es.len(),
        !have_interval || wall_100ns == 0 || repeated(es, i) || forall|t: int|
            0 <= t < prev.len() ==> #[trigger] entry_key(prev[t]) != entry_key(es[i]),
    ensures
        ({
            let d = process_delta(es, i, remembered(prev, prev.len() as int), have_interval, wall_100ns);
            &&& !d.counted
            &&& d.cpu_100ns == 0 && d.disk_read == 0 && d.disk_write == 0
            &&& d.first_seen == (!repeated(es, i) && forall|t: int|
                0 <= t < prev.len() ==> #[trigger] entry_key(prev[t]) != entry_key(es[i]))
        }),
{
    let code = key_code(entry_key(es[i]));
    lemma_key_code_range(entry_key(es[i]));
    lemma_remembered_upto(prev, prev.len() as int, code as u128, entry_key(es[i]));
}

} // verus!
