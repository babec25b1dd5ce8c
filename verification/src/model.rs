//! Plain value types shared by the sampling side and the view side: units,
//! process identity, memory state and per-process facts that never change.
use vstd::prelude::*;

verus! {

/// A quantity of bytes. Always exact; never pre-scaled to KB/MB.
#[derive(Debug, Clone, Copy, PartialEq, Eq, Structural, PartialOrd, Ord, Hash, Default)]
pub struct Bytes(pub u64);

impl Bytes {
    /// `kib` kibibytes. The product must fit in 64 bits.
    pub fn from_kib(kib: u64) -> (r: Bytes)
        requires
            kib * 1024 <= u64::MAX,
        ensures
            r.0 == kib * 1024,
    {
        Bytes(kib * 1024)
    }

    pub fn get(self) -> (r: u64)
        ensures
            r == self.0,
    {
        self.0
    }

    /// Saturating difference, for deltas between samples where a counter may reset.
    pub fn saturating_sub(self, other: Bytes) -> (r: Bytes)
        ensures
            r.0 == (if self.0 >= other.0 { self.0 - other.0 } else { 0 }),
    {
        if self.0 >= other.0 {
            Bytes(self.0 - other.0)
        } else {
            Bytes(0)
        }
    }
}

/// A frequency in hertz. Stored in Hz to avoid rounding at the MHz boundary.
#[derive(Debug, Clone, Copy, PartialEq, Eq, Structural, PartialOrd, Ord, Hash, Default)]
pub struct Hertz(pub u64);

impl Hertz {
    /// `mhz` megahertz. The product must fit in 64 bits.
    pub fn from_mhz(mhz: u64) -> (r: Hertz)
        requires
            mhz * 1_000_000 <= u64::MAX,
        ensures
            r.0 == mhz * 1_000_000,
    {
        Hertz(mhz * 1_000_000)
    }
}

/// Monotonic sample counter. Increments once per full sampling pass, wrapping at
/// the top of the range.
#[derive(Debug, Clone, Copy, PartialEq, Eq, Structural, PartialOrd, Ord, Hash, Default)]
pub struct Tick(pub u64);

impl Tick {
    pub fn next(self) -> (r: Tick)
        ensures
            r.0 == (if self.0 == u64::MAX { 0 } else { self.0 + 1 }),
    {
        Tick(self.0.wrapping_add(1))
    }
}

/// Opaque, platform-defined process birth stamp. Compare only for equality.
#[derive(Debug, Clone, Copy, PartialEq, Eq, Structural, PartialOrd, Ord, Hash, Default)]
pub struct ProcessKeyRaw(pub u64);

/// A process identity that remains correct across PID reuse: the OS process id
/// together with a creation stamp.
#[derive(Debug, Clone, Copy, PartialEq, Eq, Structural, PartialOrd, Ord, Hash)]
pub struct ProcessKey {
    /// The OS process id. Display this; do not key on it alone.
    pub pid: u32,
    /// Platform-defined creation stamp that disambiguates PID reuse.
    pub birth: ProcessKeyRaw,
}

impl ProcessKey {
    pub fn new(pid: u32, birth: u64) -> (r: ProcessKey)
        ensures
            r.pid == pid,
            r.birth.0 == birth,
    {
        ProcessKey { pid, birth: ProcessKeyRaw(birth) }
    }

    /// The fixed key of the kernel's idle pseudo-process.
    pub fn idle() -> (r: ProcessKey)
        ensures
            r.pid == 0,
            r.birth.0 == 0,
    {
        ProcessKey::new(0, 0)
    }
}

/// What kind of core a logical processor is on a hybrid processor.
#[derive(Debug, Clone, Copy, PartialEq, Eq, Structural, Hash, Default)]
pub enum CoreKind {
    /// Performance core.
    Performance,
    /// Efficiency core.
    Efficiency,
    /// Homogeneous processor, or class could not be determined.
    #[default]
    Unknown,
}

/// Whole-system memory for one sample.
#[derive(Debug, Clone, Copy, PartialEq, Eq, Structural, Default)]
pub struct MemorySample {
    /// Total physical RAM installed.
    pub total: Bytes,
    /// Physical memory available to new allocations without paging out.
    pub available: Bytes,
    /// Physical memory currently holding cached file data.
    pub cached: Bytes,
    /// Total committed virtual memory.
    pub committed: Bytes,
    /// Commit limit: physical + page/swap file.
    pub commit_limit: Bytes,
    /// Bytes reclaimed by in-memory compression, where supported.
    pub compressed: Option<Bytes>,
    /// Bytes currently paged out to disk.
    pub swap_used: Option<Bytes>,
}

impl MemorySample {
    /// Physical memory in use, derived from `total` and `available`.
    pub fn in_use(&self) -> (r: Bytes)
        ensures
            r.0 == (if self.total.0 >= self.available.0 {
                self.total.0 - self.available.0
            } else {
                0
            }),
    {
        self.total.saturating_sub(self.available)
    }
}

/// Elevation / integrity of a process.
#[derive(Debug, Clone, Copy, PartialEq, Eq, Structural, Hash, Default)]
pub enum Integrity {
    /// Sandboxed.
    Low,
    /// Ordinary user process.
    #[default]
    Medium,
    /// Elevated / administrator.
    High,
    /// SYSTEM, or a kernel-mode owner.
    System,
    /// Could not be determined.
    Unknown,
}

/// Facts that do not change over a process's lifetime.
#[derive(Debug, Clone, PartialEq, Eq)]
pub struct ProcessStatic {
    pub key: ProcessKey,
    /// Parent's identity, absent for a root or when the parent had already exited
    /// when this process was first seen.
    pub parent: Option<ProcessKey>,
    /// Executable file name only.
    pub name: String,
    /// Full path to the image, when readable.
    pub image_path: Option<String>,
    /// Full command line, when readable.
    pub command_line: Option<String>,
    /// Owning user, formatted for display.
    pub user: Option<String>,
    /// Integrity / elevation level.
    pub integrity: Integrity,
    /// Wall-clock start time as a Unix timestamp in milliseconds, for display only.
    pub started_unix_ms: Option<i64>,
}

} // verus!
