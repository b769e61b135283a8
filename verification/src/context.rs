//! The live kernel context given to the model: kernel release, uptime,
//! online CPUs, memory use and the calling task, formatted from values the
//! kernel reports.

use vstd::prelude::*;

use crate::net::{append_bytes, append_str, decimal, format_usize, lit};

verus! {

/// Memory statistics as the kernel's `si_meminfo` reports them, in units of `mem_unit` bytes.
pub struct MemInfo {
    pub totalram: usize,
    pub freeram: usize,
    pub sharedram: usize,
    pub bufferram: usize,
    pub totalswap: usize,
    pub freeswap: usize,
    pub mem_unit: u32,
}

/// The bytes of `s` before its first NUL (all of `s` if it has none).
pub open spec fn until_nul(s: Seq<u8>) -> Seq<u8>
    decreases s.len(),
{
    if s.len() == 0 || s[0] == 0 {
        seq![]
    } else {
        seq![s[0]] + until_nul(s.subrange(1, s.len() as int))
    }
}

/// Appends the bytes of a NUL-terminated name such as a task's `comm`.
pub fn append_until_nul(buf: &mut Vec<u8>, s: &[u8])
    ensures
        final(buf)@ == old(buf)@ + until_nul(s@),
{
    let ghost start = buf@;
    let n = s.len();
    let mut i: usize = 0;
    assert(s@.subrange(0, n as int) == s@);
    while i < n && s[i] != 0
        invariant
            n == s@.len(),
            i <= n,
            buf@ + until_nul(s@.subrange(i as int, n as int)) == start + until_nul(s@),
        decreases n - i,
    {
        let ghost rest = s@.subrange(i as int, n as int);
        assert(rest.subrange(1, rest.len() as int) == s@.subrange(i + 1, n as int));
        buf.push(s[i]);
        i += 1;
    }
    assert(until_nul(s@.subrange(i as int, n as int)) == Seq::<u8>::empty());
}

/// The uptime text for `ns` nanoseconds since boot: `Nd Hh Mm Ss`, the days
/// only when there is at least one.
pub open spec fn uptime_text(ns: u64) -> Seq<u8> {
    let total = ((ns / 1_000_000_000) as usize) as int;
    let days = total / 86400;
    let hours = (total % 86400) / 3600;
    let mins = (total % 3600) / 60;
    let secs = total % 60;
    (if days > 0 { decimal(days as nat) + lit("d ") } else { seq![] }) + decimal(hours as nat) + lit("h ")
        + decimal(mins as nat) + lit("m ") + decimal(secs as nat) + lit("s")
}

/// Appends the uptime for `ns` nanoseconds since boot.
pub fn append_uptime(buf: &mut Vec<u8>, ns: u64)
    ensures
        final(buf)@ == old(buf)@ + uptime_text(ns),
{
    let ghost start = buf@;
    let total_secs = (ns / 1_000_000_000) as usize;
    let days = total_secs / 86400;
    let hours = (total_secs % 86400) / 3600;
    let mins = (total_secs % 3600) / 60;
    let secs = total_secs % 60;
    if days > 0 {
        append_bytes(buf, format_usize(days).as_slice());
        append_str(buf, "d ");
    }
    let ghost mid = buf@;
    append_bytes(buf, format_usize(hours).as_slice());
    append_str(buf, "h ");
    append_bytes(buf, format_usize(mins).as_slice());
    append_str(buf, "m ");
    append_bytes(buf, format_usize(secs).as_slice());
    append_str(buf, "s");
    assert(buf@ == start + uptime_text(ns));
}

/// Bytes as whole mebibytes.
pub open spec fn mib(units: usize, unit: u32) -> int {
    units as int * unit as int / 1048576int
}

/// Memory statistics whose byte counts fit in `usize`, as the memory
/// arithmetic needs.
pub open spec fn mem_info_fits(info: MemInfo) -> bool {
    &&& info.totalram as int * info.mem_unit as int <= usize::MAX
    &&& info.freeram as int * info.mem_unit as int <= usize::MAX
    &&& info.sharedram as int * info.mem_unit as int <= usize::MAX
    &&& info.bufferram as int * info.mem_unit as int <= usize::MAX
    &&& info.totalswap as int * info.mem_unit as int <= usize::MAX
    &&& info.freeswap as int * info.mem_unit as int <= usize::MAX
}

/// `a - b`, or 0 when `b > a`.
pub open spec fn sat_sub(a: int, b: int) -> int {
    if a >= b { a - b } else { 0 }
}

/// Mebibytes of `units` memory units of `unit` bytes each (the byte count must fit in `usize`).
pub fn mib_exec(units: usize, unit: u32) -> (r: usize)
    requires
        units as int * unit as int <= usize::MAX,
    ensures
        r == mib(units, unit),
{
    let bytes = units as usize * unit as usize;
    bytes / (1024 * 1024)
}

/// The memory line of the kernel context.
pub open spec fn memory_line(info: MemInfo) -> Seq<u8> {
    let total = info.totalram as int * info.mem_unit as int;
    let free = info.freeram as int * info.mem_unit as int;
    let used = sat_sub(total, free);
    lit("Memory: ") + decimal((used / 1048576int) as nat) + lit(" MB used / ") + decimal(
        (total / 1048576int) as nat,
    ) + lit(" MB total\n")
}

/// Appends the memory line of the kernel context.
pub fn append_memory_info(ctx: &mut Vec<u8>, info: &MemInfo)
    requires
        mem_info_fits(*info),
    ensures
        final(ctx)@ == old(ctx)@ + memory_line(*info),
{
    let ghost start = ctx@;
    let unit = info.mem_unit as usize;
    let total_bytes = info.totalram as usize * unit;
    let free_bytes = info.freeram as usize * unit;
    let used_bytes = total_bytes.saturating_sub(free_bytes);
    append_str(ctx, "Memory: ");
    let used_mb = used_bytes / (1024 * 1024);
    let total_mb = total_bytes / (1024 * 1024);
    append_bytes(ctx, format_usize(used_mb).as_slice());
    append_str(ctx, " MB used / ");
    append_bytes(ctx, format_usize(total_mb).as_slice());
    append_str(ctx, " MB total\n");
    assert(ctx@ == start + memory_line(*info));
}

/// The caller line of the kernel context: `pid=N (comm)`.
pub open spec fn task_info_text(pid: i32, comm: Seq<u8>) -> Seq<u8> {
    lit("pid=") + decimal((pid as usize) as nat) + lit(" (") + until_nul(comm) + lit(")")
}

/// Appends the calling task's pid and name.
pub fn append_current_task_info(buf: &mut Vec<u8>, pid: i32, comm: &[u8])
    ensures
        final(buf)@ == old(buf)@ + task_info_text(pid, comm@),
{
    let ghost start = buf@;
    append_str(buf, "pid=");
    append_bytes(buf, format_usize(pid as usize).as_slice());
    append_str(buf, " (");
    append_until_nul(buf, comm);
    append_str(buf, ")");
    assert(buf@ == start + task_info_text(pid, comm@));
}

/// The kernel version line: `Linux <release> x86_64`.
pub open spec fn kernel_version_text(release: Seq<u8>) -> Seq<u8> {
    lit("Linux ") + release + lit(" x86_64")
}

/// The live kernel context block given to the model.
pub open spec fn kernel_context_text(
    release: Seq<u8>,
    uptime_ns: u64,
    cpus: usize,
    info: MemInfo,
    pid: i32,
    comm: Seq<u8>,
) -> Seq<u8> {
    lit("=== LIVE KERNEL STATE ===\n") + lit("Kernel: ") + kernel_version_text(release) + lit("\n")
        + lit("Uptime: ") + uptime_text(uptime_ns) + lit("\n") + lit("CPUs: ") + decimal(
        cpus as nat,
    ) + lit(" online\n") + memory_line(info) + lit("Caller: ") + task_info_text(pid, comm) + lit(
        "\n",
    ) + lit("=========================\n\n")
}

/// Formats the live kernel context from the values the kernel reports:
/// its release string, nanoseconds since boot, online CPUs, memory
/// statistics, and the calling task's pid and name.
pub fn gather_kernel_context(
    release: &[u8],
    uptime_ns: u64,
    cpus: usize,
    info: &MemInfo,
    pid: i32,
    comm: &[u8],
) -> (ctx: Vec<u8>)
    requires
        mem_info_fits(*info),
    ensures
        ctx@ == kernel_context_text(release@, uptime_ns, cpus, *info, pid, comm@),
{
    let mut ctx: Vec<u8> = Vec::new();
    append_str(&mut ctx, "=== LIVE KERNEL STATE ===\n");
    append_str(&mut ctx, "Kernel: ");
    append_str(&mut ctx, "Linux ");
    append_bytes(&mut ctx, release);
    append_str(&mut ctx, " x86_64");
    append_str(&mut ctx, "\n");
    append_str(&mut ctx, "Uptime: ");
    append_uptime(&mut ctx, uptime_ns);
    append_str(&mut ctx, "\n");
    append_str(&mut ctx, "CPUs: ");
    append_bytes(&mut ctx, format_usize(cpus).as_slice());
    append_str(&mut ctx, " online\n");
    append_memory_info(&mut ctx, info);
    append_str(&mut ctx, "Caller: ");
    append_current_task_info(&mut ctx, pid, comm);
    append_str(&mut ctx, "\n");
    append_str(&mut ctx, "=========================\n\n");
    assert(ctx@ == kernel_context_text(release@, uptime_ns, cpus, *info, pid, comm@));
    ctx
}

} // verus!
