//! Decisions of the process-management system calls.
//!
//! Each call is split in two: the kernel around this module reads the state it
//! needs (the clock, the current task's children, its page table) and hands
//! it in as plain values; the functions here decide what the call returns and
//! what the kernel has to do next.
use vstd::prelude::*;

verus! {

/// Microseconds in a second.
pub const USEC_PER_SEC: usize = 1_000_000;

/// Size of a virtual page in bytes.
pub const PAGE_SIZE: u64 = 4096;

/// Number of system calls whose use a task keeps count of.
pub const MAX_SYSCALL_NUM: usize = 500;

/// Size of the Sv39 virtual address space: user addresses are cut to its width.
pub const VA_SPACE: u64 = 0x80_0000_0000;

/// Mapping permission bits, as the page-table layer numbers them.
pub const PERM_R: u8 = 2;
pub const PERM_W: u8 = 4;
pub const PERM_X: u8 = 8;
pub const PERM_U: u8 = 16;

/// A point in time split into seconds and microseconds.
#[derive(Debug)]
pub struct TimeVal {
    pub sec: usize,
    pub usec: usize,
}

/// Scheduling state of a task.
#[derive(Clone, Copy, Debug, PartialEq, Eq, Structural)]
pub enum TaskStatus {
    UnInit,
    Ready,
    Running,
    Exited,
}

/// What a task reports about itself.
#[derive(Clone, Copy)]
pub struct TaskInfo {
    pub status: TaskStatus,
    pub syscall_times: [u32; MAX_SYSCALL_NUM],
    pub time: usize,
}

/// What the kernel knows of one child of the current task.
#[derive(Clone, Copy, Debug, PartialEq, Eq, Structural)]
pub struct ChildInfo {
    pub pid: usize,
    pub zombie: bool,
}

/// A range of virtual pages to map, `[start_vpn, end_vpn)`, with its permission bits.
#[derive(Clone, Copy, Debug, PartialEq, Eq, Structural)]
pub struct MapArea {
    pub start_vpn: u64,
    pub end_vpn: u64,
    pub perm: u8,
}

/// A user address cut down to the width of the virtual address space.
pub open spec fn va_of(v: usize) -> int {
    v as int % VA_SPACE as int
}

/// First page at or above `v`.
pub open spec fn page_ceil(v: int) -> int {
    if v == 0 {
        0
    } else {
        (v - 1 + PAGE_SIZE as int) / PAGE_SIZE as int
    }
}

/// Whether `pid` selects `c`: -1 selects every child.
pub open spec fn selects(pid: isize, c: ChildInfo) -> bool {
    pid == -1 || pid as usize == c.pid
}

/// Gives up the processor; the call itself always succeeds.
pub fn sys_yield() -> (r: isize)
    ensures
        r == 0,
{
    0
}

/// The process id of the current task, as the call returns it.
pub fn sys_getpid(pid: usize) -> (r: isize)
    ensures
        r == pid as isize,
{
    #[verifier::truncate] (pid as isize)
}

/// What fork returns to the parent, given the child's process id.
/// (The child's own copy of the call returns 0.)
pub fn sys_fork(new_pid: usize) -> (r: isize)
    ensures
        r == new_pid as isize,
{
    #[verifier::truncate] (new_pid as isize)
}

/// Result of exec: 0 once the program was found and loaded, else -1.
pub fn sys_exec(app_found: bool) -> (r: isize)
    ensures
        r == (if app_found { 0isize } else { -1isize }),
{
    if app_found {
        0
    } else {
        -1
    }
}

/// Result of spawn: the new process id if the program was found, else -1.
pub fn sys_spawn(spawned_pid: Option<isize>) -> (r: isize)
    ensures
        r == (match spawned_pid {
            Some(p) => p,
            None => -1isize,
        }),
{
    match spawned_pid {
        Some(p) => p,
        None => -1,
    }
}

/// Decides waitpid over the children of the current task.
///
/// Returns -1 if no child is selected by `pid`; otherwise, the position and the
/// process id of the first selected child that has exited, which the kernel
/// then reaps; otherwise -2 (a selected child is still running).
pub fn sys_waitpid(pid: isize, children: &Vec<ChildInfo>) -> (r: (isize, Option<usize>))
    ensures
        !(exists|i: int| 0 <= i < children@.len() && selects(pid, #[trigger] children@[i]))
            ==> r == (-1isize, None::<usize>),
        (exists|i: int| 0 <= i < children@.len() && selects(pid, #[trigger] children@[i]))
            ==> match r.1 {
            Some(k) => {
                &&& k < children@.len()
                &&& selects(pid, children@[k as int])
                &&& children@[k as int].zombie
                &&& r.0 == children@[k as int].pid as isize
                &&& forall|j: int|
                    0 <= j < k ==> !(selects(pid, #[trigger] children@[j]) && children@[j].zombie)
            },
            None => {
                &&& r.0 == -2
                &&& forall|j: int|
                    0 <= j < children@.len() ==> !(selects(pid, #[trigger] children@[j])
                        && children@[j].zombie)
            },
        },
{
    let mut any = false;
    let mut i: usize = 0;
    while i < children.len()
        invariant
            i <= children@.len(),
            any <==> exists|j: int| 0 <= j < i && selects(pid, #[trigger] children@[j]),
        decreases children@.len() - i,
    {
        let hit = pid == -1 || #[verifier::truncate] (pid as usize) == children[i].pid;
        assert(hit == selects(pid, children@[i as int]));
        if hit {
            any = true;
        }
        i = i + 1;
    }
    if !any {
        return (-1, None);
    }
    let mut k: usize = 0;
    while k < children.len()
        invariant
            k <= children@.len(),
            forall|j: int|
                0 <= j < k ==> !(selects(pid, #[trigger] children@[j]) && children@[j].zombie),
        decreases children@.len() - k,
    {
        let c = children[k];
        if c.zombie && (pid == -1 || #[verifier::truncate] (pid as usize) == c.pid) {
            return (#[verifier::truncate] (c.pid as isize), Some(k));
        }
        k = k + 1;
    }
    (-2, None)
}

/// Fills in the time of day from a clock reading in microseconds; always succeeds.
pub fn sys_get_time(ts: &mut TimeVal, us: usize) -> (r: isize)
    ensures
        r == 0,
        final(ts).sec == us / USEC_PER_SEC,
        final(ts).usec == us % USEC_PER_SEC,
{
    ts.sec = us / USEC_PER_SEC;
    ts.usec = us % USEC_PER_SEC;
    0
}

/// Task information is not reported: the call leaves `ti` as it is and returns 0.
pub fn sys_task_info(ti: &mut TaskInfo) -> (r: isize)
    ensures
        r == 0,
        *final(ti) == *old(ti),
{
    0
}

/// Priorities are not supported: always -1.
pub fn sys_set_priority(_prio: isize) -> (r: isize)
    ensures
        r == -1,
{
    -1
}

fn vpn_mapped(mapped: &Vec<u64>, vpn: u64) -> (r: bool)
    ensures
        r == mapped@.contains(vpn),
{
    let mut i: usize = 0;
    while i < mapped.len()
        invariant
            i <= mapped@.len(),
            forall|j: int| 0 <= j < i ==> mapped@[j] != vpn,
        decreases mapped@.len() - i,
    {
        if mapped[i] == vpn {
            return true;
        }
        i = i + 1;
    }
    false
}

/// Page range that `[start, start + len)` covers, once both ends are cut to
/// the virtual address width.
pub open spec fn page_range(start: usize, len: usize) -> (int, int) {
    (va_of(start) / PAGE_SIZE as int, page_ceil(va_of((start + len) as usize)))
}

fn first_mapped_in(mapped: &Vec<u64>, lo: u64, hi: u64) -> (r: bool)
    ensures
        r == exists|v: u64| lo <= v < hi && mapped@.contains(v),
{
    let mut vpn: u64 = lo;
    while vpn < hi
        invariant
            lo <= vpn,
            forall|v: u64| lo <= v < vpn ==> !mapped@.contains(v),
        decreases hi - vpn,
    {
        if vpn_mapped(mapped, vpn) {
            assert(lo <= vpn < hi && mapped@.contains(vpn));
            return true;
        }
        vpn = vpn + 1;
    }
    false
}

/// Decides mmap of `[start, start + len)` with permission bits `port`
/// (bit 0 read, bit 1 write, bit 2 execute), given the pages already mapped.
///
/// Fails with -1 when `start` is not page aligned, when `port` has bits other
/// than the low three or none of them, when `start + len` overflows, or when a
/// page of the range is mapped already. Otherwise returns 0 with the area to map,
/// user-accessible.
pub fn sys_mmap(start: usize, len: usize, port: usize, mapped: &Vec<u64>) -> (r: (
    isize,
    Option<MapArea>,
))
    ensures
        ({
            let (lo, hi) = page_range(start, len);
            let ok = va_of(start) % PAGE_SIZE as int == 0 && port & !7usize == 0 && port & 7usize
                != 0 && start as int + len as int <= usize::MAX && !(exists|v: u64|
                lo <= v < hi && mapped@.contains(v));
            if ok {
                r == (0isize, Some(
                    MapArea {
                        start_vpn: lo as u64,
                        end_vpn: hi as u64,
                        perm: (((port & 7usize) as u8) * 2 + PERM_U) as u8,
                    },
                ))
            } else {
                r == (-1isize, None::<MapArea>)
            }
        }),
{
    let start_va = start as u64 % VA_SPACE;
    if start_va % PAGE_SIZE != 0 || port & !7usize != 0 || port & 7usize == 0 {
        return (-1, None);
    }
    if len > usize::MAX - start {
        return (-1, None);
    }
    let end_va = (start + len) as u64 % VA_SPACE;
    let lo = start_va / PAGE_SIZE;
    let hi = if end_va == 0 {
        0
    } else {
        (end_va - 1 + PAGE_SIZE) / PAGE_SIZE
    };
    if first_mapped_in(mapped, lo, hi) {
        return (-1, None);
    }
    let bits = (port & 7usize) as u8;
    assert(bits < 8) by (bit_vector)
        requires
            bits == (port & 7usize) as u8,
    ;
    (0, Some(MapArea { start_vpn: lo, end_vpn: hi, perm: bits * 2 + PERM_U }))
}

/// Decides munmap of `[start, start + len)`, given the pages that are mapped.
///
/// Fails with -1 when `start` is not page aligned, when `start + len`
/// overflows, or when a page of the range is not mapped; otherwise returns 0
/// with the page range to unmap.
pub fn sys_munmap(start: usize, len: usize, mapped: &Vec<u64>) -> (r: (isize, Option<(u64, u64)>))
    ensures
        ({
            let (lo, hi) = page_range(start, len);
            let ok = va_of(start) % PAGE_SIZE as int == 0 && start as int + len as int
                <= usize::MAX && (forall|v: u64| lo <= v < hi ==> mapped@.contains(v));
            if ok {
                r == (0isize, Some((lo as u64, hi as u64)))
            } else {
                r == (-1isize, None::<(u64, u64)>)
            }
        }),
{
    let start_va = start as u64 % VA_SPACE;
    if start_va % PAGE_SIZE != 0 || len > usize::MAX - start {
        return (-1, None);
    }
    let end_va = (start + len) as u64 % VA_SPACE;
    let lo = start_va / PAGE_SIZE;
    let hi = if end_va == 0 {
        0
    } else {
        (end_va - 1 + PAGE_SIZE) / PAGE_SIZE
    };
    assert(lo as int == page_range(start, len).0 && hi as int == page_range(start, len).1);
    let mut vpn: u64 = lo;
    while vpn < hi
        invariant
            lo <= vpn,
            lo as int == page_range(start, len).0,
            hi as int == page_range(start, len).1,
            start as int + len as int <= usize::MAX,
            va_of(start) % PAGE_SIZE as int == 0,
            forall|v: u64| lo <= v < vpn ==> mapped@.contains(v),
        decreases hi - vpn,
    {
        if !vpn_mapped(mapped, vpn) {
            assert(lo <= vpn < hi && !mapped@.contains(vpn));
            assert(!(forall|v: u64|
                page_range(start, len).0 <= v < page_range(start, len).1 ==> mapped@.contains(v)));
            return (-1, None);
        }
        vpn = vpn + 1;
    }
    (0, Some((lo, hi)))
}

} // verus!
