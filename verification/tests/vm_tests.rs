use oscore::task::TaskInfo;
use oscore::task::TaskStatus;
use oscore::task::TimeVal;
use oscore::vm::sys_mmap;
use oscore::vm::sys_munmap;
use oscore::vm::sys_sbrk;
use oscore::vm::AddressSpace;
use oscore::vm::PAGE_SIZE;

#[test]
fn mmap_installs_whole_range_with_user_bit() {
    let mut space = AddressSpace::new(0);
    // read|write permission bits; pages 1 and 2 cover [0x1000, 0x3000)
    assert_eq!(sys_mmap(&mut space, 0x1000, 2 * PAGE_SIZE, 3), 0);
    // bits shifted into the r/w positions plus the user bit: 2*3 + 16
    assert_eq!(space.translate(1), Some(22));
    assert_eq!(space.translate(2), Some(22));
    assert_eq!(space.translate(0), None);
    assert_eq!(space.translate(3), None);
}

#[test]
fn mmap_rounds_a_partial_page_up() {
    let mut space = AddressSpace::new(0);
    assert_eq!(sys_mmap(&mut space, 0, PAGE_SIZE + 1, 1), 0);
    assert_eq!(space.translate(0), Some(18));
    assert_eq!(space.translate(1), Some(18));
    assert_eq!(space.translate(2), None);
}

#[test]
fn mmap_of_zero_length_maps_nothing() {
    let mut space = AddressSpace::new(0);
    assert_eq!(sys_mmap(&mut space, 0x1000, 0, 1), 0);
    assert_eq!(space.translate(1), None);
}

#[test]
fn mmap_rejections_leave_the_space_unchanged() {
    let mut space = AddressSpace::new(0);
    assert_eq!(sys_mmap(&mut space, 0x1000, PAGE_SIZE, 3), 0);
    // misaligned start
    assert_eq!(sys_mmap(&mut space, 0x2001, PAGE_SIZE, 3), -1);
    // permission bits outside the low three
    assert_eq!(sys_mmap(&mut space, 0x3000, PAGE_SIZE, 8), -1);
    assert_eq!(sys_mmap(&mut space, 0x3000, PAGE_SIZE, 11), -1);
    // a wholly inaccessible mapping is disallowed
    assert_eq!(sys_mmap(&mut space, 0x3000, PAGE_SIZE, 0), -1);
    // overlap with the existing mapping fails whole
    assert_eq!(sys_mmap(&mut space, 0x1000, 2 * PAGE_SIZE, 1), -1);
    assert_eq!(space.entries.len(), 1);
    assert_eq!(space.translate(1), Some(22));
    assert_eq!(space.translate(2), None);
    assert_eq!(space.translate(3), None);
}

#[test]
fn munmap_validates_the_whole_range_before_removing() {
    let mut space = AddressSpace::new(0);
    assert_eq!(sys_mmap(&mut space, 0x1000, PAGE_SIZE, 3), 0);
    // page 2 is not mapped: the whole call fails and page 1 stays mapped
    assert_eq!(sys_munmap(&mut space, 0x1000, 2 * PAGE_SIZE), -1);
    assert_eq!(space.translate(1), Some(22));
    // misaligned start
    assert_eq!(sys_munmap(&mut space, 0x1001, PAGE_SIZE), -1);
    assert_eq!(space.translate(1), Some(22));
}

#[test]
fn mmap_munmap_round_trip_frees_the_range() {
    let mut space = AddressSpace::new(0);
    assert_eq!(sys_mmap(&mut space, 0x1000, 2 * PAGE_SIZE, 3), 0);
    assert_eq!(sys_munmap(&mut space, 0x1000, 2 * PAGE_SIZE), 0);
    assert_eq!(space.translate(1), None);
    assert_eq!(space.translate(2), None);
    // a second mapping over the same range succeeds again
    assert_eq!(sys_mmap(&mut space, 0x1000, 2 * PAGE_SIZE, 3), 0);
    assert_eq!(space.translate(1), Some(22));
    assert_eq!(space.translate(2), Some(22));
}

#[test]
fn sbrk_moves_the_break_and_rejects_underflow() {
    let mut space = AddressSpace::new(0x4000);
    assert_eq!(space.program_brk, 0x4000);
    assert_eq!(sys_sbrk(&mut space, 0x100), 0x4000);
    assert_eq!(space.program_brk, 0x4100);
    // shrinking below the heap bottom is refused and changes nothing
    assert_eq!(sys_sbrk(&mut space, -0x200), -1);
    assert_eq!(space.program_brk, 0x4100);
    assert_eq!(sys_sbrk(&mut space, -0x100), 0x4100);
    assert_eq!(space.program_brk, 0x4000);
}

#[test]
fn timeval_splits_microseconds() {
    let t = TimeVal::from_us(2_500_017);
    assert_eq!(t.sec, 2);
    assert_eq!(t.usec, 500_017);
    let zero = TimeVal::from_us(0);
    assert_eq!(zero.sec, 0);
    assert_eq!(zero.usec, 0);
}

#[test]
fn task_info_counts_syscalls() {
    let mut info = TaskInfo::new(8, 42);
    assert_eq!(info.status, TaskStatus::Running);
    assert_eq!(info.time, 42);
    assert_eq!(info.syscall_times.len(), 8);
    info.record_syscall(3);
    info.record_syscall(3);
    info.record_syscall(7);
    assert_eq!(info.syscall_times[3], 2);
    assert_eq!(info.syscall_times[7], 1);
    assert_eq!(info.syscall_times[0], 0);
}
