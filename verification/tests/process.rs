use rcore_os::process::{
    copy_plan, read_byte, sys_mmap, sys_munmap, sys_sbrk, sys_trace, time_val_from_us, write_byte, MapRequest,
    TimeVal, TraceRequest,
};

#[test]
fn time_val_splits_microseconds() {
    assert_eq!(time_val_from_us(1_234_567), TimeVal { sec: 1, usec: 234_567 });
    assert_eq!(time_val_from_us(999_999), TimeVal { sec: 0, usec: 999_999 });
}

#[test]
fn copy_plan_fills_buffers_in_turn() {
    assert_eq!(copy_plan(16, &vec![10, 10, 4]), vec![(0, 10), (10, 6), (16, 0)]);
    assert_eq!(copy_plan(8, &vec![4, 4]), vec![(0, 4), (4, 4)]);
    assert_eq!(copy_plan(3, &vec![]), vec![]);
}

#[test]
fn trace_requests_are_decoded() {
    assert_eq!(sys_trace(0, 0x1000, 7), TraceRequest::ReadByte { addr: 0x1000 });
    assert_eq!(sys_trace(1, 0x1000, 7), TraceRequest::WriteByte { addr: 0x1000, data: 7 });
    assert_eq!(sys_trace(2, 64, 0), TraceRequest::SyscallCount { syscall_id: 64 });
    assert_eq!(sys_trace(3, 64, 0), TraceRequest::Unknown);
}

#[test]
fn byte_access_results() {
    assert_eq!(read_byte(None), -1);
    assert_eq!(read_byte(Some(200)), 200);
    assert_eq!(write_byte(true, 0x1ff), (0, Some(0xff)));
    assert_eq!(write_byte(false, 5), (-1, None));
}

#[test]
fn mmap_checks_alignment_and_port() {
    assert_eq!(
        sys_mmap(0x1000, 0x2000, 3),
        Some(MapRequest { start_va: 0x1000, end_va: 0x3000, permission: 16 | 2 | 4 })
    );
    assert_eq!(sys_mmap(0x1000, 0x10, 7).unwrap().permission, 30);
    assert_eq!(sys_mmap(0x1001, 0x1000, 1), None);
    assert_eq!(sys_mmap(0x1000, 0x1000, 8), None);
    assert_eq!(sys_mmap(0x1000, 0x1000, 0), None);
}

#[test]
fn mmap_keeps_sv39_bits() {
    let r = sys_mmap((1usize << 39) + 0x2000, 0x1000, 4).unwrap();
    assert_eq!(r.start_va, 0x2000);
    assert_eq!(r.end_va, 0x3000);
    assert_eq!(r.permission, 16 | 8);
}

#[test]
fn munmap_checks_alignment() {
    assert_eq!(sys_munmap(0x4000, 0x1000), Some((0x4000, 0x5000)));
    assert_eq!(sys_munmap(0x4008, 0x1000), None);
}

#[test]
fn sbrk_reports_old_break() {
    assert_eq!(sys_sbrk(Some(0x8000)), 0x8000);
    assert_eq!(sys_sbrk(None), -1);
}

#[test]
fn time_val_bytes_are_two_little_endian_words() {
    let b = TimeVal { sec: 0x0102, usec: 3 }.to_bytes();
    assert_eq!(b, vec![2, 1, 0, 0, 0, 0, 0, 0, 3, 0, 0, 0, 0, 0, 0, 0]);
}
