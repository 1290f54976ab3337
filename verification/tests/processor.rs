use rcore_os::processor::{mmap_result, Processor};

#[test]
fn take_current_leaves_none() {
    let mut p: Processor<u32> = Processor::new();
    assert_eq!(p.current(), None);
    p.current = Some(5);
    assert_eq!(p.current(), Some(&5));
    assert_eq!(p.take_current(), Some(5));
    assert_eq!(p.current(), None);
}

#[test]
fn map_memory_rejects_overlap() {
    let p: Processor<u32> = Processor { current: Some(1) };
    let areas = vec![(0x10, 0x20), (0x30, 0x31)];
    assert_eq!(p.map_memory(&areas, 0x20000, 0x22000), Some(2));
    assert_eq!(p.map_memory(&areas, 0x1f000, 0x20001), None);
    assert_eq!(p.map_memory(&areas, 0x30000, 0x30001), None);
    assert_eq!(p.map_memory(&areas, 0x31000, 0x31fff), Some(1));
    assert_eq!(p.map_memory(&areas, 0x40000, 0x40000), Some(0));
}

#[test]
fn mmap_check_refuses_bad_arguments_and_overlap() {
    let p: Processor<u32> = Processor { current: Some(1) };
    let areas = vec![(0x10, 0x20)];
    let ok = p.mmap_check(&areas, 0x20000, 0x2000, 3).unwrap();
    assert_eq!((ok.0.start_va, ok.0.end_va, ok.0.permission, ok.1), (0x20000, 0x22000, 22, 2));
    assert_eq!(p.mmap_check(&areas, 0x1f000, 0x1000, 3), None);
    assert_eq!(p.mmap_check(&areas, 0x20001, 0x1000, 3), None);
    assert_eq!(p.mmap_check(&areas, 0x20000, 0x1000, 0), None);
    assert_eq!(mmap_result(Some(ok), true), (0, Some(ok.0)));
    assert_eq!(mmap_result(Some(ok), false), (-1, None));
    assert_eq!(mmap_result(None, true), (-1, None));
    // the same request once its pages are an area of the task
    let areas2 = vec![(0x10, 0x20), (0x20, 0x22)];
    assert_eq!(p.mmap_check(&areas2, 0x20000, 0x2000, 3), None);
}
