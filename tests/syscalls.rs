use easy_fs::syscall::{
    sys_exec, sys_fork, sys_get_time, sys_getpid, sys_mmap, sys_munmap, sys_set_priority,
    sys_spawn, sys_task_info, sys_waitpid, sys_yield, ChildInfo, MapArea, TaskInfo, TaskStatus,
    TimeVal, MAX_SYSCALL_NUM, PERM_R, PERM_U, PERM_W, PERM_X,
};

#[test]
fn get_time_splits_microseconds() {
    let mut tv = TimeVal { sec: 9, usec: 9 };
    assert_eq!(sys_get_time(&mut tv, 3_250_001), 0);
    assert_eq!(tv.sec, 3);
    assert_eq!(tv.usec, 250_001);
    assert_eq!(sys_get_time(&mut tv, 999_999), 0);
    assert_eq!((tv.sec, tv.usec), (0, 999_999));
}

#[test]
fn simple_calls() {
    assert_eq!(sys_yield(), 0);
    assert_eq!(sys_getpid(42), 42);
    assert_eq!(sys_fork(7), 7);
    assert_eq!(sys_exec(true), 0);
    assert_eq!(sys_exec(false), -1);
    assert_eq!(sys_spawn(Some(12)), 12);
    assert_eq!(sys_spawn(None), -1);
    assert_eq!(sys_set_priority(16), -1);
    let mut ti = TaskInfo { status: TaskStatus::Running, syscall_times: [0; MAX_SYSCALL_NUM], time: 5 };
    assert_eq!(sys_task_info(&mut ti), 0);
    assert_eq!(ti.time, 5);
}

#[test]
fn waitpid_decisions() {
    let none: Vec<ChildInfo> = Vec::new();
    assert_eq!(sys_waitpid(-1, &none), (-1, None));
    let kids = vec![
        ChildInfo { pid: 3, zombie: false },
        ChildInfo { pid: 4, zombie: true },
        ChildInfo { pid: 5, zombie: true },
    ];
    assert_eq!(sys_waitpid(-1, &kids), (4, Some(1)));
    assert_eq!(sys_waitpid(5, &kids), (5, Some(2)));
    assert_eq!(sys_waitpid(3, &kids), (-2, None));
    assert_eq!(sys_waitpid(9, &kids), (-1, None));
}

#[test]
fn mmap_decisions() {
    let mapped: Vec<u64> = vec![0x12];
    assert_eq!(sys_mmap(0x1001, 4096, 1, &mapped), (-1, None));
    assert_eq!(sys_mmap(0x1000, 4096, 0, &mapped), (-1, None));
    assert_eq!(sys_mmap(0x1000, 4096, 8, &mapped), (-1, None));
    assert_eq!(sys_mmap(0x10000, 0x3000, 1, &mapped), (-1, None));
    assert_eq!(
        sys_mmap(0x1000, 4097, 3, &mapped),
        (0, Some(MapArea { start_vpn: 1, end_vpn: 3, perm: PERM_R | PERM_W | PERM_U }))
    );
    assert_eq!(
        sys_mmap(0x20000, 1, 4, &mapped),
        (0, Some(MapArea { start_vpn: 0x20, end_vpn: 0x21, perm: PERM_X | PERM_U }))
    );
    assert_eq!(sys_mmap(usize::MAX - 4095, 8192, 1, &mapped), (-1, None));
}

#[test]
fn munmap_decisions() {
    let mapped: Vec<u64> = vec![1, 2, 4];
    assert_eq!(sys_munmap(0x1000, 0x2000, &mapped), (0, Some((1, 3))));
    assert_eq!(sys_munmap(0x1000, 0x3000, &mapped), (-1, None));
    assert_eq!(sys_munmap(0x1004, 0x10, &mapped), (-1, None));
    assert_eq!(sys_munmap(0x4000, 0, &mapped), (0, Some((4, 4))));
}
