use os::process::{
    sys_exec, sys_exit, sys_fork, sys_get_time, sys_getpid, sys_mmap, sys_munmap, sys_sbrk,
    sys_set_priority, sys_spawn, sys_task_info, sys_waitpid, sys_yield, add_task, fetch_task,
    AddressSpace, Kernel, MapArea, MapPermission, TaskStatus, TimeVal, MAX_SYSCALL_NUM,
    TASK_INFO_SIZE,
};

fn space() -> AddressSpace {
    AddressSpace { areas: Vec::new(), heap_bottom: 0x10000, brk: 0x10000 }
}

fn booted() -> Kernel {
    let mut k = Kernel::new(space(), 16);
    assert_eq!(k.schedule(), Some(0));
    k
}

fn le_u64(b: &[u8]) -> u64 {
    let mut a = [0u8; 8];
    a.copy_from_slice(&b[..8]);
    u64::from_le_bytes(a)
}

#[test]
fn boot_runs_root_task() {
    let k = booted();
    assert_eq!(k.current, Some(0));
    assert_eq!(k.tasks[0].status, TaskStatus::Running);
    assert_eq!(sys_getpid(&k), 0);
}

#[test]
fn mmap_then_munmap_twice() {
    let mut k = booted();
    assert_eq!(sys_mmap(&mut k, 4096, 8192, 3), 0);
    assert_eq!(
        k.tasks[0].memory.areas[0],
        MapArea {
            start: 4096,
            end: 12288,
            perm: MapPermission { read: true, write: true, execute: false, user: true }
        }
    );
    assert_eq!(sys_munmap(&mut k, 4096, 8192), 0);
    assert_eq!(sys_munmap(&mut k, 4096, 8192), -1);
    assert!(k.tasks[0].memory.areas.is_empty());
}

#[test]
fn mmap_rejects_bad_arguments() {
    let mut k = booted();
    assert_eq!(sys_mmap(&mut k, 4097, 4096, 1), -1);
    assert_eq!(sys_mmap(&mut k, 4096, 4096, 0), -1);
    assert_eq!(sys_mmap(&mut k, 4096, 4096, 8), -1);
    assert_eq!(sys_mmap(&mut k, 4096, 4096, 9), -1);
    assert_eq!(sys_mmap(&mut k, usize::MAX - 4095, 4096, 1), -1);
    assert!(k.tasks[0].memory.areas.is_empty());
}

#[test]
fn mmap_rejects_overlap_and_rounds_length_up() {
    let mut k = booted();
    assert_eq!(sys_mmap(&mut k, 0x1000, 10, 7), 0);
    assert_eq!(k.tasks[0].memory.areas[0].end, 0x2000);
    assert_eq!(sys_mmap(&mut k, 0x1000, 4096, 1), -1);
    assert_eq!(sys_mmap(&mut k, 0x2000, 4096, 4), 0);
    assert_eq!(k.tasks[0].memory.areas.len(), 2);
    assert!(k.tasks[0].memory.areas[1].perm.execute);
    assert!(!k.tasks[0].memory.areas[1].perm.read);
}

#[test]
fn munmap_rejects_misaligned_and_partial() {
    let mut k = booted();
    assert_eq!(sys_mmap(&mut k, 0x3000, 0x2000, 2), 0);
    assert_eq!(sys_munmap(&mut k, 0x3001, 0x2000), -1);
    assert_eq!(sys_munmap(&mut k, 0x3000, 0x1000), -1);
    assert_eq!(sys_munmap(&mut k, 0x3000, 0x2000), 0);
}

#[test]
fn sbrk_moves_break_and_refuses_below_bottom() {
    let mut k = booted();
    assert_eq!(sys_sbrk(&mut k, 0x100), 0x10000);
    assert_eq!(k.tasks[0].memory.brk, 0x10100);
    assert_eq!(sys_sbrk(&mut k, -0x80), 0x10100);
    assert_eq!(sys_sbrk(&mut k, -0x100), -1);
    assert_eq!(k.tasks[0].memory.brk, 0x10080);
}

#[test]
fn exec_replaces_address_space_or_fails() {
    let mut k = booted();
    assert_eq!(sys_exec(&mut k, None), -1);
    let image = AddressSpace {
        areas: vec![MapArea {
            start: 0x1000,
            end: 0x3000,
            perm: MapPermission { read: true, write: false, execute: true, user: true },
        }],
        heap_bottom: 0x4000,
        brk: 0x4000,
    };
    assert_eq!(sys_exec(&mut k, Some(image)), 0);
    assert_eq!(k.tasks[0].memory.areas.len(), 1);
    assert_eq!(k.tasks[0].memory.heap_bottom, 0x4000);
    assert_eq!(sys_getpid(&k), 0);
}

#[test]
fn fork_links_child_and_queues_it() {
    let mut k = booted();
    assert_eq!(sys_mmap(&mut k, 0x1000, 0x1000, 3), 0);
    assert_eq!(sys_fork(&mut k), 1);
    assert_eq!(k.tasks[0].children, vec![1]);
    assert_eq!(k.tasks[1].parent, Some(0));
    assert_eq!(k.tasks[1].return_value, 0);
    assert_eq!(k.tasks[1].status, TaskStatus::Ready);
    assert_eq!(k.tasks[1].memory.areas, k.tasks[0].memory.areas);
    assert_eq!(k.tasks[1].syscall_times.len(), MAX_SYSCALL_NUM);
    assert_eq!(k.manager.len(), 1);
}

#[test]
fn waitpid_reaps_once() {
    let mut k = booted();
    let mut code: i32 = 0;
    assert_eq!(sys_waitpid(&mut k, -1, &mut code), -1);
    assert_eq!(sys_fork(&mut k), 1);
    assert_eq!(sys_waitpid(&mut k, -1, &mut code), -2);
    assert_eq!(sys_waitpid(&mut k, 5, &mut code), -1);
    assert_eq!(sys_yield(&mut k), 0);
    assert_eq!(k.schedule(), Some(1));
    sys_exit(&mut k, 7);
    assert_eq!(k.tasks[1].status, TaskStatus::Zombie);
    assert_eq!(k.schedule(), Some(0));
    assert_eq!(sys_waitpid(&mut k, -1, &mut code), 1);
    assert_eq!(code, 7);
    assert!(k.tasks[0].children.is_empty());
    assert_eq!(sys_waitpid(&mut k, 1, &mut code), -1);
}

#[test]
fn exit_hands_children_to_root() {
    let mut k = booted();
    assert_eq!(sys_fork(&mut k), 1);
    assert_eq!(sys_yield(&mut k), 0);
    assert_eq!(k.schedule(), Some(1));
    assert_eq!(sys_fork(&mut k), 2);
    assert_eq!(sys_mmap(&mut k, 0x1000, 0x1000, 1), 0);
    sys_exit(&mut k, 3);
    assert_eq!(k.current, None);
    assert!(k.tasks[1].children.is_empty());
    assert!(k.tasks[1].memory.areas.is_empty());
    assert_eq!(k.tasks[0].children, vec![1, 2]);
    assert_eq!(k.tasks[2].parent, Some(0));
    assert_eq!(k.tasks[1].exit_code, 3);
}

#[test]
fn yield_requeues_and_dispatch_advances_stride() {
    let mut k = booted();
    let s = k.tasks[0].stride;
    assert_eq!(s, os::manager::BIG_STRIDE / 16);
    assert_eq!(sys_yield(&mut k), 0);
    assert_eq!(k.current, None);
    assert_eq!(k.tasks[0].status, TaskStatus::Ready);
    assert_eq!(k.schedule(), Some(0));
    assert_eq!(k.tasks[0].stride, 2 * s);
    assert_eq!(sys_yield(&mut k), 0);
    let t = fetch_task(&mut k).unwrap();
    assert_eq!(t.pid, 0);
    assert!(fetch_task(&mut k).is_none());
    add_task(&mut k, 0);
    assert_eq!(k.schedule(), Some(0));
}

#[test]
fn get_time_straddling_two_pages_reads_back() {
    let mut chunks: Vec<Vec<u8>> = vec![vec![0u8; 5], vec![0u8; 11]];
    assert_eq!(sys_get_time(1_234_567_890, &mut chunks), 0);
    let bytes: Vec<u8> = chunks.concat();
    assert_eq!(le_u64(&bytes[0..8]), 1234);
    assert_eq!(le_u64(&bytes[8..16]), 567_890);
    let t = TimeVal { sec: 1234, usec: 567_890 };
    assert_eq!(t.to_bytes(), bytes);
}

#[test]
fn get_time_refuses_short_translation() {
    let mut chunks: Vec<Vec<u8>> = vec![vec![9u8; 5], vec![9u8; 10]];
    assert_eq!(sys_get_time(5, &mut chunks), -1);
    assert_eq!(chunks, vec![vec![9u8; 5], vec![9u8; 10]]);
}

#[test]
fn task_info_layout() {
    let mut k = booted();
    k.tasks[0].syscall_times[3] = 2;
    k.tasks[0].start_time_ms = 100;
    let mut chunks: Vec<Vec<u8>> = vec![vec![0u8; 1000], vec![0u8; TASK_INFO_SIZE - 1000]];
    assert_eq!(sys_task_info(&k, 350, &mut chunks), 0);
    let bytes: Vec<u8> = chunks.concat();
    assert_eq!(&bytes[0..4], &[1, 0, 0, 0]);
    assert_eq!(&bytes[4 + 12..4 + 16], &[2, 0, 0, 0]);
    assert_eq!(le_u64(&bytes[2008..2016]), 250);
    let mut short: Vec<Vec<u8>> = vec![vec![0u8; 16]];
    assert_eq!(sys_task_info(&k, 350, &mut short), -1);
}

#[test]
fn spawn_and_set_priority_are_not_offered() {
    let k = booted();
    assert_eq!(sys_spawn(&k), -1);
    assert_eq!(sys_set_priority(&k, 5), -1);
}
