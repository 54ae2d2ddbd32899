//! Physical pages, page tables, user memory and the address spaces on them.

use ijiege::page::{
    alloc_table, init_kernel_paging, lookup, map_2m, map_4k, pa_to_ppn, ppn_to_pa, remap_flags,
    satp_of, unmap, KernelRegions,
};
use ijiege::page_table::PageTable;
use ijiege::pmm::{alloc_page, free_page, init, stats, PhysMem};
use ijiege::proc;
use ijiege::sv39::{find_end, find_leaf, index_of, offset_of};
use ijiege::task::single::{do_brk, do_mmap, do_munmap, enter_user, Task};
use ijiege::uaccess::UserMem;
use ijiege::utils::{align_down, align_up};
use ijiege::vfs::{TarEntry, TarKind, Vfs};

fn memory() -> PhysMem {
    init(0x8000_0123, 0x8004_0fff)
}

#[test]
fn pages_are_rounded_inwards() {
    let pm = memory();
    assert_eq!(pm.free.len(), 0x3f);
    assert_eq!(pm.free[0], 0x8000_1000);
    assert_eq!(*pm.free.last().unwrap(), 0x8003_f000);
    assert_eq!(stats(&pm), (0, 0x3f));
}

#[test]
fn freed_page_is_next() {
    let mut pm = memory();
    let a = alloc_page(&mut pm).unwrap();
    let b = alloc_page(&mut pm).unwrap();
    assert_eq!((a, b), (0x8003_f000, 0x8003_e000));
    pm.write(a, 7, 99);
    free_page(&mut pm, a);
    assert_eq!(alloc_page(&mut pm), Some(a));
    assert_eq!(pm.read(a, 7), 0);
    assert_eq!(stats(&pm).0, 3);
}

#[test]
fn bounds_without_a_page() {
    let pm = init(0x9000, 0x1000);
    assert!(pm.free.is_empty());
    assert_eq!(stats(&pm), (0, 0));
}

#[test]
fn no_page_left() {
    let mut pm = init(0x1000, 0x2000);
    assert_eq!(alloc_page(&mut pm), Some(0x1000));
    assert_eq!(alloc_page(&mut pm), None);
}

#[test]
fn address_parts() {
    let va: u64 = (5 << 30) | (6 << 21) | (7 << 12) | 0x123;
    assert_eq!(index_of(va, 2), 5);
    assert_eq!(index_of(va, 1), 6);
    assert_eq!(index_of(va, 0), 7);
    assert_eq!(offset_of(va, 0), 0x123);
    assert_eq!(offset_of(va, 1), (7 << 12) | 0x123);
}

#[test]
fn mapped_page_translates() {
    let mut pm = memory();
    let pt = PageTable::new(&mut pm);
    pt.map(&mut pm, 0x1234_5000, 0x8000_1000, 0x16);
    assert_eq!(pt.translate(&pm, 0x1234_5678), Some(0x8000_1678));
    assert_eq!(pt.translate(&pm, 0x1234_6678), None);
    assert_eq!(find_leaf(&pm, pt.root, 0x1234_5000).unwrap().1, 0);
    assert_eq!(pt.unmap(&mut pm, 0x1234_5000), Some(0x8000_1000));
    assert_eq!(pt.translate(&pm, 0x1234_5678), None);
    assert_eq!(pt.unmap(&mut pm, 0x1234_5000), None);
    assert!(find_end(&pm, pt.root, 0x1234_5000).is_some());
}

#[test]
fn large_pages_and_ranges() {
    let mut pm = memory();
    let pt = PageTable::new(&mut pm);
    pt.map_at(&mut pm, 0x4000_0000, 0x8000_0000, 0xe, 1);
    assert_eq!(pt.translate(&pm, 0x401f_ffff), Some(0x801f_ffff));
    assert_eq!(pt.translate(&pm, 0x4020_0000), None);
    assert_eq!(pt.unmap(&mut pm, 0x4000_1000), None);
    assert_eq!(pt.translate(&pm, 0x4000_1234), Some(0x8000_1234));
    pt.map_range(&mut pm, 0x1000, 0x8000_1000, 0x3000, 0x6);
    assert_eq!(pt.translate(&pm, 0x3fff), Some(0x8000_3fff));
    assert_eq!(pt.translate(&pm, 0x4000), None);
    assert_eq!(pt.satp(), (8 << 60) | (pt.root >> 12));
}

#[test]
fn entries_and_flags() {
    let mut pm = memory();
    let root = alloc_table(&mut pm).unwrap();
    assert!(map_4k(&mut pm, root, 0x7000, 0x8000_2000, 0xd7));
    let (pa, flags) = lookup(&pm, root, 0x7abc).unwrap();
    assert_eq!(pa, 0x8000_2000);
    assert_eq!(flags & 0xff, 0xd7);
    assert!(remap_flags(&mut pm, root, 0x7000, 0x12));
    assert_eq!(lookup(&pm, root, 0x7000).unwrap().0, 0x8000_2000);
    assert!(unmap(&mut pm, root, 0x7000));
    assert!(lookup(&pm, root, 0x7000).is_none());
    assert!(!unmap(&mut pm, root, 0x4000_0000));
    assert!(!remap_flags(&mut pm, root, 0x4000_0000, 0x12));
    assert!(!remap_flags(&mut pm, root, 0x7000, 0x12));
    assert!(lookup(&pm, root, 0x7000).is_none());
    assert!(map_2m(&mut pm, root, 0x20_0000, 0x8020_0000, 0xf));
    assert!(!map_4k(&mut pm, root, 0x20_1000, 0x8000_2000, 0xf));
    assert_eq!(ppn_to_pa(5), 0x5000);
    assert_eq!(pa_to_ppn(0x5fff), 5);
    assert_eq!(satp_of(0x8000_0000), 0x8000_0000_0008_0000);
}

#[test]
fn kernel_maps_itself() {
    let mut pm = memory();
    let mut regions = KernelRegions { ram_start: 0, ram_end: 0, mmio_start: 0, mmio_end: 0 };
    let (root, satp) = init_kernel_paging(
        &mut pm,
        &mut regions,
        0x8000_0000,
        0x8040_0000,
        0x1000_0000,
        0x1001_0000,
    );
    assert_eq!(satp, satp_of(root));
    for a in [0x8000_0000u64, 0x803f_ffff, 0x1000_1234] {
        assert_eq!(lookup(&pm, root, a).unwrap().0, a);
    }
    assert!(lookup(&pm, root, 0x8040_0000).is_none());
    assert_eq!(regions.ram_end, 0x8040_0000);
}

fn process(pm: &mut PhysMem) -> proc::Process {
    let root = alloc_table(pm).unwrap();
    proc::Process {
        pid: 1,
        root,
        vmas: Vec::new(),
        brk: 0,
        mmap_next: proc::MMAP_FIRST,
        cwd: b"/".to_vec(),
        fds: Vec::new(),
        exiting: false,
    }
}

#[test]
fn ranges_are_kept_apart() {
    let mut pm = memory();
    let mut p = process(&mut pm);
    assert!(proc::add_vma(&mut p, 0x1_0010, 0x1_2010, 0x16));
    assert_eq!(p.vmas[0], proc::Vma { start: 0x1_0000, end: 0x1_3000, flags: 0x16 });
    assert!(!proc::add_vma(&mut p, 0x1_2000, 0x1_4000, 0x16));
    assert!(!proc::add_vma(&mut p, 0x5000, 0x5000, 0x16));
    assert!(!proc::add_vma(&mut p, 0x8000_0000, 0x8000_1000, 0x16));
    assert_eq!(
        proc::alloc_user_range(&mut p, 100, 0x16),
        Some((0x30_0000_0000, 0x30_0000_1000))
    );
    assert_eq!(
        proc::alloc_user_range(&mut p, 0x1000, 0x16),
        Some((0x30_0000_1000, 0x30_0000_2000))
    );
}

#[test]
fn fault_maps_a_page() {
    let mut pm = memory();
    let mut p = process(&mut pm);
    assert!(proc::add_vma(&mut p, 0x1_0000, 0x1_2000, 0x16));
    // The page that comes next held something before.
    let dirty = alloc_page(&mut pm).unwrap();
    pm.write(dirty, 3, 77);
    free_page(&mut pm, dirty);
    assert_eq!(proc::handle_page_fault(&p, &mut pm, 0x1_1abc, 13), Ok(()));
    let (pa, _) = lookup(&pm, p.root, 0x1_1abc).unwrap();
    assert_eq!(pa, dirty);
    assert_eq!(pm.read(pa, 3), 0);
    assert!(lookup(&pm, p.root, 0x1_0abc).is_none());
    assert_eq!(proc::handle_page_fault(&p, &mut pm, 0x9_0000, 13), Err(11));
    assert_eq!(proc::current_page_table_root(&p), p.root);
}

#[test]
fn lowest_descriptor_of_a_process() {
    let mut pm = memory();
    let mut p = process(&mut pm);
    assert_eq!(proc::alloc_fd(&mut p), 0);
    p.fds[0] = Some(proc::FdEntry::Console);
    assert_eq!(proc::alloc_fd(&mut p), 1);
    assert_eq!(proc::get_fd(&p, 0), Some(proc::FdEntry::Console));
    assert_eq!(proc::get_fd(&p, 1), None);
    assert_eq!(proc::get_fd(&p, 9), None);
}

#[test]
fn first_process() {
    let fs = Vfs {
        rootfs: vec![TarEntry {
            name: b"bin/init".to_vec(),
            data: b"ELF".to_vec(),
            mode: 0o755,
            kind: TarKind::File,
        }],
        tmp: Vec::new(),
        files: Vec::new(),
        dirs: Vec::new(),
    };
    let regions = KernelRegions {
        ram_start: 0x8000_0000,
        ram_end: 0x8800_0000,
        mmio_start: 0x1000_0000,
        mmio_end: 0x1001_0000,
    };
    let mut pm = memory();
    let cwd = b"/".to_vec();
    let (mut p, data) =
        proc::spawn(&fs, &mut pm, &regions, &cwd, &vec![b"/bin/init".to_vec()]).unwrap();
    assert_eq!(data, b"ELF");
    assert_eq!(p.pid, 1);
    assert_eq!(lookup(&pm, p.root, 0x8123_4567).unwrap().0, 0x8123_4567);
    assert_eq!(proc::start(&mut p, Err(8)), Err(8));
    assert!(p.fds.is_empty());
    assert_eq!(proc::start(&mut p, Ok(())), Ok(()));
    assert_eq!(p.fds, vec![Some(proc::FdEntry::Console); 3]);
    let none = proc::spawn(&fs, &mut pm, &regions, &cwd, &vec![b"/bin/sh".to_vec()]);
    assert_eq!(none.err(), Some(2));
    let mut empty = init(0x1000, 0x1000);
    let full = proc::spawn(&fs, &mut empty, &regions, &cwd, &vec![b"/bin/init".to_vec()]);
    assert_eq!(full.err(), Some(12));
}

#[test]
fn a_range_takes_no_more_pages_than_it_needs() {
    // The root, two pages, and a table on each level below the root.
    let mut pm = init(0x8000_0000, 0x8000_5000);
    let pt = PageTable::new(&mut pm);
    let t = Task::new(pt);
    t.map_user(&mut pm, 0x1_0800, 0x1000, 0xe);
    assert!(t.pt.translate(&pm, 0x1_0000).is_some());
    assert!(t.pt.translate(&pm, 0x1_1000).is_some());
    assert_eq!(pm.free.len(), 0);
    // What is there needs no page.
    let before = t.pt.translate(&pm, 0x1_0000);
    t.map_user(&mut pm, 0x1_0000, 0x2000, 0xe);
    assert_eq!(t.pt.translate(&pm, 0x1_0000), before);
    t.pt.map_range(&mut pm, 0x1_2000, 0x8010_0000, 0x3000, 0xe);
    assert_eq!(t.pt.translate(&pm, 0x1_4123), Some(0x8010_2123));
}

#[test]
fn the_one_task() {
    let mut pm = memory();
    let pt = PageTable::new(&mut pm);
    let mut t = Task::new(pt);
    assert_eq!((t.brk, t.mmap_top), (0, 0x20_0000_0000));
    t.map_user(&mut pm, 0x1_0800, 0x1000, 0xe);
    assert!(t.pt.translate(&pm, 0x1_0000).is_some());
    assert!(t.pt.translate(&pm, 0x1_1000).is_some());
    assert!(t.pt.translate(&pm, 0x1_2000).is_none());
    t.brk = 0x2_0000;
    assert_eq!(do_brk(&mut t, &mut pm, 0), 0x2_0000);
    assert_eq!(do_brk(&mut t, &mut pm, 0x2_1000), 0x2_1000);
    assert!(t.pt.translate(&pm, 0x2_0800).is_some());
    let va = do_mmap(&mut t, &mut pm, 0, 0x1800, 0x22);
    assert_eq!(va, 0x20_0000_0000);
    assert!(t.pt.translate(&pm, va + 0x1000).is_some());
    let freed = do_munmap(&t, &mut pm, va, 0x2000);
    assert_eq!(freed.len(), 2);
    assert!(t.pt.translate(&pm, va).is_none());
    assert!(t.pt.translate(&pm, va + 0x1000).is_none());
    let cx = enter_user(0x100, 0x1234, 0x8000);
    assert_eq!((cx.sstatus, cx.sepc, cx.x[2], cx.x[10]), (0x4_0020, 0x1234, 0x8000, 0));
}

#[test]
fn rounding() {
    assert_eq!(align_up(0x1001, 0x1000), 0x2000);
    assert_eq!(align_up(0x1000, 0x1000), 0x1000);
    assert_eq!(align_down(0x1fff, 0x1000), 0x1000);
    assert_eq!(align_up(align_down(0x1fff, 0x1000), 0x1000), 0x1000);
}

#[test]
fn user_memory_gives_back_what_was_stored() {
    let mut m = UserMem::new();
    m.add_area(0x1000, vec![0; 16]);
    m.add_area(0x1010, vec![7; 16]);
    assert_eq!(m.copy_to_user(0x100e, b"abcd"), Ok(()));
    assert_eq!(m.copy_from_user(0x100d, 6).unwrap(), b"\0abcd\x07");
    assert_eq!(m.write_num(0x1000, 0x1122_3344, 4), Ok(()));
    assert_eq!(m.read_num(0x1000, 2), Ok(0x3344));
    assert_eq!(m.load(0x1003), Some(0x11));
    assert_eq!(m.load(0x1020), None);
    assert!(!m.store(0xfff, 1));
    assert_eq!(m.copy_from_user(0x101f, 2), Err(14));
    assert_eq!(m.copy_to_user(0x101f, b"xy"), Err(14));
    assert_eq!(m.load(0x101f), Some(7));
    assert!(m.accessible(0x1000, 32));
    assert_eq!(m.read_cstr(0x100e, 100), Err(14));
    m.store(0x1012, 0);
    assert_eq!(m.read_cstr(0x100e, 100).unwrap(), b"abcd");
}
