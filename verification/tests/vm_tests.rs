use oscore::vm::AddressSpace;
use oscore::PAGE_SIZE;

#[test]
fn mmap_then_munmap_restores_mapped_set() {
    let mut s = AddressSpace::new();
    assert_eq!(s.sys_mmap(0x10000, 2 * PAGE_SIZE, 0x3), 0);
    assert!(s.translate(0x10000 / PAGE_SIZE).is_some());
    assert!(s.translate(0x10000 / PAGE_SIZE + 1).is_some());
    assert_eq!(s.sys_munmap(0x10000, 2 * PAGE_SIZE), 0);
    assert!(s.translate(0x10000 / PAGE_SIZE).is_none());
    assert!(s.translate(0x10000 / PAGE_SIZE + 1).is_none());
    assert_eq!(s.pages.len(), 0);
}

#[test]
fn mmap_rounds_length_up_to_whole_pages() {
    let mut s = AddressSpace::new();
    assert_eq!(s.sys_mmap(0, PAGE_SIZE + 1, 0x1), 0);
    assert!(s.translate(0).is_some());
    assert!(s.translate(1).is_some());
    assert!(s.translate(2).is_none());
}

#[test]
fn mmap_stores_user_bit_and_requested_access() {
    let mut s = AddressSpace::new();
    assert_eq!(s.sys_mmap(0x4000, PAGE_SIZE, 0x5), 0);
    assert_eq!(s.translate(0x4000 / PAGE_SIZE), Some(0x5 | 0x8));
}

#[test]
fn mmap_overlap_rejected_and_space_unchanged() {
    let mut s = AddressSpace::new();
    assert_eq!(s.sys_mmap(0x10000, PAGE_SIZE, 0x1), 0);
    let before: Vec<(usize, usize)> = s.pages.clone();
    assert_eq!(s.sys_mmap(0x10000, PAGE_SIZE, 0x1), -1);
    assert_eq!(s.pages, before);
    assert_eq!(s.sys_mmap(0x10000 - PAGE_SIZE, 2 * PAGE_SIZE, 0x7), -1);
    assert_eq!(s.pages, before);
}

#[test]
fn mmap_bad_port_always_rejected() {
    let mut s = AddressSpace::new();
    assert_eq!(s.sys_mmap(0, PAGE_SIZE, 0), -1);
    assert_eq!(s.sys_mmap(0, PAGE_SIZE, 0x8), -1);
    assert_eq!(s.sys_mmap(0, PAGE_SIZE, 0x9), -1);
    assert_eq!(s.sys_mmap(0, PAGE_SIZE, usize::MAX), -1);
    assert_eq!(s.pages.len(), 0);
}

#[test]
fn mmap_misaligned_start_rejected() {
    let mut s = AddressSpace::new();
    assert_eq!(s.sys_mmap(123, PAGE_SIZE, 0x1), -1);
    assert_eq!(s.pages.len(), 0);
}

#[test]
fn munmap_unmapped_page_rejected_all_or_nothing() {
    let mut s = AddressSpace::new();
    assert_eq!(s.sys_mmap(0, PAGE_SIZE, 0x1), 0);
    let before: Vec<(usize, usize)> = s.pages.clone();
    assert_eq!(s.sys_munmap(0, 2 * PAGE_SIZE), -1);
    assert_eq!(s.pages, before);
    assert_eq!(s.sys_munmap(PAGE_SIZE, PAGE_SIZE), -1);
    assert_eq!(s.sys_munmap(17, PAGE_SIZE), -1);
    assert_eq!(s.pages, before);
}

#[test]
fn zero_length_requests_cover_no_pages() {
    let mut s = AddressSpace::new();
    assert_eq!(s.sys_mmap(0x3000, 0, 0x1), 0);
    assert_eq!(s.pages.len(), 0);
    assert_eq!(s.sys_munmap(0x3000, 0), 0);
}
