use oscore::fsops::{OPEN_CREATE, OPEN_RDWR, OPEN_TRUNC, OPEN_WRONLY, STAT_MODE_FILE};
use oscore::process::ProcessState;

#[test]
fn open_requires_create_for_unknown_path_and_registers_it() {
    let mut p = ProcessState::new(0);
    let path: Vec<u8> = b"fileA".to_vec();
    assert_eq!(p.sys_open(&path, 0, Some(11)), -1);
    let fd = p.sys_open(&path, OPEN_CREATE | OPEN_RDWR, Some(11));
    assert_eq!(fd, 0);
    assert_eq!(p.link_table.len(), 1);
    assert_eq!(p.sys_open(&path, 0, Some(11)), 1);
}

#[test]
fn open_rejects_bad_flags_and_store_failure() {
    let mut p = ProcessState::new(0);
    let path: Vec<u8> = b"x".to_vec();
    assert_eq!(p.sys_open(&path, 0x4, Some(1)), -1);
    assert_eq!(p.sys_open(&path, OPEN_CREATE, None), -1);
    assert_eq!(p.fd_table.len(), 0);
}

#[test]
fn close_frees_descriptor_for_reuse() {
    let mut p = ProcessState::new(0);
    let path: Vec<u8> = b"f".to_vec();
    assert_eq!(p.sys_open(&path, OPEN_CREATE, Some(1)), 0);
    let path2: Vec<u8> = b"g".to_vec();
    assert_eq!(p.sys_open(&path2, OPEN_CREATE, Some(2)), 1);
    assert_eq!(p.sys_close(0), 0);
    assert_eq!(p.sys_close(0), -1);
    assert_eq!(p.sys_close(9), -1);
    assert_eq!(p.sys_open(&path, 0, Some(1)), 0);
}

#[test]
fn read_write_respect_descriptor_access() {
    let mut p = ProcessState::new(0);
    let path: Vec<u8> = b"w".to_vec();
    let fd = p.sys_open(&path, OPEN_CREATE | OPEN_WRONLY, Some(5)) as usize;
    assert_eq!(p.sys_write(fd, 100, 100), 100);
    assert_eq!(p.sys_read(fd, 100, 100), -1);
    let path2: Vec<u8> = b"r".to_vec();
    let fd2 = p.sys_open(&path2, OPEN_CREATE, Some(6)) as usize;
    assert_eq!(p.sys_read(fd2, 30, 30), 30);
    assert_eq!(p.sys_write(fd2, 30, 30), -1);
    assert_eq!(p.sys_write(99, 1, 1), -1);
    assert_eq!(p.sys_read(99, 1, 1), -1);
}

#[test]
fn read_write_hand_back_the_stores_byte_count() {
    let mut p = ProcessState::new(0);
    let path: Vec<u8> = b"pipeish".to_vec();
    let fd = p.sys_open(&path, OPEN_CREATE | OPEN_RDWR, Some(9)) as usize;
    assert_eq!(p.sys_write(fd, 100, 64), 64);
    assert_eq!(p.sys_read(fd, 50, 12), 12);
    assert_eq!(p.sys_read(fd, 50, 0), 0);
}

#[test]
fn linkat_and_fstat_count_hard_links() {
    let mut p = ProcessState::new(0);
    let a: Vec<u8> = b"orig".to_vec();
    let fd = p.sys_open(&a, OPEN_CREATE, Some(77)) as usize;
    let b_name: Vec<u8> = b"alias".to_vec();
    assert_eq!(p.sys_linkat(&a, &b_name), 0);
    let (ret, st) = p.sys_fstat(fd);
    assert_eq!(ret, 0);
    match st {
        Some(st) => {
            assert_eq!(st.ino, 77);
            assert_eq!(st.mode, STAT_MODE_FILE);
            assert_eq!(st.nlink, 2);
        },
        None => panic!("stat missing"),
    }
    assert_eq!(p.sys_fstat(9).0, -1);
}

#[test]
fn linkat_rejects_self_link_and_unknown_source() {
    let mut p = ProcessState::new(0);
    let a: Vec<u8> = b"a".to_vec();
    assert_eq!(p.sys_linkat(&a, &a), -1);
    let b_name: Vec<u8> = b"b".to_vec();
    assert_eq!(p.sys_linkat(&a, &b_name), -1);
}

#[test]
fn unlinkat_removes_entry_once() {
    let mut p = ProcessState::new(0);
    let a: Vec<u8> = b"doomed".to_vec();
    assert_eq!(p.sys_open(&a, OPEN_CREATE, Some(1)), 0);
    assert_eq!(p.link_table.len(), 1);
    assert_eq!(p.sys_unlinkat(&a), 0);
    assert_eq!(p.link_table.len(), 0);
    assert_eq!(p.sys_unlinkat(&a), -1);
}

#[test]
fn alias_resolves_to_canonical_file() {
    let mut p = ProcessState::new(0);
    let a: Vec<u8> = b"target".to_vec();
    assert_eq!(p.sys_open(&a, OPEN_CREATE, Some(3)), 0);
    let alias: Vec<u8> = b"ln".to_vec();
    assert_eq!(p.sys_linkat(&a, &alias), 0);
    let fd = p.sys_open(&alias, 0, Some(3)) as usize;
    match &p.fd_table[fd] {
        Some(h) => assert_eq!(h.path, b"target".to_vec()),
        None => panic!("handle missing"),
    }
}

#[test]
fn open_accepts_truncate_flag() {
    let mut p = ProcessState::new(0);
    let a: Vec<u8> = b"t".to_vec();
    assert_eq!(p.sys_open(&a, OPEN_CREATE | OPEN_TRUNC, Some(4)), 0);
}
