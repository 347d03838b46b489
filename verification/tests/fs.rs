use rcore_os::syscall::fs::{
    fstat_record, linkat_result, open_flags_from_bits, split_into_pieces, stat_bytes,
    unlinkat_result, STAT_MODE_FILE, Stat,
    alloc_fd, locate_entry, sys_close, sys_dup, sys_fstat, sys_linkat, sys_open, sys_pipe,
    sys_read, sys_unlinkat, sys_write, transfer_result, FileDesc,
};

fn file(id: usize, readable: bool, writable: bool) -> FileDesc {
    FileDesc { file: id, readable, writable, is_inode: true }
}

fn pipe_end(id: usize, readable: bool) -> FileDesc {
    FileDesc { file: id, readable, writable: !readable, is_inode: false }
}

fn std_table() -> Vec<Option<FileDesc>> {
    vec![Some(file(0, true, false)), Some(file(1, false, true)), Some(file(2, false, true))]
}

#[test]
fn alloc_fd_takes_lowest_free_slot() {
    let mut t = vec![Some(file(0, true, false)), None, Some(file(2, true, true)), None];
    assert_eq!(alloc_fd(&mut t), 1);
    assert_eq!(t.len(), 4);
}

#[test]
fn alloc_fd_grows_a_full_table() {
    let mut t = std_table();
    assert_eq!(alloc_fd(&mut t), 3);
    assert_eq!(t.len(), 4);
    assert_eq!(t[3], None);
}

#[test]
fn alloc_fd_on_empty_table() {
    let mut t: Vec<Option<FileDesc>> = Vec::new();
    assert_eq!(alloc_fd(&mut t), 0);
    assert_eq!(t, vec![None]);
}

#[test]
fn open_installs_file() {
    let mut t = std_table();
    let f = file(7, true, true);
    assert_eq!(sys_open(&mut t, Some(f)), 3);
    assert_eq!(t[3], Some(f));
    assert_eq!(sys_read(&t, 3), Some(f));
    assert_eq!(sys_write(&t, 3), Some(f));
}

#[test]
fn open_failure_returns_minus_one() {
    let mut t = std_table();
    assert_eq!(sys_open(&mut t, None), -1);
    assert_eq!(t, std_table());
}

#[test]
fn write_checks_descriptor_and_permission() {
    let mut t = std_table();
    t.push(None);
    assert_eq!(sys_write(&t, 0), None);
    assert_eq!(sys_write(&t, 1), Some(file(1, false, true)));
    assert_eq!(sys_write(&t, 3), None);
    assert_eq!(sys_write(&t, 9), None);
}

#[test]
fn read_checks_descriptor_and_permission() {
    let mut t = std_table();
    t.push(None);
    assert_eq!(sys_read(&t, 0), Some(file(0, true, false)));
    assert_eq!(sys_read(&t, 1), None);
    assert_eq!(sys_read(&t, 3), None);
    assert_eq!(sys_read(&t, 100), None);
}

#[test]
fn transfer_result_is_byte_count() {
    assert_eq!(transfer_result(0), 0);
    assert_eq!(transfer_result(512), 512);
}

#[test]
fn close_frees_descriptor() {
    let mut t = std_table();
    assert_eq!(sys_close(&mut t, 1), 0);
    assert_eq!(t[1], None);
    assert_eq!(sys_close(&mut t, 1), -1);
    assert_eq!(sys_write(&t, 1), None);
    assert_eq!(sys_close(&mut t, 5), -1);
    assert_eq!(t.len(), 3);
}

#[test]
fn close_then_open_reuses_descriptor() {
    let mut t = std_table();
    assert_eq!(sys_close(&mut t, 0), 0);
    let f = file(9, true, false);
    assert_eq!(sys_open(&mut t, Some(f)), 0);
    assert_eq!(t[0], Some(f));
}

#[test]
fn dup_shares_file() {
    let mut t = std_table();
    assert_eq!(sys_dup(&mut t, 1), 3);
    assert_eq!(t[3], t[1]);
    assert_eq!(sys_dup(&mut t, 4), -1);
    t[0] = None;
    assert_eq!(sys_dup(&mut t, 0), -1);
    assert_eq!(sys_dup(&mut t, 2), 0);
    assert_eq!(t[0], Some(file(2, false, true)));
}

#[test]
fn pipe_installs_both_ends() {
    let mut t = vec![Some(file(0, true, false)), None];
    let r = pipe_end(10, true);
    let w = pipe_end(10, false);
    assert_eq!(sys_pipe(&mut t, r, w), (1, 2));
    assert_eq!(t, vec![Some(file(0, true, false)), Some(r), Some(w)]);
}

#[test]
fn fstat_checks_descriptor() {
    let mut t = std_table();
    t.push(None);
    assert_eq!(sys_fstat(&t, 2), Some(file(2, false, true)));
    assert_eq!(sys_fstat(&t, 3), None);
    assert_eq!(sys_fstat(&t, 4), None);
}

#[test]
fn locate_entry_splits_at_last_slash() {
    let loc = locate_entry(b"dir/sub/file");
    assert_eq!(loc.dir, Some(b"dir/sub".to_vec()));
    assert_eq!(loc.name, b"file".to_vec());
}

#[test]
fn locate_entry_without_slash_is_root() {
    let loc = locate_entry(b"file");
    assert_eq!(loc.dir, None);
    assert_eq!(loc.name, b"file".to_vec());
}

#[test]
fn locate_entry_leading_slash_is_root() {
    let loc = locate_entry(b"/file");
    assert_eq!(loc.dir, None);
    assert_eq!(loc.name, b"file".to_vec());
}

#[test]
fn locate_entry_trailing_slash_has_empty_name() {
    let loc = locate_entry(b"dir/");
    assert_eq!(loc.dir, Some(b"dir".to_vec()));
    assert_eq!(loc.name, Vec::<u8>::new());
}

#[test]
fn linkat_refuses_same_path() {
    assert!(sys_linkat(b"a", b"a").is_none());
}

#[test]
fn linkat_locates_new_link() {
    let loc = sys_linkat(b"a", b"d/b").unwrap();
    assert_eq!(loc.dir, Some(b"d".to_vec()));
    assert_eq!(loc.name, b"b".to_vec());
    let loc = sys_linkat(b"a", b"b").unwrap();
    assert_eq!(loc.dir, None);
    assert_eq!(loc.name, b"b".to_vec());
}

#[test]
fn unlinkat_locates_entry() {
    let loc = sys_unlinkat(b"x/y");
    assert_eq!(loc.dir, Some(b"x".to_vec()));
    assert_eq!(loc.name, b"y".to_vec());
    let loc = sys_unlinkat(b"y");
    assert_eq!(loc.dir, None);
    assert_eq!(loc.name, b"y".to_vec());
}

#[test]
fn linkat_result_codes() {
    let same = sys_linkat(b"a", b"a");
    assert_eq!(linkat_result(&same, true, true), -1);
    let root = sys_linkat(b"a", b"b");
    assert_eq!(linkat_result(&root, false, false), -1);
    assert_eq!(linkat_result(&root, true, false), 0);
    let sub = sys_linkat(b"a", b"d/b");
    assert_eq!(linkat_result(&sub, true, false), -1);
    assert_eq!(linkat_result(&sub, false, true), -1);
    assert_eq!(linkat_result(&sub, true, true), 0);
}

#[test]
fn unlinkat_result_codes() {
    let root = sys_unlinkat(b"b");
    assert_eq!(unlinkat_result(&root, false), 0);
    let sub = sys_unlinkat(b"d/b");
    assert_eq!(unlinkat_result(&sub, false), -1);
    assert_eq!(unlinkat_result(&sub, true), 0);
}

#[test]
fn open_flags_checks_bits() {
    assert_eq!(open_flags_from_bits(0), Some(0));
    assert_eq!(open_flags_from_bits(1 | 1 << 9), Some(1 | 1 << 9));
    assert_eq!(open_flags_from_bits(0x603), Some(0x603));
    assert_eq!(open_flags_from_bits(1 << 2), None);
    assert_eq!(open_flags_from_bits(1 << 31), None);
}

#[test]
fn fstat_record_and_layout() {
    let st = fstat_record(5, 2);
    assert_eq!(st, Stat { dev: 0, ino: 5, mode: STAT_MODE_FILE, nlink: 2, pad: [0; 7] });
    let bytes = stat_bytes(&st);
    assert_eq!(bytes.len(), 80);
    let mut expected = Vec::new();
    expected.extend_from_slice(&0u64.to_le_bytes());
    expected.extend_from_slice(&5u64.to_le_bytes());
    expected.extend_from_slice(&STAT_MODE_FILE.to_le_bytes());
    expected.extend_from_slice(&2u32.to_le_bytes());
    expected.extend_from_slice(&[0u8; 56]);
    assert_eq!(bytes, expected);
}

#[test]
fn stat_bytes_encodes_every_field() {
    let st = Stat { dev: 0x0102030405060708, ino: u64::MAX, mode: 0xdeadbeef, nlink: 7, pad: [1, 2, 3, 4, 5, 6, 0x1122334455667788] };
    let bytes = stat_bytes(&st);
    let mut expected = Vec::new();
    expected.extend_from_slice(&st.dev.to_le_bytes());
    expected.extend_from_slice(&st.ino.to_le_bytes());
    expected.extend_from_slice(&st.mode.to_le_bytes());
    expected.extend_from_slice(&st.nlink.to_le_bytes());
    for w in st.pad {
        expected.extend_from_slice(&w.to_le_bytes());
    }
    assert_eq!(bytes, expected);
}

#[test]
fn split_into_pieces_keeps_order() {
    let bytes: Vec<u8> = (0u8..10).collect();
    let pieces = split_into_pieces(&bytes, &[3, 0, 7]);
    assert_eq!(pieces, vec![vec![0, 1, 2], vec![], vec![3, 4, 5, 6, 7, 8, 9]]);
    let whole = split_into_pieces(&bytes, &[10]);
    assert_eq!(whole, vec![bytes.clone()]);
}

#[test]
fn fstat_on_inode_and_pipe_table() {
    let t = vec![Some(file(0, true, false)), None];
    assert_eq!(sys_fstat(&t, 0), Some(file(0, true, false)));
    assert_eq!(sys_fstat(&t, 1), None);
}
