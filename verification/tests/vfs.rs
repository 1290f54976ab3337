use rcore_os::vfs::{modify_link_count, release_link, DirEntry, Directory};

fn dir(names: &[(&str, u32)]) -> Directory {
    let mut d = Directory { entries: Vec::new() };
    for (n, id) in names {
        d.entries.push(DirEntry::new(n.as_bytes(), *id));
    }
    d
}

fn names(d: &Directory) -> Vec<String> {
    d.ls().into_iter().map(|n| String::from_utf8(n).unwrap()).collect()
}

#[test]
fn entry_bytes_round_trip() {
    let e = DirEntry::new(b"hello", 0x0102_0304);
    let bytes = e.to_bytes();
    assert_eq!(bytes.len(), 32);
    assert_eq!(&bytes[0..5], b"hello");
    assert!(bytes[5..28].iter().all(|b| *b == 0));
    assert_eq!(&bytes[28..32], &[4, 3, 2, 1]);
    let back = DirEntry::from_bytes(&bytes);
    assert_eq!(back.name, e.name);
    assert_eq!(back.inode_number, 0x0102_0304);
}

#[test]
fn create_then_find_and_ls() {
    let mut d = dir(&[]);
    assert_eq!(d.create(b"a", 3), Some(3));
    assert_eq!(d.create(b"bb", 4), Some(4));
    assert_eq!(d.create(b"a", 9), None);
    assert_eq!(d.find_inode_id(b"a"), Some(3));
    assert_eq!(d.find_inode_id(b"bb"), Some(4));
    assert_eq!(d.find_inode_id(b"b"), None);
    assert_eq!(names(&d), vec!["a".to_string(), "bb".to_string()]);
}

#[test]
fn link_adds_a_second_name() {
    let mut d = dir(&[("f", 7)]);
    assert_eq!(d.link(b"f", b"g"), Some(7));
    assert_eq!(d.find_inode_id(b"g"), Some(7));
    assert_eq!(d.link(b"missing", b"h"), None);
    assert_eq!(d.link(b"f", b"g"), None);
    assert_eq!(d.entries.len(), 2);
}

#[test]
fn unlink_moves_last_entry_into_the_gap() {
    let mut d = dir(&[("a", 1), ("b", 2), ("c", 3)]);
    assert_eq!(d.unlink(b"a"), Some(1));
    assert_eq!(names(&d), vec!["c".to_string(), "b".to_string()]);
    assert_eq!(d.find_inode_id(b"a"), None);
    assert_eq!(d.unlink(b"zz"), None);
    assert_eq!(d.unlink(b"b"), Some(2));
    assert_eq!(names(&d), vec!["c".to_string()]);
}

#[test]
fn unlink_clears_first_entry_starting_with_the_name() {
    // the scan compares the name with the stored bytes cut to its length
    let mut d = dir(&[("abc", 1), ("ab", 2)]);
    assert_eq!(d.unlink(b"ab"), Some(2));
    assert_eq!(names(&d), vec!["ab".to_string()]);
}

#[test]
fn release_link_counts_down_to_free() {
    assert_eq!(release_link(2), (1, false));
    assert_eq!(release_link(1), (0, true));
    assert_eq!(release_link(0), (0, true));
}

#[test]
fn modify_link_count_clears_at_zero() {
    assert_eq!(modify_link_count(1, true), (2, false));
    assert_eq!(modify_link_count(2, false), (1, false));
    assert_eq!(modify_link_count(1, false), (0, true));
}

#[test]
fn directory_bytes_round_trip() {
    let d = dir(&[("x", 1), ("yz", 0x0a0b)]);
    let mut data = d.to_bytes();
    assert_eq!(data.len(), 64);
    data.extend_from_slice(&[9, 9, 9]);
    let back = Directory::from_bytes(&data);
    assert_eq!(back.entries.len(), 2);
    assert_eq!(back.find_inode_id(b"yz"), Some(0x0a0b));
    assert_eq!(names(&back), vec!["x".to_string(), "yz".to_string()]);
}

#[test]
fn link_then_unlink_restores_directory() {
    let mut d = dir(&[("f", 7)]);
    assert_eq!(d.link(b"f", b"g"), Some(7));
    assert_eq!(d.unlink(b"g"), Some(7));
    assert_eq!(names(&d), vec!["f".to_string()]);
}
