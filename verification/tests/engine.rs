use rencfs::encryptedfs::content::{read_bytes, resize_bytes, write_bytes, ContentStore};
use rencfs::encryptedfs::dir_table::{find_index, DirectoryTable};
use rencfs::encryptedfs::inode_store::InodeStore;
use rencfs::encryptedfs::{
    CreateFileAttr, DirectoryEntry, EncryptedFs, FileAttr, FileType, SetFileAttr, ROOT_INODE,
};
use rencfs::error::FsError;

fn create_attr(kind: FileType) -> CreateFileAttr {
    CreateFileAttr { kind, perm: 0o644, uid: 1000, gid: 100, time: 42 }
}

fn file(fs: &mut EncryptedFs, parent: u64, name: &str) -> u64 {
    fs.create_nod(parent, name, create_attr(FileType::RegularFile)).unwrap().0
}

fn dir(fs: &mut EncryptedFs, parent: u64, name: &str) -> u64 {
    fs.create_nod(parent, name, create_attr(FileType::Directory)).unwrap().0
}

fn content(fs: &EncryptedFs, ino: u64) -> Vec<u8> {
    let size = fs.get_inode(ino).unwrap().size as usize;
    let mut buf = vec![0xEEu8; size];
    assert_eq!(fs.read_at(ino, 0, &mut buf), Ok(size));
    buf
}

fn names(list: &[DirectoryEntry]) -> Vec<String> {
    list.iter().map(|e| e.name.clone()).collect()
}

#[test]
fn new_engine_holds_only_the_root() {
    let fs = EncryptedFs::new();
    let root = fs.get_inode(ROOT_INODE).unwrap();
    assert_eq!(
        root,
        FileAttr {
            ino: 1,
            kind: FileType::Directory,
            size: 0,
            perm: 0o755,
            uid: 0,
            gid: 0,
            atime: 0,
            mtime: 0,
            crtime: 0,
            nlink: 1,
        }
    );
    assert_eq!(fs.read_dir(ROOT_INODE, 0), Ok(vec![]));
    assert_eq!(fs.get_inode(0), Err(FsError::NotFound));
    assert_eq!(fs.get_inode(2), Err(FsError::NotFound));
}

#[test]
fn create_find_write_read_scenario() {
    let mut fs = EncryptedFs::new();
    let (n, attr) =
        fs.create_nod(ROOT_INODE, "test-file-1", create_attr(FileType::RegularFile)).unwrap();
    assert_eq!(n, 2);
    assert_eq!(
        attr,
        FileAttr {
            ino: 2,
            kind: FileType::RegularFile,
            size: 0,
            perm: 0o644,
            uid: 1000,
            gid: 100,
            atime: 42,
            mtime: 42,
            crtime: 42,
            nlink: 1,
        }
    );
    assert!(fs.exists_by_name(ROOT_INODE, "test-file-1"));
    assert_eq!(fs.find_by_name(ROOT_INODE, "test-file-1"), Ok((n, FileType::RegularFile)));
    assert_eq!(fs.write_at(n, 0, b"hello"), Ok(5));
    let mut buf = [0u8; 5];
    assert_eq!(fs.read_at(n, 0, &mut buf), Ok(5));
    assert_eq!(&buf, b"hello");
    assert_eq!(fs.get_inode(n).unwrap().size, 5);
    assert_eq!(fs.get_inode(n), Ok(FileAttr { size: 5, ..attr }));
}

#[test]
fn create_under_a_taken_name_fails_and_makes_no_inode() {
    let mut fs = EncryptedFs::new();
    let first = file(&mut fs, ROOT_INODE, "a");
    assert_eq!(
        fs.create_nod(ROOT_INODE, "a", create_attr(FileType::RegularFile)),
        Err(FsError::AlreadyExists)
    );
    assert_eq!(
        fs.create_nod(ROOT_INODE, "a", create_attr(FileType::Directory)),
        Err(FsError::AlreadyExists)
    );
    assert_eq!(fs.get_inode(first + 1), Err(FsError::NotFound));
    assert_eq!(fs.read_dir(ROOT_INODE, 0).unwrap().len(), 1);
    assert_eq!(fs.find_by_name(ROOT_INODE, "a"), Ok((first, FileType::RegularFile)));
    let next = file(&mut fs, ROOT_INODE, "b");
    assert_eq!(next, first + 1);
}

#[test]
fn create_fails_in_a_fixed_order() {
    let mut fs = EncryptedFs::new();
    let f = file(&mut fs, ROOT_INODE, "f");
    let attr = create_attr(FileType::RegularFile);
    assert_eq!(fs.create_nod(99, "", attr), Err(FsError::InvalidArgument));
    assert_eq!(fs.create_nod(ROOT_INODE, "", attr), Err(FsError::InvalidArgument));
    assert_eq!(fs.create_nod(99, "x", attr), Err(FsError::NotFound));
    assert_eq!(fs.create_nod(f, "x", attr), Err(FsError::NotADirectory));
    assert_eq!(fs.create_nod(ROOT_INODE, "f", attr), Err(FsError::AlreadyExists));
    assert_eq!(fs.read_dir(ROOT_INODE, 0).unwrap().len(), 1);
}

#[test]
fn same_name_in_two_directories() {
    let mut fs = EncryptedFs::new();
    let d = dir(&mut fs, ROOT_INODE, "d");
    let a = file(&mut fs, ROOT_INODE, "x");
    let b = file(&mut fs, d, "x");
    assert_ne!(a, b);
    assert_eq!(fs.find_by_name(ROOT_INODE, "x"), Ok((a, FileType::RegularFile)));
    assert_eq!(fs.find_by_name(d, "x"), Ok((b, FileType::RegularFile)));
}

#[test]
fn find_by_name_reports_what_is_wrong() {
    let mut fs = EncryptedFs::new();
    let f = file(&mut fs, ROOT_INODE, "f");
    let l = fs.create_nod(ROOT_INODE, "l", create_attr(FileType::Symlink)).unwrap().0;
    assert_eq!(fs.find_by_name(ROOT_INODE, "missing"), Err(FsError::NotFound));
    assert_eq!(fs.find_by_name(77, "f"), Err(FsError::NotFound));
    assert_eq!(fs.find_by_name(f, "f"), Err(FsError::NotADirectory));
    assert_eq!(fs.find_by_name(ROOT_INODE, "l"), Ok((l, FileType::Symlink)));
    assert!(!fs.exists_by_name(ROOT_INODE, "missing"));
    assert!(!fs.exists_by_name(77, "f"));
    assert!(!fs.exists_by_name(f, "f"));
    assert!(!fs.exists_by_name(ROOT_INODE, ""));
}

#[test]
fn hundred_entries_are_listed_once_each() {
    let mut fs = EncryptedFs::new();
    let other = dir(&mut fs, ROOT_INODE, "other");
    let d = dir(&mut fs, ROOT_INODE, "d");
    for i in 0..100 {
        file(&mut fs, d, &format!("test-file-{}", i));
        if i % 3 == 0 {
            file(&mut fs, other, &format!("noise-{}", i));
        }
        if i % 6 == 3 {
            fs.remove_entry(other, &format!("noise-{}", i - 3)).unwrap();
        }
    }
    let list = fs.read_dir(d, 0).unwrap();
    assert_eq!(list.len(), 100);
    let mut seen = names(&list);
    let expected: Vec<String> = (0..100).map(|i| format!("test-file-{}", i)).collect();
    assert_eq!(seen, expected);
    seen.sort();
    seen.dedup();
    assert_eq!(seen.len(), 100);
    for e in list.iter() {
        assert_eq!(e.kind, FileType::RegularFile);
        assert_eq!(fs.find_by_name(d, &e.name), Ok((e.ino, e.kind)));
    }
}

#[test]
fn listing_can_be_taken_up_at_a_cursor() {
    let mut fs = EncryptedFs::new();
    for name in ["a", "b", "c", "d"] {
        file(&mut fs, ROOT_INODE, name);
    }
    let all = fs.read_dir(ROOT_INODE, 0).unwrap();
    assert_eq!(names(&all), vec!["a", "b", "c", "d"]);
    assert_eq!(names(&fs.read_dir(ROOT_INODE, 1).unwrap()), vec!["b", "c", "d"]);
    assert_eq!(names(&fs.read_dir(ROOT_INODE, 3).unwrap()), vec!["d"]);
    assert_eq!(fs.read_dir(ROOT_INODE, 4), Ok(vec![]));
    assert_eq!(fs.read_dir(ROOT_INODE, 5), Ok(vec![]));
    assert_eq!(fs.read_dir(ROOT_INODE, u64::MAX), Ok(vec![]));
    fs.remove_entry(ROOT_INODE, "b").unwrap();
    file(&mut fs, ROOT_INODE, "e");
    assert_eq!(names(&fs.read_dir(ROOT_INODE, 0).unwrap()), vec!["a", "c", "d", "e"]);
    assert_eq!(names(&fs.read_dir(ROOT_INODE, 2).unwrap()), vec!["d", "e"]);
}

#[test]
fn listing_reports_what_is_wrong() {
    let mut fs = EncryptedFs::new();
    let f = file(&mut fs, ROOT_INODE, "f");
    assert_eq!(fs.read_dir(f, 0), Err(FsError::NotADirectory));
    assert_eq!(fs.read_dir(50, 0), Err(FsError::NotFound));
    assert_eq!(fs.read_dir_plus(f, 0), Err(FsError::NotADirectory));
    assert_eq!(fs.read_dir_plus(50, 0), Err(FsError::NotFound));
}

#[test]
fn listing_with_attributes() {
    let mut fs = EncryptedFs::new();
    let f = file(&mut fs, ROOT_INODE, "f");
    let d = dir(&mut fs, ROOT_INODE, "d");
    fs.write_at(f, 0, b"abc").unwrap();
    let list = fs.read_dir_plus(ROOT_INODE, 0).unwrap();
    assert_eq!(list.len(), 2);
    assert_eq!((list[0].ino, list[0].name.as_str(), list[0].kind), (f, "f", FileType::RegularFile));
    assert_eq!(list[0].attr, fs.get_inode(f).unwrap());
    assert_eq!(list[0].attr.size, 3);
    assert_eq!((list[1].ino, list[1].name.as_str(), list[1].kind), (d, "d", FileType::Directory));
    assert_eq!(list[1].attr, fs.get_inode(d).unwrap());
    let rest = fs.read_dir_plus(ROOT_INODE, 1).unwrap();
    assert_eq!(rest.len(), 1);
    assert_eq!(rest[0], list[1]);
}

#[test]
fn rename_over_an_existing_name() {
    let mut fs = EncryptedFs::new();
    let a = file(&mut fs, ROOT_INODE, "a");
    let b = file(&mut fs, ROOT_INODE, "b");
    fs.write_at(a, 0, b"from a").unwrap();
    fs.write_at(b, 0, b"from b").unwrap();
    assert_eq!(fs.get_inode(b).unwrap().nlink, 1);
    assert_eq!(fs.rename_entry(ROOT_INODE, "a", ROOT_INODE, "b"), Ok(()));
    assert!(!fs.exists_by_name(ROOT_INODE, "a"));
    assert_eq!(fs.find_by_name(ROOT_INODE, "b"), Ok((a, FileType::RegularFile)));
    assert_eq!(fs.get_inode(b), Err(FsError::NotFound));
    let mut buf = [0u8; 1];
    assert_eq!(fs.read_at(b, 0, &mut buf), Err(FsError::NotFound));
    assert_eq!(content(&fs, a), b"from a".to_vec());
    assert_eq!(fs.get_inode(a).unwrap().nlink, 1);
    assert_eq!(names(&fs.read_dir(ROOT_INODE, 0).unwrap()), vec!["b"]);
}

#[test]
fn rename_across_directories() {
    let mut fs = EncryptedFs::new();
    let d1 = dir(&mut fs, ROOT_INODE, "d1");
    let d2 = dir(&mut fs, ROOT_INODE, "d2");
    let f = file(&mut fs, d1, "f");
    let sub = dir(&mut fs, d1, "sub");
    let inner = file(&mut fs, sub, "inner");
    assert_eq!(fs.rename_entry(d1, "f", d2, "g"), Ok(()));
    assert_eq!(fs.rename_entry(d1, "sub", d2, "sub2"), Ok(()));
    assert_eq!(fs.read_dir(d1, 0), Ok(vec![]));
    assert_eq!(fs.find_by_name(d2, "g"), Ok((f, FileType::RegularFile)));
    assert_eq!(fs.find_by_name(d2, "sub2"), Ok((sub, FileType::Directory)));
    assert_eq!(fs.find_by_name(sub, "inner"), Ok((inner, FileType::RegularFile)));
    assert_eq!(fs.find_by_name(d1, "f"), Err(FsError::NotFound));
}

#[test]
fn rename_to_itself_changes_nothing() {
    let mut fs = EncryptedFs::new();
    let a = file(&mut fs, ROOT_INODE, "a");
    file(&mut fs, ROOT_INODE, "b");
    assert_eq!(fs.rename_entry(ROOT_INODE, "a", ROOT_INODE, "a"), Ok(()));
    assert_eq!(fs.find_by_name(ROOT_INODE, "a"), Ok((a, FileType::RegularFile)));
    assert_eq!(names(&fs.read_dir(ROOT_INODE, 0).unwrap()), vec!["a", "b"]);
}

#[test]
fn rename_reports_what_is_wrong() {
    let mut fs = EncryptedFs::new();
    let f = file(&mut fs, ROOT_INODE, "f");
    let d = dir(&mut fs, ROOT_INODE, "d");
    let full = dir(&mut fs, ROOT_INODE, "full");
    let empty = dir(&mut fs, ROOT_INODE, "empty");
    file(&mut fs, full, "x");
    let r = ROOT_INODE;
    assert_eq!(fs.rename_entry(r, "f", r, ""), Err(FsError::InvalidArgument));
    assert_eq!(fs.rename_entry(99, "f", r, "g"), Err(FsError::NotFound));
    assert_eq!(fs.rename_entry(r, "f", 99, "g"), Err(FsError::NotFound));
    assert_eq!(fs.rename_entry(f, "f", r, "g"), Err(FsError::NotADirectory));
    assert_eq!(fs.rename_entry(r, "f", f, "g"), Err(FsError::NotADirectory));
    assert_eq!(fs.rename_entry(r, "nope", r, "g"), Err(FsError::NotFound));
    assert_eq!(fs.rename_entry(r, "d", d, "g"), Err(FsError::InvalidArgument));
    assert_eq!(fs.rename_entry(r, "d", r, "f"), Err(FsError::NotADirectory));
    assert_eq!(fs.rename_entry(r, "f", r, "d"), Err(FsError::IsADirectory));
    assert_eq!(fs.rename_entry(r, "d", r, "full"), Err(FsError::AlreadyExists));
    assert_eq!(names(&fs.read_dir(r, 0).unwrap()), vec!["f", "d", "full", "empty"]);
    assert_eq!(fs.rename_entry(r, "d", r, "empty"), Ok(()));
    assert_eq!(fs.get_inode(empty), Err(FsError::NotFound));
    assert_eq!(fs.find_by_name(r, "empty"), Ok((d, FileType::Directory)));
    assert_eq!(names(&fs.read_dir(r, 0).unwrap()), vec!["f", "full", "empty"]);
}

#[test]
fn remove_entry_takes_the_inode_with_it() {
    let mut fs = EncryptedFs::new();
    let f = file(&mut fs, ROOT_INODE, "f");
    let d = dir(&mut fs, ROOT_INODE, "d");
    fs.write_at(f, 0, b"data").unwrap();
    assert_eq!(fs.remove_entry(ROOT_INODE, "f"), Ok(()));
    assert!(!fs.exists_by_name(ROOT_INODE, "f"));
    assert_eq!(fs.get_inode(f), Err(FsError::NotFound));
    assert_eq!(fs.write_at(f, 0, b"x"), Err(FsError::NotFound));
    assert_eq!(fs.remove_entry(ROOT_INODE, "d"), Ok(()));
    assert_eq!(fs.get_inode(d), Err(FsError::NotFound));
    assert_eq!(fs.read_dir(d, 0), Err(FsError::NotFound));
    assert_eq!(fs.read_dir(ROOT_INODE, 0), Ok(vec![]));
    let again = file(&mut fs, ROOT_INODE, "f");
    assert!(again > d);
    assert_eq!(content(&fs, again), Vec::<u8>::new());
}

#[test]
fn remove_entry_reports_what_is_wrong() {
    let mut fs = EncryptedFs::new();
    let f = file(&mut fs, ROOT_INODE, "f");
    let d = dir(&mut fs, ROOT_INODE, "d");
    file(&mut fs, d, "inside");
    assert_eq!(fs.remove_entry(99, "f"), Err(FsError::NotFound));
    assert_eq!(fs.remove_entry(f, "f"), Err(FsError::NotADirectory));
    assert_eq!(fs.remove_entry(ROOT_INODE, "nope"), Err(FsError::NotFound));
    assert_eq!(fs.remove_entry(ROOT_INODE, "d"), Err(FsError::InvalidArgument));
    assert_eq!(fs.read_dir(ROOT_INODE, 0).unwrap().len(), 2);
    assert_eq!(fs.remove_entry(d, "inside"), Ok(()));
    assert_eq!(fs.remove_entry(ROOT_INODE, "d"), Ok(()));
}

#[test]
fn written_bytes_are_read_back() {
    let mut fs = EncryptedFs::new();
    let f = file(&mut fs, ROOT_INODE, "f");
    assert_eq!(fs.write_at(f, 0, b"the quick brown fox"), Ok(19));
    assert_eq!(fs.write_at(f, 4, b"slow!"), Ok(5));
    assert_eq!(content(&fs, f), b"the slow! brown fox".to_vec());
    let mut buf = [0u8; 5];
    assert_eq!(fs.read_at(f, 4, &mut buf), Ok(5));
    assert_eq!(&buf, b"slow!");
    assert_eq!(fs.write_at(f, 16, b"bear and more"), Ok(13));
    assert_eq!(content(&fs, f), b"the slow! brown bear and more".to_vec());
    assert_eq!(fs.get_inode(f).unwrap().size, 29);
    assert_eq!(fs.truncate(f, 40), Ok(()));
    assert_eq!(fs.read_at(f, 4, &mut buf), Ok(5));
    assert_eq!(&buf, b"slow!");
    assert_eq!(fs.truncate(f, 9), Ok(()));
    assert_eq!(fs.read_at(f, 4, &mut buf), Ok(5));
    assert_eq!(&buf, b"slow!");
}

#[test]
fn read_returns_what_the_content_has() {
    let mut fs = EncryptedFs::new();
    let f = file(&mut fs, ROOT_INODE, "f");
    fs.write_at(f, 0, b"0123456789").unwrap();
    let mut buf = [b'-'; 4];
    assert_eq!(fs.read_at(f, 8, &mut buf), Ok(2));
    assert_eq!(&buf, b"89--");
    assert_eq!(fs.read_at(f, 10, &mut buf), Ok(0));
    assert_eq!(fs.read_at(f, 11, &mut buf), Ok(0));
    assert_eq!(fs.read_at(f, u64::MAX, &mut buf), Ok(0));
    assert_eq!(&buf, b"89--");
    let mut none = [0u8; 0];
    assert_eq!(fs.read_at(f, 3, &mut none), Ok(0));
}

#[test]
fn write_past_the_end_leaves_zeros() {
    let mut fs = EncryptedFs::new();
    let f = file(&mut fs, ROOT_INODE, "f");
    assert_eq!(fs.write_at(f, 7, b"xy"), Ok(2));
    assert_eq!(fs.get_inode(f).unwrap().size, 9);
    let mut buf = [0xFFu8; 7];
    assert_eq!(fs.read_at(f, 0, &mut buf), Ok(7));
    assert_eq!(buf, [0u8; 7]);
    assert_eq!(content(&fs, f), vec![0, 0, 0, 0, 0, 0, 0, b'x', b'y']);
    assert_eq!(fs.write_at(f, 12, b""), Ok(0));
    assert_eq!(content(&fs, f), vec![0, 0, 0, 0, 0, 0, 0, b'x', b'y', 0, 0, 0]);
}

#[test]
fn write_past_the_end_of_a_large_gap() {
    let mut fs = EncryptedFs::new();
    let f = file(&mut fs, ROOT_INODE, "f");
    let gap = 3 * 1024 * 1024 + 5;
    assert_eq!(fs.write_at(f, 0, b"head"), Ok(4));
    assert_eq!(fs.write_at(f, gap, b"tail"), Ok(4));
    assert_eq!(fs.get_inode(f).unwrap().size, gap + 4);
    let all = content(&fs, f);
    assert_eq!(&all[..4], b"head");
    assert!(all[4..gap as usize].iter().all(|b| *b == 0));
    assert_eq!(&all[gap as usize..], b"tail");
}

#[test]
fn truncate_cuts_and_grows() {
    let mut fs = EncryptedFs::new();
    let f = file(&mut fs, ROOT_INODE, "f");
    fs.write_at(f, 0, b"abcdef").unwrap();
    assert_eq!(fs.truncate(f, 3), Ok(()));
    assert_eq!(content(&fs, f), b"abc".to_vec());
    assert_eq!(fs.get_inode(f).unwrap().size, 3);
    assert_eq!(fs.truncate(f, 6), Ok(()));
    assert_eq!(content(&fs, f), vec![b'a', b'b', b'c', 0, 0, 0]);
    assert_eq!(fs.truncate(f, 6), Ok(()));
    assert_eq!(fs.get_inode(f).unwrap().size, 6);
    assert_eq!(fs.truncate(f, 0), Ok(()));
    assert_eq!(content(&fs, f), Vec::<u8>::new());
}

#[test]
fn content_operations_report_what_is_wrong() {
    let mut fs = EncryptedFs::new();
    let f = file(&mut fs, ROOT_INODE, "f");
    let d = dir(&mut fs, ROOT_INODE, "d");
    let mut buf = [7u8; 2];
    assert_eq!(fs.read_at(99, 0, &mut buf), Err(FsError::NotFound));
    assert_eq!(fs.read_at(d, 0, &mut buf), Err(FsError::IsADirectory));
    assert_eq!(buf, [7, 7]);
    assert_eq!(fs.write_at(99, 0, b"x"), Err(FsError::NotFound));
    assert_eq!(fs.write_at(d, 0, b"x"), Err(FsError::IsADirectory));
    assert_eq!(fs.write_at(f, u64::MAX, b"x"), Err(FsError::InvalidArgument));
    assert_eq!(fs.write_at(f, usize::MAX as u64, b"x"), Err(FsError::InvalidArgument));
    assert_eq!(fs.truncate(99, 0), Err(FsError::NotFound));
    assert_eq!(fs.truncate(d, 0), Err(FsError::IsADirectory));
    assert_eq!(fs.get_inode(f).unwrap().size, 0);
    assert_eq!(fs.get_inode(d).unwrap().size, 0);
}

#[test]
fn update_inode_changes_what_is_set() {
    let mut fs = EncryptedFs::new();
    let f = file(&mut fs, ROOT_INODE, "f");
    let d = dir(&mut fs, ROOT_INODE, "d");
    fs.write_at(f, 0, b"abcdef").unwrap();
    let before = fs.get_inode(f).unwrap();
    assert_eq!(fs.update_inode(f, SetFileAttr::none()), Ok(before));
    let mut set = SetFileAttr::none();
    set.perm = Some(0o600);
    set.mtime = Some(77);
    set.uid = Some(5);
    let after = fs.update_inode(f, set).unwrap();
    assert_eq!(after, FileAttr { perm: 0o600, mtime: 77, uid: 5, ..before });
    assert_eq!(fs.get_inode(f), Ok(after));
    let mut set = SetFileAttr::none();
    set.size = Some(2);
    set.gid = Some(9);
    set.atime = Some(1);
    set.crtime = Some(2);
    let cut = fs.update_inode(f, set).unwrap();
    assert_eq!(cut, FileAttr { size: 2, gid: 9, atime: 1, crtime: 2, ..after });
    assert_eq!(content(&fs, f), b"ab".to_vec());
    assert_eq!(fs.update_inode(d, set), Err(FsError::IsADirectory));
    assert_eq!(fs.get_inode(d).unwrap().gid, 100);
    assert_eq!(fs.update_inode(99, SetFileAttr::none()), Err(FsError::NotFound));
    let mut set = SetFileAttr::none();
    set.perm = Some(0o700);
    assert_eq!(fs.update_inode(d, set).unwrap().perm, 0o700);
}

#[test]
fn create_and_write_file() {
    let mut fs = EncryptedFs::new();
    let f = file(&mut fs, ROOT_INODE, "demo.txt");
    assert_eq!(fs.write_at(f, 0, b"test"), Ok(4));
    assert_eq!(fs.remove_entry(ROOT_INODE, "demo.txt"), Ok(()));
    assert!(!fs.exists_by_name(ROOT_INODE, "demo.txt"));
}

#[test]
fn create_and_rename_file() {
    let mut fs = EncryptedFs::new();
    let f = file(&mut fs, ROOT_INODE, "demo1.txt");
    assert_eq!(fs.rename_entry(ROOT_INODE, "demo1.txt", ROOT_INODE, "demo2.txt"), Ok(()));
    assert_eq!(fs.find_by_name(ROOT_INODE, "demo2.txt"), Ok((f, FileType::RegularFile)));
    assert_eq!(fs.remove_entry(ROOT_INODE, "demo2.txt"), Ok(()));
    assert_eq!(fs.get_inode(f), Err(FsError::NotFound));
}

#[test]
fn create_write_rename_read_delete() {
    let text = b"the quick brown fox jumps over the lazy dog";
    let mut fs = EncryptedFs::new();
    let folder = dir(&mut fs, ROOT_INODE, "random");
    let f1 = file(&mut fs, folder, "initial.txt");
    assert_eq!(fs.write_at(f1, 0, text), Ok(text.len()));
    assert_eq!(fs.rename_entry(folder, "initial.txt", folder, "renamed.txt"), Ok(()));
    let read = String::from_utf8(content(&fs, f1)).unwrap();
    let modified = read.replace("fox", "bear");
    assert_eq!(fs.write_at(f1, text.len() as u64, modified.as_bytes()), Ok(modified.len()));
    assert_eq!(fs.get_inode(f1).unwrap().size as usize, text.len() + modified.len());
    let f2 = file(&mut fs, folder, "another.txt");
    assert_eq!(names(&fs.read_dir(folder, 0).unwrap()), vec!["renamed.txt", "another.txt"]);
    assert_eq!(fs.remove_entry(folder, "renamed.txt"), Ok(()));
    assert_eq!(fs.remove_entry(folder, "another.txt"), Ok(()));
    assert_eq!(fs.remove_entry(ROOT_INODE, "random"), Ok(()));
    assert_eq!(fs.get_inode(f2), Err(FsError::NotFound));
    assert_eq!(fs.get_inode(folder), Err(FsError::NotFound));
}

#[test]
fn create_empty_dir_check_attr() {
    let mut fs = EncryptedFs::new();
    let d = dir(&mut fs, ROOT_INODE, "chk_attr");
    let attr = fs.get_inode(d).unwrap();
    assert_eq!(attr.kind, FileType::Directory);
    assert_eq!(attr.size, 0);
    assert_ne!(attr.uid, 0);
    assert_eq!(attr.ino, d);
    assert_eq!(fs.read_dir(d, 0), Ok(vec![]));
    assert_eq!(fs.remove_entry(ROOT_INODE, "chk_attr"), Ok(()));
}

#[test]
fn inode_store_numbers_and_records() {
    let mut store = InodeStore::new();
    assert_eq!(store.get_inode(1), Err(FsError::NotFound));
    let (a, attr_a) = store.create_inode(create_attr(FileType::RegularFile)).unwrap();
    let (b, _) = store.create_inode(create_attr(FileType::Directory)).unwrap();
    assert_eq!((a, b), (1, 2));
    assert_eq!(attr_a.ino, 1);
    assert_eq!(attr_a.nlink, 1);
    assert_eq!(attr_a.size, 0);
    assert_eq!(store.get_inode(a), Ok(attr_a));
    let mut set = SetFileAttr::none();
    set.size = Some(10);
    assert_eq!(store.update_inode(a, set), Ok(FileAttr { size: 10, ..attr_a }));
    assert_eq!(store.update_inode(9, set), Err(FsError::NotFound));
    assert_eq!(store.delete_inode(a), Ok(()));
    assert_eq!(store.delete_inode(a), Err(FsError::NotFound));
    assert_eq!(store.get_inode(a), Err(FsError::NotFound));
    let (c, _) = store.create_inode(create_attr(FileType::RegularFile)).unwrap();
    assert_eq!(c, 3);
    assert_eq!(store.drop_link(c), Ok(0));
    assert_eq!(store.get_inode(c), Err(FsError::NotFound));
    assert_eq!(store.drop_link(c), Err(FsError::NotFound));
    assert_eq!(store.get_inode(b).unwrap().kind, FileType::Directory);
}

#[test]
fn directory_table_keeps_names_unique() {
    let mut table = DirectoryTable::new();
    assert_eq!(
        table.insert_entry(1, "a", 2, FileType::RegularFile),
        Err(FsError::NotADirectory)
    );
    table.add_directory(1);
    assert_eq!(table.entry_count(1), Some(0));
    assert_eq!(table.entry_count(2), None);
    assert_eq!(table.insert_entry(1, "", 2, FileType::RegularFile), Err(FsError::InvalidArgument));
    assert_eq!(table.insert_entry(1, "a", 2, FileType::RegularFile), Ok(()));
    assert_eq!(table.insert_entry(1, "a", 3, FileType::Directory), Err(FsError::AlreadyExists));
    assert_eq!(table.insert_entry(1, "b", 3, FileType::Directory), Ok(()));
    assert_eq!(table.entry_count(1), Some(2));
    assert!(table.exists_by_name(1, "a"));
    assert!(!table.exists_by_name(1, "c"));
    assert!(!table.exists_by_name(2, "a"));
    assert_eq!(table.find_by_name(1, "b"), Ok((3, FileType::Directory)));
    assert_eq!(table.find_by_name(1, "c"), Err(FsError::NotFound));
    assert_eq!(table.find_by_name(2, "a"), Err(FsError::NotADirectory));
    assert_eq!(table.read_dir(2, 0), Err(FsError::NotADirectory));
    assert_eq!(names(&table.read_dir(1, 1).unwrap()), vec!["b"]);
    assert_eq!(table.entry_at(1, 1).unwrap().unwrap().ino, 3);
    assert_eq!(table.entry_at(1, 2), Ok(None));
    assert_eq!(table.entry_at(2, 0), Err(FsError::NotADirectory));
    assert_eq!(table.remove_entry(1, "a"), Ok((2, FileType::RegularFile)));
    assert_eq!(table.remove_entry(1, "a"), Err(FsError::NotFound));
    assert_eq!(table.remove_entry(2, "a"), Err(FsError::NotADirectory));
    assert_eq!(names(&table.read_dir(1, 0).unwrap()), vec!["b"]);
    table.remove_directory(1);
    assert_eq!(table.entry_count(1), None);
    let list = vec![
        DirectoryEntry { ino: 5, name: "x".to_string(), kind: FileType::RegularFile },
        DirectoryEntry { ino: 6, name: "y".to_string(), kind: FileType::RegularFile },
    ];
    assert_eq!(find_index(&list, &"y".to_string()), Some(1));
    assert_eq!(find_index(&list, &"z".to_string()), None);
}

#[test]
fn content_store_reads_writes_and_resizes() {
    let mut store = ContentStore::new();
    let mut buf = [0u8; 4];
    assert_eq!(store.read_at(1, 0, &mut buf), Err(FsError::NotFound));
    assert_eq!(store.write_at(1, 0, b"x"), Err(FsError::NotFound));
    assert_eq!(store.truncate(1, 0), Err(FsError::NotFound));
    assert_eq!(store.len(1), None);
    store.create(1);
    assert_eq!(store.len(1), Some(0));
    assert_eq!(store.write_at(1, 2, b"ab"), Ok(2));
    assert_eq!(store.len(1), Some(4));
    assert_eq!(store.read_at(1, 0, &mut buf), Ok(4));
    assert_eq!(buf, [0, 0, b'a', b'b']);
    assert_eq!(store.write_at(1, u64::MAX, b"ab"), Err(FsError::InvalidArgument));
    assert_eq!(store.truncate(1, 3), Ok(()));
    assert_eq!(store.len(1), Some(3));
    store.remove(1);
    assert_eq!(store.len(1), None);
}

#[test]
fn byte_ranges_of_plain_content() {
    let mut bytes: Vec<u8> = b"hello".to_vec();
    write_bytes(&mut bytes, 3, b"p me");
    assert_eq!(bytes, b"help me".to_vec());
    write_bytes(&mut bytes, 0, b"k");
    assert_eq!(bytes, b"kelp me".to_vec());
    write_bytes(&mut bytes, 9, b"!");
    assert_eq!(bytes, b"kelp me\0\0!".to_vec());
    write_bytes(&mut bytes, 10, b"");
    assert_eq!(bytes.len(), 10);
    let mut buf = [b'.'; 6];
    assert_eq!(read_bytes(&bytes, 5, &mut buf), 5);
    assert_eq!(&buf, b"me\0\0!.");
    assert_eq!(read_bytes(&bytes, 10, &mut buf), 0);
    resize_bytes(&mut bytes, 4);
    assert_eq!(bytes, b"kelp".to_vec());
    resize_bytes(&mut bytes, 6);
    assert_eq!(bytes, b"kelp\0\0".to_vec());
    resize_bytes(&mut bytes, 6);
    assert_eq!(bytes.len(), 6);
}

#[test]
fn rename_into_its_own_subtree_is_refused() {
    let mut fs = EncryptedFs::new();
    let a = dir(&mut fs, ROOT_INODE, "a");
    let b = dir(&mut fs, a, "b");
    let c = dir(&mut fs, b, "c");
    let side = dir(&mut fs, ROOT_INODE, "side");
    let r = ROOT_INODE;
    assert_eq!(fs.rename_entry(r, "a", a, "x"), Err(FsError::InvalidArgument));
    assert_eq!(fs.rename_entry(r, "a", b, "x"), Err(FsError::InvalidArgument));
    assert_eq!(fs.rename_entry(r, "a", c, "x"), Err(FsError::InvalidArgument));
    assert_eq!(fs.rename_entry(a, "b", c, "x"), Err(FsError::InvalidArgument));
    assert_eq!(fs.find_by_name(r, "a"), Ok((a, FileType::Directory)));
    assert_eq!(fs.read_dir(c, 0), Ok(vec![]));
    assert_eq!(fs.rename_entry(b, "c", r, "c"), Ok(()));
    assert_eq!(fs.rename_entry(r, "a", c, "a"), Ok(()));
    assert_eq!(fs.find_by_name(c, "a"), Ok((a, FileType::Directory)));
    assert_eq!(fs.rename_entry(r, "c", b, "x"), Err(FsError::InvalidArgument));
    assert_eq!(fs.rename_entry(r, "c", side, "c"), Ok(()));
    assert_eq!(fs.rename_entry(r, "side", b, "x"), Err(FsError::InvalidArgument));
    assert_eq!(fs.find_by_name(side, "c"), Ok((c, FileType::Directory)));
    assert_eq!(names(&fs.read_dir(r, 0).unwrap()), vec!["side"]);
}

#[test]
fn rename_from_the_bottom_of_a_deep_tree() {
    let mut fs = EncryptedFs::new();
    let mut at = ROOT_INODE;
    for level in 0..200 {
        at = dir(&mut fs, at, &format!("level-{}", level));
    }
    let f = file(&mut fs, at, "leaf");
    let top = fs.find_by_name(ROOT_INODE, "level-0").unwrap().0;
    assert_eq!(fs.rename_entry(ROOT_INODE, "level-0", at, "up"), Err(FsError::InvalidArgument));
    assert_eq!(fs.rename_entry(at, "leaf", ROOT_INODE, "leaf"), Ok(()));
    assert_eq!(fs.rename_entry(ROOT_INODE, "leaf", top, "leaf"), Ok(()));
    assert_eq!(fs.find_by_name(top, "leaf"), Ok((f, FileType::RegularFile)));
}

#[test]
fn listing_one_entry_at_a_time() {
    let mut fs = EncryptedFs::new();
    let a = file(&mut fs, ROOT_INODE, "a");
    let b = dir(&mut fs, ROOT_INODE, "b");
    fs.write_at(a, 0, b"12345").unwrap();
    let first = fs.read_dir_at(ROOT_INODE, 0).unwrap().unwrap();
    assert_eq!(first, DirectoryEntry { ino: a, name: "a".to_string(), kind: FileType::RegularFile });
    let second = fs.read_dir_at(ROOT_INODE, 1).unwrap().unwrap();
    assert_eq!(second, DirectoryEntry { ino: b, name: "b".to_string(), kind: FileType::Directory });
    assert_eq!(fs.read_dir_at(ROOT_INODE, 2), Ok(None));
    assert_eq!(fs.read_dir_at(ROOT_INODE, u64::MAX), Ok(None));
    assert_eq!(fs.read_dir_at(a, 0), Err(FsError::NotADirectory));
    assert_eq!(fs.read_dir_at(99, 0), Err(FsError::NotFound));
    let plus = fs.read_dir_plus_at(ROOT_INODE, 0).unwrap().unwrap();
    assert_eq!((plus.ino, plus.name.as_str(), plus.kind), (a, "a", FileType::RegularFile));
    assert_eq!(plus.attr, fs.get_inode(a).unwrap());
    assert_eq!(plus.attr.size, 5);
    assert_eq!(fs.read_dir_plus_at(ROOT_INODE, 1).unwrap().unwrap().attr, fs.get_inode(b).unwrap());
    assert_eq!(fs.read_dir_plus_at(ROOT_INODE, 2), Ok(None));
    assert_eq!(fs.read_dir_plus_at(a, 0), Err(FsError::NotADirectory));
    assert_eq!(fs.read_dir_plus_at(99, 0), Err(FsError::NotFound));
    let mut walked = Vec::new();
    let mut cursor = 0;
    while let Some(entry) = fs.read_dir_at(ROOT_INODE, cursor).unwrap() {
        walked.push(entry);
        cursor += 1;
    }
    assert_eq!(walked, fs.read_dir(ROOT_INODE, 0).unwrap());
}
