use tarfs_rs::decode::{ArchiveError, FileKind};
use tarfs_rs::TarFs;
use tarfs_rs::FsError;

use std::io::Write;

fn header_for(path: &str, size: u64, kind: tar::EntryType) -> tar::Header {
    let mut h = tar::Header::new_ustar();
    h.set_path(path).unwrap();
    h.set_size(size);
    h.set_entry_type(kind);
    h.set_mode(0o644);
    h.set_uid(1000);
    h.set_gid(1000);
    h.set_mtime(1700000000);
    h.set_cksum();
    h
}

fn archive(records: &[(&str, &[u8], tar::EntryType)]) -> Vec<u8> {
    let mut b = tar::Builder::new(Vec::new());
    for (path, data, kind) in records {
        let h = header_for(path, data.len() as u64, *kind);
        b.append(&h, *data).unwrap();
    }
    let mut out = b.into_inner().unwrap();
    out.flush().unwrap();
    out
}

#[test]
fn scenario_three_records() {
    let data = archive(&[
        ("a/", b"", tar::EntryType::Directory),
        ("a/b.txt", b"0123456789", tar::EntryType::Regular),
        ("c.txt", b"01234", tar::EntryType::Regular),
    ]);
    let fs = TarFs::new(data).unwrap();
    assert_eq!(fs.index.arena.len(), 4);

    let a = fs.lookup(1, &b"a".to_vec()).unwrap();
    assert_eq!(a.parent, 1);
    assert!(matches!(a.entry.kind, FileKind::Directory));
    let a_ino = a.inode;

    let b = fs.lookup(a_ino, &b"b.txt".to_vec()).unwrap();
    assert_eq!(b.parent, a_ino);
    assert_eq!(b.entry.size, 10);

    let listing = fs.readdir(1, 0).unwrap();
    let names: Vec<Vec<u8>> = listing.iter().map(|e| e.name.clone()).collect();
    assert_eq!(
        names,
        vec![b".".to_vec(), b"..".to_vec(), b"a".to_vec(), b"c.txt".to_vec()]
    );
}

#[test]
fn synthesized_parent() {
    let data = archive(&[("a/b.txt", b"0123456789", tar::EntryType::Regular)]);
    let fs = TarFs::new(data).unwrap();
    assert_eq!(fs.index.arena.len(), 3);

    let a = fs.lookup(1, &b"a".to_vec()).unwrap();
    assert!(matches!(a.entry.kind, FileKind::Directory));
    assert_eq!(a.parent, 1);
    let a_ino = a.inode;
    assert_eq!(a.children.len(), 1);

    let b = fs.lookup(a_ino, &b"b.txt".to_vec()).unwrap();
    assert_eq!(b.parent, a_ino);
    assert!(matches!(b.entry.kind, FileKind::Regular));
}

#[test]
fn synthesis_is_idempotent_either_order() {
    let early = archive(&[
        ("a/", b"", tar::EntryType::Directory),
        ("a/b.txt", b"x", tar::EntryType::Regular),
    ]);
    let late = archive(&[
        ("a/b.txt", b"x", tar::EntryType::Regular),
        ("a/", b"", tar::EntryType::Directory),
    ]);
    let fs1 = TarFs::new(early).unwrap();
    let fs2 = TarFs::new(late).unwrap();
    assert_eq!(fs1.index.arena.len(), 3);
    assert_eq!(fs2.index.arena.len(), 3);
    let a1 = fs1.lookup(1, &b"a".to_vec()).unwrap();
    let a2 = fs2.lookup(1, &b"a".to_vec()).unwrap();
    assert!(matches!(a1.entry.kind, FileKind::Directory));
    assert!(matches!(a2.entry.kind, FileKind::Directory));
    assert_eq!(a1.children.len(), 1);
    assert_eq!(a2.children.len(), 1);
}

#[test]
fn getattr_unassigned_inode() {
    let data = archive(&[("c.txt", b"01234", tar::EntryType::Regular)]);
    let fs = TarFs::new(data).unwrap();
    assert!(fs.getattr(9999).is_none());
    assert!(fs.getattr(0).is_none());
    assert!(fs.getattr(1).is_some());
}

#[test]
fn read_on_directory_is_an_error() {
    let data = archive(&[
        ("a/", b"", tar::EntryType::Directory),
        ("a/b.txt", b"0123456789", tar::EntryType::Regular),
    ]);
    let fs = TarFs::new(data).unwrap();
    let a_ino = fs.lookup(1, &b"a".to_vec()).unwrap().inode;
    assert!(matches!(fs.read(1, 0, 10), Err(FsError::NotFound)));
    assert!(matches!(fs.read(a_ino, 0, 10), Err(FsError::NotFound)));
}

#[test]
fn read_exact_range_and_repeatable() {
    let data = archive(&[("c.txt", b"hello world", tar::EntryType::Regular)]);
    let fs = TarFs::new(data).unwrap();
    let ino = fs.lookup(1, &b"c.txt".to_vec()).unwrap().inode;
    assert_eq!(fs.read(ino, 0, 11).unwrap(), b"hello world".to_vec());
    assert_eq!(fs.read(ino, 6, 5).unwrap(), b"world".to_vec());
    assert_eq!(fs.read(ino, 6, 5).unwrap(), fs.read(ino, 6, 5).unwrap());
    // a long read is clipped at end of file
    assert_eq!(fs.read(ino, 6, 1000).unwrap(), b"world".to_vec());
    assert_eq!(fs.read(ino, 11, 4).unwrap(), b"".to_vec());
}

#[test]
fn read_past_end_is_out_of_range() {
    let data = archive(&[("c.txt", b"01234", tar::EntryType::Regular)]);
    let fs = TarFs::new(data).unwrap();
    let ino = fs.lookup(1, &b"c.txt".to_vec()).unwrap().inode;
    assert!(matches!(fs.read(ino, 6, 1), Err(FsError::OutOfRange)));
    assert!(matches!(fs.read(9999, 0, 1), Err(FsError::NotFound)));
}

#[test]
fn readdir_chunked_resumes_exactly() {
    let data = archive(&[
        ("a/", b"", tar::EntryType::Directory),
        ("b.txt", b"1", tar::EntryType::Regular),
        ("c.txt", b"2", tar::EntryType::Regular),
    ]);
    let fs = TarFs::new(data).unwrap();
    let full = fs.readdir(1, 0).unwrap();
    assert_eq!(full.len(), 5);
    for cut in 0..=full.len() {
        let head = fs.readdir(1, 0).unwrap();
        let tail = fs.readdir(1, cut).unwrap();
        let mut glued: Vec<(u64, Vec<u8>)> = Vec::new();
        for e in head.iter().take(cut) {
            glued.push((e.inode, e.name.clone()));
        }
        for e in tail.iter() {
            glued.push((e.inode, e.name.clone()));
        }
        let whole: Vec<(u64, Vec<u8>)> =
            full.iter().map(|e| (e.inode, e.name.clone())).collect();
        assert_eq!(glued, whole);
    }
    // past the end: an empty page, not an error
    assert_eq!(fs.readdir(1, 99).unwrap().len(), 0);
}

#[test]
fn readdir_on_file_or_unknown_inode() {
    let data = archive(&[("c.txt", b"01234", tar::EntryType::Regular)]);
    let fs = TarFs::new(data).unwrap();
    let ino = fs.lookup(1, &b"c.txt".to_vec()).unwrap().inode;
    assert!(fs.readdir(ino, 0).is_none());
    assert!(fs.readdir(555, 0).is_none());
}

#[test]
fn lookup_missing_name_or_parent() {
    let data = archive(&[("c.txt", b"01234", tar::EntryType::Regular)]);
    let fs = TarFs::new(data).unwrap();
    assert!(fs.lookup(1, &b"nope".to_vec()).is_none());
    assert!(fs.lookup(444, &b"c.txt".to_vec()).is_none());
}

#[test]
fn attributes_carry_over() {
    let data = archive(&[("c.txt", b"01234", tar::EntryType::Regular)]);
    let fs = TarFs::new(data).unwrap();
    let e = fs.lookup(1, &b"c.txt".to_vec()).unwrap();
    assert_eq!(e.entry.mode, 0o644);
    assert_eq!(e.entry.uid, 1000);
    assert_eq!(e.entry.gid, 1000);
    assert_eq!(e.entry.mtime, 1700000000);
    assert_eq!(e.entry.size, 5);
}

#[test]
fn empty_archive_has_only_the_root() {
    let fs = TarFs::new(Vec::new()).unwrap();
    assert_eq!(fs.index.arena.len(), 1);
    let root = fs.getattr(1).unwrap();
    assert_eq!(root.inode, 1);
    assert_eq!(root.parent, 0);
    assert!(matches!(root.entry.kind, FileKind::Directory));

    let zeros = vec![0u8; 1024];
    let fs2 = TarFs::new(zeros).unwrap();
    assert_eq!(fs2.index.arena.len(), 1);
}

#[test]
fn truncated_stream_is_rejected() {
    let mut data = archive(&[("c.txt", b"0123456789", tar::EntryType::Regular)]);
    data.truncate(700);
    assert!(matches!(TarFs::new(data), Err(ArchiveError::Truncated)));

    let short = vec![1u8; 100];
    assert!(matches!(TarFs::new(short), Err(ArchiveError::Truncated)));
}

#[test]
fn hard_link_record_is_unsupported() {
    let mut b = tar::Builder::new(Vec::new());
    let mut h = header_for("l", 0, tar::EntryType::Link);
    h.set_link_name("c.txt").unwrap();
    h.set_cksum();
    b.append(&h, &b""[..]).unwrap();
    let data = b.into_inner().unwrap();
    assert!(matches!(
        TarFs::new(data),
        Err(ArchiveError::UnsupportedType)
    ));
}

#[test]
fn malformed_numeric_field_is_rejected() {
    let mut data = archive(&[("c.txt", b"01234", tar::EntryType::Regular)]);
    // overwrite the size field with non-octal bytes
    for i in 124..136 {
        data[i] = b'z';
    }
    assert!(matches!(TarFs::new(data), Err(ArchiveError::BadHeader)));
}

#[test]
fn wrong_checksum_is_rejected() {
    let mut data = archive(&[("c.txt", b"01234", tar::EntryType::Regular)]);
    // force the checksum field far above any possible block sum
    data[148] = b'7';
    assert!(matches!(TarFs::new(data), Err(ArchiveError::BadHeader)));
}

#[test]
fn symlink_kind_is_kept() {
    let mut b = tar::Builder::new(Vec::new());
    let mut h = header_for("s", 0, tar::EntryType::Symlink);
    h.set_link_name("c.txt").unwrap();
    h.set_cksum();
    b.append(&h, &b""[..]).unwrap();
    let data = b.into_inner().unwrap();
    let fs = TarFs::new(data).unwrap();
    let s = fs.lookup(1, &b"s".to_vec()).unwrap();
    assert!(matches!(s.entry.kind, FileKind::Symlink));
}

#[test]
fn dotdot_component_is_rejected() {
    let mut data = archive(&[("a/zz/b.txt", b"x", tar::EntryType::Regular)]);
    // turn the middle component into `..` right in the name field, then
    // restore a valid checksum for the patched block
    assert_eq!(&data[2..4], b"zz");
    data[2] = b'.';
    data[3] = b'.';
    let mut sum: u64 = 0;
    for i in 0..512 {
        if (148..156).contains(&i) {
            sum += 32;
        } else {
            sum += data[i] as u64;
        }
    }
    let field = format!("{:06o}\0 ", sum);
    data[148..156].copy_from_slice(field.as_bytes());
    assert!(matches!(TarFs::new(data), Err(ArchiveError::BadPath)));
}

#[test]
fn file_as_parent_is_rejected() {
    let data = archive(&[
        ("a", b"x", tar::EntryType::Regular),
        ("a/b.txt", b"y", tar::EntryType::Regular),
    ]);
    assert!(matches!(TarFs::new(data), Err(ArchiveError::InvalidParent)));
}

#[test]
fn same_path_with_conflicting_kinds_is_rejected() {
    let data = archive(&[
        ("a", b"", tar::EntryType::Directory),
        ("a", b"x", tar::EntryType::Regular),
    ]);
    assert!(matches!(TarFs::new(data), Err(ArchiveError::InvalidParent)));
}

#[test]
fn tree_is_bidirectional_with_unique_inodes() {
    let data = archive(&[
        ("a/", b"", tar::EntryType::Directory),
        ("a/b.txt", b"x", tar::EntryType::Regular),
        ("c/d/e.txt", b"y", tar::EntryType::Regular),
    ]);
    let fs = TarFs::new(data).unwrap();
    let n = fs.index.arena.len() as u64;
    assert_eq!(n, 6);
    for ino in 1..=n {
        let node = fs.getattr(ino).unwrap();
        // dense, monotone inode numbers: position = inode - 1
        assert_eq!(node.inode, ino);
        if ino == 1 {
            assert_eq!(node.parent, 0);
        } else {
            let parent = fs.getattr(node.parent).unwrap();
            assert!(matches!(parent.entry.kind, FileKind::Directory));
            assert!(parent.children.contains(&ino));
        }
        for c in node.children.iter() {
            assert_eq!(fs.getattr(*c).unwrap().parent, ino);
        }
    }
}

#[test]
fn nested_synthesis_terminates_at_root() {
    let data = archive(&[("x/y/z/deep.txt", b"d", tar::EntryType::Regular)]);
    let fs = TarFs::new(data).unwrap();
    // root, x, y, z, deep.txt
    assert_eq!(fs.index.arena.len(), 5);
    let x = fs.lookup(1, &b"x".to_vec()).unwrap().inode;
    let y = fs.lookup(x, &b"y".to_vec()).unwrap().inode;
    let z = fs.lookup(y, &b"z".to_vec()).unwrap().inode;
    let d = fs.lookup(z, &b"deep.txt".to_vec()).unwrap();
    assert_eq!(d.parent, z);
    assert!(x < y && y < z && z < d.inode);
}
