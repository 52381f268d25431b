use nyarr::path::FileName;
use nyarr::tar::{place_member, tar_to_fsobject, tar_to_nar, StripRoot, Tar2NarError};
use nyarr::vfs::{dir_entry, ConstByteStream, Directory, Executable, FsObject, InsertError};

/// One ustar header block, with its checksum filled in.
fn header(path: &str, kind: u8, mode: u32, size: usize, link: &str) -> Vec<u8> {
    let mut h = vec![0u8; 512];
    h[..path.len()].copy_from_slice(path.as_bytes());
    let put = |h: &mut Vec<u8>, at: usize, width: usize, v: u64| {
        let s = format!("{:0w$o}", v, w = width - 1);
        h[at..at + width - 1].copy_from_slice(s.as_bytes());
    };
    put(&mut h, 100, 8, mode as u64);
    put(&mut h, 108, 8, 0);
    put(&mut h, 116, 8, 0);
    put(&mut h, 124, 12, size as u64);
    put(&mut h, 136, 12, 0);
    h[156] = kind;
    h[157..157 + link.len()].copy_from_slice(link.as_bytes());
    h[257..263].copy_from_slice(b"ustar\0");
    h[263..265].copy_from_slice(b"00");
    for b in h[148..156].iter_mut() {
        *b = b' ';
    }
    let sum: u32 = h.iter().map(|&b| b as u32).sum();
    let s = format!("{:06o}\0 ", sum);
    h[148..156].copy_from_slice(s.as_bytes());
    h
}

enum Member<'a> {
    Dir(&'a str),
    File(&'a str, u32, &'a [u8]),
    Link(&'a str, &'a str),
    Fifo(&'a str),
}

fn archive(members: &[Member]) -> Vec<u8> {
    let mut out = Vec::new();
    for m in members {
        match m {
            Member::Dir(p) => out.extend(header(p, b'5', 0o755, 0, "")),
            Member::File(p, mode, data) => {
                out.extend(header(p, b'0', *mode, data.len(), ""));
                out.extend_from_slice(data);
                while out.len() % 512 != 0 {
                    out.push(0);
                }
            }
            Member::Link(p, to) => out.extend(header(p, b'2', 0o777, 0, to)),
            Member::Fifo(p) => out.extend(header(p, b'6', 0o644, 0, "")),
        }
    }
    out.extend(vec![0u8; 1024]);
    out
}

fn test1_tar() -> Vec<u8> {
    archive(&[
        Member::Dir("./"),
        Member::Dir("./dire/"),
        Member::File("./f", 0o644, b"aaa\n"),
        Member::Link("./f2", "f"),
    ])
}

fn nar_string(s: &[u8]) -> Vec<u8> {
    let mut v = (s.len() as u64).to_le_bytes().to_vec();
    v.extend_from_slice(s);
    while v.len() % 8 != 0 {
        v.push(0);
    }
    v
}

fn test1_nar() -> Vec<u8> {
    let toks: [&[u8]; 39] = [
        b"nix-archive-1", b"(", b"type", b"directory",
        b"entry", b"(", b"name", b"dire", b"node", b"(", b"type", b"directory", b")", b")",
        b"entry", b"(", b"name", b"f", b"node", b"(", b"type", b"regular", b"contents", b"aaa\n", b")", b")",
        b"entry", b"(", b"name", b"f2", b"node", b"(", b"type", b"symlink", b"target", b"f", b")", b")",
        b")",
    ];
    toks.iter().flat_map(|t| nar_string(t)).collect()
}

fn basic_tree() -> FsObject {
    FsObject::Directory(Directory::from_entries(vec![
        dir_entry(b"dire", FsObject::Directory(Directory::default())),
        dir_entry(
            b"f",
            FsObject::File(Executable::NotExecutable, ConstByteStream(b"aaa\n".to_vec())),
        ),
        dir_entry(b"f2", FsObject::Symlink(FileName::singleton(b"f".to_vec()))),
    ]))
}

fn names_of(t: &FsObject) -> Vec<Vec<u8>> {
    match t {
        FsObject::Directory(d) => d.names(),
        _ => panic!("not a directory"),
    }
}

#[test]
fn basic_tar() {
    let tarfile = test1_tar();
    let fso = tar_to_fsobject(&tarfile, StripRoot::DontStripRoot).unwrap();
    assert_eq!(fso, basic_tree());
}

#[test]
fn matches_nix_nar() {
    let tarfile = test1_tar();
    let expected = test1_nar();
    let mut nar: Vec<u8> = Vec::new();
    tar_to_nar(&tarfile, &mut nar, StripRoot::DontStripRoot).unwrap();
    assert_eq!(nar, expected);
}

#[test]
fn strip_root_removes_leading_component() {
    let t = archive(&[
        Member::Dir("pkg-1.0/"),
        Member::File("pkg-1.0/README", 0o644, b"read me\n"),
        Member::File("pkg-1.0/src/main.c", 0o644, b"int main;\n"),
    ]);
    let stripped = tar_to_fsobject(&t, StripRoot::StripRoot).unwrap();
    assert_eq!(names_of(&stripped), vec![b"README".to_vec(), b"src".to_vec()]);
    match &stripped {
        FsObject::Directory(d) => match d.get(b"src") {
            Some(src) => assert_eq!(names_of(src), vec![b"main.c".to_vec()]),
            None => panic!("no src"),
        },
        _ => panic!("not a directory"),
    }
    let kept = tar_to_fsobject(&t, StripRoot::DontStripRoot).unwrap();
    assert_eq!(names_of(&kept), vec![b"pkg-1.0".to_vec()]);
    match &kept {
        FsObject::Directory(d) => {
            let pkg = d.get(b"pkg-1.0").unwrap();
            assert_eq!(names_of(pkg), vec![b"README".to_vec(), b"src".to_vec()]);
        }
        _ => panic!("not a directory"),
    }
}

#[test]
fn executable_bit_comes_from_mode() {
    let t = archive(&[Member::File("run", 0o755, b"x"), Member::File("data", 0o640, b"y")]);
    let fso = tar_to_fsobject(&t, StripRoot::DontStripRoot).unwrap();
    let expected = FsObject::Directory(Directory::from_entries(vec![
        dir_entry(b"data", FsObject::File(Executable::NotExecutable, ConstByteStream(b"y".to_vec()))),
        dir_entry(b"run", FsObject::File(Executable::IsExecutable, ConstByteStream(b"x".to_vec()))),
    ]));
    assert_eq!(fso, expected);
}

#[test]
fn other_member_kinds_are_skipped() {
    let t = archive(&[Member::Fifo("pipe"), Member::File("a", 0o644, b"")]);
    let fso = tar_to_fsobject(&t, StripRoot::DontStripRoot).unwrap();
    assert_eq!(names_of(&fso), vec![b"a".to_vec()]);
}

#[test]
fn directory_listed_after_its_child_converges() {
    let late = archive(&[Member::File("d/x", 0o644, b"1"), Member::Dir("d/")]);
    let early = archive(&[Member::Dir("d/"), Member::File("d/x", 0o644, b"1")]);
    let fso = tar_to_fsobject(&late, StripRoot::DontStripRoot).unwrap();
    match &fso {
        FsObject::Directory(d) => assert_eq!(names_of(d.get(b"d").unwrap()), vec![b"x".to_vec()]),
        _ => panic!("not a directory"),
    }
    assert_eq!(fso, tar_to_fsobject(&early, StripRoot::DontStripRoot).unwrap());
}

#[test]
fn directory_member_replaces_a_file() {
    let t = archive(&[Member::File("d", 0o644, b"1"), Member::Dir("d/")]);
    let fso = tar_to_fsobject(&t, StripRoot::DontStripRoot).unwrap();
    match &fso {
        FsObject::Directory(d) => assert_eq!(d.get(b"d"), Some(&FsObject::Directory(Directory::new()))),
        _ => panic!("not a directory"),
    }
}

#[test]
fn insert_below_a_file_is_a_conflict() {
    let t = archive(&[Member::File("a", 0o644, b"1"), Member::File("a/b", 0o644, b"2")]);
    match tar_to_fsobject(&t, StripRoot::DontStripRoot) {
        Err(Tar2NarError::Conflict(InsertError::NotADirectory)) => {}
        other => panic!("unexpected {:?}", other),
    }
}

#[test]
fn symlink_without_target_is_an_error() {
    let t = archive(&[Member::Link("l", "")]);
    match tar_to_fsobject(&t, StripRoot::DontStripRoot) {
        Err(Tar2NarError::MissingLinkName) => {}
        other => panic!("unexpected {:?}", other),
    }
}

#[test]
fn symlink_targets_are_kept_verbatim() {
    for target in ["/nix/store/abc-x/bin", "./", "../a//b/.", "f"] {
        let t = archive(&[Member::Link("l", target)]);
        let fso = tar_to_fsobject(&t, StripRoot::DontStripRoot).unwrap();
        match &fso {
            FsObject::Directory(d) => match d.get(b"l") {
                Some(FsObject::Symlink(f)) => assert_eq!(f.to_path(), target.as_bytes().to_vec()),
                other => panic!("unexpected {:?}", other),
            },
            _ => panic!("not a directory"),
        }
    }
}

#[test]
fn truncated_content_is_an_io_error() {
    let mut t = header("f", b'0', 0o644, 4096, "");
    t.extend_from_slice(b"short");
    let mut nar: Vec<u8> = Vec::new();
    match tar_to_nar(&t, &mut nar, StripRoot::DontStripRoot) {
        Err(Tar2NarError::Io(_)) => {}
        other => panic!("unexpected {:?}", other),
    }
    assert!(nar.is_empty());
}

#[test]
fn empty_archive_is_an_empty_directory() {
    let fso = tar_to_fsobject(&vec![0u8; 1024], StripRoot::DontStripRoot).unwrap();
    assert_eq!(fso, FsObject::Directory(Directory::new()));
}

#[test]
fn normalised_paths_give_equal_trees() {
    let obj = || FsObject::File(Executable::NotExecutable, ConstByteStream(b"z".to_vec()));
    let paths: [&[u8]; 4] = [b"foo/bar", b"./foo//bar/", b"foo/./bar", b"foo/bar/."];
    let mut trees = Vec::new();
    for p in paths.iter() {
        let mut d = Directory::new();
        place_member(&mut d, p, obj(), StripRoot::DontStripRoot).unwrap();
        trees.push(FsObject::Directory(d));
    }
    for t in trees.iter() {
        assert_eq!(t, &trees[0]);
    }
}

#[test]
fn empty_member_path_is_skipped() {
    let mut d = Directory::new();
    place_member(&mut d, b"./", FsObject::Directory(Directory::new()), StripRoot::DontStripRoot).unwrap();
    assert_eq!(d, Directory::new());
    place_member(&mut d, b"top", FsObject::Directory(Directory::new()), StripRoot::StripRoot).unwrap();
    assert_eq!(d, Directory::new());
}
