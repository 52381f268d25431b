use nyarr::path::{FileName, PathError};

fn parts(p: &FileName) -> Vec<Vec<u8>> {
    let mut out = Vec::new();
    let mut cur = p.clone();
    loop {
        out.push(cur.file_name().unwrap().clone());
        match cur.parent() {
            Some(q) => cur = q,
            None => break,
        }
    }
    out.reverse();
    out
}

#[test]
fn parsing_normalises() {
    let f = FileName::try_from_bytes(b"./foo/").unwrap();
    assert_eq!(parts(&f), vec![b"foo".to_vec()]);
    let f = FileName::try_from_bytes(b"foo//bar").unwrap();
    assert_eq!(parts(&f), vec![b"foo".to_vec(), b"bar".to_vec()]);
    let f = FileName::try_from_bytes(b"foo/").unwrap();
    assert_eq!(f, FileName::singleton(b"foo".to_vec()));
    let f = FileName::try_from_bytes(b"/abs/./x/..").unwrap();
    assert_eq!(f.to_path(), b"abs/x/..".to_vec());
}

#[test]
fn empty_paths_are_rejected() {
    for p in [&b""[..], b".", b"./", b"//", b"./././"] {
        assert_eq!(FileName::try_from_bytes(p), Err(PathError::EmptyFileName));
    }
}

#[test]
fn parent_and_drop_first() {
    let f = FileName::try_from_bytes(b"a/b/c").unwrap();
    assert_eq!(f.parent().unwrap().to_path(), b"a/b".to_vec());
    assert_eq!(f.drop_first().unwrap().to_path(), b"b/c".to_vec());
    assert_eq!(f.file_name().unwrap(), &b"c".to_vec());
    let one = FileName::singleton(b"a".to_vec());
    assert_eq!(one.parent(), None);
    assert_eq!(one.drop_first(), None);
    assert_eq!(one.to_path(), b"a".to_vec());
}

#[test]
fn non_utf8_components_are_kept() {
    let f = FileName::try_from_bytes(b"\xff\xfe/\x80").unwrap();
    assert_eq!(f.to_path(), b"\xff\xfe/\x80".to_vec());
}

#[test]
fn reparsing_a_joined_path_is_stable() {
    for p in [&b"./a//b/"[..], b"x", b"/abs/./y/", b"a/../b"] {
        let f = FileName::try_from_bytes(p).unwrap();
        let again = FileName::try_from_bytes(&f.to_path()).unwrap();
        assert_eq!(again, f);
    }
}
