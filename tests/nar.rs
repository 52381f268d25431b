use nyarr::hash::NarHasher;
use nyarr::nar::NarSink;
use nyarr::path::FileName;
use nyarr::vfs::{dir_entry, ConstByteStream, Directory, Executable, FsObject};

fn check(inp: &[u8], expected: &[u8]) {
    let mut out: Vec<u8> = Vec::new();
    nyarr::nar::str(inp, &mut out);
    string_props(&out);
    assert_eq!(&out[..], expected);
}

fn string_props(v: &[u8]) {
    let (len, rest) = v.split_at(8);
    let len = u64::from_le_bytes(len.try_into().unwrap());
    assert!(rest.len() as u64 >= len);
    assert_eq!(rest.len() & 0x7, 0);
}

/// An independent NAR string encoder for building expected outputs.
fn nar_string(s: &[u8]) -> Vec<u8> {
    let mut v = (s.len() as u64).to_le_bytes().to_vec();
    v.extend_from_slice(s);
    while v.len() % 8 != 0 {
        v.push(0);
    }
    v
}

fn nar_of(tokens: &[&[u8]]) -> Vec<u8> {
    tokens.iter().flat_map(|t| nar_string(t)).collect()
}

fn expected_basic_nar() -> Vec<u8> {
    nar_of(&[
        b"nix-archive-1", b"(", b"type", b"directory",
        b"entry", b"(", b"name", b"dire", b"node", b"(", b"type", b"directory", b")", b")",
        b"entry", b"(", b"name", b"f", b"node", b"(", b"type", b"regular", b"contents", b"aaa\n", b")", b")",
        b"entry", b"(", b"name", b"f2", b"node", b"(", b"type", b"symlink", b"target", b"f", b")", b")",
        b")",
    ])
}

fn check_tree(t: FsObject, expected: &[u8]) {
    let mut out: Vec<u8> = Vec::new();
    t.serialise_toplevel(&mut out);
    assert_eq!(expected, &out[..]);
}

fn basic_tree() -> FsObject {
    FsObject::Directory(Directory::from_entries(vec![
        dir_entry(b"dire", FsObject::Directory(Directory::default())),
        dir_entry(
            b"f",
            FsObject::File(Executable::NotExecutable, ConstByteStream(b"aaa\n".to_vec())),
        ),
        dir_entry(b"f2", FsObject::Symlink(FileName::singleton(b"f".to_vec()))),
    ]))
}

#[test]
fn string_padding() {
    check(b"", b"\x00\x00\x00\x00\x00\x00\x00\x00");
    check(
        b"\x10\x12",
        b"\x02\x00\x00\x00\x00\x00\x00\x00\x10\x12\x00\x00\x00\x00\x00\x00",
    );
    check(
        b"\x10\x11\x12\x13\x14\x15\x16\x17",
        b"\x08\x00\x00\x00\x00\x00\x00\x00\x10\x11\x12\x13\x14\x15\x16\x17",
    );
}

#[test]
fn basic() {
    check_tree(basic_tree(), &expected_basic_nar());
}

#[test]
fn unordered() {
    check_tree(
        FsObject::Directory(Directory::from_entries(vec![
            dir_entry(
                b"f",
                FsObject::File(Executable::NotExecutable, ConstByteStream(b"aaa\n".to_vec())),
            ),
            dir_entry(b"dire", FsObject::Directory(Directory::default())),
            dir_entry(b"f2", FsObject::Symlink(FileName::singleton(b"f".to_vec()))),
        ])),
        &expected_basic_nar(),
    );
}

#[test]
fn string_length_is_padded_for_every_length() {
    for n in 0..40usize {
        let s: Vec<u8> = (0..n).map(|i| i as u8).collect();
        let mut out: Vec<u8> = Vec::new();
        nyarr::nar::str(&s, &mut out);
        let pad = (8 - n % 8) % 8;
        assert_eq!(out.len(), 8 + n + pad);
        assert_eq!(out.len() % 8, 0);
        assert_eq!(&out[..8], &(n as u64).to_le_bytes());
        assert_eq!(&out[8..8 + n], &s[..]);
        assert!(out[8 + n..].iter().all(|&b| b == 0));
    }
}

#[test]
fn serialising_twice_is_identical() {
    let t = basic_tree();
    let mut a: Vec<u8> = Vec::new();
    let mut b: Vec<u8> = Vec::new();
    t.serialise_toplevel(&mut a);
    t.serialise_toplevel(&mut b);
    assert_eq!(a, b);
}

#[test]
fn every_insertion_order_gives_the_same_nar() {
    let names: [&[u8]; 4] = [b"b", b"a", b"ab", b"\xff"];
    let orders = [[0, 1, 2, 3], [3, 2, 1, 0], [2, 0, 3, 1], [1, 3, 0, 2]];
    let mut outputs = Vec::new();
    for order in orders.iter() {
        let mut d = Directory::new();
        for &i in order.iter() {
            let obj = FsObject::File(Executable::NotExecutable, ConstByteStream(names[i].to_vec()));
            d.insert(&FileName::singleton(names[i].to_vec()), obj).unwrap();
        }
        let mut out: Vec<u8> = Vec::new();
        FsObject::Directory(d).serialise_toplevel(&mut out);
        outputs.push(out);
    }
    for o in outputs.iter() {
        assert_eq!(o, &outputs[0]);
    }
    let expected = {
        let mut toks: Vec<Vec<u8>> = vec![b"nix-archive-1".to_vec(), b"(".to_vec(), b"type".to_vec(), b"directory".to_vec()];
        for name in [&b"a"[..], b"ab", b"b", b"\xff"] {
            for t in [&b"entry"[..], b"(", b"name", name, b"node", b"(", b"type", b"regular", b"contents", name, b")", b")"] {
                toks.push(t.to_vec());
            }
        }
        toks.push(b")".to_vec());
        let refs: Vec<&[u8]> = toks.iter().map(|t| &t[..]).collect();
        nar_of(&refs)
    };
    assert_eq!(outputs[0], expected);
}

#[test]
fn executable_file_has_marker_and_empty_string() {
    let t = FsObject::File(Executable::IsExecutable, ConstByteStream(b"#!/bin/sh\n".to_vec()));
    let mut out: Vec<u8> = Vec::new();
    t.serialise_toplevel(&mut out);
    let expected = nar_of(&[
        b"nix-archive-1", b"(", b"type", b"regular", b"executable", b"", b"contents", b"#!/bin/sh\n", b")",
    ]);
    assert_eq!(out, expected);
}

#[test]
fn nested_symlink_target_is_joined() {
    let target = FileName::try_from_bytes(b"../lib//x/").unwrap();
    let t = FsObject::Symlink(target);
    let mut out: Vec<u8> = Vec::new();
    t.serialise_one(&mut out);
    assert_eq!(out, nar_of(&[b"type", b"symlink", b"target", b"../lib/x"]));
}

#[test]
fn hasher_digest_of_nothing() {
    let h = NarHasher::new();
    assert_eq!(h.digest(), "sha256-47DEQpj8HBSa+/TImW+5JCeuQeRkm5NMpJWZG3hSuFU=");
}

#[test]
fn hasher_digest_of_abc() {
    let mut h = NarHasher::new();
    h.write_bytes(b"a");
    h.write_bytes(b"bc");
    assert_eq!(h.digest(), "sha256-ungWv48Bz+pBQUDeXa4iI7ADYaOWF3qctBD/YfIAFa0=");
}

#[test]
fn hasher_matches_serialised_bytes() {
    let t = basic_tree();
    let mut h1 = NarHasher::new();
    let mut h2 = NarHasher::new();
    t.serialise_toplevel(&mut h1);
    let mut h2_bytes: Vec<u8> = Vec::new();
    t.serialise_toplevel(&mut h2_bytes);
    h2.write_bytes(&h2_bytes);
    assert_eq!(h1.digest(), h2.digest());
}

#[test]
fn sri_string_prefixes() {
    assert_eq!(nyarr::hash::sri_string("abc"), "sha256-abc");
}

#[test]
fn nested_insertion_order_gives_the_same_nar() {
    let paths: [&[u8]; 4] = [b"src/main.c", b"src/lib/util.c", b"README", b"docs/a/b"];
    let orders = [[0, 1, 2, 3], [3, 2, 1, 0], [1, 3, 0, 2], [2, 0, 3, 1]];
    let mut outputs = Vec::new();
    for order in orders.iter() {
        let mut d = Directory::new();
        for &i in order.iter() {
            let obj = FsObject::File(Executable::NotExecutable, ConstByteStream(paths[i].to_vec()));
            d.insert(&FileName::try_from_bytes(paths[i]).unwrap(), obj).unwrap();
        }
        let mut out: Vec<u8> = Vec::new();
        FsObject::Directory(d).serialise_toplevel(&mut out);
        outputs.push(out);
    }
    for o in outputs.iter() {
        assert_eq!(o, &outputs[0]);
    }
    let file = |c: &'static [u8]| -> Vec<&'static [u8]> {
        vec![b"(", b"type", b"regular", b"contents", c, b")"]
    };
    let mut toks: Vec<&[u8]> = vec![b"nix-archive-1", b"(", b"type", b"directory"];
    toks.extend([&b"entry"[..], b"(", b"name", b"README", b"node"]);
    toks.extend(file(b"README"));
    toks.push(b")");
    toks.extend([&b"entry"[..], b"(", b"name", b"docs", b"node", b"(", b"type", b"directory"]);
    toks.extend([&b"entry"[..], b"(", b"name", b"a", b"node", b"(", b"type", b"directory"]);
    toks.extend([&b"entry"[..], b"(", b"name", b"b", b"node"]);
    toks.extend(file(b"docs/a/b"));
    toks.extend([&b")"[..], b")", b")", b")", b")"]);
    toks.extend([&b"entry"[..], b"(", b"name", b"src", b"node", b"(", b"type", b"directory"]);
    toks.extend([&b"entry"[..], b"(", b"name", b"lib", b"node", b"(", b"type", b"directory"]);
    toks.extend([&b"entry"[..], b"(", b"name", b"util.c", b"node"]);
    toks.extend(file(b"src/lib/util.c"));
    toks.extend([&b")"[..], b")", b")"]);
    toks.extend([&b"entry"[..], b"(", b"name", b"main.c", b"node"]);
    toks.extend(file(b"src/main.c"));
    toks.extend([&b")"[..], b")", b")", b")"]);
    assert_eq!(outputs[0], nar_of(&toks));
}
