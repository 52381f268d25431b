//! Building a filesystem tree, and its NAR, from the bytes of a tar archive.
use std::marker::PhantomData;
use vstd::prelude::*;

use crate::nar::{nar, NarSink};
use crate::path::{components, split_slash, FileName};
use crate::vfs::{dir_insert_with, entries_wf, node_wf, ConstByteStream, Directory, Executable, FsObject, InsertError, Node};

verus! {

/// `std::io::Error`, carried through unread in `Tar2NarError::Io`.
#[verifier::external_type_specification]
#[verifier::external_body]
pub struct ExIoError(std::io::Error);

/// What a tar member is, as far as a NAR can hold it.
#[derive(Clone, Copy, Debug, PartialEq, Eq)]
pub enum MemberKind {
    Directory,
    Regular,
    Symlink,
    Other,
}

/// One member as the tar crate reads it: its kind, its path, its link
/// target, its mode and its whole content; `None` where reading that part
/// fails.
pub struct MemberInfo {
    pub kind: MemberKind,
    pub path: Seq<u8>,
    pub link: Option<Seq<u8>>,
    pub mode: Option<u32>,
    pub contents: Option<Seq<u8>>,
}

/// The members that the tar crate hands out for an archive's bytes, in
/// order, and whether the listing then ends cleanly (`true`) or with an
/// error.
pub uninterp spec fn tar_listing(data: Seq<u8>) -> (Seq<MemberInfo>, bool);

/// An archive being read, over the bytes it was opened on.
#[verifier::external_body]
struct ArchiveInner<'a> {
    inner: tar::Archive<&'a [u8]>,
}

/// The members of an archive, handed out in order.
#[verifier::external_body]
struct EntriesInner<'a> {
    inner: tar::Entries<'a, &'a [u8]>,
}

/// One member of an archive: its header and its unread content.
#[verifier::external_body]
struct EntryInner<'a> {
    inner: tar::Entry<'a, &'a [u8]>,
}

struct TarArchive<'a> {
    inner: ArchiveInner<'a>,
    data: Ghost<Seq<u8>>,
    fresh: Ghost<bool>,
}

struct TarEntries<'a> {
    inner: EntriesInner<'a>,
    data: Ghost<Seq<u8>>,
    pos: Ghost<nat>,
}

/// A member handed out by `next_entry`. It reads through the archive's
/// shared reader, so it keeps the listing borrowed (`'b`) while it lives, and
/// `unread` tells whether its content is still to be read.
struct TarEntry<'b, 'a> {
    inner: EntryInner<'a>,
    data: Ghost<Seq<u8>>,
    index: Ghost<nat>,
    unread: Ghost<bool>,
    borrow: PhantomData<&'b mut ()>,
}

/// Relies on `tar::Archive::new`, which only stores the reader, at position 0.
#[verifier::external_body]
fn open_archive<'a>(data: &'a [u8]) -> (r: TarArchive<'a>)
    ensures
        r.data@ == data@,
        r.fresh@,
{
    TarArchive { inner: ArchiveInner { inner: tar::Archive::new(data) }, data: Ghost(data@), fresh: Ghost(true) }
}

/// Relies on `tar::Archive::entries`, which fails only where the archive is
/// no longer at position 0; the listing starts at the first member.
#[verifier::external_body]
fn archive_entries<'a>(ar: &'a mut TarArchive<'a>) -> (r: Result<TarEntries<'a>, std::io::Error>)
    ensures
        old(ar).fresh@ ==> r is Ok,
        r matches Ok(es) ==> es.data == old(ar).data && es.pos@ == 0,
{
    let data = ar.data;
    match ar.inner.inner.entries() {
        Ok(inner) => Ok(TarEntries { inner: EntriesInner { inner }, data, pos: Ghost(0nat) }),
        Err(e) => Err(e),
    }
}

/// Relies on `Iterator::next` of `tar::Entries`: the next member of the
/// listing, then `None` or the error that ended it. Each member handed out
/// has its own 512-byte header block in the bytes and comes with its content
/// unread; it holds the listing borrowed until it is dropped, so no older
/// member is read once the listing has moved on.
#[verifier::external_body]
fn next_entry<'b, 'a>(es: &'b mut TarEntries<'a>) -> (r: Option<Result<TarEntry<'b, 'a>, std::io::Error>>)
    ensures
        final(es).data == old(es).data,
        final(es).pos@ == old(es).pos@ + 1,
        old(es).pos@ < tar_listing(old(es).data@).0.len() ==> (r matches Some(Ok(e)) && e.data == old(es).data
            && e.index@ == old(es).pos@ && e.unread@),
        old(es).pos@ == tar_listing(old(es).data@).0.len() ==> (if tar_listing(old(es).data@).1 {
            r is None
        } else {
            r matches Some(Err(_))
        }),
        r matches Some(Ok(_)) ==> final(es).pos@ * 512 <= old(es).data@.len(),
{
    let data = es.data;
    let index = es.pos;
    let unread = Ghost(true);
    es.inner.inner.next().map(|r| r.map(|inner| TarEntry { inner: EntryInner { inner }, data, index, unread, borrow: PhantomData }))
}

/// Relies on `tar::Entry::header` and `tar::Header::entry_type`: the member's
/// type flag, one arm per kind kept (the same variants that `is_dir`,
/// `is_file` and `is_symlink` test).
#[verifier::external_body]
fn entry_kind<'b, 'a>(e: &TarEntry<'b, 'a>) -> (r: MemberKind)
    requires
        e.index@ < tar_listing(e.data@).0.len(),
    ensures
        r == tar_listing(e.data@).0[e.index@ as int].kind,
{
    match e.inner.inner.header().entry_type() {
        tar::EntryType::Directory => MemberKind::Directory,
        tar::EntryType::Regular => MemberKind::Regular,
        tar::EntryType::Symlink => MemberKind::Symlink,
        _ => MemberKind::Other,
    }
}

/// Relies on `tar::Header::mode`.
#[verifier::external_body]
fn entry_mode<'b, 'a>(e: &TarEntry<'b, 'a>) -> (r: Result<u32, std::io::Error>)
    requires
        e.index@ < tar_listing(e.data@).0.len(),
    ensures
        match tar_listing(e.data@).0[e.index@ as int].mode {
            Some(m) => r matches Ok(x) && x == m,
            None => r is Err,
        },
{
    e.inner.inner.header().mode()
}

/// Relies on `std::io::Read::read_to_end` on `tar::Entry`: the member's
/// content, on the first read of an entry that is still the current one (its
/// borrow of the listing keeps it so); the read uses the content up.
#[verifier::external_body]
fn entry_contents<'b, 'a>(e: &mut TarEntry<'b, 'a>) -> (r: Result<Vec<u8>, std::io::Error>)
    requires
        old(e).index@ < tar_listing(old(e).data@).0.len(),
        old(e).unread@,
    ensures
        final(e).data == old(e).data,
        final(e).index == old(e).index,
        !final(e).unread@,
        match tar_listing(old(e).data@).0[old(e).index@ as int].contents {
            Some(c) => r matches Ok(v) && v@ == c,
            None => r is Err,
        },
{
    let mut v = Vec::new();
    e.unread = Ghost(false);
    std::io::Read::read_to_end(&mut e.inner.inner, &mut v).map(|_| v)
}

/// Relies on `tar::Entry::path_bytes`.
#[verifier::external_body]
fn entry_path<'b, 'a>(e: &TarEntry<'b, 'a>) -> (r: Vec<u8>)
    requires
        e.index@ < tar_listing(e.data@).0.len(),
    ensures
        r@ == tar_listing(e.data@).0[e.index@ as int].path,
{
    e.inner.inner.path_bytes().into_owned()
}

/// Relies on `tar::Entry::link_name_bytes`.
#[verifier::external_body]
fn entry_link<'b, 'a>(e: &TarEntry<'b, 'a>) -> (r: Option<Vec<u8>>)
    requires
        e.index@ < tar_listing(e.data@).0.len(),
    ensures
        match tar_listing(e.data@).0[e.index@ as int].link {
            Some(l) => r matches Some(v) && v@ == l,
            None => r is None,
        },
{
    e.inner.inner.link_name_bytes().map(|c| c.into_owned())
}

/// Whether the single leading component of every member's path is removed.
#[derive(Clone, Copy, Debug, PartialEq, Eq)]
pub enum StripRoot {
    StripRoot,
    DontStripRoot,
}

/// Why a conversion failed.
#[derive(Debug)]
pub enum Tar2NarError {
    /// The archive could not be read: a malformed header or short content.
    Io(std::io::Error),
    /// A symlink member without a link target.
    MissingLinkName,
    /// A member lies below a name that is not a directory.
    Conflict(InsertError),
}

/// The kinds of failure, without what they carry.
#[derive(Clone, Copy, Debug, PartialEq, Eq)]
pub enum DecodeFailure {
    Read,
    MissingLinkName,
    Conflict,
}

pub open spec fn failure_of(e: Tar2NarError) -> DecodeFailure {
    match e {
        Tar2NarError::Io(_) => DecodeFailure::Read,
        Tar2NarError::MissingLinkName => DecodeFailure::MissingLinkName,
        Tar2NarError::Conflict(_) => DecodeFailure::Conflict,
    }
}

/// The path a member is stored at, or `None` where it is skipped: an empty
/// path (`.`, `./`), or with `StripRoot` one of a single component.
pub open spec fn member_path(path: Seq<u8>, strip_root: StripRoot) -> Option<Seq<Seq<u8>>> {
    let c = components(path);
    if c.len() == 0 {
        None
    } else if strip_root == StripRoot::StripRoot {
        if c.len() <= 1 {
            None
        } else {
            Some(c.drop_first())
        }
    } else {
        Some(c)
    }
}

/// The root's entries after placing a member; `None` on a conflict.
pub open spec fn place(es: Seq<(Seq<u8>, Node)>, path: Seq<u8>, obj: Node, strip_root: StripRoot) -> Option<Seq<(Seq<u8>, Node)>> {
    match member_path(path, strip_root) {
        None => Some(es),
        Some(p) => dir_insert_with(es, p, obj, true),
    }
}

/// What a member turns into: nothing (other kinds), an object, or a failure.
/// A file is executable where any bit of `0o111` is set in its mode; a
/// symlink keeps its target byte for byte.
pub open spec fn member_outcome(m: MemberInfo) -> Option<Result<Node, DecodeFailure>> {
    match m.kind {
        MemberKind::Directory => Some(Ok(Node::Dir { entries: Seq::empty() })),
        MemberKind::Regular => match (m.contents, m.mode) {
            (Some(c), Some(md)) => Some(Ok(Node::File { executable: md & 0o111u32 != 0, contents: c })),
            _ => Some(Err(DecodeFailure::Read)),
        },
        MemberKind::Symlink => match m.link {
            Some(l) => Some(Ok(Node::Symlink { target: split_slash(l) })),
            None => Some(Err(DecodeFailure::MissingLinkName)),
        },
        MemberKind::Other => None,
    }
}

/// The root's entries after one more member.
pub open spec fn decode_step(es: Seq<(Seq<u8>, Node)>, m: MemberInfo, strip_root: StripRoot) -> Result<Seq<(Seq<u8>, Node)>, DecodeFailure> {
    match member_outcome(m) {
        None => Ok(es),
        Some(Err(f)) => Err(f),
        Some(Ok(n)) => match place(es, m.path, n, strip_root) {
            Some(es2) => Ok(es2),
            None => Err(DecodeFailure::Conflict),
        },
    }
}

/// The root's entries after the members in order, from an empty root; the
/// first failure ends it.
pub open spec fn decode_members(ms: Seq<MemberInfo>, strip_root: StripRoot) -> Result<Seq<(Seq<u8>, Node)>, DecodeFailure>
    decreases ms.len(),
{
    if ms.len() == 0 {
        Ok(Seq::empty())
    } else {
        match decode_members(ms.drop_last(), strip_root) {
            Err(f) => Err(f),
            Ok(es) => decode_step(es, ms.last(), strip_root),
        }
    }
}

/// The root's entries for an archive: its members decoded, unless one fails
/// or the listing ends with a read error.
pub open spec fn tar_tree(data: Seq<u8>, strip_root: StripRoot) -> Result<Seq<(Seq<u8>, Node)>, DecodeFailure> {
    match decode_members(tar_listing(data).0, strip_root) {
        Err(f) => Err(f),
        Ok(es) => if tar_listing(data).1 {
            Ok(es)
        } else {
            Err(DecodeFailure::Read)
        },
    }
}

proof fn lemma_decode_failure_sticks(ms: Seq<MemberInfo>, n: int, strip_root: StripRoot)
    requires
        0 <= n <= ms.len(),
        decode_members(ms.subrange(0, n), strip_root) is Err,
    ensures
        decode_members(ms, strip_root) == decode_members(ms.subrange(0, n), strip_root),
    decreases ms.len() - n,
{
    if n < ms.len() {
        assert(ms.subrange(0, n + 1).drop_last() =~= ms.subrange(0, n));
        lemma_decode_failure_sticks(ms, n + 1, strip_root);
    } else {
        assert(ms.subrange(0, n) =~= ms);
    }
}

/// A regular file from its mode and content.
pub fn file_object(mode: u32, contents: Vec<u8>) -> (r: FsObject)
    ensures
        r@ == (Node::File { executable: mode & 0o111u32 != 0, contents: contents@ }),
{
    FsObject::File(Executable::from_mode(mode), ConstByteStream(contents))
}

/// A symlink to the link target, kept byte for byte; fails without one.
pub fn symlink_object(link: Option<Vec<u8>>) -> (r: Result<FsObject, Tar2NarError>)
    ensures
        match link {
            Some(l) => r matches Ok(o) && o@ == (Node::Symlink { target: split_slash(l@) }),
            None => r matches Err(Tar2NarError::MissingLinkName),
        },
{
    match link {
        Some(l) => Ok(FsObject::Symlink(FileName::verbatim(l.as_slice()))),
        None => Err(Tar2NarError::MissingLinkName),
    }
}

/// Places one member into the root: parses its path, strips the root
/// component when asked, and inserts the object there.
pub fn place_member(tree: &mut Directory, path: &[u8], obj: FsObject, strip_root: StripRoot) -> (r: Result<(), Tar2NarError>)
    requires
        entries_wf(old(tree)@),
        node_wf(obj@),
    ensures
        r is Ok <==> place(old(tree)@, path@, obj@, strip_root) is Some,
        r is Ok ==> final(tree)@ == place(old(tree)@, path@, obj@, strip_root).unwrap(),
        r is Err ==> final(tree)@ == old(tree)@ && r matches Err(Tar2NarError::Conflict(InsertError::NotADirectory)),
        entries_wf(final(tree)@),
{
    let name = match FileName::try_from_bytes(path) {
        Err(_) => {
            return Ok(());
        },
        Ok(n) => n,
    };
    let name = match strip_root {
        StripRoot::StripRoot => match name.drop_first() {
            None => {
                return Ok(());
            },
            Some(n) => n,
        },
        StripRoot::DontStripRoot => name,
    };
    match tree.insert_keeping_dirs(&name, obj) {
        Ok(()) => Ok(()),
        Err(e) => Err(Tar2NarError::Conflict(e)),
    }
}

/// Reads a tar archive into a tree whose root is a directory holding the
/// members (see `tar_tree`): directories, regular files and symlinks are
/// kept, other members are skipped, and so are members whose path is empty
/// (`.`, `./`) or, with `StripRoot`, has a single component.
pub fn tar_to_fsobject(tar: &[u8], strip_root: StripRoot) -> (r: Result<FsObject, Tar2NarError>)
    ensures
        match tar_tree(tar@, strip_root) {
            Ok(es) => r matches Ok(t) && t@ == (Node::Dir { entries: es }),
            Err(f) => r matches Err(e) && failure_of(e) == f,
        },
        r matches Ok(t) ==> (t@ matches Node::Dir { entries } && entries_wf(entries)),
{
    let ghost ms = tar_listing(tar@).0;
    let mut archive = open_archive(tar);
    let mut members = match archive_entries(&mut archive) {
        Ok(m) => m,
        Err(e) => {
            return Err(Tar2NarError::Io(e));
        },
    };
    let mut tree = Directory::new();
    assert(ms.subrange(0, 0) =~= Seq::<MemberInfo>::empty());
    loop
        invariant
            ms == tar_listing(tar@).0,
            members.data@ == tar@,
            members.pos@ <= ms.len(),
            members.pos@ * 512 <= tar@.len(),
            decode_members(ms.subrange(0, members.pos@ as int), strip_root) == Ok::<Seq<(Seq<u8>, Node)>, DecodeFailure>(tree@),
            entries_wf(tree@),
        decreases tar@.len() - members.pos@ * 512,
    {
        let ghost i = members.pos@ as int;
        let mut member = match next_entry(&mut members) {
            None => {
                assert(ms.subrange(0, i) =~= ms);
                let r = FsObject::Directory(tree);
                return Ok(r);
            },
            Some(Err(e)) => {
                assert(ms.subrange(0, i) =~= ms);
                return Err(Tar2NarError::Io(e));
            },
            Some(Ok(m)) => m,
        };
        let ghost info = ms[i];
        proof {
            assert(ms.subrange(0, i + 1).drop_last() =~= ms.subrange(0, i));
            assert(ms.subrange(0, i + 1).last() == info);
        }
        let obj = match entry_kind(&member) {
            MemberKind::Directory => FsObject::Directory(Directory::new()),
            MemberKind::Regular => {
                let v = match entry_contents(&mut member) {
                    Ok(v) => v,
                    Err(e) => {
                        proof {
                            lemma_decode_failure_sticks(ms, i + 1, strip_root);
                        }
                        return Err(Tar2NarError::Io(e));
                    },
                };
                let mode = match entry_mode(&member) {
                    Ok(m) => m,
                    Err(e) => {
                        proof {
                            lemma_decode_failure_sticks(ms, i + 1, strip_root);
                        }
                        return Err(Tar2NarError::Io(e));
                    },
                };
                file_object(mode, v)
            },
            MemberKind::Symlink => match symlink_object(entry_link(&member)) {
                Ok(o) => o,
                Err(e) => {
                    proof {
                        lemma_decode_failure_sticks(ms, i + 1, strip_root);
                    }
                    return Err(e);
                },
            },
            MemberKind::Other => {
                continue;
            },
        };
        let path = entry_path(&member);
        assert(member_outcome(info) == Some(Ok::<Node, DecodeFailure>(obj@)));
        match place_member(&mut tree, path.as_slice(), obj, strip_root) {
            Ok(()) => {},
            Err(e) => {
                proof {
                    lemma_decode_failure_sticks(ms, i + 1, strip_root);
                }
                return Err(e);
            },
        }
    }
}

/// Reads a tar archive and writes the NAR of its tree into `into`; nothing is
/// written when reading fails.
pub fn tar_to_nar<W: NarSink>(tar: &[u8], into: &mut W, strip_root: StripRoot) -> (r: Result<(), Tar2NarError>)
    ensures
        match tar_tree(tar@, strip_root) {
            Ok(es) => r is Ok && final(into).written() == old(into).written() + nar(Node::Dir { entries: es }),
            Err(f) => r matches Err(e) && failure_of(e) == f && final(into).written() == old(into).written(),
        },
{
    let fso = match tar_to_fsobject(tar, strip_root) {
        Ok(t) => t,
        Err(e) => {
            return Err(e);
        },
    };
    fso.serialise_toplevel(into);
    Ok(())
}

} // verus!
