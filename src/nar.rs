//! The NAR wire format: length-prefixed strings padded to eight bytes, and the
//! canonical serialisation of a filesystem tree.
use vstd::prelude::*;

use crate::path::join_path;
use crate::vfs::{all_entries_view, fs_view, ConstByteStream, Executable, FsObject, Node};

verus! {

/// Somewhere bytes can be written to, in order, without failure.
pub trait NarSink {
    /// Everything written so far.
    spec fn written(&self) -> Seq<u8>;

    fn write_bytes(&mut self, b: &[u8])
        ensures
            final(self).written() == old(self).written() + b@,
    ;
}

impl NarSink for Vec<u8> {
    open spec fn written(&self) -> Seq<u8> {
        self@
    }

    fn write_bytes(&mut self, b: &[u8]) {
        self.extend_from_slice(b);
        assert(self@ =~= old(self)@ + b@);
    }
}

/// Content that knows its length and can write itself out.
pub trait ByteStream {
    spec fn bytes(&self) -> Seq<u8>;

    fn write_into<W: NarSink>(&self, w: &mut W)
        ensures
            final(w).written() == old(w).written() + self.bytes(),
    ;

    fn len(&self) -> (r: usize)
        ensures
            r == self.bytes().len(),
    ;
}

impl ByteStream for ConstByteStream {
    open spec fn bytes(&self) -> Seq<u8> {
        self.0@
    }

    fn write_into<W: NarSink>(&self, w: &mut W) {
        w.write_bytes(self.0.as_slice());
    }

    fn len(&self) -> (r: usize) {
        self.0.len()
    }
}

/// `n` as `k` bytes, least significant first.
pub open spec fn le_bytes(n: nat, k: nat) -> Seq<u8>
    decreases k,
{
    if k == 0 {
        Seq::empty()
    } else {
        seq![(n % 256) as u8] + le_bytes(n / 256, (k - 1) as nat)
    }
}

/// Zero bytes that bring a length of `n` to a multiple of eight.
pub open spec fn pad_len(n: nat) -> nat {
    ((8 - n % 8) % 8) as nat
}

pub open spec fn zeros(n: nat) -> Seq<u8> {
    Seq::new(n, |i: int| 0u8)
}

/// `str(s)`: the length as a 64-bit little-endian integer, the bytes, then the
/// padding.
pub open spec fn nar_str(s: Seq<u8>) -> Seq<u8> {
    le_bytes(s.len(), 8) + s + zeros(pad_len(s.len()))
}


/// Writes `n` as a 64-bit little-endian integer.
fn write_len<W: NarSink>(n: usize, w: &mut W)
    ensures
        final(w).written() == old(w).written() + le_bytes(n as nat, 8),
{
    let mut buf: Vec<u8> = Vec::new();
    let mut v: usize = n;
    let mut i: usize = 0;
    while i < 8
        invariant
            i <= 8,
            buf@ + le_bytes(v as nat, (8 - i) as nat) == le_bytes(n as nat, 8),
        decreases 8 - i,
    {
        let ghost before = buf@;
        buf.push((v % 256) as u8);
        proof {
            assert(le_bytes(v as nat, (8 - i) as nat) == seq![(v % 256) as u8] + le_bytes((v / 256) as nat, (8 - i - 1) as nat));
            assert(buf@ + le_bytes((v / 256) as nat, (8 - i - 1) as nat) =~= before + le_bytes(v as nat, (8 - i) as nat));
        }
        v = v / 256;
        i = i + 1;
    }
    assert(buf@ =~= le_bytes(n as nat, 8));
    w.write_bytes(buf.as_slice());
}

/// Writes the zero padding that follows `n` bytes.
fn write_padding<W: NarSink>(n: usize, w: &mut W)
    ensures
        final(w).written() == old(w).written() + zeros(pad_len(n as nat)),
{
    let r = n % 8;
    let p: usize = if r == 0 { 0 } else { 8 - r };
    let z: Vec<u8> = vec![0u8; p];
    assert(z@ =~= zeros(pad_len(n as nat)));
    w.write_bytes(z.as_slice());
}

/// Writes `s` as a NAR string: length, bytes, padding.
pub fn str<W: NarSink>(s: &[u8], w: &mut W)
    ensures
        final(w).written() == old(w).written() + nar_str(s@),
{
    write_len(s.len(), w);
    w.write_bytes(s);
    write_padding(s.len(), w);
    assert(final(w).written() =~= old(w).written() + nar_str(s@));
}

/// Writes a stream's content as a NAR string.
fn str_of_stream<T: ByteStream, W: NarSink>(content: &T, w: &mut W)
    ensures
        final(w).written() == old(w).written() + nar_str(content.bytes()),
{
    let n = content.len();
    write_len(n, w);
    content.write_into(w);
    write_padding(n, w);
    assert(final(w).written() =~= old(w).written() + nar_str(content.bytes()));
}

/// The fixed words of the format.
#[derive(Clone, Copy, Debug, PartialEq, Eq)]
pub enum Tag {
    /// `"nix-archive-1"`
    Magic,
    /// `"("`
    Open,
    /// `")"`
    Close,
    /// `"type"`
    Type,
    /// `"regular"`
    Regular,
    /// `"executable"`
    Executable,
    /// `""`
    Empty,
    /// `"contents"`
    Contents,
    /// `"directory"`
    Directory,
    /// `"entry"`
    Entry,
    /// `"name"`
    Name,
    /// `"node"`
    Node,
    /// `"symlink"`
    Symlink,
    /// `"target"`
    Target,
}

/// The bytes of a fixed word, in ASCII.
pub open spec fn tag(t: Tag) -> Seq<u8> {
    match t {
        Tag::Magic => seq![110u8, 105, 120, 45, 97, 114, 99, 104, 105, 118, 101, 45, 49],
        Tag::Open => seq![40u8],
        Tag::Close => seq![41u8],
        Tag::Type => seq![116u8, 121, 112, 101],
        Tag::Regular => seq![114u8, 101, 103, 117, 108, 97, 114],
        Tag::Executable => seq![101u8, 120, 101, 99, 117, 116, 97, 98, 108, 101],
        Tag::Empty => Seq::empty(),
        Tag::Contents => seq![99u8, 111, 110, 116, 101, 110, 116, 115],
        Tag::Directory => seq![100u8, 105, 114, 101, 99, 116, 111, 114, 121],
        Tag::Entry => seq![101u8, 110, 116, 114, 121],
        Tag::Name => seq![110u8, 97, 109, 101],
        Tag::Node => seq![110u8, 111, 100, 101],
        Tag::Symlink => seq![115u8, 121, 109, 108, 105, 110, 107],
        Tag::Target => seq![116u8, 97, 114, 103, 101, 116],
    }
}

fn tag_bytes(t: Tag) -> (r: Vec<u8>)
    ensures
        r@ == tag(t),
{
    let r: Vec<u8> = match t {
        Tag::Magic => vec![110u8, 105, 120, 45, 97, 114, 99, 104, 105, 118, 101, 45, 49],
        Tag::Open => vec![40u8],
        Tag::Close => vec![41u8],
        Tag::Type => vec![116u8, 121, 112, 101],
        Tag::Regular => vec![114u8, 101, 103, 117, 108, 97, 114],
        Tag::Executable => vec![101u8, 120, 101, 99, 117, 116, 97, 98, 108, 101],
        Tag::Empty => Vec::new(),
        Tag::Contents => vec![99u8, 111, 110, 116, 101, 110, 116, 115],
        Tag::Directory => vec![100u8, 105, 114, 101, 99, 116, 111, 114, 121],
        Tag::Entry => vec![101u8, 110, 116, 114, 121],
        Tag::Name => vec![110u8, 97, 109, 101],
        Tag::Node => vec![110u8, 111, 100, 101],
        Tag::Symlink => vec![115u8, 121, 109, 108, 105, 110, 107],
        Tag::Target => vec![116u8, 97, 114, 103, 101, 116],
    };
    assert(r@ =~= tag(t));
    r
}

/// Writes a fixed word as a NAR string.
fn str_tag<W: NarSink>(t: Tag, w: &mut W)
    ensures
        final(w).written() == old(w).written() + nar_str(tag(t)),
{
    let b = tag_bytes(t);
    str(b.as_slice(), w);
}


/// Writes `"type"` and then the kind of object.
fn type_<W: NarSink>(kind: Tag, w: &mut W)
    ensures
        final(w).written() == old(w).written() + nar_str(tag(Tag::Type)) + nar_str(tag(kind)),
{
    str_tag(Tag::Type, w);
    str_tag(kind, w);
}

/// `serialise''`: the body of one object, without the parentheses.
pub open spec fn nar_one(n: Node) -> Seq<u8>
    decreases n, 0nat,
{
    match n {
        Node::File { executable, contents } => nar_str(tag(Tag::Type)) + nar_str(tag(Tag::Regular)) + (if executable {
            nar_str(tag(Tag::Executable)) + nar_str(tag(Tag::Empty))
        } else {
            Seq::empty()
        }) + nar_str(tag(Tag::Contents)) + nar_str(contents),
        Node::Dir { entries } => nar_str(tag(Tag::Type)) + nar_str(tag(Tag::Directory)) + nar_entries(
            entries,
            entries.len() as nat,
        ),
        Node::Symlink { target } => nar_str(tag(Tag::Type)) + nar_str(tag(Tag::Symlink)) + nar_str(tag(Tag::Target))
            + nar_str(join_path(target)),
    }
}

/// The first `k` entries of a directory, in the order they are held.
pub open spec fn nar_entries(es: Seq<(Seq<u8>, Node)>, k: nat) -> Seq<u8>
    decreases es, k,
{
    if k == 0 || k > es.len() {
        Seq::empty()
    } else {
        nar_entries(es, (k - 1) as nat) + nar_entry(es[k - 1].0, es[k - 1].1)
    }
}

/// One directory entry: its name and its node.
pub open spec fn nar_entry(name: Seq<u8>, n: Node) -> Seq<u8>
    decreases n, 2nat,
{
    nar_str(tag(Tag::Entry)) + nar_str(tag(Tag::Open)) + nar_str(tag(Tag::Name)) + nar_str(name) + nar_str(
        tag(Tag::Node),
    ) + nar_wrapped(n) + nar_str(tag(Tag::Close))
}

/// `serialise'`: one object in parentheses.
pub open spec fn nar_wrapped(n: Node) -> Seq<u8>
    decreases n, 1nat,
{
    nar_str(tag(Tag::Open)) + nar_one(n) + nar_str(tag(Tag::Close))
}

/// `serialise`: the whole archive of a tree.
pub open spec fn nar(n: Node) -> Seq<u8> {
    nar_str(tag(Tag::Magic)) + nar_wrapped(n)
}

impl FsObject {
    /// Writes the archive of this object: the magic string, then the object.
    pub fn serialise_toplevel<W: NarSink>(&self, w: &mut W)
        ensures
            final(w).written() == old(w).written() + nar(self@),
    {
        str_tag(Tag::Magic, w);
        self.serialise_wrapped(w);
        assert(final(w).written() =~= old(w).written() + nar(self@));
    }

    /// Writes this object in parentheses.
    pub fn serialise_wrapped<W: NarSink>(&self, w: &mut W)
        ensures
            final(w).written() == old(w).written() + nar_wrapped(self@),
        decreases self, 1nat,
    {
        str_tag(Tag::Open, w);
        self.serialise_one(w);
        str_tag(Tag::Close, w);
        assert(final(w).written() =~= old(w).written() + nar_wrapped(self@));
    }

    /// Writes the body of this object; a directory's entries come in the
    /// order they are held, which is ascending by name.
    pub fn serialise_one<W: NarSink>(&self, w: &mut W)
        ensures
            final(w).written() == old(w).written() + nar_one(self@),
        decreases self, 0nat,
    {
        match self {
            FsObject::File(exec, content) => {
                type_(Tag::Regular, w);
                let ghost mid = w.written();
                match exec {
                    Executable::IsExecutable => {
                        str_tag(Tag::Executable, w);
                        str_tag(Tag::Empty, w);
                    },
                    Executable::NotExecutable => {
                        assert(w.written() =~= mid + Seq::<u8>::empty());
                    },
                }
                str_tag(Tag::Contents, w);
                str_of_stream(content, w);
                assert(final(w).written() =~= old(w).written() + nar_one(self@));
            },
            FsObject::Directory(d) => {
                type_(Tag::Directory, w);
                let ghost start = w.written();
                let ghost es = all_entries_view(d.entries@);
                proof {
                    assert(decreases_to!(*self => d.entries));
                    crate::vfs::lemma_all_entries_view(d.entries@);
                    assert(start =~= start + nar_entries(es, 0));
                }
                let mut i: usize = 0;
                while i < d.entries.len()
                    invariant
                        decreases_to!(*self => d.entries),
                        i <= d.entries@.len(),
                        es == all_entries_view(d.entries@),
                        es.len() == d.entries@.len(),
                        forall|j: int| 0 <= j < d.entries@.len() ==> #[trigger] es[j] == (d.entries@[j].0@, fs_view(*d.entries@[j].1)),
                        w.written() == start + nar_entries(es, i as nat),
                    decreases d.entries@.len() - i,
                {
                    let ghost before = w.written();
                    let name = &d.entries[i].0;
                    let child: &FsObject = &d.entries[i].1;
                    str_tag(Tag::Entry, w);
                    str_tag(Tag::Open, w);
                    str_tag(Tag::Name, w);
                    str(name.as_slice(), w);
                    str_tag(Tag::Node, w);
                    proof {
                        assert(decreases_to!(d.entries => d.entries[i as int]));
                        assert(decreases_to!(d.entries[i as int] => d.entries[i as int].1));
                        assert(*child == *d.entries[i as int].1);
                    }
                    child.serialise_wrapped(w);
                    str_tag(Tag::Close, w);
                    proof {
                        assert(w.written() =~= before + nar_entry(es[i as int].0, es[i as int].1));
                        assert(w.written() =~= start + nar_entries(es, (i + 1) as nat));
                    }
                    i = i + 1;
                }
                assert(final(w).written() =~= old(w).written() + nar_one(self@));
            },
            FsObject::Symlink(target) => {
                type_(Tag::Symlink, w);
                str_tag(Tag::Target, w);
                let p = target.to_path();
                str(p.as_slice(), w);
                assert(final(w).written() =~= old(w).written() + nar_one(self@));
            },
        }
    }
}

} // verus!
