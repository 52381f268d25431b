//! The in-memory filesystem tree that a NAR describes.
use vstd::prelude::*;

use crate::bytes::{
    bytes_lt, compare_bytes, lemma_bytes_lt_asymmetric, lemma_bytes_lt_irreflexive,
    lemma_bytes_lt_total, lemma_bytes_lt_transitive,
};
use crate::path::{is_component, FileName};

verus! {

/// The mathematical value of a filesystem object.
pub enum Node {
    File { executable: bool, contents: Seq<u8> },
    Dir { entries: Seq<(Seq<u8>, Node)> },
    Symlink { target: Seq<Seq<u8>> },
}

/// Names strictly ascending in byte order.
pub open spec fn entries_sorted(es: Seq<(Seq<u8>, Node)>) -> bool {
    forall|i: int, j: int| 0 <= i < j < es.len() ==> bytes_lt(#[trigger] es[i].0, #[trigger] es[j].0)
}

/// A directory's entries: sorted, each named by a component, each well formed.
pub open spec fn entries_wf(es: Seq<(Seq<u8>, Node)>) -> bool
    decreases es, 0nat,
{
    &&& entries_sorted(es)
    &&& forall|i: int| 0 <= i < es.len() ==> is_component(#[trigger] es[i].0)
    &&& forall|i: int| 0 <= i < es.len() ==> node_wf(#[trigger] es[i].1)
}

/// Every directory in the tree is well formed.
pub open spec fn node_wf(n: Node) -> bool
    decreases n, 1nat,
{
    match n {
        Node::Dir { entries } => entries_wf(entries),
        _ => true,
    }
}

/// The child stored under `k`, if any.
pub open spec fn lookup(es: Seq<(Seq<u8>, Node)>, k: Seq<u8>) -> Option<Node>
    decreases es.len(),
{
    if es.len() == 0 {
        None
    } else if es[0].0 == k {
        Some(es[0].1)
    } else {
        lookup(es.drop_first(), k)
    }
}

/// Stores `v` under `k`: replaces the entry named `k`, or adds one before the
/// first greater name.
pub open spec fn put_entry(es: Seq<(Seq<u8>, Node)>, k: Seq<u8>, v: Node) -> Seq<(Seq<u8>, Node)>
    decreases es.len(),
{
    if es.len() == 0 {
        seq![(k, v)]
    } else if es[0].0 == k {
        es.update(0, (k, v))
    } else if bytes_lt(k, es[0].0) {
        seq![(k, v)] + es
    } else {
        seq![es[0]] + put_entry(es.drop_first(), k, v)
    }
}

/// Inserts `obj` at `path` below a directory, creating the directories on the
/// way; `None` where a name on the way is taken by something that is not a
/// directory.
pub open spec fn dir_insert(es: Seq<(Seq<u8>, Node)>, path: Seq<Seq<u8>>, obj: Node) -> Option<Seq<(Seq<u8>, Node)>> {
    dir_insert_with(es, path, obj, false)
}

/// As `dir_insert`; with `keep_dirs`, a directory placed where a directory
/// already stands leaves that one, and what it holds, in place.
pub open spec fn dir_insert_with(es: Seq<(Seq<u8>, Node)>, path: Seq<Seq<u8>>, obj: Node, keep_dirs: bool) -> Option<Seq<(Seq<u8>, Node)>>
    decreases path.len(),
{
    if path.len() == 0 {
        None
    } else if path.len() == 1 {
        if keep_dirs && obj is Dir && lookup(es, path[0]) matches Some(Node::Dir { .. }) {
            Some(es)
        } else {
            Some(put_entry(es, path[0], obj))
        }
    } else {
        let sub = match lookup(es, path[0]) {
            None => Some(Seq::<(Seq<u8>, Node)>::empty()),
            Some(Node::Dir { entries }) => Some(entries),
            Some(_) => None,
        };
        match sub {
            None => None,
            Some(c) => match dir_insert_with(c, path.drop_first(), obj, keep_dirs) {
                None => None,
                Some(c2) => Some(put_entry(es, path[0], Node::Dir { entries: c2 })),
            },
        }
    }
}

/// Whether a file is marked executable.
#[derive(Clone, Copy, Debug, PartialEq, Eq)]
pub enum Executable {
    IsExecutable,
    NotExecutable,
}

impl Executable {
    /// Executable where any of the execute bits `0o111` of a mode is set.
    pub fn from_mode(mode: u32) -> (r: Executable)
        ensures
            (r == Executable::IsExecutable) == (mode & 0o111u32 != 0),
    {
        if mode & 0o111u32 != 0 {
            Executable::IsExecutable
        } else {
            Executable::NotExecutable
        }
    }
}

/// File contents held in memory.
#[derive(Clone, Debug, PartialEq, Eq, PartialOrd, Ord)]
pub struct ConstByteStream(pub Vec<u8>);

/// A filesystem object; directories own their children.
#[derive(Debug, PartialEq, Eq)]
pub enum FsObject {
    File(Executable, ConstByteStream),
    Directory(Directory),
    Symlink(FileName),
}

/// A directory: children by name, kept in ascending byte order of the name.
#[derive(Debug, PartialEq, Eq)]
pub struct Directory {
    pub(crate) entries: Vec<(Vec<u8>, Box<FsObject>)>,
}

/// The value of an object.
pub open(crate) spec fn fs_view(o: FsObject) -> Node
    decreases o, 0nat,
{
    match o {
        FsObject::File(e, c) => Node::File { executable: e == Executable::IsExecutable, contents: c.0@ },
        FsObject::Directory(d) => Node::Dir { entries: entries_view(d.entries@, d.entries@.len() as nat) },
        FsObject::Symlink(f) => Node::Symlink { target: f@ },
    }
}

/// The values of the first `n` entries.
pub open(crate) spec fn entries_view(es: Seq<(Vec<u8>, Box<FsObject>)>, n: nat) -> Seq<(Seq<u8>, Node)>
    decreases es, n,
{
    if n == 0 || n > es.len() {
        Seq::empty()
    } else {
        entries_view(es, (n - 1) as nat).push((es[n - 1].0@, fs_view(*es[n - 1].1)))
    }
}

pub open(crate) spec fn all_entries_view(es: Seq<(Vec<u8>, Box<FsObject>)>) -> Seq<(Seq<u8>, Node)> {
    entries_view(es, es.len() as nat)
}

impl View for FsObject {
    type V = Node;

    open(crate) spec fn view(&self) -> Node {
        fs_view(*self)
    }
}

impl View for Directory {
    type V = Seq<(Seq<u8>, Node)>;

    open(crate) spec fn view(&self) -> Seq<(Seq<u8>, Node)> {
        all_entries_view(self.entries@)
    }
}

proof fn lemma_entries_view(es: Seq<(Vec<u8>, Box<FsObject>)>, n: nat)
    requires
        n <= es.len(),
    ensures
        entries_view(es, n).len() == n,
        forall|i: int| 0 <= i < n ==> #[trigger] entries_view(es, n)[i] == (es[i].0@, fs_view(*es[i].1)),
    decreases n,
{
    if n > 0 {
        lemma_entries_view(es, (n - 1) as nat);
    }
}

pub(crate) proof fn lemma_all_entries_view(es: Seq<(Vec<u8>, Box<FsObject>)>)
    ensures
        all_entries_view(es).len() == es.len(),
        forall|i: int| 0 <= i < es.len() ==> #[trigger] all_entries_view(es)[i] == (es[i].0@, fs_view(*es[i].1)),
{
    lemma_entries_view(es, es.len() as nat);
}


/// Below `p` every name is less than `k`; at `p` the name is `k` (`found`),
/// or greater, or the entries end.
pub open spec fn slot_of(es: Seq<(Seq<u8>, Node)>, k: Seq<u8>, p: int, found: bool) -> bool {
    &&& 0 <= p <= es.len()
    &&& forall|j: int| 0 <= j < p ==> bytes_lt(#[trigger] es[j].0, k)
    &&& found ==> p < es.len() && es[p].0 == k
    &&& !found ==> p == es.len() || bytes_lt(k, es[p].0)
}

proof fn lemma_put_at(es: Seq<(Seq<u8>, Node)>, k: Seq<u8>, v: Node, p: int, found: bool)
    requires
        slot_of(es, k, p, found),
    ensures
        found ==> put_entry(es, k, v) == es.update(p, (k, v)),
        !found ==> put_entry(es, k, v) == es.insert(p, (k, v)),
        found ==> lookup(es, k) == Some(es[p].1),
    decreases p,
{
    if p == 0 {
        if es.len() == 0 {
            assert(seq![(k, v)] =~= es.insert(0, (k, v)));
        } else if !found {
            lemma_bytes_lt_irreflexive(k);
            assert(seq![(k, v)] + es =~= es.insert(0, (k, v)));
        }
    } else {
        let rest = es.drop_first();
        lemma_bytes_lt_irreflexive(k);
        lemma_bytes_lt_asymmetric(es[0].0, k);
        assert(bytes_lt(es[0].0, k));
        assert(slot_of(rest, k, p - 1, found)) by {
            assert forall|j: int| 0 <= j < p - 1 implies bytes_lt(#[trigger] rest[j].0, k) by {
                assert(rest[j] == es[j + 1]);
            }
        }
        lemma_put_at(rest, k, v, p - 1, found);
        if found {
            assert(seq![es[0]] + rest.update(p - 1, (k, v)) =~= es.update(p, (k, v)));
        } else {
            assert(seq![es[0]] + rest.insert(p - 1, (k, v)) =~= es.insert(p, (k, v)));
        }
    }
}

proof fn lemma_lookup_absent(es: Seq<(Seq<u8>, Node)>, k: Seq<u8>)
    requires
        forall|j: int| 0 <= j < es.len() ==> #[trigger] es[j].0 != k,
    ensures
        lookup(es, k) == None::<Node>,
    decreases es.len(),
{
    if es.len() > 0 {
        let rest = es.drop_first();
        assert forall|j: int| 0 <= j < rest.len() implies #[trigger] rest[j].0 != k by {
            assert(rest[j] == es[j + 1]);
        }
        lemma_lookup_absent(rest, k);
    }
}

proof fn lemma_lookup_missing(es: Seq<(Seq<u8>, Node)>, k: Seq<u8>, p: int)
    requires
        entries_sorted(es),
        slot_of(es, k, p, false),
    ensures
        lookup(es, k) == None::<Node>,
{
    assert forall|j: int| 0 <= j < es.len() implies #[trigger] es[j].0 != k by {
        lemma_bytes_lt_irreflexive(k);
        if j >= p {
            if j > p {
                lemma_bytes_lt_transitive(k, es[p].0, es[j].0);
            }
        }
    }
    lemma_lookup_absent(es, k);
}

proof fn lemma_slot_wf(es: Seq<(Seq<u8>, Node)>, k: Seq<u8>, v: Node, p: int, found: bool)
    requires
        entries_wf(es),
        slot_of(es, k, p, found),
        is_component(k),
        node_wf(v),
    ensures
        entries_wf(put_entry(es, k, v)),
{
    lemma_put_at(es, k, v, p, found);
    let r = put_entry(es, k, v);
    if found {
        assert(entries_sorted(r)) by {
            assert forall|i: int, j: int| 0 <= i < j < r.len() implies bytes_lt(#[trigger] r[i].0, #[trigger] r[j].0) by {
                assert(r[i].0 == es[i].0 && r[j].0 == es[j].0);
            }
        }
    } else {
        assert(entries_sorted(r)) by {
            assert forall|i: int, j: int| 0 <= i < j < r.len() implies bytes_lt(#[trigger] r[i].0, #[trigger] r[j].0) by {
                if j < p {
                    assert(r[i] == es[i] && r[j] == es[j]);
                } else if j == p {
                    assert(r[i] == es[i]);
                } else if i < p {
                    assert(r[i] == es[i] && r[j] == es[j - 1]);
                    if j - 1 > p {
                        lemma_bytes_lt_transitive(k, es[p].0, es[j - 1].0);
                    }
                    lemma_bytes_lt_transitive(es[i].0, k, es[j - 1].0);
                } else if i == p {
                    assert(r[j] == es[j - 1]);
                    if j - 1 > p {
                        lemma_bytes_lt_transitive(k, es[p].0, es[j - 1].0);
                    }
                } else {
                    assert(r[i] == es[i - 1] && r[j] == es[j - 1]);
                }
            }
        }
    }
    assert forall|i: int| 0 <= i < r.len() implies is_component(#[trigger] r[i].0) && node_wf(r[i].1) by {
        if found {
            if i != p {
                assert(r[i] == es[i]);
            }
        } else if i < p {
            assert(r[i] == es[i]);
        } else if i > p {
            assert(r[i] == es[i - 1]);
        }
    }
}

impl Directory {
    /// Where `k` is, or would go.
    fn find_slot(&self, k: &[u8]) -> (r: (usize, bool))
        ensures
            slot_of(self@, k@, r.0 as int, r.1),
    {
        proof {
            lemma_all_entries_view(self.entries@);
        }
        let mut i: usize = 0;
        while i < self.entries.len()
            invariant
                i <= self.entries.len(),
                self@.len() == self.entries@.len(),
                forall|j: int| 0 <= j < self.entries@.len() ==> #[trigger] self@[j] == (self.entries@[j].0@, fs_view(*self.entries@[j].1)),
                forall|j: int| 0 <= j < i ==> bytes_lt(#[trigger] self@[j].0, k@),
            decreases self.entries.len() - i,
        {
            match compare_bytes(self.entries[i].0.as_slice(), k) {
                core::cmp::Ordering::Less => {},
                core::cmp::Ordering::Equal => {
                    return (i, true);
                },
                core::cmp::Ordering::Greater => {
                    return (i, false);
                },
            }
            i = i + 1;
        }
        (i, false)
    }
}


proof fn lemma_view_insert(es: Seq<(Vec<u8>, Box<FsObject>)>, p: int, e: (Vec<u8>, Box<FsObject>))
    requires
        0 <= p <= es.len(),
    ensures
        all_entries_view(es.insert(p, e)) == all_entries_view(es).insert(p, (e.0@, fs_view(*e.1))),
{
    lemma_all_entries_view(es);
    lemma_all_entries_view(es.insert(p, e));
    assert(all_entries_view(es.insert(p, e)) =~= all_entries_view(es).insert(p, (e.0@, fs_view(*e.1))));
}

proof fn lemma_view_remove(es: Seq<(Vec<u8>, Box<FsObject>)>, p: int)
    requires
        0 <= p < es.len(),
    ensures
        all_entries_view(es.remove(p)) == all_entries_view(es).remove(p),
        all_entries_view(es)[p] == (es[p].0@, fs_view(*es[p].1)),
{
    lemma_all_entries_view(es);
    lemma_all_entries_view(es.remove(p));
    assert(all_entries_view(es.remove(p)) =~= all_entries_view(es).remove(p));
}

/// Why an insertion failed.
#[derive(Clone, Copy, Debug, PartialEq, Eq)]
pub enum InsertError {
    /// A name on the way is taken by a file or a symlink.
    NotADirectory,
}

impl Directory {
    /// An empty directory.
    pub fn new() -> (r: Directory)
        ensures
            r@ == Seq::<(Seq<u8>, Node)>::empty(),
    {
        let r = Directory { entries: Vec::new() };
        proof {
            lemma_all_entries_view(r.entries@);
        }
        assert(r@ =~= Seq::<(Seq<u8>, Node)>::empty());
        r
    }

    /// Inserts `obj` at the components of `path` from `start` on.
    fn insert_from(&mut self, path: &Vec<Vec<u8>>, start: usize, obj: FsObject, keep_dirs: bool) -> (r: Result<(), InsertError>)
        requires
            start < path@.len(),
            entries_wf(old(self)@),
            forall|i: int| start <= i < path@.len() ==> is_component(#[trigger] path@[i]@),
            node_wf(obj@),
        ensures
            r is Ok <==> dir_insert_with(old(self)@, path@.map_values(|c: Vec<u8>| c@).subrange(start as int, path@.len() as int), obj@, keep_dirs) is Some,
            r is Ok ==> final(self)@ == dir_insert_with(old(self)@, path@.map_values(|c: Vec<u8>| c@).subrange(start as int, path@.len() as int), obj@, keep_dirs).unwrap(),
            r is Err ==> final(self)@ == old(self)@ && r == Err::<(), InsertError>(InsertError::NotADirectory),
            entries_wf(final(self)@),
        decreases path@.len() - start,
    {
        let ghost tail = path@.map_values(|c: Vec<u8>| c@).subrange(start as int, path@.len() as int);
        let ghost es0 = self@;
        proof {
            lemma_all_entries_view(self.entries@);
        }
        let ghost ov = obj@;
        let k = &path[start];
        assert(tail[0] == k@);
        let (p, found) = self.find_slot(k.as_slice());
        proof {
            lemma_put_at(es0, k@, ov, p as int, found);
        }
        if start == path.len() - 1 {
            if keep_dirs && found {
                let both_dirs = match (&obj, &*self.entries[p].1) {
                    (FsObject::Directory(_), FsObject::Directory(_)) => true,
                    _ => false,
                };
                if both_dirs {
                    return Ok(());
                }
            }
            proof {
                if !found {
                    lemma_lookup_missing(es0, k@, p as int);
                }
            }
            let key = k.clone();
            assert(key@ =~= k@);
            if found {
                let _ = self.entries.remove(p);
                proof {
                    lemma_view_remove(old(self).entries@, p as int);
                }
            }
            let ghost mid = self.entries@;
            self.entries.insert(p, (key, Box::new(obj)));
            proof {
                lemma_view_insert(mid, p as int, (key, Box::new(obj)));
                lemma_slot_wf(es0, k@, ov, p as int, found);
                if found {
                    assert(es0.remove(p as int).insert(p as int, (k@, ov)) =~= es0.update(p as int, (k@, ov)));
                }
            }
            Ok(())
        } else {
            proof {
                let rest = path@.map_values(|c: Vec<u8>| c@).subrange(start + 1, path@.len() as int);
                assert(tail.drop_first() =~= rest);
            }
            if found {
                let (key, child) = self.entries.remove(p);
                let ghost mid = self.entries@;
                proof {
                    lemma_view_remove(old(self).entries@, p as int);
                }
                match *child {
                    FsObject::Directory(mut d) => {
                        let ghost d0 = d@;
                        assert(lookup(es0, k@) == Some(Node::Dir { entries: d0 }));
                        assert(node_wf(es0[p as int].1));
                        let r = d.insert_from(path, start + 1, obj, keep_dirs);
                        self.entries.insert(p, (key, Box::new(FsObject::Directory(d))));
                        proof {
                            lemma_view_insert(mid, p as int, (key, Box::new(FsObject::Directory(d))));
                            assert(key@ == k@);
                            if r is Ok {
                                lemma_slot_wf(es0, k@, Node::Dir { entries: d@ }, p as int, true);
                                lemma_put_at(es0, k@, Node::Dir { entries: d@ }, p as int, true);
                                assert(es0.remove(p as int).insert(p as int, (k@, Node::Dir { entries: d@ })) =~= es0.update(p as int, (k@, Node::Dir { entries: d@ })));
                            } else {
                                assert(es0.remove(p as int).insert(p as int, es0[p as int]) =~= es0);
                            }
                        }
                        r
                    },
                    other => {
                        let ghost ob = other;
                        self.entries.insert(p, (key, Box::new(other)));
                        proof {
                            lemma_view_insert(mid, p as int, (key, Box::new(ob)));
                            assert(es0.remove(p as int).insert(p as int, es0[p as int]) =~= es0);
                        }
                        Err(InsertError::NotADirectory)
                    },
                }
            } else {
                proof {
                    lemma_lookup_missing(es0, k@, p as int);
                }
                let mut d = Directory::new();
                let r = d.insert_from(path, start + 1, obj, keep_dirs);
                match r {
                    Err(e) => {
                        return Err(e);
                    },
                    Ok(()) => {},
                }
                let key = k.clone();
                assert(key@ =~= k@);
                let ghost mid = self.entries@;
                self.entries.insert(p, (key, Box::new(FsObject::Directory(d))));
                proof {
                    lemma_view_insert(mid, p as int, (key, Box::new(FsObject::Directory(d))));
                    lemma_slot_wf(es0, k@, Node::Dir { entries: d@ }, p as int, false);
                    lemma_put_at(es0, k@, Node::Dir { entries: d@ }, p as int, false);
                }
                Ok(())
            }
        }
    }

    /// Inserts `obj` at `path`, creating the directories on the way and
    /// replacing what stood at the last name; fails, and leaves the directory
    /// as it was, where a name on the way is not a directory.
    pub fn insert(&mut self, path: &FileName, obj: FsObject) -> (r: Result<(), InsertError>)
        requires
            entries_wf(old(self)@),
            path@.len() >= 1,
            forall|i: int| 0 <= i < path@.len() ==> is_component(#[trigger] path@[i]),
            node_wf(obj@),
        ensures
            r is Ok <==> dir_insert(old(self)@, path@, obj@) is Some,
            r is Ok ==> final(self)@ == dir_insert(old(self)@, path@, obj@).unwrap(),
            r is Err ==> final(self)@ == old(self)@ && r == Err::<(), InsertError>(InsertError::NotADirectory),
            entries_wf(final(self)@),
    {
        proof {
            assert(path.0@.map_values(|c: Vec<u8>| c@).subrange(0, path.0@.len() as int) =~= path@);
            assert forall|i: int| 0 <= i < path.0@.len() implies is_component(#[trigger] path.0@[i]@) by {
                assert(path@[i] == path.0@[i]@);
            }
        }
        self.insert_from(&path.0, 0, obj, false)
    }

    /// As `insert`, but a directory placed where a directory already stands
    /// leaves that one, with its contents, in place.
    pub fn insert_keeping_dirs(&mut self, path: &FileName, obj: FsObject) -> (r: Result<(), InsertError>)
        requires
            entries_wf(old(self)@),
            path@.len() >= 1,
            forall|i: int| 0 <= i < path@.len() ==> is_component(#[trigger] path@[i]),
            node_wf(obj@),
        ensures
            r is Ok <==> dir_insert_with(old(self)@, path@, obj@, true) is Some,
            r is Ok ==> final(self)@ == dir_insert_with(old(self)@, path@, obj@, true).unwrap(),
            r is Err ==> final(self)@ == old(self)@ && r == Err::<(), InsertError>(InsertError::NotADirectory),
            entries_wf(final(self)@),
    {
        proof {
            assert(path.0@.map_values(|c: Vec<u8>| c@).subrange(0, path.0@.len() as int) =~= path@);
            assert forall|i: int| 0 <= i < path.0@.len() implies is_component(#[trigger] path.0@[i]@) by {
                assert(path@[i] == path.0@[i]@);
            }
        }
        self.insert_from(&path.0, 0, obj, true)
    }
}


/// The entries that result from storing `items` in order, a later name
/// replacing an earlier one.
pub open spec fn put_all(es: Seq<(Seq<u8>, Node)>, items: Seq<(Seq<u8>, Node)>) -> Seq<(Seq<u8>, Node)>
    decreases items.len(),
{
    if items.len() == 0 {
        es
    } else {
        put_all(put_entry(es, items[0].0, items[0].1), items.drop_first())
    }
}

/// A directory entry from a name and an object.
pub fn dir_entry(name: &[u8], obj: FsObject) -> (r: (Vec<u8>, Box<FsObject>))
    ensures
        r.0@ == name@,
        fs_view(*r.1) == obj@,
{
    let mut k: Vec<u8> = Vec::new();
    k.extend_from_slice(name);
    assert(k@ =~= name@);
    (k, Box::new(obj))
}

impl Directory {
    /// A directory holding the given entries, stored in order.
    pub fn from_entries(entries: Vec<(Vec<u8>, Box<FsObject>)>) -> (r: Directory)
        requires
            forall|i: int| 0 <= i < entries@.len() ==> is_component(#[trigger] entries@[i].0@),
            forall|i: int| 0 <= i < entries@.len() ==> node_wf(fs_view(*#[trigger] entries@[i].1)),
        ensures
            r@ == put_all(Seq::empty(), all_entries_view(entries@)),
            entries_wf(r@),
    {
        let mut entries = entries;
        let ghost items = all_entries_view(entries@);
        let mut r = Directory::new();
        proof {
            lemma_all_entries_view(entries@);
        }
        while entries.len() > 0
            invariant
                entries_wf(r@),
                put_all(r@, all_entries_view(entries@)) == put_all(Seq::empty(), items),
                forall|i: int| 0 <= i < entries@.len() ==> is_component(#[trigger] entries@[i].0@),
                forall|i: int| 0 <= i < entries@.len() ==> node_wf(fs_view(*#[trigger] entries@[i].1)),
            decreases entries@.len(),
        {
            let ghost before = entries@;
            let (name, obj) = entries.remove(0);
            proof {
                lemma_all_entries_view(before);
                lemma_all_entries_view(entries@);
                assert(all_entries_view(entries@) =~= all_entries_view(before).drop_first());
                assert(is_component(before[0].0@));
                assert(node_wf(fs_view(*before[0].1)));
            }
            let path = FileName::singleton(name);
            proof {
                assert(path@.drop_first() =~= Seq::<Seq<u8>>::empty());
            }
            match r.insert(&path, *obj) {
                Ok(()) => {},
                Err(_) => {},
            }
            proof {
                assert(forall|i: int| 0 <= i < entries@.len() ==> entries@[i] == before[i + 1]);
            }
        }
        proof {
            lemma_all_entries_view(entries@);
            assert(all_entries_view(entries@) =~= Seq::<(Seq<u8>, Node)>::empty());
        }
        r
    }
}

impl Default for Directory {
    fn default() -> (r: Directory)
        ensures
            r@ == Seq::<(Seq<u8>, Node)>::empty(),
    {
        Directory::new()
    }
}


impl Directory {
    /// The names of the entries, in the order held.
    pub fn names(&self) -> (r: Vec<Vec<u8>>)
        ensures
            r@.len() == self@.len(),
            forall|i: int| 0 <= i < r@.len() ==> #[trigger] r@[i]@ == self@[i].0,
    {
        proof {
            lemma_all_entries_view(self.entries@);
        }
        let mut r: Vec<Vec<u8>> = Vec::new();
        let mut i: usize = 0;
        while i < self.entries.len()
            invariant
                i <= self.entries@.len(),
                self@.len() == self.entries@.len(),
                forall|j: int| 0 <= j < self.entries@.len() ==> #[trigger] self@[j] == (self.entries@[j].0@, fs_view(*self.entries@[j].1)),
                r@.len() == i,
                forall|j: int| 0 <= j < i ==> #[trigger] r@[j]@ == self@[j].0,
            decreases self.entries@.len() - i,
        {
            let k = self.entries[i].0.clone();
            assert(k@ =~= self.entries@[i as int].0@);
            r.push(k);
            i = i + 1;
        }
        r
    }

    /// The object stored under `name`, if any.
    pub fn get(&self, name: &[u8]) -> (r: Option<&FsObject>)
        requires
            entries_wf(self@),
        ensures
            r is None <==> lookup(self@, name@) is None,
            r matches Some(o) ==> lookup(self@, name@) == Some(o@),
    {
        proof {
            lemma_all_entries_view(self.entries@);
        }
        let (p, found) = self.find_slot(name);
        proof {
            lemma_put_at(self@, name@, Node::Dir { entries: Seq::empty() }, p as int, found);
            if !found {
                lemma_lookup_missing(self@, name@, p as int);
            }
        }
        if found {
            Some(&self.entries[p].1)
        } else {
            None
        }
    }
}

} // verus!
