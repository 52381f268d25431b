//! Properties that relate the library's functions to one another.
use vstd::prelude::*;

use crate::bytes::{bytes_lt, lemma_bytes_lt_asymmetric, lemma_bytes_lt_irreflexive, lemma_bytes_lt_total, lemma_bytes_lt_transitive};
use crate::nar::{le_bytes, nar, nar_entries, nar_entry, nar_one, nar_str, pad_len, tag, zeros, Tag};
use crate::path::{components, join_path, lemma_components_of_joined};
use crate::tar::{place, StripRoot};
use crate::vfs::{dir_insert, dir_insert_with, entries_wf, lookup, put_all, put_entry, Node};

verus! {

proof fn lemma_le_bytes_len(n: nat, k: nat)
    ensures
        le_bytes(n, k).len() == k,
    decreases k,
{
    if k > 0 {
        lemma_le_bytes_len(n / 256, (k - 1) as nat);
    }
}

/// A NAR string of `s` takes the eight bytes of its length, the bytes of `s`,
/// and `(8 - |s| mod 8) mod 8` bytes of padding: a multiple of eight in all.
pub proof fn lemma_str_length(s: Seq<u8>)
    ensures
        nar_str(s).len() == 8 + s.len() + pad_len(s.len()),
        pad_len(s.len()) == (8 - s.len() % 8) % 8,
        nar_str(s).len() % 8 == 0,
        nar_str(s).subrange(8, 8 + s.len() as int) == s,
        nar_str(s).subrange(8 + s.len() as int, nar_str(s).len() as int) == zeros(pad_len(s.len())),
{
    lemma_le_bytes_len(s.len(), 8);
    let n = s.len();
    assert((8 + n + (8 - n % 8) % 8) % 8 == 0);
    assert(nar_str(s).subrange(8, 8 + s.len() as int) =~= s);
    assert(nar_str(s).subrange(8 + s.len() as int, nar_str(s).len() as int) =~= zeros(pad_len(s.len())));
}

/// Serialising one tree twice into a sink appends the same bytes both times:
/// the bytes depend on the tree alone.
pub proof fn lemma_serialise_twice(t: Node, w0: Seq<u8>, w1: Seq<u8>, w2: Seq<u8>)
    requires
        w1 == w0 + nar(t),
        w2 == w1 + nar(t),
    ensures
        w2.subrange(w0.len() as int, w1.len() as int) == w2.subrange(w1.len() as int, w2.len() as int),
{
    assert(w2.subrange(w0.len() as int, w1.len() as int) =~= nar(t));
    assert(w2.subrange(w1.len() as int, w2.len() as int) =~= nar(t));
}

/// A well-formed directory's NAR lists its entries one after another, in the
/// order held, and that order is strictly ascending by name.
pub proof fn lemma_directory_order(es: Seq<(Seq<u8>, Node)>)
    requires
        entries_wf(es),
    ensures
        nar_one(Node::Dir { entries: es }) == nar_str(tag(Tag::Type)) + nar_str(tag(Tag::Directory)) + nar_entries(es, es.len() as nat),
        forall|k: nat| k < es.len() ==> #[trigger] nar_entries(es, k + 1) == nar_entries(es, k) + nar_entry(es[k as int].0, es[k as int].1),
        forall|i: int, j: int| 0 <= i < j < es.len() ==> bytes_lt(#[trigger] es[i].0, #[trigger] es[j].0),
{
}

/// Storing two entries of different names gives the same directory in either
/// order.
pub proof fn lemma_put_commutes(es: Seq<(Seq<u8>, Node)>, a: Seq<u8>, x: Node, b: Seq<u8>, y: Node)
    requires
        a != b,
    ensures
        put_entry(put_entry(es, a, x), b, y) == put_entry(put_entry(es, b, y), a, x),
    decreases es.len(),
{
    reveal_with_fuel(put_entry, 2);
    lemma_bytes_lt_total(a, b);
    lemma_bytes_lt_asymmetric(a, b);
    lemma_bytes_lt_irreflexive(a);
    lemma_bytes_lt_irreflexive(b);
    if es.len() == 0 {
        let sa = seq![(a, x)];
        let sb = seq![(b, y)];
        assert(sa.drop_first() =~= Seq::<(Seq<u8>, Node)>::empty());
        assert(sb.drop_first() =~= Seq::<(Seq<u8>, Node)>::empty());
        if bytes_lt(b, a) {
            assert(put_entry(sa, b, y) =~= seq![(b, y), (a, x)]);
            assert(put_entry(sb, a, x) =~= seq![(b, y), (a, x)]);
        } else {
            assert(put_entry(sa, b, y) =~= seq![(a, x), (b, y)]);
            assert(put_entry(sb, a, x) =~= seq![(a, x), (b, y)]);
        }
    } else {
        let h = es[0];
        let t = es.drop_first();
        lemma_bytes_lt_total(a, h.0);
        lemma_bytes_lt_total(b, h.0);
        lemma_bytes_lt_asymmetric(a, h.0);
        lemma_bytes_lt_asymmetric(b, h.0);
        if bytes_lt(a, h.0) && bytes_lt(h.0, b) {
            lemma_bytes_lt_transitive(a, h.0, b);
        }
        if bytes_lt(b, h.0) && bytes_lt(h.0, a) {
            lemma_bytes_lt_transitive(b, h.0, a);
        }
        lemma_put_commutes(t, a, x, b, y);
        let pa = put_entry(es, a, x);
        let pb = put_entry(es, b, y);
        assert(pa.len() > 0 && pb.len() > 0);
        if h.0 == a {
            assert(pa =~= seq![(a, x)] + t);
            assert(pa.drop_first() =~= t);
            if bytes_lt(b, a) {
                assert(pb =~= seq![(b, y)] + es);
                assert(pb.drop_first() =~= es);
                assert(put_entry(pa, b, y) =~= seq![(b, y)] + pa);
            } else {
                assert(pb =~= seq![h] + put_entry(t, b, y));
                assert(put_entry(pa, b, y) =~= seq![(a, x)] + put_entry(t, b, y));
                assert(put_entry(pb, a, x) =~= pb.update(0, (a, x)));
            }
        } else if h.0 == b {
            assert(pb =~= seq![(b, y)] + t);
            assert(pb.drop_first() =~= t);
            if bytes_lt(a, b) {
                assert(pa =~= seq![(a, x)] + es);
                assert(pa.drop_first() =~= es);
                assert(put_entry(pb, a, x) =~= seq![(a, x)] + pb);
            } else {
                assert(pa =~= seq![h] + put_entry(t, a, x));
                assert(put_entry(pb, a, x) =~= seq![(b, y)] + put_entry(t, a, x));
                assert(put_entry(pa, b, y) =~= pa.update(0, (b, y)));
            }
        } else {
            if bytes_lt(a, h.0) {
                assert(pa =~= seq![(a, x)] + es);
                assert(pa.drop_first() =~= es);
            } else {
                assert(pa =~= seq![h] + put_entry(t, a, x));
                assert(pa.drop_first() =~= put_entry(t, a, x));
            }
            if bytes_lt(b, h.0) {
                assert(pb =~= seq![(b, y)] + es);
                assert(pb.drop_first() =~= es);
            } else {
                assert(pb =~= seq![h] + put_entry(t, b, y));
                assert(pb.drop_first() =~= put_entry(t, b, y));
            }
            if bytes_lt(a, h.0) && bytes_lt(b, h.0) {
                if bytes_lt(a, b) {
                    assert(put_entry(pa, b, y) =~= seq![(a, x)] + pb);
                    assert(put_entry(pb, a, x) =~= seq![(a, x)] + pb);
                } else {
                    assert(put_entry(pa, b, y) =~= seq![(b, y)] + pa);
                    assert(put_entry(pb, a, x) =~= seq![(b, y)] + pa);
                }
            } else if bytes_lt(a, h.0) {
                assert(put_entry(pa, b, y) =~= seq![(a, x)] + pb);
                assert(put_entry(pb, a, x) =~= seq![(a, x)] + pb);
            } else if bytes_lt(b, h.0) {
                assert(put_entry(pa, b, y) =~= seq![(b, y)] + pa);
                assert(put_entry(pb, a, x) =~= seq![(b, y)] + pa);
            } else {
                assert(put_entry(pa, b, y) =~= seq![h] + put_entry(put_entry(t, a, x), b, y));
                assert(put_entry(pb, a, x) =~= seq![h] + put_entry(put_entry(t, b, y), a, x));
            }
        }
    }
}

/// Inserting two objects under different names of a directory gives the same
/// directory in either order.
pub proof fn lemma_insert_order(es: Seq<(Seq<u8>, Node)>, a: Seq<u8>, x: Node, b: Seq<u8>, y: Node)
    requires
        a != b,
    ensures
        dir_insert(dir_insert(es, seq![a], x).unwrap(), seq![b], y) == dir_insert(dir_insert(es, seq![b], y).unwrap(), seq![a], x),
{
    lemma_put_commutes(es, a, x, b, y);
}

proof fn lemma_put_all_append(es: Seq<(Seq<u8>, Node)>, s1: Seq<(Seq<u8>, Node)>, s2: Seq<(Seq<u8>, Node)>)
    ensures
        put_all(es, s1 + s2) == put_all(put_all(es, s1), s2),
    decreases s1.len(),
{
    if s1.len() == 0 {
        assert(s1 + s2 =~= s2);
    } else {
        assert((s1 + s2).drop_first() =~= s1.drop_first() + s2);
        assert((s1 + s2)[0] == s1[0]);
        lemma_put_all_append(put_entry(es, s1[0].0, s1[0].1), s1.drop_first(), s2);
    }
}

/// Storing a list of entries gives the same directory when two neighbouring
/// entries of different names trade places.
pub proof fn lemma_put_all_swap(es: Seq<(Seq<u8>, Node)>, s1: Seq<(Seq<u8>, Node)>, a: (Seq<u8>, Node), b: (Seq<u8>, Node), s2: Seq<(Seq<u8>, Node)>)
    requires
        a.0 != b.0,
    ensures
        put_all(es, s1 + seq![a, b] + s2) == put_all(es, s1 + seq![b, a] + s2),
{
    let e1 = put_all(es, s1);
    assert(s1 + seq![a, b] + s2 =~= s1 + (seq![a, b] + s2));
    assert(s1 + seq![b, a] + s2 =~= s1 + (seq![b, a] + s2));
    lemma_put_all_append(es, s1, seq![a, b] + s2);
    lemma_put_all_append(es, s1, seq![b, a] + s2);
    lemma_put_all_append(e1, seq![a, b], s2);
    lemma_put_all_append(e1, seq![b, a], s2);
    let ab = seq![a, b];
    let ba = seq![b, a];
    assert(ab.drop_first() =~= seq![b]);
    assert(ba.drop_first() =~= seq![a]);
    assert(seq![b].drop_first() =~= Seq::<(Seq<u8>, Node)>::empty());
    assert(seq![a].drop_first() =~= Seq::<(Seq<u8>, Node)>::empty());
    reveal_with_fuel(put_all, 3);
    assert(ab[0] == a && ba[0] == b && seq![b][0] == b && seq![a][0] == a);
    assert(put_all(e1, ab) == put_entry(put_entry(e1, a.0, a.1), b.0, b.1));
    assert(put_all(e1, ba) == put_entry(put_entry(e1, b.0, b.1), a.0, a.1));
    lemma_put_commutes(e1, a.0, a.1, b.0, b.1);
}

/// Two path strings with the same components (`//` collapsed, trailing `/`
/// and `./` dropped) place an object identically.
pub proof fn lemma_normalised_paths(es: Seq<(Seq<u8>, Node)>, p: Seq<u8>, q: Seq<u8>, obj: Node, strip_root: StripRoot)
    requires
        components(p) == components(q),
    ensures
        place(es, p, obj, strip_root) == place(es, q, obj, strip_root),
{
}


/// Normalisation is idempotent: parsing a path string, joining the parsed
/// components with `/` and parsing again gives the same components.
pub proof fn lemma_normalise_idempotent(p: Seq<u8>)
    ensures
        components(join_path(components(p))) == components(p),
{
    lemma_components_of_joined(p);
}


proof fn lemma_lookup_put_same(es: Seq<(Seq<u8>, Node)>, k: Seq<u8>, v: Node)
    ensures
        lookup(put_entry(es, k, v), k) == Some(v),
    decreases es.len(),
{
    if es.len() > 0 && es[0].0 != k && !bytes_lt(k, es[0].0) {
        let r = put_entry(es, k, v);
        assert(r.drop_first() =~= put_entry(es.drop_first(), k, v));
        lemma_lookup_put_same(es.drop_first(), k, v);
    } else if es.len() > 0 && es[0].0 != k {
        assert((seq![(k, v)] + es)[0] == (k, v));
    }
}

proof fn lemma_lookup_put_other(es: Seq<(Seq<u8>, Node)>, k: Seq<u8>, v: Node, l: Seq<u8>)
    requires
        k != l,
    ensures
        lookup(put_entry(es, k, v), l) == lookup(es, l),
    decreases es.len(),
{
    let r = put_entry(es, k, v);
    if es.len() == 0 {
        assert(r.drop_first() =~= es);
    } else if es[0].0 == k {
        assert(r.drop_first() =~= es.drop_first());
    } else if bytes_lt(k, es[0].0) {
        assert(r.drop_first() =~= es);
    } else {
        assert(r.drop_first() =~= put_entry(es.drop_first(), k, v));
        lemma_lookup_put_other(es.drop_first(), k, v, l);
    }
}

proof fn lemma_put_twice(es: Seq<(Seq<u8>, Node)>, k: Seq<u8>, v: Node, w: Node)
    ensures
        put_entry(put_entry(es, k, v), k, w) == put_entry(es, k, w),
    decreases es.len(),
{
    let r = put_entry(es, k, v);
    if es.len() == 0 {
        assert(put_entry(r, k, w) =~= put_entry(es, k, w));
    } else if es[0].0 == k {
        assert(put_entry(r, k, w) =~= put_entry(es, k, w));
    } else if bytes_lt(k, es[0].0) {
        assert(put_entry(r, k, w) =~= put_entry(es, k, w));
    } else {
        assert(r[0] == es[0]);
        assert(r.drop_first() =~= put_entry(es.drop_first(), k, v));
        lemma_put_twice(es.drop_first(), k, v, w);
    }
}

/// Whether the path `p` is `q` or lies above it.
pub open spec fn path_prefix(p: Seq<Seq<u8>>, q: Seq<Seq<u8>>) -> bool {
    p.len() <= q.len() && q.subrange(0, p.len() as int) == p
}

/// Neither path is the other or lies above it.
pub open spec fn paths_apart(p: Seq<Seq<u8>>, q: Seq<Seq<u8>>) -> bool {
    !path_prefix(p, q) && !path_prefix(q, p)
}

/// The paths of a list of insertions are pairwise apart.
pub open spec fn all_apart(items: Seq<(Seq<Seq<u8>>, Node)>) -> bool {
    forall|i: int, j: int| 0 <= i < items.len() && 0 <= j < items.len() && i != j
        ==> paths_apart(#[trigger] items[i].0, #[trigger] items[j].0)
}

/// The entries after inserting each object at its path in order (as
/// `Directory::insert`, or `insert_keeping_dirs` with `keep_dirs`); `None`
/// where one insertion fails.
pub open spec fn insert_all(es: Seq<(Seq<u8>, Node)>, items: Seq<(Seq<Seq<u8>>, Node)>, keep_dirs: bool) -> Option<Seq<(Seq<u8>, Node)>>
    decreases items.len(),
{
    if items.len() == 0 {
        Some(es)
    } else {
        match dir_insert_with(es, items[0].0, items[0].1, keep_dirs) {
            None => None,
            Some(e1) => insert_all(e1, items.drop_first(), keep_dirs),
        }
    }
}

/// What becomes of the entry named `p[0]` when inserting at `p`: `None` on a
/// conflict, `Some(None)` where it stays as it is, else its new object.
spec fn child_after(cur: Option<Node>, p: Seq<Seq<u8>>, x: Node, keep_dirs: bool) -> Option<Option<Node>> {
    if p.len() == 1 {
        if keep_dirs && x is Dir && cur matches Some(Node::Dir { .. }) {
            Some(None)
        } else {
            Some(Some(x))
        }
    } else {
        let sub = match cur {
            None => Some(Seq::<(Seq<u8>, Node)>::empty()),
            Some(Node::Dir { entries }) => Some(entries),
            Some(_) => None,
        };
        match sub {
            None => None,
            Some(c) => match dir_insert_with(c, p.drop_first(), x, keep_dirs) {
                None => None,
                Some(c2) => Some(Some(Node::Dir { entries: c2 })),
            },
        }
    }
}

spec fn apply_child(es: Seq<(Seq<u8>, Node)>, k: Seq<u8>, c: Option<Option<Node>>) -> Option<Seq<(Seq<u8>, Node)>> {
    match c {
        None => None,
        Some(None) => Some(es),
        Some(Some(n)) => Some(put_entry(es, k, n)),
    }
}

spec fn insert_two(es: Seq<(Seq<u8>, Node)>, p: Seq<Seq<u8>>, x: Node, q: Seq<Seq<u8>>, y: Node, keep_dirs: bool) -> Option<Seq<(Seq<u8>, Node)>> {
    match dir_insert_with(es, p, x, keep_dirs) {
        None => None,
        Some(a) => dir_insert_with(a, q, y, keep_dirs),
    }
}

proof fn lemma_insert_by_child(es: Seq<(Seq<u8>, Node)>, p: Seq<Seq<u8>>, x: Node, keep_dirs: bool)
    requires
        p.len() >= 1,
    ensures
        dir_insert_with(es, p, x, keep_dirs) == apply_child(es, p[0], child_after(lookup(es, p[0]), p, x, keep_dirs)),
{
}

/// Two insertions at paths apart from each other give the same outcome in
/// either order.
proof fn lemma_insert_two_commutes(es: Seq<(Seq<u8>, Node)>, p: Seq<Seq<u8>>, x: Node, q: Seq<Seq<u8>>, y: Node, keep_dirs: bool)
    requires
        paths_apart(p, q),
    ensures
        insert_two(es, p, x, q, y, keep_dirs) == insert_two(es, q, y, p, x, keep_dirs),
    decreases p.len(),
{
    if p.len() == 0 {
        assert(q.subrange(0, 0) =~= p);
    } else if q.len() == 0 {
        assert(p.subrange(0, 0) =~= q);
    } else if p[0] != q[0] {
        let k = p[0];
        let l = q[0];
        let cp = child_after(lookup(es, k), p, x, keep_dirs);
        let cq = child_after(lookup(es, l), q, y, keep_dirs);
        lemma_insert_by_child(es, p, x, keep_dirs);
        lemma_insert_by_child(es, q, y, keep_dirs);
        if let Some(a) = apply_child(es, k, cp) {
            lemma_insert_by_child(a, q, y, keep_dirs);
            if let Some(n) = cp.unwrap() {
                lemma_lookup_put_other(es, k, n, l);
            }
        }
        if let Some(b) = apply_child(es, l, cq) {
            lemma_insert_by_child(b, p, x, keep_dirs);
            if let Some(n) = cq.unwrap() {
                lemma_lookup_put_other(es, l, n, k);
            }
        }
        if let (Some(Some(n)), Some(Some(m))) = (cp, cq) {
            lemma_put_commutes(es, k, n, l, m);
        }
    } else {
        let k = p[0];
        if p.len() == 1 {
            assert(q.subrange(0, 1) =~= p);
        }
        if q.len() == 1 {
            assert(p.subrange(0, 1) =~= q);
        }
        let p1 = p.drop_first();
        let q1 = q.drop_first();
        assert(path_prefix(p1, q1) ==> q.subrange(0, p.len() as int) =~= p) by {
            if path_prefix(p1, q1) {
                assert(q.subrange(0, p.len() as int) =~= seq![k] + q1.subrange(0, p1.len() as int));
                assert(p =~= seq![k] + p1);
            }
        }
        assert(path_prefix(q1, p1) ==> p.subrange(0, q.len() as int) =~= q) by {
            if path_prefix(q1, p1) {
                assert(p.subrange(0, q.len() as int) =~= seq![k] + p1.subrange(0, q1.len() as int));
                assert(q =~= seq![k] + q1);
            }
        }
        let sub = match lookup(es, k) {
            None => Some(Seq::<(Seq<u8>, Node)>::empty()),
            Some(Node::Dir { entries }) => Some(entries),
            Some(_) => None,
        };
        if let Some(c) = sub {
            lemma_insert_two_commutes(c, p1, x, q1, y, keep_dirs);
            if let Some(c2) = dir_insert_with(c, p1, x, keep_dirs) {
                lemma_lookup_put_same(es, k, Node::Dir { entries: c2 });
                if let Some(c3) = dir_insert_with(c2, q1, y, keep_dirs) {
                    lemma_put_twice(es, k, Node::Dir { entries: c2 }, Node::Dir { entries: c3 });
                }
            }
            if let Some(c2) = dir_insert_with(c, q1, y, keep_dirs) {
                lemma_lookup_put_same(es, k, Node::Dir { entries: c2 });
                if let Some(c3) = dir_insert_with(c2, p1, x, keep_dirs) {
                    lemma_put_twice(es, k, Node::Dir { entries: c2 }, Node::Dir { entries: c3 });
                }
            }
        }
    }
}


proof fn lemma_insert_all_two(es: Seq<(Seq<u8>, Node)>, a: (Seq<Seq<u8>>, Node), b: (Seq<Seq<u8>>, Node), w: Seq<(Seq<Seq<u8>>, Node)>, keep_dirs: bool)
    ensures
        insert_all(es, seq![a, b] + w, keep_dirs) == match insert_two(es, a.0, a.1, b.0, b.1, keep_dirs) {
            None => None,
            Some(e2) => insert_all(e2, w, keep_dirs),
        },
{
    let s = seq![a, b] + w;
    assert(s[0] == a);
    assert(s.drop_first() =~= seq![b] + w);
    assert((seq![b] + w)[0] == b);
    assert((seq![b] + w).drop_first() =~= w);
    if let Some(e1) = dir_insert_with(es, a.0, a.1, keep_dirs) {
        assert(insert_all(e1, seq![b] + w, keep_dirs) == match dir_insert_with(e1, b.0, b.1, keep_dirs) {
            None => None,
            Some(e2) => insert_all(e2, w, keep_dirs),
        });
    }
}

/// Moving an insertion ahead of insertions at paths apart from its own does
/// not change the outcome.
proof fn lemma_insert_to_front(es: Seq<(Seq<u8>, Node)>, u: Seq<(Seq<Seq<u8>>, Node)>, a: (Seq<Seq<u8>>, Node), v: Seq<(Seq<Seq<u8>>, Node)>, keep_dirs: bool)
    requires
        forall|i: int| 0 <= i < u.len() ==> paths_apart(#[trigger] u[i].0, a.0),
    ensures
        insert_all(es, u + seq![a] + v, keep_dirs) == insert_all(es, seq![a] + u + v, keep_dirs),
    decreases u.len(),
{
    if u.len() == 0 {
        assert(u + seq![a] + v =~= seq![a] + u + v);
    } else {
        let b = u[0];
        let u1 = u.drop_first();
        assert(u + seq![a] + v =~= seq![b] + (u1 + seq![a] + v));
        assert((seq![b] + (u1 + seq![a] + v)).drop_first() =~= u1 + seq![a] + v);
        assert forall|i: int| 0 <= i < u1.len() implies paths_apart(#[trigger] u1[i].0, a.0) by {
            assert(u1[i] == u[i + 1]);
        }
        match dir_insert_with(es, b.0, b.1, keep_dirs) {
            None => {},
            Some(e1) => {
                lemma_insert_to_front(e1, u1, a, v, keep_dirs);
                assert(seq![a] + u1 + v =~= seq![a] + (u1 + v));
                assert((seq![a] + (u1 + v)).drop_first() =~= u1 + v);
            },
        }
        assert(seq![b] + (seq![a] + u1 + v) =~= seq![b, a] + (u1 + v));
        assert((seq![b, a] + (u1 + v)).drop_first() =~= seq![a] + u1 + v);
        assert(seq![a] + u + v =~= seq![a, b] + (u1 + v));
        lemma_insert_all_two(es, b, a, u1 + v, keep_dirs);
        lemma_insert_all_two(es, a, b, u1 + v, keep_dirs);
        assert(paths_apart(u[0].0, a.0));
        lemma_insert_two_commutes(es, b.0, b.1, a.0, a.1, keep_dirs);
    }
}

/// Inserting objects at paths of which none is another or lies above another
/// gives the same outcome in any order: the same tree, and so the same NAR,
/// or a failure both ways. `s2` holds the insertions of `s1`, reordered.
pub proof fn lemma_insert_any_order(es: Seq<(Seq<u8>, Node)>, s1: Seq<(Seq<Seq<u8>>, Node)>, s2: Seq<(Seq<Seq<u8>>, Node)>, keep_dirs: bool)
    requires
        s1.to_multiset() == s2.to_multiset(),
        all_apart(s1),
        all_apart(s2),
    ensures
        insert_all(es, s1, keep_dirs) == insert_all(es, s2, keep_dirs),
        insert_all(es, s1, keep_dirs) matches Some(t) ==> nar(Node::Dir { entries: t }) == nar(Node::Dir { entries: insert_all(es, s2, keep_dirs).unwrap() }),
    decreases s1.len(),
{
    broadcast use vstd::seq_lib::to_multiset_len, vstd::seq_lib::to_multiset_contains, vstd::seq_lib::to_multiset_remove;
    if s1.len() == 0 {
        assert(s2.to_multiset().len() == 0);
        assert(s2 =~= s1);
    } else {
        let a = s1[0];
        assert(s1.contains(a));
        assert(s1.to_multiset().count(a) > 0);
        assert(s2.contains(a));
        let j = choose|j: int| 0 <= j < s2.len() && s2[j] == a;
        let u = s2.subrange(0, j);
        let v = s2.subrange(j + 1, s2.len() as int);
        assert(s2 =~= u + seq![a] + v);
        assert(s2.remove(j) =~= u + v);
        assert(s1.remove(0) =~= s1.drop_first());
        let r1 = s1.drop_first();
        let r2 = u + v;
        assert forall|i: int, k: int| 0 <= i < r1.len() && 0 <= k < r1.len() && i != k implies paths_apart(#[trigger] r1[i].0, #[trigger] r1[k].0) by {
            assert(r1[i] == s1[i + 1] && r1[k] == s1[k + 1]);
        }
        assert forall|i: int, k: int| 0 <= i < r2.len() && 0 <= k < r2.len() && i != k implies paths_apart(#[trigger] r2[i].0, #[trigger] r2[k].0) by {
            let i2 = if i < j { i } else { i + 1 };
            let k2 = if k < j { k } else { k + 1 };
            assert(r2[i] == s2[i2] && r2[k] == s2[k2]);
        }
        assert forall|i: int| 0 <= i < u.len() implies paths_apart(#[trigger] u[i].0, a.0) by {
            assert(u[i] == s2[i]);
        }
        lemma_insert_to_front(es, u, a, v, keep_dirs);
        assert(seq![a] + u + v =~= seq![a] + r2);
        assert((seq![a] + r2).drop_first() =~= r2);
        match dir_insert_with(es, a.0, a.1, keep_dirs) {
            None => {},
            Some(e1) => {
                lemma_insert_any_order(e1, r1, r2, keep_dirs);
            },
        }
    }
}

} // verus!
