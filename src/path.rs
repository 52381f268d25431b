//! Abstract paths: sequences of byte components, independent of the host.
use vstd::prelude::*;

verus! {

/// Splits a byte string at every `/`; `n` separators give `n + 1` segments.
pub open spec fn split_slash(v: Seq<u8>) -> Seq<Seq<u8>>
    decreases v.len(),
{
    if v.len() == 0 {
        seq![Seq::empty()]
    } else {
        let s = split_slash(v.drop_last());
        if v.last() == 47u8 {
            s.push(Seq::empty())
        } else {
            s.update(s.len() - 1, s.last().push(v.last()))
        }
    }
}

/// A segment that names something: neither empty nor `.`.
pub open spec fn is_component(c: Seq<u8>) -> bool {
    c.len() != 0 && c != seq![46u8]
}

/// The components of a path string: `//` collapses, a trailing `/` and `./`
/// segments vanish.
pub open spec fn components(v: Seq<u8>) -> Seq<Seq<u8>> {
    split_slash(v).filter(|c: Seq<u8>| is_component(c))
}

/// Components joined with `/`, with no leading or trailing separator.
pub open spec fn join_path(s: Seq<Seq<u8>>) -> Seq<u8>
    decreases s.len(),
{
    if s.len() == 0 {
        Seq::empty()
    } else if s.len() == 1 {
        s[0]
    } else {
        join_path(s.drop_last()).push(47u8) + s.last()
    }
}

/// Why a path could not be formed.
#[derive(Clone, Copy, Debug, PartialEq, Eq)]
pub enum PathError {
    /// Nothing was left once empty and `.` segments were dropped.
    EmptyFileName,
}

/// Abstract path, not system dependent.
#[derive(Clone, Debug, PartialEq, Eq, PartialOrd, Ord)]
pub struct FileName(pub(crate) Vec<Vec<u8>>);

impl View for FileName {
    type V = Seq<Seq<u8>>;

    open(crate) spec fn view(&self) -> Seq<Seq<u8>> {
        self.0@.map_values(|c: Vec<u8>| c@)
    }
}

impl FileName {
    /// A path of one component.
    pub fn singleton(item: Vec<u8>) -> (r: FileName)
        ensures
            r@ == seq![item@],
    {
        let r = FileName(vec![item]);
        assert(r@ =~= seq![item@]);
        r
    }

    /// The last component.
    pub fn file_name(&self) -> (r: Option<&Vec<u8>>)
        ensures
            self@.len() == 0 ==> r.is_none(),
            self@.len() > 0 ==> r.is_some() && r.unwrap()@ == self@.last(),
    {
        if self.0.len() == 0 {
            None
        } else {
            Some(&self.0[self.0.len() - 1])
        }
    }

    /// All components but the last, where at least one stays.
    pub fn parent(&self) -> (r: Option<FileName>)
        ensures
            self@.len() <= 1 ==> r.is_none(),
            self@.len() > 1 ==> r.is_some() && r.unwrap()@ == self@.drop_last(),
    {
        if self.0.len() <= 1 {
            None
        } else {
            let mut out: Vec<Vec<u8>> = Vec::new();
            let n = self.0.len() - 1;
            let mut i: usize = 0;
            while i < n
                invariant
                    n == self.0.len() - 1,
                    i <= n,
                    out@.len() == i,
                    forall|j: int| 0 <= j < i ==> #[trigger] out@[j]@ == self.0@[j]@,
                decreases n - i,
            {
                out.push(self.0[i].clone());
                i = i + 1;
            }
            let r = FileName(out);
            assert(r@ =~= self@.drop_last());
            Some(r)
        }
    }

    /// All components but the first, where at least one stays.
    pub fn drop_first(&self) -> (r: Option<FileName>)
        ensures
            self@.len() <= 1 ==> r.is_none(),
            self@.len() > 1 ==> r.is_some() && r.unwrap()@ == self@.drop_first(),
    {
        if self.0.len() <= 1 {
            None
        } else {
            let mut out: Vec<Vec<u8>> = Vec::new();
            let n = self.0.len();
            let mut i: usize = 1;
            while i < n
                invariant
                    n == self.0.len(),
                    1 <= i <= n,
                    out@.len() == i - 1,
                    forall|j: int| 0 <= j < i - 1 ==> #[trigger] out@[j]@ == self.0@[j + 1]@,
                decreases n - i,
            {
                out.push(self.0[i].clone());
                i = i + 1;
            }
            let r = FileName(out);
            assert(r@ =~= self@.drop_first());
            Some(r)
        }
    }

    /// The components joined with `/`.
    pub fn to_path(&self) -> (r: Vec<u8>)
        ensures
            r@ == join_path(self@),
    {
        let mut out: Vec<u8> = Vec::new();
        let mut i: usize = 0;
        while i < self.0.len()
            invariant
                i <= self.0.len(),
                out@ == join_path(self@.subrange(0, i as int)),
            decreases self.0.len() - i,
        {
            let ghost before = self@.subrange(0, i as int);
            if i > 0 {
                out.push(47u8);
            }
            out.extend_from_slice(self.0[i].as_slice());
            proof {
                let after = self@.subrange(0, i + 1);
                assert(after.drop_last() =~= before);
                if i == 0 {
                    assert(out@ =~= after[0]);
                }
            }
            i = i + 1;
        }
        assert(self@.subrange(0, self.0.len() as int) =~= self@);
        out
    }

    /// Parses a path string into its components; fails where none is left.
    pub fn try_from_bytes(value: &[u8]) -> (r: Result<FileName, PathError>)
        ensures
            components(value@).len() == 0 <==> r.is_err(),
            r matches Ok(p) ==> p@ == components(value@),
            r matches Ok(p) ==> forall|i: int| 0 <= i < p@.len() ==> is_component(#[trigger] p@[i]),
            r matches Err(e) ==> e == PathError::EmptyFileName,
    {
        let mut bits: Vec<Vec<u8>> = Vec::new();
        let mut cur: Vec<u8> = Vec::new();
        let ghost mut done: Seq<Seq<u8>> = Seq::empty();
        let mut i: usize = 0;
        while i < value.len()
            invariant
                i <= value.len(),
                split_slash(value@.subrange(0, i as int)) == done.push(cur@),
                bits@.map_values(|c: Vec<u8>| c@) == done.filter(|c: Seq<u8>| is_component(c)),
                forall|j: int| 0 <= j < bits@.len() ==> is_component(#[trigger] bits@[j]@),
            decreases value.len() - i,
        {
            let b = value[i];
            proof {
                assert(value@.subrange(0, i + 1).drop_last() =~= value@.subrange(0, i as int));
            }
            if b == 47u8 {
                let ghost old_done = done;
                let ghost old_bits = bits@.map_values(|c: Vec<u8>| c@);
                if keep_component(&cur) {
                    bits.push(cur);
                } else {
                }
                proof {
                    done = old_done.push(cur@);
                    reveal(Seq::filter);
                    assert(done.drop_last() =~= old_done);
                    assert(bits@.map_values(|c: Vec<u8>| c@) =~= done.filter(|c: Seq<u8>| is_component(c)));
                }
                cur = Vec::new();
                proof {
                    assert(done.push(cur@) =~= done.push(Seq::empty()));
                }
            } else {
                let ghost old_cur = cur@;
                cur.push(b);
                proof {
                    assert(done.push(cur@) =~= done.push(old_cur).update(done.len() as int, old_cur.push(b)));
                }
            }
            i = i + 1;
        }
        proof {
            assert(value@.subrange(0, value.len() as int) =~= value@);
        }
        let ghost old_done = done;
        if keep_component(&cur) {
            bits.push(cur);
        }
        proof {
            let all = old_done.push(cur@);
            reveal(Seq::filter);
            assert(all.drop_last() =~= old_done);
            assert(bits@.map_values(|c: Vec<u8>| c@) =~= all.filter(|c: Seq<u8>| is_component(c)));
        }
        if bits.len() == 0 {
            Err(PathError::EmptyFileName)
        } else {
            let r = FileName(bits);
            assert forall|i: int| 0 <= i < r@.len() implies is_component(#[trigger] r@[i]) by {
                assert(r@[i] == bits@[i]@);
            }
            Ok(r)
        }
    }
}

/// Whether a segment names something (neither empty nor `.`).
fn keep_component(c: &Vec<u8>) -> (r: bool)
    ensures
        r == is_component(c@),
{
    if c.len() == 0 {
        false
    } else if c.len() == 1 && c[0] == 46u8 {
        assert(c@ =~= seq![46u8]);
        false
    } else {
        proof {
            if c.len() == 1 {
                assert(c@ != seq![46u8]) by {
                    assert(seq![46u8][0] == 46u8);
                }
            }
        }
        true
    }
}


proof fn lemma_split_slash_len(v: Seq<u8>)
    ensures
        split_slash(v).len() >= 1,
    decreases v.len(),
{
    if v.len() > 0 {
        lemma_split_slash_len(v.drop_last());
    }
}

/// Joining the segments of a split gives back the bytes split.
pub proof fn lemma_join_split(v: Seq<u8>)
    ensures
        join_path(split_slash(v)) == v,
    decreases v.len(),
{
    if v.len() > 0 {
        let w = v.drop_last();
        let s = split_slash(w);
        lemma_join_split(w);
        lemma_split_slash_len(w);
        if v.last() == 47u8 {
            let t = s.push(Seq::empty());
            assert(t.drop_last() =~= s);
            assert(join_path(t) =~= v);
        } else {
            let t = s.update(s.len() - 1, s.last().push(v.last()));
            if s.len() == 1 {
                assert(join_path(t) =~= v);
            } else {
                assert(t.drop_last() =~= s.drop_last());
                assert(join_path(s) == join_path(s.drop_last()).push(47u8) + s.last());
                assert(join_path(t) == join_path(s.drop_last()).push(47u8) + s.last().push(v.last()));
                assert(v =~= w.push(v.last()));
                assert(join_path(t) =~= v);
            }
        }
    }
}

impl FileName {
    /// The segments of `value` between `/` separators, kept as they are, so
    /// that `to_path` gives `value` back byte for byte.
    pub fn verbatim(value: &[u8]) -> (r: FileName)
        ensures
            r@ == split_slash(value@),
            join_path(r@) == value@,
    {
        let mut parts: Vec<Vec<u8>> = Vec::new();
        let mut cur: Vec<u8> = Vec::new();
        let mut i: usize = 0;
        while i < value.len()
            invariant
                i <= value.len(),
                split_slash(value@.subrange(0, i as int)) == parts@.map_values(|c: Vec<u8>| c@).push(cur@),
            decreases value.len() - i,
        {
            let b = value[i];
            let ghost before = parts@.map_values(|c: Vec<u8>| c@);
            proof {
                assert(value@.subrange(0, i + 1).drop_last() =~= value@.subrange(0, i as int));
            }
            if b == 47u8 {
                let ghost c = cur@;
                parts.push(cur);
                cur = Vec::new();
                assert(parts@.map_values(|c: Vec<u8>| c@).push(cur@) =~= before.push(c).push(Seq::empty()));
            } else {
                let ghost c = cur@;
                cur.push(b);
                assert(parts@.map_values(|c: Vec<u8>| c@).push(cur@) =~= before.push(c).update(before.len() as int, c.push(b)));
            }
            i = i + 1;
        }
        let ghost before = parts@.map_values(|c: Vec<u8>| c@);
        parts.push(cur);
        proof {
            assert(value@.subrange(0, value.len() as int) =~= value@);
            assert(parts@.map_values(|c: Vec<u8>| c@) =~= before.push(cur@));
            lemma_join_split(value@);
        }
        FileName(parts)
    }
}


/// No `/` in the bytes.
pub open spec fn slash_free(x: Seq<u8>) -> bool {
    forall|i: int| 0 <= i < x.len() ==> x[i] != 47u8
}

proof fn lemma_split_slash_free(v: Seq<u8>)
    ensures
        forall|i: int| 0 <= i < split_slash(v).len() ==> slash_free(#[trigger] split_slash(v)[i]),
    decreases v.len(),
{
    if v.len() > 0 {
        lemma_split_slash_free(v.drop_last());
        lemma_split_slash_len(v.drop_last());
        let s = split_slash(v.drop_last());
        if v.last() != 47u8 {
            assert(slash_free(s.last().push(v.last())));
        } else {
            assert(slash_free(Seq::<u8>::empty()));
        }
        assert forall|i: int| 0 <= i < split_slash(v).len() implies slash_free(#[trigger] split_slash(v)[i]) by {
            if i < s.len() - 1 || (v.last() == 47u8 && i < s.len()) {
                assert(split_slash(v)[i] == s[i]);
            }
        }
    }
}

proof fn lemma_components_clean(s: Seq<Seq<u8>>, f: Seq<Seq<u8>>)
    requires
        forall|i: int| 0 <= i < s.len() ==> slash_free(#[trigger] s[i]),
        f == s.filter(|c: Seq<u8>| is_component(c)),
    ensures
        forall|i: int| 0 <= i < f.len() ==> slash_free(#[trigger] f[i]) && is_component(f[i]),
    decreases s.len(),
{
    reveal(Seq::filter);
    if s.len() > 0 {
        let t = s.drop_last();
        assert forall|i: int| 0 <= i < t.len() implies slash_free(#[trigger] t[i]) by {
            assert(t[i] == s[i]);
        }
        let g = t.filter(|c: Seq<u8>| is_component(c));
        lemma_components_clean(t, g);
        assert forall|i: int| 0 <= i < f.len() implies slash_free(#[trigger] f[i]) && is_component(f[i]) by {
            if i < g.len() {
                assert(f[i] == g[i]);
            }
        }
    }
}

proof fn lemma_filter_keeps_all(c: Seq<Seq<u8>>)
    requires
        forall|i: int| 0 <= i < c.len() ==> is_component(#[trigger] c[i]),
    ensures
        c.filter(|x: Seq<u8>| is_component(x)) == c,
    decreases c.len(),
{
    reveal(Seq::filter);
    if c.len() > 0 {
        let t = c.drop_last();
        assert forall|i: int| 0 <= i < t.len() implies is_component(#[trigger] t[i]) by {
            assert(t[i] == c[i]);
        }
        lemma_filter_keeps_all(t);
        assert(c.filter(|x: Seq<u8>| is_component(x)) =~= c);
    }
}

proof fn lemma_split_single(x: Seq<u8>)
    requires
        slash_free(x),
    ensures
        split_slash(x) == seq![x],
    decreases x.len(),
{
    if x.len() > 0 {
        lemma_split_single(x.drop_last());
        assert(x.drop_last().push(x.last()) =~= x);
        assert(seq![x.drop_last()].update(0, x.drop_last().push(x.last())) =~= seq![x]);
    } else {
        assert(x =~= Seq::<u8>::empty());
    }
}

proof fn lemma_split_after_slash(v: Seq<u8>, y: Seq<u8>)
    requires
        slash_free(y),
    ensures
        split_slash(v.push(47u8) + y) == split_slash(v).push(y),
    decreases y.len(),
{
    if y.len() == 0 {
        assert(y =~= Seq::<u8>::empty());
        assert(v.push(47u8) + y =~= v.push(47u8));
        assert(v.push(47u8).drop_last() =~= v);
        assert(split_slash(v).push(y) =~= split_slash(v).push(Seq::empty()));
    } else {
        let y1 = y.drop_last();
        lemma_split_after_slash(v, y1);
        let w = v.push(47u8) + y;
        assert(w.drop_last() =~= v.push(47u8) + y1);
        assert(w.last() == y.last());
        assert(y1.push(y.last()) =~= y);
        assert(split_slash(v).push(y1).update(split_slash(v).len() as int, y1.push(y.last())) =~= split_slash(v).push(y));
    }
}

proof fn lemma_split_join(c: Seq<Seq<u8>>)
    requires
        c.len() >= 1,
        forall|i: int| 0 <= i < c.len() ==> slash_free(#[trigger] c[i]),
    ensures
        split_slash(join_path(c)) == c,
    decreases c.len(),
{
    if c.len() == 1 {
        lemma_split_single(c[0]);
        assert(seq![c[0]] =~= c);
    } else {
        let t = c.drop_last();
        assert forall|i: int| 0 <= i < t.len() implies slash_free(#[trigger] t[i]) by {
            assert(t[i] == c[i]);
        }
        lemma_split_join(t);
        lemma_split_after_slash(join_path(t), c.last());
        assert(t.push(c.last()) =~= c);
    }
}

/// Parsing the joined form of a parsed path gives that path again.
pub(crate) proof fn lemma_components_of_joined(v: Seq<u8>)
    ensures
        components(join_path(components(v))) == components(v),
{
    let c = components(v);
    lemma_split_slash_free(v);
    lemma_components_clean(split_slash(v), c);
    if c.len() == 0 {
        reveal_with_fuel(Seq::filter, 2);
        assert(join_path(c) == Seq::<u8>::empty());
        assert(split_slash(Seq::<u8>::empty()) == seq![Seq::<u8>::empty()]);
        assert(seq![Seq::<u8>::empty()].drop_last() =~= Seq::<Seq<u8>>::empty());
        assert(!is_component(Seq::<u8>::empty()));
        assert(components(Seq::<u8>::empty()) =~= Seq::<Seq<u8>>::empty());
    } else {
        lemma_split_join(c);
        lemma_filter_keeps_all(c);
    }
}

} // verus!
