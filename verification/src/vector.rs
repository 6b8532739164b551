use vstd::prelude::*;

use crate::cell::OwnershipCell;
use crate::chunk::Chunk;
use crate::config::CHUNK_SIZE;
use crate::errors::Error;

verus! {

/// The elements held by a sequence of shared leaf chunks, in order.
pub open spec fn chunks_view<A>(cells: Seq<OwnershipCell<Chunk<A>>>) -> Seq<A>
    decreases cells.len(),
{
    if cells.len() == 0 {
        Seq::empty()
    } else {
        cells[0]@@ + chunks_view(cells.skip(1))
    }
}

proof fn lemma_cv_concat<A>(s1: Seq<OwnershipCell<Chunk<A>>>, s2: Seq<OwnershipCell<Chunk<A>>>)
    ensures
        chunks_view(s1 + s2) == chunks_view(s1) + chunks_view(s2),
    decreases s1.len(),
{
    if s1.len() == 0 {
        assert(s1 + s2 =~= s2);
        assert(chunks_view(s1) + chunks_view(s2) =~= chunks_view(s2));
    } else {
        assert((s1 + s2).skip(1) =~= s1.skip(1) + s2);
        lemma_cv_concat(s1.skip(1), s2);
        assert((s1 + s2)[0] == s1[0]);
        assert(chunks_view(s1 + s2) =~= chunks_view(s1) + chunks_view(s2));
    }
}

proof fn lemma_cv_push<A>(s: Seq<OwnershipCell<Chunk<A>>>, c: OwnershipCell<Chunk<A>>)
    ensures
        chunks_view(s.push(c)) == chunks_view(s) + c@@,
{
    let single = seq![c];
    assert(s.push(c) =~= s + single);
    lemma_cv_concat(s, single);
    assert(single.skip(1) =~= Seq::<OwnershipCell<Chunk<A>>>::empty());
    assert(chunks_view(single) == c@@ + chunks_view(single.skip(1)));
    assert(c@@ + Seq::<A>::empty() =~= c@@);
}

proof fn lemma_cv_skip_step<A>(s: Seq<OwnershipCell<Chunk<A>>>, j: int)
    requires
        0 <= j < s.len(),
    ensures
        chunks_view(s.skip(j)) == s[j]@@ + chunks_view(s.skip(j + 1)),
{
    assert(s.skip(j)[0] == s[j]);
    assert(s.skip(j).skip(1) =~= s.skip(j + 1));
}

/// A persistent random-access sequence backed by a relaxed tree of
/// fixed-capacity chunks. The spine (the root node) lists the leaf chunks in
/// order; every chunk sits behind an `OwnershipCell`, so sequences derived
/// from one another share all unmodified chunks, and the whole spine sits
/// behind a cell of its own, making `clone` O(1). Every mutation rebuilds
/// only the handles and chunks it touches (copy-on-write) and leaves every
/// node reachable from other live handles untouched.
pub struct Vector<A> {
    spine: OwnershipCell<Vec<OwnershipCell<Chunk<A>>>>,
    len: usize,
}

impl<A> View for Vector<A> {
    type V = Seq<A>;

    closed spec fn view(&self) -> Seq<A> {
        chunks_view(self.spine@@)
    }
}

impl<A> Clone for Vector<A> {
    /// O(1): copies the spine handle; both handles denote the same tree, so
    /// the clone observes exactly the same elements, and later mutation of
    /// either handle never changes what the other observes.
    fn clone(&self) -> (r: Self)
        ensures
            r == *self,
    {
        Vector { spine: self.spine.clone(), len: self.len }
    }
}

impl<A> Vector<A> {
    /// Structural invariant: the cached length matches the logical contents,
    /// and every leaf chunk is within capacity and non-empty.
    pub closed spec fn wf(&self) -> bool {
        &&& self.len == self.view().len()
        &&& forall|i: int|
            0 <= i < self.spine@@.len() ==> (#[trigger] self.spine@@[i])@.wf()
                && 0 < self.spine@@[i]@@.len()
    }

    pub fn new() -> (r: Self)
        ensures
            r.wf(),
            r@ == Seq::<A>::empty(),
    {
        Vector { spine: OwnershipCell::new(Vec::new()), len: 0 }
    }

    pub fn len(&self) -> (r: usize)
        requires
            self.wf(),
        ensures
            r == self@.len(),
    {
        self.len
    }

    pub fn is_empty(&self) -> (r: bool)
        requires
            self.wf(),
        ensures
            r == (self@.len() == 0),
    {
        self.len == 0
    }

    /// The holder count of the root node, for inspecting how many live
    /// sequence handles currently share this spine.
    pub fn holders(&self) -> (r: usize)
        ensures
            r >= 1,
    {
        self.spine.holders()
    }
}

/// Copies a range of chunk handles (not chunk contents): the copy-on-write
/// step that rebuilds a spine while sharing every leaf.
fn dup_cells_range<A>(cells: &Vec<OwnershipCell<Chunk<A>>>, from: usize, to: usize) -> (r: Vec<
    OwnershipCell<Chunk<A>>,
>)
    requires
        from <= to <= cells@.len(),
    ensures
        r@ == cells@.subrange(from as int, to as int),
{
    let mut r: Vec<OwnershipCell<Chunk<A>>> = Vec::new();
    let mut i: usize = from;
    while i < to
        invariant
            from <= i <= to <= cells@.len(),
            r@ == cells@.subrange(from as int, i as int),
        decreases to - i,
    {
        r.push(cells[i].clone());
        proof {
            assert(r@ =~= cells@.subrange(from as int, i + 1 as int));
        }
        i = i + 1;
    }
    r
}

impl<A: Copy> Vector<A> {
    /// Appends `value` at the back: fills the tail chunk if it has spare
    /// capacity, else threads a fresh leaf into the tree.
    pub fn push_back(&mut self, value: A)
        requires
            old(self).wf(),
            old(self)@.len() < usize::MAX,
        ensures
            final(self).wf(),
            final(self)@ == old(self)@.push(value),
    {
        let ghost oc = self.spine@@;
        let cells = self.spine.get();
        let n = cells.len();
        if n > 0 && cells[n - 1].get().len() < CHUNK_SIZE {
            let mut c = cells[n - 1].get().dup();
            match c.push_back(value) {
                Ok(_) => {},
                Err(_) => {
                    proof {
                        assert(false);
                    }
                },
            }
            let mut nc = dup_cells_range(cells, 0, n - 1);
            nc.push(OwnershipCell::new(c));
            proof {
                assert(oc =~= oc.subrange(0, n - 1 as int).push(oc[n - 1]));
                lemma_cv_push(oc.subrange(0, n - 1 as int), oc[n - 1]);
                lemma_cv_push(oc.subrange(0, n - 1 as int), nc@[n - 1]);
                assert(chunks_view(nc@) =~= chunks_view(oc).push(value));
            }
            self.spine = OwnershipCell::new(nc);
            proof {
                assert forall|i: int|
                    0 <= i < self.spine@@.len() implies (#[trigger] self.spine@@[i])@.wf()
                    && 0 < self.spine@@[i]@@.len() by {
                    if i < n - 1 {
                        assert(self.spine@@[i] == oc[i]);
                    }
                }
            }
        } else {
            let mut c = Chunk::new();
            match c.push_back(value) {
                Ok(_) => {},
                Err(_) => {
                    proof {
                        assert(false);
                    }
                },
            }
            let mut nc = dup_cells_range(cells, 0, n);
            nc.push(OwnershipCell::new(c));
            proof {
                assert(oc.subrange(0, n as int) =~= oc);
                lemma_cv_push(oc, nc@[n as int]);
                assert(chunks_view(nc@) =~= chunks_view(oc).push(value));
            }
            self.spine = OwnershipCell::new(nc);
            proof {
                assert forall|i: int|
                    0 <= i < self.spine@@.len() implies (#[trigger] self.spine@@[i])@.wf()
                    && 0 < self.spine@@[i]@@.len() by {
                    if i < n {
                        assert(self.spine@@[i] == oc[i]);
                    }
                }
            }
        }
        self.len = self.len + 1;
    }

    /// Indexed access: descends the spine by cumulative chunk sizes to the
    /// owning leaf's slot; out-of-range indices are reported, never clamped.
    pub fn get(&self, index: usize) -> (r: Result<A, Error>)
        requires
            self.wf(),
        ensures
            match r {
                Ok(v) => index < self@.len() && v == self@[index as int],
                Err(e) => e == Error::IndexOutOfBounds && index >= self@.len(),
            },
    {
        if index >= self.len {
            return Err(Error::IndexOutOfBounds);
        }
        let cells = self.spine.get();
        let n = cells.len();
        let mut j: usize = 0;
        let mut acc: usize = 0;
        proof {
            assert(cells@.skip(0) =~= cells@);
            assert(self@.skip(0) =~= self@);
        }
        while j < n
            invariant
                self.wf(),
                cells@ == self.spine@@,
                j <= n,
                n == cells@.len(),
                acc <= index < self@.len(),
                chunks_view(cells@.skip(j as int)) == self@.skip(acc as int),
            decreases n - j,
        {
            let clen = cells[j].get().len();
            proof {
                lemma_cv_skip_step(cells@, j as int);
                assert(self@.skip(acc as int).len() == self@.len() - acc);
            }
            if index - acc < clen {
                let r = *cells[j].get().get(index - acc);
                proof {
                    assert(self@.skip(acc as int)[index - acc] == self@[index as int]);
                }
                return Ok(r);
            }
            proof {
                assert(self@.skip(acc as int).skip(clen as int) =~= self@.skip(
                    acc + clen as int,
                ));
                assert(chunks_view(cells@.skip(j + 1 as int)) =~= self@.skip(acc as int).skip(
                    clen as int,
                ));
            }
            acc = acc + clen;
            j = j + 1;
        }
        proof {
            assert(self@.skip(acc as int).len() == 0);
            assert(false);
        }
        Err(Error::IndexOutOfBounds)
    }

    /// Joins two sequences, sharing every leaf chunk of both inputs; only the
    /// spines are rebuilt.
    pub fn concat(&self, other: &Vector<A>) -> (r: Vector<A>)
        requires
            self.wf(),
            other.wf(),
            self@.len() + other@.len() <= usize::MAX,
        ensures
            r.wf(),
            r@ == self@ + other@,
    {
        let a = self.spine.get();
        let b = other.spine.get();
        let an = a.len();
        let bn = b.len();
        proof {
            lemma_cv_concat(self.spine@@, other.spine@@);
        }
        let len = self.len + other.len;
        if an > 0 && bn > 0 {
            let la = a[an - 1].get().len();
            let lb = b[0].get().len();
            if lb <= CHUNK_SIZE && la <= CHUNK_SIZE - lb {
                self.concat_merged(other, len)
            } else {
                self.concat_plain(other, len)
            }
        } else {
            self.concat_plain(other, len)
        }
    }

    /// The concatenation spine when the two boundary leaves fit in one node:
    /// they are merged instead of kept as an underfull pair.
    fn concat_merged(&self, other: &Vector<A>, len: usize) -> (r: Vector<A>)
        requires
            self.wf(),
            other.wf(),
            self.spine@@.len() > 0,
            other.spine@@.len() > 0,
            self.spine@@.last()@@.len() + other.spine@@[0]@@.len() <= CHUNK_SIZE,
            len == self@.len() + other@.len(),
        ensures
            r.wf(),
            r@ == self@ + other@,
    {
        let a = self.spine.get();
        let b = other.spine.get();
        let an = a.len();
        let bn = b.len();
        proof {
            lemma_cv_concat(self.spine@@, other.spine@@);
        }
        let mut c = a[an - 1].get().dup();
        match c.append(b[0].get()) {
            Ok(()) => {},
            Err(_) => {
                proof {
                    assert(false);
                }
            },
        }
        let mut nc = dup_cells_range(a, 0, an - 1);
        nc.push(OwnershipCell::new(c));
        let mut tail = dup_cells_range(b, 1, bn);
        nc.append(&mut tail);
        proof {
            let oa = self.spine@@;
            let ob = other.spine@@;
            assert(nc@ =~= oa.subrange(0, an - 1 as int).push(nc@[an - 1 as int])
                + ob.subrange(1, bn as int));
            lemma_cv_concat(
                oa.subrange(0, an - 1 as int).push(nc@[an - 1 as int]),
                ob.subrange(1, bn as int),
            );
            lemma_cv_push(oa.subrange(0, an - 1 as int), nc@[an - 1 as int]);
            assert(oa =~= oa.subrange(0, an - 1 as int).push(oa[an - 1]));
            lemma_cv_push(oa.subrange(0, an - 1 as int), oa[an - 1]);
            assert(ob.subrange(1, bn as int) =~= ob.skip(1));
            lemma_cv_skip_step(ob, 0);
            assert(ob.skip(0) =~= ob);
            assert(chunks_view(nc@) =~= self@ + other@);
        }
        let r = Vector { spine: OwnershipCell::new(nc), len };
        proof {
            assert forall|i: int|
                0 <= i < r.spine@@.len() implies (#[trigger] r.spine@@[i])@.wf()
                && 0 < r.spine@@[i]@@.len() by {
                if i < an - 1 {
                    assert(r.spine@@[i] == self.spine@@[i]);
                } else if i >= an {
                    assert(r.spine@@[i] == other.spine@@[i - an + 1]);
                }
            }
        }
        r
    }

    /// The concatenation spine in the general shape: every leaf of both
    /// inputs is shared as it stands.
    fn concat_plain(&self, other: &Vector<A>, len: usize) -> (r: Vector<A>)
        requires
            self.wf(),
            other.wf(),
            len == self@.len() + other@.len(),
        ensures
            r.wf(),
            r@ == self@ + other@,
    {
        let a = self.spine.get();
        let b = other.spine.get();
        let an = a.len();
        let bn = b.len();
        proof {
            lemma_cv_concat(self.spine@@, other.spine@@);
        }
        let mut nc = dup_cells_range(a, 0, an);
        let mut tail = dup_cells_range(b, 0, bn);
        nc.append(&mut tail);
        proof {
            assert(a@.subrange(0, an as int) =~= a@);
            assert(b@.subrange(0, bn as int) =~= b@);
            assert(nc@ =~= self.spine@@ + other.spine@@);
        }
        let r = Vector { spine: OwnershipCell::new(nc), len };
        proof {
            assert forall|i: int|
                0 <= i < r.spine@@.len() implies (#[trigger] r.spine@@[i])@.wf()
                && 0 < r.spine@@[i]@@.len() by {
                if i < an {
                    assert(r.spine@@[i] == self.spine@@[i]);
                } else {
                    assert(r.spine@@[i] == other.spine@@[i - an]);
                }
            }
        }
        r
    }

    /// Splits into two independent sequences at `index`, slicing only the one
    /// leaf chunk that straddles the boundary and sharing all others; fails
    /// with `IndexOutOfBounds` when `index` exceeds the length.
    pub fn split_at(&self, index: usize) -> (r: Result<(Vector<A>, Vector<A>), Error>)
        requires
            self.wf(),
        ensures
            match r {
                Ok(p) => index <= self@.len() && p.0.wf() && p.1.wf() && p.0@ == self@.take(
                    index as int,
                ) && p.1@ == self@.skip(index as int),
                Err(e) => e == Error::IndexOutOfBounds && index > self@.len(),
            },
    {
        if index > self.len {
            return Err(Error::IndexOutOfBounds);
        }
        let cells = self.spine.get();
        let n = cells.len();
        let mut j: usize = 0;
        let mut acc: usize = 0;
        proof {
            assert(cells@.skip(0) =~= cells@);
            assert(self@.skip(0) =~= self@);
            assert(cells@.take(0) =~= Seq::<OwnershipCell<Chunk<A>>>::empty());
            assert(self@.take(0) =~= Seq::<A>::empty());
        }
        loop
            invariant
                self.wf(),
                cells@ == self.spine@@,
                j <= n,
                n == cells@.len(),
                acc <= index <= self@.len(),
                chunks_view(cells@.skip(j as int)) == self@.skip(acc as int),
                chunks_view(cells@.take(j as int)) == self@.take(acc as int),
            ensures
                j <= n,
                acc <= index <= self@.len(),
                chunks_view(cells@.skip(j as int)) == self@.skip(acc as int),
                chunks_view(cells@.take(j as int)) == self@.take(acc as int),
                j == n || acc + cells@[j as int]@@.len() > index,
            decreases n - j,
        {
            if j == n {
                break;
            }
            let clen = cells[j].get().len();
            proof {
                lemma_cv_skip_step(cells@, j as int);
                assert(self@.skip(acc as int).len() == self@.len() - acc);
            }
            if acc + clen > index {
                break;
            }
            proof {
                lemma_cv_skip_step(cells@, j as int);
                assert(self@.skip(acc as int).len() == self@.len() - acc);
                assert(self@.skip(acc as int).skip(clen as int) =~= self@.skip(
                    acc + clen as int,
                ));
                assert(chunks_view(cells@.skip(j + 1 as int)) =~= self@.skip(acc as int).skip(
                    clen as int,
                ));
                assert(cells@.take(j + 1 as int) =~= cells@.take(j as int).push(cells@[j as int]));
                lemma_cv_push(cells@.take(j as int), cells@[j as int]);
                assert(cells@[j as int]@@ =~= self@.skip(acc as int).take(clen as int));
                assert(self@.take(acc + clen as int) =~= self@.take(acc as int) + self@.skip(
                    acc as int,
                ).take(clen as int));
            }
            acc = acc + clen;
            j = j + 1;
        }
        let mut left = dup_cells_range(cells, 0, j);
        proof {
            assert(cells@.subrange(0, j as int) =~= cells@.take(j as int));
        }
        if j == n {
            proof {
                assert(self@.skip(acc as int).len() == 0);
                assert(acc == self@.len());
                assert(acc == index);
                assert(self@.take(index as int) =~= self@);
                assert(self@.skip(index as int) =~= Seq::<A>::empty());
            }
            let lv = Vector { spine: OwnershipCell::new(left), len: index };
            proof {
                assert forall|i: int|
                    0 <= i < lv.spine@@.len() implies (#[trigger] lv.spine@@[i])@.wf()
                    && 0 < lv.spine@@[i]@@.len() by {
                    assert(lv.spine@@[i] == self.spine@@[i]);
                }
            }
            return Ok((lv, Vector::new()));
        }
        let clen = cells[j].get().len();
        let off = index - acc;
        proof {
            lemma_cv_skip_step(cells@, j as int);
            assert(self@.skip(acc as int).len() == self@.len() - acc);
        }
        let (lc, rc) = cells[j].get().split_at(off);
        let mut right: Vec<OwnershipCell<Chunk<A>>> = Vec::new();
        right.push(OwnershipCell::new(rc));
        let mut rest = dup_cells_range(cells, j + 1, n);
        right.append(&mut rest);
        proof {
            // the straddling chunk is the prefix of what remains past `acc`
            assert(cells@[j as int]@@ =~= self@.skip(acc as int).take(clen as int));
            assert(lc@ =~= self@.skip(acc as int).take(off as int));
            assert(self@.take(index as int) =~= self@.take(acc as int) + self@.skip(
                acc as int,
            ).take(off as int));
            // right side: the rest of the straddling chunk, then the later chunks
            assert(cells@.subrange(j + 1 as int, n as int) =~= cells@.skip(j + 1 as int));
            assert(right@ =~= seq![right@[0]] + cells@.skip(j + 1 as int));
            lemma_cv_concat(seq![right@[0]], cells@.skip(j + 1 as int));
            assert(seq![right@[0]].skip(1) =~= Seq::<OwnershipCell<Chunk<A>>>::empty());
            assert(chunks_view(seq![right@[0]]) == right@[0]@@ + chunks_view(
                seq![right@[0]].skip(1),
            ));
            assert(chunks_view(seq![right@[0]]) =~= rc@);
            assert(chunks_view(cells@.skip(j + 1 as int)) =~= self@.skip(acc as int).skip(
                clen as int,
            ));
            assert(rc@ =~= self@.skip(acc as int).skip(off as int).take((clen - off) as int));
            assert(chunks_view(right@) =~= self@.skip(acc as int).skip(off as int));
            assert(self@.skip(acc as int).skip(off as int) =~= self@.skip(index as int));
        }
        let lv = if off > 0 {
            let mut left2 = left;
            left2.push(OwnershipCell::new(lc));
            proof {
                lemma_cv_push(cells@.take(j as int), left2@[j as int]);
            }
            Vector { spine: OwnershipCell::new(left2), len: index }
        } else {
            proof {
                assert(lc@.len() == 0);
                assert(self@.take(acc as int) + lc@ =~= self@.take(acc as int));
            }
            Vector { spine: OwnershipCell::new(left), len: index }
        };
        let rv = Vector { spine: OwnershipCell::new(right), len: self.len - index };
        proof {
            assert(lv@ =~= self@.take(index as int));
            assert(self@.skip(index as int).len() == self@.len() - index);
            assert forall|i: int|
                0 <= i < lv.spine@@.len() implies (#[trigger] lv.spine@@[i])@.wf()
                && 0 < lv.spine@@[i]@@.len() by {
                if i < j {
                    assert(lv.spine@@[i] == self.spine@@[i]);
                }
            }
            assert forall|i: int|
                0 <= i < rv.spine@@.len() implies (#[trigger] rv.spine@@[i])@.wf()
                && 0 < rv.spine@@[i]@@.len() by {
                if i > 0 {
                    assert(rv.spine@@[i] == self.spine@@[j + i]);
                }
            }
        }
        Ok((lv, rv))
    }

    /// A one-element sequence.
    pub fn unit(value: A) -> (r: Self)
        ensures
            r.wf(),
            r@ == seq![value],
    {
        let mut r = Vector::new();
        r.push_back(value);
        proof {
            assert(Seq::<A>::empty().push(value) =~= seq![value]);
        }
        r
    }

    /// Prepends `value` at the front.
    pub fn push_front(&mut self, value: A)
        requires
            old(self).wf(),
            old(self)@.len() < usize::MAX,
        ensures
            final(self).wf(),
            final(self)@ == seq![value] + old(self)@,
    {
        let u = Vector::unit(value);
        let prev = self.clone();
        *self = u.concat(&prev);
    }

    /// Removes and returns the last element; fails with `Empty` (leaving the
    /// sequence unchanged) when there is none.
    pub fn pop_back(&mut self) -> (r: Result<A, Error>)
        requires
            old(self).wf(),
        ensures
            final(self).wf(),
            match r {
                Ok(v) => old(self)@.len() > 0 && v == old(self)@.last() && final(self)@ == old(self)@.drop_last(),
                Err(e) => e == Error::Empty && old(self)@.len() == 0 && final(self)@ == old(self)@,
            },
    {
        if self.len == 0 {
            return Err(Error::Empty);
        }
        let v = match self.get(self.len - 1) {
            Ok(v) => v,
            Err(_) => {
                proof {
                    assert(false);
                }
                vstd::pervasive::unreached()
            },
        };
        match self.split_at(self.len - 1) {
            Ok((l, _)) => {
                proof {
                    assert(old(self)@.take(old(self)@.len() - 1) =~= old(self)@.drop_last());
                }
                *self = l;
            },
            Err(_) => {
                proof {
                    assert(false);
                }
            },
        }
        Ok(v)
    }

    /// Removes and returns the first element; fails with `Empty` (leaving the
    /// sequence unchanged) when there is none.
    pub fn pop_front(&mut self) -> (r: Result<A, Error>)
        requires
            old(self).wf(),
        ensures
            final(self).wf(),
            match r {
                Ok(v) => old(self)@.len() > 0 && v == old(self)@[0] && final(self)@ == old(self)@.skip(1),
                Err(e) => e == Error::Empty && old(self)@.len() == 0 && final(self)@ == old(self)@,
            },
    {
        if self.len == 0 {
            return Err(Error::Empty);
        }
        let v = match self.get(0) {
            Ok(v) => v,
            Err(_) => {
                proof {
                    assert(false);
                }
                vstd::pervasive::unreached()
            },
        };
        match self.split_at(1) {
            Ok((_, rest)) => {
                *self = rest;
            },
            Err(_) => {
                proof {
                    assert(false);
                }
            },
        }
        Ok(v)
    }

    /// Inserts `value` before position `index`, shifting the rest right;
    /// fails with `IndexOutOfBounds` (leaving the sequence unchanged) when
    /// `index` exceeds the length.
    pub fn insert(&mut self, index: usize, value: A) -> (r: Result<(), Error>)
        requires
            old(self).wf(),
            old(self)@.len() < usize::MAX,
        ensures
            final(self).wf(),
            match r {
                Ok(()) => index <= old(self)@.len() && final(self)@ == old(self)@.insert(
                    index as int,
                    value,
                ),
                Err(e) => e == Error::IndexOutOfBounds && index > old(self)@.len() && final(self)@ == old(self)@,
            },
    {
        match self.split_at(index) {
            Err(e) => Err(e),
            Ok((l, rest)) => {
                let u = Vector::unit(value);
                let lu = l.concat(&u);
                *self = lu.concat(&rest);
                proof {
                    assert((old(self)@.take(index as int) + seq![value]) + old(self)@.skip(
                        index as int,
                    ) =~= old(self)@.insert(index as int, value));
                }
                Ok(())
            },
        }
    }

    /// Removes and returns the element at `index`, shifting the rest left;
    /// fails with `IndexOutOfBounds` (leaving the sequence unchanged) when
    /// `index` is not below the length.
    pub fn remove(&mut self, index: usize) -> (r: Result<A, Error>)
        requires
            old(self).wf(),
        ensures
            final(self).wf(),
            match r {
                Ok(v) => index < old(self)@.len() && v == old(self)@[index as int] && final(self)@ == old(self)@.remove(index as int),
                Err(e) => e == Error::IndexOutOfBounds && index >= old(self)@.len() && final(self)@ == old(self)@,
            },
    {
        let v = match self.get(index) {
            Ok(v) => v,
            Err(e) => {
                return Err(e);
            },
        };
        match self.split_at(index) {
            Ok((l, rest)) => {
                match rest.split_at(1) {
                    Ok((_, rr)) => {
                        *self = l.concat(&rr);
                        proof {
                            assert(old(self)@.skip(index as int).skip(1) =~= old(self)@.skip(
                                index + 1 as int,
                            ));
                            assert(old(self)@.take(index as int) + old(self)@.skip(
                                index + 1 as int,
                            ) =~= old(self)@.remove(index as int));
                        }
                    },
                    Err(_) => {
                        proof {
                            assert(false);
                        }
                    },
                }
            },
            Err(_) => {
                proof {
                    assert(false);
                }
            },
        }
        Ok(v)
    }

    /// Functional update of the element at `index`; fails with
    /// `IndexOutOfBounds` (leaving the sequence unchanged) when `index` is
    /// not below the length.
    pub fn set(&mut self, index: usize, value: A) -> (r: Result<(), Error>)
        requires
            old(self).wf(),
        ensures
            final(self).wf(),
            match r {
                Ok(()) => index < old(self)@.len() && final(self)@ == old(self)@.update(
                    index as int,
                    value,
                ),
                Err(e) => e == Error::IndexOutOfBounds && index >= old(self)@.len() && final(self)@ == old(self)@,
            },
    {
        if index >= self.len {
            return Err(Error::IndexOutOfBounds);
        }
        let cells = self.spine.get();
        let n = cells.len();
        let mut j: usize = 0;
        let mut acc: usize = 0;
        proof {
            assert(cells@.skip(0) =~= cells@);
            assert(self@.skip(0) =~= self@);
            assert(cells@.take(0) =~= Seq::<OwnershipCell<Chunk<A>>>::empty());
            assert(self@.take(0) =~= Seq::<A>::empty());
        }
        loop
            invariant
                self.wf(),
                cells@ == self.spine@@,
                j <= n,
                n == cells@.len(),
                acc <= index < self@.len(),
                chunks_view(cells@.skip(j as int)) == self@.skip(acc as int),
                chunks_view(cells@.take(j as int)) == self@.take(acc as int),
            ensures
                j < n,
                acc <= index < self@.len(),
                chunks_view(cells@.skip(j as int)) == self@.skip(acc as int),
                chunks_view(cells@.take(j as int)) == self@.take(acc as int),
                acc + cells@[j as int]@@.len() > index,
            decreases n - j,
        {
            if j == n {
                proof {
                    assert(self@.skip(acc as int).len() == 0);
                    assert(false);
                }
                break;
            }
            let clen = cells[j].get().len();
            proof {
                lemma_cv_skip_step(cells@, j as int);
                assert(self@.skip(acc as int).len() == self@.len() - acc);
            }
            if acc + clen > index {
                break;
            }
            proof {
                assert(self@.skip(acc as int).skip(clen as int) =~= self@.skip(
                    acc + clen as int,
                ));
                assert(chunks_view(cells@.skip(j + 1 as int)) =~= self@.skip(acc as int).skip(
                    clen as int,
                ));
                assert(cells@.take(j + 1 as int) =~= cells@.take(j as int).push(cells@[j as int]));
                lemma_cv_push(cells@.take(j as int), cells@[j as int]);
                assert(cells@[j as int]@@ =~= self@.skip(acc as int).take(clen as int));
                assert(self@.take(acc + clen as int) =~= self@.take(acc as int) + self@.skip(
                    acc as int,
                ).take(clen as int));
            }
            acc = acc + clen;
            j = j + 1;
        }
        let clen = cells[j].get().len();
        let off = index - acc;
        proof {
            lemma_cv_skip_step(cells@, j as int);
            assert(self@.skip(acc as int).len() == self@.len() - acc);
        }
        let mut c = cells[j].get().dup();
        c.set(off, value);
        let mut nc = dup_cells_range(cells, 0, j);
        nc.push(OwnershipCell::new(c));
        let mut rest = dup_cells_range(cells, j + 1, n);
        nc.append(&mut rest);
        proof {
            let oc = self.spine@@;
            let upd = self@.update(index as int, value);
            assert(nc@ =~= oc.take(j as int).push(nc@[j as int]) + oc.skip(j + 1 as int));
            lemma_cv_concat(oc.take(j as int).push(nc@[j as int]), oc.skip(j + 1 as int));
            lemma_cv_push(oc.take(j as int), nc@[j as int]);
            assert(oc[j as int]@@ =~= self@.skip(acc as int).take(clen as int));
            assert(chunks_view(oc.skip(j + 1 as int)) =~= self@.skip(acc as int).skip(
                clen as int,
            ));
            assert(chunks_view(nc@) =~= upd);
        }
        let ghost oc = self.spine@@;
        self.spine = OwnershipCell::new(nc);
        proof {
            assert forall|i: int|
                0 <= i < self.spine@@.len() implies (#[trigger] self.spine@@[i])@.wf()
                && 0 < self.spine@@[i]@@.len() by {
                if i < j {
                    assert(self.spine@@[i] == oc[i]);
                } else if i > j {
                    assert(self.spine@@[i] == oc[i]);
                }
            }
        }
        Ok(())
    }

    /// The elements in index order, as a plain vector: the forward iteration
    /// of the sequence.
    pub fn to_vec(&self) -> (r: Vec<A>)
        requires
            self.wf(),
        ensures
            r@ == self@,
    {
        let mut r: Vec<A> = Vec::new();
        let mut i: usize = 0;
        let n = self.len;
        while i < n
            invariant
                self.wf(),
                i <= n == self@.len(),
                r@ == self@.take(i as int),
            decreases n - i,
        {
            match self.get(i) {
                Ok(v) => r.push(v),
                Err(_) => {
                    proof {
                        assert(false);
                    }
                },
            }
            proof {
                assert(r@ =~= self@.take(i + 1 as int));
            }
            i = i + 1;
        }
        proof {
            assert(self@.take(n as int) =~= self@);
        }
        r
    }

    /// The elements in reverse index order: the backward iteration of the
    /// sequence.
    pub fn to_vec_rev(&self) -> (r: Vec<A>)
        requires
            self.wf(),
        ensures
            r@.len() == self@.len(),
            forall|k: int| 0 <= k < self@.len() ==> r@[k] == self@[self@.len() - 1 - k],
    {
        let mut r: Vec<A> = Vec::new();
        let n = self.len;
        let mut i: usize = 0;
        while i < n
            invariant
                self.wf(),
                i <= n == self@.len(),
                r@.len() == i,
                forall|k: int| 0 <= k < i ==> r@[k] == self@[self@.len() - 1 - k],
            decreases n - i,
        {
            match self.get(n - 1 - i) {
                Ok(v) => r.push(v),
                Err(_) => {
                    proof {
                        assert(false);
                    }
                },
            }
            i = i + 1;
        }
        r
    }

    /// Builds a sequence from an ordered slice of elements, following the
    /// same invariants as incremental pushes.
    pub fn from_vec(items: &Vec<A>) -> (r: Vector<A>)
        ensures
            r.wf(),
            r@ == items@,
    {
        let mut r = Vector::new();
        let mut i: usize = 0;
        let n = items.len();
        while i < n
            invariant
                i <= n == items@.len(),
                r.wf(),
                r@ == items@.take(i as int),
            decreases n - i,
        {
            r.push_back(items[i]);
            proof {
                assert(r@ =~= items@.take(i + 1 as int));
            }
            i = i + 1;
        }
        proof {
            assert(items@.take(n as int) =~= items@);
        }
        r
    }
}

/// Concatenation is associative: element-for-element, joining three
/// sequences groups either way. Together with `Vector::concat`'s contract
/// (`r@ == a@ + b@`) this carries the law to the collection level.
pub proof fn lemma_concat_associative<A>(a: Seq<A>, b: Seq<A>, c: Seq<A>)
    ensures
        (a + b) + c == a + (b + c),
{
    assert((a + b) + c =~= a + (b + c));
}

/// Split then concat is identity: for any valid split index, the two halves
/// that `Vector::split_at` returns (`take`/`skip` of the original) joined by
/// `Vector::concat` reproduce the original exactly.
pub proof fn lemma_split_concat_identity<A>(s: Seq<A>, i: int)
    requires
        0 <= i <= s.len(),
    ensures
        s.take(i) + s.skip(i) == s,
{
    assert(s.take(i) + s.skip(i) =~= s);
}

} // verus!
