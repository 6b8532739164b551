use vstd::prelude::*;

use crate::ordmap::Entry;
use crate::ordmap::OrdMap;
use crate::ordmap::contains_key;
use crate::ordmap::keys_of;
use crate::ordmap::model_insert;
use crate::ordmap::model_remove;

verus! {

/// Keys strictly ascending: the ordering invariant seen through the set.
pub open spec fn sorted_keys(s: Seq<u64>) -> bool {
    forall|i: int, j: int| 0 <= i < j < s.len() ==> s[i] < s[j]
}

/// Reference sorted-set model of insertion: a no-op when the element is
/// already present, else placement in sorted position.
pub open spec fn model_set_insert(s: Seq<u64>, x: u64) -> Seq<u64>
    decreases s.len(),
{
    if s.len() == 0 {
        seq![x]
    } else if x < s[0] {
        seq![x] + s
    } else if x == s[0] {
        s
    } else {
        seq![s[0]] + model_set_insert(s.skip(1), x)
    }
}

/// Reference sorted-set model of removal: drops the element, a no-op when it
/// is absent.
pub open spec fn model_set_remove(s: Seq<u64>, x: u64) -> Seq<u64>
    decreases s.len(),
{
    if s.len() == 0 {
        s
    } else if x < s[0] {
        s
    } else if x == s[0] {
        s.skip(1)
    } else {
        seq![s[0]] + model_set_remove(s.skip(1), x)
    }
}

proof fn lemma_cons_contains(h: u64, t: Seq<u64>, y: u64)
    ensures
        (seq![h] + t).contains(y) == (y == h || t.contains(y)),
{
    let c = seq![h] + t;
    if c.contains(y) {
        let i = choose|i: int| 0 <= i < c.len() && c[i] == y;
        if i > 0 {
            assert(t[i - 1] == y);
        }
    }
    if y == h {
        assert(c[0] == y);
    }
    if t.contains(y) {
        let i = choose|i: int| 0 <= i < t.len() && t[i] == y;
        assert(c[i + 1] == y);
    }
}

proof fn lemma_push_contains(t: Seq<u64>, k: u64, y: u64)
    ensures
        t.push(k).contains(y) == (t.contains(y) || y == k),
{
    let c = t.push(k);
    if c.contains(y) {
        let i = choose|i: int| 0 <= i < c.len() && c[i] == y;
        if i < t.len() {
            assert(t[i] == y);
        }
    }
    if y == k {
        assert(c[t.len() as int] == y);
    }
    if t.contains(y) {
        let i = choose|i: int| 0 <= i < t.len() && t[i] == y;
        assert(c[i] == y);
    }
}

/// What the reference insertion model does to membership and size.
proof fn lemma_model_set_insert_facts(s: Seq<u64>, x: u64)
    ensures
        forall|y: u64| model_set_insert(s, x).contains(y) == (s.contains(y) || y == x),
        s.len() <= model_set_insert(s, x).len() <= s.len() + 1,
    decreases s.len(),
{
    let r = model_set_insert(s, x);
    if s.len() == 0 {
        assert forall|y: u64| r.contains(y) == (s.contains(y) || y == x) by {
            if r.contains(y) {
                let i = choose|i: int| 0 <= i < r.len() && r[i] == y;
                assert(y == x);
            }
            if y == x {
                assert(r[0] == y);
            }
            assert(!s.contains(y));
        }
    } else if x < s[0] {
        assert forall|y: u64| r.contains(y) == (s.contains(y) || y == x) by {
            lemma_cons_contains(x, s, y);
        }
    } else if x == s[0] {
        assert forall|y: u64| r.contains(y) == (s.contains(y) || y == x) by {
            if y == x {
                assert(s[0] == y);
            }
        }
    } else {
        lemma_model_set_insert_facts(s.skip(1), x);
        assert forall|y: u64| r.contains(y) == (s.contains(y) || y == x) by {
            lemma_cons_contains(s[0], model_set_insert(s.skip(1), x), y);
            lemma_cons_contains(s[0], s.skip(1), y);
            assert(seq![s[0]] + s.skip(1) =~= s);
        }
    }
}

proof fn lemma_model_set_insert_contains(s: Seq<u64>, x: u64, y: u64)
    ensures
        model_set_insert(s, x).contains(y) == (s.contains(y) || y == x),
{
    lemma_model_set_insert_facts(s, x);
}

/// Keys of the map model are the set model: inserting a key-value entry into
/// the sorted map moves the key column exactly as the sorted-set model does.
proof fn lemma_keys_model_insert<V>(s: Seq<Entry<V>>, key: u64, value: V)
    ensures
        keys_of(model_insert(s, key, value)) == model_set_insert(keys_of(s), key),
    decreases s.len(),
{
    let e = Entry { key, value };
    if s.len() == 0 {
        assert(keys_of(model_insert(s, key, value)) =~= seq![key]);
        assert(model_set_insert(keys_of(s), key) =~= seq![key]);
    } else if key < s[0].key {
        assert(keys_of(seq![e] + s) =~= seq![key] + keys_of(s));
    } else if key == s[0].key {
        assert(keys_of(seq![e] + s.skip(1)) =~= keys_of(s));
    } else {
        lemma_keys_model_insert(s.skip(1), key, value);
        assert(keys_of(s.skip(1)) =~= keys_of(s).skip(1));
        assert(keys_of(seq![s[0]] + model_insert(s.skip(1), key, value)) =~= seq![s[0].key]
            + keys_of(model_insert(s.skip(1), key, value)));
        assert(keys_of(model_insert(s, key, value)) =~= model_set_insert(keys_of(s), key));
    }
}

/// Likewise for removal.
proof fn lemma_keys_model_remove<V>(s: Seq<Entry<V>>, key: u64)
    ensures
        keys_of(model_remove(s, key)) == model_set_remove(keys_of(s), key),
    decreases s.len(),
{
    if s.len() == 0 {
    } else if key < s[0].key {
    } else if key == s[0].key {
        assert(keys_of(s.skip(1)) =~= keys_of(s).skip(1));
    } else {
        lemma_keys_model_remove(s.skip(1), key);
        assert(keys_of(s.skip(1)) =~= keys_of(s).skip(1));
        assert(keys_of(seq![s[0]] + model_remove(s.skip(1), key)) =~= seq![s[0].key] + keys_of(
            model_remove(s.skip(1), key),
        ));
        assert(keys_of(model_remove(s, key)) =~= model_set_remove(keys_of(s), key));
    }
}

proof fn lemma_entry_contains_agree<V>(s: Seq<Entry<V>>, x: u64)
    ensures
        contains_key(s, x) == keys_of(s).contains(x),
{
    if contains_key(s, x) {
        let i = choose|i: int| 0 <= i < s.len() && (#[trigger] s[i]).key == x;
        assert(keys_of(s)[i] == x);
    }
    if keys_of(s).contains(x) {
        let i = choose|i: int| 0 <= i < keys_of(s).len() && keys_of(s)[i] == x;
        assert(s[i].key == x);
    }
}

/// Strict lexicographic order on ascending element runs.
pub open spec fn lex_less(a: Seq<u64>, b: Seq<u64>) -> bool
    decreases a.len(),
{
    if b.len() == 0 {
        false
    } else if a.len() == 0 {
        true
    } else if a[0] != b[0] {
        a[0] < b[0]
    } else {
        lex_less(a.skip(1), b.skip(1))
    }
}

/// A persistent sorted set: a thin projection of the sorted map that stores
/// only keys; value slots carry no payload.
pub struct OrdSet {
    map: OrdMap<()>,
}

impl View for OrdSet {
    type V = Seq<u64>;

    closed spec fn view(&self) -> Seq<u64> {
        keys_of(self.map@)
    }
}

impl Clone for OrdSet {
    /// O(1): copies the root handle; later mutation of either handle never
    /// changes what the other observes.
    fn clone(&self) -> (r: Self)
        ensures
            r == *self,
    {
        OrdSet { map: self.map.clone() }
    }
}

impl OrdSet {
    pub closed spec fn wf(&self) -> bool {
        self.map.wf()
    }

    /// A well-formed set lists its elements in strictly ascending order.
    pub proof fn lemma_wf_sorted(&self)
        requires
            self.wf(),
        ensures
            sorted_keys(self@),
    {
        self.map.lemma_wf_sorted();
    }

    pub fn new() -> (r: Self)
        ensures
            r.wf(),
            r@ == Seq::<u64>::empty(),
    {
        let r = OrdSet { map: OrdMap::new() };
        proof {
            assert(r@ =~= Seq::<u64>::empty());
        }
        r
    }

    pub fn len(&self) -> (r: usize)
        requires
            self.wf(),
        ensures
            r == self@.len(),
    {
        self.map.len()
    }

    pub fn is_empty(&self) -> (r: bool)
        requires
            self.wf(),
        ensures
            r == (self@.len() == 0),
    {
        self.map.is_empty()
    }

    /// The holder count of the root node, for inspecting how many live set
    /// handles currently share this tree.
    pub fn holders(&self) -> (r: usize)
        ensures
            r >= 1,
    {
        self.map.holders()
    }

    pub fn contains(&self, value: u64) -> (r: bool)
        requires
            self.wf(),
        ensures
            r == self@.contains(value),
    {
        proof {
            lemma_entry_contains_agree(self.map@, value);
        }
        self.map.contains_key_at(value)
    }

    /// Adds `value`; a no-op when already present. The result is exactly the
    /// reference sorted-set model applied to the old contents.
    pub fn insert(&mut self, value: u64)
        requires
            old(self).wf(),
            old(self)@.len() < usize::MAX,
        ensures
            final(self).wf(),
            final(self)@ == model_set_insert(old(self)@, value),
    {
        proof {
            lemma_keys_model_insert(self.map@, value, ());
        }
        self.map.insert(value, ());
    }

    /// Drops `value`, reporting whether it was present; absence is a no-op,
    /// not an error. The result is exactly the reference sorted-set model
    /// applied to the old contents.
    pub fn remove(&mut self, value: u64) -> (r: bool)
        requires
            old(self).wf(),
        ensures
            final(self).wf(),
            final(self)@ == model_set_remove(old(self)@, value),
            r == old(self)@.contains(value),
    {
        proof {
            lemma_keys_model_remove(self.map@, value);
            lemma_entry_contains_agree(self.map@, value);
        }
        match self.map.remove(value) {
            Some(_) => true,
            None => false,
        }
    }

    /// The elements in ascending order: the forward iteration of the set.
    pub fn to_vec(&self) -> (r: Vec<u64>)
        requires
            self.wf(),
        ensures
            r@ == self@,
    {
        self.map.keys()
    }

    /// Builds a set from any run of elements, following the same invariants
    /// as incremental insertion; duplicates collapse.
    pub fn from_vec(items: &Vec<u64>) -> (r: OrdSet)
        ensures
            r.wf(),
            forall|x: u64| r@.contains(x) == items@.contains(x),
    {
        let n = items.len();
        let mut r = OrdSet::new();
        let mut i: usize = 0;
        while i < n
            invariant
                r.wf(),
                i <= n == items@.len(),
                r@.len() <= i,
                forall|x: u64| r@.contains(x) == items@.take(i as int).contains(x),
            decreases n - i,
        {
            let ghost prev = r@;
            let ghost k = items@[i as int];
            proof {
                assert(forall|x: u64| prev.contains(x) == items@.take(i as int).contains(x));
            }
            r.insert(items[i]);
            proof {
                lemma_model_set_insert_facts(prev, k);
                assert(items@.take(i + 1 as int) =~= items@.take(i as int).push(k));
                assert forall|x: u64| r@.contains(x) == items@.take(i + 1 as int).contains(
                    x,
                ) by {
                    lemma_push_contains(items@.take(i as int), k, x);
                    assert(r@.contains(x) == model_set_insert(prev, k).contains(x));
                    assert(model_set_insert(prev, k).contains(x) == (prev.contains(x) || x
                        == k));
                    assert(prev.contains(x) == items@.take(i as int).contains(x));
                }
            }
            i = i + 1;
        }
        proof {
            assert(items@.take(n as int) =~= items@);
        }
        r
    }

    /// Three-way lexicographic comparison by ascending element sequence,
    /// which makes sets usable directly as keys of a sorted container.
    pub fn cmp_lex(&self, other: &OrdSet) -> (r: core::cmp::Ordering)
        requires
            self.wf(),
            other.wf(),
        ensures
            match r {
                core::cmp::Ordering::Less => lex_less(self@, other@),
                core::cmp::Ordering::Equal => self@ == other@,
                core::cmp::Ordering::Greater => lex_less(other@, self@),
            },
    {
        let a = self.to_vec();
        let b = other.to_vec();
        let an = a.len();
        let bn = b.len();
        let mut i: usize = 0;
        proof {
            assert(a@.skip(0) =~= a@);
            assert(b@.skip(0) =~= b@);
        }
        while i < an && i < bn
            invariant
                i <= an == a@.len(),
                i <= bn == b@.len(),
                a@ == self@,
                b@ == other@,
                forall|k: int| 0 <= k < i ==> a@[k] == b@[k],
                lex_less(self@, other@) == lex_less(a@.skip(i as int), b@.skip(i as int)),
                lex_less(other@, self@) == lex_less(b@.skip(i as int), a@.skip(i as int)),
            decreases an - i,
        {
            let x = a[i];
            let y = b[i];
            proof {
                assert(a@.skip(i as int)[0] == a@[i as int]);
                assert(b@.skip(i as int)[0] == b@[i as int]);
            }
            if x < y {
                return core::cmp::Ordering::Less;
            }
            if y < x {
                return core::cmp::Ordering::Greater;
            }
            proof {
                assert(a@.skip(i as int).skip(1) =~= a@.skip(i + 1 as int));
                assert(b@.skip(i as int).skip(1) =~= b@.skip(i + 1 as int));
            }
            i = i + 1;
        }
        if an == bn {
            proof {
                assert(a@ =~= b@);
            }
            core::cmp::Ordering::Equal
        } else if an < bn {
            proof {
                assert(a@.skip(i as int).len() == 0);
                assert(b@.skip(i as int).len() > 0);
            }
            core::cmp::Ordering::Less
        } else {
            proof {
                assert(b@.skip(i as int).len() == 0);
                assert(a@.skip(i as int).len() > 0);
            }
            core::cmp::Ordering::Greater
        }
    }

    /// Two sets are equal exactly when they hold the same elements; how the
    /// trees are shaped or shared is never observable through equality.
    pub fn equals(&self, other: &OrdSet) -> (r: bool)
        requires
            self.wf(),
            other.wf(),
        ensures
            r == (self@ == other@),
    {
        let a = self.to_vec();
        let b = other.to_vec();
        let n = a.len();
        if n != b.len() {
            return false;
        }
        let mut i: usize = 0;
        while i < n
            invariant
                i <= n == a@.len() == b@.len(),
                a@ == self@,
                b@ == other@,
                forall|k: int| 0 <= k < i ==> a@[k] == b@[k],
            decreases n - i,
        {
            if a[i] != b[i] {
                proof {
                    assert(self@[i as int] != other@[i as int]);
                }
                return false;
            }
            i = i + 1;
        }
        proof {
            assert(a@ =~= b@);
        }
        true
    }

    /// Every element of either set, by repeated sorted insertion of the
    /// second operand into a shared copy of the first.
    pub fn union(&self, other: &OrdSet) -> (r: OrdSet)
        requires
            self.wf(),
            other.wf(),
            self@.len() + other@.len() < usize::MAX,
        ensures
            r.wf(),
            forall|x: u64| r@.contains(x) == (self@.contains(x) || other@.contains(x)),
    {
        let ks = other.to_vec();
        let n = ks.len();
        let mut r = self.clone();
        let mut i: usize = 0;
        while i < n
            invariant
                r.wf(),
                i <= n == ks@.len(),
                ks@ == other@,
                self@.len() + other@.len() < usize::MAX,
                r@.len() <= self@.len() + i,
                forall|x: u64|
                    r@.contains(x) == (self@.contains(x) || ks@.take(i as int).contains(x)),
            decreases n - i,
        {
            let ghost prev = r@;
            r.insert(ks[i]);
            proof {
                lemma_model_set_insert_facts(prev, ks@[i as int]);
                assert(ks@.take(i + 1 as int) =~= ks@.take(i as int).push(ks@[i as int]));
                assert forall|x: u64| r@.contains(x) == (self@.contains(x) || ks@.take(
                    i + 1 as int,
                ).contains(x)) by {
                    lemma_push_contains(ks@.take(i as int), ks@[i as int], x);
                }
            }
            i = i + 1;
        }
        proof {
            assert(ks@.take(n as int) =~= ks@);
        }
        r
    }

    /// Every element present in both sets.
    pub fn intersection(&self, other: &OrdSet) -> (r: OrdSet)
        requires
            self.wf(),
            other.wf(),
        ensures
            r.wf(),
            forall|x: u64| r@.contains(x) == (self@.contains(x) && other@.contains(x)),
    {
        let ks = self.to_vec();
        let n = ks.len();
        let mut r = OrdSet::new();
        let mut i: usize = 0;
        proof {
            assert(r@ =~= Seq::<u64>::empty());
        }
        while i < n
            invariant
                r.wf(),
                other.wf(),
                i <= n == ks@.len(),
                ks@ == self@,
                r@.len() <= i,
                forall|x: u64|
                    r@.contains(x) == (ks@.take(i as int).contains(x) && other@.contains(x)),
            decreases n - i,
        {
            let ghost prev = r@;
            let k = ks[i];
            proof {
                assert(forall|x: u64|
                    prev.contains(x) == (ks@.take(i as int).contains(x) && other@.contains(x)));
            }
            let keep = other.contains(k);
            if keep {
                r.insert(k);
            }
            proof {
                if keep {
                    lemma_model_set_insert_facts(prev, ks@[i as int]);
                }
                assert(ks@.take(i + 1 as int) =~= ks@.take(i as int).push(ks@[i as int]));
                assert forall|x: u64| r@.contains(x) == (ks@.take(i + 1 as int).contains(x)
                    && other@.contains(x)) by {
                    lemma_push_contains(ks@.take(i as int), ks@[i as int], x);
                    assert(prev.contains(x) == (ks@.take(i as int).contains(x)
                        && other@.contains(x)));
                    if keep {
                        lemma_model_set_insert_contains(prev, ks@[i as int], x);
                        assert(r@.contains(x) == (prev.contains(x) || x == ks@[i as int]));
                    } else {
                        assert(r@ == prev);
                    }
                }
            }
            i = i + 1;
        }
        proof {
            assert(ks@.take(n as int) =~= ks@);
        }
        r
    }

    /// Every element of this set that the other lacks.
    pub fn difference(&self, other: &OrdSet) -> (r: OrdSet)
        requires
            self.wf(),
            other.wf(),
        ensures
            r.wf(),
            forall|x: u64| r@.contains(x) == (self@.contains(x) && !other@.contains(x)),
    {
        let ks = self.to_vec();
        let n = ks.len();
        let mut r = OrdSet::new();
        let mut i: usize = 0;
        proof {
            assert(r@ =~= Seq::<u64>::empty());
        }
        while i < n
            invariant
                r.wf(),
                other.wf(),
                i <= n == ks@.len(),
                ks@ == self@,
                r@.len() <= i,
                forall|x: u64|
                    r@.contains(x) == (ks@.take(i as int).contains(x) && !other@.contains(x)),
            decreases n - i,
        {
            let ghost prev = r@;
            let k = ks[i];
            proof {
                assert(forall|x: u64|
                    prev.contains(x) == (ks@.take(i as int).contains(x) && !other@.contains(x)));
            }
            let keep = !other.contains(k);
            if keep {
                r.insert(k);
            }
            proof {
                if keep {
                    lemma_model_set_insert_facts(prev, ks@[i as int]);
                }
                assert(ks@.take(i + 1 as int) =~= ks@.take(i as int).push(ks@[i as int]));
                assert forall|x: u64| r@.contains(x) == (ks@.take(i + 1 as int).contains(x)
                    && !other@.contains(x)) by {
                    lemma_push_contains(ks@.take(i as int), ks@[i as int], x);
                    assert(prev.contains(x) == (ks@.take(i as int).contains(x)
                        && !other@.contains(x)));
                    if keep {
                        lemma_model_set_insert_contains(prev, ks@[i as int], x);
                        assert(r@.contains(x) == (prev.contains(x) || x == ks@[i as int]));
                    } else {
                        assert(r@ == prev);
                    }
                }
            }
            i = i + 1;
        }
        proof {
            assert(ks@.take(n as int) =~= ks@);
        }
        r
    }
}

/// Two sorted runs with the same membership are the same run: logical set
/// equality never depends on tree shape, only on the elements.
pub proof fn lemma_sorted_set_unique(s1: Seq<u64>, s2: Seq<u64>)
    requires
        sorted_keys(s1),
        sorted_keys(s2),
        forall|x: u64| s1.contains(x) == s2.contains(x),
    ensures
        s1 == s2,
    decreases s1.len(),
{
    if s1.len() == 0 {
        if s2.len() > 0 {
            assert(s2.contains(s2[0]));
        }
        assert(s1 =~= s2);
    } else {
        assert(s1.contains(s1[0]));
        assert(s2.len() > 0);
        let h1 = s1[0];
        let h2 = s2[0];
        assert(s2.contains(h1));
        let i2 = choose|i: int| 0 <= i < s2.len() && s2[i] == h1;
        assert(h2 <= h1);
        assert(s1.contains(h2)) by {
            assert(s2.contains(h2));
        }
        let i1 = choose|i: int| 0 <= i < s1.len() && s1[i] == h2;
        assert(h1 <= h2);
        let t1 = s1.skip(1);
        let t2 = s2.skip(1);
        assert forall|a: int, b: int| 0 <= a < b < t1.len() implies t1[a] < t1[b] by {
            assert(t1[a] == s1[a + 1]);
            assert(t1[b] == s1[b + 1]);
        }
        assert forall|a: int, b: int| 0 <= a < b < t2.len() implies t2[a] < t2[b] by {
            assert(t2[a] == s2[a + 1]);
            assert(t2[b] == s2[b + 1]);
        }
        assert forall|x: u64| t1.contains(x) == t2.contains(x) by {
            lemma_cons_contains(h1, t1, x);
            lemma_cons_contains(h1, t2, x);
            assert(seq![h1] + t1 =~= s1);
            assert(seq![h1] + t2 =~= s2);
            if t1.contains(x) {
                let i = choose|i: int| 0 <= i < t1.len() && t1[i] == x;
                assert(s1[i + 1] == x);
                assert(x > h1);
            }
            if t2.contains(x) {
                let i = choose|i: int| 0 <= i < t2.len() && t2[i] == x;
                assert(s2[i + 1] == x);
                assert(x > h1);
            }
        }
        lemma_sorted_set_unique(t1, t2);
        assert(seq![h1] + t1 =~= s1);
        assert(seq![h2] + t2 =~= s2);
        assert(s1 =~= s2);
    }
}

/// Union with the empty set is identity: a sorted result whose membership is
/// that of `union` against an empty operand is the operand itself.
pub proof fn lemma_union_empty_identity(a: Seq<u64>, r: Seq<u64>)
    requires
        sorted_keys(a),
        sorted_keys(r),
        forall|x: u64| r.contains(x) == (a.contains(x) || Seq::<u64>::empty().contains(x)),
    ensures
        r == a,
{
    assert forall|x: u64| r.contains(x) == a.contains(x) by {
        if Seq::<u64>::empty().contains(x) {
            let i = choose|i: int| 0 <= i < 0 && Seq::<u64>::empty()[i] == x;
        }
    }
    lemma_sorted_set_unique(r, a);
}

/// Difference against the empty set is identity: a sorted result whose
/// membership is that of `difference` against an empty operand is the operand
/// itself.
pub proof fn lemma_difference_empty_identity(a: Seq<u64>, r: Seq<u64>)
    requires
        sorted_keys(a),
        sorted_keys(r),
        forall|x: u64| r.contains(x) == (a.contains(x) && !Seq::<u64>::empty().contains(x)),
    ensures
        r == a,
{
    assert forall|x: u64| r.contains(x) == a.contains(x) by {
        if Seq::<u64>::empty().contains(x) {
            let i = choose|i: int| 0 <= i < 0 && Seq::<u64>::empty()[i] == x;
        }
    }
    lemma_sorted_set_unique(r, a);
}

/// Intersection with the empty set is empty: a result whose membership is
/// that of `intersection` against an empty operand holds nothing.
pub proof fn lemma_intersection_empty(a: Seq<u64>, r: Seq<u64>)
    requires
        forall|x: u64| r.contains(x) == (a.contains(x) && Seq::<u64>::empty().contains(x)),
    ensures
        r == Seq::<u64>::empty(),
{
    if r.len() > 0 {
        assert(r.contains(r[0]));
    }
    assert(r =~= Seq::<u64>::empty());
}

} // verus!
