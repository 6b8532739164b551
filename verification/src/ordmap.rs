use vstd::prelude::*;

use crate::vector::Vector;

verus! {

/// A key-value entry of the sorted map.
#[derive(Copy, Debug)]
pub struct Entry<V> {
    pub key: u64,
    pub value: V,
}

impl<V: Copy> Clone for Entry<V> {
    fn clone(&self) -> (r: Self)
        ensures
            r == *self,
    {
        *self
    }
}

/// Keys strictly increasing: the ordering invariant of the B-tree engine.
pub open spec fn sorted_entries<V>(s: Seq<Entry<V>>) -> bool {
    forall|i: int, j: int| 0 <= i < j < s.len() ==> (#[trigger] s[i]).key < (#[trigger] s[j]).key
}

pub open spec fn contains_key<V>(s: Seq<Entry<V>>, key: u64) -> bool {
    exists|i: int| 0 <= i < s.len() && (#[trigger] s[i]).key == key
}

/// Reference sorted-map model of insertion: replaces the value when the key
/// exists, else places the new entry in sorted position.
pub open spec fn model_insert<V>(s: Seq<Entry<V>>, key: u64, value: V) -> Seq<Entry<V>>
    decreases s.len(),
{
    if s.len() == 0 {
        seq![Entry { key, value }]
    } else if key < s[0].key {
        seq![Entry { key, value }] + s
    } else if key == s[0].key {
        seq![Entry { key, value }] + s.skip(1)
    } else {
        seq![s[0]] + model_insert(s.skip(1), key, value)
    }
}

/// Reference sorted-map model of removal: drops the entry with the key, a
/// no-op when the key is absent.
pub open spec fn model_remove<V>(s: Seq<Entry<V>>, key: u64) -> Seq<Entry<V>>
    decreases s.len(),
{
    if s.len() == 0 {
        s
    } else if key < s[0].key {
        s
    } else if key == s[0].key {
        s.skip(1)
    } else {
        seq![s[0]] + model_remove(s.skip(1), key)
    }
}

/// Under the sorted invariant, the reference insertion model is realized by
/// one update or one shifted insertion at the key's position.
proof fn lemma_model_insert_at<V>(s: Seq<Entry<V>>, key: u64, value: V, j: int)
    requires
        sorted_entries(s),
        0 <= j <= s.len(),
        forall|i: int| 0 <= i < j ==> (#[trigger] s[i]).key < key,
        j < s.len() ==> s[j].key >= key,
    ensures
        model_insert(s, key, value) == if j < s.len() && s[j].key == key {
            s.update(j, (Entry { key, value }))
        } else {
            s.insert(j, (Entry { key, value }))
        },
    decreases s.len(),
{
    let e = Entry { key, value };
    if j == 0 {
        if s.len() == 0 {
            assert(model_insert(s, key, value) =~= s.insert(0, e));
        } else if s[0].key == key {
            assert(model_insert(s, key, value) =~= s.update(0, e));
        } else {
            assert(key < s[0].key);
            assert(model_insert(s, key, value) =~= s.insert(0, e));
        }
    } else {
        assert(s[0].key < key);
        let t = s.skip(1);
        assert forall|i: int| 0 <= i < j - 1 implies (#[trigger] t[i]).key < key by {
            assert(t[i] == s[i + 1]);
        }
        lemma_model_insert_at(t, key, value, j - 1);
        if j < s.len() && s[j].key == key {
            assert(t[j - 1] == s[j]);
            assert(s.update(j, e) =~= seq![s[0]] + t.update(j - 1, e));
        } else {
            assert(s.insert(j, e) =~= seq![s[0]] + t.insert(j - 1, e));
        }
    }
}

/// Under the sorted invariant, the reference removal model is realized by one
/// shifted removal at the key's position, or by leaving the map unchanged.
proof fn lemma_model_remove_at<V>(s: Seq<Entry<V>>, key: u64, j: int)
    requires
        sorted_entries(s),
        0 <= j <= s.len(),
        forall|i: int| 0 <= i < j ==> (#[trigger] s[i]).key < key,
        j < s.len() ==> s[j].key >= key,
    ensures
        model_remove(s, key) == if j < s.len() && s[j].key == key {
            s.remove(j)
        } else {
            s
        },
    decreases s.len(),
{
    if j == 0 {
        if s.len() > 0 && s[0].key == key {
            assert(model_remove(s, key) =~= s.remove(0));
        }
    } else {
        assert(s[0].key < key);
        let t = s.skip(1);
        assert forall|i: int| 0 <= i < j - 1 implies (#[trigger] t[i]).key < key by {
            assert(t[i] == s[i + 1]);
        }
        lemma_model_remove_at(t, key, j - 1);
        if j < s.len() && s[j].key == key {
            assert(t[j - 1] == s[j]);
            assert(s.remove(j) =~= seq![s[0]] + t.remove(j - 1));
        } else {
            assert(model_remove(s, key) =~= s);
        }
    }
}

proof fn lemma_sorted_insert<V>(s: Seq<Entry<V>>, j: int, e: Entry<V>)
    requires
        sorted_entries(s),
        0 <= j <= s.len(),
        forall|i: int| 0 <= i < j ==> (#[trigger] s[i]).key < e.key,
        forall|i: int| j <= i < s.len() ==> (#[trigger] s[i]).key > e.key,
    ensures
        sorted_entries(s.insert(j, e)),
{
    let t = s.insert(j, e);
    assert(t =~= s.take(j) + seq![e] + s.skip(j));
    assert forall|a: int, b: int| 0 <= a < b < t.len() implies (#[trigger] t[a]).key < (
    #[trigger] t[b]).key by {
        if a < j {
            assert(t[a] == s[a]);
        } else if a == j {
            assert(t[a] == e);
        } else {
            assert(t[a] == s[a - 1]);
        }
        if b < j {
            assert(t[b] == s[b]);
        } else if b == j {
            assert(t[b] == e);
        } else {
            assert(t[b] == s[b - 1]);
        }
    }
}

proof fn lemma_sorted_update<V>(s: Seq<Entry<V>>, j: int, e: Entry<V>)
    requires
        sorted_entries(s),
        0 <= j < s.len(),
        s[j].key == e.key,
    ensures
        sorted_entries(s.update(j, e)),
{
    let t = s.update(j, e);
    assert forall|a: int, b: int| 0 <= a < b < t.len() implies (#[trigger] t[a]).key < (
    #[trigger] t[b]).key by {
        if a != j {
            assert(t[a] == s[a]);
        }
        if b != j {
            assert(t[b] == s[b]);
        }
    }
}

proof fn lemma_sorted_remove<V>(s: Seq<Entry<V>>, j: int)
    requires
        sorted_entries(s),
        0 <= j < s.len(),
    ensures
        sorted_entries(s.remove(j)),
{
    let t = s.remove(j);
    assert(t =~= s.take(j) + s.skip(j + 1));
    assert forall|a: int, b: int| 0 <= a < b < t.len() implies (#[trigger] t[a]).key < (
    #[trigger] t[b]).key by {
        if a < j {
            assert(t[a] == s[a]);
        } else {
            assert(t[a] == s[a + 1]);
        }
        if b < j {
            assert(t[b] == s[b]);
        } else {
            assert(t[b] == s[b + 1]);
        }
    }
}

/// The key column of a run of entries.
pub open spec fn keys_of<V>(s: Seq<Entry<V>>) -> Seq<u64> {
    s.map_values(|e: Entry<V>| e.key)
}

/// In a sorted map no key repeats, so the length counts distinct keys.
pub proof fn lemma_sorted_keys_distinct<V>(s: Seq<Entry<V>>)
    requires
        sorted_entries(s),
    ensures
        forall|i: int, j: int|
            0 <= i < j < s.len() ==> keys_of(s)[i] != keys_of(s)[j],
{
}

/// The pairs whose key falls in the half-open window `[lo, hi)`, in order.
pub open spec fn model_range<V>(s: Seq<Entry<V>>, lo: u64, hi: u64) -> Seq<(u64, V)>
    decreases s.len(),
{
    if s.len() == 0 {
        Seq::empty()
    } else if lo <= s[0].key && s[0].key < hi {
        seq![(s[0].key, s[0].value)] + model_range(s.skip(1), lo, hi)
    } else {
        model_range(s.skip(1), lo, hi)
    }
}

proof fn lemma_model_range_concat<V>(a: Seq<Entry<V>>, b: Seq<Entry<V>>, lo: u64, hi: u64)
    ensures
        model_range(a + b, lo, hi) == model_range(a, lo, hi) + model_range(b, lo, hi),
    decreases a.len(),
{
    if a.len() == 0 {
        assert(a + b =~= b);
        assert(model_range(a, lo, hi) + model_range(b, lo, hi) =~= model_range(b, lo, hi));
    } else {
        assert((a + b)[0] == a[0]);
        assert((a + b).skip(1) =~= a.skip(1) + b);
        lemma_model_range_concat(a.skip(1), b, lo, hi);
        assert(model_range(a + b, lo, hi) =~= model_range(a, lo, hi) + model_range(b, lo, hi));
    }
}

proof fn lemma_model_range_none<V>(s: Seq<Entry<V>>, lo: u64, hi: u64)
    requires
        forall|i: int| 0 <= i < s.len() ==> !(lo <= (#[trigger] s[i]).key < hi),
    ensures
        model_range(s, lo, hi) == Seq::<(u64, V)>::empty(),
    decreases s.len(),
{
    if s.len() > 0 {
        assert forall|i: int| 0 <= i < s.skip(1).len() implies !(lo <= (
        #[trigger] s.skip(1)[i]).key < hi) by {
            assert(s.skip(1)[i] == s[i + 1]);
        }
        lemma_model_range_none(s.skip(1), lo, hi);
    }
}

/// Folding a run of key-value pairs into the map, first to last, by the
/// reference insertion model; a later pair with the same key wins.
pub open spec fn model_insert_all<V>(s: Seq<Entry<V>>, items: Seq<(u64, V)>) -> Seq<Entry<V>>
    decreases items.len(),
{
    if items.len() == 0 {
        s
    } else {
        model_insert_all(model_insert(s, items[0].0, items[0].1), items.skip(1))
    }
}

proof fn lemma_model_insert_len<V>(s: Seq<Entry<V>>, key: u64, value: V)
    ensures
        s.len() <= model_insert(s, key, value).len() <= s.len() + 1,
    decreases s.len(),
{
    if s.len() == 0 {
    } else if key < s[0].key {
    } else if key == s[0].key {
    } else {
        lemma_model_insert_len(s.skip(1), key, value);
    }
}

proof fn lemma_model_insert_all_snoc<V>(s: Seq<Entry<V>>, items: Seq<(u64, V)>, p: (u64, V))
    ensures
        model_insert_all(s, items.push(p)) == model_insert(model_insert_all(s, items), p.0, p.1),
    decreases items.len(),
{
    let w = items.push(p);
    assert(model_insert_all(s, w) == model_insert_all(model_insert(s, w[0].0, w[0].1), w.skip(1)));
    if items.len() == 0 {
        assert(w[0] == p);
        assert(w.skip(1) =~= Seq::<(u64, V)>::empty());
        assert(model_insert_all(model_insert(s, p.0, p.1), w.skip(1)) == model_insert(
            s,
            p.0,
            p.1,
        ));
        assert(model_insert_all(s, items) == s);
    } else {
        assert(w[0] == items[0]);
        assert(w.skip(1) =~= items.skip(1).push(p));
        lemma_model_insert_all_snoc(model_insert(s, items[0].0, items[0].1), items.skip(1), p);
    }
}

/// A persistent sorted key-value map. Entries are kept in strictly
/// increasing key order inside the same shared-chunk tree that backs the
/// sequence type, so clones are O(1) and mutation rebuilds only the touched
/// path. Lookups of absent keys are ordinary negative results, not errors.
pub struct OrdMap<V> {
    entries: Vector<Entry<V>>,
}

impl<V> View for OrdMap<V> {
    type V = Seq<Entry<V>>;

    closed spec fn view(&self) -> Seq<Entry<V>> {
        self.entries@
    }
}

impl<V> Clone for OrdMap<V> {
    /// O(1): copies the root handle; later mutation of either handle never
    /// changes what the other observes.
    fn clone(&self) -> (r: Self)
        ensures
            r == *self,
    {
        OrdMap { entries: self.entries.clone() }
    }
}

impl<V> OrdMap<V> {
    /// Structural invariant: a well-formed tree with strictly sorted keys.
    pub closed spec fn wf(&self) -> bool {
        &&& self.entries.wf()
        &&& sorted_entries(self@)
    }

    pub fn new() -> (r: Self)
        ensures
            r.wf(),
            r@ == Seq::<Entry<V>>::empty(),
    {
        OrdMap { entries: Vector::new() }
    }

    /// A well-formed map keeps its entries strictly sorted by key.
    pub proof fn lemma_wf_sorted(&self)
        requires
            self.wf(),
        ensures
            sorted_entries(self@),
    {
    }

    pub fn len(&self) -> (r: usize)
        requires
            self.wf(),
        ensures
            r == self@.len(),
    {
        self.entries.len()
    }

    pub fn is_empty(&self) -> (r: bool)
        requires
            self.wf(),
        ensures
            r == (self@.len() == 0),
    {
        self.entries.is_empty()
    }

    /// The holder count of the root node, for inspecting how many live map
    /// handles currently share this tree.
    pub fn holders(&self) -> (r: usize)
        ensures
            r >= 1,
    {
        self.entries.holders()
    }
}

impl<V: Copy> OrdMap<V> {
    /// The number of entries whose key is below `key`: the insertion point,
    /// found by binary search over the sorted entries.
    fn position(&self, key: u64) -> (r: usize)
        requires
            self.wf(),
        ensures
            r <= self@.len(),
            forall|i: int| 0 <= i < r ==> (#[trigger] self@[i]).key < key,
            r < self@.len() ==> self@[r as int].key >= key,
    {
        let mut lo: usize = 0;
        let mut hi: usize = self.entries.len();
        while lo < hi
            invariant
                self.wf(),
                lo <= hi <= self@.len(),
                forall|i: int| 0 <= i < lo ==> (#[trigger] self@[i]).key < key,
                forall|i: int| hi <= i < self@.len() ==> (#[trigger] self@[i]).key >= key,
            decreases hi - lo,
        {
            let mid = lo + (hi - lo) / 2;
            let e = match self.entries.get(mid) {
                Ok(e) => e,
                Err(_) => {
                    proof {
                        assert(false);
                    }
                    vstd::pervasive::unreached()
                },
            };
            if e.key < key {
                proof {
                    assert forall|i: int| 0 <= i < mid + 1 implies (#[trigger] self@[i]).key
                        < key by {
                        if i < mid {
                            assert(self@[i].key < self@[mid as int].key);
                        }
                    }
                }
                lo = mid + 1;
            } else {
                proof {
                    assert forall|i: int| mid <= i < self@.len() implies (
                    #[trigger] self@[i]).key >= key by {
                        if i > mid {
                            assert(self@[mid as int].key < self@[i].key);
                        }
                    }
                }
                hi = mid;
            }
        }
        lo
    }

    /// Ordered lookup; returns the value stored under `key`, or absence as a
    /// normal negative result.
    pub fn get(&self, key: u64) -> (r: Option<V>)
        requires
            self.wf(),
        ensures
            match r {
                Some(v) => exists|i: int|
                    0 <= i < self@.len() && (#[trigger] self@[i]).key == key && self@[i].value
                        == v,
                None => !contains_key(self@, key),
            },
    {
        let j = self.position(key);
        let n = self.entries.len();
        if j < n {
            let e = match self.entries.get(j) {
                Ok(e) => e,
                Err(_) => {
                    proof {
                        assert(false);
                    }
                    vstd::pervasive::unreached()
                },
            };
            if e.key == key {
                return Some(e.value);
            }
        }
        proof {
            assert forall|i: int| 0 <= i < self@.len() implies (#[trigger] self@[i]).key
                != key by {
                if i >= j {
                    assert(self@[j as int].key <= self@[i].key);
                }
            }
        }
        None
    }

    pub fn contains_key_at(&self, key: u64) -> (r: bool)
        requires
            self.wf(),
        ensures
            r == contains_key(self@, key),
    {
        match self.get(key) {
            Some(_) => true,
            None => false,
        }
    }

    /// Inserts `key` with `value`: replaces the value if the key exists,
    /// else adds the entry in sorted position. The result is exactly the
    /// reference sorted-map model applied to the old contents.
    pub fn insert(&mut self, key: u64, value: V)
        requires
            old(self).wf(),
            old(self)@.len() < usize::MAX,
        ensures
            final(self).wf(),
            final(self)@ == model_insert(old(self)@, key, value),
    {
        let j = self.position(key);
        let n = self.entries.len();
        let e = Entry { key, value };
        let mut replace = false;
        if j < n {
            let at = match self.entries.get(j) {
                Ok(a) => a,
                Err(_) => {
                    proof {
                        assert(false);
                    }
                    vstd::pervasive::unreached()
                },
            };
            if at.key == key {
                replace = true;
            }
        }
        proof {
            lemma_model_insert_at(self@, key, value, j as int);
        }
        if replace {
            match self.entries.set(j, e) {
                Ok(()) => {},
                Err(_) => {
                    proof {
                        assert(false);
                    }
                },
            }
            proof {
                lemma_sorted_update(old(self)@, j as int, e);
            }
        } else {
            proof {
                assert forall|i: int| j <= i < old(self)@.len() implies (#[trigger] old(
                    self,
                )@[i]).key > key by {
                    if i > j {
                        assert(old(self)@[j as int].key < old(self)@[i].key);
                    }
                }
            }
            match self.entries.insert(j, e) {
                Ok(()) => {},
                Err(_) => {
                    proof {
                        assert(false);
                    }
                },
            }
            proof {
                lemma_sorted_insert(old(self)@, j as int, e);
            }
        }
    }

    /// Removes the entry under `key`, returning its value; a no-op reporting
    /// absence when the key is not present. The result is exactly the
    /// reference sorted-map model applied to the old contents.
    pub fn remove(&mut self, key: u64) -> (r: Option<V>)
        requires
            old(self).wf(),
        ensures
            final(self).wf(),
            final(self)@ == model_remove(old(self)@, key),
            match r {
                Some(v) => exists|i: int|
                    0 <= i < old(self)@.len() && (#[trigger] old(self)@[i]).key == key && old(
                        self,
                    )@[i].value == v,
                None => !contains_key(old(self)@, key) && final(self)@ == old(self)@,
            },
    {
        let j = self.position(key);
        let n = self.entries.len();
        proof {
            lemma_model_remove_at(self@, key, j as int);
        }
        if j < n {
            let at = match self.entries.get(j) {
                Ok(a) => a,
                Err(_) => {
                    proof {
                        assert(false);
                    }
                    vstd::pervasive::unreached()
                },
            };
            if at.key == key {
                match self.entries.remove(j) {
                    Ok(_) => {},
                    Err(_) => {
                        proof {
                            assert(false);
                        }
                    },
                }
                proof {
                    lemma_sorted_remove(old(self)@, j as int);
                }
                return Some(at.value);
            }
        }
        proof {
            assert forall|i: int| 0 <= i < self@.len() implies (#[trigger] self@[i]).key
                != key by {
                if i >= j {
                    assert(self@[j as int].key <= self@[i].key);
                }
            }
        }
        None
    }

    /// The keys in ascending order: the in-order key sequence of the map.
    pub fn keys(&self) -> (r: Vec<u64>)
        requires
            self.wf(),
        ensures
            r@ == keys_of(self@),
    {
        let n = self.entries.len();
        let mut r: Vec<u64> = Vec::new();
        let mut i: usize = 0;
        while i < n
            invariant
                self.wf(),
                i <= n == self@.len(),
                r@ == keys_of(self@.take(i as int)),
            decreases n - i,
        {
            let e = match self.entries.get(i) {
                Ok(e) => e,
                Err(_) => {
                    proof {
                        assert(false);
                    }
                    vstd::pervasive::unreached()
                },
            };
            r.push(e.key);
            proof {
                assert(r@ =~= keys_of(self@.take(i + 1 as int)));
            }
            i = i + 1;
        }
        proof {
            assert(self@.take(n as int) =~= self@);
            assert(r@ =~= keys_of(self@));
        }
        r
    }

    /// Builds a map from a run of key-value pairs, following the same
    /// invariants as incremental insertion; a later pair with the same key
    /// replaces the earlier value.
    pub fn from_vec(items: &Vec<(u64, V)>) -> (r: OrdMap<V>)
        requires
            items@.len() < usize::MAX,
        ensures
            r.wf(),
            r@ == model_insert_all(Seq::<Entry<V>>::empty(), items@),
    {
        let n = items.len();
        let mut r = OrdMap::new();
        let mut i: usize = 0;
        while i < n
            invariant
                r.wf(),
                i <= n == items@.len() < usize::MAX,
                r@.len() <= i,
                r@ == model_insert_all(Seq::<Entry<V>>::empty(), items@.take(i as int)),
            decreases n - i,
        {
            let ghost prev = r@;
            let (key, value) = items[i];
            r.insert(key, value);
            proof {
                lemma_model_insert_len(prev, key, value);
                assert(items@.take(i + 1 as int) =~= items@.take(i as int).push(
                    items@[i as int],
                ));
                lemma_model_insert_all_snoc(
                    Seq::<Entry<V>>::empty(),
                    items@.take(i as int),
                    items@[i as int],
                );
            }
            i = i + 1;
        }
        proof {
            assert(items@.take(n as int) =~= items@);
        }
        r
    }

    /// The entries whose key lies in the half-open window `[lo, hi)`, in
    /// ascending key order: a binary-search descent seeds the walk at the
    /// window's lower end, and the walk stops at its upper end instead of
    /// scanning the whole map.
    pub fn range(&self, lo: u64, hi: u64) -> (r: Vec<(u64, V)>)
        requires
            self.wf(),
        ensures
            r@ == model_range(self@, lo, hi),
    {
        let n = self.entries.len();
        let start = self.position(lo);
        proof {
            assert(self@.take(start as int) + self@.skip(start as int) =~= self@);
            lemma_model_range_concat(
                self@.take(start as int),
                self@.skip(start as int),
                lo,
                hi,
            );
            assert forall|k: int| 0 <= k < self@.take(start as int).len() implies !(lo <= (
            #[trigger] self@.take(start as int)[k]).key < hi) by {
                assert(self@.take(start as int)[k] == self@[k]);
            }
            lemma_model_range_none(self@.take(start as int), lo, hi);
            assert(model_range(self@, lo, hi) =~= model_range(
                self@.skip(start as int),
                lo,
                hi,
            ));
        }
        let mut r: Vec<(u64, V)> = Vec::new();
        let mut i: usize = start;
        loop
            invariant
                self.wf(),
                start <= i <= n == self@.len(),
                start < self@.len() ==> self@[start as int].key >= lo,
                r@ + model_range(self@.skip(i as int), lo, hi) == model_range(
                    self@.skip(start as int),
                    lo,
                    hi,
                ),
            ensures
                r@ == model_range(self@.skip(start as int), lo, hi),
            decreases n - i,
        {
            if i == n {
                proof {
                    assert(self@.skip(i as int).len() == 0);
                    assert(r@ + Seq::<(u64, V)>::empty() =~= r@);
                }
                break;
            }
            let e = match self.entries.get(i) {
                Ok(e) => e,
                Err(_) => {
                    proof {
                        assert(false);
                    }
                    vstd::pervasive::unreached()
                },
            };
            if e.key >= hi {
                proof {
                    assert forall|k: int| 0 <= k < self@.skip(i as int).len() implies !(lo
                        <= (#[trigger] self@.skip(i as int)[k]).key < hi) by {
                        assert(self@.skip(i as int)[k] == self@[i + k]);
                        if k > 0 {
                            assert(self@[i as int].key < self@[i + k].key);
                        }
                    }
                    lemma_model_range_none(self@.skip(i as int), lo, hi);
                    assert(r@ + Seq::<(u64, V)>::empty() =~= r@);
                }
                break;
            }
            proof {
                if i > start {
                    assert(self@[start as int].key < self@[i as int].key);
                }
                assert(self@.skip(i as int)[0] == self@[i as int]);
                assert(self@.skip(i as int).skip(1) =~= self@.skip(i + 1 as int));
            }
            r.push((e.key, e.value));
            proof {
                assert(r@ + model_range(self@.skip(i + 1 as int), lo, hi) =~= model_range(
                    self@.skip(start as int),
                    lo,
                    hi,
                ));
            }
            i = i + 1;
        }
        r
    }

    /// The entries of the half-open window `[lo, hi)` in descending key
    /// order: the backward range iteration.
    pub fn range_rev(&self, lo: u64, hi: u64) -> (r: Vec<(u64, V)>)
        requires
            self.wf(),
        ensures
            r@.len() == model_range(self@, lo, hi).len(),
            forall|k: int|
                0 <= k < r@.len() ==> r@[k] == model_range(self@, lo, hi)[r@.len() - 1 - k],
    {
        let fwd = self.range(lo, hi);
        let n = fwd.len();
        let mut r: Vec<(u64, V)> = Vec::new();
        let mut i: usize = 0;
        while i < n
            invariant
                i <= n == fwd@.len(),
                fwd@ == model_range(self@, lo, hi),
                r@.len() == i,
                forall|k: int| 0 <= k < i ==> r@[k] == fwd@[fwd@.len() - 1 - k],
            decreases n - i,
        {
            r.push(fwd[n - 1 - i]);
            i = i + 1;
        }
        r
    }

    /// The entries in ascending key order, as plain pairs: the forward range
    /// iteration of the whole map.
    pub fn to_vec(&self) -> (r: Vec<(u64, V)>)
        requires
            self.wf(),
        ensures
            r@ == self@.map_values(|e: Entry<V>| (e.key, e.value)),
    {
        let n = self.entries.len();
        let mut r: Vec<(u64, V)> = Vec::new();
        let mut i: usize = 0;
        while i < n
            invariant
                self.wf(),
                i <= n == self@.len(),
                r@ == self@.take(i as int).map_values(|e: Entry<V>| (e.key, e.value)),
            decreases n - i,
        {
            let e = match self.entries.get(i) {
                Ok(e) => e,
                Err(_) => {
                    proof {
                        assert(false);
                    }
                    vstd::pervasive::unreached()
                },
            };
            r.push((e.key, e.value));
            proof {
                assert(r@ =~= self@.take(i + 1 as int).map_values(
                    |e: Entry<V>| (e.key, e.value),
                ));
            }
            i = i + 1;
        }
        proof {
            assert(self@.take(n as int) =~= self@);
            assert(r@ =~= self@.map_values(|e: Entry<V>| (e.key, e.value)));
        }
        r
    }
}

} // verus!
