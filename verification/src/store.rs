//! Verified association tables: an id-keyed table and a keyword-keyed
//! table, both with unique keys and deterministic iteration order, plus the
//! stopword filter applied to feature keywords.
use vstd::prelude::*;

use crate::text::str_eq;
use vstd::pervasive::VecAdditionalExecFns;

verus! {

/// The first index at or after `i` whose key equals `k`, if any.
pub open spec fn find_from(keys: Seq<i64>, k: i64, i: int) -> Option<int>
    decreases keys.len() - i,
{
    if i < 0 || i >= keys.len() {
        None
    } else if keys[i] == k {
        Some(i)
    } else {
        find_from(keys, k, i + 1)
    }
}

/// An id-keyed table with unique keys, kept in insertion order.
pub struct IdTable<V> {
    pub keys: Vec<i64>,
    pub vals: Vec<V>,
}

impl<V> IdTable<V> {
    /// Well-formed: parallel columns of equal length and no repeated key.
    pub open spec fn wf(self) -> bool {
        &&& self.keys@.len() == self.vals@.len()
        &&& forall|i: int, j: int|
            0 <= i < j < self.keys@.len() ==> self.keys@[i] != self.keys@[j]
    }

    /// The index of key `k`, if present.
    pub open spec fn spec_find(self, k: i64) -> Option<int> {
        find_from(self.keys@, k, 0)
    }

    /// Whether key `k` is present.
    pub open spec fn contains_spec(self, k: i64) -> bool {
        self.spec_find(k) is Some
    }

    /// The value bound to key `k`, if present.
    pub open spec fn getv(self, k: i64) -> Option<V> {
        match self.spec_find(k) {
            Some(i) => Some(self.vals@[i]),
            None => None,
        }
    }

    /// An empty table.
    pub fn new() -> (r: Self)
        ensures
            r.wf(),
            r.keys@.len() == 0,
    {
        IdTable { keys: Vec::new(), vals: Vec::new() }
    }

    /// The number of entries.
    pub fn len(&self) -> (r: usize)
        ensures
            r == self.keys@.len(),
    {
        self.keys.len()
    }

    /// Finds the index of key `k`.
    pub fn find_idx(&self, k: i64) -> (r: Option<usize>)
        ensures
            match r {
                Some(i) => self.spec_find(k) == Some(i as int) && i < self.keys@.len(),
                None => self.spec_find(k) is None,
            },
    {
        let n = self.keys.len();
        let mut i: usize = 0;
        while i < n
            invariant
                n == self.keys@.len(),
                i <= n,
                find_from(self.keys@, k, 0) == find_from(self.keys@, k, i as int),
            decreases n - i,
        {
            if self.keys[i] == k {
                return Some(i);
            }
            i = i + 1;
        }
        None
    }

    /// Adds a binding for a key that is not yet present.
    pub fn insert_new(&mut self, k: i64, v: V)
        requires
            old(self).wf(),
            !old(self).contains_spec(k),
        ensures
            final (self).wf(),
            final (self).keys@ == old(self).keys@.push(k),
            final (self).vals@ == old(self).vals@.push(v),
    {
        proof {
            lemma_find_none_means_absent(self.keys@, k);
        }
        self.keys.push(k);
        self.vals.push(v);
    }

    /// Replaces the value at a known index.
    pub fn set_val(&mut self, i: usize, v: V)
        requires
            old(self).wf(),
            i < old(self).vals@.len(),
        ensures
            final (self).wf(),
            final (self).keys@ == old(self).keys@,
            final (self).vals@ == old(self).vals@.update(i as int, v),
    {
        self.vals.set(i, v);
    }

    /// Empties the table.
    pub fn clear(&mut self)
        ensures
            final (self).wf(),
            final (self).keys@.len() == 0,
            final (self).vals@.len() == 0,
    {
        self.keys.clear();
        self.vals.clear();
    }
}

/// A missing key occurs nowhere in the key column.
pub proof fn lemma_find_none_means_absent(keys: Seq<i64>, k: i64)
    requires
        find_from(keys, k, 0) is None,
    ensures
        forall|i: int| 0 <= i < keys.len() ==> keys[i] != k,
{
    lemma_find_from_none(keys, k, 0);
}

/// `find_from` returning nothing means the key occurs nowhere at or after `i`.
pub proof fn lemma_find_from_none(keys: Seq<i64>, k: i64, i: int)
    requires
        find_from(keys, k, i) is None,
        0 <= i,
    ensures
        forall|j: int| i <= j < keys.len() ==> keys[j] != k,
    decreases keys.len() - i,
{
    if i < keys.len() {
        lemma_find_from_none(keys, k, i + 1);
    }
}

/// A present key is found at an index that holds it.
pub proof fn lemma_find_from_some(keys: Seq<i64>, k: i64, i: int)
    requires
        0 <= i,
        find_from(keys, k, i) is Some,
    ensures
        i <= find_from(keys, k, i)->Some_0 < keys.len(),
        keys[find_from(keys, k, i)->Some_0] == k,
    decreases keys.len() - i,
{
    if i < keys.len() && keys[i] != k {
        lemma_find_from_some(keys, k, i + 1);
    }
}

/// The first index at or after `i` whose keyword equals `k`, if any.
pub open spec fn kfind_from(keys: Seq<Seq<char>>, k: Seq<char>, i: int) -> Option<int>
    decreases keys.len() - i,
{
    if i < 0 || i >= keys.len() {
        None
    } else if keys[i] == k {
        Some(i)
    } else {
        kfind_from(keys, k, i + 1)
    }
}

/// A keyword-keyed table mapping feature keywords to node ids, with unique
/// keywords, kept in insertion order.
pub struct KwTable {
    pub keys: Vec<String>,
    pub ids: Vec<i64>,
}

impl KwTable {
    /// The keyword column, at the character level.
    pub open spec fn key_views(self) -> Seq<Seq<char>> {
        self.keys@.map_values(|s: String| s@)
    }

    /// Well-formed: parallel columns of equal length and no repeated
    /// keyword.
    pub open spec fn wf(self) -> bool {
        &&& self.keys@.len() == self.ids@.len()
        &&& forall|i: int, j: int|
            0 <= i < j < self.keys@.len() ==> self.key_views()[i] != self.key_views()[j]
    }

    /// The index of keyword `k`, if present.
    pub open spec fn spec_find(self, k: Seq<char>) -> Option<int> {
        kfind_from(self.key_views(), k, 0)
    }

    /// Whether keyword `k` is present.
    pub open spec fn contains_spec(self, k: Seq<char>) -> bool {
        self.spec_find(k) is Some
    }

    /// The node id bound to keyword `k`, if present.
    pub open spec fn getid(self, k: Seq<char>) -> Option<i64> {
        match self.spec_find(k) {
            Some(i) => Some(self.ids@[i]),
            None => None,
        }
    }

    /// An empty table.
    pub fn new() -> (r: Self)
        ensures
            r.wf(),
            r.keys@.len() == 0,
    {
        KwTable { keys: Vec::new(), ids: Vec::new() }
    }

    /// Finds the index of keyword `k`.
    pub fn find_idx(&self, k: &str) -> (r: Option<usize>)
        ensures
            match r {
                Some(i) => self.spec_find(k@) == Some(i as int) && i < self.keys@.len(),
                None => self.spec_find(k@) is None,
            },
    {
        let n = self.keys.len();
        let mut i: usize = 0;
        while i < n
            invariant
                n == self.keys@.len(),
                i <= n,
                kfind_from(self.key_views(), k@, 0) == kfind_from(self.key_views(), k@, i as int),
            decreases n - i,
        {
            if str_eq(self.keys[i].as_str(), k) {
                proof {
                    assert(self.key_views()[i as int] == k@);
                }
                return Some(i);
            }
            proof {
                assert(self.key_views()[i as int] != k@);
            }
            i = i + 1;
        }
        None
    }

    /// Binds keyword `k` to `id`, overwriting any earlier binding.
    pub fn upsert(&mut self, k: String, id: i64)
        requires
            old(self).wf(),
        ensures
            final (self).wf(),
            final (self).getid(k@) == Some(id),
            final (self).key_views() == if old(self).contains_spec(k@) {
                old(self).key_views()
            } else {
                old(self).key_views().push(k@)
            },
            forall|w: Seq<char>|
                w != k@ ==> #[trigger] final (self).getid(w) == old(self).getid(w),
    {
        let idx_opt = self.find_idx(k.as_str());
        match idx_opt {
            Some(i) => {
                self.ids.set(i, id);
                proof {
                    lemma_kfind_stable(old(self).key_views(), self.key_views());
                    lemma_kfind_from_some(self.key_views(), k@, 0);
                    assert forall|w: Seq<char>| w != k@ implies #[trigger] self.getid(w) == old(
                        self,
                    ).getid(w) by {
                        if kfind_from(self.key_views(), w, 0) is Some {
                            lemma_kfind_from_some(self.key_views(), w, 0);
                        }
                    }
                }
            },
            None => {
                self.keys.push(k);
                self.ids.push(id);
                proof {
                    let kv0 = old(self).key_views();
                    let kv1 = self.key_views();
                    assert(kv1 =~= kv0.push(k@));
                    lemma_kfind_from_none(kv0, k@, 0);
                    lemma_kfind_push(kv0, k@, 0);
                    assert forall|w: Seq<char>| w != k@ implies #[trigger] self.getid(w) == old(
                        self,
                    ).getid(w) by {
                        lemma_kfind_push_other(kv0, k@, w, 0);
                        if kfind_from(kv0, w, 0) is Some {
                            lemma_kfind_from_some(kv0, w, 0);
                        }
                    }
                }
            },
        }
    }
}

/// Two equal keyword columns find every keyword alike.
proof fn lemma_kfind_stable(a: Seq<Seq<char>>, b: Seq<Seq<char>>)
    requires
        a == b,
    ensures
        forall|w: Seq<char>, i: int| #[trigger] kfind_from(a, w, i) == kfind_from(b, w, i),
{
}

/// `kfind_from` returning nothing means the keyword occurs nowhere at or
/// after `i`.
pub proof fn lemma_kfind_from_none(keys: Seq<Seq<char>>, k: Seq<char>, i: int)
    requires
        kfind_from(keys, k, i) is None,
        0 <= i,
    ensures
        forall|j: int| i <= j < keys.len() ==> keys[j] != k,
    decreases keys.len() - i,
{
    if i < keys.len() {
        lemma_kfind_from_none(keys, k, i + 1);
    }
}

/// A present keyword is found at an index that holds it.
pub proof fn lemma_kfind_from_some(keys: Seq<Seq<char>>, k: Seq<char>, i: int)
    requires
        0 <= i,
        kfind_from(keys, k, i) is Some,
    ensures
        i <= kfind_from(keys, k, i)->Some_0 < keys.len(),
        keys[kfind_from(keys, k, i)->Some_0] == k,
    decreases keys.len() - i,
{
    if i < keys.len() && keys[i] != k {
        lemma_kfind_from_some(keys, k, i + 1);
    }
}

/// Appending a keyword makes it findable: searching the extended column
/// for the appended keyword lands on it when it was absent before.
proof fn lemma_kfind_push(keys: Seq<Seq<char>>, k: Seq<char>, i: int)
    requires
        0 <= i <= keys.len(),
        kfind_from(keys, k, i) is None,
    ensures
        kfind_from(keys.push(k), k, i) == Some(keys.len() as int),
    decreases keys.len() - i,
{
    if i < keys.len() {
        assert(keys.push(k)[i] == keys[i]);
        lemma_kfind_push(keys, k, i + 1);
    } else {
        assert(keys.push(k)[i] == k);
    }
}

/// Appending one keyword leaves the search for any other unchanged.
proof fn lemma_kfind_push_other(keys: Seq<Seq<char>>, k: Seq<char>, w: Seq<char>, i: int)
    requires
        0 <= i <= keys.len(),
        w != k,
    ensures
        kfind_from(keys.push(k), w, i) == kfind_from(keys, w, i),
    decreases keys.len() - i,
{
    if i < keys.len() {
        assert(keys.push(k)[i] == keys[i]);
        lemma_kfind_push_other(keys, k, w, i + 1);
    } else {
        assert(keys.push(k)[i] == k);
        assert(kfind_from(keys.push(k), w, i + 1) is None);
        assert(kfind_from(keys, w, i) is None);
    }
}


/// Appending a key makes it findable when it was absent before.
pub proof fn lemma_find_push(keys: Seq<i64>, k: i64, i: int)
    requires
        0 <= i <= keys.len(),
        find_from(keys, k, i) is None,
    ensures
        find_from(keys.push(k), k, i) == Some(keys.len() as int),
    decreases keys.len() - i,
{
    if i < keys.len() {
        assert(keys.push(k)[i] == keys[i]);
        lemma_find_push(keys, k, i + 1);
    } else {
        assert(keys.push(k)[i] == k);
    }
}

/// Appending one key leaves the search for any other unchanged.
pub proof fn lemma_find_push_other(keys: Seq<i64>, k: i64, w: i64, i: int)
    requires
        0 <= i <= keys.len(),
        w != k,
    ensures
        find_from(keys.push(k), w, i) == find_from(keys, w, i),
    decreases keys.len() - i,
{
    if i < keys.len() {
        assert(keys.push(k)[i] == keys[i]);
        lemma_find_push_other(keys, k, w, i + 1);
    } else {
        assert(keys.push(k)[i] == k);
        assert(find_from(keys.push(k), w, i + 1) is None);
        assert(find_from(keys, w, i) is None);
    }
}

impl<V> IdTable<V> {
    /// Binds key `k` to `v`, overwriting any earlier binding.
    pub fn upsert(&mut self, k: i64, v: V)
        requires
            old(self).wf(),
        ensures
            final (self).wf(),
            final (self).getv(k) == Some(v),
            final (self).keys@ == if old(self).contains_spec(k) {
                old(self).keys@
            } else {
                old(self).keys@.push(k)
            },
            final (self).vals@ == match old(self).spec_find(k) {
                Some(i) => old(self).vals@.update(i, v),
                None => old(self).vals@.push(v),
            },
            forall|w: i64| w != k ==> #[trigger] final (self).getv(w) == old(self).getv(w),
    {
        let idx_opt = self.find_idx(k);
        match idx_opt {
            Some(i) => {
                self.vals.set(i, v);
                proof {
                    lemma_find_from_some(self.keys@, k, 0);
                    assert forall|w: i64| w != k implies #[trigger] self.getv(w) == old(
                        self,
                    ).getv(w) by {
                        if find_from(self.keys@, w, 0) is Some {
                            lemma_find_from_some(self.keys@, w, 0);
                        }
                    }
                }
            },
            None => {
                proof {
                    lemma_find_none_means_absent(self.keys@, k);
                }
                self.keys.push(k);
                self.vals.push(v);
                proof {
                    let k0 = old(self).keys@;
                    assert(self.keys@ =~= k0.push(k));
                    lemma_find_push(k0, k, 0);
                    assert forall|w: i64| w != k implies #[trigger] self.getv(w) == old(
                        self,
                    ).getv(w) by {
                        lemma_find_push_other(k0, k, w, 0);
                        if find_from(k0, w, 0) is Some {
                            lemma_find_from_some(k0, w, 0);
                        }
                    }
                }
            },
        }
    }
}

} // verus!
