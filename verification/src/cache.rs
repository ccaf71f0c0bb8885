//! In-memory caches: rendered icons by request, and resolved icon paths by
//! name. Both answer with what was last stored for a key.

use vstd::prelude::*;
use crate::bitmap::IconBitmap;

verus! {

/// The request a rendered icon is cached under.
pub struct CacheKey {
    pub identifier: String,
    pub size: u32,
    pub strategy: u8,
    pub theme: u8,
}

/// The abstract value of a request key.
pub open spec fn key_view(k: CacheKey) -> (Seq<char>, u32, u8, u8) {
    (k.identifier@, k.size, k.strategy, k.theme)
}

/// A rendered icon and its SVG embedding.
pub struct CacheEntry {
    pub bitmap: IconBitmap,
    pub svg_markup: Option<String>,
}

/// The entry stored last under `k` in `entries`.
pub open spec fn lookup_entry(entries: Seq<(CacheKey, CacheEntry)>, k: (Seq<char>, u32, u8, u8)) -> Option<CacheEntry>
    decreases entries.len(),
{
    if entries.len() == 0 {
        None
    } else if key_view(entries.last().0) == k {
        Some(entries.last().1)
    } else {
        lookup_entry(entries.drop_last(), k)
    }
}

/// Index of the entry stored last under `k`, if any.
pub open spec fn last_index_of(entries: Seq<(CacheKey, CacheEntry)>, k: (Seq<char>, u32, u8, u8)) -> int
    decreases entries.len(),
{
    if entries.len() == 0 {
        -1
    } else if key_view(entries.last().0) == k {
        entries.len() - 1
    } else {
        last_index_of(entries.drop_last(), k)
    }
}

/// Rendered icons by request.
pub struct RenderCache {
    entries: Vec<(CacheKey, CacheEntry)>,
}

fn same_key(a: &CacheKey, b: &CacheKey) -> (r: bool)
    ensures
        r == (key_view(*a) == key_view(*b)),
{
    a.size == b.size && a.strategy == b.strategy && a.theme == b.theme && a.identifier == b.identifier
}

proof fn lemma_last_index(entries: Seq<(CacheKey, CacheEntry)>, k: (Seq<char>, u32, u8, u8))
    ensures
        last_index_of(entries, k) == -1 <==> lookup_entry(entries, k) is None,
        last_index_of(entries, k) != -1 ==> {
            let i = last_index_of(entries, k);
            &&& 0 <= i < entries.len()
            &&& key_view(entries[i].0) == k
            &&& lookup_entry(entries, k) == Some(entries[i].1)
            &&& forall|j: int| i < j < entries.len() ==> key_view(#[trigger] entries[j].0) != k
        },
        last_index_of(entries, k) == -1 ==> forall|j: int|
            0 <= j < entries.len() ==> key_view(#[trigger] entries[j].0) != k,
    decreases entries.len(),
{
    if entries.len() > 0 {
        let d = entries.drop_last();
        lemma_last_index(d, k);
        assert forall|j: int| 0 <= j < d.len() implies #[trigger] d[j] == entries[j] by {}
        if key_view(entries.last().0) == k {
            assert(last_index_of(entries, k) == entries.len() - 1);
            assert(lookup_entry(entries, k) == Some(entries[entries.len() - 1].1));
        } else {
            assert(last_index_of(entries, k) == last_index_of(d, k));
            assert(lookup_entry(entries, k) == lookup_entry(d, k));
            if last_index_of(d, k) == -1 {
                assert forall|j: int| 0 <= j < entries.len() implies key_view(#[trigger] entries[j].0) != k by {
                    if j < d.len() {
                        assert(d[j] == entries[j]);
                    }
                }
            } else {
                let i = last_index_of(d, k);
                assert forall|j: int| i < j < entries.len() implies key_view(#[trigger] entries[j].0) != k by {
                    if j < d.len() {
                        assert(d[j] == entries[j]);
                    }
                }
            }
        }
    }
}

proof fn lemma_lookup_update(
    entries: Seq<(CacheKey, CacheEntry)>,
    i: int,
    e: (CacheKey, CacheEntry),
    k: (Seq<char>, u32, u8, u8),
)
    requires
        0 <= i < entries.len(),
        key_view(entries[i].0) == key_view(e.0),
        forall|j: int| i < j < entries.len() ==> key_view(#[trigger] entries[j].0) != key_view(e.0),
    ensures
        k == key_view(e.0) ==> lookup_entry(entries.update(i, e), k) == Some(e.1),
        k != key_view(e.0) ==> lookup_entry(entries.update(i, e), k) == lookup_entry(entries, k),
    decreases entries.len(),
{
    let u = entries.update(i, e);
    if i == entries.len() - 1 {
        assert(u.drop_last() =~= entries.drop_last());
    } else {
        assert(u.drop_last() =~= entries.drop_last().update(i, e));
        lemma_lookup_update(entries.drop_last(), i, e, k);
    }
}

impl RenderCache {
    /// The entry cached for a request.
    pub closed spec fn spec_get(&self, k: (Seq<char>, u32, u8, u8)) -> Option<CacheEntry> {
        lookup_entry(self.entries@, k)
    }

    /// An empty cache.
    pub fn new() -> (c: Self)
        ensures
            forall|k| c.spec_get(k) is None,
    {
        RenderCache { entries: Vec::new() }
    }

    /// The entry cached for a request, if any.
    pub fn get(&self, key: &CacheKey) -> (r: Option<&CacheEntry>)
        ensures
            r matches Some(e) ==> self.spec_get(key_view(*key)) == Some(*e),
            r is None ==> self.spec_get(key_view(*key)) is None,
    {
        let n = self.entries.len();
        let mut i = n;
        while i > 0
            invariant
                i <= n,
                n == self.entries@.len(),
                forall|j: int| i <= j < n ==> key_view(#[trigger] self.entries@[j].0) != key_view(*key),
            decreases i,
        {
            i = i - 1;
            if same_key(&self.entries[i].0, key) {
                proof {
                    lemma_last_index(self.entries@, key_view(*key));
                    let li = last_index_of(self.entries@, key_view(*key));
                    assert(li == i as int) by {
                        if li != i as int {
                            assert(li != -1);
                        }
                    }
                }
                return Some(&self.entries[i].1);
            }
        }
        proof {
            lemma_last_index(self.entries@, key_view(*key));
            let li = last_index_of(self.entries@, key_view(*key));
            if li != -1 {
                assert(key_view(self.entries@[li].0) == key_view(*key));
            }
        }
        None
    }

    /// Stores an entry for a request, replacing what was there.
    pub fn insert(&mut self, key: CacheKey, entry: CacheEntry)
        ensures
            final(self).spec_get(key_view(key)) == Some(entry),
            forall|k| k != key_view(key) ==> #[trigger] final(self).spec_get(k) == old(self).spec_get(k),
    {
        let ghost kv = key_view(key);
        let n = self.entries.len();
        let mut i = n;
        while i > 0
            invariant
                kv == key_view(key),
                self.entries@ == old(self).entries@,
                i <= n,
                n == self.entries@.len(),
                forall|j: int| i <= j < n ==> key_view(#[trigger] self.entries@[j].0) != kv,
            decreases i,
        {
            i = i - 1;
            if same_key(&self.entries[i].0, &key) {
                let ghost before = self.entries@;
                assert(forall|j: int| i < j < n ==> key_view(#[trigger] before[j].0) != kv);
                let ghost e = (key, entry);
                self.entries.set(i, (key, entry));
                proof {
                    assert(self.entries@ == before.update(i as int, e));
                    assert forall|k| k != kv implies #[trigger] lookup_entry(self.entries@, k) == lookup_entry(before, k) by {
                        lemma_lookup_update(before, i as int, e, k);
                    }
                    lemma_lookup_update(before, i as int, e, kv);
                }
                return;
            }
        }
        let ghost before = self.entries@;
        self.entries.push((key, entry));
        proof {
            assert(self.entries@.drop_last() =~= before);
            assert(key_view(self.entries@.last().0) == kv);
            assert forall|k| k != kv implies #[trigger] lookup_entry(self.entries@, k) == lookup_entry(before, k) by {}
        }
    }
}

/// The value stored last under `k` in `entries`.
pub open spec fn lookup_path(entries: Seq<(String, Option<String>)>, k: Seq<char>) -> Option<Option<Seq<char>>>
    decreases entries.len(),
{
    if entries.len() == 0 {
        None
    } else if entries.last().0@ == k {
        Some(match entries.last().1 {
            Some(p) => Some(p@),
            None => None,
        })
    } else {
        lookup_path(entries.drop_last(), k)
    }
}

/// Resolved icon paths (or the knowledge that there is none) by name.
pub struct LookupCache {
    entries: Vec<(String, Option<String>)>,
}

impl LookupCache {
    /// What the cache holds for a name: `None` where nothing is cached.
    pub closed spec fn spec_get(&self, k: Seq<char>) -> Option<Option<Seq<char>>> {
        lookup_path(self.entries@, k)
    }

    /// An empty cache.
    pub fn new() -> (c: Self)
        ensures
            forall|k| c.spec_get(k) is None,
    {
        LookupCache { entries: Vec::new() }
    }

    /// What was cached for a name, if anything.
    pub fn get(&self, name: &str) -> (r: Option<Option<String>>)
        ensures
            r is None <==> self.spec_get(name@) is None,
            r matches Some(v) ==> self.spec_get(name@) == Some(match v {
                Some(p) => Some(p@),
                None => None,
            }),
    {
        let wanted: String = name.to_owned();
        let n = self.entries.len();
        let mut i = n;
        proof {
            assert(self.entries@.take(n as int) =~= self.entries@);
        }
        while i > 0
            invariant
                wanted@ == name@,
                i <= n,
                n == self.entries@.len(),
                lookup_path(self.entries@, name@) == lookup_path(self.entries@.take(i as int), name@),
            decreases i,
        {
            let ghost prefix = self.entries@.take(i as int);
            i = i - 1;
            proof {
                assert(prefix.drop_last() =~= self.entries@.take(i as int));
                assert(prefix.last() == self.entries@[i as int]);
            }
            if self.entries[i].0 == wanted {
                let v = match &self.entries[i].1 {
                    Some(p) => Some(p.clone()),
                    None => None,
                };
                return Some(v);
            }
        }
        proof {
            assert(self.entries@.take(0) =~= Seq::<(String, Option<String>)>::empty());
        }
        None
    }

    /// Records what a name resolved to.
    pub fn insert(&mut self, name: String, resolved: Option<String>)
        ensures
            final(self).spec_get(name@) == Some(match resolved {
                Some(p) => Some(p@),
                None => None,
            }),
            forall|k| k != name@ ==> #[trigger] final(self).spec_get(k) == old(self).spec_get(k),
    {
        let ghost before = self.entries@;
        self.entries.push((name, resolved));
        proof {
            assert(self.entries@.drop_last() =~= before);
        }
    }
}

} // verus!
