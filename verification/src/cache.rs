//! The torrent-metadata cache: a bounded map from torrent-file url to parsed
//! torrent, with least-recently-used eviction, capacity 100.
use vstd::prelude::*;

use crate::torrent::Torrent;

verus! {

/// The lru crate's cache type, declared for use in fields and signatures.
#[verifier::external_type_specification]
#[verifier::external_body]
#[verifier::reject_recursive_types(K)]
#[verifier::reject_recursive_types(V)]
#[verifier::reject_recursive_types(S)]
pub struct ExLruCache<K, V, S>(lru::LruCache<K, V, S>);

/// The entries of an lru cache, most recently used first.
pub uninterp spec fn lru_entries(c: lru::LruCache<String, Torrent>) -> Seq<(Seq<char>, Torrent)>;

/// The capacity an lru cache was created with.
pub uninterp spec fn lru_cap(c: lru::LruCache<String, Torrent>) -> int;

/// First entry position holding `key`, at or after `i`.
pub open spec fn spec_entry_index(es: Seq<(Seq<char>, Torrent)>, key: Seq<char>, i: int) -> int
    decreases es.len() - i,
{
    if i < 0 {
        spec_entry_index(es, key, 0)
    } else if i >= es.len() {
        es.len() as int
    } else if es[i].0 == key {
        i
    } else {
        spec_entry_index(es, key, i + 1)
    }
}

pub proof fn lemma_entry_index_props(es: Seq<(Seq<char>, Torrent)>, key: Seq<char>, i: int)
    requires
        0 <= i <= es.len(),
    ensures
        i <= spec_entry_index(es, key, i) <= es.len(),
        spec_entry_index(es, key, i) < es.len() ==> es[spec_entry_index(es, key, i)].0 == key,
        forall|k: int| i <= k < spec_entry_index(es, key, i) ==> es[k].0 != key,
    decreases es.len() - i,
{
    if i < es.len() && es[i].0 != key {
        lemma_entry_index_props(es, key, i + 1);
    }
}

/// Whether two parsed torrents carry the same content.
pub open spec fn torrent_like(a: Torrent, b: Torrent) -> bool {
    &&& a.raw@ == b.raw@
    &&& a.id_bytes@ == b.id_bytes@
    &&& a.name == b.name
    &&& a.root == b.root
}

/// Relies on lru's `LruCache::new`: a fresh cache with the given capacity
/// and no entries.
#[verifier::external_body]
fn lru_new(cap: usize) -> (r: lru::LruCache<String, Torrent>)
    requires
        1 <= cap,
    ensures
        lru_entries(r).len() == 0,
        lru_cap(r) == cap,
{
    lru::LruCache::new(std::num::NonZeroUsize::new(cap).unwrap())
}

/// Relies on lru's `LruCache::get`: it returns the value stored under the
/// key, if any, moving that entry to the front of the recency order, and
/// touches nothing else.
#[verifier::external_body]
fn lru_get(c: &mut lru::LruCache<String, Torrent>, key: &str) -> (r: Option<Torrent>)
    ensures
        lru_cap(*final(c)) == lru_cap(*old(c)),
        ({
            let es = lru_entries(*old(c));
            let i = spec_entry_index(es, key@, 0);
            if i < es.len() {
                &&& r is Some
                &&& torrent_like(r->Some_0, es[i].1)
                &&& lru_entries(*final(c)) == seq![es[i]] + es.remove(i)
            } else {
                r is None && lru_entries(*final(c)) == es
            }
        }),
{
    c.get(&key.to_owned()).cloned()
}

/// Relies on lru's `LruCache::put`: an existing key's entry is replaced and
/// moved to the front; a new key is pushed at the front, and when the cache
/// is full the least recently used entry — the last — leaves.
#[verifier::external_body]
fn lru_put(c: &mut lru::LruCache<String, Torrent>, key: String, value: Torrent)
    ensures
        lru_cap(*final(c)) == lru_cap(*old(c)),
        ({
            let es = lru_entries(*old(c));
            let i = spec_entry_index(es, key@, 0);
            lru_entries(*final(c)) == if i < es.len() {
                seq![(key@, value)] + es.remove(i)
            } else if es.len() >= lru_cap(*old(c)) {
                seq![(key@, value)] + es.drop_last()
            } else {
                seq![(key@, value)] + es
            }
        }),
{
    let _ = c.put(key, value);
}

/// Relies on lru's `LruCache::len`: the number of stored entries.
#[verifier::external_body]
fn lru_len(c: &lru::LruCache<String, Torrent>) -> (r: usize)
    ensures
        r as int == lru_entries(*c).len(),
{
    c.len()
}

/// The bounded torrent-metadata cache.
pub struct TorrentCache {
    pub inner: lru::LruCache<String, Torrent>,
}

impl TorrentCache {
    /// The cached entries, most recently used first.
    pub open spec fn entries(&self) -> Seq<(Seq<char>, Torrent)> {
        lru_entries(self.inner)
    }

    /// The cache's capacity.
    pub open spec fn cap(&self) -> int {
        lru_cap(self.inner)
    }

    /// Cache invariant: one entry per url, never more entries than capacity.
    pub open spec fn wf(&self) -> bool {
        &&& forall|i: int, j: int|
            0 <= i < j < self.entries().len() ==> (#[trigger] self.entries()[i]).0 != (
            #[trigger] self.entries()[j]).0
        &&& self.entries().len() <= self.cap()
        &&& 1 <= self.cap()
    }

    /// A fresh cache holding up to 100 torrents.
    pub fn new() -> (r: Self)
        ensures
            r.wf(),
            r.entries().len() == 0,
            r.cap() == 100,
    {
        TorrentCache { inner: lru_new(100) }
    }

    /// How many torrents are cached.
    pub fn len(&self) -> (r: usize)
        ensures
            r as int == self.entries().len(),
    {
        lru_len(&self.inner)
    }

    /// The torrent cached under `url`, if any; a hit refreshes the entry's
    /// recency, and a miss changes nothing.
    pub fn lookup(&mut self, url: &str) -> (r: Option<Torrent>)
        requires
            old(self).wf(),
        ensures
            final(self).wf(),
            final(self).cap() == old(self).cap(),
            ({
                let es = old(self).entries();
                let i = spec_entry_index(es, url@, 0);
                if i < es.len() {
                    &&& r is Some
                    &&& torrent_like(r->Some_0, es[i].1)
                    &&& final(self).entries() == seq![es[i]] + es.remove(i)
                } else {
                    r is None && final(self).entries() == es
                }
            }),
    {
        let ghost es = lru_entries(self.inner);
        proof {
            lemma_entry_index_props(es, url@, 0);
        }
        let r = lru_get(&mut self.inner, url);
        proof {
            let i = spec_entry_index(es, url@, 0);
            if i < es.len() {
                let es2 = seq![es[i]] + es.remove(i);
                assert forall|a: int, b: int| 0 <= a < b < es2.len() implies (
                #[trigger] es2[a]).0 != (#[trigger] es2[b]).0 by {
                    lemma_remove_keeps(es, i, a - 1);
                    lemma_remove_keeps(es, i, b - 1);
                }
            }
        }
        r
    }

    /// Cache `torrent` under `url`: a hit replaces and refreshes the entry;
    /// a miss pushes a new one, evicting the least recently used entry when
    /// the cache is full.
    pub fn insert(&mut self, url: &str, torrent: Torrent)
        requires
            old(self).wf(),
        ensures
            final(self).wf(),
            final(self).cap() == old(self).cap(),
            ({
                let es = old(self).entries();
                let i = spec_entry_index(es, url@, 0);
                final(self).entries() == if i < es.len() {
                    seq![(url@, torrent)] + es.remove(i)
                } else if es.len() >= old(self).cap() {
                    seq![(url@, torrent)] + es.drop_last()
                } else {
                    seq![(url@, torrent)] + es
                }
            }),
    {
        let ghost es = lru_entries(self.inner);
        let ghost tv = torrent;
        let ghost cap0 = lru_cap(self.inner);
        proof {
            assert(cap0 == old(self).cap());
            lemma_entry_index_props(es, url@, 0);
        }
        lru_put(&mut self.inner, url.to_owned(), torrent);
        proof {
            assert(lru_cap(self.inner) == cap0);
            let i = spec_entry_index(es, url@, 0);
            if i < es.len() {
                assert(lru_entries(self.inner) == seq![(url@, tv)] + es.remove(i));
            } else if es.len() >= cap0 {
                assert(lru_entries(self.inner) == seq![(url@, tv)] + es.drop_last());
            } else {
                assert(lru_entries(self.inner) == seq![(url@, tv)] + es);
            }
        }
        proof {
            let i = spec_entry_index(es, url@, 0);
            let es2 = lru_entries(self.inner);
            assert forall|a: int, b: int| 0 <= a < b < es2.len() implies (#[trigger] es2[a]).0 != (
            #[trigger] es2[b]).0 by {
                if i < es.len() {
                    if a == 0 {
                        lemma_remove_keeps(es, i, b - 1);
                        if b - 1 < i {
                            assert(es2[b] == es[b - 1]);
                            assert(es[b - 1].0 != url@);
                        } else {
                            assert(es2[b] == es[b]);
                            if es[b].0 == url@ {
                                assert(es[i].0 == url@);
                                assert(false);
                            }
                        }
                    } else {
                        lemma_remove_keeps(es, i, a - 1);
                        lemma_remove_keeps(es, i, b - 1);
                    }
                } else {
                    if es.len() >= old(self).cap() {
                        assert(es2 == seq![(url@, tv)] + es.drop_last());
                        if a == 0 {
                            assert(es2[b] == es.drop_last()[b - 1]);
                            assert(es.drop_last()[b - 1] == es[b - 1]);
                            assert(es[b - 1].0 != url@);
                        } else {
                            assert(es2[a] == es[a - 1] && es2[b] == es[b - 1]);
                        }
                    } else {
                        assert(es2 == seq![(url@, tv)] + es);
                        if a == 0 {
                            assert(es2[b] == es[b - 1]);
                            assert(es[b - 1].0 != url@);
                        } else {
                            assert(es2[a] == es[a - 1] && es2[b] == es[b - 1]);
                        }
                    }
                }
            }
        }
    }
}

/// What remains after removing position `i`: each kept entry is one of the
/// originals away from `i`.
proof fn lemma_remove_keeps(es: Seq<(Seq<char>, Torrent)>, i: int, k: int)
    requires
        0 <= i < es.len(),
    ensures
        0 <= k < es.len() - 1 ==> es.remove(i)[k] == (if k < i {
            es[k]
        } else {
            es[k + 1]
        }),
{
}

} // verus!
