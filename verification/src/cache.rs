//! A bounded key-value cache with least-recently-used eviction.
//!
//! Entries are ordered from least recently used to most recently used;
//! a read or a write of a key moves its entry to the most recent end,
//! and a write that would exceed the capacity evicts the least recently
//! used entry.
use vstd::prelude::*;

verus! {

/// Whether some entry of `es` carries the key `k`.
pub open spec fn has_key(es: Seq<(Seq<char>, Seq<char>)>, k: Seq<char>) -> bool {
    exists|i: int| 0 <= i < es.len() && es[i].0 == k
}

/// The index of the first entry of `es` carrying the key `k`;
/// meaningful only when `has_key(es, k)`.
pub open spec fn key_index(es: Seq<(Seq<char>, Seq<char>)>, k: Seq<char>) -> int
    decreases es.len(),
{
    if es.len() == 0 {
        0
    } else if es[0].0 == k {
        0
    } else {
        1 + key_index(es.skip(1), k)
    }
}

/// No two entries of `es` carry the same key.
pub open spec fn distinct_keys(es: Seq<(Seq<char>, Seq<char>)>) -> bool {
    forall|i: int, j: int| 0 <= i < j < es.len() ==> es[i].0 != es[j].0
}

/// The key-to-value mapping that `es` holds; a later entry wins over an
/// earlier one with the same key.
pub open spec fn assoc_map(es: Seq<(Seq<char>, Seq<char>)>) -> Map<Seq<char>, Seq<char>>
    decreases es.len(),
{
    if es.len() == 0 {
        Map::empty()
    } else {
        assoc_map(es.drop_last()).insert(es.last().0, es.last().1)
    }
}

/// `es` after a read of `k`: the entry carrying `k`, if any, moves to
/// the most recent end; nothing else changes.
pub open spec fn refreshed(es: Seq<(Seq<char>, Seq<char>)>, k: Seq<char>) -> Seq<
    (Seq<char>, Seq<char>),
> {
    if has_key(es, k) {
        let i = key_index(es, k);
        es.remove(i).push(es[i])
    } else {
        es
    }
}

/// `es` after a write of `k -> v` into a cache of capacity `cap`: an
/// entry carrying `k` is replaced and moved to the most recent end; a
/// new entry evicts the least recently used one when `es` is full.
pub open spec fn inserted(
    es: Seq<(Seq<char>, Seq<char>)>,
    cap: int,
    k: Seq<char>,
    v: Seq<char>,
) -> Seq<(Seq<char>, Seq<char>)> {
    if has_key(es, k) {
        es.remove(key_index(es, k)).push((k, v))
    } else if es.len() >= cap {
        es.skip(1).push((k, v))
    } else {
        es.push((k, v))
    }
}

/// When `es` carries `k`, `key_index(es, k)` is the position of the
/// first entry that does.
pub proof fn lemma_key_index(es: Seq<(Seq<char>, Seq<char>)>, k: Seq<char>)
    requires
        has_key(es, k),
    ensures
        0 <= key_index(es, k) < es.len(),
        es[key_index(es, k)].0 == k,
        forall|t: int| 0 <= t < key_index(es, k) ==> es[t].0 != k,
    decreases es.len(),
{
    if es[0].0 == k {
    } else {
        let tail = es.skip(1);
        assert(has_key(tail, k)) by {
            let i = choose|i: int| 0 <= i < es.len() && es[i].0 == k;
            assert(tail[i - 1] == es[i]);
        }
        lemma_key_index(tail, k);
        assert(es[key_index(es, k)] == tail[key_index(tail, k)]);
        assert forall|t: int| 0 <= t < key_index(es, k) implies es[t].0 != k by {
            if t > 0 {
                assert(tail[t - 1] == es[t]);
            }
        }
    }
}

/// Relates each element of `es.remove(i).push(x)` to an element of
/// `es` (or to `x` at the most recent end).
proof fn lemma_remove_push_index<T>(es: Seq<T>, x: T, i: int, a: int)
    requires
        0 <= i < es.len(),
        0 <= a < es.len(),
    ensures
        es.remove(i).push(x).len() == es.len(),
        a == es.len() - 1 ==> es.remove(i).push(x)[a] == x,
        a < i ==> es.remove(i).push(x)[a] == es[a],
        i <= a < es.len() - 1 ==> es.remove(i).push(x)[a] == es[a + 1],
{
    assert(es.remove(i).len() == es.len() - 1);
    if a < i {
        assert(es.remove(i)[a] == es.subrange(0, i)[a]);
    } else if a < es.len() - 1 {
        assert(es.remove(i)[a] == es.subrange(i + 1, es.len() as int)[a - i]);
    }
}

/// With distinct keys, `assoc_map(es)` holds exactly the keys of `es`,
/// each bound to the value its entry carries.
pub proof fn lemma_assoc_map_index(es: Seq<(Seq<char>, Seq<char>)>)
    requires
        distinct_keys(es),
    ensures
        forall|k: Seq<char>| #[trigger] assoc_map(es).contains_key(k) <==> has_key(es, k),
        forall|i: int| 0 <= i < es.len() ==> assoc_map(es)[(#[trigger] es[i]).0] == es[i].1,
    decreases es.len(),
{
    if es.len() > 0 {
        let init = es.drop_last();
        assert(forall|i: int| 0 <= i < init.len() ==> init[i] == es[i]);
        lemma_assoc_map_index(init);
        assert forall|k: Seq<char>| #[trigger] assoc_map(es).contains_key(k) <==> has_key(
            es,
            k,
        ) by {
            if assoc_map(es).contains_key(k) {
                if k == es.last().0 {
                    assert(es[es.len() - 1].0 == k);
                } else {
                    assert(assoc_map(init).contains_key(k));
                    let i = choose|i: int| 0 <= i < init.len() && init[i].0 == k;
                    assert(init[i] == es[i]);
                    assert(es[i].0 == k);
                }
            }
            if has_key(es, k) {
                let i = choose|i: int| 0 <= i < es.len() && es[i].0 == k;
                if i < es.len() - 1 {
                    assert(init[i] == es[i]);
                    assert(init[i].0 == k);
                    assert(assoc_map(init).contains_key(k));
                }
            }
        }
        assert forall|i: int| 0 <= i < es.len() implies assoc_map(es)[(#[trigger] es[i]).0]
            == es[i].1 by {
            if i < es.len() - 1 {
                assert(es[i].0 != es[es.len() - 1].0);
                assert(assoc_map(es)[es[i].0] == assoc_map(init)[init[i].0]);
            }
        }
    }
}

/// A read changes no binding: refreshing preserves the keys'
/// distinctness, the length, and the mapping itself.
pub proof fn lemma_refreshed(es: Seq<(Seq<char>, Seq<char>)>, k: Seq<char>)
    requires
        distinct_keys(es),
    ensures
        distinct_keys(refreshed(es, k)),
        refreshed(es, k).len() == es.len(),
        assoc_map(refreshed(es, k)) == assoc_map(es),
{
    if has_key(es, k) {
        lemma_key_index(es, k);
        let i = key_index(es, k);
        let r = refreshed(es, k);
        assert forall|a: int, b: int| 0 <= a < b < r.len() implies r[a].0 != r[b].0 by {
            lemma_remove_push_index(es, es[i], i, a);
            lemma_remove_push_index(es, es[i], i, b);
        }
        lemma_assoc_map_index(es);
        lemma_assoc_map_index(r);
        assert forall|q: Seq<char>| #[trigger] has_key(r, q) implies has_key(es, q) && assoc_map(
            r,
        )[q] == assoc_map(es)[q] by {
            let a = choose|a: int| 0 <= a < r.len() && r[a].0 == q;
            lemma_remove_push_index(es, es[i], i, a);
            let b = if a == es.len() - 1 {
                i
            } else if a < i {
                a
            } else {
                a + 1
            };
            assert(es[b] == r[a]);
            assert(assoc_map(es)[q] == es[b].1);
            assert(assoc_map(r)[q] == r[a].1);
        }
        assert forall|q: Seq<char>| #[trigger] has_key(es, q) implies has_key(r, q) by {
            let b = choose|b: int| 0 <= b < es.len() && es[b].0 == q;
            let a = if b == i {
                es.len() - 1
            } else if b < i {
                b
            } else {
                b - 1
            };
            lemma_remove_push_index(es, es[i], i, a);
            assert(r[a] == es[b]);
        }
        assert(assoc_map(r) =~= assoc_map(es));
    }
}

/// A write keeps the cache well formed: keys stay distinct and the
/// length never passes the capacity; the written key ends up bound to
/// the written value.
pub proof fn lemma_inserted(es: Seq<(Seq<char>, Seq<char>)>, cap: int, k: Seq<char>, v: Seq<char>)
    requires
        distinct_keys(es),
        cap >= 1,
        es.len() <= cap,
    ensures
        distinct_keys(inserted(es, cap, k, v)),
        inserted(es, cap, k, v).len() <= cap,
        assoc_map(inserted(es, cap, k, v)).contains_key(k),
        assoc_map(inserted(es, cap, k, v))[k] == v,
{
    let r = inserted(es, cap, k, v);
    if has_key(es, k) {
        lemma_key_index(es, k);
        let i = key_index(es, k);
        assert(es.remove(i).len() == es.len() - 1);
        assert forall|a: int, b: int| 0 <= a < b < r.len() implies r[a].0 != r[b].0 by {
            lemma_remove_push_index(es, (k, v), i, a);
            lemma_remove_push_index(es, (k, v), i, b);
            if b < es.len() - 1 {
                assert(r[a].0 != r[b].0);
            } else {
                assert(r[b].0 == k);
                if a < i {
                    assert(es[a].0 != es[i].0);
                } else {
                    assert(es[a + 1].0 != es[i].0);
                }
            }
        }
    } else if es.len() >= cap {
        assert forall|a: int, b: int| 0 <= a < b < r.len() implies r[a].0 != r[b].0 by {
            assert(r[a] == es[a + 1]);
            if b < es.len() - 1 {
                assert(r[b] == es[b + 1]);
            } else {
                assert(r[b] == (k, v));
                assert(es[a + 1].0 != k);
            }
        }
    } else {
        assert forall|a: int, b: int| 0 <= a < b < r.len() implies r[a].0 != r[b].0 by {
            if b == es.len() {
                assert(r[b] == (k, v));
                assert(r[a] == es[a]);
                assert(es[a].0 != k);
            }
        }
    }
    assert(r.len() > 0 && r.last() == (k, v));
    assert(assoc_map(r) == assoc_map(r.drop_last()).insert(k, v));
}

/// A bounded mapping from keys to values with least-recently-used
/// eviction; entries are populated by the loader from successful
/// backend responses and never invalidated here.
pub struct LruCache {
    entries: Vec<(String, String)>,
    cap: usize,
}

impl LruCache {
    /// The entries, least recently used first.
    pub closed spec fn entries_view(self) -> Seq<(Seq<char>, Seq<char>)> {
        self.entries.deep_view()
    }

    /// The capacity the cache was created with.
    pub closed spec fn spec_cap(self) -> int {
        self.cap as int
    }

    /// Well-formedness: a positive capacity bounds the entry count, and
    /// no key appears twice.
    pub open spec fn wf(self) -> bool {
        self.spec_cap() >= 1 && self.entries_view().len() <= self.spec_cap() && distinct_keys(
            self.entries_view(),
        )
    }

    /// The mapping the cache currently holds.
    pub open spec fn as_map(self) -> Map<Seq<char>, Seq<char>> {
        assoc_map(self.entries_view())
    }

    /// An empty cache of capacity `cap`.
    pub fn new(cap: usize) -> (c: Self)
        requires
            cap >= 1,
        ensures
            c.wf(),
            c.spec_cap() == cap,
            c.entries_view() == Seq::<(Seq<char>, Seq<char>)>::empty(),
            c.as_map() == Map::<Seq<char>, Seq<char>>::empty(),
    {
        let c = LruCache { entries: Vec::new(), cap };
        proof {
            assert(c.entries_view() =~= Seq::<(Seq<char>, Seq<char>)>::empty());
        }
        c
    }

    /// The index of the entry carrying `k`, if one does.
    fn find(&self, k: &String) -> (r: Option<usize>)
        ensures
            match r {
                Some(i) => i < self.entries_view().len() && self.entries_view()[i as int].0 == k@
                    && forall|t: int| 0 <= t < i ==> self.entries_view()[t].0 != k@,
                None => !has_key(self.entries_view(), k@),
            },
    {
        let mut i: usize = 0;
        while i < self.entries.len()
            invariant
                0 <= i <= self.entries.len(),
                forall|t: int| 0 <= t < i ==> self.entries_view()[t].0 != k@,
            decreases self.entries.len() - i,
        {
            if self.entries[i].0 == *k {
                assert(self.entries_view()[i as int].0 == k@);
                return Some(i);
            }
            assert(self.entries_view()[i as int].0 != k@);
            i = i + 1;
        }
        assert(!has_key(self.entries_view(), k@));
        None
    }

    /// Reads the value cached for `k`, marking the entry as most
    /// recently used; the mapping itself is unchanged.
    pub fn get(&mut self, k: &String) -> (r: Option<String>)
        requires
            old(self).wf(),
        ensures
            final(self).wf(),
            final(self).spec_cap() == old(self).spec_cap(),
            final(self).entries_view() == refreshed(old(self).entries_view(), k@),
            final(self).as_map() == old(self).as_map(),
            r.deep_view() == if old(self).as_map().contains_key(k@) {
                Some(old(self).as_map()[k@])
            } else {
                None::<Seq<char>>
            },
    {
        let ghost es = self.entries_view();
        let ghost sv = self.entries@;
        proof {
            lemma_assoc_map_index(es);
            lemma_refreshed(es, k@);
        }
        match self.find(k) {
            None => {
                assert(self.entries_view() == refreshed(es, k@));
                None
            },
            Some(i) => {
                proof {
                    lemma_key_index(es, k@);
                    assert(key_index(es, k@) == i as int);
                }
                let e = self.entries.remove(i);
                let val = e.1.clone();
                self.entries.push(e);
                proof {
                    assert(self.entries@ == sv.remove(i as int).push(sv[i as int]));
                    let r = es.remove(i as int).push(es[i as int]);
                    assert forall|t: int|
                        0 <= t < self.entries@.len() implies self.entries_view()[t] == r[t] by {
                        lemma_remove_push_index(sv, sv[i as int], i as int, t);
                        lemma_remove_push_index(es, es[i as int], i as int, t);
                        assert(self.entries_view()[t] == self.entries@[t].deep_view());
                        if t < i as int {
                            assert(es[t] == sv[t].deep_view());
                        } else if t < sv.len() - 1 {
                            assert(es[t + 1] == sv[t + 1].deep_view());
                        } else {
                            assert(es[i as int] == sv[i as int].deep_view());
                        }
                    }
                    assert(self.entries_view() =~= refreshed(es, k@));
                    assert(assoc_map(es)[k@] == es[i as int].1);
                }
                Some(val)
            },
        }
    }

    /// Writes `k -> v` as the most recently used entry, evicting the
    /// least recently used entry if the cache is full and `k` is new.
    pub fn insert(&mut self, k: String, v: String)
        requires
            old(self).wf(),
        ensures
            final(self).wf(),
            final(self).spec_cap() == old(self).spec_cap(),
            final(self).entries_view() == inserted(
                old(self).entries_view(),
                old(self).spec_cap(),
                k@,
                v@,
            ),
            final(self).as_map().contains_key(k@),
            final(self).as_map()[k@] == v@,
    {
        let ghost es = self.entries_view();
        let ghost sv = self.entries@;
        let ghost kv = k@;
        let ghost vv = v@;
        proof {
            lemma_inserted(es, self.spec_cap(), kv, vv);
        }
        match self.find(&k) {
            Some(i) => {
                proof {
                    lemma_key_index(es, kv);
                    assert(key_index(es, kv) == i as int);
                }
                self.entries.remove(i);
                self.entries.push((k, v));
                proof {
                    assert(self.entries@ == sv.remove(i as int).push(
                        self.entries@[sv.len() - 1],
                    ));
                    let x = self.entries@[sv.len() - 1];
                    assert(x.deep_view() == (kv, vv));
                    let r = es.remove(i as int).push((kv, vv));
                    assert forall|t: int|
                        0 <= t < self.entries@.len() implies self.entries_view()[t] == r[t] by {
                        lemma_remove_push_index(sv, x, i as int, t);
                        lemma_remove_push_index(es, (kv, vv), i as int, t);
                        assert(self.entries_view()[t] == self.entries@[t].deep_view());
                        if t < i as int {
                            assert(es[t] == sv[t].deep_view());
                        } else if t < sv.len() - 1 {
                            assert(es[t + 1] == sv[t + 1].deep_view());
                        }
                    }
                    assert(self.entries_view() =~= inserted(es, self.spec_cap(), kv, vv));
                }
            },
            None => {
                if self.entries.len() == self.cap {
                    self.entries.remove(0);
                    self.entries.push((k, v));
                    proof {
                        assert(self.entries@ == sv.remove(0).push(self.entries@[sv.len() - 1]));
                        let x = self.entries@[sv.len() - 1];
                        assert(x.deep_view() == (kv, vv));
                        let r = es.skip(1).push((kv, vv));
                        assert(es.remove(0) =~= es.skip(1));
                        assert forall|t: int|
                            0 <= t < self.entries@.len() implies self.entries_view()[t]
                            == r[t] by {
                            lemma_remove_push_index(sv, x, 0, t);
                            lemma_remove_push_index(es, (kv, vv), 0, t);
                            assert(self.entries_view()[t] == self.entries@[t].deep_view());
                            if t < sv.len() - 1 {
                                assert(es[t + 1] == sv[t + 1].deep_view());
                            }
                        }
                        assert(self.entries_view() =~= inserted(es, self.spec_cap(), kv, vv));
                    }
                } else {
                    self.entries.push((k, v));
                    proof {
                        assert(self.entries@ == sv.push(self.entries@[sv.len() as int]));
                        let x = self.entries@[sv.len() as int];
                        assert(x.deep_view() == (kv, vv));
                        assert forall|t: int|
                            0 <= t < self.entries@.len() implies self.entries_view()[t] == es.push(
                            (kv, vv),
                        )[t] by {
                            assert(self.entries_view()[t] == self.entries@[t].deep_view());
                            if t < sv.len() {
                                assert(self.entries@[t] == sv[t]);
                                assert(es[t] == sv[t].deep_view());
                            }
                        }
                        assert(self.entries_view() =~= inserted(es, self.spec_cap(), kv, vv));
                    }
                }
            },
        }
    }
}

} // verus!
