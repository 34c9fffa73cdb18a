//! The batch loader: keys requested within one coalescing window are
//! deduplicated in first-seen order, keys the cache holds are served
//! from it, and the rest are split into chunks no larger than the
//! maximum batch size, one backend call each.  The values a backend
//! call returns are paired with the chunk's keys positionally — the
//! pairing is not re-validated against the keys, so a backend that
//! reorders or drops entries would silently associate a key with the
//! wrong value; this known risk is preserved deliberately.  A missing
//! value is normalized to the empty string.  A failed call fails every
//! key of its chunk and no key of any other chunk.
use vstd::prelude::*;

use crate::cache::LruCache;
use crate::cache::assoc_map;
use crate::cache::inserted;
use crate::cache::refreshed;
use crate::keyseq::chunk_keys;
use crate::keyseq::chunks_of;
use crate::keyseq::dedup_keys;
use crate::keyseq::first_seen;

verus! {

/// The empty string for a missing value: absence is not an error.
pub open spec fn unwrap_or_empty(v: Option<Seq<char>>) -> Seq<char> {
    match v {
        Some(s) => s,
        None => Seq::empty(),
    }
}

/// The chunk's keys zipped positionally with the returned values,
/// missing values normalized to the empty string.  Extra keys (a short
/// response) or extra values are dropped, exactly as a positional zip
/// drops them.
pub open spec fn pair_chunk(ks: Seq<Seq<char>>, vs: Seq<Option<Seq<char>>>) -> Seq<
    (Seq<char>, Seq<char>),
> {
    Seq::new(
        if ks.len() <= vs.len() {
            ks.len()
        } else {
            vs.len()
        },
        |i: int| (ks[i], unwrap_or_empty(vs[i])),
    )
}

/// The keys of `ks` that `m` holds, each paired with its value, in
/// order.
pub open spec fn cache_hits(ks: Seq<Seq<char>>, m: Map<Seq<char>, Seq<char>>) -> Seq<
    (Seq<char>, Seq<char>),
>
    decreases ks.len(),
{
    if ks.len() == 0 {
        Seq::empty()
    } else {
        let init = cache_hits(ks.drop_last(), m);
        if m.contains_key(ks.last()) {
            init.push((ks.last(), m[ks.last()]))
        } else {
            init
        }
    }
}

/// The keys of `ks` that `m` does not hold, in order.
pub open spec fn cache_misses(ks: Seq<Seq<char>>, m: Map<Seq<char>, Seq<char>>) -> Seq<Seq<char>>
    decreases ks.len(),
{
    if ks.len() == 0 {
        Seq::empty()
    } else {
        let init = cache_misses(ks.drop_last(), m);
        if m.contains_key(ks.last()) {
            init
        } else {
            init.push(ks.last())
        }
    }
}

/// What one backend call came back with: the values for the chunk's
/// keys, or a failure of the whole call.
pub enum ChunkResponse {
    Values(Vec<Option<String>>),
    Failure,
}

/// A response's mathematical shape: the value sequence of a successful
/// call, or nothing for a failed one.
pub open spec fn response_view(r: ChunkResponse) -> Option<Seq<Option<Seq<char>>>> {
    match r {
        ChunkResponse::Values(vs) => Some(vs.deep_view()),
        ChunkResponse::Failure => None,
    }
}

/// The views of a sequence of responses.
pub open spec fn responses_view(rs: Seq<ChunkResponse>) -> Seq<Option<Seq<Option<Seq<char>>>>> {
    rs.map_values(|r: ChunkResponse| response_view(r))
}

/// The value sequence of a successful response, or empty for a failure.
pub open spec fn some_vals(r: Option<Seq<Option<Seq<char>>>>) -> Seq<Option<Seq<char>>> {
    match r {
        Some(vs) => vs,
        None => Seq::empty(),
    }
}

/// The key-value pairs of every successful chunk, in chunk order.
pub open spec fn fetched_pairs(
    chunks: Seq<Seq<Seq<char>>>,
    rs: Seq<Option<Seq<Option<Seq<char>>>>>,
) -> Seq<(Seq<char>, Seq<char>)>
    decreases chunks.len(),
{
    if chunks.len() == 0 || rs.len() == 0 {
        Seq::empty()
    } else {
        fetched_pairs(chunks.drop_last(), rs.drop_last()) + (match rs.last() {
            Some(vs) => pair_chunk(chunks.last(), vs),
            None => Seq::empty(),
        })
    }
}

/// The keys of every failed chunk, in chunk order.
pub open spec fn failed_keys(
    chunks: Seq<Seq<Seq<char>>>,
    rs: Seq<Option<Seq<Option<Seq<char>>>>>,
) -> Seq<Seq<char>>
    decreases chunks.len(),
{
    if chunks.len() == 0 || rs.len() == 0 {
        Seq::empty()
    } else {
        failed_keys(chunks.drop_last(), rs.drop_last()) + (match rs.last() {
            Some(_) => Seq::empty(),
            None => chunks.last(),
        })
    }
}

/// A cache after reading a sequence of keys, one after the other:
/// each key it holds moves to the most recent end in turn.
pub open spec fn refresh_fold(
    es: Seq<(Seq<char>, Seq<char>)>,
    ks: Seq<Seq<char>>,
) -> Seq<(Seq<char>, Seq<char>)>
    decreases ks.len(),
{
    if ks.len() == 0 {
        es
    } else {
        refreshed(refresh_fold(es, ks.drop_last()), ks.last())
    }
}

/// A cache after writing a sequence of pairs, one after the other.
pub open spec fn insert_fold(
    es: Seq<(Seq<char>, Seq<char>)>,
    cap: int,
    ps: Seq<(Seq<char>, Seq<char>)>,
) -> Seq<(Seq<char>, Seq<char>)>
    decreases ps.len(),
{
    if ps.len() == 0 {
        es
    } else {
        inserted(insert_fold(es, cap, ps.drop_last()), cap, ps.last().0, ps.last().1)
    }
}

/// What one coalescing window must fetch: the keys served from the
/// cache with their values, and the chunks of keys to request from the
/// backend, one call per chunk.
pub struct LoadPlan {
    pub hits: Vec<(String, String)>,
    pub chunks: Vec<Vec<String>>,
}

/// The outcome of one window: each resolved key with its value, and
/// the keys whose chunk's backend call failed.
pub struct WindowResult {
    pub resolved: Vec<(String, String)>,
    pub failed: Vec<String>,
}

/// The chunk's keys paired positionally with the returned values,
/// missing values normalized to the empty string.
pub fn pair_loaded(keys: &Vec<String>, vals: &Vec<Option<String>>) -> (r: Vec<(String, String)>)
    ensures
        r.deep_view() == pair_chunk(keys.deep_view(), vals.deep_view()),
{
    let ghost kv = keys.deep_view();
    let ghost vv = vals.deep_view();
    let n = if keys.len() <= vals.len() {
        keys.len()
    } else {
        vals.len()
    };
    let mut r: Vec<(String, String)> = Vec::new();
    let mut j: usize = 0;
    while j < n
        invariant
            0 <= j <= n,
            n == if kv.len() <= vv.len() {
                kv.len()
            } else {
                vv.len()
            },
            kv == keys.deep_view(),
            vv == vals.deep_view(),
            r.deep_view().len() == j,
            forall|t: int| 0 <= t < j ==> r.deep_view()[t] == (kv[t], unwrap_or_empty(vv[t])),
        decreases n - j,
    {
        let v = match &vals[j] {
            Some(s) => s.clone(),
            None => String::new(),
        };
        proof {
            assert(vals@[j as int].deep_view() == vv[j as int]);
            assert(v@ == unwrap_or_empty(vv[j as int]));
        }
        let ghost rd = r.deep_view();
        let ghost rs = r@;
        r.push((keys[j].clone(), v));
        proof {
            assert(r@ == rs.push(r@[rs.len() as int]));
            assert(r@[rs.len() as int].deep_view() == (kv[j as int], unwrap_or_empty(
                vv[j as int],
            )));
            assert forall|t: int| 0 <= t < r@.len() implies r.deep_view()[t] == rd.push(
                (kv[j as int], unwrap_or_empty(vv[j as int])),
            )[t] by {
                if t < rs.len() {
                    assert(r@[t] == rs[t]);
                    assert(rd[t] == rs[t].deep_view());
                }
            }
        }
        j = j + 1;
    }
    proof {
        assert(r.deep_view() =~= pair_chunk(kv, vv));
    }
    r
}

/// Appends a copy of every key of `src` to `dst`.
fn push_all_keys(dst: &mut Vec<String>, src: &Vec<String>)
    ensures
        final(dst).deep_view() == old(dst).deep_view() + src.deep_view(),
{
    let ghost d0 = old(dst).deep_view();
    let ghost sv = src.deep_view();
    let mut j: usize = 0;
    while j < src.len()
        invariant
            0 <= j <= src.len(),
            sv == src.deep_view(),
            dst.deep_view() == d0 + sv.take(j as int),
        decreases src.len() - j,
    {
        let ghost rd = dst.deep_view();
        let ghost rs = dst@;
        dst.push(src[j].clone());
        proof {
            assert(dst@ == rs.push(dst@[rs.len() as int]));
            assert(dst@[rs.len() as int]@ == sv[j as int]);
            assert forall|t: int| 0 <= t < dst@.len() implies dst.deep_view()[t] == rd.push(
                sv[j as int],
            )[t] by {
                if t < rs.len() {
                    assert(dst@[t] == rs[t]);
                    assert(rd[t] == rs[t]@);
                }
            }
            assert(dst.deep_view() =~= rd.push(sv[j as int]));
            assert(rd.push(sv[j as int]) =~= d0 + sv.take(j + 1));
        }
        j = j + 1;
    }
    proof {
        assert(sv.take(sv.len() as int) =~= sv);
    }
}

/// Appends a copy of every pair of `src` to `dst`.
fn push_all_pairs(dst: &mut Vec<(String, String)>, src: &Vec<(String, String)>)
    ensures
        final(dst).deep_view() == old(dst).deep_view() + src.deep_view(),
{
    let ghost d0 = old(dst).deep_view();
    let ghost sv = src.deep_view();
    let mut j: usize = 0;
    while j < src.len()
        invariant
            0 <= j <= src.len(),
            sv == src.deep_view(),
            dst.deep_view() == d0 + sv.take(j as int),
        decreases src.len() - j,
    {
        let ghost rd = dst.deep_view();
        let ghost rs = dst@;
        let p = (src[j].0.clone(), src[j].1.clone());
        dst.push(p);
        proof {
            assert(dst@ == rs.push(dst@[rs.len() as int]));
            assert(dst@[rs.len() as int].deep_view() == sv[j as int]);
            assert forall|t: int| 0 <= t < dst@.len() implies dst.deep_view()[t] == rd.push(
                sv[j as int],
            )[t] by {
                if t < rs.len() {
                    assert(dst@[t] == rs[t]);
                    assert(rd[t] == rs[t].deep_view());
                }
            }
            assert(dst.deep_view() =~= rd.push(sv[j as int]));
            assert(rd.push(sv[j as int]) =~= d0 + sv.take(j + 1));
        }
        j = j + 1;
    }
    proof {
        assert(sv.take(sv.len() as int) =~= sv);
    }
}

/// A batching loader: requests gathered within one window are
/// deduplicated, optionally served from a bounded cache, and dispatched
/// to the backend in chunks of at most `max_batch` keys.  The backend
/// calls themselves stay with the caller: `plan` says what to fetch,
/// and `finish` distributes the responses.
pub struct BatchLoader {
    max_batch: usize,
    caching: bool,
    cache: LruCache,
}

impl BatchLoader {
    /// The maximum number of keys one backend call may carry.
    pub closed spec fn spec_max_batch(self) -> int {
        self.max_batch as int
    }

    /// Whether this loader carries a cache.
    pub closed spec fn spec_caching(self) -> bool {
        self.caching
    }

    /// The cache's entries, least recently used first; empty for a
    /// loader without a cache.
    pub closed spec fn cache_entries(self) -> Seq<(Seq<char>, Seq<char>)> {
        self.cache.entries_view()
    }

    /// The mapping the cache currently holds; empty for a loader
    /// without a cache.
    pub open spec fn cache_map(self) -> Map<Seq<char>, Seq<char>> {
        assoc_map(self.cache_entries())
    }

    /// The capacity of the loader's cache.
    pub closed spec fn spec_cache_cap(self) -> int {
        self.cache.spec_cap()
    }

    /// Well-formedness: a positive batch size, a well-formed cache, and
    /// no entries unless the loader caches.
    pub closed spec fn wf(self) -> bool {
        &&& self.spec_max_batch() >= 1
        &&& self.cache.wf()
        &&& (!self.spec_caching() ==> self.cache_entries() == Seq::<(Seq<char>, Seq<char>)>::empty())
    }

    /// A loader without a cache: every distinct key of every window is
    /// fetched from the backend.
    pub fn new(max_batch: usize) -> (l: Self)
        requires
            max_batch >= 1,
        ensures
            l.wf(),
            l.spec_max_batch() == max_batch,
            !l.spec_caching(),
            l.cache_entries() == Seq::<(Seq<char>, Seq<char>)>::empty(),
    {
        BatchLoader { max_batch, caching: false, cache: LruCache::new(1) }
    }

    /// A loader backed by a least-recently-used cache of `capacity`
    /// entries, shared across the windows of this loader instance.
    pub fn with_cache(max_batch: usize, capacity: usize) -> (l: Self)
        requires
            max_batch >= 1,
            capacity >= 1,
        ensures
            l.wf(),
            l.spec_max_batch() == max_batch,
            l.spec_caching(),
            l.cache_entries() == Seq::<(Seq<char>, Seq<char>)>::empty(),
            l.cache_map() == Map::<Seq<char>, Seq<char>>::empty(),
    {
        BatchLoader { max_batch, caching: true, cache: LruCache::new(capacity) }
    }

    /// Opens a coalescing window over `keys`: deduplicates them in
    /// first-seen order, serves what the cache holds, and splits the
    /// rest into chunks of at most the maximum batch size, each chunk
    /// one backend call.  Cache reads refresh recency but change no
    /// binding.
    pub fn plan(&mut self, keys: &Vec<String>) -> (p: LoadPlan)
        requires
            old(self).wf(),
        ensures
            final(self).wf(),
            final(self).spec_max_batch() == old(self).spec_max_batch(),
            final(self).spec_caching() == old(self).spec_caching(),
            final(self).cache_map() == old(self).cache_map(),
            old(self).spec_caching() ==> final(self).cache_entries() == refresh_fold(
                old(self).cache_entries(),
                first_seen(keys.deep_view()),
            ),
            !old(self).spec_caching() ==> final(self).cache_entries() == old(
                self,
            ).cache_entries(),
            p.hits.deep_view() == cache_hits(first_seen(keys.deep_view()), old(self).cache_map()),
            p.chunks.deep_view() == chunks_of(
                cache_misses(first_seen(keys.deep_view()), old(self).cache_map()),
                old(self).spec_max_batch() as int,
            ),
    {
        let ghost m0 = self.cache_map();
        let distinct = dedup_keys(keys);
        let ghost dv = distinct.deep_view();
        let mut hits: Vec<(String, String)> = Vec::new();
        let mut misses: Vec<String> = Vec::new();
        proof {
            assert(hits.deep_view() =~= cache_hits(dv.take(0), m0));
            assert(misses.deep_view() =~= cache_misses(dv.take(0), m0));
        }
        let mut i: usize = 0;
        while i < distinct.len()
            invariant
                0 <= i <= distinct.len(),
                dv == distinct.deep_view(),
                self.max_batch == old(self).max_batch,
                self.caching == old(self).caching,
                self.cache.wf(),
                self.cache.spec_cap() == old(self).cache.spec_cap(),
                self.cache.as_map() == old(self).cache.as_map(),
                !self.caching ==> self.cache.entries_view() == Seq::<(Seq<char>, Seq<char>)>::empty(),
                m0 == old(self).cache_map(),
                assoc_map(self.cache.entries_view()) == assoc_map(old(self).cache.entries_view()),
                self.caching ==> self.cache.entries_view() == refresh_fold(
                    old(self).cache.entries_view(),
                    dv.take(i as int),
                ),
                hits.deep_view() == cache_hits(dv.take(i as int), m0),
                misses.deep_view() == cache_misses(dv.take(i as int), m0),
            decreases distinct.len() - i,
        {
            proof {
                assert(dv.take(i + 1).drop_last() =~= dv.take(i as int));
                assert(dv.take(i + 1).last() == dv[i as int]);
                assert(dv[i as int] == distinct@[i as int]@);
            }
            let k = &distinct[i];
            let cached = if self.caching {
                self.cache.get(k)
            } else {
                proof {
                    assert(self.cache.entries_view() =~= Seq::<(Seq<char>, Seq<char>)>::empty());
                    assert(!m0.contains_key(k@));
                }
                None
            };
            match cached {
                Some(v) => {
                    let ghost rd = hits.deep_view();
                    let ghost rs = hits@;
                    hits.push((k.clone(), v));
                    proof {
                        assert(hits@ == rs.push(hits@[rs.len() as int]));
                        assert(hits@[rs.len() as int].deep_view() == (
                            dv[i as int],
                            m0[dv[i as int]],
                        ));
                        assert forall|t: int| 0 <= t < hits@.len() implies hits.deep_view()[t]
                            == rd.push((dv[i as int], m0[dv[i as int]]))[t] by {
                            if t < rs.len() {
                                assert(hits@[t] == rs[t]);
                                assert(rd[t] == rs[t].deep_view());
                            }
                        }
                        assert(hits.deep_view() =~= cache_hits(dv.take(i + 1), m0));
                    }
                },
                None => {
                    let ghost rd = misses.deep_view();
                    let ghost rs = misses@;
                    misses.push(k.clone());
                    proof {
                        assert(misses@ == rs.push(misses@[rs.len() as int]));
                        assert(misses@[rs.len() as int]@ == dv[i as int]);
                        assert forall|t: int| 0 <= t < misses@.len() implies misses.deep_view()[t]
                            == rd.push(dv[i as int])[t] by {
                            if t < rs.len() {
                                assert(misses@[t] == rs[t]);
                                assert(rd[t] == rs[t]@);
                            }
                        }
                        assert(misses.deep_view() =~= cache_misses(dv.take(i + 1), m0));
                    }
                },
            }
            i = i + 1;
        }
        proof {
            assert(dv.take(dv.len() as int) =~= dv);
        }
        let chunks = chunk_keys(&misses, self.max_batch);
        LoadPlan { hits, chunks }
    }

    /// Closes a window: pairs each successful chunk's keys with its
    /// returned values positionally (missing values become the empty
    /// string), writes the fetched pairs into the cache, and collects
    /// the keys of failed chunks; a failed chunk affects no other
    /// chunk and writes nothing to the cache.
    pub fn finish(&mut self, plan: &LoadPlan, responses: &Vec<ChunkResponse>) -> (w: WindowResult)
        requires
            old(self).wf(),
            responses@.len() == plan.chunks@.len(),
        ensures
            final(self).wf(),
            final(self).spec_max_batch() == old(self).spec_max_batch(),
            final(self).spec_caching() == old(self).spec_caching(),
            w.resolved.deep_view() == plan.hits.deep_view() + fetched_pairs(
                plan.chunks.deep_view(),
                responses_view(responses@),
            ),
            w.failed.deep_view() == failed_keys(
                plan.chunks.deep_view(),
                responses_view(responses@),
            ),
            old(self).spec_caching() ==> final(self).cache_entries() == insert_fold(
                old(self).cache_entries(),
                old(self).spec_cache_cap(),
                fetched_pairs(plan.chunks.deep_view(), responses_view(responses@)),
            ),
            !old(self).spec_caching() ==> final(self).cache_entries() == old(
                self,
            ).cache_entries(),
    {
        let ghost cv = plan.chunks.deep_view();
        let ghost rv = responses_view(responses@);
        let ghost es0 = self.cache.entries_view();
        let ghost cap = self.cache.spec_cap();
        let mut resolved: Vec<(String, String)> = Vec::new();
        push_all_pairs(&mut resolved, &plan.hits);
        let mut failed: Vec<String> = Vec::new();
        proof {
            assert(resolved.deep_view() =~= plan.hits.deep_view());
            assert(failed.deep_view() =~= Seq::<Seq<char>>::empty());
            assert(fetched_pairs(cv.take(0), rv.take(0)) =~= Seq::<(Seq<char>, Seq<char>)>::empty());
            assert(failed_keys(cv.take(0), rv.take(0)) =~= Seq::<Seq<char>>::empty());
            assert(resolved.deep_view() =~= plan.hits.deep_view() + fetched_pairs(
                cv.take(0),
                rv.take(0),
            ));
        }
        let mut i: usize = 0;
        while i < plan.chunks.len()
            invariant
                0 <= i <= plan.chunks.len(),
                cv == plan.chunks.deep_view(),
                rv == responses_view(responses@),
                responses@.len() == plan.chunks@.len(),
                plan.chunks@.len() == cv.len(),
                self.max_batch == old(self).max_batch,
                self.caching == old(self).caching,
                self.cache.wf(),
                self.cache.spec_cap() == cap,
                es0 == old(self).cache.entries_view(),
                self.caching ==> self.cache.entries_view() == insert_fold(
                    es0,
                    cap,
                    fetched_pairs(cv.take(i as int), rv.take(i as int)),
                ),
                !self.caching ==> self.cache.entries_view() == es0,
                resolved.deep_view() == plan.hits.deep_view() + fetched_pairs(
                    cv.take(i as int),
                    rv.take(i as int),
                ),
                failed.deep_view() == failed_keys(cv.take(i as int), rv.take(i as int)),
            decreases plan.chunks.len() - i,
        {
            proof {
                assert(cv.take(i + 1).drop_last() =~= cv.take(i as int));
                assert(rv.take(i + 1).drop_last() =~= rv.take(i as int));
                assert(cv.take(i + 1).last() == cv[i as int]);
                assert(rv.take(i + 1).last() == rv[i as int]);
                assert(rv[i as int] == response_view(responses@[i as int]));
                assert(cv[i as int] == plan.chunks@[i as int].deep_view());
            }
            let chunk = &plan.chunks[i];
            match &responses[i] {
                ChunkResponse::Values(vs) => {
                    let pairs = pair_loaded(chunk, vs);
                    let ghost pv = pairs.deep_view();
                    proof {
                        assert(pv == pair_chunk(cv[i as int], some_vals(rv[i as int])));
                    }
                    if self.caching {
                        let ghost fp0 = fetched_pairs(cv.take(i as int), rv.take(i as int));
                        let mut j: usize = 0;
                        while j < pairs.len()
                            invariant
                                0 <= j <= pairs.len(),
                                pv == pairs.deep_view(),
                                self.caching == old(self).caching,
                                self.max_batch == old(self).max_batch,
                                self.cache.wf(),
                                self.cache.spec_cap() == cap,
                                self.cache.entries_view() == insert_fold(
                                    es0,
                                    cap,
                                    fp0 + pv.take(j as int),
                                ),
                            decreases pairs.len() - j,
                        {
                            proof {
                                assert((fp0 + pv.take(j as int)).push(pv[j as int]) =~= fp0
                                    + pv.take(j + 1));
                                assert((fp0 + pv.take(j + 1)).drop_last() =~= fp0 + pv.take(
                                    j as int,
                                ));
                                assert(pairs@[j as int].deep_view() == pv[j as int]);
                            }
                            self.cache.insert(pairs[j].0.clone(), pairs[j].1.clone());
                            j = j + 1;
                        }
                        proof {
                            assert(pv.take(pv.len() as int) =~= pv);
                        }
                    }
                    push_all_pairs(&mut resolved, &pairs);
                    proof {
                        assert(resolved.deep_view() =~= plan.hits.deep_view() + fetched_pairs(
                            cv.take(i + 1),
                            rv.take(i + 1),
                        ));
                        assert(failed.deep_view() =~= failed_keys(cv.take(i + 1), rv.take(i + 1)));
                        if self.caching {
                            assert(fetched_pairs(cv.take(i as int), rv.take(i as int)) + pv
                                =~= fetched_pairs(cv.take(i + 1), rv.take(i + 1)));
                        }
                    }
                },
                ChunkResponse::Failure => {
                    push_all_keys(&mut failed, chunk);
                    proof {
                        assert(fetched_pairs(cv.take(i + 1), rv.take(i + 1)) =~= fetched_pairs(
                            cv.take(i as int),
                            rv.take(i as int),
                        ));
                        assert(resolved.deep_view() =~= plan.hits.deep_view() + fetched_pairs(
                            cv.take(i + 1),
                            rv.take(i + 1),
                        ));
                        assert(failed.deep_view() =~= failed_keys(cv.take(i + 1), rv.take(i + 1)));
                    }
                },
            }
            i = i + 1;
        }
        proof {
            assert(cv.take(cv.len() as int) =~= cv);
            assert(rv.take(rv.len() as int) =~= rv);
            assert(rv.len() == cv.len());
        }
        WindowResult { resolved, failed }
    }
}

} // verus!
