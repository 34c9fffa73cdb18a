//! Window-level laws of the batch loader, stated over the spec
//! functions that the loader's contracts use.
use vstd::prelude::*;

use crate::keyseq::chunks_of;
use crate::keyseq::first_seen;
use crate::keyseq::lemma_chunks_count;
use crate::keyseq::lemma_chunks_flatten;
use crate::keyseq::lemma_first_seen_contains;
use crate::loader::cache_hits;
use crate::loader::cache_misses;
use crate::loader::failed_keys;
use crate::loader::fetched_pairs;
use crate::loader::pair_chunk;
use crate::loader::some_vals;

verus! {

/// An empty cache serves nothing: every distinct key goes to the
/// backend, in first-seen order.
pub proof fn lemma_cold_cache(ks: Seq<Seq<char>>)
    ensures
        cache_misses(ks, Map::empty()) == ks,
        cache_hits(ks, Map::empty()) == Seq::<(Seq<char>, Seq<char>)>::empty(),
    decreases ks.len(),
{
    if ks.len() == 0 {
        assert(cache_misses(ks, Map::<Seq<char>, Seq<char>>::empty()) =~= ks);
    } else {
        lemma_cold_cache(ks.drop_last());
        assert(cache_misses(ks, Map::<Seq<char>, Seq<char>>::empty()) =~= ks);
    }
}

/// A non-empty window of at most `cap` distinct keys, served by no
/// cache, dispatches exactly one backend call, and that call carries
/// exactly the distinct requested keys in first-seen order.
pub proof fn lemma_single_call(keys: Seq<Seq<char>>, cap: int)
    requires
        cap >= 1,
        1 <= first_seen(keys).len() <= cap,
    ensures
        chunks_of(cache_misses(first_seen(keys), Map::empty()), cap) == seq![first_seen(keys)],
{
    lemma_cold_cache(first_seen(keys));
}

/// A window of more distinct keys than `cap`, served by no cache,
/// dispatches exactly `ceil(distinct / cap)` backend calls, none
/// carrying more than `cap` keys, and together they carry exactly the
/// distinct keys in first-seen order.
pub proof fn lemma_call_count(keys: Seq<Seq<char>>, cap: int)
    requires
        cap >= 1,
    ensures
        chunks_of(cache_misses(first_seen(keys), Map::empty()), cap).len() == (first_seen(
            keys,
        ).len() + cap - 1) / cap,
        forall|i: int|
            0 <= i < chunks_of(cache_misses(first_seen(keys), Map::empty()), cap).len()
                ==> (#[trigger] chunks_of(cache_misses(first_seen(keys), Map::empty()), cap)[i]).len()
                <= cap,
        chunks_of(cache_misses(first_seen(keys), Map::empty()), cap).flatten() == first_seen(keys),
{
    lemma_cold_cache(first_seen(keys));
    lemma_chunks_count(first_seen(keys), cap);
    lemma_chunks_flatten(first_seen(keys), cap);
}

/// A request for a key already requested within the window adds
/// nothing to it: both requesters share the one entry, hence the one
/// underlying fetch.
pub proof fn lemma_duplicate_key_merged(keys: Seq<Seq<char>>, k: Seq<char>)
    requires
        keys.contains(k),
    ensures
        first_seen(keys.push(k)) == first_seen(keys),
{
    lemma_first_seen_contains(keys, k);
    assert(keys.push(k).drop_last() =~= keys);
    assert(keys.push(k).last() == k);
}

/// A value the backend leaves out is normalized to the empty string
/// for its key — absence, not an error.
pub proof fn lemma_absence_normalized(ks: Seq<Seq<char>>, vs: Seq<Option<Seq<char>>>, j: int)
    requires
        0 <= j < ks.len(),
        j < vs.len(),
        vs[j] is None,
    ensures
        pair_chunk(ks, vs)[j] == (ks[j], Seq::<char>::empty()),
{
}

/// Keys the cache holds are served from it: a window whose every key
/// the cache holds dispatches no backend call at all, and every key is
/// answered with its cached value.
pub proof fn lemma_cache_hit_no_call(keys: Seq<Seq<char>>, m: Map<Seq<char>, Seq<char>>, cap: int)
    requires
        cap >= 1,
        forall|k: Seq<char>| keys.contains(k) ==> m.contains_key(k),
    ensures
        chunks_of(cache_misses(first_seen(keys), m), cap) == Seq::<Seq<Seq<char>>>::empty(),
        cache_hits(first_seen(keys), m).len() == first_seen(keys).len(),
        forall|i: int|
            0 <= i < first_seen(keys).len() ==> #[trigger] cache_hits(first_seen(keys), m)[i] == (
                first_seen(keys)[i],
                m[first_seen(keys)[i]],
            ),
{
    let fs = first_seen(keys);
    assert forall|i: int| 0 <= i < fs.len() implies m.contains_key(#[trigger] fs[i]) by {
        lemma_first_seen_contains(keys, fs[i]);
        assert(fs.contains(fs[i]));
        assert(keys.contains(fs[i]));
    }
    lemma_all_hits(fs, m);
}

/// When a mapping holds every key of `ks`, none misses and each hits
/// with its mapped value.
proof fn lemma_all_hits(ks: Seq<Seq<char>>, m: Map<Seq<char>, Seq<char>>)
    requires
        forall|i: int| 0 <= i < ks.len() ==> m.contains_key(#[trigger] ks[i]),
    ensures
        cache_misses(ks, m) == Seq::<Seq<char>>::empty(),
        cache_hits(ks, m).len() == ks.len(),
        forall|i: int|
            0 <= i < ks.len() ==> #[trigger] cache_hits(ks, m)[i] == (ks[i], m[ks[i]]),
    decreases ks.len(),
{
    if ks.len() == 0 {
        assert(cache_misses(ks, m) =~= Seq::<Seq<char>>::empty());
    } else {
        let init = ks.drop_last();
        assert(forall|i: int| 0 <= i < init.len() ==> m.contains_key(#[trigger] init[i]));
        lemma_all_hits(init, m);
        assert(m.contains_key(ks[ks.len() - 1]));
        assert(cache_misses(ks, m) =~= Seq::<Seq<char>>::empty());
        assert forall|i: int| 0 <= i < ks.len() implies #[trigger] cache_hits(ks, m)[i] == (
            ks[i],
            m[ks[i]],
        ) by {
            if i < ks.len() - 1 {
                assert(cache_hits(ks, m)[i] == cache_hits(init, m)[i]);
                assert(init[i] == ks[i]);
            }
        }
    }
}

/// Failure isolation: a failed chunk fails exactly its own keys, and
/// every key of every successful chunk still resolves, paired with the
/// value at its position.
pub proof fn lemma_failure_isolation(
    chunks: Seq<Seq<Seq<char>>>,
    rs: Seq<Option<Seq<Option<Seq<char>>>>>,
)
    requires
        chunks.len() == rs.len(),
    ensures
        forall|i: int, j: int|
            0 <= i < chunks.len() && rs[i] is Some && 0 <= j < pair_chunk(
                chunks[i],
                some_vals(rs[i]),
            ).len() ==> fetched_pairs(chunks, rs).contains(
                #[trigger] pair_chunk(chunks[i], some_vals(rs[i]))[j],
            ),
        forall|i: int, j: int|
            0 <= i < chunks.len() && rs[i] is None && 0 <= j < chunks[i].len() ==> failed_keys(
                chunks,
                rs,
            ).contains(#[trigger] chunks[i][j]),
        forall|k: Seq<char>|
            failed_keys(chunks, rs).contains(k) ==> exists|i: int|
                0 <= i < chunks.len() && rs[i] is None && (#[trigger] chunks[i]).contains(k),
    decreases chunks.len(),
{
    broadcast use vstd::seq_lib::group_seq_properties;

    if chunks.len() > 0 {
        let ci = chunks.drop_last();
        let ri = rs.drop_last();
        lemma_failure_isolation(ci, ri);
        let fp = fetched_pairs(chunks, rs);
        let fk = failed_keys(chunks, rs);
        assert forall|i: int, j: int|
            0 <= i < chunks.len() && rs[i] is Some && 0 <= j < pair_chunk(
                chunks[i],
                some_vals(rs[i]),
            ).len() implies fp.contains(#[trigger] pair_chunk(chunks[i], some_vals(rs[i]))[j]) by {
            let p = pair_chunk(chunks[i], some_vals(rs[i]))[j];
            if i < chunks.len() - 1 {
                assert(ci[i] == chunks[i] && ri[i] == rs[i]);
                assert(fetched_pairs(ci, ri).contains(p));
            } else {
                let tail = pair_chunk(chunks.last(), some_vals(rs.last()));
                assert(tail[j] == p);
                assert(tail.contains(p));
            }
            assert(fp.contains(p));
        }
        assert forall|i: int, j: int|
            0 <= i < chunks.len() && rs[i] is None && 0 <= j < chunks[i].len() implies fk.contains(
            #[trigger] chunks[i][j],
        ) by {
            let k = chunks[i][j];
            if i < chunks.len() - 1 {
                assert(ci[i] == chunks[i] && ri[i] == rs[i]);
                assert(failed_keys(ci, ri).contains(k));
            } else {
                assert(chunks.last().contains(k));
            }
            assert(fk.contains(k));
        }
        assert forall|k: Seq<char>| fk.contains(k) implies exists|i: int|
            0 <= i < chunks.len() && rs[i] is None && (#[trigger] chunks[i]).contains(k) by {
            let tail: Seq<Seq<char>> = match rs.last() {
                Some(_) => Seq::empty(),
                None => chunks.last(),
            };
            assert(fk == failed_keys(ci, ri) + tail);
            if failed_keys(ci, ri).contains(k) {
                let i = choose|i: int|
                    0 <= i < ci.len() && ri[i] is None && (#[trigger] ci[i]).contains(k);
                assert(chunks[i] == ci[i] && rs[i] == ri[i]);
                assert(chunks[i].contains(k));
            } else {
                assert(tail.contains(k));
                assert(rs.last() is None);
                assert(chunks[chunks.len() - 1].contains(k));
            }
        }
    }
}

} // verus!

