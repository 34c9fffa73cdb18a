//! Key sequences: deduplication in first-seen order and partitioning
//! into chunks bounded by a maximum batch size.
use vstd::prelude::*;

verus! {

/// The distinct elements of `s`, each at its first occurrence, in order.
pub open spec fn first_seen(s: Seq<Seq<char>>) -> Seq<Seq<char>>
    decreases s.len(),
{
    if s.len() == 0 {
        Seq::empty()
    } else {
        let init = first_seen(s.drop_last());
        if init.contains(s.last()) {
            init
        } else {
            init.push(s.last())
        }
    }
}

/// Deduplication never invents or loses keys: a key stands in
/// `first_seen(s)` exactly when it stands somewhere in `s`.
pub proof fn lemma_first_seen_contains(s: Seq<Seq<char>>, k: Seq<char>)
    ensures
        first_seen(s).contains(k) <==> s.contains(k),
    decreases s.len(),
{
    broadcast use vstd::seq_lib::group_seq_properties;

    if s.len() > 0 {
        lemma_first_seen_contains(s.drop_last(), k);
        assert(s =~= s.drop_last().push(s.last()));
        let init = first_seen(s.drop_last());
        if !init.contains(s.last()) {
            assert(first_seen(s) == init.push(s.last()));
        }
    }
}

/// Two requests for one key are merged: no key appears twice in a
/// deduplicated window, so one fetch serves all requesters of that key.
pub proof fn lemma_first_seen_distinct(s: Seq<Seq<char>>)
    ensures
        forall|i: int, j: int|
            0 <= i < j < first_seen(s).len() ==> first_seen(s)[i] != first_seen(s)[j],
    decreases s.len(),
{
    if s.len() > 0 {
        lemma_first_seen_distinct(s.drop_last());
        let init = first_seen(s.drop_last());
        if !init.contains(s.last()) {
            assert forall|i: int, j: int|
                0 <= i < j < first_seen(s).len() implies first_seen(s)[i] != first_seen(
                s,
            )[j] by {
                if j == init.len() {
                    assert(first_seen(s)[j] == s.last());
                    assert(first_seen(s)[i] == init[i]);
                    assert(!init.contains(s.last()));
                }
            }
        }
    }
}

/// `s` partitioned into consecutive chunks of at most `cap` elements,
/// in order; meaningful only for `cap >= 1`.
pub open spec fn chunks_of(s: Seq<Seq<char>>, cap: int) -> Seq<Seq<Seq<char>>>
    decreases s.len(),
{
    if cap <= 0 {
        Seq::empty()
    } else if s.len() == 0 {
        Seq::empty()
    } else if s.len() <= cap {
        seq![s]
    } else {
        seq![s.take(cap)] + chunks_of(s.skip(cap), cap)
    }
}

/// A window of `n` distinct keys dispatches exactly `ceil(n / cap)`
/// chunks, and no chunk is empty or holds more than `cap` keys.
pub proof fn lemma_chunks_count(s: Seq<Seq<char>>, cap: int)
    requires
        cap >= 1,
    ensures
        chunks_of(s, cap).len() == (s.len() + cap - 1) / cap,
        forall|i: int|
            0 <= i < chunks_of(s, cap).len() ==> 1 <= (#[trigger] chunks_of(s, cap)[i]).len()
                <= cap,
    decreases s.len(),
{
    if s.len() == 0 {
        assert((0 + cap - 1) / cap == 0) by {
            vstd::arithmetic::div_mod::lemma_basic_div(cap - 1, cap);
        }
    } else if s.len() <= cap {
        assert(chunks_of(s, cap).len() == 1);
        assert((s.len() + cap - 1) / cap == 1) by {
            vstd::arithmetic::div_mod::lemma_basic_div(s.len() - 1, cap);
            vstd::arithmetic::div_mod::lemma_div_plus_one(s.len() - 1, cap);
        }
    } else {
        lemma_chunks_count(s.skip(cap), cap);
        assert(s.skip(cap).len() == s.len() - cap);
        assert((s.len() - cap + cap - 1) / cap + 1 == (s.len() + cap - 1) / cap) by {
            vstd::arithmetic::div_mod::lemma_div_plus_one(s.len() - 1, cap);
        }
        assert forall|i: int|
            0 <= i < chunks_of(s, cap).len() implies 1 <= (#[trigger] chunks_of(s, cap)[i]).len()
            <= cap by {
            if i == 0 {
                assert(chunks_of(s, cap)[0] == s.take(cap));
            } else {
                assert(chunks_of(s, cap)[i] == chunks_of(s.skip(cap), cap)[i - 1]);
            }
        }
    }
}

/// Chunking reorders nothing and drops nothing: the chunks concatenate
/// back to the original sequence.
pub proof fn lemma_chunks_flatten(s: Seq<Seq<char>>, cap: int)
    requires
        cap >= 1,
    ensures
        chunks_of(s, cap).flatten() == s,
    decreases s.len(),
{
    broadcast use Seq::lemma_flatten_singleton;

    if s.len() == 0 {
        assert(chunks_of(s, cap).flatten() =~= s);
    } else if s.len() <= cap {
        assert(chunks_of(s, cap).len() == 1);
        assert(chunks_of(s, cap)[0] == s);
    } else {
        lemma_chunks_flatten(s.skip(cap), cap);
        let c = chunks_of(s, cap);
        assert(c.drop_first() =~= chunks_of(s.skip(cap), cap));
        assert(c.flatten() == c.first() + c.drop_first().flatten());
        assert(c.flatten() =~= s);
    }
}

/// Whether the view of some element of `keys` equals `k`.
pub fn contains_key(keys: &Vec<String>, k: &String) -> (r: bool)
    ensures
        r == keys.deep_view().contains(k@),
{
    let mut i: usize = 0;
    while i < keys.len()
        invariant
            0 <= i <= keys.len(),
            forall|j: int| 0 <= j < i ==> keys.deep_view()[j] != k@,
        decreases keys.len() - i,
    {
        if keys[i] == *k {
            assert(keys.deep_view()[i as int] == k@);
            return true;
        }
        i = i + 1;
    }
    assert(!keys.deep_view().contains(k@));
    false
}

/// The distinct keys of `keys`, each at its first occurrence, in order.
pub fn dedup_keys(keys: &Vec<String>) -> (r: Vec<String>)
    ensures
        r.deep_view() == first_seen(keys.deep_view()),
{
    let ghost kv = keys.deep_view();
    let mut r: Vec<String> = Vec::new();
    proof {
        assert(r.deep_view() =~= first_seen(kv.take(0)));
    }
    let mut i: usize = 0;
    while i < keys.len()
        invariant
            0 <= i <= keys.len(),
            kv == keys.deep_view(),
            r.deep_view() == first_seen(kv.take(i as int)),
        decreases keys.len() - i,
    {
        proof {
            assert(kv.take(i + 1).drop_last() =~= kv.take(i as int));
            assert(kv.take(i + 1).last() == kv[i as int]);
            assert(kv[i as int] == keys[i as int]@);
        }
        if !contains_key(&r, &keys[i]) {
            r.push(keys[i].clone());
            proof {
                assert(r.deep_view() =~= first_seen(kv.take(i as int)).push(kv[i as int]));
            }
        }
        i = i + 1;
    }
    proof {
        assert(kv.take(keys.deep_view().len() as int) =~= kv);
    }
    r
}

/// `keys` split into consecutive chunks of at most `cap` keys each.
pub fn chunk_keys(keys: &Vec<String>, cap: usize) -> (r: Vec<Vec<String>>)
    requires
        cap >= 1,
    ensures
        r.deep_view() == chunks_of(keys.deep_view(), cap as int),
{
    let ghost kv = keys.deep_view();
    let mut r: Vec<Vec<String>> = Vec::new();
    proof {
        assert(kv.skip(0) =~= kv);
        assert(r.deep_view() + chunks_of(kv.skip(0), cap as int) =~= chunks_of(kv, cap as int));
    }
    let mut i: usize = 0;
    while i < keys.len()
        invariant
            0 <= i <= keys.len(),
            cap >= 1,
            kv == keys.deep_view(),
            r.deep_view() + chunks_of(kv.skip(i as int), cap as int) == chunks_of(
                kv,
                cap as int,
            ),
        decreases keys.len() - i,
    {
        let ghost rest = kv.skip(i as int);
        let ghost r0 = r.deep_view();
        let mut chunk: Vec<String> = Vec::new();
        let end = if keys.len() - i < cap {
            keys.len()
        } else {
            i + cap
        };
        proof {
            assert(chunk.deep_view() =~= kv.subrange(i as int, i as int));
        }
        let mut j: usize = i;
        while j < end
            invariant
                i <= j <= end <= keys.len(),
                kv == keys.deep_view(),
                chunk.deep_view() == kv.subrange(i as int, j as int),
            decreases end - j,
        {
            let ghost sv = chunk@;
            let ghost dv = chunk.deep_view();
            chunk.push(keys[j].clone());
            proof {
                assert(chunk@ == sv.push(chunk@[sv.len() as int]));
                assert(chunk@.last()@ == kv[j as int]);
                assert(dv.len() == sv.len());
                assert(sv.len() == j - i);
                assert forall|t: int| 0 <= t < chunk@.len() implies chunk.deep_view()[t]
                    == kv.subrange(i as int, j + 1)[t] by {
                    assert(chunk.deep_view()[t] == chunk@[t]@);
                    if t < sv.len() {
                        assert(chunk@[t] == sv[t]);
                        assert(dv[t] == sv[t]@);
                        assert(dv[t] == kv.subrange(i as int, j as int)[t]);
                        assert(kv.subrange(i as int, j as int)[t] == kv[i + t]);
                        assert(kv.subrange(i as int, j + 1)[t] == kv[i + t]);
                    } else {
                        assert(t == j - i);
                        assert(kv.subrange(i as int, j + 1)[t] == kv[j as int]);
                    }
                }
                assert(chunk.deep_view() =~= kv.subrange(i as int, j + 1));
            }
            j = j + 1;
        }
        proof {
            if rest.len() <= cap {
                assert(chunk.deep_view() =~= rest);
                assert(chunks_of(rest, cap as int) == seq![rest]);
                assert(r0.push(rest) + chunks_of(kv.skip(end as int), cap as int) =~= r0 + seq![
                    rest,
                ]);
            } else {
                assert(chunk.deep_view() =~= rest.take(cap as int));
                assert(rest.skip(cap as int) =~= kv.skip(i + cap));
                assert(r0.push(rest.take(cap as int)) + chunks_of(kv.skip(i + cap), cap as int)
                    =~= r0 + (seq![rest.take(cap as int)] + chunks_of(
                    rest.skip(cap as int),
                    cap as int,
                )));
            }
        }
        r.push(chunk);
        proof {
            assert(r.deep_view() =~= r0.push(chunk.deep_view()));
        }
        i = end;
    }
    proof {
        assert(kv.skip(i as int) =~= Seq::<Seq<char>>::empty());
        assert(r.deep_view() + chunks_of(Seq::<Seq<char>>::empty(), cap as int) =~= r.deep_view());
    }
    r
}

} // verus!
