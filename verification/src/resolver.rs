//! The query-facing decisions: turning one window's outcome into the
//! results of the `values` and `value` fields.
use vstd::prelude::*;

use crate::KeyValLoadErr;
use crate::loader::WindowResult;
use crate::loader::unwrap_or_empty;

verus! {

/// The second components of the pairs, in order.
pub open spec fn values_of(ps: Seq<(Seq<char>, Seq<char>)>) -> Seq<Seq<char>> {
    ps.map_values(|p: (Seq<char>, Seq<char>)| p.1)
}

/// The value the pairs associate with `k`; the last pair wins, as in a
/// mapping built by inserting the pairs in order.
pub open spec fn pairs_lookup(ps: Seq<(Seq<char>, Seq<char>)>, k: Seq<char>) -> Option<Seq<char>>
    decreases ps.len(),
{
    if ps.len() == 0 {
        None
    } else if ps.last().0 == k {
        Some(ps.last().1)
    } else {
        pairs_lookup(ps.drop_last(), k)
    }
}

/// The `values(keys)` field: every resolved value of the window, in the
/// window's mapping order (cache hits first, then fetched pairs, each
/// in first-seen key order — not necessarily the order the keys were
/// requested in); any failed key fails the whole field with the
/// uniform load error.
pub fn values_field(w: &WindowResult) -> (r: Result<Vec<String>, KeyValLoadErr>)
    ensures
        (w.failed.deep_view().len() == 0) <==> r is Ok,
        r matches Ok(vs) ==> vs.deep_view() == values_of(w.resolved.deep_view()),
        r matches Err(e) ==> e == KeyValLoadErr::UnableToGetKeys,
{
    if w.failed.len() > 0 {
        return Err(KeyValLoadErr::UnableToGetKeys);
    }
    let ghost pv = w.resolved.deep_view();
    let mut vs: Vec<String> = Vec::new();
    let mut i: usize = 0;
    while i < w.resolved.len()
        invariant
            0 <= i <= w.resolved.len(),
            pv == w.resolved.deep_view(),
            vs.deep_view() == values_of(pv.take(i as int)),
        decreases w.resolved.len() - i,
    {
        let ghost rd = vs.deep_view();
        let ghost rs = vs@;
        vs.push(w.resolved[i].1.clone());
        proof {
            assert(vs@ == rs.push(vs@[rs.len() as int]));
            assert(vs@[rs.len() as int]@ == pv[i as int].1);
            assert forall|t: int| 0 <= t < vs@.len() implies vs.deep_view()[t] == rd.push(
                pv[i as int].1,
            )[t] by {
                if t < rs.len() {
                    assert(vs@[t] == rs[t]);
                    assert(rd[t] == rs[t]@);
                }
            }
            assert(vs.deep_view() =~= rd.push(pv[i as int].1));
            assert(rd.push(pv[i as int].1) =~= values_of(pv.take(i + 1)));
        }
        i = i + 1;
    }
    proof {
        assert(pv.take(pv.len() as int) =~= pv);
    }
    Ok(vs)
}

/// The single-key load: the value the window resolved for `key`, or
/// nothing if the window resolved no pair for it, or the uniform load
/// error if the key's chunk failed.
pub fn load_one(key: &String, w: &WindowResult) -> (r: Result<Option<String>, KeyValLoadErr>)
    ensures
        w.failed.deep_view().contains(key@) <==> r is Err,
        r matches Ok(v) ==> v.deep_view() == pairs_lookup(w.resolved.deep_view(), key@),
        r matches Err(e) ==> e == KeyValLoadErr::UnableToGetKeys,
{
    if crate::keyseq::contains_key(&w.failed, key) {
        return Err(KeyValLoadErr::UnableToGetKeys);
    }
    let ghost pv = w.resolved.deep_view();
    proof {
        assert(pv.take(pv.len() as int) =~= pv);
    }
    let mut i: usize = w.resolved.len();
    while i > 0
        invariant
            0 <= i <= w.resolved.len(),
            pv == w.resolved.deep_view(),
            !w.failed.deep_view().contains(key@),
            pairs_lookup(pv, key@) == pairs_lookup(pv.take(i as int), key@),
        decreases i,
    {
        i = i - 1;
        proof {
            assert(pv.take(i + 1).drop_last() =~= pv.take(i as int));
            assert(pv.take(i + 1).last() == pv[i as int]);
        }
        if w.resolved[i].0 == *key {
            assert(pairs_lookup(pv.take(i + 1), key@) == Some(pv[i as int].1));
            return Ok(Some(w.resolved[i].1.clone()));
        }
    }
    assert(pairs_lookup(pv.take(0), key@) is None);
    Ok(None)
}

/// The `value(key)` field: the window's value for `key`, absence
/// normalized to the empty string; the uniform load error if the key's
/// chunk failed.
pub fn value_field(key: &String, w: &WindowResult) -> (r: Result<String, KeyValLoadErr>)
    ensures
        w.failed.deep_view().contains(key@) <==> r is Err,
        r matches Ok(v) ==> v@ == unwrap_or_empty(pairs_lookup(w.resolved.deep_view(), key@)),
        r matches Err(e) ==> e == KeyValLoadErr::UnableToGetKeys,
{
    match load_one(key, w) {
        Err(e) => Err(e),
        Ok(Some(v)) => Ok(v),
        Ok(None) => Ok(String::new()),
    }
}

} // verus!
