use rs_kvstore_vals2ql::KeyValLoadErr;
use rs_kvstore_vals2ql::cache::LruCache;
use rs_kvstore_vals2ql::keyseq::chunk_keys;
use rs_kvstore_vals2ql::keyseq::dedup_keys;
use rs_kvstore_vals2ql::loader::BatchLoader;
use rs_kvstore_vals2ql::loader::ChunkResponse;
use rs_kvstore_vals2ql::loader::pair_loaded;
use rs_kvstore_vals2ql::resolver::load_one;
use rs_kvstore_vals2ql::resolver::value_field;
use rs_kvstore_vals2ql::resolver::values_field;

fn s(x: &str) -> String {
    x.to_string()
}

fn pair(k: &str, v: &str) -> (String, String) {
    (s(k), s(v))
}

#[test]
fn single_batch_holds_distinct_keys_in_first_seen_order() {
    let mut loader = BatchLoader::new(2);
    let keys = vec![s("a"), s("b"), s("a")];
    let plan = loader.plan(&keys);
    assert!(plan.hits.is_empty());
    assert_eq!(plan.chunks, vec![vec![s("a"), s("b")]]);
}

#[test]
fn many_distinct_keys_chunk_into_ceil_count() {
    let mut loader = BatchLoader::new(2);
    let keys = vec![s("a"), s("b"), s("c"), s("d"), s("e")];
    let plan = loader.plan(&keys);
    assert_eq!(plan.chunks.len(), 3);
    for chunk in &plan.chunks {
        assert!(chunk.len() <= 2);
        assert!(!chunk.is_empty());
    }
    assert_eq!(
        plan.chunks,
        vec![vec![s("a"), s("b")], vec![s("c"), s("d")], vec![s("e")]]
    );
}

#[test]
fn duplicate_requests_share_one_fetch() {
    let mut loader = BatchLoader::new(2);
    let keys = vec![s("a"), s("a")];
    let plan = loader.plan(&keys);
    assert_eq!(plan.chunks, vec![vec![s("a")]]);
    let responses = vec![ChunkResponse::Values(vec![Some(s("v"))])];
    let window = loader.finish(&plan, &responses);
    assert_eq!(window.resolved, vec![pair("a", "v")]);
    let first = value_field(&s("a"), &window);
    let second = value_field(&s("a"), &window);
    assert_eq!(first, Ok(s("v")));
    assert_eq!(second, Ok(s("v")));
}

#[test]
fn absent_key_resolves_to_empty_string_not_error() {
    let mut loader = BatchLoader::new(2);
    let keys = vec![s("missing")];
    let plan = loader.plan(&keys);
    let responses = vec![ChunkResponse::Values(vec![None])];
    let window = loader.finish(&plan, &responses);
    assert_eq!(window.resolved, vec![pair("missing", "")]);
    assert!(window.failed.is_empty());
    assert_eq!(value_field(&s("missing"), &window), Ok(s("")));
}

#[test]
fn cache_hit_avoids_backend_call() {
    let mut loader = BatchLoader::with_cache(2, 1);
    let keys = vec![s("k")];
    let plan = loader.plan(&keys);
    assert_eq!(plan.chunks.len(), 1);
    let responses = vec![ChunkResponse::Values(vec![Some(s("v1"))])];
    loader.finish(&plan, &responses);
    let again = loader.plan(&keys);
    assert!(again.chunks.is_empty());
    assert_eq!(again.hits, vec![pair("k", "v1")]);
}

#[test]
fn failed_chunk_fails_only_its_own_keys() {
    let mut loader = BatchLoader::new(2);
    let keys = vec![s("a"), s("b"), s("c")];
    let plan = loader.plan(&keys);
    assert_eq!(plan.chunks.len(), 2);
    let responses = vec![
        ChunkResponse::Values(vec![Some(s("1")), Some(s("2"))]),
        ChunkResponse::Failure,
    ];
    let window = loader.finish(&plan, &responses);
    assert_eq!(window.resolved, vec![pair("a", "1"), pair("b", "2")]);
    assert_eq!(window.failed, vec![s("c")]);
    assert_eq!(value_field(&s("a"), &window), Ok(s("1")));
    assert_eq!(value_field(&s("b"), &window), Ok(s("2")));
    assert_eq!(
        value_field(&s("c"), &window),
        Err(KeyValLoadErr::UnableToGetKeys)
    );
}

#[test]
fn end_to_end_values_and_value_share_one_loader() {
    // Backend state {"x":"1","y":"2"}; the loader mirrors the
    // request-scoped instance a query execution would share.
    let mut loader = BatchLoader::with_cache(2, 100);
    let keys = vec![s("x"), s("y"), s("z")];
    let plan = loader.plan(&keys);
    assert_eq!(plan.chunks, vec![vec![s("x"), s("y")], vec![s("z")]]);
    let responses = vec![
        ChunkResponse::Values(vec![Some(s("1")), Some(s("2"))]),
        ChunkResponse::Values(vec![None]),
    ];
    let window = loader.finish(&plan, &responses);
    assert_eq!(values_field(&window), Ok(vec![s("1"), s("2"), s("")]));
    // `value(key:"x")` in the same request: the shared loader now holds
    // "x", so no further backend call is planned.
    let one = loader.plan(&vec![s("x")]);
    assert!(one.chunks.is_empty());
    assert_eq!(one.hits, vec![pair("x", "1")]);
    let window_one = loader.finish(&one, &vec![]);
    assert_eq!(value_field(&s("x"), &window_one), Ok(s("1")));
}

#[test]
fn whole_window_failure_fails_values_field() {
    let mut loader = BatchLoader::new(2);
    let keys = vec![s("a")];
    let plan = loader.plan(&keys);
    let responses = vec![ChunkResponse::Failure];
    let window = loader.finish(&plan, &responses);
    assert_eq!(values_field(&window), Err(KeyValLoadErr::UnableToGetKeys));
}

#[test]
fn empty_window_resolves_to_no_values() {
    let mut loader = BatchLoader::new(2);
    let plan = loader.plan(&vec![]);
    assert!(plan.hits.is_empty());
    assert!(plan.chunks.is_empty());
    let window = loader.finish(&plan, &vec![]);
    assert_eq!(values_field(&window), Ok(vec![]));
}

#[test]
fn unrequested_key_loads_as_absent() {
    let mut loader = BatchLoader::new(2);
    let plan = loader.plan(&vec![s("a")]);
    let responses = vec![ChunkResponse::Values(vec![Some(s("1"))])];
    let window = loader.finish(&plan, &responses);
    assert_eq!(load_one(&s("b"), &window), Ok(None));
    assert_eq!(value_field(&s("b"), &window), Ok(s("")));
}

#[test]
fn short_backend_response_drops_trailing_keys() {
    // The positional zip pairs only as many keys as values came back.
    let keys = vec![s("a"), s("b")];
    let vals = vec![Some(s("1"))];
    assert_eq!(pair_loaded(&keys, &vals), vec![pair("a", "1")]);
}

#[test]
fn pairing_is_positional_without_validation() {
    let keys = vec![s("a"), s("b")];
    let vals = vec![Some(s("2")), Some(s("1"))];
    assert_eq!(pair_loaded(&keys, &vals), vec![pair("a", "2"), pair("b", "1")]);
}

#[test]
fn lru_cache_evicts_least_recently_used() {
    let mut cache = LruCache::new(2);
    cache.insert(s("a"), s("1"));
    cache.insert(s("b"), s("2"));
    cache.insert(s("c"), s("3"));
    assert_eq!(cache.get(&s("a")), None);
    assert_eq!(cache.get(&s("b")), Some(s("2")));
    assert_eq!(cache.get(&s("c")), Some(s("3")));
}

#[test]
fn lru_cache_read_refreshes_recency() {
    let mut cache = LruCache::new(2);
    cache.insert(s("a"), s("1"));
    cache.insert(s("b"), s("2"));
    assert_eq!(cache.get(&s("a")), Some(s("1")));
    cache.insert(s("c"), s("3"));
    assert_eq!(cache.get(&s("b")), None);
    assert_eq!(cache.get(&s("a")), Some(s("1")));
    assert_eq!(cache.get(&s("c")), Some(s("3")));
}

#[test]
fn lru_cache_rewrites_existing_key() {
    let mut cache = LruCache::new(2);
    cache.insert(s("k"), s("1"));
    cache.insert(s("k"), s("2"));
    assert_eq!(cache.get(&s("k")), Some(s("2")));
}

#[test]
fn dedup_and_chunk_helpers() {
    let keys = vec![s("a"), s("b"), s("a"), s("c"), s("b")];
    assert_eq!(dedup_keys(&keys), vec![s("a"), s("b"), s("c")]);
    let chunks = chunk_keys(&vec![s("a"), s("b"), s("c")], 1);
    assert_eq!(chunks, vec![vec![s("a")], vec![s("b")], vec![s("c")]]);
}

#[test]
fn load_error_message() {
    let e = KeyValLoadErr::UnableToGetKeys;
    assert_eq!(e.message(), "unable to get keys");
    assert_eq!(e.clone(), KeyValLoadErr::UnableToGetKeys);
}
