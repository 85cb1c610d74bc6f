use hip::read_cache::{bytes_held, len, path_key_of};
use hip::read_cache::{clear, get, invalidate, put, stats, ReadCache};

#[test]
fn miss_then_hit_returns_cached_content() {
    let mut c = ReadCache::new();
    clear(&mut c);
    let key = "/tmp/mlx-readcache.txt";
    let (mtime, size) = (1_700_000_000u64, 6u64);
    assert!(get(&mut c, key, mtime, size).is_none(), "fresh cache should miss");
    put(&mut c, key, mtime, size, "alpha\n".into());
    assert_eq!(get(&mut c, key, mtime, size).as_deref(), Some("alpha\n"), "should hit");
    let s = stats(&c);
    assert!(s.hits >= 1);
    assert!(s.misses >= 1);
    clear(&mut c);
}

#[test]
fn mtime_change_invalidates_implicitly() {
    let mut c = ReadCache::new();
    clear(&mut c);
    let key = "/tmp/mlx-readcache-mt.txt";
    let (mt1, sz1) = (1_700_000_000u64, 7u64);
    put(&mut c, key, mt1, sz1, "before\n".into());
    assert!(get(&mut c, key, mt1, sz1).is_some());
    // Different mtime -> miss (cached entry is stale relative to caller).
    assert!(get(&mut c, key, mt1 + 5, sz1).is_none());
    // Different size -> also miss.
    assert!(get(&mut c, key, mt1, sz1 + 10).is_none());
    clear(&mut c);
}

#[test]
fn explicit_invalidate_drops_entry() {
    let mut c = ReadCache::new();
    clear(&mut c);
    let key = "/tmp/mlx-readcache-inv.txt";
    put(&mut c, key, 100, 5, "hello".into());
    assert!(get(&mut c, key, 100, 5).is_some());
    invalidate(&mut c, key);
    assert!(get(&mut c, key, 100, 5).is_none(), "post-invalidate should miss");
    let s = stats(&c);
    assert!(s.invalidations >= 1);
    clear(&mut c);
}

#[test]
fn equal_paths_share_one_entry() {
    let mut c = ReadCache::new();
    put(&mut c, "a//b", 1, 3, "xyz".to_string());
    assert_eq!(get(&mut c, "a/b/", 1, 3), Some("xyz".to_string()));
    assert_eq!(get(&mut c, "a/./b", 1, 3), Some("xyz".to_string()));
    put(&mut c, "a/b", 2, 2, "éé".to_string());
    assert_eq!(len(&c), 1);
    assert_eq!(bytes_held(&c), 4);
    invalidate(&mut c, "a//b/");
    assert_eq!(len(&c), 0);
    assert_eq!(bytes_held(&c), 0);
    assert_eq!(path_key_of("a//b"), "a/b");
    assert_eq!(path_key_of("/x/./y/"), "/x/y");
    assert_eq!(path_key_of("./a"), "./a");
    assert_eq!(path_key_of("././a"), "./a");
    assert_eq!(path_key_of("a/../b"), "a/../b");
}
