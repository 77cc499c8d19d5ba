//! The cache, before a store that is a map and with a disk that is another.

use pond_core::cache::{
    batch_misses, blob_path, default_root_is_home, file_range, file_suffix, fill_batch, range_step, resolve_cache_dir,
    slice_range, slice_suffix, CacheDir, CachingObjectStore, DiskWrite, RangeStep,
};
use std::collections::HashMap;

/// A cache with a store behind it and files of its own.
struct Cached {
    cache: CachingObjectStore,
    inner: HashMap<String, Vec<u8>>,
    paths: HashMap<String, String>,
    disk: HashMap<String, Vec<u8>>,
    inner_reads: usize,
    now: u64,
}

/// A stand-in for a content hash: 64 hexadecimal digits.
fn hash_of(data: &[u8]) -> String {
    let mut h: u64 = 0xcbf29ce484222325;
    for b in data {
        h = (h ^ *b as u64).wrapping_mul(0x100000001b3);
    }
    h = (h ^ data.len() as u64).wrapping_mul(0x100000001b3);
    format!("{:016x}", h).repeat(4)
}

impl Cached {
    fn new(cache: CachingObjectStore) -> Cached {
        Cached { cache, inner: HashMap::new(), paths: HashMap::new(), disk: HashMap::new(), inner_reads: 0, now: 0 }
    }

    fn write_to_disk(&mut self, hash: &str, data: &[u8]) {
        let existed = self.disk.insert(hash.to_string(), data.to_vec()).is_some();
        let write = if existed { DiskWrite::Existing } else { DiskWrite::New };
        for gone in self.cache.blob_written(hash, data, write) {
            self.disk.remove(&gone);
        }
    }

    fn put_blob(&mut self, data: &[u8]) -> String {
        let hash = hash_of(data);
        self.inner.insert(hash.clone(), data.to_vec());
        self.write_to_disk(&hash, data);
        hash
    }

    fn lookup(&mut self, hash: &str) -> Option<Vec<u8>> {
        if let Some(data) = self.cache.lookup_blob(hash) {
            return Some(data);
        }
        if let Some(data) = self.disk.get(hash) {
            let data = data.clone();
            self.cache.disk_hit(hash, &data, Some(data.len()));
            return Some(data);
        }
        None
    }

    fn get_blob(&mut self, hash: &str) -> Option<Vec<u8>> {
        if let Some(data) = self.lookup(hash) {
            return Some(data);
        }
        assert!(self.cache.begin_fetch(hash));
        self.inner_reads += 1;
        let data = self.inner.get(hash).cloned();
        if let Some(d) = &data {
            self.write_to_disk(hash, d);
        }
        self.cache.end_fetch(hash);
        data
    }

    fn get_blob_range(&mut self, hash: &str, start: u64, end: u64) -> Vec<u8> {
        match self.cache.lookup_range(hash, start, end) {
            RangeStep::Done(data) => data,
            RangeStep::Ask => {
                if let Some(file) = self.disk.get(hash) {
                    let len = file.len();
                    let data = match file_range(len as u64, start, end) {
                        Some((from, n)) => file[from as usize..(from + n) as usize].to_vec(),
                        None => return Vec::new(),
                    };
                    self.cache.promote(hash, len);
                    self.cache.range_read(hash, start, end, &data, true);
                    return data;
                }
                self.inner_reads += 1;
                let data = slice_range(&self.inner[hash], start, end);
                self.cache.range_read(hash, start, end, &data, false);
                data
            }
        }
    }

    fn get_blob_batch(&mut self, hashes: &[String]) -> Vec<Vec<u8>> {
        let mut found = Vec::new();
        for h in hashes {
            let hit = self.lookup(h);
            found.push(hit);
        }
        let mut fetched = Vec::new();
        for i in batch_misses(&found) {
            self.inner_reads += 1;
            let data = self.inner[&hashes[i]].clone();
            self.write_to_disk(&hashes[i], &data);
            fetched.push(data);
        }
        fill_batch(&found, &fetched)
    }

    fn put_blob_batch(&mut self, items: &[Vec<u8>]) -> Vec<String> {
        items.iter().map(|d| self.put_blob(d)).collect()
    }

    fn remove_from_disk(&mut self, hash: &str) {
        if let Some(file) = self.disk.remove(hash) {
            self.cache.remove_blob_from_disk(hash, file.len());
        }
    }

    fn delete_blob(&mut self, hash: &str) {
        self.inner.remove(hash);
        self.cache.delete_blob(hash);
        self.remove_from_disk(hash);
    }

    fn get_path(&mut self, path: &str) -> Option<String> {
        if let Some(h) = self.cache.get_path(path, self.now) {
            return Some(h);
        }
        self.inner_reads += 1;
        let h = self.paths.get(path)?.clone();
        self.cache.put_path(path, &h, self.now);
        Some(h)
    }

    fn put_path(&mut self, path: &str, hash: &str) {
        self.paths.insert(path.to_string(), hash.to_string());
        self.cache.put_path(path, hash, self.now);
    }
}

fn make_cached_store() -> Cached {
    Cached::new(CachingObjectStore::new().with_max_mem_bytes(0))
}

fn make_cached_store_no_mem() -> Cached {
    Cached::new(CachingObjectStore::new().with_max_mem_bytes(0).with_skip_mem_cache_threshold(0))
}

#[test]
fn test_put_get_roundtrip() {
    let mut store = make_cached_store();
    let h = store.put_blob(b"hello, cache!");
    assert_eq!(store.get_blob(&h).unwrap(), b"hello, cache!");
}

#[test]
fn test_cache_hit_avoids_inner() {
    let mut store = make_cached_store();
    let h = store.put_blob(b"cached data");
    assert!(store.disk.contains_key(&h), "blob should be cached on disk");
    store.inner.remove(&h);
    assert_eq!(store.get_blob(&h).unwrap(), b"cached data");
}

#[test]
fn test_ref_cache() {
    let mut store = make_cached_store();
    let h = store.put_blob(b"data");
    store.put_path("my_ref", &h);
    assert_eq!(store.get_path("my_ref").unwrap(), h);
    assert_eq!(store.inner_reads, 0);
}

#[test]
fn test_delete_invalidates_cache() {
    let mut store = make_cached_store();
    let h = store.put_blob(b"temp");
    store.put_path("tmp_ref", &h);
    store.paths.remove("tmp_ref");
    store.cache.delete_path("tmp_ref");
    assert!(store.get_path("tmp_ref").is_none());
}

#[test]
fn test_delete_blob_removes_from_cache() {
    let mut store = make_cached_store();
    let h = store.put_blob(b"to delete");
    assert!(store.disk.contains_key(&h));
    store.delete_blob(&h);
    assert!(!store.disk.contains_key(&h));
    assert_eq!(store.cache.disk_usage_bytes(), 0);
}

#[test]
fn lib_test_dedup() {
    let mut store = make_cached_store();
    let h1 = store.put_blob(b"same");
    let h2 = store.put_blob(b"same");
    assert_eq!(h1, h2);
    assert_eq!(store.cache.disk_usage_bytes(), 4);
}

#[test]
fn test_write_batch() {
    let mut store = make_cached_store();
    let items = vec![b"a".to_vec(), b"b".to_vec(), b"c".to_vec()];
    let hashes = store.put_blob_batch(&items);
    for (i, h) in hashes.iter().enumerate() {
        assert_eq!(store.get_blob(h).unwrap(), items[i]);
    }
}

#[test]
fn test_disk_usage_tracking() {
    let mut store = make_cached_store();
    assert_eq!(store.cache.disk_usage_bytes(), 0);
    store.put_blob(b"hello");
    assert!(store.cache.disk_usage_bytes() > 0);
}

#[test]
fn test_eviction_respects_max_bytes() {
    let mut store = Cached::new(CachingObjectStore::new().with_max_disk_bytes(200));
    for i in 0..10u32 {
        let data = vec![i as u8; 100];
        store.put_blob(&data);
        assert!(store.cache.disk_usage_bytes() <= 200);
    }
    assert!(store.cache.disk_usage_bytes() <= 200 + 100);
    assert_eq!(store.disk.len(), 2);
}

#[test]
fn test_true_lru_eviction() {
    let mut store = Cached::new(CachingObjectStore::new().with_max_disk_bytes(350).with_max_mem_bytes(0));
    let h_a = store.put_blob(&[1u8; 100]);
    let h_b = store.put_blob(&[2u8; 100]);
    let h_c = store.put_blob(&[3u8; 100]);
    let _ = store.get_blob(&h_a).unwrap();
    let h_d = store.put_blob(&[4u8; 100]);
    assert!(store.disk.contains_key(&h_a), "A should survive (was read)");
    assert!(store.disk.contains_key(&h_c), "C should survive (more recent than B)");
    assert!(store.disk.contains_key(&h_d), "D should be in cache");
    assert!(!store.disk.contains_key(&h_b), "B should be evicted (LRU)");
}

#[test]
fn test_get_blob_range_cache_hit_uses_seek_not_full_read() {
    let mut store = Cached::new(CachingObjectStore::new().with_max_disk_bytes(10_000_000));
    let mut payload = vec![0u8; 1_000_000];
    for (i, b) in payload.iter_mut().enumerate() {
        *b = (i % 251) as u8;
    }
    let h = store.put_blob(&payload);
    assert!(store.disk.contains_key(&h), "blob should be cached on disk");
    let start = 500_000u64;
    let end = 500_012u64;
    assert_eq!(file_range(1_000_000, start, end), Some((start, 12)));
    let range = store.get_blob_range(&h, start, end);
    assert_eq!(range.len(), 12);
    assert_eq!(&range[..], &payload[start as usize..end as usize]);
}

#[test]
fn test_get_blob_range_cache_miss_delegates_to_inner() {
    let mut store = make_cached_store_no_mem();
    let h = store.put_blob(b"0123456789ABCDEFGHIJKLMN");
    store.disk.remove(&h);
    let r = store.get_blob_range(&h, 5, 15);
    assert_eq!(r, b"56789ABCDE");
    assert_eq!(store.inner_reads, 1);
}

#[test]
fn test_get_blob_batch_all_cache_miss() {
    let mut store = make_cached_store();
    let items = [b"alpha".to_vec(), b"bravo".to_vec(), b"charlie".to_vec()];
    let hashes: Vec<String> = items.iter().map(|d| store.put_blob(d)).collect();
    store.disk.clear();
    let results = store.get_blob_batch(&hashes);
    assert_eq!(results.len(), 3);
    assert_eq!(results[0], b"alpha");
    assert_eq!(results[1], b"bravo");
    assert_eq!(results[2], b"charlie");
    for h in &hashes {
        assert!(store.disk.contains_key(h), "blob should be cached after batch read");
    }
}

#[test]
fn test_get_blob_batch_all_cache_hit() {
    let mut store = make_cached_store();
    let items = [b"x".to_vec(), b"y".to_vec(), b"z".to_vec()];
    let hashes: Vec<String> = items.iter().map(|d| store.put_blob(d)).collect();
    store.inner.clear();
    let results = store.get_blob_batch(&hashes);
    assert_eq!(results, vec![b"x".to_vec(), b"y".to_vec(), b"z".to_vec()]);
    assert_eq!(store.inner_reads, 0);
}

#[test]
fn test_get_blob_batch_partial_cache_hit() {
    let mut store = make_cached_store();
    let items = [b"one".to_vec(), b"two".to_vec(), b"three".to_vec()];
    let hashes: Vec<String> = items.iter().map(|d| store.put_blob(d)).collect();
    store.disk.remove(&hashes[1]);
    let results = store.get_blob_batch(&hashes);
    assert_eq!(results.len(), 3);
    assert_eq!(results[0], b"one");
    assert_eq!(results[1], b"two");
    assert_eq!(results[2], b"three");
    assert_eq!(store.inner_reads, 1);
    assert!(store.disk.contains_key(&hashes[1]), "fetched miss should be cached");
}

#[test]
fn test_get_blob_batch_preserves_order() {
    let mut store = make_cached_store();
    let items = [b"aaa".to_vec(), b"bbb".to_vec(), b"ccc".to_vec()];
    let hashes: Vec<String> = items.iter().map(|d| store.put_blob(d)).collect();
    let reversed = vec![hashes[2].clone(), hashes[0].clone(), hashes[1].clone()];
    let results = store.get_blob_batch(&reversed);
    assert_eq!(results[0], b"ccc");
    assert_eq!(results[1], b"aaa");
    assert_eq!(results[2], b"bbb");
}

#[test]
fn test_get_blob_batch_empty() {
    let mut store = make_cached_store();
    assert!(store.get_blob_batch(&[]).is_empty());
}

#[test]
fn test_put_blob_batch_caches_all() {
    let mut store = make_cached_store();
    let items = [b"p".to_vec(), b"q".to_vec(), b"r".to_vec()];
    let hashes = store.put_blob_batch(&items);
    assert_eq!(hashes.len(), 3);
    for (i, h) in hashes.iter().enumerate() {
        assert_eq!(store.get_blob(h).unwrap(), items[i]);
        assert!(store.disk.contains_key(h), "blob should be cached after put_batch");
    }
}

#[test]
fn test_put_blob_batch_empty() {
    let mut store = make_cached_store();
    assert!(store.put_blob_batch(&[]).is_empty());
}

#[test]
fn test_mem_cache_hit_after_put() {
    let mut store = Cached::new(CachingObjectStore::new());
    let h = store.put_blob(b"mem cached");
    store.disk.remove(&h);
    store.inner.remove(&h);
    assert_eq!(store.get_blob(&h).unwrap(), b"mem cached");
}

#[test]
fn test_large_blob_skips_mem_cache() {
    let mut store = Cached::new(CachingObjectStore::new().with_skip_mem_cache_threshold(100));
    let h = store.put_blob(&vec![0xABu8; 200]);
    store.disk.remove(&h);
    store.inner.remove(&h);
    assert!(store.get_blob(&h).is_none(), "large blob should NOT be served from mem cache");
}

#[test]
fn test_mem_cache_eviction_respects_max_bytes() {
    let mut store = Cached::new(CachingObjectStore::new().with_max_mem_bytes(500));
    let mut hashes = Vec::new();
    for i in 0..100u32 {
        hashes.push(store.put_blob(&vec![i as u8; 100]));
    }
    store.disk.clear();
    store.inner.clear();
    let mut mem_hits = 0;
    for h in &hashes {
        if store.get_blob(h).is_some() {
            mem_hits += 1;
        }
    }
    assert!(mem_hits < 50, "most blobs should be evicted from 500-byte mem cache, but {} survived", mem_hits);
}

#[test]
fn test_delete_blob_invalidates_mem_cache() {
    let mut store = Cached::new(CachingObjectStore::new());
    let h = store.put_blob(b"to delete from mem");
    assert_eq!(store.get_blob(&h).unwrap(), b"to delete from mem");
    store.delete_blob(&h);
    assert!(!store.disk.contains_key(&h));
    assert!(store.get_blob(&h).is_none());
}

#[test]
fn test_get_blob_range_uses_mem_cache() {
    let mut store = Cached::new(CachingObjectStore::new());
    let h = store.put_blob(b"0123456789ABCDEFGHIJ");
    store.disk.remove(&h);
    store.inner.remove(&h);
    assert_eq!(store.get_blob_range(&h, 5, 15), b"56789ABCDE");
}

#[test]
fn test_mem_cache_batch_hit() {
    let mut store = Cached::new(CachingObjectStore::new());
    let items = [b"x".to_vec(), b"y".to_vec(), b"z".to_vec()];
    let hashes: Vec<String> = items.iter().map(|d| store.put_blob(d)).collect();
    store.disk.clear();
    let results = store.get_blob_batch(&hashes);
    assert_eq!(results, vec![b"x".to_vec(), b"y".to_vec(), b"z".to_vec()]);
    assert_eq!(store.inner_reads, 0);
}

#[test]
fn test_block_cache_hit_avoids_inner_range_read() {
    let mut store = make_cached_store_no_mem();
    let hash = store.put_blob(&vec![0xABu8; 10_000]);
    let r1 = store.get_blob_range(&hash, 100, 200);
    assert_eq!(r1.len(), 100);
    store.remove_from_disk(&hash);
    let r2 = store.get_blob_range(&hash, 100, 200);
    assert_eq!(r2, r1);
    assert_eq!(store.inner_reads, 0);
}

#[test]
fn test_block_cache_different_ranges_same_blob() {
    let mut store = make_cached_store_no_mem();
    let hash = store.put_blob(&vec![0x42u8; 10_000]);
    let r1 = store.get_blob_range(&hash, 0, 100);
    let r2 = store.get_blob_range(&hash, 500, 700);
    assert_eq!(r1.len(), 100);
    assert_eq!(r2.len(), 200);
    store.remove_from_disk(&hash);
    assert_eq!(store.get_blob_range(&hash, 0, 100), r1);
    assert_eq!(store.get_blob_range(&hash, 500, 700), r2);
    assert_eq!(store.inner_reads, 0);
}

#[test]
fn test_block_cache_miss_populates() {
    let mut store = make_cached_store_no_mem();
    let hash = store.put_blob(&vec![0xCDu8; 5000]);
    let r = store.get_blob_range(&hash, 1000, 2000);
    assert_eq!(r.len(), 1000);
    store.remove_from_disk(&hash);
    let r2 = store.get_blob_range(&hash, 1000, 2000);
    assert_eq!(r2.len(), 1000);
    assert_eq!(r2, r);
}

#[test]
fn test_block_cache_empty_range() {
    let mut store = make_cached_store_no_mem();
    let hash = store.put_blob(&vec![0x01u8; 100]);
    assert!(store.get_blob_range(&hash, 50, 50).is_empty());
    assert!(store.get_blob_range(&hash, 60, 50).is_empty());
}

#[test]
fn test_block_cache_invalidated_on_delete() {
    let mut store = make_cached_store_no_mem();
    let hash = store.put_blob(&vec![0xEFu8; 10_000]);
    let other = store.put_blob(&vec![0x11u8; 10_000]);
    let _ = store.get_blob_range(&hash, 100, 300);
    let _ = store.get_blob_range(&hash, 500, 900);
    let _ = store.get_blob_range(&other, 1, 2);
    assert!(matches!(store.cache.lookup_range(&hash, 100, 300), RangeStep::Done(_)));
    assert!(matches!(store.cache.lookup_range(&hash, 500, 900), RangeStep::Done(_)));
    store.delete_blob(&hash);
    assert_eq!(store.cache.lookup_range(&hash, 100, 300), RangeStep::Ask);
    assert_eq!(store.cache.lookup_range(&hash, 500, 900), RangeStep::Ask);
    assert_eq!(store.cache.lookup_range(&other, 1, 2), RangeStep::Done(vec![0x11]));
    assert!(!store.cache.has_ranges(&hash));
    assert!(store.cache.has_ranges(&other));
}

fn at(dir: &str) -> Option<CacheDir> {
    Some(CacheDir::At(dir.to_string()))
}

#[test]
fn test_resolve_cache_dir_explicit_and_env() {
    assert_eq!(resolve_cache_dir(Some("/tmp/pond-explicit"), None), at("/tmp/pond-explicit"));
    assert_eq!(resolve_cache_dir(Some("off"), None), None);
    assert_eq!(resolve_cache_dir(Some("none"), None), None);
    assert_eq!(resolve_cache_dir(Some(""), None), None);
    assert_eq!(resolve_cache_dir(None, Some("/tmp/pond-env-cache")), at("/tmp/pond-env-cache"));
    assert_eq!(resolve_cache_dir(Some("off"), Some("/tmp/pond-env-cache")), None);
    assert_eq!(resolve_cache_dir(None, Some("off")), None);
    assert!(resolve_cache_dir(None, None).is_some());
    assert!(default_root_is_home(Some("/home/me")));
    assert!(!default_root_is_home(Some("")));
    assert!(!default_root_is_home(None));
}

#[test]
fn test_get_blob_suffix_served_from_disk_tier() {
    let mut store = Cached::new(CachingObjectStore::new().with_skip_mem_cache_threshold(100));
    let data: Vec<u8> = (0u8..200).collect();
    let h = store.put_blob(&data);
    store.inner.remove(&h);
    assert!(store.cache.lookup_blob(&h).is_none());
    let file = &store.disk[&h];
    let n = file_suffix(file.len() as u64, 50) as usize;
    assert_eq!(&file[file.len() - n..], &data[150..]);
    let n = file_suffix(file.len() as u64, 1000) as usize;
    assert_eq!(&file[file.len() - n..], &data[..]);
    assert_eq!(slice_suffix(&data, 50), &data[150..]);
    assert_eq!(slice_suffix(&data, 1000), data);
}

#[test]
fn references_age() {
    let mut store = Cached::new(CachingObjectStore::new().with_ref_ttl(10));
    store.put_path("p", "h1");
    store.paths.insert("p".to_string(), "h2".to_string());
    store.now = 9;
    assert_eq!(store.get_path("p").unwrap(), "h1");
    store.now = 10;
    assert_eq!(store.get_path("p").unwrap(), "h2");
    assert_eq!(store.get_path("q"), None);
}

#[test]
fn a_lost_race_forgets_the_reference() {
    let mut store = make_cached_store();
    store.put_path("p", "h1");
    store.cache.put_path_if("p", false, "mine", 0);
    store.paths.insert("p".to_string(), "theirs".to_string());
    assert_eq!(store.get_path("p").unwrap(), "theirs");
    store.cache.put_path_if("p", true, "mine", 0);
    assert_eq!(store.get_path("p").unwrap(), "mine");
}

#[test]
fn only_one_fetches_at_a_time() {
    let mut cache = CachingObjectStore::new();
    assert!(cache.begin_fetch("h"));
    assert!(!cache.begin_fetch("h"));
    assert!(cache.begin_fetch("g"));
    cache.end_fetch("h");
    assert!(cache.begin_fetch("h"));
}

#[test]
fn a_failed_write_takes_no_room() {
    let mut cache = CachingObjectStore::new();
    assert!(cache.blob_written("h", b"abc", DiskWrite::Failed).is_empty());
    assert_eq!(cache.disk_usage_bytes(), 0);
    assert_eq!(cache.lookup_blob("h").unwrap(), b"abc");
}

#[test]
fn a_part_of_a_range_is_not_kept() {
    let mut store = make_cached_store_no_mem();
    let h = store.put_blob(b"abc");
    store.remove_from_disk(&h);
    assert_eq!(store.get_blob_range(&h, 1, 9), b"bc");
    assert_eq!(store.cache.lookup_range(&h, 1, 9), RangeStep::Ask);
    assert_eq!(store.get_blob_range(&h, 1, 3), b"bc");
    assert_eq!(store.cache.lookup_range(&h, 1, 3), RangeStep::Done(b"bc".to_vec()));
}

#[test]
fn ranges_are_decided_by_what_memory_has() {
    assert_eq!(range_step(Some(b"abcdef".to_vec()), None, 2, 99), RangeStep::Done(b"cdef".to_vec()));
    assert_eq!(range_step(Some(b"abc".to_vec()), None, 2, 1), RangeStep::Done(Vec::new()));
    assert_eq!(range_step(None, None, 3, 3), RangeStep::Done(Vec::new()));
    assert_eq!(range_step(None, Some(b"x".to_vec()), 3, 4), RangeStep::Done(b"x".to_vec()));
    assert_eq!(range_step(None, None, 3, 4), RangeStep::Ask);
    assert_eq!(file_range(10, 4, 99), Some((4, 6)));
    assert_eq!(file_range(10, 10, 99), None);
}

#[test]
fn blobs_have_their_files() {
    assert_eq!(blob_path("abcdef"), "blobs/ab/abcdef");
    assert_eq!(blob_path("éab"), "blobs/é/éab");
    assert_eq!(blob_path("/tmp/x"), "/tmp/x");
}

#[test]
fn weights_are_only_about_right() {
    let mut cache = CachingObjectStore::new();
    cache.blob_written("h", b"abc", DiskWrite::New);
    cache.range_read("h", 0, 2, b"ab", true);
    assert!(cache.mem_cache_weighted_size() <= 3);
    assert!(cache.block_cache_weighted_size() <= 2);
}

#[test]
fn a_limit_of_zero_turns_memory_off() {
    let mut cache = CachingObjectStore::new().with_max_mem_bytes(0);
    cache.blob_written("h", b"abc", DiskWrite::New);
    assert!(cache.lookup_blob("h").is_none());
    assert_eq!(cache.lookup_range("h", 0, 2), RangeStep::Ask);
    assert_eq!(cache.mem_cache_weighted_size(), 0);
    let mut cache = CachingObjectStore::new().with_max_mem_bytes(10);
    cache.blob_written("h", b"abc", DiskWrite::New);
    assert_eq!(cache.lookup_blob("h").unwrap(), b"abc");
}
