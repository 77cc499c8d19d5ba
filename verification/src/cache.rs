//! The cache before an object store: what it keeps in memory and on disk, what
//! it gives back, and what it drops.

use std::sync::Arc;
use vstd::prelude::*;
use vstd::slice::slice_subrange;
use vstd::string::*;
use crate::bytes::copy_bytes;
use crate::media::opt_view;
use crate::text::{chars_of, copy_text, decimal, has_prefix, push_chars, same_text, starts_with, text_of, text_views,
    write_decimal};
use crate::text_map::TextMap;
use crate::tiers::{cache_get, cache_given, cache_insert, cache_invalidate, cache_keys, cache_limit, cache_new,
    cache_weight, held, lru_limit, lru_new, lru_order, lru_pop, lru_pop_lru, lru_put, value_in, without_key};
use crate::types::byte_views;

verus! {

/// The default limit of the blobs in memory, and of the ranges in memory.
pub const DEFAULT_MEM_BYTES: usize = 268_435_456;

/// Blobs of this size and more are not kept in memory by default.
pub const DEFAULT_SKIP_THRESHOLD: usize = 1_048_576;

/// The default limit of the blobs on disk.
pub const DEFAULT_DISK_BYTES: usize = 1_000_000_000;

/// How long a reference is believed by default, in nanoseconds.
pub const DEFAULT_REF_TTL: u64 = 5_000_000_000;

/// Where the cache is.
#[derive(Debug, PartialEq)]
pub enum CacheDir {
    /// In a directory.
    At(String),
    /// Where it is by default.
    Default,
}

/// A text that turns the cache off.
pub open spec fn turns_off(s: Seq<char>) -> bool {
    s == ""@ || s == "off"@ || s == "none"@
}

/// Where the cache is: a directory, or where it is by default; nowhere where it is
/// turned off.
pub open spec fn cache_place(explicit: Option<Seq<char>>, env: Option<Seq<char>>) -> Option<Option<Seq<char>>> {
    match explicit {
        Some(dir) => if turns_off(dir) {
            None
        } else {
            Some(Some(dir))
        },
        None => match env {
            Some(dir) => if turns_off(dir) {
                None
            } else {
                Some(Some(dir))
            },
            None => Some(None),
        },
    }
}

/// Decides where the cache is: where the caller says, else where the environment
/// says, else where it is by default. Neither may turn it off.
pub fn resolve_cache_dir(explicit: Option<&str>, env: Option<&str>) -> (r: Option<CacheDir>)
    ensures
        match (explicit, env) {
            (Some(dir), _) => if turns_off(dir@) {
                r is None
            } else {
                r matches Some(CacheDir::At(d)) && d@ == dir@
            },
            (None, Some(dir)) => if turns_off(dir@) {
                r is None
            } else {
                r matches Some(CacheDir::At(d)) && d@ == dir@
            },
            (None, None) => r == Some(CacheDir::Default),
        },
        cache_place(opt_view(explicit), opt_view(env)) == (match r {
            Some(CacheDir::At(d)) => Some(Some(d@)),
            Some(CacheDir::Default) => Some(None),
            None => None,
        }),
{
    let raw: Option<&str> = match explicit {
        Some(dir) => Some(dir),
        None => env,
    };
    match raw {
        None => Some(CacheDir::Default),
        Some(dir) => if same_text(dir, "") || same_text(dir, "off") || same_text(dir, "none") {
            None
        } else {
            Some(CacheDir::At(copy_text(dir)))
        },
    }
}

/// Whether the default place is in the home directory; without one it is among
/// the temporary files.
pub fn default_root_is_home(home: Option<&str>) -> (r: bool)
    ensures
        r == (match home {
            Some(h) => h@ != ""@,
            None => false,
        }),
{
    match home {
        Some(h) => !same_text(h, ""),
        None => false,
    }
}

/// How many characters the first two bytes of a text are; nothing where they are
/// no whole characters.
pub open spec fn two_bytes(s: Seq<char>) -> Option<int> {
    if s.len() >= 2 && (s[0] as u32) < 0x80 && (s[1] as u32) < 0x80 {
        Some(2)
    } else if s.len() >= 1 && 0x80 <= (s[0] as u32) < 0x800 {
        Some(1)
    } else {
        None
    }
}

/// Where a blob's file is, below the cache's directory. A hash that is an absolute
/// path is its own place.
pub open spec fn blob_file(hash: Seq<char>) -> Seq<char> {
    if hash[0] == '/' {
        hash
    } else {
        "blobs/"@ + hash.take(two_bytes(hash)->0) + "/"@ + hash
    }
}

/// Where a blob's file is.
pub fn blob_path(hash: &str) -> (r: String)
    requires
        two_bytes(hash@) is Some,
    ensures
        r@ == blob_file(hash@),
{
    let chars = chars_of(hash);
    if chars[0] == '/' {
        return copy_text(hash);
    }
    let mut out = chars_of("blobs/");
    out.push(chars[0]);
    if (chars[0] as u32) < 0x80 {
        out.push(chars[1]);
    }
    let slash = chars_of("/");
    push_chars(&mut out, &slash);
    push_chars(&mut out, &chars);
    proof {
        assert(out@ =~= blob_file(hash@));
    }
    text_of(&out)
}

/// What the disk tier is: the blobs from the least to the most recently used,
/// the bytes that they take, and the limit.
pub struct DiskView {
    pub order: Seq<(Seq<char>, usize)>,
    pub usage: nat,
    pub max: nat,
}

/// A number less another, but not below zero.
pub open spec fn less(a: nat, b: nat) -> nat {
    if a >= b {
        (a - b) as nat
    } else {
        0
    }
}

/// The tier once it has dropped its least recently used blobs until it is within
/// its limit, and the blobs that it dropped.
pub open spec fn evicted(d: DiskView) -> (DiskView, Seq<Seq<char>>)
    decreases d.order.len(),
{
    if d.usage > d.max && d.order.len() > 0 {
        let first = d.order[0];
        let rest = evicted(
            DiskView { order: d.order.drop_first(), usage: less(d.usage, first.1 as nat), max: d.max },
        );
        (rest.0, seq![first.0] + rest.1)
    } else {
        (d, Seq::empty())
    }
}

/// The order with a blob as the most recently used.
pub open spec fn promoted(order: Seq<(Seq<char>, usize)>, hash: Seq<char>, size: usize) -> Seq<(Seq<char>, usize)> {
    without_key(order, hash).push((hash, size))
}

/// How a blob was written to its file.
#[derive(Debug, Clone, Copy, PartialEq, Eq, Structural)]
pub enum DiskWrite {
    /// It could not be.
    Failed,
    /// There was no file.
    New,
    /// There was a file already.
    Existing,
}

/// The disk tier after a blob was written.
pub open spec fn after_write(d: DiskView, hash: Seq<char>, size: usize, write: DiskWrite) -> (
    DiskView,
    Seq<Seq<char>>,
) {
    match write {
        DiskWrite::Failed => (d, Seq::empty()),
        DiskWrite::Existing => (
            DiskView { order: promoted(d.order, hash, size), ..d },
            Seq::empty(),
        ),
        DiskWrite::New => evicted(
            DiskView {
                order: promoted(d.order, hash, size),
                usage: d.usage + size as nat,
                max: d.max,
            },
        ),
    }
}

/// The disk tier after a blob's file was removed.
pub open spec fn after_remove(d: DiskView, hash: Seq<char>, size: usize) -> DiskView {
    DiskView { order: without_key(d.order, hash), usage: less(d.usage, size as nat), max: d.max }
}

/// The part of a blob from `start` up to `end`, as far as the blob goes.
pub open spec fn range_of(data: Seq<u8>, start: nat, end: nat) -> Seq<u8> {
    let stop = if end < data.len() {
        end
    } else {
        data.len()
    };
    if start >= stop {
        Seq::empty()
    } else {
        data.subrange(start as int, stop as int)
    }
}

/// The last `n` bytes of a blob, or all of it.
pub open spec fn suffix_of(data: Seq<u8>, n: nat) -> Seq<u8> {
    if data.len() < n {
        data
    } else {
        data.skip(data.len() - n)
    }
}

/// Cuts a range out of a blob.
pub fn slice_range(data: &[u8], start: u64, end: u64) -> (r: Vec<u8>)
    ensures
        r@ == range_of(data@, start as nat, end as nat),
{
    let len: u64 = data.len() as u64;
    let stop: u64 = if end < len {
        end
    } else {
        len
    };
    if start >= stop {
        let out: Vec<u8> = Vec::new();
        proof {
            assert(out@ =~= Seq::<u8>::empty());
        }
        out
    } else {
        copy_bytes(slice_subrange(data, start as usize, stop as usize))
    }
}

/// Cuts the tail off a blob.
pub fn slice_suffix(data: &[u8], n: u64) -> (r: Vec<u8>)
    ensures
        r@ == suffix_of(data@, n as nat),
{
    let len: usize = data.len();
    if (len as u64) < n {
        copy_bytes(data)
    } else {
        let from: usize = len - n as usize;
        let out = copy_bytes(slice_subrange(data, from, len));
        proof {
            assert(out@ =~= data@.skip(from as int));
        }
        out
    }
}

/// The part of a file of a length that a range is: from where, and how many
/// bytes. There is none where it is empty.
pub open spec fn file_part(file_len: nat, start: nat, end: nat) -> Option<(nat, nat)> {
    let stop = if end < file_len {
        end
    } else {
        file_len
    };
    if start >= stop {
        None
    } else {
        Some((start, (stop - start) as nat))
    }
}

/// Where to read a range in a file of a length.
pub fn file_range(file_len: u64, start: u64, end: u64) -> (r: Option<(u64, u64)>)
    ensures
        file_part(file_len as nat, start as nat, end as nat) == (match r {
            Some((from, n)) => Some((from as nat, n as nat)),
            None => None,
        }),
        forall|data: Seq<u8>|
            data.len() == file_len ==> match r {
                Some((from, n)) => from == start && n > 0 && from + n <= file_len
                    && #[trigger] range_of(data, start as nat, end as nat) == data.subrange(
                    from as int,
                    from + n,
                ),
                None => range_of(data, start as nat, end as nat) == Seq::<u8>::empty(),
            },
{
    let stop: u64 = if end < file_len {
        end
    } else {
        file_len
    };
    if start >= stop {
        None
    } else {
        Some((start, stop - start))
    }
}

/// How many bytes to read at the end of a file of a length.
pub fn file_suffix(file_len: u64, n: u64) -> (r: u64)
    ensures
        r <= file_len,
        forall|data: Seq<u8>|
            data.len() == file_len ==> #[trigger] suffix_of(data, n as nat) == data.skip(
                data.len() - r,
            ),
{
    if n < file_len {
        n
    } else {
        proof {
            assert forall|data: Seq<u8>| data.len() == file_len implies #[trigger] suffix_of(
                data,
                n as nat,
            ) == data.skip(data.len() - file_len) by {
                assert(data.skip(0) =~= data);
            }
        }
        file_len
    }
}

/// What is still to be done for a read of a range.
#[derive(Debug, PartialEq)]
pub enum RangeStep {
    /// Nothing: these are the bytes.
    Done(Vec<u8>),
    /// Look on disk, then in the store behind.
    Ask,
}

pub open spec fn step_view(s: RangeStep) -> Option<Seq<u8>> {
    match s {
        RangeStep::Done(v) => Some(v@),
        RangeStep::Ask => None,
    }
}

/// What memory says of a range: the whole blob where it is there, nothing for an
/// empty range, the very range where it is there.
pub open spec fn range_answer(
    blob: Option<Seq<u8>>,
    block: Option<Seq<u8>>,
    start: nat,
    end: nat,
) -> Option<Seq<u8>> {
    match blob {
        Some(data) => Some(range_of(data, start, end)),
        None => if end <= start {
            Some(Seq::empty())
        } else {
            block
        },
    }
}

pub open spec fn bytes_view(v: Option<Vec<u8>>) -> Option<Seq<u8>> {
    match v {
        Some(x) => Some(x@),
        None => None,
    }
}

/// Decides a read of a range by what memory holds.
pub fn range_step(blob: Option<Vec<u8>>, block: Option<Vec<u8>>, start: u64, end: u64) -> (r: RangeStep)
    ensures
        step_view(r) == range_answer(
            bytes_view(blob),
            bytes_view(block),
            start as nat,
            end as nat,
        ),
{
    match blob {
        Some(data) => RangeStep::Done(slice_range(&data, start, end)),
        None => if end <= start {
            let out: Vec<u8> = Vec::new();
            proof {
                assert(out@ =~= Seq::<u8>::empty());
            }
            RangeStep::Done(out)
        } else {
            match block {
                Some(data) => RangeStep::Done(data),
                None => RangeStep::Ask,
            }
        },
    }
}

/// Under what a range is kept.
pub open spec fn block_key(hash: Seq<char>, start: nat, len: nat) -> Seq<char> {
    hash + ":"@ + decimal(start) + ":"@ + decimal(len)
}

fn make_block_key(hash: &str, start: u64, len: u64) -> (r: String)
    ensures
        r@ == block_key(hash@, start as nat, len as nat),
{
    let mut out = chars_of(hash);
    let colon = chars_of(":");
    push_chars(&mut out, &colon);
    let s = write_decimal(start);
    push_chars(&mut out, &s);
    push_chars(&mut out, &colon);
    let l = write_decimal(len);
    push_chars(&mut out, &l);
    text_of(&out)
}

/// A reference and when it was seen.
pub struct RefEntry {
    pub hash: String,
    pub inserted_at: u64,
}

/// The time from one moment to a later one.
pub open spec fn elapsed(now: u64, since: u64) -> nat {
    less(now as nat, since as nat)
}

/// The cache before an object store. What it holds is behind its view.
pub struct CachingObjectStore {
    /// Blobs in memory.
    mem: moka::sync::Cache<String, Arc<Vec<u8>>>,
    skip_mem_cache_threshold: usize,
    /// Ranges of blobs in memory.
    blocks: moka::sync::Cache<String, Arc<Vec<u8>>>,
    /// The blobs that have ranges in memory.
    block_hashes: TextMap<bool>,
    refs: TextMap<RefEntry>,
    ref_ttl: u64,
    /// The blobs on disk with their sizes.
    order: lru::LruCache<String, usize>,
    disk_usage: usize,
    max_disk_bytes: usize,
    /// The blobs that are being fetched.
    in_flight: TextMap<bool>,
}

/// What a cache holds.
pub struct StoreView {
    /// The blobs that memory may give back.
    pub mem: Map<Seq<char>, Seq<u8>>,
    /// The limit that the memory for blobs was made with.
    pub max_mem_bytes: u64,
    /// The bytes of all blobs that were ever put into it.
    pub mem_given: nat,
    pub skip_mem_cache_threshold: usize,
    /// The ranges that memory may give back, under their keys.
    pub blocks: Map<Seq<char>, Seq<u8>>,
    /// The limit that the memory for ranges was made with.
    pub max_block_bytes: u64,
    /// The bytes of all ranges that were ever put into it.
    pub blocks_given: nat,
    /// The blobs that are marked as having ranges in memory.
    pub marks: Set<Seq<char>>,
    /// The references, each with its hash and the time when it was seen.
    pub refs: Map<Seq<char>, (Seq<char>, u64)>,
    pub ref_ttl: u64,
    pub disk: DiskView,
    /// The blobs that are being fetched.
    pub in_flight: Set<Seq<char>>,
}

/// The keys of a map of marks.
pub open spec fn marked_in(marks: TextMap<bool>) -> Set<Seq<char>> {
    Set::new(|h: Seq<char>| marks.at(h) is Some)
}

/// The references of a map of entries.
pub open spec fn refs_in(refs: TextMap<RefEntry>) -> Map<Seq<char>, (Seq<char>, u64)> {
    Map::new(
        |p: Seq<char>| refs.at(p) is Some,
        |p: Seq<char>| (refs.at(p)->0.hash@, refs.at(p)->0.inserted_at),
    )
}

/// Every range in memory belongs to a blob that is marked as having some.
pub open spec fn blocks_tracked(blocks: Map<Seq<char>, Seq<u8>>, marks: Set<Seq<char>>) -> bool {
    forall|k: Seq<char>|
        #[trigger] blocks.contains_key(k) ==> exists|h: Seq<char>, s: nat, l: nat|
            k == #[trigger] block_key(h, s, l) && marks.contains(h)
}

/// The cache with one more blob in memory, where it is small enough.
pub open spec fn mem_with(v: StoreView, hash: Seq<char>, data: Seq<u8>) -> StoreView {
    if data.len() < v.skip_mem_cache_threshold {
        StoreView { mem: v.mem.insert(hash, data), mem_given: v.mem_given + data.len(), ..v }
    } else {
        v
    }
}

/// A cache that was just made, with the default limits.
pub open spec fn new_store() -> StoreView {
    StoreView {
        mem: Map::empty(),
        max_mem_bytes: DEFAULT_MEM_BYTES as u64,
        mem_given: 0,
        skip_mem_cache_threshold: DEFAULT_SKIP_THRESHOLD,
        blocks: Map::empty(),
        max_block_bytes: DEFAULT_MEM_BYTES as u64,
        blocks_given: 0,
        marks: Set::empty(),
        refs: Map::empty(),
        ref_ttl: DEFAULT_REF_TTL,
        disk: DiskView { order: Seq::empty(), usage: 0, max: DEFAULT_DISK_BYTES as nat },
        in_flight: Set::empty(),
    }
}

/// The cache with a limit of the blobs on disk.
pub open spec fn with_disk_limit(v: StoreView, bytes: nat) -> StoreView {
    StoreView { disk: DiskView { max: bytes, ..v.disk }, ..v }
}

/// The cache with a limit of the blobs in memory, none of which is there yet.
pub open spec fn with_mem_limit(v: StoreView, bytes: u64) -> StoreView {
    StoreView { mem: Map::empty(), max_mem_bytes: bytes, mem_given: 0, ..v }
}

/// The cache with a reference noted.
pub open spec fn with_ref(v: StoreView, path: Seq<char>, hash: Seq<char>, now: u64) -> StoreView {
    StoreView { refs: v.refs.insert(path, (hash, now)), ..v }
}

/// The cache without a reference.
pub open spec fn without_ref(v: StoreView, path: Seq<char>) -> StoreView {
    StoreView { refs: v.refs.remove(path), ..v }
}

/// The cache after a conditional write of a reference.
pub open spec fn after_write_if(v: StoreView, path: Seq<char>, won: bool, hash: Seq<char>, now: u64) -> StoreView {
    if won {
        with_ref(v, path, hash, now)
    } else {
        without_ref(v, path)
    }
}

/// What a reference is known to be, where it was noted not too long ago.
pub open spec fn ref_seen(v: StoreView, path: Seq<char>, now: u64) -> Option<Seq<char>> {
    if v.refs.contains_key(path) && elapsed(now, v.refs[path].1) < v.ref_ttl {
        Some(v.refs[path].0)
    } else {
        None
    }
}

/// The cache while a blob is fetched, and whether the caller is the one to fetch it.
pub open spec fn fetch_begun(v: StoreView, hash: Seq<char>) -> (StoreView, bool) {
    (StoreView { in_flight: v.in_flight.insert(hash), ..v }, !v.in_flight.contains(hash))
}

/// The cache once a blob is fetched.
pub open spec fn fetch_ended(v: StoreView, hash: Seq<char>) -> StoreView {
    StoreView { in_flight: v.in_flight.remove(hash), ..v }
}

/// The cache after a blob was put, and the blobs whose files are to be deleted.
pub open spec fn after_put(v: StoreView, hash: Seq<char>, data: Seq<u8>, write: DiskWrite) -> (
    StoreView,
    Seq<Seq<char>>,
) {
    let (disk, gone) = after_write(v.disk, hash, data.len() as usize, write);
    (StoreView { disk, ..mem_with(v, hash, data) }, gone)
}

/// The cache after a range was read: from the disk any is kept, from the store
/// behind only one that is there in full.
pub open spec fn after_range_read(
    v: StoreView,
    hash: Seq<char>,
    start: nat,
    end: nat,
    data: Seq<u8>,
    from_disk: bool,
) -> StoreView {
    if from_disk || data.len() == end - start {
        StoreView {
            blocks: v.blocks.insert(block_key(hash, start, (end - start) as nat), data),
            blocks_given: v.blocks_given + data.len(),
            marks: v.marks.insert(hash),
            ..v
        }
    } else {
        v
    }
}

/// Memory may answer a read of a range with some bytes: with those of the whole
/// blob, with nothing for an empty range, with the very range. A memory with a
/// limit of zero answers nothing.
pub open spec fn range_found(v: StoreView, hash: Seq<char>, start: nat, end: nat, data: Seq<u8>) -> bool {
    ||| v.max_mem_bytes > 0 && v.mem.contains_key(hash) && data == range_of(v.mem[hash], start, end)
    ||| end <= start && data == Seq::<u8>::empty()
    ||| start < end && v.max_block_bytes > 0 && v.blocks.contains_key(
        block_key(hash, start, (end - start) as nat),
    ) && data == v.blocks[block_key(hash, start, (end - start) as nat)]
}

impl View for CachingObjectStore {
    type V = StoreView;

    closed spec fn view(&self) -> StoreView {
        StoreView {
            mem: held(self.mem),
            max_mem_bytes: cache_limit(self.mem),
            mem_given: cache_given(self.mem),
            skip_mem_cache_threshold: self.skip_mem_cache_threshold,
            blocks: held(self.blocks),
            max_block_bytes: cache_limit(self.blocks),
            blocks_given: cache_given(self.blocks),
            marks: marked_in(self.block_hashes),
            refs: refs_in(self.refs),
            ref_ttl: self.ref_ttl,
            disk: DiskView {
                order: lru_order(self.order),
                usage: self.disk_usage as nat,
                max: self.max_disk_bytes as nat,
            },
            in_flight: marked_in(self.in_flight),
        }
    }
}

impl CachingObjectStore {
    /// The maps are sound, the order of the blobs on disk drops none by itself, and
    /// every range in memory can be found again by its blob.
    pub closed spec fn wf(&self) -> bool {
        &&& self.block_hashes.wf()
        &&& self.refs.wf()
        &&& self.in_flight.wf()
        &&& lru_limit(self.order) == usize::MAX
        &&& blocks_tracked(held(self.blocks), marked_in(self.block_hashes))
    }

    /// Every range in memory belongs to a blob that is marked as having some.
    pub proof fn ranges_are_tracked(&self)
        requires
            self.wf(),
        ensures
            blocks_tracked(self@.blocks, self@.marks),
    {
    }

    /// An empty cache with the default limits.
    pub fn new() -> (r: CachingObjectStore)
        ensures
            r.wf(),
            r@ == (StoreView {
                mem: Map::empty(),
                max_mem_bytes: DEFAULT_MEM_BYTES as u64,
                mem_given: 0,
                skip_mem_cache_threshold: DEFAULT_SKIP_THRESHOLD,
                blocks: Map::empty(),
                max_block_bytes: DEFAULT_MEM_BYTES as u64,
                blocks_given: 0,
                marks: Set::empty(),
                refs: Map::empty(),
                ref_ttl: DEFAULT_REF_TTL,
                disk: DiskView { order: Seq::empty(), usage: 0, max: DEFAULT_DISK_BYTES as nat },
                in_flight: Set::empty(),
            }),
            r@ == new_store(),
    {
        let r = CachingObjectStore {
            mem: cache_new(DEFAULT_MEM_BYTES as u64),
            skip_mem_cache_threshold: DEFAULT_SKIP_THRESHOLD,
            blocks: cache_new(DEFAULT_MEM_BYTES as u64),
            block_hashes: TextMap::new(),
            refs: TextMap::new(),
            ref_ttl: DEFAULT_REF_TTL,
            order: lru_new(),
            disk_usage: 0,
            max_disk_bytes: DEFAULT_DISK_BYTES,
            in_flight: TextMap::new(),
        };
        proof {
            assert(r@.marks =~= Set::<Seq<char>>::empty());
            assert(r@.in_flight =~= Set::<Seq<char>>::empty());
            assert(r@.refs =~= Map::<Seq<char>, (Seq<char>, u64)>::empty());
            assert(r@.disk.order =~= Seq::<(Seq<char>, usize)>::empty());
        }
        r
    }

    /// Sets the limit of the blobs on disk.
    pub fn with_max_disk_bytes(self, bytes: usize) -> (r: CachingObjectStore)
        requires
            self.wf(),
        ensures
            r.wf(),
            r@ == (StoreView { disk: DiskView { max: bytes as nat, ..self@.disk }, ..self@ }),
            r@ == with_disk_limit(self@, bytes as nat),
    {
        let mut s = self;
        s.max_disk_bytes = bytes;
        s
    }

    /// Sets the limit of the blobs in memory, which starts empty.
    pub fn with_max_mem_bytes(self, bytes: usize) -> (r: CachingObjectStore)
        requires
            self.wf(),
        ensures
            r.wf(),
            r@ == (StoreView {
                mem: Map::empty(),
                max_mem_bytes: bytes as u64,
                mem_given: 0,
                ..self@
            }),
            r@ == with_mem_limit(self@, bytes as u64),
    {
        let mut s = self;
        s.mem = cache_new(bytes as u64);
        s
    }

    /// Sets the size from which on blobs are not kept in memory.
    pub fn with_skip_mem_cache_threshold(self, bytes: usize) -> (r: CachingObjectStore)
        requires
            self.wf(),
        ensures
            r.wf(),
            r@ == (StoreView { skip_mem_cache_threshold: bytes, ..self@ }),
    {
        let mut s = self;
        s.skip_mem_cache_threshold = bytes;
        s
    }

    /// Sets how long a reference is believed, in nanoseconds.
    pub fn with_ref_ttl(self, ttl: u64) -> (r: CachingObjectStore)
        requires
            self.wf(),
        ensures
            r.wf(),
            r@ == (StoreView { ref_ttl: ttl, ..self@ }),
    {
        let mut s = self;
        s.ref_ttl = ttl;
        s
    }

    /// The bytes that the blobs on disk take.
    pub fn disk_usage_bytes(&self) -> (r: usize)
        ensures
            r == self@.disk.usage,
    {
        self.disk_usage
    }

    /// About how many bytes the blobs in memory take. The count lags behind. It is
    /// at most what was ever put in, and zero where the limit is.
    pub fn mem_cache_weighted_size(&self) -> (r: u64)
        ensures
            r <= self@.mem_given,
            self@.max_mem_bytes == 0 ==> r == 0,
    {
        cache_weight(&self.mem)
    }

    /// About how many bytes the ranges in memory take. The count lags behind. It is
    /// at most what was ever put in, and zero where the limit is.
    pub fn block_cache_weighted_size(&self) -> (r: u64)
        ensures
            r <= self@.blocks_given,
            self@.max_block_bytes == 0 ==> r == 0,
    {
        cache_weight(&self.blocks)
    }

    /// Keeps a blob in memory, where it is small enough.
    pub fn maybe_insert_mem_cache(&mut self, hash: &str, data: &[u8])
        requires
            old(self).wf(),
        ensures
            final(self).wf(),
            final(self)@ == mem_with(old(self)@, hash@, data@),
    {
        if data.len() < self.skip_mem_cache_threshold {
            cache_insert(&mut self.mem, copy_text(hash), copy_bytes(data));
        }
    }

    /// Looks for a blob in memory. There is none where the limit is zero.
    pub fn lookup_blob(&self, hash: &str) -> (r: Option<Vec<u8>>)
        ensures
            self@.max_mem_bytes == 0 ==> r is None,
            r matches Some(v) ==> self@.mem.contains_key(hash@) && self@.mem[hash@] == v@,
    {
        cache_get(&self.mem, hash)
    }

    /// Drops the least recently used blobs on disk while they take too much;
    /// gives those to delete.
    pub fn evict_if_needed(&mut self) -> (r: Vec<String>)
        requires
            old(self).wf(),
        ensures
            final(self).wf(),
            (final(self)@.disk, text_views(r@)) == evicted(old(self)@.disk),
            final(self)@ == (StoreView { disk: final(self)@.disk, ..old(self)@ }),
    {
        let ghost want = evicted(self@.disk);
        let mut out: Vec<String> = Vec::new();
        let mut empty: bool = false;
        proof {
            assert(text_views(out@) =~= Seq::<Seq<char>>::empty());
            assert(Seq::<Seq<char>>::empty() + want.1 =~= want.1);
        }
        while self.disk_usage > self.max_disk_bytes && !empty
            invariant
                self.wf(),
                want == evicted(old(self)@.disk),
                want.0 == evicted(self@.disk).0,
                want.1 == text_views(out@) + evicted(self@.disk).1,
                empty ==> self@.disk.order.len() == 0,
                self@ == (StoreView { disk: self@.disk, ..old(self)@ }),
            decreases
                    self@.disk.order.len(),
                    if empty {
                        0int
                    } else {
                        1int
                    },
        {
            let ghost before = self@.disk;
            let ghost done = text_views(out@);
            match lru_pop_lru(&mut self.order) {
                Some((hash, size)) => {
                    self.disk_usage = if self.disk_usage >= size {
                        self.disk_usage - size
                    } else {
                        0
                    };
                    let ghost hv = hash@;
                    out.push(hash);
                    proof {
                        assert(text_views(out@) =~= done.push(hv));
                        let rest = evicted(self@.disk);
                        assert(evicted(before) == (rest.0, seq![hv] + rest.1));
                        assert(done + (seq![hv] + rest.1) =~= done.push(hv) + rest.1);
                    }
                },
                None => {
                    empty = true;
                },
            }
        }
        proof {
            assert(text_views(out@) + Seq::<Seq<char>>::empty() =~= text_views(out@));
        }
        out
    }

    /// Takes note that a blob was written to its file, or that it could not be,
    /// and keeps it in memory where it is small enough; gives the blobs whose
    /// files are to be deleted.
    pub fn blob_written(&mut self, hash: &str, data: &[u8], write: DiskWrite) -> (r: Vec<String>)
        requires
            old(self).wf(),
            old(self)@.disk.usage + data@.len() <= usize::MAX,
        ensures
            final(self).wf(),
            (final(self)@, text_views(r@)) == after_put(old(self)@, hash@, data@, write),
    {
        let size: usize = data.len();
        let out: Vec<String> = match write {
            DiskWrite::Failed => Vec::new(),
            DiskWrite::Existing => {
                let _old = lru_put(&mut self.order, copy_text(hash), size);
                Vec::new()
            },
            DiskWrite::New => {
                self.disk_usage = self.disk_usage + size;
                let _old = lru_put(&mut self.order, copy_text(hash), size);
                self.evict_if_needed()
            },
        };
        proof {
            if write != DiskWrite::New {
                assert(text_views(out@) =~= Seq::<Seq<char>>::empty());
            }
        }
        self.maybe_insert_mem_cache(hash, data);
        out
    }

    /// Takes note that a blob was read from its file: it is the most recently
    /// used, and kept in memory where it is small enough. The size of the file is
    /// given where it is known.
    pub fn disk_hit(&mut self, hash: &str, data: &[u8], file_len: Option<usize>)
        requires
            old(self).wf(),
        ensures
            final(self).wf(),
            final(self)@ == (StoreView {
                disk: match file_len {
                    Some(n) => DiskView {
                        order: promoted(old(self)@.disk.order, hash@, n),
                        ..old(self)@.disk
                    },
                    None => old(self)@.disk,
                },
                ..mem_with(old(self)@, hash@, data@)
            }),
    {
        if let Some(n) = file_len {
            let _old = lru_put(&mut self.order, copy_text(hash), n);
        }
        self.maybe_insert_mem_cache(hash, data);
    }

    /// Takes note that a part of a blob was read from its file.
    pub fn promote(&mut self, hash: &str, file_len: usize)
        requires
            old(self).wf(),
        ensures
            final(self).wf(),
            final(self)@ == (StoreView {
                disk: DiskView {
                    order: promoted(old(self)@.disk.order, hash@, file_len),
                    ..old(self)@.disk
                },
                ..old(self)@
            }),
    {
        let _old = lru_put(&mut self.order, copy_text(hash), file_len);
    }

    /// Takes note that a blob's file was removed.
    pub fn remove_blob_from_disk(&mut self, hash: &str, file_len: usize)
        requires
            old(self).wf(),
        ensures
            final(self).wf(),
            final(self)@ == (StoreView {
                disk: after_remove(old(self)@.disk, hash@, file_len),
                ..old(self)@
            }),
    {
        self.disk_usage = if self.disk_usage >= file_len {
            self.disk_usage - file_len
        } else {
            0
        };
        let _old = lru_pop(&mut self.order, hash);
    }

    /// Whether a blob is marked as having ranges in memory.
    pub fn has_ranges(&self, hash: &str) -> (r: bool)
        requires
            self.wf(),
        ensures
            r == self@.marks.contains(hash@),
    {
        self.block_hashes.get(hash).is_some()
    }

    /// Looks for a range of a blob in memory.
    pub fn lookup_range(&self, hash: &str, start: u64, end: u64) -> (r: RangeStep)
        ensures
            match r {
                RangeStep::Done(v) => range_found(self@, hash@, start as nat, end as nat, v@),
                RangeStep::Ask => start < end,
            },
    {
        let blob = cache_get(&self.mem, hash);
        let block: Option<Vec<u8>> = if start < end {
            let key = make_block_key(hash, start, end - start);
            cache_get(&self.blocks, &key)
        } else {
            None
        };
        range_step(blob, block, start, end)
    }

    /// Keeps a range that was read: from the disk any, from the store behind only
    /// one that is there in full.
    pub fn range_read(&mut self, hash: &str, start: u64, end: u64, data: &[u8], from_disk: bool)
        requires
            old(self).wf(),
            start < end,
        ensures
            final(self).wf(),
            final(self)@ == after_range_read(
                old(self)@,
                hash@,
                start as nat,
                end as nat,
                data@,
                from_disk,
            ),
    {
        let len: u64 = end - start;
        if from_disk || data.len() as u64 == len {
            let key = make_block_key(hash, start, len);
            let ghost before = held(self.blocks);
            let ghost marks0 = marked_in(self.block_hashes);
            self.block_hashes.put(hash, true);
            cache_insert(&mut self.blocks, key, copy_bytes(data));
            proof {
                let after = held(self.blocks);
                let marks = marked_in(self.block_hashes);
                assert(marks =~= marks0.insert(hash@));
                assert forall|k: Seq<char>| #[trigger] after.contains_key(k) implies exists|
                    h: Seq<char>,
                    s: nat,
                    l: nat,
                | k == #[trigger] block_key(h, s, l) && marks.contains(h) by {
                    if k == block_key(hash@, start as nat, len as nat) {
                        assert(marks.contains(hash@));
                    } else {
                        assert(before.contains_key(k));
                        let (h, s, l) = choose|h: Seq<char>, s: nat, l: nat|
                            k == #[trigger] block_key(h, s, l) && marks0.contains(h);
                        assert(marks.contains(h));
                        assert(k == block_key(h, s, l));
                    }
                }
            }
        }
    }

    /// Drops all ranges of a blob.
    pub fn invalidate_block_cache(&mut self, hash: &str)
        requires
            old(self).wf(),
        ensures
            final(self).wf(),
            final(self)@ == (StoreView {
                blocks: final(self)@.blocks,
                marks: old(self)@.marks.remove(hash@),
                ..old(self)@
            }),
            !old(self)@.marks.contains(hash@) ==> final(self)@.blocks == old(self)@.blocks,
            old(self)@.marks.contains(hash@) ==> forall|k: Seq<char>|
                #[trigger] final(self)@.blocks.contains_key(k) ==> !starts_with(k, hash@ + ":"@),
            forall|k: Seq<char>|
                #[trigger] final(self)@.blocks.contains_key(k) ==> old(self)@.blocks.contains_key(k)
                    && final(self)@.blocks[k] == old(self)@.blocks[k],
    {
        let ghost first = held(self.blocks);
        let ghost marks0 = marked_in(self.block_hashes);
        let there = self.block_hashes.remove(hash);
        let ghost marks = marked_in(self.block_hashes);
        proof {
            assert(marks =~= marks0.remove(hash@));
        }
        if !there {
            proof {
                assert(marks =~= marks0);
            }
            return ;
        }
        let mut prefix = chars_of(hash);
        let colon = chars_of(":");
        push_chars(&mut prefix, &colon);
        let ghost pv = hash@ + ":"@;
        let keys = cache_keys(&mut self.blocks);
        let ghost kv = text_views(keys@);
        let mut i: usize = 0;
        while i < keys.len()
            invariant
                i <= keys@.len(),
                kv == text_views(keys@),
                pv == hash@ + ":"@,
                prefix@ == pv,
                first == old(self)@.blocks,
                marks == old(self)@.marks.remove(hash@),
                self@ == (StoreView { blocks: self@.blocks, marks, ..old(self)@ }),
                self.block_hashes.wf(),
                self.refs.wf(),
                self.in_flight.wf(),
                lru_limit(self.order) == usize::MAX,
                forall|k: Seq<char>|
                    #[trigger] held(self.blocks).contains_key(k) ==> first.contains_key(k) && held(
                        self.blocks,
                    )[k] == first[k] && kv.contains(k),
                forall|m: int|
                    0 <= m < i && starts_with(#[trigger] kv[m], pv) ==> !held(self.blocks).contains_key(
                        kv[m],
                    ),
            decreases keys@.len() - i,
        {
            let chars = chars_of(&keys[i]);
            proof {
                assert(kv[i as int] == keys@[i as int]@);
            }
            if has_prefix(&chars, &prefix) {
                cache_invalidate(&mut self.blocks, &keys[i]);
            }
            i = i + 1;
        }
        proof {
            let last = held(self.blocks);
            assert forall|k: Seq<char>| #[trigger] last.contains_key(k) implies !starts_with(k, pv) by {
                let m = choose|m: int| 0 <= m < kv.len() && kv[m] == k;
                assert(!(starts_with(kv[m], pv)));
            }
            assert forall|k: Seq<char>| #[trigger] last.contains_key(k) implies exists|
                h: Seq<char>,
                s: nat,
                l: nat,
            | k == #[trigger] block_key(h, s, l) && marks.contains(h) by {
                assert(first.contains_key(k));
                let (h, s, l) = choose|h: Seq<char>, s: nat, l: nat|
                    k == #[trigger] block_key(h, s, l) && marks0.contains(h);
                if h == hash@ {
                    assert(k.subrange(0, pv.len() as int) =~= pv);
                    assert(starts_with(k, pv));
                }
                assert(marks.contains(h));
                assert(k == block_key(h, s, l));
            }
            assert(marked_in(self.block_hashes) == marks);
        }
    }

    /// Takes note that a blob was deleted from the store behind: no tier in memory
    /// keeps it. Its file, where there is one, is the caller's to remove.
    pub fn delete_blob(&mut self, hash: &str)
        requires
            old(self).wf(),
        ensures
            final(self).wf(),
            final(self)@ == (StoreView {
                mem: old(self)@.mem.remove(hash@),
                blocks: final(self)@.blocks,
                marks: old(self)@.marks.remove(hash@),
                ..old(self)@
            }),
            !hash@.contains(':') && plain_marks(old(self)@.marks) ==> forall|s: nat, l: nat|
                !final(self)@.blocks.contains_key(#[trigger] block_key(hash@, s, l)),
            !old(self)@.marks.contains(hash@) ==> final(self)@.blocks == old(self)@.blocks,
            old(self)@.marks.contains(hash@) ==> forall|k: Seq<char>|
                #[trigger] final(self)@.blocks.contains_key(k) ==> !starts_with(k, hash@ + ":"@),
            forall|k: Seq<char>|
                #[trigger] final(self)@.blocks.contains_key(k) ==> old(self)@.blocks.contains_key(k)
                    && final(self)@.blocks[k] == old(self)@.blocks[k],
    {
        cache_invalidate(&mut self.mem, hash);
        self.invalidate_block_cache(hash);
        proof {
            let left = self@.blocks;
            if !hash@.contains(':') && plain_marks(old(self)@.marks) {
                assert forall|s: nat, l: nat| !left.contains_key(#[trigger] block_key(hash@, s, l)) by {
                    let k = block_key(hash@, s, l);
                    if left.contains_key(k) {
                        let (h2, s2, l2) = choose|h2: Seq<char>, s2: nat, l2: nat|
                            k == #[trigger] block_key(h2, s2, l2) && self@.marks.contains(h2);
                        assert(h2 != hash@);
                        assert(old(self)@.marks.contains(h2));
                        block_keys_are_distinct(hash@, s, l, h2, s2, l2);
                    }
                }
            }
        }
    }

    /// Takes note of what a reference is.
    pub fn put_path(&mut self, path: &str, hash: &str, now: u64)
        requires
            old(self).wf(),
        ensures
            final(self).wf(),
            final(self)@ == (StoreView {
                refs: old(self)@.refs.insert(path@, (hash@, now)),
                ..old(self)@
            }),
            final(self)@ == with_ref(old(self)@, path@, hash@, now),
    {
        self.refs.put(path, RefEntry { hash: copy_text(hash), inserted_at: now });
        proof {
            assert(self@.refs =~= old(self)@.refs.insert(path@, (hash@, now)));
        }
    }

    /// Takes note of the outcome of a conditional write: a reference that was won
    /// is known; one that was lost is forgotten, so that the next read asks the
    /// store behind.
    pub fn put_path_if(&mut self, path: &str, won: bool, new_hash: &str, now: u64)
        requires
            old(self).wf(),
        ensures
            final(self).wf(),
            final(self)@ == (StoreView {
                refs: if won {
                    old(self)@.refs.insert(path@, (new_hash@, now))
                } else {
                    old(self)@.refs.remove(path@)
                },
                ..old(self)@
            }),
            final(self)@ == after_write_if(old(self)@, path@, won, new_hash@, now),
    {
        if won {
            self.put_path(path, new_hash, now);
        } else {
            self.delete_path(path);
        }
    }

    /// What a reference is, where it was seen not too long ago.
    pub fn get_path(&self, path: &str, now: u64) -> (r: Option<String>)
        requires
            self.wf(),
        ensures
            match r {
                Some(hash) => self@.refs.contains_key(path@) && hash@ == self@.refs[path@].0 && elapsed(
                    now,
                    self@.refs[path@].1,
                ) < self@.ref_ttl,
                None => self@.refs.contains_key(path@) ==> elapsed(now, self@.refs[path@].1)
                    >= self@.ref_ttl,
            },
            match r {
                Some(hash) => ref_seen(self@, path@, now) == Some(hash@),
                None => ref_seen(self@, path@, now) is None,
            },
    {
        match self.refs.get(path) {
            Some(e) => {
                let age: u64 = if now >= e.inserted_at {
                    now - e.inserted_at
                } else {
                    0
                };
                if age < self.ref_ttl {
                    Some(copy_text(&e.hash))
                } else {
                    None
                }
            },
            None => None,
        }
    }

    /// Forgets a reference.
    pub fn delete_path(&mut self, path: &str)
        requires
            old(self).wf(),
        ensures
            final(self).wf(),
            final(self)@ == (StoreView { refs: old(self)@.refs.remove(path@), ..old(self)@ }),
            final(self)@ == without_ref(old(self)@, path@),
    {
        let _there = self.refs.remove(path);
        proof {
            assert(self@.refs =~= old(self)@.refs.remove(path@));
        }
    }

    /// Whether the caller is to fetch a blob; if not, somebody else is fetching it
    /// and the caller waits.
    pub fn begin_fetch(&mut self, hash: &str) -> (r: bool)
        requires
            old(self).wf(),
        ensures
            final(self).wf(),
            r == !old(self)@.in_flight.contains(hash@),
            final(self)@ == (StoreView {
                in_flight: old(self)@.in_flight.insert(hash@),
                ..old(self)@
            }),
            (final(self)@, r) == fetch_begun(old(self)@, hash@),
    {
        let first: bool = self.in_flight.get(hash).is_none();
        if first {
            self.in_flight.put(hash, true);
        }
        proof {
            assert(self@.in_flight =~= old(self)@.in_flight.insert(hash@));
        }
        first
    }

    /// Takes note that a fetch is over.
    pub fn end_fetch(&mut self, hash: &str)
        requires
            old(self).wf(),
        ensures
            final(self).wf(),
            final(self)@ == (StoreView {
                in_flight: old(self)@.in_flight.remove(hash@),
                ..old(self)@
            }),
            final(self)@ == fetch_ended(old(self)@, hash@),
    {
        let _there = self.in_flight.remove(hash);
        proof {
            assert(self@.in_flight =~= old(self)@.in_flight.remove(hash@));
        }
    }
}

/// The places without a blob.
pub open spec fn misses(found: Seq<Option<Vec<u8>>>) -> Seq<usize>
    decreases found.len(),
{
    if found.len() == 0 {
        Seq::empty()
    } else {
        let prev = misses(found.drop_last());
        if found.last() is None {
            prev.push((found.len() - 1) as usize)
        } else {
            prev
        }
    }
}

/// Lists the places of a batch that the cache could not fill.
pub fn batch_misses(found: &Vec<Option<Vec<u8>>>) -> (r: Vec<usize>)
    ensures
        r@ == misses(found@),
{
    let mut out: Vec<usize> = Vec::new();
    let mut i: usize = 0;
    proof {
        assert(found@.take(0) =~= Seq::<Option<Vec<u8>>>::empty());
    }
    while i < found.len()
        invariant
            i <= found@.len(),
            out@ == misses(found@.take(i as int)),
        decreases found@.len() - i,
    {
        proof {
            assert(found@.take(i as int + 1).drop_last() =~= found@.take(i as int));
            assert(found@.take(i as int + 1).last() == found@[i as int]);
        }
        if found[i].is_none() {
            out.push(i);
        }
        i = i + 1;
    }
    proof {
        assert(found@.take(i as int) =~= found@);
    }
    out
}

/// The blobs of a batch in the order asked for: those that the cache had, and in
/// the places between them those that were fetched.
pub open spec fn filled(found: Seq<Option<Vec<u8>>>, fetched: Seq<Seq<u8>>) -> Seq<Seq<u8>>
    decreases found.len(),
{
    if found.len() == 0 {
        Seq::empty()
    } else {
        let prev = filled(found.drop_last(), fetched);
        match found.last() {
            Some(data) => prev.push(data@),
            None => prev.push(fetched[misses(found.drop_last()).len() as int]),
        }
    }
}

proof fn lemma_misses_grow(found: Seq<Option<Vec<u8>>>, n: int)
    requires
        0 <= n <= found.len(),
    ensures
        misses(found.take(n)).len() <= misses(found).len(),
        misses(found).len() <= found.len(),
    decreases found.len(),
{
    if n == found.len() {
        assert(found.take(n) =~= found);
        if found.len() > 0 {
            lemma_misses_grow(found.drop_last(), found.len() - 1);
        }
    } else {
        let t = found.drop_last();
        assert(t.take(n) =~= found.take(n));
        lemma_misses_grow(t, n);
    }
}

/// Puts the fetched blobs of a batch in the places that the cache could not fill.
pub fn fill_batch(found: &Vec<Option<Vec<u8>>>, fetched: &Vec<Vec<u8>>) -> (r: Vec<Vec<u8>>)
    requires
        fetched@.len() >= misses(found@).len(),
    ensures
        byte_views(r@) == filled(found@, byte_views(fetched@)),
{
    let ghost fv = byte_views(fetched@);
    let mut out: Vec<Vec<u8>> = Vec::new();
    let mut next: usize = 0;
    let mut i: usize = 0;
    proof {
        assert(found@.take(0) =~= Seq::<Option<Vec<u8>>>::empty());
        assert(byte_views(out@) =~= Seq::<Seq<u8>>::empty());
    }
    while i < found.len()
        invariant
            i <= found@.len(),
            fv == byte_views(fetched@),
            fetched@.len() >= misses(found@).len(),
            next == misses(found@.take(i as int)).len(),
            next <= i,
            byte_views(out@) == filled(found@.take(i as int), fv),
        decreases found@.len() - i,
    {
        let ghost before = byte_views(out@);
        proof {
            assert(found@.take(i as int + 1).drop_last() =~= found@.take(i as int));
            assert(found@.take(i as int + 1).last() == found@[i as int]);
            lemma_misses_grow(found@, i as int + 1);
        }
        match &found[i] {
            Some(data) => {
                out.push(copy_bytes(data));
                proof {
                    assert(byte_views(out@) =~= before.push(data@));
                }
            },
            None => {
                out.push(copy_bytes(&fetched[next]));
                proof {
                    assert(byte_views(out@) =~= before.push(fv[next as int]));
                }
                next = next + 1;
            },
        }
        i = i + 1;
    }
    proof {
        assert(found@.take(i as int) =~= found@);
    }
    out
}

proof fn lemma_colon_parts(a: Seq<char>, b: Seq<char>, c: Seq<char>, d: Seq<char>)
    requires
        a + ":"@ + b == c + ":"@ + d,
        !a.contains(':'),
        !c.contains(':'),
    ensures
        a == c,
        b == d,
{
    reveal_strlit(":");
    let x = a + ":"@ + b;
    let y = c + ":"@ + d;
    assert(x[a.len() as int] == ':');
    assert(y[c.len() as int] == ':');
    if a.len() < c.len() {
        assert(y[a.len() as int] == c[a.len() as int]);
    }
    if c.len() < a.len() {
        assert(x[c.len() as int] == a[c.len() as int]);
    }
    assert(x.subrange(0, a.len() as int) =~= a);
    assert(y.subrange(0, c.len() as int) =~= c);
    assert(x.skip(a.len() as int + 1) =~= b);
    assert(y.skip(c.len() as int + 1) =~= d);
}

pub proof fn lemma_decimal(v: nat, w: nat)
    ensures
        !decimal(v).contains(':'),
        decimal(v).len() > 0,
        decimal(v) == decimal(w) ==> v == w,
    decreases v,
{
    let d = ((v % 10) as u8 + 48) as u8 as char;
    let e = ((w % 10) as u8 + 48) as u8 as char;
    assert(d != ':');
    if v < 10 {
        assert(decimal(v) == seq![d]);
        if decimal(v) == decimal(w) {
            if w >= 10 {
                lemma_decimal_len(w / 10);
                assert(decimal(w).len() == decimal(w / 10).len() + 1);
            }
            assert(decimal(v)[0] == d && decimal(w)[0] == e);
        }
    } else {
        lemma_decimal(v / 10, w / 10);
        let p = decimal(v / 10);
        assert(decimal(v) == p.push(d));
        if decimal(v).contains(':') {
            let k = choose|k: int| 0 <= k < decimal(v).len() && decimal(v)[k] == ':';
            if k < p.len() {
                assert(p[k] == ':');
            }
        }
        if decimal(v) == decimal(w) {
            if w < 10 {
                assert(decimal(w) == seq![e]);
                assert(p.len() == 0);
            } else {
                let q = decimal(w / 10);
                assert(decimal(w) == q.push(e));
                assert(decimal(v).last() == d && decimal(w).last() == e);
                assert(decimal(v).drop_last() =~= p);
                assert(decimal(w).drop_last() =~= q);
            }
        }
    }
}

proof fn lemma_decimal_len(v: nat)
    ensures
        decimal(v).len() > 0,
{
}

/// Two ranges are kept under one key only where they are the same range of the
/// same blob.
pub proof fn block_keys_are_distinct(h: Seq<char>, s: nat, l: nat, h2: Seq<char>, s2: nat, l2: nat)
    requires
        !h.contains(':'),
        !h2.contains(':'),
        block_key(h, s, l) == block_key(h2, s2, l2),
    ensures
        h == h2,
        s == s2,
        l == l2,
{
    let b = decimal(s) + ":"@ + decimal(l);
    let d = decimal(s2) + ":"@ + decimal(l2);
    assert(block_key(h, s, l) =~= h + ":"@ + b);
    assert(block_key(h2, s2, l2) =~= h2 + ":"@ + d);
    lemma_colon_parts(h, b, h2, d);
    lemma_decimal(s, s2);
    lemma_decimal(s2, s);
    lemma_colon_parts(decimal(s), decimal(l), decimal(s2), decimal(l2));
    lemma_decimal(l, l2);
}

/// No blob that is marked as having ranges has a colon in its hash.
pub open spec fn plain_marks(marks: Set<Seq<char>>) -> bool {
    forall|h: Seq<char>| #[trigger] marks.contains(h) ==> !h.contains(':')
}

/// What memory holds is what the blobs are.
pub open spec fn coherent(
    mem: Map<Seq<char>, Seq<u8>>,
    blocks: Map<Seq<char>, Seq<u8>>,
    blobs: spec_fn(Seq<char>) -> Seq<u8>,
) -> bool {
    &&& forall|h: Seq<char>| #[trigger] mem.contains_key(h) ==> mem[h] == blobs(h)
    &&& forall|h: Seq<char>, s: nat, l: nat|
        !h.contains(':') && blocks.contains_key(#[trigger] block_key(h, s, l)) ==> blocks[block_key(
            h,
            s,
            l,
        )] == range_of(blobs(h), s, s + l)
}

/// Whichever tier answers, a read of a range gives the bytes of the blob.
pub proof fn tiers_agree(
    mem: Map<Seq<char>, Seq<u8>>,
    blocks: Map<Seq<char>, Seq<u8>>,
    blobs: spec_fn(Seq<char>) -> Seq<u8>,
    hash: Seq<char>,
    start: nat,
    end: nat,
    blob: Option<Seq<u8>>,
    block: Option<Seq<u8>>,
)
    requires
        coherent(mem, blocks, blobs),
        !hash.contains(':'),
        blob matches Some(v) ==> mem.contains_key(hash) && v == mem[hash],
        block matches Some(v) ==> start < end && blocks.contains_key(
            block_key(hash, start, (end - start) as nat),
        ) && v == blocks[block_key(hash, start, (end - start) as nat)],
    ensures
        range_answer(blob, block, start, end) matches Some(v) ==> v == range_of(blobs(hash), start, end),
{
    if blob is None && end <= start {
        assert(range_of(blobs(hash), start, end) =~= Seq::<u8>::empty());
    }
}

/// Keeping a blob or a range of it leaves memory as the blobs are; so does
/// dropping anything.
pub proof fn memory_stays_coherent(
    mem: Map<Seq<char>, Seq<u8>>,
    blocks: Map<Seq<char>, Seq<u8>>,
    blobs: spec_fn(Seq<char>) -> Seq<u8>,
    hash: Seq<char>,
    start: nat,
    len: nat,
)
    requires
        coherent(mem, blocks, blobs),
        !hash.contains(':'),
    ensures
        coherent(mem.insert(hash, blobs(hash)), blocks, blobs),
        coherent(
            mem,
            blocks.insert(block_key(hash, start, len), range_of(blobs(hash), start, start + len)),
            blobs,
        ),
        coherent(mem.remove(hash), blocks, blobs),
        coherent(mem, blocks.remove(block_key(hash, start, len)), blobs),
{
    let key = block_key(hash, start, len);
    let more = blocks.insert(key, range_of(blobs(hash), start, start + len));
    assert forall|h: Seq<char>, s: nat, l: nat|
        !h.contains(':') && more.contains_key(#[trigger] block_key(h, s, l)) implies more[block_key(
        h,
        s,
        l,
    )] == range_of(blobs(h), s, s + l) by {
        if block_key(h, s, l) == key {
            block_keys_are_distinct(h, s, l, hash, start, len);
        } else {
            assert(blocks.contains_key(block_key(h, s, l)));
        }
    }
}

/// Whatever memory has of a blob is the blob's.
pub open spec fn holds_of(v: StoreView, hash: Seq<char>, data: Seq<u8>) -> bool {
    &&& v.mem.contains_key(hash) ==> v.mem[hash] == data
    &&& forall|s: nat, l: nat|
        v.blocks.contains_key(#[trigger] block_key(hash, s, l)) ==> v.blocks[block_key(hash, s, l)]
            == range_of(data, s, s + l)
}

/// One read of a range of a blob that memory or its file has: the cache before,
/// the bytes that came, the cache after. Memory answers and stays as it is; else
/// the file's part is read, the blob is the most recently used, and the part is
/// kept. There is no part where the range is past the end of the file.
pub open spec fn range_step_of(
    before: StoreView,
    after: StoreView,
    hash: Seq<char>,
    file: Seq<u8>,
    start: nat,
    end: nat,
    got: Seq<u8>,
) -> bool {
    ||| range_found(before, hash, start, end, got) && after == before
    ||| start < end && match file_part(file.len(), start, end) {
        None => got == Seq::<u8>::empty() && after == before,
        Some((from, n)) => {
            &&& got == file.subrange(from as int, (from + n) as int)
            &&& after == after_range_read(
                StoreView {
                    disk: DiskView {
                        order: promoted(before.disk.order, hash, file.len() as usize),
                        ..before.disk
                    },
                    ..before
                },
                hash,
                start,
                end,
                got,
                true,
            )
        },
    }
}

proof fn lemma_file_part(file: Seq<u8>, start: nat, end: nat)
    ensures
        match file_part(file.len(), start, end) {
            Some((from, n)) => from + n <= file.len() && range_of(file, start, end) == file.subrange(
                from as int,
                (from + n) as int,
            ),
            None => range_of(file, start, end) == Seq::<u8>::empty(),
        },
{
}

proof fn lemma_range_kept(v: StoreView, hash: Seq<char>, data: Seq<u8>, start: nat, end: nat, from_disk: bool)
    requires
        !hash.contains(':'),
        start < end,
        holds_of(v, hash, data),
    ensures
        holds_of(
            after_range_read(v, hash, start, end, range_of(data, start, end), from_disk),
            hash,
            data,
        ),
{
    let w = after_range_read(v, hash, start, end, range_of(data, start, end), from_disk);
    assert forall|s: nat, l: nat| w.blocks.contains_key(#[trigger] block_key(hash, s, l)) implies w.blocks[block_key(
        hash,
        s,
        l,
    )] == range_of(data, s, s + l) by {
        if block_key(hash, s, l) == block_key(hash, start, (end - start) as nat) {
            block_keys_are_distinct(hash, s, l, hash, start, (end - start) as nat);
        }
    }
}

proof fn lemma_reads(
    states: Seq<StoreView>,
    ranges: Seq<(nat, nat)>,
    got: Seq<Seq<u8>>,
    hash: Seq<char>,
    data: Seq<u8>,
    k: int,
)
    requires
        !hash.contains(':'),
        states.len() == got.len() + 1,
        ranges.len() == got.len(),
        holds_of(states[0], hash, data),
        forall|i: int|
            0 <= i < got.len() ==> #[trigger] range_step_of(
                states[i],
                states[i + 1],
                hash,
                data,
                ranges[i].0,
                ranges[i].1,
                got[i],
            ),
        0 <= k <= got.len(),
    ensures
        holds_of(states[k], hash, data),
        k < got.len() ==> got[k] == range_of(data, ranges[k].0, ranges[k].1),
    decreases k,
{
    if k > 0 {
        let i = k - 1;
        lemma_reads(states, ranges, got, hash, data, i);
        let (start, end) = ranges[i];
        assert(range_step_of(states[i], states[i + 1], hash, data, start, end, got[i]));
        if states[k] != states[i] {
            let used = StoreView {
                disk: DiskView {
                    order: promoted(states[i].disk.order, hash, data.len() as usize),
                    ..states[i].disk
                },
                ..states[i]
            };
            assert(holds_of(used, hash, data));
            lemma_file_part(data, start, end);
            lemma_range_kept(used, hash, data, start, end, true);
        }
    }
    if k < got.len() {
        let (start, end) = ranges[k];
        assert(range_step_of(states[k], states[k + 1], hash, data, start, end, got[k]));
        lemma_file_part(data, start, end);
        if start < end {
            assert(start + (end - start) as nat == end);
            let key = block_key(hash, start, (end - start) as nat);
            if states[k].blocks.contains_key(key) {
                assert(states[k].blocks[key] == range_of(data, start, end));
            }
        } else {
            assert(range_of(data, start, end) =~= Seq::<u8>::empty());
        }
    }
}

/// Every read of a range after a blob was put gives the range of the blob, as far
/// as the blob goes, and nothing for an empty range: whichever of memory and the
/// blob's file serves it, and however often ranges were read before. It is asked
/// that memory had nothing else of the blob when it was put.
pub proof fn ranges_of_a_put_blob(
    before: StoreView,
    hash: Seq<char>,
    data: Seq<u8>,
    write: DiskWrite,
    states: Seq<StoreView>,
    ranges: Seq<(nat, nat)>,
    got: Seq<Seq<u8>>,
    k: int,
)
    requires
        !hash.contains(':'),
        holds_of(before, hash, data),
        states.len() == got.len() + 1,
        ranges.len() == got.len(),
        states[0] == after_put(before, hash, data, write).0,
        forall|i: int|
            0 <= i < got.len() ==> #[trigger] range_step_of(
                states[i],
                states[i + 1],
                hash,
                data,
                ranges[i].0,
                ranges[i].1,
                got[i],
            ),
        0 <= k < got.len(),
    ensures
        got[k] == (if ranges[k].0 < ranges[k].1 && ranges[k].0 < data.len() {
            data.subrange(
                ranges[k].0 as int,
                if ranges[k].1 < data.len() {
                    ranges[k].1 as int
                } else {
                    data.len() as int
                },
            )
        } else {
            Seq::<u8>::empty()
        }),
{
    assert(holds_of(states[0], hash, data));
    lemma_reads(states, ranges, got, hash, data, k);
}

/// Dropping blobs takes the least recently used ones, as many as are needed and
/// no more, until the rest is within the limit or there is none.
pub proof fn eviction_is_least_recent_first(d: DiskView)
    ensures
        ({
            let (rest, gone) = evicted(d);
            &&& gone.len() <= d.order.len()
            &&& rest.order == d.order.skip(gone.len() as int)
            &&& forall|i: int| 0 <= i < gone.len() ==> #[trigger] gone[i] == d.order[i].0
            &&& rest.max == d.max
            &&& rest.usage <= rest.max || rest.order.len() == 0
            &&& d.usage <= d.max ==> gone.len() == 0
        }),
    decreases d.order.len(),
{
    if d.usage > d.max && d.order.len() > 0 {
        let first = d.order[0];
        let t = DiskView {
            order: d.order.drop_first(),
            usage: less(d.usage, first.1 as nat),
            max: d.max,
        };
        eviction_is_least_recent_first(t);
        let (rest, gone) = evicted(t);
        let all = seq![first.0] + gone;
        assert(rest.order =~= d.order.skip(all.len() as int));
        assert forall|i: int| 0 <= i < all.len() implies #[trigger] all[i] == d.order[i].0 by {
            if i > 0 {
                assert(all[i] == gone[i - 1]);
                assert(t.order[i - 1] == d.order[i]);
            }
        }
    } else {
        assert(d.order.skip(0) =~= d.order);
    }
}

/// No two entries have one key.
pub open spec fn keys_distinct(order: Seq<(Seq<char>, usize)>) -> bool {
    forall|i: int, j: int|
        0 <= i < order.len() && 0 <= j < order.len() && i != j ==> (#[trigger] order[i]).0 != (
        #[trigger] order[j]).0
}

/// The bytes of all entries.
pub open spec fn total(order: Seq<(Seq<char>, usize)>) -> nat
    decreases order.len(),
{
    if order.len() == 0 {
        0
    } else {
        total(order.drop_last()) + order.last().1 as nat
    }
}

/// The count of bytes is that of the blobs, each of which is there once.
pub open spec fn accounted(d: DiskView) -> bool {
    d.usage == total(d.order) && keys_distinct(d.order)
}

proof fn lemma_without(order: Seq<(Seq<char>, usize)>, key: Seq<char>)
    requires
        keys_distinct(order),
    ensures
        keys_distinct(without_key(order, key)),
        forall|i: int|
            0 <= i < without_key(order, key).len() ==> (#[trigger] without_key(order, key)[i]).0 != key
                && order.contains(without_key(order, key)[i]),
        total(order) == total(without_key(order, key)) + match value_in(order, key) {
            Some(v) => v as nat,
            None => 0,
        },
        value_in(order, key) is None ==> without_key(order, key) == order,
    decreases order.len(),
{
    if order.len() > 0 {
        let t = order.drop_last();
        assert(keys_distinct(t)) by {
            assert forall|i: int, j: int|
                0 <= i < t.len() && 0 <= j < t.len() && i != j implies (#[trigger] t[i]).0 != (
            #[trigger] t[j]).0 by {
                assert(order[i] == t[i] && order[j] == t[j]);
            }
        }
        lemma_without(t, key);
        let prev = without_key(t, key);
        let all = without_key(order, key);
        assert forall|i: int| 0 <= i < prev.len() implies order.contains(#[trigger] prev[i]) by {
            let k = choose|k: int| 0 <= k < t.len() && t[k] == prev[i];
            assert(order[k] == prev[i]);
        }
        assert(order[order.len() - 1] == order.last());
        if order.last().0 == key {
            assert(value_in(t, key) is None) by {
                lemma_value_found(t, key);
                if value_in(t, key) is Some {
                    let k = choose|k: int| 0 <= k < t.len() && (#[trigger] t[k]).0 == key;
                    assert(order[k].0 == key);
                }
            }
        } else {
            assert(all == prev.push(order.last()));
            assert(all.drop_last() =~= prev);
            assert(t.push(order.last()) =~= order);
            assert forall|i: int, j: int|
                0 <= i < all.len() && 0 <= j < all.len() && i != j implies (#[trigger] all[i]).0 != (
            #[trigger] all[j]).0 by {
                if i < prev.len() && j < prev.len() {
                    assert(prev[i].0 != prev[j].0);
                } else {
                    let m = if i < prev.len() {
                        i
                    } else {
                        j
                    };
                    let k = choose|k: int| 0 <= k < t.len() && t[k] == prev[m];
                    assert(order[k] == prev[m]);
                    assert(order[k].0 != order[order.len() - 1].0);
                }
            }
        }
    }
}

proof fn lemma_value_found(order: Seq<(Seq<char>, usize)>, key: Seq<char>)
    ensures
        value_in(order, key) is Some ==> exists|k: int| 0 <= k < order.len() && (#[trigger] order[k]).0 == key,
    decreases order.len(),
{
    if order.len() > 0 {
        if order.last().0 == key {
            assert(order[order.len() - 1].0 == key);
        } else {
            let t = order.drop_last();
            lemma_value_found(t, key);
            if value_in(t, key) is Some {
                let k = choose|k: int| 0 <= k < t.len() && (#[trigger] t[k]).0 == key;
                assert(order[k].0 == key);
            }
        }
    }
}

proof fn lemma_promoted(order: Seq<(Seq<char>, usize)>, key: Seq<char>, size: usize)
    requires
        keys_distinct(order),
    ensures
        keys_distinct(promoted(order, key, size)),
        total(promoted(order, key, size)) == total(without_key(order, key)) + size as nat,
{
    lemma_without(order, key);
    let w = without_key(order, key);
    let p = promoted(order, key, size);
    assert(p.drop_last() =~= w);
    assert forall|i: int, j: int|
        0 <= i < p.len() && 0 <= j < p.len() && i != j implies (#[trigger] p[i]).0 != (#[trigger] p[j]).0 by {
        if i < w.len() {
            assert(w[i].0 != key);
        }
        if j < w.len() {
            assert(w[j].0 != key);
        }
    }
}

proof fn lemma_total_first(order: Seq<(Seq<char>, usize)>)
    requires
        order.len() > 0,
    ensures
        total(order) == order[0].1 as nat + total(order.drop_first()),
    decreases order.len(),
{
    if order.len() > 1 {
        lemma_total_first(order.drop_last());
        assert(order.drop_last().drop_first() =~= order.drop_first().drop_last());
        assert(order.drop_first().last() == order.last());
    } else {
        assert(order.drop_first() =~= Seq::<(Seq<char>, usize)>::empty());
        assert(order.drop_last() =~= Seq::<(Seq<char>, usize)>::empty());
    }
}

proof fn lemma_evicted_accounted(d: DiskView)
    requires
        accounted(d),
    ensures
        accounted(evicted(d).0),
    decreases d.order.len(),
{
    if d.usage > d.max && d.order.len() > 0 {
        lemma_total_first(d.order);
        let t = DiskView {
            order: d.order.drop_first(),
            usage: less(d.usage, d.order[0].1 as nat),
            max: d.max,
        };
        assert(keys_distinct(t.order)) by {
            assert forall|i: int, j: int|
                0 <= i < t.order.len() && 0 <= j < t.order.len() && i != j implies (#[trigger] t.order[i]).0
                != (#[trigger] t.order[j]).0 by {
                assert(t.order[i] == d.order[i + 1] && t.order[j] == d.order[j + 1]);
            }
        }
        lemma_evicted_accounted(t);
    }
}

/// The bytes on disk stay accounted for: through writes, where a file was there
/// already just if the blob was known, and through removals and reads. After a
/// write of a new file they are within the limit.
pub proof fn disk_stays_within_limit(d: DiskView, hash: Seq<char>, size: usize, write: DiskWrite)
    requires
        accounted(d),
        write == DiskWrite::New ==> value_in(d.order, hash) is None,
        write == DiskWrite::Existing ==> value_in(d.order, hash) == Some(size),
    ensures
        accounted(after_write(d, hash, size, write).0),
        write == DiskWrite::New ==> after_write(d, hash, size, write).0.usage <= d.max,
        d.usage <= d.max ==> after_write(d, hash, size, write).0.usage <= d.max,
        value_in(d.order, hash) == Some(size) ==> accounted(after_remove(d, hash, size)),
        value_in(d.order, hash) == Some(size) ==> accounted(
            DiskView { order: promoted(d.order, hash, size), ..d },
        ),
{
    lemma_without(d.order, hash);
    lemma_promoted(d.order, hash, size);
    let grown = DiskView {
        order: promoted(d.order, hash, size),
        usage: d.usage + size as nat,
        max: d.max,
    };
    if write == DiskWrite::New {
        assert(accounted(grown));
        lemma_evicted_accounted(grown);
        eviction_is_least_recent_first(grown);
        let rest = evicted(grown).0;
        if rest.order.len() == 0 {
            assert(total(rest.order) == 0);
        }
    }
}

/// A blob that was just written or read is the last to be dropped: where it goes,
/// nothing is left.
pub proof fn recently_used_goes_last(d: DiskView, hash: Seq<char>, size: usize)
    requires
        keys_distinct(d.order),
    ensures
        ({
            let used = DiskView { order: promoted(d.order, hash, size), ..d };
            evicted(used).1.contains(hash) ==> evicted(used).0.order.len() == 0
        }),
{
    let used = DiskView { order: promoted(d.order, hash, size), ..d };
    eviction_is_least_recent_first(used);
    lemma_promoted(d.order, hash, size);
    let (rest, gone) = evicted(used);
    if gone.contains(hash) {
        let i = choose|i: int| 0 <= i < gone.len() && gone[i] == hash;
        let n = used.order.len() - 1;
        assert(used.order[i].0 == hash);
        assert(used.order[n].0 == hash);
    }
}

proof fn lemma_filled(found: Seq<Option<Vec<u8>>>, fetched: Seq<Seq<u8>>, i: int)
    requires
        0 <= i < found.len(),
    ensures
        filled(found, fetched).len() == found.len(),
        found[i] is Some ==> filled(found, fetched)[i] == found[i]->0@,
        found[i] is None ==> filled(found, fetched)[i] == fetched[misses(found.take(i)).len() as int]
            && misses(found.take(i)).len() < misses(found).len() && misses(found)[misses(
            found.take(i),
        ).len() as int] == i as usize,
    decreases found.len(),
{
    let t = found.drop_last();
    if i < t.len() {
        lemma_filled(t, fetched, i);
        assert(t.take(i) =~= found.take(i));
        assert(t[i] == found[i]);
    } else {
        assert(found.take(i) =~= t);
        if t.len() > 0 {
            lemma_filled(t, fetched, 0);
        }
    }
}

/// A batch comes back in the order asked for: each blob that the cache had in its
/// place, and each that it had not as it was fetched for that place.
pub proof fn batch_keeps_order(found: Seq<Option<Vec<u8>>>, fetched: Seq<Seq<u8>>, i: int)
    requires
        0 <= i < found.len(),
    ensures
        filled(found, fetched).len() == found.len(),
        found[i] is Some ==> filled(found, fetched)[i] == found[i]->0@,
        found[i] is None ==> exists|j: int|
            0 <= j < misses(found).len() && misses(found)[j] == i as usize && filled(found, fetched)[i]
                == #[trigger] fetched[j],
{
    lemma_filled(found, fetched, i);
    if found[i] is None {
        let j = misses(found.take(i)).len() as int;
        assert(fetched[j] == filled(found, fetched)[i]);
    }
}

} // verus!
