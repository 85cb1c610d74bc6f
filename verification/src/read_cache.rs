//! Content cache for the `read` tool.
//!
//! Within one agent run the model often reads the same file several times.
//! The cache memoizes contents by `(path, mtime, size)`: a lookup hits only
//! when the caller's fresh metadata matches what was stored, so a stale
//! read can never come back. `edit` invalidates a path after writing it.

use vstd::prelude::*;
use crate::text::{chars_of, utf8_len, utf8_len_u64};

verus! {

// ---------------------------------------------------------------------------
// Path keys
// ---------------------------------------------------------------------------

/// The components of `s` after the partial component `cur`: the pieces
/// between `/` separators, with empty pieces and `.` pieces dropped.
pub open spec fn comps_acc(s: Seq<char>, cur: Seq<char>) -> Seq<Seq<char>>
    decreases s.len(),
{
    if s.len() == 0 {
        if cur.len() == 0 || cur == seq!['.'] {
            Seq::empty()
        } else {
            seq![cur]
        }
    } else if s[0] == '/' {
        if cur.len() == 0 || cur == seq!['.'] {
            comps_acc(s.drop_first(), Seq::empty())
        } else {
            seq![cur] + comps_acc(s.drop_first(), Seq::empty())
        }
    } else {
        comps_acc(s.drop_first(), cur.push(s[0]))
    }
}

/// The path starts at the root.
pub open spec fn rooted(p: Seq<char>) -> bool {
    p.len() > 0 && p[0] == '/'
}

/// The path starts with a `.` component, which `Path::components` keeps.
pub open spec fn lead_dot(p: Seq<char>) -> bool {
    p.len() > 0 && p[0] == '.' && (p.len() == 1 || p[1] == '/')
}

/// The components `Path::components` yields after the root: every
/// non-empty piece between separators except `.`, which is kept only at
/// the very start of a relative path.
pub open spec fn path_components(p: Seq<char>) -> Seq<Seq<char>> {
    (if lead_dot(p) {
        seq![seq!['.']]
    } else {
        Seq::empty()
    }) + comps_acc(p, Seq::empty())
}

/// The components joined with `/`.
pub open spec fn join_slash(c: Seq<Seq<char>>) -> Seq<char>
    decreases c.len(),
{
    if c.len() == 0 {
        Seq::empty()
    } else if c.len() == 1 {
        c[0]
    } else {
        join_slash(c.drop_last()) + seq!['/'] + c.last()
    }
}

/// The key a path is cached under: its root, if any, and its components.
/// Paths that `Path` compares equal (`a//b`, `a/b/`, `a/./b`, `a/b`) share
/// one key.
pub open spec fn path_key(p: Seq<char>) -> Seq<char> {
    (if rooted(p) {
        seq!['/']
    } else {
        Seq::empty()
    }) + join_slash(path_components(p))
}

/// The components of a path, as `Path::components` yields them after the
/// root.
fn components_of(p: &[char]) -> (r: Vec<Vec<char>>)
    ensures
        crate::text::views(r@) == path_components(p@),
{
    let mut out: Vec<Vec<char>> = Vec::new();
    if p.len() > 0 && p[0] == '.' && (p.len() == 1 || p[1] == '/') {
        let d = vec!['.'];
        assert(d@ =~= seq!['.']);
        out.push(d);
        assert(crate::text::views(out@) =~= seq![seq!['.']]);
    } else {
        assert(crate::text::views(out@) =~= Seq::<Seq<char>>::empty());
    }
    let ghost head = crate::text::views(out@);
    assert(head =~= (if lead_dot(p@) {
        seq![seq!['.']]
    } else {
        Seq::<Seq<char>>::empty()
    }));
    let mut cur: Vec<char> = Vec::new();
    let mut i: usize = 0;
    assert(p@.skip(0) =~= p@);
    assert(cur@ =~= Seq::<char>::empty());
    while i < p.len()
        invariant
            i <= p.len(),
            crate::text::views(out@) + comps_acc(p@.skip(i as int), cur@) == head + comps_acc(p@, Seq::empty()),
        decreases p.len() - i,
    {
        assert(p@.skip(i as int).drop_first() =~= p@.skip(i + 1));
        if p[i] == '/' {
            let dot = cur.len() == 1 && cur[0] == '.';
            assert(dot == (cur@ == seq!['.'])) by {
                if cur@.len() == 1 && cur@[0] == '.' {
                    assert(cur@ =~= seq!['.']);
                }
            }
            if cur.len() > 0 && !dot {
                let ghost prev = crate::text::views(out@);
                let ghost c = cur@;
                out.push(cur);
                assert(crate::text::views(out@) =~= prev + seq![c]);
                assert(crate::text::views(out@) + comps_acc(p@.skip(i + 1), Seq::empty()) =~= prev + (seq![c]
                    + comps_acc(p@.skip(i + 1), Seq::empty())));
            }
            cur = Vec::new();
            assert(cur@ =~= Seq::<char>::empty());
        } else {
            cur.push(p[i]);
        }
        i += 1;
    }
    assert(p@.skip(i as int) =~= Seq::<char>::empty());
    let dot = cur.len() == 1 && cur[0] == '.';
    assert(dot == (cur@ == seq!['.'])) by {
        if cur@.len() == 1 && cur@[0] == '.' {
            assert(cur@ =~= seq!['.']);
        }
    }
    if cur.len() > 0 && !dot {
        let ghost prev = crate::text::views(out@);
        let ghost c = cur@;
        out.push(cur);
        assert(crate::text::views(out@) =~= prev + seq![c]);
    } else {
        assert(crate::text::views(out@) =~= crate::text::views(out@) + Seq::<Seq<char>>::empty());
    }
    out
}

/// The cache key of a path (see `path_key`).
pub fn path_key_of(path: &str) -> (r: String)
    ensures
        r@ == path_key(path@),
{
    let p = chars_of(path);
    let comps = components_of(&p);
    let ghost cv = crate::text::views(comps@);
    let mut out: Vec<char> = Vec::new();
    if p.len() > 0 && p[0] == '/' {
        out.push('/');
    }
    let ghost root = out@;
    let mut k: usize = 0;
    assert(cv.take(0) =~= Seq::<Seq<char>>::empty());
    assert(root + join_slash(cv.take(0)) =~= root);
    while k < comps.len()
        invariant
            k <= comps@.len(),
            cv == crate::text::views(comps@),
            cv == path_components(p@),
            out@ == root + join_slash(cv.take(k as int)),
        decreases comps@.len() - k,
    {
        assert(cv.take(k + 1).drop_last() =~= cv.take(k as int));
        assert(cv[k as int] == comps@[k as int]@);
        let ghost before = out@;
        if k > 0 {
            out.push('/');
        }
        crate::text::extend_chars(&mut out, &comps[k]);
        if k == 0 {
            assert(join_slash(cv.take(1)) == cv.take(1)[0]);
            assert(out@ =~= root + join_slash(cv.take(k + 1)));
        } else {
            assert(out@ =~= before + seq!['/'] + cv[k as int]);
            assert(out@ =~= root + join_slash(cv.take(k + 1)));
        }
        k += 1;
    }
    assert(cv.take(k as int) =~= cv);
    crate::text::string_of(&out)
}

/// One cached file.
#[derive(Clone)]
struct Entry {
    mtime: u64,
    size: u64,
    content: String,
}

/// Hits, misses and invalidations since the cache was created or cleared.
#[derive(Default, Debug, Clone, Copy)]
pub struct Stats {
    pub hits: u64,
    pub misses: u64,
    pub invalidations: u64,
}

/// A cached file as the contracts see it: `(mtime, size, content)`.
pub type CachedFile = (u64, u64, Seq<char>);

/// The cache: entries keyed by path, at most one per path.
pub struct ReadCache {
    entries: Vec<(String, Entry)>,
    counters: Stats,
}

spec fn entry_view(e: Entry) -> CachedFile {
    (e.mtime, e.size, e.content@)
}

spec fn map_of(s: Seq<(String, Entry)>) -> Map<Seq<char>, CachedFile>
    decreases s.len(),
{
    if s.len() == 0 {
        Map::empty()
    } else {
        map_of(s.drop_last()).insert(s.last().0@, entry_view(s.last().1))
    }
}

spec fn keys_distinct(s: Seq<(String, Entry)>) -> bool {
    forall|i: int, j: int| 0 <= i < j < s.len() ==> #[trigger] s[i].0@ != #[trigger] s[j].0@
}

spec fn bytes_of(s: Seq<(String, Entry)>) -> nat
    decreases s.len(),
{
    if s.len() == 0 {
        0
    } else {
        bytes_of(s.drop_last()) + utf8_len(s.last().1.content@)
    }
}

proof fn lemma_map_of_dom(s: Seq<(String, Entry)>, k: Seq<char>)
    ensures
        map_of(s).dom().contains(k) <==> exists|i: int| 0 <= i < s.len() && #[trigger] s[i].0@ == k,
        map_of(s).dom().finite(),
    decreases s.len(),
{
    if s.len() > 0 {
        lemma_map_of_dom(s.drop_last(), k);
        if map_of(s.drop_last()).dom().contains(k) {
            let i = choose|i: int| 0 <= i < s.drop_last().len() && #[trigger] s.drop_last()[i].0@ == k;
            assert(s[i].0@ == k);
        }
        if exists|i: int| 0 <= i < s.len() && #[trigger] s[i].0@ == k {
            let i = choose|i: int| 0 <= i < s.len() && #[trigger] s[i].0@ == k;
            if i < s.len() - 1 {
                assert(s.drop_last()[i].0@ == k);
            }
        }
    }
}

proof fn lemma_map_of_value(s: Seq<(String, Entry)>, i: int)
    requires
        keys_distinct(s),
        0 <= i < s.len(),
    ensures
        map_of(s).dom().contains(s[i].0@),
        map_of(s)[s[i].0@] == entry_view(s[i].1),
    decreases s.len(),
{
    if i < s.len() - 1 {
        assert(s.drop_last()[i] == s[i]);
        lemma_map_of_value(s.drop_last(), i);
        assert(s[i].0@ != s[s.len() - 1].0@);
    }
}

proof fn lemma_map_of_len(s: Seq<(String, Entry)>)
    requires
        keys_distinct(s),
    ensures
        map_of(s).len() == s.len(),
    decreases s.len(),
{
    if s.len() > 0 {
        let t = s.drop_last();
        lemma_map_of_len(t);
        lemma_map_of_dom(t, s.last().0@);
        if map_of(t).dom().contains(s.last().0@) {
            let i = choose|i: int| 0 <= i < t.len() && #[trigger] t[i].0@ == s.last().0@;
            assert(s[i].0@ == s[s.len() - 1].0@);
        }
    }
}

proof fn lemma_map_of_update(s: Seq<(String, Entry)>, i: int, x: (String, Entry))
    requires
        keys_distinct(s),
        0 <= i < s.len(),
        x.0@ == s[i].0@,
    ensures
        map_of(s.update(i, x)) == map_of(s).insert(x.0@, entry_view(x.1)),
        keys_distinct(s.update(i, x)),
{
    let t = s.update(i, x);
    assert(keys_distinct(t)) by {
        assert forall|a: int, b: int| 0 <= a < b < t.len() implies #[trigger] t[a].0@ != #[trigger] t[b].0@ by {
            assert(s[a].0@ != s[b].0@);
        }
    }
    assert forall|k: Seq<char>| #[trigger] map_of(t).dom().contains(k) <==> map_of(s).insert(x.0@, entry_view(x.1)).dom().contains(k) by {
        lemma_map_of_dom(t, k);
        lemma_map_of_dom(s, k);
        if exists|j: int| 0 <= j < s.len() && #[trigger] s[j].0@ == k {
            let j = choose|j: int| 0 <= j < s.len() && #[trigger] s[j].0@ == k;
            assert(t[j].0@ == k);
        }
        if exists|j: int| 0 <= j < t.len() && #[trigger] t[j].0@ == k {
            let j = choose|j: int| 0 <= j < t.len() && #[trigger] t[j].0@ == k;
            if j != i {
                assert(s[j].0@ == k);
            }
        }
    }
    assert forall|k: Seq<char>| #[trigger] map_of(t).dom().contains(k) implies map_of(t)[k]
        == map_of(s).insert(x.0@, entry_view(x.1))[k] by {
        lemma_map_of_dom(t, k);
        let j = choose|j: int| 0 <= j < t.len() && #[trigger] t[j].0@ == k;
        lemma_map_of_value(t, j);
        if j != i {
            lemma_map_of_value(s, j);
        }
    }
    assert(map_of(t) =~= map_of(s).insert(x.0@, entry_view(x.1)));
}

proof fn lemma_map_of_remove(s: Seq<(String, Entry)>, i: int)
    requires
        keys_distinct(s),
        0 <= i < s.len(),
    ensures
        map_of(s.remove(i)) == map_of(s).remove(s[i].0@),
        keys_distinct(s.remove(i)),
{
    let t = s.remove(i);
    let key = s[i].0@;
    assert(keys_distinct(t)) by {
        assert forall|a: int, b: int| 0 <= a < b < t.len() implies #[trigger] t[a].0@ != #[trigger] t[b].0@ by {
            let a2 = if a < i { a } else { a + 1 };
            let b2 = if b < i { b } else { b + 1 };
            assert(t[a] == s[a2]);
            assert(t[b] == s[b2]);
            assert(s[a2].0@ != s[b2].0@);
        }
    }
    assert forall|k: Seq<char>| #[trigger] map_of(t).dom().contains(k) <==> map_of(s).remove(key).dom().contains(k) by {
        lemma_map_of_dom(t, k);
        lemma_map_of_dom(s, k);
        if exists|j: int| 0 <= j < s.len() && #[trigger] s[j].0@ == k {
            let j = choose|j: int| 0 <= j < s.len() && #[trigger] s[j].0@ == k;
            if j != i {
                let j2 = if j < i { j } else { j - 1 };
                assert(t[j2] == s[j]);
            }
        }
        if exists|j: int| 0 <= j < t.len() && #[trigger] t[j].0@ == k {
            let j = choose|j: int| 0 <= j < t.len() && #[trigger] t[j].0@ == k;
            let j2 = if j < i { j } else { j + 1 };
            assert(t[j] == s[j2]);
            assert(j2 != i);
            assert(s[j2].0@ != s[i].0@ || j2 == i);
        }
    }
    assert forall|k: Seq<char>| #[trigger] map_of(t).dom().contains(k) implies map_of(t)[k]
        == map_of(s).remove(key)[k] by {
        lemma_map_of_dom(t, k);
        let j = choose|j: int| 0 <= j < t.len() && #[trigger] t[j].0@ == k;
        let j2 = if j < i { j } else { j + 1 };
        assert(t[j] == s[j2]);
        lemma_map_of_value(t, j);
        lemma_map_of_value(s, j2);
    }
    assert(map_of(t) =~= map_of(s).remove(key));
}

impl View for ReadCache {
    type V = Map<Seq<char>, CachedFile>;

    /// The cached files by path.
    closed spec fn view(&self) -> Map<Seq<char>, CachedFile> {
        map_of(self.entries@)
    }
}

impl ReadCache {
    /// At most one entry per path key.
    pub closed spec fn distinct_keys(&self) -> bool {
        keys_distinct(self.entries@)
    }

    /// Well-formed: one entry per key, and finitely many keys.
    pub open spec fn wf(&self) -> bool {
        self.distinct_keys() && self@.dom().finite()
    }

    /// The counters as the contracts see them.
    pub closed spec fn counters(&self) -> Stats {
        self.counters
    }

    /// Total UTF-8 bytes of the cached contents.
    pub closed spec fn held(&self) -> nat {
        bytes_of(self.entries@)
    }

    /// An empty cache with zeroed counters.
    pub fn new() -> (r: Self)
        ensures
            r.wf(),
            r@ == Map::<Seq<char>, CachedFile>::empty(),
            r.counters() == (Stats { hits: 0, misses: 0, invalidations: 0 }),
            r.held() == 0,
    {
        let r = ReadCache { entries: Vec::new(), counters: Stats { hits: 0, misses: 0, invalidations: 0 } };
        assert(r@ =~= Map::<Seq<char>, CachedFile>::empty());
        proof {
            lemma_map_of_dom(r.entries@, Seq::empty());
        }
        r
    }

    /// Index of the entry for `path`.
    fn find(&self, path: &String) -> (r: Option<usize>)
        requires
            self.wf(),
        ensures
            match r {
                Some(i) => i < self.entries@.len() && self.entries@[i as int].0@ == path@
                    && self@.dom().contains(path@) && self@[path@] == entry_view(self.entries@[i as int].1),
                None => !self@.dom().contains(path@),
            },
    {
        let mut i: usize = 0;
        while i < self.entries.len()
            invariant
                i <= self.entries@.len(),
                keys_distinct(self.entries@),
                forall|j: int| 0 <= j < i ==> #[trigger] self.entries@[j].0@ != path@,
            decreases self.entries@.len() - i,
        {
            if self.entries[i].0 == *path {
                proof {
                    lemma_map_of_value(self.entries@, i as int);
                }
                return Some(i);
            }
            i += 1;
        }
        proof {
            lemma_map_of_dom(self.entries@, path@);
        }
        None
    }
}

/// What a lookup of `path` with fresh metadata `(mtime, size)` returns: the
/// stored content when both match the stored entry, else nothing.
pub open spec fn lookup(m: Map<Seq<char>, CachedFile>, path: Seq<char>, mtime: u64, size: u64) -> Option<Seq<char>> {
    if m.dom().contains(path) && m[path].0 == mtime && m[path].1 == size {
        Some(m[path].2)
    } else {
        None
    }
}

/// Looks `path` up with the caller's fresh metadata. A hit returns the
/// stored content and counts a hit; a missing or stale entry returns
/// `None` and counts nothing.
pub fn get(cache: &mut ReadCache, path: &str, mtime: u64, size: u64) -> (r: Option<String>)
    requires
        old(cache).wf(),
        old(cache).counters().hits < u64::MAX,
    ensures
        final(cache).wf(),
        final(cache)@ == old(cache)@,
        final(cache).held() == old(cache).held(),
        match r {
            Some(c) => Some(c@) == lookup(old(cache)@, path_key(path@), mtime, size),
            None => lookup(old(cache)@, path_key(path@), mtime, size) is None,
        },
        final(cache).counters() == (Stats {
            hits: if r is Some { (old(cache).counters().hits + 1) as u64 } else { old(cache).counters().hits },
            ..old(cache).counters()
        }),
{
    let key = path_key_of(path);
    match cache.find(&key) {
        Some(i) => {
            if cache.entries[i].1.mtime == mtime && cache.entries[i].1.size == size {
                cache.counters.hits = cache.counters.hits + 1;
                Some(cache.entries[i].1.content.clone())
            } else {
                None
            }
        },
        None => None,
    }
}

/// The UTF-8 size of what the cache holds for `key`, 0 when nothing.
pub open spec fn held_for(m: Map<Seq<char>, CachedFile>, key: Seq<char>) -> nat {
    if m.dom().contains(key) {
        utf8_len(m[key].2)
    } else {
        0
    }
}

proof fn lemma_bytes_update(s: Seq<(String, Entry)>, i: int, x: (String, Entry))
    requires
        0 <= i < s.len(),
    ensures
        bytes_of(s.update(i, x)) + utf8_len(s[i].1.content@) == bytes_of(s) + utf8_len(x.1.content@),
    decreases s.len(),
{
    if i < s.len() - 1 {
        lemma_bytes_update(s.drop_last(), i, x);
        assert(s.update(i, x).drop_last() =~= s.drop_last().update(i, x));
    } else {
        assert(s.update(i, x).drop_last() =~= s.drop_last());
    }
}

proof fn lemma_bytes_remove(s: Seq<(String, Entry)>, i: int)
    requires
        0 <= i < s.len(),
    ensures
        bytes_of(s.remove(i)) + utf8_len(s[i].1.content@) == bytes_of(s),
    decreases s.len(),
{
    if i < s.len() - 1 {
        lemma_bytes_remove(s.drop_last(), i);
        assert(s.remove(i).drop_last() =~= s.drop_last().remove(i));
    } else {
        assert(s.remove(i) =~= s.drop_last());
    }
}

/// Stores `content` for `path` with its metadata, replacing any previous
/// entry under the same key, and counts a miss.
pub fn put(cache: &mut ReadCache, path: &str, mtime: u64, size: u64, content: String)
    requires
        old(cache).wf(),
        old(cache).counters().misses < u64::MAX,
    ensures
        final(cache).wf(),
        final(cache)@ == old(cache)@.insert(path_key(path@), (mtime, size, content@)),
        final(cache).held() + held_for(old(cache)@, path_key(path@)) == old(cache).held() + utf8_len(content@),
        final(cache).counters() == (Stats { misses: (old(cache).counters().misses + 1) as u64, ..old(cache).counters() }),
{
    let key = path_key_of(path);
    let ghost s = cache.entries@;
    let e = Entry { mtime, size, content };
    match cache.find(&key) {
        Some(i) => {
            proof {
                lemma_map_of_update(s, i as int, (key, e));
                lemma_bytes_update(s, i as int, (key, e));
            }
            cache.entries.set(i, (key, e));
        },
        None => {
            proof {
                lemma_map_of_dom(s, key@);
                assert(s.push((key, e)).drop_last() =~= s);
                assert forall|a: int, b: int| 0 <= a < b < s.len() + 1 implies #[trigger] s.push((key, e))[a].0@
                    != #[trigger] s.push((key, e))[b].0@ by {
                    if b == s.len() {
                        assert(s[a].0@ != key@);
                    }
                }
            }
            cache.entries.push((key, e));
        },
    }
    cache.counters.misses = cache.counters.misses + 1;
    proof {
        lemma_map_of_dom(cache.entries@, Seq::empty());
    }
}

/// Drops the entry for `path`, counting an invalidation when there was one.
pub fn invalidate(cache: &mut ReadCache, path: &str)
    requires
        old(cache).wf(),
        old(cache).counters().invalidations < u64::MAX,
    ensures
        final(cache).wf(),
        final(cache)@ == old(cache)@.remove(path_key(path@)),
        final(cache).held() + held_for(old(cache)@, path_key(path@)) == old(cache).held(),
        final(cache).counters() == (Stats {
            invalidations: if old(cache)@.dom().contains(path_key(path@)) {
                (old(cache).counters().invalidations + 1) as u64
            } else {
                old(cache).counters().invalidations
            },
            ..old(cache).counters()
        }),
{
    let key = path_key_of(path);
    let ghost s = cache.entries@;
    match cache.find(&key) {
        Some(i) => {
            proof {
                lemma_map_of_remove(s, i as int);
                lemma_bytes_remove(s, i as int);
            }
            cache.entries.remove(i);
            cache.counters.invalidations = cache.counters.invalidations + 1;
        },
        None => {
            assert(old(cache)@.remove(key@) =~= old(cache)@);
        },
    }
    proof {
        lemma_map_of_dom(cache.entries@, Seq::empty());
    }
}

/// Empties the cache and zeroes the counters.
pub fn clear(cache: &mut ReadCache)
    ensures
        final(cache).wf(),
        final(cache)@ == Map::<Seq<char>, CachedFile>::empty(),
        final(cache).counters() == (Stats { hits: 0, misses: 0, invalidations: 0 }),
        final(cache).held() == 0,
{
    cache.entries.clear();
    cache.counters = Stats { hits: 0, misses: 0, invalidations: 0 };
    assert(map_of(cache.entries@) =~= Map::<Seq<char>, CachedFile>::empty());
    proof {
        lemma_map_of_dom(cache.entries@, Seq::empty());
    }
}

/// The counters.
pub fn stats(cache: &ReadCache) -> (r: Stats)
    ensures
        r == cache.counters(),
{
    cache.counters
}

/// Number of cached paths.
pub fn len(cache: &ReadCache) -> (r: usize)
    requires
        cache.wf(),
    ensures
        r == cache@.len(),
{
    proof {
        lemma_map_of_len(cache.entries@);
    }
    cache.entries.len()
}

/// Total UTF-8 bytes of the cached contents.
pub fn bytes_held(cache: &ReadCache) -> (r: u64)
    requires
        cache.held() <= u64::MAX,
    ensures
        r == cache.held(),
{
    let mut total: u64 = 0;
    let mut i: usize = 0;
    while i < cache.entries.len()
        invariant
            i <= cache.entries@.len(),
            total == bytes_of(cache.entries@.take(i as int)),
            bytes_of(cache.entries@) <= u64::MAX,
        decreases cache.entries@.len() - i,
    {
        proof {
            assert(cache.entries@.take(i + 1).drop_last() =~= cache.entries@.take(i as int));
            lemma_bytes_of_prefix(cache.entries@, i + 1);
        }
        let cs = chars_of(cache.entries[i].1.content.as_str());
        let n = utf8_len_u64(&cs);
        total = total + n;
        i += 1;
    }
    assert(cache.entries@.take(i as int) =~= cache.entries@);
    total
}

proof fn lemma_bytes_of_prefix(s: Seq<(String, Entry)>, k: int)
    requires
        0 <= k <= s.len(),
    ensures
        bytes_of(s.take(k)) <= bytes_of(s),
    decreases s.len() - k,
{
    if k < s.len() {
        lemma_bytes_of_prefix(s, k + 1);
        assert(s.take(k + 1).drop_last() =~= s.take(k));
    } else {
        assert(s.take(k) =~= s);
    }
}

/// A lookup with the metadata just stored returns the stored content, and
/// leaves every other path's lookup as it was.
pub proof fn lemma_get_after_put(m: Map<Seq<char>, CachedFile>, path: Seq<char>, mtime: u64, size: u64, content: Seq<char>, other: Seq<char>, om: u64, os: u64)
    ensures
        lookup(m.insert(path, (mtime, size, content)), path, mtime, size) == Some(content),
        other != path ==> lookup(m.insert(path, (mtime, size, content)), other, om, os) == lookup(m, other, om, os),
{
}

/// After an invalidation no lookup of that path hits.
pub proof fn lemma_get_after_invalidate(m: Map<Seq<char>, CachedFile>, path: Seq<char>, mtime: u64, size: u64)
    ensures
        lookup(m.remove(path), path, mtime, size) is None,
{
}

/// A lookup with metadata other than what was stored misses.
pub proof fn lemma_stale_metadata_misses(m: Map<Seq<char>, CachedFile>, path: Seq<char>, mtime: u64, size: u64, content: Seq<char>, om: u64, os: u64)
    requires
        om != mtime || os != size,
    ensures
        lookup(m.insert(path, (mtime, size, content)), path, om, os) is None,
{
}

} // verus!
