//! "Did you mean" suggestions for a file the edit tool could not find.
//!
//! The walk of the working tree is the caller's; this module scores the
//! file names it found against the missing one.

use vstd::prelude::*;
use crate::text::{chars_of, utf8_len, utf8_len_capped};
use crate::edit::{lev, lowercase, str_to_lowercase, levenshtein_chars};

verus! {

/// A found file: its base name and the path to show for it.
pub type Candidate = (String, String);

/// Candidates as the contracts see them.
pub open spec fn cand_views(c: Seq<Candidate>) -> Seq<(Seq<char>, Seq<char>)> {
    c.map_values(|x: Candidate| (x.0@, x.1@))
}

/// Distance between two base names: the edit distance of their
/// lower-cased forms.
pub open spec fn name_dist(target: Seq<char>, base: Seq<char>) -> nat {
    lev(lowercase(target), lowercase(base))
}

/// The largest distance still suggested: half the longer name's length
/// in bytes, and at least 2.
pub open spec fn max_dist(target: Seq<char>, base: Seq<char>) -> nat {
    let longer = if utf8_len(target) >= utf8_len(base) {
        utf8_len(target)
    } else {
        utf8_len(base)
    };
    if longer / 2 < 2 {
        2
    } else {
        longer / 2
    }
}

/// The candidates close enough to `target`, with their distances, in walk
/// order.
pub open spec fn scored(target: Seq<char>, c: Seq<(Seq<char>, Seq<char>)>) -> Seq<(nat, Seq<char>)>
    decreases c.len(),
{
    if c.len() == 0 {
        Seq::empty()
    } else {
        let rest = scored(target, c.drop_last());
        let d = name_dist(target, c.last().0);
        if d <= max_dist(target, c.last().0) {
            rest.push((d, c.last().1))
        } else {
            rest
        }
    }
}

/// `x` placed after every entry of `t` whose distance is not larger.
pub open spec fn insert_by_dist(x: (nat, Seq<char>), t: Seq<(nat, Seq<char>)>) -> Seq<(nat, Seq<char>)>
    decreases t.len(),
{
    if t.len() == 0 {
        seq![x]
    } else if x.0 < t[0].0 {
        seq![x] + t
    } else {
        seq![t[0]] + insert_by_dist(x, t.drop_first())
    }
}

/// `s` sorted by distance, entries of equal distance kept in order.
pub open spec fn by_dist(s: Seq<(nat, Seq<char>)>) -> Seq<(nat, Seq<char>)>
    decreases s.len(),
{
    if s.len() == 0 {
        Seq::empty()
    } else {
        insert_by_dist(s.last(), by_dist(s.drop_last()))
    }
}

/// The paths suggested for `target`: the three closest, closest first.
pub open spec fn suggestions(target: Seq<char>, c: Seq<(Seq<char>, Seq<char>)>) -> Seq<Seq<char>> {
    let s = by_dist(scored(target, c));
    let k = if s.len() < 3 {
        s.len()
    } else {
        3
    };
    s.take(k as int).map_values(|p: (nat, Seq<char>)| p.1)
}

/// The lower-cased names are short enough to compare in memory.
pub open spec fn names_fit(target: Seq<char>, c: Seq<(Seq<char>, Seq<char>)>) -> bool {
    forall|i: int| 0 <= i < c.len() ==> lowercase(target).len() + lowercase(#[trigger] c[i].0).len() <= usize::MAX
}

/// The names' byte lengths fit in `usize`, as those of real strings do.
pub open spec fn lengths_fit(target: Seq<char>, c: Seq<(Seq<char>, Seq<char>)>) -> bool {
    &&& utf8_len(target) < usize::MAX
    &&& forall|i: int| 0 <= i < c.len() ==> utf8_len(#[trigger] c[i].0) < usize::MAX
}

proof fn lemma_insert_len(x: (nat, Seq<char>), t: Seq<(nat, Seq<char>)>)
    ensures
        insert_by_dist(x, t).len() == t.len() + 1,
    decreases t.len(),
{
    if t.len() > 0 && x.0 >= t[0].0 {
        lemma_insert_len(x, t.drop_first());
    }
}

/// Inserts `x` into `t` (sorted by distance) after the entries of equal
/// or smaller distance.
fn insert_entry(t: &mut Vec<(usize, String)>, x: (usize, String))
    ensures
        dist_views(final(t)@) == insert_by_dist(dist_view(x), dist_views(old(t)@)),
{
    let ghost tv = dist_views(t@);
    let mut i: usize = 0;
    assert(tv.skip(0) =~= tv);
    assert(tv.take(0) + insert_by_dist(dist_view(x), tv) =~= insert_by_dist(dist_view(x), tv));
    while i < t.len() && !(x.0 < t[i].0)
        invariant
            i <= t.len(),
            t@ == old(t)@,
            tv == dist_views(t@),
            forall|j: int| 0 <= j < i ==> t@[j].0 <= x.0,
            insert_by_dist(dist_view(x), tv) == tv.take(i as int) + insert_by_dist(dist_view(x), tv.skip(i as int)),
        decreases t.len() - i,
    {
        proof {
            let s = tv.skip(i as int);
            assert(s[0] == tv[i as int]);
            assert(s.drop_first() =~= tv.skip(i + 1));
            assert(tv.take(i + 1) =~= tv.take(i as int).push(tv[i as int]));
            assert(insert_by_dist(dist_view(x), s) == seq![s[0]] + insert_by_dist(dist_view(x), s.drop_first()));
            assert(tv.take(i as int) + (seq![s[0]] + insert_by_dist(dist_view(x), tv.skip(i + 1))) =~= tv.take(i + 1)
                + insert_by_dist(dist_view(x), tv.skip(i + 1)));
        }
        i += 1;
    }
    proof {
        let s = tv.skip(i as int);
        if i < t.len() {
            assert(s[0] == tv[i as int]);
            assert(insert_by_dist(dist_view(x), s) == seq![dist_view(x)] + s);
        } else {
            assert(s.len() == 0);
        }
    }
    let ghost before = t@;
    let ghost xv = dist_view(x);
    t.insert(i, x);
    proof {
        assert(dist_views(t@) =~= tv.take(i as int) + (seq![xv] + tv.skip(i as int)));
        if i < before.len() {
            assert(insert_by_dist(dist_view(x), tv.skip(i as int)) == seq![dist_view(x)] + tv.skip(i as int));
        } else {
            assert(tv.skip(i as int) =~= Seq::<(nat, Seq<char>)>::empty());
            assert(insert_by_dist(dist_view(x), tv.skip(i as int)) =~= seq![dist_view(x)]);
        }
    }
}

/// A scored path as the contracts see it.
pub open spec fn dist_view(x: (usize, String)) -> (nat, Seq<char>) {
    (x.0 as nat, x.1@)
}

/// Scored paths as the contracts see them.
pub open spec fn dist_views(v: Seq<(usize, String)>) -> Seq<(nat, Seq<char>)> {
    v.map_values(|x: (usize, String)| dist_view(x))
}

/// The suggestions, or `None` when a lower-cased pair of names is too
/// long to compare.
fn suggest_core(target: &str, cands: &[Candidate]) -> (r: Option<Vec<String>>)
    requires
        lengths_fit(target@, cand_views(cands@)),
    ensures
        r is Some <==> names_fit(target@, cand_views(cands@)),
        r matches Some(v) ==> v@.map_values(|s: String| s@) == suggestions(target@, cand_views(cands@)),
{
    let ghost cv = cand_views(cands@);
    let lt = chars_of(&str_to_lowercase(target));
    let tlen = utf8_len_capped(&chars_of(target), usize::MAX);
    let mut sorted: Vec<(usize, String)> = Vec::new();
    let mut i: usize = 0;
    while i < cands.len()
        invariant
            i <= cands.len(),
            cv == cand_views(cands@),
            lengths_fit(target@, cv),
            lt@ == lowercase(target@),
            tlen == utf8_len(target@),
            forall|j: int| 0 <= j < i ==> lowercase(target@).len() + lowercase(#[trigger] cv[j].0).len() <= usize::MAX,
            dist_views(sorted@) == by_dist(scored(target@, cv.take(i as int))),
        decreases cands.len() - i,
    {
        let (base, shown) = &cands[i];
        assert(cv[i as int] == (base@, shown@));
        let lb = chars_of(&str_to_lowercase(base));
        if lt.len() > usize::MAX - lb.len() {
            assert(lowercase(target@).len() + lowercase(cv[i as int].0).len() > usize::MAX);
            return None;
        }
        let d = levenshtein_chars(&lt, &lb);
        let blen = utf8_len_capped(&chars_of(base), usize::MAX);
        assert(utf8_len(cv[i as int].0) < usize::MAX);
        let longer = if tlen >= blen {
            tlen
        } else {
            blen
        };
        let half = longer / 2;
        let maxd = if half < 2 {
            2
        } else {
            half
        };
        let ghost prev = cv.take(i as int);
        assert(cv.take(i + 1).drop_last() =~= prev);
        assert(cv.take(i + 1).last() == cv[i as int]);
        if d <= maxd {
            let x = (d, shown.clone());
            insert_entry(&mut sorted, x);
            proof {
                let sc = scored(target@, prev);
                assert(scored(target@, cv.take(i + 1)) == sc.push((d as nat, shown@)));
                assert(sc.push((d as nat, shown@)).drop_last() =~= sc);
            }
        }
        i += 1;
    }
    assert(cv.take(cands.len() as int) =~= cv);
    let ghost s = by_dist(scored(target@, cv));
    let k = if sorted.len() < 3 {
        sorted.len()
    } else {
        3
    };
    let mut out: Vec<String> = Vec::new();
    let mut j: usize = 0;
    while j < k
        invariant
            j <= k <= sorted.len(),
            dist_views(sorted@) == s,
            out@.map_values(|x: String| x@) == s.take(j as int).map_values(|p: (nat, Seq<char>)| p.1),
        decreases k - j,
    {
        let p = sorted[j].1.clone();
        out.push(p);
        assert(s.take(j + 1) =~= s.take(j as int).push(s[j as int]));
        assert(out@.map_values(|x: String| x@) =~= s.take(j as int).map_values(|p: (nat, Seq<char>)| p.1).push(s[j as int].1));
        assert(s.take(j as int).map_values(|p: (nat, Seq<char>)| p.1).push(s[j as int].1) =~= s.take(j + 1).map_values(
            |p: (nat, Seq<char>)| p.1,
        ));
        j += 1;
    }
    Some(out)
}

/// Entries in order of distance.
pub open spec fn sorted_by_dist(s: Seq<(nat, Seq<char>)>) -> bool {
    forall|i: int, j: int| 0 <= i < j < s.len() ==> s[i].0 <= s[j].0
}

proof fn lemma_insert_lower(x: (nat, Seq<char>), t: Seq<(nat, Seq<char>)>, b: nat)
    requires
        x.0 >= b,
        forall|j: int| 0 <= j < t.len() ==> t[j].0 >= b,
    ensures
        forall|k: int| 0 <= k < insert_by_dist(x, t).len() ==> insert_by_dist(x, t)[k].0 >= b,
    decreases t.len(),
{
    lemma_insert_len(x, t);
    if t.len() > 0 && x.0 >= t[0].0 {
        let r = t.drop_first();
        lemma_insert_lower(x, r, b);
        let ins = insert_by_dist(x, t);
        assert forall|k: int| 0 <= k < ins.len() implies ins[k].0 >= b by {
            if k > 0 {
                assert(ins[k] == insert_by_dist(x, r)[k - 1]);
            }
        }
    }
}

proof fn lemma_insert_sorted(x: (nat, Seq<char>), t: Seq<(nat, Seq<char>)>)
    requires
        sorted_by_dist(t),
    ensures
        sorted_by_dist(insert_by_dist(x, t)),
    decreases t.len(),
{
    if t.len() == 0 {
    } else if x.0 < t[0].0 {
        let ins = seq![x] + t;
        assert forall|i: int, j: int| 0 <= i < j < ins.len() implies ins[i].0 <= ins[j].0 by {
            if i == 0 {
                assert(ins[j] == t[j - 1]);
            } else {
                assert(ins[i] == t[i - 1] && ins[j] == t[j - 1]);
            }
        }
    } else {
        let r = t.drop_first();
        assert(sorted_by_dist(r)) by {
            assert forall|i: int, j: int| 0 <= i < j < r.len() implies r[i].0 <= r[j].0 by {
                assert(r[i] == t[i + 1] && r[j] == t[j + 1]);
            }
        }
        lemma_insert_sorted(x, r);
        assert forall|j: int| 0 <= j < r.len() implies r[j].0 >= t[0].0 by {
            assert(r[j] == t[j + 1]);
        }
        lemma_insert_lower(x, r, t[0].0);
        let tail = insert_by_dist(x, r);
        let ins = seq![t[0]] + tail;
        assert(insert_by_dist(x, t) == ins);
        assert forall|i: int, j: int| 0 <= i < j < ins.len() implies ins[i].0 <= ins[j].0 by {
            if i == 0 {
                assert(ins[j] == tail[j - 1]);
            } else {
                assert(ins[i] == tail[i - 1] && ins[j] == tail[j - 1]);
            }
        }
    }
}

proof fn lemma_by_dist_sorted(s: Seq<(nat, Seq<char>)>)
    ensures
        sorted_by_dist(by_dist(s)),
    decreases s.len(),
{
    if s.len() > 0 {
        lemma_by_dist_sorted(s.drop_last());
        lemma_insert_sorted(s.last(), by_dist(s.drop_last()));
    }
}

/// Suggestions come closest first, and there are at most three of them.
pub proof fn lemma_suggestions_closest_first(target: Seq<char>, c: Seq<(Seq<char>, Seq<char>)>)
    ensures
        sorted_by_dist(by_dist(scored(target, c))),
        suggestions(target, c).len() <= 3,
{
    lemma_by_dist_sorted(scored(target, c));
}

/// Up to three paths whose base names are within the suggestion
/// distance of `target`, closest first (ties in the order found).
pub fn similar_paths(target: &str, cands: &[Candidate]) -> (r: Vec<String>)
    requires
        lengths_fit(target@, cand_views(cands@)),
        names_fit(target@, cand_views(cands@)),
    ensures
        r@.map_values(|s: String| s@) == suggestions(target@, cand_views(cands@)),
{
    match suggest_core(target, cands) {
        Some(v) => v,
        None => Vec::new(),
    }
}

/// The suggestions of `similar_paths`, or `None` when a pair of
/// lower-cased names is too long to compare in memory.
pub fn similar_paths_checked(target: &str, cands: &[Candidate]) -> (r: Option<Vec<String>>)
    requires
        lengths_fit(target@, cand_views(cands@)),
    ensures
        r is Some <==> names_fit(target@, cand_views(cands@)),
        r matches Some(v) ==> v@.map_values(|s: String| s@) == suggestions(target@, cand_views(cands@)),
{
    suggest_core(target, cands)
}

} // verus!
