//! Record of the paths that `edit`/`bash` would have changed during a
//! dry run, read back at the end to report "this is what would change".

use vstd::prelude::*;

verus! {

/// One change that a dry run skipped.
#[derive(Debug, Clone)]
pub struct WouldChange {
    /// "create", "overwrite", "replace" or "bash".
    pub kind: &'static str,
    pub target: String,
    /// Bytes that would be written (for create/overwrite/replace), 0 for bash.
    pub bytes: u64,
}

/// A recorded change as the contracts see it.
pub open spec fn change_view(w: WouldChange) -> (Seq<char>, Seq<char>, u64) {
    (w.kind@, w.target@, w.bytes)
}

/// The recorded changes of a log, in recording order.
pub open spec fn log_view(log: Seq<WouldChange>) -> Seq<(Seq<char>, Seq<char>, u64)> {
    log.map_values(|w: WouldChange| change_view(w))
}

/// Records a change that writes no bytes.
pub fn record(log: &mut Vec<WouldChange>, kind: &'static str, target: String)
    ensures
        log_view(final(log)@) == log_view(old(log)@).push((kind@, target@, 0u64)),
{
    record_with_bytes(log, kind, target, 0)
}

/// Records a change that would write `bytes` bytes.
pub fn record_with_bytes(log: &mut Vec<WouldChange>, kind: &'static str, target: String, bytes: u64)
    ensures
        log_view(final(log)@) == log_view(old(log)@).push((kind@, target@, bytes)),
{
    log.push(WouldChange { kind, target, bytes });
    assert(log_view(log@) =~= log_view(old(log)@).push((kind@, target@, bytes)));
}

/// Takes every recorded change, in recording order, leaving the log empty.
pub fn drain(log: &mut Vec<WouldChange>) -> (r: Vec<WouldChange>)
    ensures
        r@ == old(log)@,
        final(log)@ == Seq::<WouldChange>::empty(),
{
    let mut out: Vec<WouldChange> = Vec::new();
    std::mem::swap(&mut out, log);
    out
}

/// The recorded changes sorted by kind for the end-of-run summary.
#[derive(Debug)]
pub struct DryRunSummary {
    /// Files that would be created, with their sizes.
    pub create: Vec<(String, u64)>,
    /// Files that would be overwritten, with their sizes.
    pub overwrite: Vec<(String, u64)>,
    /// Files that would be edited in place, with their new sizes.
    pub replace: Vec<(String, u64)>,
    /// Commands that would run.
    pub bash: Vec<String>,
    /// Bytes all recorded changes would write.
    pub total_bytes: u64,
}

/// The targets and sizes of the changes of kind `k` among the first `n`.
pub open spec fn of_kind(log: Seq<WouldChange>, k: Seq<char>, n: int) -> Seq<(Seq<char>, u64)>
    decreases n,
{
    if n <= 0 {
        Seq::empty()
    } else {
        of_kind(log, k, n - 1) + if log[n - 1].kind@ == k {
            seq![(log[n - 1].target@, log[n - 1].bytes)]
        } else {
            Seq::empty()
        }
    }
}

/// Bytes of the first `n` changes.
pub open spec fn bytes_upto(log: Seq<WouldChange>, n: int) -> nat
    decreases n,
{
    if n <= 0 {
        0
    } else {
        bytes_upto(log, n - 1) + log[n - 1].bytes as nat
    }
}

/// Pairs as the contracts see them.
pub open spec fn pair_views(v: Seq<(String, u64)>) -> Seq<(Seq<char>, u64)> {
    v.map_values(|p: (String, u64)| (p.0@, p.1))
}

proof fn lemma_bytes_mono(log: Seq<WouldChange>, i: int, j: int)
    requires
        i <= j,
    ensures
        bytes_upto(log, i) <= bytes_upto(log, j),
    decreases j - i,
{
    if i < j {
        lemma_bytes_mono(log, i, j - 1);
    }
}

fn push_pair(v: &mut Vec<(String, u64)>, t: &String, b: u64)
    ensures
        pair_views(final(v)@) == pair_views(old(v)@).push((t@, b)),
{
    v.push((t.clone(), b));
    assert(pair_views(v@) =~= pair_views(old(v)@).push((t@, b)));
}

/// Sorts recorded changes by kind, in recording order within each kind,
/// and adds up their bytes; changes of another kind count only in the
/// total.
pub fn summarize(log: &Vec<WouldChange>) -> (r: DryRunSummary)
    requires
        bytes_upto(log@, log@.len() as int) <= u64::MAX,
    ensures
        pair_views(r.create@) == of_kind(log@, "create"@, log@.len() as int),
        pair_views(r.overwrite@) == of_kind(log@, "overwrite"@, log@.len() as int),
        pair_views(r.replace@) == of_kind(log@, "replace"@, log@.len() as int),
        r.bash@.map_values(|s: String| s@) == of_kind(log@, "bash"@, log@.len() as int).map_values(
            |p: (Seq<char>, u64)| p.0,
        ),
        r.total_bytes == bytes_upto(log@, log@.len() as int),
{
    let mut create: Vec<(String, u64)> = Vec::new();
    let mut overwrite: Vec<(String, u64)> = Vec::new();
    let mut replace: Vec<(String, u64)> = Vec::new();
    let mut bash: Vec<String> = Vec::new();
    let mut total: u64 = 0;
    let mut i: usize = 0;
    assert(pair_views(create@) =~= Seq::<(Seq<char>, u64)>::empty());
    assert(pair_views(overwrite@) =~= Seq::<(Seq<char>, u64)>::empty());
    assert(pair_views(replace@) =~= Seq::<(Seq<char>, u64)>::empty());
    assert(bash@.map_values(|s: String| s@) =~= Seq::<Seq<char>>::empty());
    while i < log.len()
        invariant
            i <= log@.len(),
            bytes_upto(log@, log@.len() as int) <= u64::MAX,
            total == bytes_upto(log@, i as int),
            pair_views(create@) == of_kind(log@, "create"@, i as int),
            pair_views(overwrite@) == of_kind(log@, "overwrite"@, i as int),
            pair_views(replace@) == of_kind(log@, "replace"@, i as int),
            bash@.map_values(|s: String| s@) == of_kind(log@, "bash"@, i as int).map_values(|p: (Seq<char>, u64)| p.0),
        decreases log@.len() - i,
    {
        proof {
            lemma_bytes_mono(log@, i + 1, log@.len() as int);
        }
        let e = &log[i];
        total = total + e.bytes;
        let k = crate::text::chars_of(e.kind);
        let ghost kv = log@[i as int].kind@;
        proof {
            reveal_strlit("create");
            reveal_strlit("overwrite");
            reveal_strlit("replace");
            reveal_strlit("bash");
            assert("create"@.len() == 6 && "overwrite"@.len() == 9 && "replace"@.len() == 7 && "bash"@.len() == 4);
            assert("create"@ != "replace"@) by {
                assert("create"@[0] != "replace"@[0]);
            }
        }
        if crate::text::chars_eq_str(&k, "create") {
            push_pair(&mut create, &e.target, e.bytes);
        } else if crate::text::chars_eq_str(&k, "overwrite") {
            push_pair(&mut overwrite, &e.target, e.bytes);
        } else if crate::text::chars_eq_str(&k, "replace") {
            push_pair(&mut replace, &e.target, e.bytes);
        } else if crate::text::chars_eq_str(&k, "bash") {
            let ghost prev = bash@.map_values(|s: String| s@);
            bash.push(e.target.clone());
            assert(bash@.map_values(|s: String| s@) =~= prev.push(e.target@));
        }
        proof {
            reveal_strlit("create");
            reveal_strlit("overwrite");
            reveal_strlit("replace");
            reveal_strlit("bash");
            assert(of_kind(log@, "bash"@, i + 1).map_values(|p: (Seq<char>, u64)| p.0) =~= of_kind(log@, "bash"@, i as int).map_values(|p: (Seq<char>, u64)| p.0) + if kv == "bash"@ {
                seq![log@[i as int].target@]
            } else {
                Seq::empty()
            });
        }
        i += 1;
    }
    DryRunSummary { create, overwrite, replace, bash, total_bytes: total }
}

} // verus!
