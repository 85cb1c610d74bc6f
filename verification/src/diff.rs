//! Line diffs: the LCS edit script and hunk grouping behind the `diff`
//! tool, and the prefix/suffix-trimmed change used by the watch view and
//! by `edit`'s dry-run preview.

use vstd::prelude::*;
use crate::text::{chars_eq, views, lines_of, lines_of_str, string_of, chars_of, extend_str, push_decimal, decimal};


verus! {

/// One step of an edit script turning `a` into `b`.
#[derive(Debug, Clone, Copy)]
pub enum Op {
    /// `a[i]` is kept as `b[j]`.
    Eq(usize, usize),
    /// `a[i]` is deleted.
    Del(usize),
    /// `b[j]` is inserted.
    Ins(usize),
}

/// Runs the script `ops` from cursors `(ia, ib)`: each `Eq` consumes equal
/// lines of both sides at the cursors, `Del` one line of `a`, `Ins` one
/// line of `b`. `None` when a step does not fit.
pub open spec fn walk(ops: Seq<Op>, a: Seq<Seq<char>>, b: Seq<Seq<char>>, ia: nat, ib: nat) -> Option<
    (nat, nat),
>
    decreases ops.len(),
{
    if ops.len() == 0 {
        Some((ia, ib))
    } else {
        match ops[0] {
            Op::Eq(i, j) => if i == ia && j == ib && ia < a.len() && ib < b.len() && a[ia as int]
                == b[ib as int] {
                walk(ops.drop_first(), a, b, ia + 1, ib + 1)
            } else {
                None
            },
            Op::Del(i) => if i == ia && ia < a.len() {
                walk(ops.drop_first(), a, b, ia + 1, ib)
            } else {
                None
            },
            Op::Ins(j) => if j == ib && ib < b.len() {
                walk(ops.drop_first(), a, b, ia, ib + 1)
            } else {
                None
            },
        }
    }
}

/// The views of a sequence of strings.
pub open spec fn sviews(v: Seq<String>) -> Seq<Seq<char>> {
    v.map_values(|x: String| x@)
}

/// `ops` is a complete edit script from `a` to `b`: every line of `a` is
/// kept or deleted and every line of `b` kept or inserted, in order, and
/// kept lines are equal.
pub open spec fn is_edit_script(ops: Seq<Op>, a: Seq<Seq<char>>, b: Seq<Seq<char>>) -> bool {
    walk(ops, a, b, 0, 0) == Some((a.len(), b.len()))
}

/// Number of `Eq` steps.
pub open spec fn eq_count(ops: Seq<Op>) -> nat
    decreases ops.len(),
{
    if ops.len() == 0 {
        0
    } else {
        eq_count(ops.drop_last()) + if ops.last() is Eq {
            1nat
        } else {
            0nat
        }
    }
}

/// Length of a longest common subsequence of `a` and `b`.
pub open spec fn lcs(a: Seq<Seq<char>>, b: Seq<Seq<char>>) -> nat
    decreases a.len() + b.len(),
{
    if a.len() == 0 || b.len() == 0 {
        0
    } else if a.last() == b.last() {
        lcs(a.drop_last(), b.drop_last()) + 1
    } else {
        let x = lcs(a.drop_last(), b);
        let y = lcs(a, b.drop_last());
        if x >= y {
            x
        } else {
            y
        }
    }
}

proof fn lemma_walk_append(x: Seq<Op>, y: Seq<Op>, a: Seq<Seq<char>>, b: Seq<Seq<char>>, ia: nat, ib: nat)
    ensures
        walk(x + y, a, b, ia, ib) == match walk(x, a, b, ia, ib) {
            Some((p, q)) => walk(y, a, b, p, q),
            None => None,
        },
    decreases x.len(),
{
    if x.len() == 0 {
        assert(x + y =~= y);
    } else {
        assert((x + y).drop_first() =~= x.drop_first() + y);
        assert((x + y)[0] == x[0]);
        match x[0] {
            Op::Eq(i, j) => {
                lemma_walk_append(x.drop_first(), y, a, b, ia + 1, ib + 1);
            },
            Op::Del(i) => {
                lemma_walk_append(x.drop_first(), y, a, b, ia + 1, ib);
            },
            Op::Ins(j) => {
                lemma_walk_append(x.drop_first(), y, a, b, ia, ib + 1);
            },
        }
    }
}

proof fn lemma_eq_count_append(x: Seq<Op>, y: Seq<Op>)
    ensures
        eq_count(x + y) == eq_count(x) + eq_count(y),
    decreases y.len(),
{
    if y.len() == 0 {
        assert(x + y =~= x);
    } else {
        assert((x + y).drop_last() =~= x + y.drop_last());
        lemma_eq_count_append(x, y.drop_last());
    }
}

proof fn lemma_eq_count_prepend(op: Op, x: Seq<Op>)
    ensures
        eq_count(seq![op] + x) == eq_count(x) + if op is Eq {
            1nat
        } else {
            0nat
        },
{
    lemma_eq_count_append(seq![op], x);
    assert(seq![op].drop_last() =~= Seq::<Op>::empty());
    assert(seq![op].last() == op);
    assert(eq_count(Seq::<Op>::empty()) == 0);
}

/// `dp[i][j]` is the LCS length of the first `i` lines of `x` and first
/// `j` lines of `y`.
pub open spec fn dp_ok(dp: Seq<Vec<usize>>, x: Seq<Seq<char>>, y: Seq<Seq<char>>, rows: int) -> bool {
    &&& dp.len() == rows
    &&& forall|i: int| 0 <= i < rows ==> #[trigger] dp[i]@.len() == y.len() + 1
    &&& forall|i: int, j: int|
        0 <= i < rows && 0 <= j <= y.len() ==> #[trigger] dp[i]@[j] == lcs(x.take(i), y.take(j))
}

proof fn lemma_lcs_le(a: Seq<Seq<char>>, b: Seq<Seq<char>>)
    ensures
        lcs(a, b) <= a.len(),
    decreases a.len() + b.len(),
{
    if a.len() > 0 && b.len() > 0 {
        lemma_lcs_le(a.drop_last(), b.drop_last());
        lemma_lcs_le(a.drop_last(), b);
        lemma_lcs_le(a, b.drop_last());
    }
}

/// LCS table of the middle slices `a[p..p + n2]` and `b[p..p + m2]`.
fn lcs_table(a: &[String], b: &[String], p: usize, n2: usize, m2: usize) -> (dp: Vec<Vec<usize>>)
    requires
        p + n2 <= a.len(),
        p + m2 <= b.len(),
    ensures
        dp_ok(dp@, sviews(a@).subrange(p as int, p + n2), sviews(b@).subrange(p as int, p + m2), n2 + 1 as int),
{
    let ghost xs = sviews(a@).subrange(p as int, p + n2);
    let ghost ys = sviews(b@).subrange(p as int, p + m2);
    let n = n2;
    let m = m2;
    let mut dp: Vec<Vec<usize>> = Vec::new();
    let mut row0: Vec<usize> = Vec::new();
    let mut j: usize = 0;
    loop
        invariant_except_break
            row0@.len() == j,
            forall|k: int| 0 <= k < j ==> row0@[k] == 0,
        invariant
            j <= m,
        ensures
            row0@.len() == m + 1,
            forall|k: int| 0 <= k <= m ==> row0@[k] == 0,
        decreases m - j,
    {
        row0.push(0);
        if j == m {
            break;
        }
        j += 1;
    }
    assert forall|k: int| 0 <= k <= m implies row0@[k] == lcs(xs.take(0), ys.take(k)) by {
        assert(xs.take(0).len() == 0);
    }
    dp.push(row0);
    if n == 0 {
        return dp;
    }
    let mut i: usize = 1;
    loop
        invariant_except_break
            dp_ok(dp@, xs, ys, i as int),
        invariant
            1 <= i <= n,
            n == n2,
            m == m2,
            p + n2 <= a.len(),
            p + m2 <= b.len(),
            xs == sviews(a@).subrange(p as int, p + n2),
            ys == sviews(b@).subrange(p as int, p + m2),
        ensures
            dp_ok(dp@, xs, ys, n + 1 as int),
        decreases n - i,
    {
        let mut cur: Vec<usize> = Vec::new();
        cur.push(0);
        assert(lcs(xs.take(i as int), ys.take(0)) == 0) by {
            assert(ys.take(0).len() == 0);
        }
        if m > 0 {
            let mut jj: usize = 1;
            loop
                invariant_except_break
                    cur@.len() == jj,
                    forall|k: int| 0 <= k < jj ==> cur@[k] == lcs(xs.take(i as int), ys.take(k)),
                invariant
                    1 <= jj <= m,
                    1 <= i <= n,
                    n == n2,
                    m == m2,
                    p + n2 <= a.len(),
                    p + m2 <= b.len(),
                    xs == sviews(a@).subrange(p as int, p + n2),
                    ys == sviews(b@).subrange(p as int, p + m2),
                    dp_ok(dp@, xs, ys, i as int),
                ensures
                    cur@.len() == m + 1,
                    forall|k: int| 0 <= k <= m ==> cur@[k] == lcs(xs.take(i as int), ys.take(k)),
                decreases m - jj,
            {
                let ghost xi = xs.take(i as int);
                let ghost yj = ys.take(jj as int);
                proof {
                    assert(xi.drop_last() =~= xs.take(i - 1));
                    assert(yj.drop_last() =~= ys.take(jj - 1));
                    assert(xi.last() == a@[p + i - 1]@);
                    assert(yj.last() == b@[p + jj - 1]@);
                    lemma_lcs_le(xs.take(i - 1), ys.take(jj - 1));
                    assert(dp@[i - 1]@[jj - 1] == lcs(xs.take(i - 1), ys.take(jj - 1)));
                    assert(dp@[i - 1]@[jj as int] == lcs(xs.take(i - 1), ys.take(jj as int)));
                }
                let v = if a[p + i - 1] == b[p + jj - 1] {
                    dp[i - 1][jj - 1] + 1
                } else {
                    let up = dp[i - 1][jj];
                    let lf = cur[jj - 1];
                    if up >= lf {
                        up
                    } else {
                        lf
                    }
                };
                cur.push(v);
                if jj == m {
                    break;
                }
                jj += 1;
            }
        }
        let ghost before = dp@;
        dp.push(cur);
        assert(dp@ =~= before.push(cur));
        if i == n {
            break;
        }
        i += 1;
    }
    dp
}

proof fn lemma_lcs_empty(b: Seq<Seq<char>>)
    ensures
        lcs(Seq::empty(), b) == 0,
        lcs(b, Seq::empty()) == 0,
{
}

proof fn lemma_lcs_cons(x: Seq<char>, a: Seq<Seq<char>>, b: Seq<Seq<char>>)
    ensures
        lcs(seq![x] + a, seq![x] + b) == lcs(a, b) + 1,
    decreases a.len() + b.len(),
{
    let xa = seq![x] + a;
    let xb = seq![x] + b;
    let e = Seq::<Seq<char>>::empty();
    if a.len() == 0 && b.len() == 0 {
        assert(xa.drop_last() =~= e);
        assert(xb.drop_last() =~= e);
        assert(xa.last() == x);
        assert(xb.last() == x);
        lemma_lcs_empty(e);
        assert(a =~= e);
        assert(b =~= e);
    } else if a.len() == 0 {
        assert(a =~= e);
        assert(xa.last() == x);
        assert(xb.last() == b.last());
        assert(xa.drop_last() =~= e);
        assert(xb.drop_last() =~= seq![x] + b.drop_last());
        lemma_lcs_cons(x, a, b.drop_last());
        lemma_lcs_empty(b);
        lemma_lcs_empty(b.drop_last());
        lemma_lcs_empty(xb);
        lemma_lcs_empty(xb.drop_last());
        assert(lcs(xa, xb) == 1);
    } else if b.len() == 0 {
        assert(b =~= e);
        assert(xb.last() == x);
        assert(xa.last() == a.last());
        assert(xb.drop_last() =~= e);
        assert(xa.drop_last() =~= seq![x] + a.drop_last());
        lemma_lcs_cons(x, a.drop_last(), b);
        lemma_lcs_empty(a);
        lemma_lcs_empty(a.drop_last());
        lemma_lcs_empty(xa);
        lemma_lcs_empty(xa.drop_last());
        assert(lcs(xa, xb) == 1);
    } else {
        assert(xa.last() == a.last());
        assert(xb.last() == b.last());
        assert(xa.drop_last() =~= seq![x] + a.drop_last());
        assert(xb.drop_last() =~= seq![x] + b.drop_last());
        if a.last() == b.last() {
            lemma_lcs_cons(x, a.drop_last(), b.drop_last());
        } else {
            lemma_lcs_cons(x, a.drop_last(), b);
            lemma_lcs_cons(x, a, b.drop_last());
        }
    }
}

proof fn lemma_lcs_prefix(p: Seq<Seq<char>>, a: Seq<Seq<char>>, b: Seq<Seq<char>>)
    ensures
        lcs(p + a, p + b) == lcs(a, b) + p.len(),
    decreases p.len(),
{
    if p.len() > 0 {
        lemma_lcs_prefix(p.drop_first(), a, b);
        assert(p + a =~= seq![p[0]] + (p.drop_first() + a));
        assert(p + b =~= seq![p[0]] + (p.drop_first() + b));
        lemma_lcs_cons(p[0], p.drop_first() + a, p.drop_first() + b);
    } else {
        assert(p + a =~= a);
        assert(p + b =~= b);
    }
}

proof fn lemma_lcs_suffix(a: Seq<Seq<char>>, b: Seq<Seq<char>>, s: Seq<Seq<char>>)
    ensures
        lcs(a + s, b + s) == lcs(a, b) + s.len(),
    decreases s.len(),
{
    if s.len() > 0 {
        lemma_lcs_suffix(a, b, s.drop_last());
        assert((a + s).drop_last() =~= a + s.drop_last());
        assert((b + s).drop_last() =~= b + s.drop_last());
        assert((a + s).last() == s.last());
        assert((b + s).last() == s.last());
    } else {
        assert(a + s =~= a);
        assert(b + s =~= b);
    }
}

proof fn lemma_walk_one(op: Op, a: Seq<Seq<char>>, b: Seq<Seq<char>>, ia: nat, ib: nat)
    ensures
        walk(seq![op], a, b, ia, ib) == match op {
            Op::Eq(i, j) => if i == ia && j == ib && ia < a.len() && ib < b.len() && a[ia as int]
                == b[ib as int] {
                Some((ia + 1, ib + 1))
            } else {
                None
            },
            Op::Del(i) => if i == ia && ia < a.len() {
                Some((ia + 1, ib))
            } else {
                None
            },
            Op::Ins(j) => if j == ib && ib < b.len() {
                Some((ia, ib + 1))
            } else {
                None
            },
        },
{
    reveal_with_fuel(walk, 2);
    assert(seq![op].drop_first() =~= Seq::<Op>::empty());
}

/// The `k`-th lines from the end of `x` and `y` are equal.
pub open spec fn same_from_end(x: Seq<Seq<char>>, y: Seq<Seq<char>>, k: int) -> bool {
    x[x.len() - 1 - k] == y[y.len() - 1 - k]
}

/// The script the LCS table's backtrack from the end produces for `x`
/// against `y`, their first lines being at position `p` of both files: a
/// last line kept when the two last lines are equal, else the last line
/// of `x` deleted when dropping it keeps at least as long a common
/// subsequence as dropping the last line of `y`, else the last line of
/// `y` inserted.
pub open spec fn back_script(x: Seq<Seq<char>>, y: Seq<Seq<char>>, p: nat) -> Seq<Op>
    decreases x.len() + y.len(),
{
    if x.len() == 0 && y.len() == 0 {
        Seq::empty()
    } else if x.len() > 0 && y.len() > 0 && x.last() == y.last() {
        back_script(x.drop_last(), y.drop_last(), p).push(
            Op::Eq((p + x.len() - 1) as usize, (p + y.len() - 1) as usize),
        )
    } else if x.len() > 0 && (y.len() == 0 || lcs(x.drop_last(), y) >= lcs(x, y.drop_last())) {
        back_script(x.drop_last(), y, p).push(Op::Del((p + x.len() - 1) as usize))
    } else {
        back_script(x, y.drop_last(), p).push(Op::Ins((p + y.len() - 1) as usize))
    }
}

/// The number of equal leading lines of `a` and `b` from line `k` on.
pub open spec fn common_prefix(a: Seq<Seq<char>>, b: Seq<Seq<char>>, k: nat) -> nat
    decreases a.len() - k,
{
    if k < a.len() && k < b.len() && a[k as int] == b[k as int] {
        common_prefix(a, b, k + 1)
    } else {
        k
    }
}

/// The number of equal trailing lines of `a` and `b` from the `k`-th
/// last on, not reaching into the first `p` lines.
pub open spec fn common_suffix(a: Seq<Seq<char>>, b: Seq<Seq<char>>, p: nat, k: nat) -> nat
    decreases a.len() - k,
{
    if k + p < a.len() && k + p < b.len() && a[a.len() - 1 - k] == b[b.len() - 1 - k] {
        common_suffix(a, b, p, k + 1)
    } else {
        k
    }
}

/// `k` kept lines, from line `i0` of `a` and line `j0` of `b`.
pub open spec fn eq_run(i0: nat, j0: nat, k: nat) -> Seq<Op> {
    Seq::new(k, |t: int| Op::Eq((i0 + t) as usize, (j0 + t) as usize))
}

/// The edit script the `diff` tool uses from `a` to `b`: equal leading
/// and trailing lines are kept, and the middle is the LCS backtrack.
pub open spec fn diff_script(a: Seq<Seq<char>>, b: Seq<Seq<char>>) -> Seq<Op> {
    let p = common_prefix(a, b, 0);
    let s = common_suffix(a, b, p, 0);
    eq_run(0, 0, p) + back_script(a.subrange(p as int, a.len() - s), b.subrange(p as int, b.len() - s), p)
        + eq_run((a.len() - s) as nat, (b.len() - s) as nat, s)
}

/// The edit script of the middle slices `a[p..p + n2]` and `b[p..p + m2]`,
/// from the longest-common-subsequence table backtracked from the end.
fn middle_script(a: &[String], b: &[String], p: usize, n2: usize, m2: usize) -> (mid: Vec<Op>)
    requires
        p + n2 <= a.len(),
        p + m2 <= b.len(),
    ensures
        walk(mid@, sviews(a@), sviews(b@), p as nat, p as nat) == Some(((p + n2) as nat, (p + m2) as nat)),
        eq_count(mid@) == lcs(sviews(a@).subrange(p as int, p + n2), sviews(b@).subrange(p as int, p + m2)),
        mid@ == back_script(sviews(a@).subrange(p as int, p + n2), sviews(b@).subrange(p as int, p + m2), p as nat),
{
    let ghost sa = sviews(a@);
    let ghost sb = sviews(b@);
    let ghost xs = sa.subrange(p as int, p + n2);
    let ghost ys = sb.subrange(p as int, p + m2);
    let dp = lcs_table(a, b, p, n2, m2);
    let mut i: usize = n2;
    let mut j: usize = m2;
    let mut rev: Vec<Op> = Vec::new();
    let ghost mut tail: Seq<Op> = Seq::empty();
    proof {
        assert(xs.take(n2 as int) =~= xs);
        assert(ys.take(m2 as int) =~= ys);
    }
    loop
        invariant
            i <= n2,
            j <= m2,
            p + n2 <= a.len(),
            p + m2 <= b.len(),
            sa == sviews(a@),
            sb == sviews(b@),
            xs == sa.subrange(p as int, p + n2),
            ys == sb.subrange(p as int, p + m2),
            dp_ok(dp@, xs, ys, n2 + 1 as int),
            rev@.len() == tail.len(),
            forall|t: int| 0 <= t < tail.len() ==> #[trigger] rev@[t] == tail[tail.len() - 1 - t],
            walk(tail, sa, sb, (p + i) as nat, (p + j) as nat) == Some(((p + n2) as nat, (p + m2) as nat)),
            eq_count(tail) + lcs(xs.take(i as int), ys.take(j as int)) == lcs(xs, ys),
            back_script(xs, ys, p as nat) == back_script(xs.take(i as int), ys.take(j as int), p as nat) + tail,
        ensures
            i == 0,
            j == 0,
        decreases i + j,
    {
        if i == 0 && j == 0 {
            break;
        }
        let ghost xi = xs.take(i as int);
        let ghost yj = ys.take(j as int);
        let op;
        if i > 0 && j > 0 && a[p + i - 1] == b[p + j - 1] {
            op = Op::Eq(p + i - 1, p + j - 1);
            proof {
                assert(xi.drop_last() =~= xs.take(i - 1));
                assert(yj.drop_last() =~= ys.take(j - 1));
                assert(xi.last() == sa[p + i - 1]);
                assert(yj.last() == sb[p + j - 1]);
            }
            i -= 1;
            j -= 1;
        } else if i > 0 && (j == 0 || dp[i - 1][j] >= dp[i][j - 1]) {
            op = Op::Del(p + i - 1);
            proof {
                assert(xi.drop_last() =~= xs.take(i - 1));
                if j > 0 {
                    assert(yj.drop_last() =~= ys.take(j - 1));
                    assert(xi.last() == sa[p + i - 1]);
                    assert(yj.last() == sb[p + j - 1]);
                } else {
                    lemma_lcs_empty(xi);
                    lemma_lcs_empty(xs.take(i - 1));
                    assert(yj =~= Seq::<Seq<char>>::empty());
                }
            }
            i -= 1;
        } else {
            op = Op::Ins(p + j - 1);
            proof {
                assert(yj.drop_last() =~= ys.take(j - 1));
                if i > 0 {
                    assert(xi.drop_last() =~= xs.take(i - 1));
                    assert(xi.last() == sa[p + i - 1]);
                    assert(yj.last() == sb[p + j - 1]);
                } else {
                    lemma_lcs_empty(yj);
                    lemma_lcs_empty(ys.take(j - 1));
                    assert(xi =~= Seq::<Seq<char>>::empty());
                }
            }
            j -= 1;
        }
        proof {
            lemma_walk_append(seq![op], tail, sa, sb, (p + i) as nat, (p + j) as nat);
            lemma_walk_one(op, sa, sb, (p + i) as nat, (p + j) as nat);
            lemma_eq_count_prepend(op, tail);
            let smaller = back_script(xs.take(i as int), ys.take(j as int), p as nat);
            assert(back_script(xi, yj, p as nat) == smaller.push(op));
            assert(smaller.push(op) + tail =~= smaller + (seq![op] + tail));
        }
        let ghost old_tail = tail;
        rev.push(op);
        proof {
            tail = seq![op] + old_tail;
            assert forall|t: int| 0 <= t < tail.len() implies #[trigger] rev@[t] == tail[tail.len() - 1 - t] by {
                if t < old_tail.len() {
                    assert(rev@[t] == old_tail[old_tail.len() - 1 - t]);
                }
            }
        }
    }
    proof {
        lemma_lcs_empty(Seq::<Seq<char>>::empty());
        assert(xs.take(0) =~= Seq::<Seq<char>>::empty());
        assert(ys.take(0) =~= Seq::<Seq<char>>::empty());
        assert(Seq::<Op>::empty() + tail =~= tail);
    }
    let mut mid: Vec<Op> = Vec::new();
    let mut t: usize = rev.len();
    while t > 0
        invariant
            t <= rev@.len(),
            rev@.len() == tail.len(),
            forall|u: int| 0 <= u < tail.len() ==> #[trigger] rev@[u] == tail[tail.len() - 1 - u],
            mid@ == tail.take(tail.len() - t),
        decreases t,
    {
        t -= 1;
        let o = rev[t];
        mid.push(o);
        assert(mid@ =~= tail.take(tail.len() - t));
    }
    assert(tail.take(tail.len() as int) =~= tail);
    mid
}

/// Trimming equal leading and trailing lines takes exactly that many lines
/// off the LCS length.
proof fn lemma_trim_lcs(sa: Seq<Seq<char>>, sb: Seq<Seq<char>>, prefix: int, suffix: int)
    requires
        0 <= prefix,
        0 <= suffix,
        prefix + suffix <= sa.len(),
        prefix + suffix <= sb.len(),
        forall|t: int| 0 <= t < prefix ==> #[trigger] sa[t] == sb[t],
        forall|u: int| 0 <= u < suffix ==> #[trigger] same_from_end(sa, sb, u),
    ensures
        lcs(sa, sb) == prefix + lcs(
            sa.subrange(prefix, sa.len() - suffix),
            sb.subrange(prefix, sb.len() - suffix),
        ) + suffix,
{
    let n = sa.len();
    let m = sb.len();
    let xs = sa.subrange(prefix, n - suffix);
    let ys = sb.subrange(prefix, m - suffix);
    let pa = sa.take(prefix);
    let sfx = sa.skip(n - suffix);
    assert(pa =~= sb.take(prefix));
    assert(sfx =~= sb.skip(m - suffix)) by {
        assert forall|u: int| 0 <= u < suffix implies #[trigger] sfx[u] == sb.skip(m - suffix)[u] by {
            let w = suffix - 1 - u;
            assert(same_from_end(sa, sb, w));
        }
    }
    assert(sa =~= pa + (xs + sfx));
    assert(sb =~= pa + (ys + sfx));
    lemma_lcs_prefix(pa, xs + sfx, ys + sfx);
    lemma_lcs_suffix(xs, ys, sfx);
}

/// The LCS edit script from `a` to `b`: equal leading and trailing lines
/// are kept first, the middle is diffed with a longest-common-subsequence
/// table and backtracked from the end.
#[verifier::rlimit(50)]
#[verifier::spinoff_prover]
pub fn lcs_diff(a: &[String], b: &[String]) -> (ops: Vec<Op>)
    ensures
        ops@ == diff_script(sviews(a@), sviews(b@)),
        is_edit_script(ops@, sviews(a@), sviews(b@)),
        eq_count(ops@) == lcs(sviews(a@), sviews(b@)),
{
    let ghost sa = sviews(a@);
    let ghost sb = sviews(b@);
    let n = a.len();
    let m = b.len();
    let mut prefix: usize = 0;
    while prefix < n && prefix < m && a[prefix] == b[prefix]
        invariant
            prefix <= n,
            prefix <= m,
            n == a.len(),
            m == b.len(),
            forall|k: int| 0 <= k < prefix ==> #[trigger] sa[k] == sb[k],
            sa == sviews(a@),
            sb == sviews(b@),
            common_prefix(sa, sb, 0) == common_prefix(sa, sb, prefix as nat),
        decreases n - prefix,
    {
        prefix += 1;
    }
    assert(common_prefix(sa, sb, 0) == prefix);
    let mut suffix: usize = 0;
    while suffix < n - prefix && suffix < m - prefix && a[n - 1 - suffix] == b[m - 1 - suffix]
        invariant
            prefix + suffix <= n,
            prefix + suffix <= m,
            n == a.len(),
            m == b.len(),
            forall|k: int| 0 <= k < suffix ==> #[trigger] same_from_end(sa, sb, k),
            sa == sviews(a@),
            sb == sviews(b@),
            common_suffix(sa, sb, prefix as nat, 0) == common_suffix(sa, sb, prefix as nat, suffix as nat),
        decreases n - suffix,
    {
        suffix += 1;
    }
    assert(common_suffix(sa, sb, prefix as nat, 0) == suffix);
    let n2 = n - prefix - suffix;
    let m2 = m - prefix - suffix;
    let ghost xs = sa.subrange(prefix as int, prefix + n2);
    let ghost ys = sb.subrange(prefix as int, prefix + m2);
    // Leading equal lines.
    let mut ops: Vec<Op> = Vec::new();
    let mut k: usize = 0;
    while k < prefix
        invariant
            k <= prefix,
            prefix <= n,
            prefix <= m,
            n == a.len(),
            m == b.len(),
            sa == sviews(a@),
            sb == sviews(b@),
            forall|t: int| 0 <= t < prefix ==> #[trigger] sa[t] == sb[t],
            walk(ops@, sa, sb, 0, 0) == Some((k as nat, k as nat)),
            eq_count(ops@) == k,
            ops@ == eq_run(0, 0, k as nat),
        decreases prefix - k,
    {
        proof {
            lemma_walk_append(ops@, seq![Op::Eq(k, k)], sa, sb, 0, 0);
            lemma_walk_one(Op::Eq(k, k), sa, sb, k as nat, k as nat);
            assert(ops@ + seq![Op::Eq(k, k)] =~= ops@.push(Op::Eq(k, k)));
            assert(ops@.push(Op::Eq(k, k)).drop_last() =~= ops@);
        }
        ops.push(Op::Eq(k, k));
        k += 1;
        assert(ops@ =~= eq_run(0, 0, k as nat));
    }
    // The middle.
    let mid = middle_script(a, b, prefix, n2, m2);
    let ghost pre = ops@;
    let mut t: usize = 0;
    while t < mid.len()
        invariant
            t <= mid@.len(),
            ops@ == pre + mid@.take(t as int),
        decreases mid@.len() - t,
    {
        ops.push(mid[t]);
        t += 1;
        assert(ops@ =~= pre + mid@.take(t as int));
    }
    proof {
        assert(mid@.take(mid@.len() as int) =~= mid@);
        lemma_walk_append(pre, mid@, sa, sb, 0, 0);
        lemma_eq_count_append(pre, mid@);
    }
    // Trailing equal lines.
    let mut q: usize = 0;
    while q < suffix
        invariant
            q <= suffix,
            prefix + suffix <= n,
            prefix + suffix <= m,
            n == a.len(),
            m == b.len(),
            sa == sviews(a@),
            sb == sviews(b@),
            forall|u: int| 0 <= u < suffix ==> #[trigger] same_from_end(sa, sb, u),
            walk(ops@, sa, sb, 0, 0) == Some(((n - suffix + q) as nat, (m - suffix + q) as nat)),
            eq_count(ops@) == prefix + lcs(xs, ys) + q,
            ops@ == pre + mid@ + eq_run((n - suffix) as nat, (m - suffix) as nat, q as nat),
        decreases suffix - q,
    {
        let op = Op::Eq(n - suffix + q, m - suffix + q);
        proof {
            let u = suffix - 1 - q;
            assert(same_from_end(sa, sb, u));
            lemma_walk_append(ops@, seq![op], sa, sb, 0, 0);
            lemma_walk_one(op, sa, sb, (n - suffix + q) as nat, (m - suffix + q) as nat);
            assert(ops@ + seq![op] =~= ops@.push(op));
            assert(ops@.push(op).drop_last() =~= ops@);
        }
        ops.push(op);
        q += 1;
        assert(eq_run((n - suffix) as nat, (m - suffix) as nat, q as nat) =~= eq_run(
            (n - suffix) as nat,
            (m - suffix) as nat,
            (q - 1) as nat,
        ).push(op));
        assert(ops@ =~= pre + mid@ + eq_run((n - suffix) as nat, (m - suffix) as nat, q as nat));
    }
    proof {
        lemma_trim_lcs(sa, sb, prefix as int, suffix as int);
        assert(xs == sa.subrange(prefix as int, sa.len() - suffix));
        assert(ys == sb.subrange(prefix as int, sb.len() - suffix));
    }
    ops
}

proof fn lemma_walk_mono(ops: Seq<Op>, a: Seq<Seq<char>>, b: Seq<Seq<char>>, ia: nat, ib: nat)
    ensures
        walk(ops, a, b, ia, ib) matches Some((p, q)) ==> ia <= p && ib <= q && (ia <= a.len() ==> p
            <= a.len()) && (ib <= b.len() ==> q <= b.len()),
    decreases ops.len(),
{
    if ops.len() > 0 {
        match ops[0] {
            Op::Eq(i, j) => lemma_walk_mono(ops.drop_first(), a, b, ia + 1, ib + 1),
            Op::Del(i) => lemma_walk_mono(ops.drop_first(), a, b, ia + 1, ib),
            Op::Ins(j) => lemma_walk_mono(ops.drop_first(), a, b, ia, ib + 1),
        }
    }
}

proof fn lemma_walk_restrict(
    ops: Seq<Op>,
    a: Seq<Seq<char>>,
    b: Seq<Seq<char>>,
    ia: nat,
    ib: nat,
    p: nat,
    q: nat,
    a2: Seq<Seq<char>>,
    b2: Seq<Seq<char>>,
)
    requires
        walk(ops, a, b, ia, ib) == Some((p, q)),
        p <= a2.len(),
        q <= b2.len(),
        forall|k: int| 0 <= k < p ==> #[trigger] a2[k] == a[k],
        forall|k: int| 0 <= k < q ==> #[trigger] b2[k] == b[k],
    ensures
        walk(ops, a2, b2, ia, ib) == Some((p, q)),
    decreases ops.len(),
{
    if ops.len() > 0 {
        match ops[0] {
            Op::Eq(i, j) => {
                lemma_walk_mono(ops.drop_first(), a, b, ia + 1, ib + 1);
                lemma_walk_restrict(ops.drop_first(), a, b, ia + 1, ib + 1, p, q, a2, b2);
                assert(a2[ia as int] == a[ia as int]);
                assert(b2[ib as int] == b[ib as int]);
            },
            Op::Del(i) => {
                lemma_walk_mono(ops.drop_first(), a, b, ia + 1, ib);
                lemma_walk_restrict(ops.drop_first(), a, b, ia + 1, ib, p, q, a2, b2);
            },
            Op::Ins(j) => {
                lemma_walk_mono(ops.drop_first(), a, b, ia, ib + 1);
                lemma_walk_restrict(ops.drop_first(), a, b, ia, ib + 1, p, q, a2, b2);
            },
        }
    }
}

proof fn lemma_lcs_bounds(a: Seq<Seq<char>>, b: Seq<Seq<char>>)
    ensures
        a.len() > 0 ==> lcs(a.drop_last(), b) <= lcs(a, b) <= lcs(a.drop_last(), b) + 1,
        b.len() > 0 ==> lcs(a, b.drop_last()) <= lcs(a, b) <= lcs(a, b.drop_last()) + 1,
    decreases a.len() + b.len(),
{
    if a.len() == 0 || b.len() == 0 {
        lemma_lcs_empty(a);
        lemma_lcs_empty(b);
        if a.len() > 0 {
            lemma_lcs_empty(a.drop_last());
            assert(b =~= Seq::<Seq<char>>::empty());
        }
        if b.len() > 0 {
            lemma_lcs_empty(b.drop_last());
            assert(a =~= Seq::<Seq<char>>::empty());
        }
    } else {
        let a1 = a.drop_last();
        let b1 = b.drop_last();
        lemma_lcs_bounds(a1, b);
        lemma_lcs_bounds(a, b1);
        lemma_lcs_bounds(a1, b1);
        if a1.len() == 0 {
            lemma_lcs_empty(b);
            lemma_lcs_empty(b1);
            assert(a1 =~= Seq::<Seq<char>>::empty());
        }
        if b1.len() == 0 {
            lemma_lcs_empty(a);
            lemma_lcs_empty(a1);
            assert(b1 =~= Seq::<Seq<char>>::empty());
        }
        lemma_lcs_le(a1, b1);
    }
}

/// No complete edit script keeps more lines than a longest common
/// subsequence: the script `lcs_diff` builds, which keeps exactly
/// `lcs(a, b)` lines, is a longest one.
pub proof fn lemma_lcs_is_longest(ops: Seq<Op>, a: Seq<Seq<char>>, b: Seq<Seq<char>>)
    requires
        is_edit_script(ops, a, b),
    ensures
        eq_count(ops) <= lcs(a, b),
    decreases ops.len(),
{
    if ops.len() == 0 {
        lemma_lcs_empty(b);
    } else {
        let init = ops.drop_last();
        let op = ops.last();
        assert(ops =~= init + seq![op]);
        lemma_walk_append(init, seq![op], a, b, 0, 0);
        lemma_walk_mono(init, a, b, 0, 0);
        let (p, q) = walk(init, a, b, 0, 0)->0;
        lemma_walk_one(op, a, b, p, q);
        lemma_lcs_bounds(a, b);
        match op {
            Op::Eq(i, j) => {
                lemma_walk_restrict(init, a, b, 0, 0, p, q, a.drop_last(), b.drop_last());
                lemma_lcs_is_longest(init, a.drop_last(), b.drop_last());
            },
            Op::Del(i) => {
                lemma_walk_restrict(init, a, b, 0, 0, p, q, a.drop_last(), b);
                lemma_lcs_is_longest(init, a.drop_last(), b);
            },
            Op::Ins(j) => {
                lemma_walk_restrict(init, a, b, 0, 0, p, q, a, b.drop_last());
                lemma_lcs_is_longest(init, a, b.drop_last());
            },
        }
    }
}

/// A hunk: the ops `from..to` (end exclusive) of an edit script.
#[derive(Debug, Clone, Copy)]
pub struct HunkRange {
    pub from: usize,
    pub to: usize,
}

/// The op deletes or inserts a line.
pub open spec fn is_change(o: Op) -> bool {
    o is Del || o is Ins
}

/// Indices of the changing ops among the first `n`, in order.
pub open spec fn changed_upto(ops: Seq<Op>, n: int) -> Seq<nat>
    decreases n,
{
    if n <= 0 {
        Seq::empty()
    } else {
        changed_upto(ops, n - 1) + if is_change(ops[n - 1]) {
            seq![(n - 1) as nat]
        } else {
            Seq::<nat>::empty()
        }
    }
}

/// Index (into `ch`) of the last change of the run that starts at `i`:
/// consecutive changes at most `gap` ops apart belong to one run.
pub open spec fn run_end(ch: Seq<nat>, i: nat, gap: nat) -> nat
    decreases ch.len() - i,
{
    if i + 1 < ch.len() && ch[i + 1 as int] - ch[i as int] <= gap {
        run_end(ch, i + 1, gap)
    } else {
        i
    }
}

/// The hunks for the runs of changes from `ch[i]` on: each run widened by
/// `ctx` ops of context on both sides, clipped to `0..len`.
pub open spec fn hunks_from(ch: Seq<nat>, i: nat, ctx: nat, len: nat) -> Seq<(nat, nat)>
    decreases ch.len() - i,
{
    if i >= ch.len() {
        Seq::empty()
    } else {
        let e = run_end(ch, i, 2 * ctx + 1);
        let from = if ch[i as int] >= ctx {
            (ch[i as int] - ctx) as nat
        } else {
            0
        };
        let to = if ch[e as int] + ctx + 1 <= len {
            (ch[e as int] + ctx + 1) as nat
        } else {
            len
        };
        proof {
            lemma_run_end(ch, i, 2 * ctx + 1);
        }
        seq![(from, to)] + hunks_from(ch, e + 1, ctx, len)
    }
}

/// A run of changes ends at or after its start, inside the list.
pub proof fn lemma_run_end(ch: Seq<nat>, i: nat, gap: nat)
    requires
        i < ch.len(),
    ensures
        i <= run_end(ch, i, gap) < ch.len(),
    decreases ch.len() - i,
{
    if i + 1 < ch.len() && ch[i + 1 as int] - ch[i as int] <= gap {
        lemma_run_end(ch, i + 1, gap);
    }
}

/// Hunks as plain pairs.
pub open spec fn hunk_views(h: Seq<HunkRange>) -> Seq<(nat, nat)> {
    h.map_values(|r: HunkRange| (r.from as nat, r.to as nat))
}

/// Groups the changes of an edit script into hunks: changes separated by
/// at most `2 * context` unchanged ops share a hunk, and each hunk carries
/// `context` ops of context on each side.
pub fn group_into_hunks(ops: &[Op], context: usize) -> (r: Vec<HunkRange>)
    requires
        ops@.len() + 2 * context + 1 <= usize::MAX,
    ensures
        hunk_views(r@) == hunks_from(changed_upto(ops@, ops@.len() as int), 0, context as nat, ops@.len()),
{
    let ghost len = ops@.len();
    let mut changed: Vec<usize> = Vec::new();
    let mut k: usize = 0;
    while k < ops.len()
        invariant
            k <= ops@.len(),
            changed@.map_values(|x: usize| x as nat) == changed_upto(ops@, k as int),
            forall|t: int| 0 <= t < changed@.len() ==> #[trigger] changed@[t] < k,
            forall|t: int, u: int| 0 <= t < u < changed@.len() ==> changed@[t] < changed@[u],
        decreases ops@.len() - k,
    {
        let ghost prev = changed@;
        match ops[k] {
            Op::Del(_) | Op::Ins(_) => {
                changed.push(k);
            },
            Op::Eq(_, _) => {},
        }
        assert(changed@.map_values(|x: usize| x as nat) =~= changed_upto(ops@, k + 1));
        k += 1;
    }
    let ghost ch = changed@.map_values(|x: usize| x as nat);
    let gap = 2 * context + 1;
    let mut hunks: Vec<HunkRange> = Vec::new();
    let mut i: usize = 0;
    assert(hunk_views(hunks@) =~= Seq::<(nat, nat)>::empty());
    while i < changed.len()
        invariant
            i <= changed@.len(),
            ch == changed@.map_values(|x: usize| x as nat),
            forall|t: int| 0 <= t < changed@.len() ==> #[trigger] changed@[t] < ops@.len(),
            forall|t: int, u: int| 0 <= t < u < changed@.len() ==> changed@[t] < changed@[u],
            gap == 2 * context + 1,
            ops@.len() + 2 * context + 1 <= usize::MAX,
            hunk_views(hunks@) + hunks_from(ch, i as nat, context as nat, ops@.len()) == hunks_from(
                ch,
                0,
                context as nat,
                ops@.len(),
            ),
        decreases changed@.len() - i,
    {
        let start_change = changed[i];
        let mut end_change = start_change;
        let mut j = i + 1;
        while j < changed.len() && changed[j] - end_change <= gap
            invariant
                i < j <= changed@.len(),
                end_change == changed@[j - 1],
                forall|t: int, u: int| 0 <= t < u < changed@.len() ==> changed@[t] < changed@[u],
                ch == changed@.map_values(|x: usize| x as nat),
                run_end(ch, i as nat, gap as nat) == run_end(ch, (j - 1) as nat, gap as nat),
            decreases changed@.len() - j,
        {
            end_change = changed[j];
            j += 1;
        }
        proof {
            lemma_run_end(ch, i as nat, gap as nat);
        }
        let from = if start_change >= context {
            start_change - context
        } else {
            0
        };
        let to = if end_change + context + 1 <= ops.len() {
            end_change + context + 1
        } else {
            ops.len()
        };
        let ghost prev = hunk_views(hunks@);
        hunks.push(HunkRange { from, to });
        assert(hunk_views(hunks@) =~= prev + seq![(from as nat, to as nat)]);
        assert(hunk_views(hunks@) + hunks_from(ch, j as nat, context as nat, ops@.len()) =~= prev + (seq![(from as nat, to as nat)] + hunks_from(ch, j as nat, context as nat, ops@.len())));
        i = j;
    }
    assert(hunk_views(hunks@) + Seq::<(nat, nat)>::empty() =~= hunk_views(hunks@));
    hunks
}

/// Length of the common leading run of `x` and `y`, counted from `p`.
pub open spec fn prefix_from(x: Seq<Seq<char>>, y: Seq<Seq<char>>, p: nat) -> nat
    decreases x.len() - p,
{
    if p < x.len() && p < y.len() && x[p as int] == y[p as int] {
        prefix_from(x, y, p + 1)
    } else {
        p
    }
}

/// Length of the common trailing run of `x` and `y` that stays clear of
/// their first `p` lines, counted from `s`.
pub open spec fn suffix_from(x: Seq<Seq<char>>, y: Seq<Seq<char>>, p: nat, s: nat) -> nat
    decreases x.len() - s,
{
    if s + p < x.len() && s + p < y.len() && x[x.len() - 1 - s] == y[y.len() - 1 - s] {
        suffix_from(x, y, p, s + 1)
    } else {
        s
    }
}

/// What `line_diff` returns for line lists `x` (before) and `y` (after):
/// the removed lines, the added lines and the number of equal leading
/// lines, after stripping the lines equal at the head and at the tail.
pub open spec fn line_diff_spec(x: Seq<Seq<char>>, y: Seq<Seq<char>>) -> (Seq<Seq<char>>, Seq<Seq<char>>, nat) {
    let p = prefix_from(x, y, 0);
    let s = suffix_from(x, y, p, 0);
    (x.subrange(p as int, x.len() - s), y.subrange(p as int, y.len() - s), p)
}

fn strings_of(v: &Vec<Vec<char>>, from: usize, to: usize) -> (r: Vec<String>)
    requires
        from <= to <= v@.len(),
    ensures
        sviews(r@) == views(v@).subrange(from as int, to as int),
{
    let mut out: Vec<String> = Vec::new();
    let mut i: usize = from;
    while i < to
        invariant
            from <= i <= to,
            to <= v@.len(),
            sviews(out@) == views(v@).subrange(from as int, i as int),
        decreases to - i,
    {
        let s = string_of(v[i].as_slice());
        assert(s@ == views(v@)[i as int]);
        let ghost prev = sviews(out@);
        out.push(s);
        assert(sviews(out@) =~= prev.push(s@));
        assert(views(v@).subrange(from as int, i + 1) =~= views(v@).subrange(from as int, i as int).push(views(v@)[i as int]));
        i += 1;
    }
    out
}

/// The prefix/suffix-trimmed line diff of two texts (split as `str::lines`
/// splits): `(removed, added, equal leading lines)`.
pub fn line_diff(before: &str, after: &str) -> (r: (Vec<String>, Vec<String>, usize))
    ensures
        (sviews(r.0@), sviews(r.1@), r.2 as nat) == line_diff_spec(lines_of(before@), lines_of(after@)),
        r.2 <= lines_of(before@).len(),
{
    let b = lines_of_str(before);
    let a = lines_of_str(after);
    let ghost x = views(b@);
    let ghost y = views(a@);
    let mut prefix: usize = 0;
    while prefix < b.len() && prefix < a.len() && chars_eq(&b[prefix], &a[prefix])
        invariant
            prefix <= b@.len(),
            prefix <= a@.len(),
            x == views(b@),
            y == views(a@),
            prefix_from(x, y, 0) == prefix_from(x, y, prefix as nat),
        decreases b@.len() - prefix,
    {
        prefix += 1;
    }
    let mut suffix: usize = 0;
    while suffix < b.len() - prefix && suffix < a.len() - prefix && chars_eq(
        &b[b.len() - 1 - suffix],
        &a[a.len() - 1 - suffix],
    )
        invariant
            prefix <= b@.len(),
            prefix <= a@.len(),
            suffix + prefix <= b@.len(),
            suffix + prefix <= a@.len(),
            x == views(b@),
            y == views(a@),
            prefix == prefix_from(x, y, 0),
            suffix_from(x, y, prefix as nat, 0) == suffix_from(x, y, prefix as nat, suffix as nat),
        decreases b@.len() - suffix,
    {
        suffix += 1;
    }
    let removed = strings_of(&b, prefix, b.len() - suffix);
    let added = strings_of(&a, prefix, a.len() - suffix);
    (removed, added, prefix)
}

/// One piece of a unified diff body: a hunk header for the ops
/// `from..to`, or the line of one op.
#[derive(Debug, Clone, Copy)]
pub enum Piece {
    Header(usize, usize),
    Line(usize),
}

/// The body pieces of the hunks `hs` from hunk `h` on: each hunk's header
/// followed by one line per op of the hunk.
pub open spec fn pieces_from(hs: Seq<(nat, nat)>, h: nat) -> Seq<Piece>
    decreases hs.len() - h,
{
    if h >= hs.len() {
        Seq::empty()
    } else {
        let (f, t) = hs[h as int];
        seq![Piece::Header(f as usize, t as usize)] + Seq::new(
            if t >= f {
                (t - f) as nat
            } else {
                0
            },
            |k: int| Piece::Line((f + k) as usize),
        ) + pieces_from(hs, h + 1)
    }
}

/// Number of ops in `from..to` that keep or delete a line of `a`.
pub open spec fn a_count(ops: Seq<Op>, from: int, to: int) -> nat
    decreases to - from,
{
    if from >= to {
        0
    } else {
        a_count(ops, from, to - 1) + if ops[to - 1] is Ins {
            0nat
        } else {
            1nat
        }
    }
}

/// Number of ops in `from..to` that keep or insert a line of `b`.
pub open spec fn b_count(ops: Seq<Op>, from: int, to: int) -> nat
    decreases to - from,
{
    if from >= to {
        0
    } else {
        b_count(ops, from, to - 1) + if ops[to - 1] is Del {
            0nat
        } else {
            1nat
        }
    }
}

/// Zero-based start lines of a hunk: taken from its first op, 0 for the
/// side that op does not touch.
pub open spec fn hunk_starts(ops: Seq<Op>, from: int, to: int) -> (nat, nat) {
    if from < to {
        match ops[from] {
            Op::Eq(i, j) => (i as nat, j as nat),
            Op::Del(i) => (i as nat, 0),
            Op::Ins(j) => (0, j as nat),
        }
    } else {
        (0, 0)
    }
}

/// The header line of the hunk `from..to`: `@@ -a,n +b,m @@`, with
/// one-based starts.
pub open spec fn header_text(ops: Seq<Op>, from: int, to: int) -> Seq<char> {
    let (sa, sb) = hunk_starts(ops, from, to);
    "@@ -"@ + decimal(sa + 1) + ","@ + decimal(a_count(ops, from, to)) + " +"@ + decimal(sb + 1) + ","@
        + decimal(b_count(ops, from, to)) + " @@\n"@
}

/// The body line of one op: the kept, deleted or inserted line with its
/// marker.
pub open spec fn op_text(o: Op, a: Seq<Seq<char>>, b: Seq<Seq<char>>) -> Seq<char> {
    match o {
        Op::Eq(i, j) => seq![' '] + a[i as int] + seq!['\n'],
        Op::Del(i) => seq!['-'] + a[i as int] + seq!['\n'],
        Op::Ins(j) => seq!['+'] + b[j as int] + seq!['\n'],
    }
}

/// Most body lines a diff shows.
pub const MAX_OUTPUT_LINES: usize = 400;

/// The text of the pieces `ps`, given that `emitted` body lines came
/// before; once `MAX_OUTPUT_LINES` lines are out, the next line is replaced
/// by a truncation note and nothing follows. The flag says whether that
/// happened.
pub open spec fn emit(ps: Seq<Piece>, ops: Seq<Op>, a: Seq<Seq<char>>, b: Seq<Seq<char>>, emitted: nat) -> (Seq<char>, bool)
    decreases ps.len(),
{
    if ps.len() == 0 {
        (Seq::empty(), false)
    } else {
        match ps[0] {
            Piece::Header(f, t) => {
                let rest = emit(ps.drop_first(), ops, a, b, emitted);
                (header_text(ops, f as int, t as int) + rest.0, rest.1)
            },
            Piece::Line(k) => if emitted >= MAX_OUTPUT_LINES {
                ("... (output truncated)\n"@, true)
            } else {
                let rest = emit(ps.drop_first(), ops, a, b, emitted + 1);
                (op_text(ops[k as int], a, b) + rest.0, rest.1)
            },
        }
    }
}

/// Number of body lines among `ps` whose op is a deletion (`del`) or an
/// insertion (`!del`).
pub open spec fn count_lines(ps: Seq<Piece>, ops: Seq<Op>, del: bool) -> nat
    decreases ps.len(),
{
    if ps.len() == 0 {
        0
    } else {
        count_lines(ps.drop_first(), ops, del) + match ps[0] {
            Piece::Line(k) => if (del && ops[k as int] is Del) || (!del && ops[k as int] is Ins) {
                1nat
            } else {
                0nat
            },
            Piece::Header(_, _) => 0nat,
        }
    }
}

/// The unified diff of line lists `a` and `b` labelled `pa` and `pb`, with
/// `ctx` lines of context.
pub open spec fn unified_spec(pa: Seq<char>, pb: Seq<char>, a: Seq<Seq<char>>, b: Seq<Seq<char>>, ops: Seq<Op>, ctx: nat) -> Seq<char> {
    if a == b {
        "(identical: "@ + pa + " and "@ + pb + " both "@ + decimal(a.len()) + " lines)\n"@
    } else {
        let hs = hunks_from(changed_upto(ops, ops.len() as int), 0, ctx, ops.len());
        let ps = pieces_from(hs, 0);
        let head = "--- "@ + pa + "\n+++ "@ + pb + "\n"@;
        let (body, truncated) = emit(ps, ops, a, b, 0);
        if truncated {
            head + body
        } else if hs.len() == 0 {
            head + body + "(files differ but no hunk changes detected - check trailing newline or whitespace)\n"@
        } else {
            head + body + "\n(summary: -"@ + decimal(count_lines(ps, ops, true)) + " +"@ + decimal(
                count_lines(ps, ops, false),
            ) + " across "@ + decimal(hs.len()) + " hunk(s))\n"@
        }
    }
}

fn lines_equal(a: &[String], b: &[String]) -> (r: bool)
    ensures
        r == (sviews(a@) == sviews(b@)),
{
    if a.len() != b.len() {
        assert(sviews(a@).len() != sviews(b@).len());
        return false;
    }
    let mut i: usize = 0;
    while i < a.len()
        invariant
            i <= a@.len(),
            a@.len() == b@.len(),
            forall|k: int| 0 <= k < i ==> #[trigger] sviews(a@)[k] == sviews(b@)[k],
        decreases a@.len() - i,
    {
        if a[i] != b[i] {
            assert(sviews(a@)[i as int] != sviews(b@)[i as int]);
            return false;
        }
        i += 1;
    }
    assert(sviews(a@) =~= sviews(b@));
    true
}

proof fn lemma_counts_step(ops: Seq<Op>, from: int, to: int)
    requires
        from <= to,
    ensures
        a_count(ops, from, to) <= to - from,
        b_count(ops, from, to) <= to - from,
    decreases to - from,
{
    if from < to {
        lemma_counts_step(ops, from, to - 1);
    }
}

/// Header line of the hunk `from..to`.
fn hunk_header(ops: &[Op], from: usize, to: usize) -> (r: Vec<char>)
    requires
        from <= to <= ops@.len(),
        ops_in_bounds(ops@, usize::MAX as nat, usize::MAX as nat),
    ensures
        r@ == header_text(ops@, from as int, to as int),
{
    let mut a_start: usize = 0;
    let mut b_start: usize = 0;
    if from < to {
        match ops[from] {
            Op::Eq(i, j) => {
                a_start = i;
                b_start = j;
            },
            Op::Del(i) => {
                a_start = i;
            },
            Op::Ins(j) => {
                b_start = j;
            },
        }
    }
    let mut na: usize = 0;
    let mut nb: usize = 0;
    let mut k: usize = from;
    while k < to
        invariant
            from <= k <= to,
            to <= ops@.len(),
            na == a_count(ops@, from as int, k as int),
            nb == b_count(ops@, from as int, k as int),
        decreases to - k,
    {
        proof {
            lemma_counts_step(ops@, from as int, k as int);
        }
        match ops[k] {
            Op::Eq(_, _) => {
                na += 1;
                nb += 1;
            },
            Op::Del(_) => {
                na += 1;
            },
            Op::Ins(_) => {
                nb += 1;
            },
        }
        k += 1;
    }
    let mut v = chars_of("@@ -");
    push_decimal(&mut v, a_start as u64 + 1);
    extend_str(&mut v, ",");
    push_decimal(&mut v, na as u64);
    extend_str(&mut v, " +");
    push_decimal(&mut v, b_start as u64 + 1);
    extend_str(&mut v, ",");
    push_decimal(&mut v, nb as u64);
    extend_str(&mut v, " @@\n");
    v
}

/// Every op of a complete edit script names lines that exist.
pub open spec fn ops_in_bounds(ops: Seq<Op>, a_len: nat, b_len: nat) -> bool {
    forall|k: int| 0 <= k < ops.len() ==> match #[trigger] ops[k] {
        Op::Eq(i, j) => i < a_len && j < b_len,
        Op::Del(i) => i < a_len,
        Op::Ins(j) => j < b_len,
    }
}

proof fn lemma_walk_bounds(ops: Seq<Op>, a: Seq<Seq<char>>, b: Seq<Seq<char>>, ia: nat, ib: nat)
    requires
        walk(ops, a, b, ia, ib) is Some,
    ensures
        ops_in_bounds(ops, a.len(), b.len()),
        (walk(ops, a, b, ia, ib)->0).0 + (walk(ops, a, b, ia, ib)->0).1 >= ia + ib + ops.len(),
    decreases ops.len(),
{
    if ops.len() > 0 {
        let (na, nb) = match ops[0] {
            Op::Eq(_, _) => (ia + 1, ib + 1),
            Op::Del(_) => (ia + 1, ib),
            Op::Ins(_) => (ia, ib + 1),
        };
        lemma_walk_bounds(ops.drop_first(), a, b, na, nb);
        assert forall|k: int| 0 <= k < ops.len() implies match #[trigger] ops[k] {
            Op::Eq(i, j) => i < a.len() && j < b.len(),
            Op::Del(i) => i < a.len(),
            Op::Ins(j) => j < b.len(),
        } by {
            if k > 0 {
                assert(ops[k] == ops.drop_first()[k - 1]);
            }
        }
    }
}

proof fn lemma_changed_upto(ops: Seq<Op>, n: int)
    requires
        0 <= n <= ops.len(),
    ensures
        forall|t: int| 0 <= t < changed_upto(ops, n).len() ==> #[trigger] changed_upto(ops, n)[t] < n,
        forall|t: int, u: int|
            0 <= t < u < changed_upto(ops, n).len() ==> changed_upto(ops, n)[t] < changed_upto(ops, n)[u],
    decreases n,
{
    if n > 0 {
        lemma_changed_upto(ops, n - 1);
        let prev = changed_upto(ops, n - 1);
        let cur = changed_upto(ops, n);
        assert forall|t: int| 0 <= t < cur.len() implies #[trigger] cur[t] < n by {
            if t < prev.len() {
                assert(cur[t] == prev[t]);
            }
        }
        assert forall|t: int, u: int| 0 <= t < u < cur.len() implies cur[t] < cur[u] by {
            assert(cur[t] == prev[t]);
            if u < prev.len() {
                assert(cur[u] == prev[u]);
            }
        }
    }
}

proof fn lemma_hunks_bounds(ch: Seq<nat>, i: nat, ctx: nat, len: nat)
    requires
        forall|t: int| 0 <= t < ch.len() ==> #[trigger] ch[t] < len,
        forall|t: int, u: int| 0 <= t < u < ch.len() ==> ch[t] < ch[u],
    ensures
        forall|h: int|
            0 <= h < hunks_from(ch, i, ctx, len).len() ==> (#[trigger] hunks_from(ch, i, ctx, len)[h]).0
                <= hunks_from(ch, i, ctx, len)[h].1 && hunks_from(ch, i, ctx, len)[h].1 <= len,
    decreases ch.len() - i,
{
    if i < ch.len() {
        let e = run_end(ch, i, 2 * ctx + 1);
        lemma_run_end(ch, i, 2 * ctx + 1);
        lemma_hunks_bounds(ch, e + 1, ctx, len);
        let hs = hunks_from(ch, i, ctx, len);
        assert(ch[i as int] <= ch[e as int]) by {
            if i < e {
                assert(ch[i as int] < ch[e as int]);
            }
        }
        assert forall|h: int| 0 <= h < hs.len() implies (#[trigger] hs[h]).0 <= hs[h].1 && hs[h].1 <= len by {
            if h > 0 {
                assert(hs[h] == hunks_from(ch, e + 1, ctx, len)[h - 1]);
            }
        }
    }
}

/// Renders the unified diff of `a_lines` and `b_lines` for the edit
/// script `ops` between them.
pub fn render_unified(path_a: &str, path_b: &str, a_lines: &[String], b_lines: &[String], ops: &[Op], ctx: usize) -> (r: String)
    requires
        is_edit_script(ops@, sviews(a_lines@), sviews(b_lines@)),
        ops@.len() + 2 * ctx + 1 <= usize::MAX,
    ensures
        r@ == unified_spec(path_a@, path_b@, sviews(a_lines@), sviews(b_lines@), ops@, ctx as nat),
{
    let ghost sa = sviews(a_lines@);
    let ghost sb = sviews(b_lines@);
    proof {
        lemma_walk_bounds(ops@, sa, sb, 0, 0);
    }
    if lines_equal(a_lines, b_lines) {
        let mut v = chars_of("(identical: ");
        extend_str(&mut v, path_a);
        extend_str(&mut v, " and ");
        extend_str(&mut v, path_b);
        extend_str(&mut v, " both ");
        push_decimal(&mut v, a_lines.len() as u64);
        extend_str(&mut v, " lines)\n");
        return string_of(&v);
    }
    let hunks = group_into_hunks(ops, ctx);
    let ghost hv = hunk_views(hunks@);
    let ghost ch = changed_upto(ops@, ops@.len() as int);
    proof {
        lemma_changed_upto(ops@, ops@.len() as int);
        lemma_hunks_bounds(ch, 0, ctx as nat, ops@.len());
    }
    // Flatten the hunks into headers and lines.
    let mut ps: Vec<Piece> = Vec::new();
    let mut h: usize = 0;
    assert(ps@ + pieces_from(hv, 0) =~= pieces_from(hv, 0));
    while h < hunks.len()
        invariant
            h <= hunks@.len(),
            hv == hunk_views(hunks@),
            forall|x: int| 0 <= x < hv.len() ==> (#[trigger] hv[x]).0 <= hv[x].1 && hv[x].1 <= ops@.len(),
            ps@ + pieces_from(hv, h as nat) == pieces_from(hv, 0),
        decreases hunks@.len() - h,
    {
        let f = hunks[h].from;
        let t = hunks[h].to;
        assert(hv[h as int] == (f as nat, t as nat));
        let ghost base = ps@;
        let ghost lines = Seq::new((t - f) as nat, |k: int| Piece::Line((f + k) as usize));
        ps.push(Piece::Header(f, t));
        let mut k: usize = f;
        while k < t
            invariant
                f <= k <= t,
                ps@ == base + seq![Piece::Header(f, t)] + lines.take(k - f),
                lines == Seq::new((t - f) as nat, |k: int| Piece::Line((f + k) as usize)),
            decreases t - k,
        {
            ps.push(Piece::Line(k));
            k += 1;
            assert(ps@ =~= base + seq![Piece::Header(f, t)] + lines.take(k - f));
        }
        assert(lines.take(t - f) =~= lines);
        assert(pieces_from(hv, h as nat) =~= seq![Piece::Header(f, t)] + lines + pieces_from(hv, (h + 1) as nat));
        assert(ps@ + pieces_from(hv, (h + 1) as nat) =~= base + pieces_from(hv, h as nat));
        h += 1;
    }
    assert(ps@ =~= pieces_from(hv, 0));
    let ghost all = ps@;
    // Every line piece names an op.
    assert forall|x: int| 0 <= x < all.len() implies match #[trigger] all[x] {
        Piece::Line(k) => k < ops@.len(),
        Piece::Header(f, t) => f <= t <= ops@.len(),
    } by {
        assert(ops@.len() == ops.len());
        lemma_pieces_bounds(hv, 0, ops@.len());
    }
    let mut out = chars_of("--- ");
    extend_str(&mut out, path_a);
    extend_str(&mut out, "\n+++ ");
    extend_str(&mut out, path_b);
    extend_str(&mut out, "\n");
    let ghost head = out@;
    assert(sa.len() == a_lines.len());
    assert(sb.len() == b_lines.len());
    assert(ops_in_bounds(ops@, usize::MAX as nat, usize::MAX as nat));
    let mut emitted: usize = 0;
    let mut removed: usize = 0;
    let mut added: usize = 0;
    let mut i: usize = 0;
    assert(all.skip(0) =~= all);
    while i < ps.len()
        invariant
            i <= all.len(),
            all == ps@,
            ops_in_bounds(ops@, sa.len(), sb.len()),
            ops_in_bounds(ops@, usize::MAX as nat, usize::MAX as nat),
            sa == sviews(a_lines@),
            sb == sviews(b_lines@),
            forall|x: int| 0 <= x < all.len() ==> match #[trigger] all[x] {
                Piece::Line(k) => k < ops@.len(),
                Piece::Header(f, t) => f <= t <= ops@.len(),
            },
            emitted <= MAX_OUTPUT_LINES,
            removed <= i,
            added <= i,
            sa != sb,
            hv == hunks_from(changed_upto(ops@, ops@.len() as int), 0, ctx as nat, ops@.len()),
            all == pieces_from(hv, 0),
            head == "--- "@ + path_a@ + "\n+++ "@ + path_b@ + "\n"@,
            out@ + emit(all.skip(i as int), ops@, sa, sb, emitted as nat).0 == head + emit(all, ops@, sa, sb, 0).0,
            emit(all.skip(i as int), ops@, sa, sb, emitted as nat).1 == emit(all, ops@, sa, sb, 0).1,
            removed + count_lines(all.skip(i as int), ops@, true) == count_lines(all, ops@, true),
            added + count_lines(all.skip(i as int), ops@, false) == count_lines(all, ops@, false),
        decreases all.len() - i,
    {
        assert(all.skip(i as int).drop_first() =~= all.skip(i + 1));
        assert(all.skip(i as int)[0] == all[i as int]);
        match ps[i] {
            Piece::Header(f, t) => {
                let hdr = hunk_header(ops, f, t);
                let ghost prev = out@;
                crate::text::extend_chars(&mut out, &hdr);
                assert(out@ + emit(all.skip(i + 1), ops@, sa, sb, emitted as nat).0 =~= prev + (header_text(ops@, f as int, t as int) + emit(all.skip(i + 1), ops@, sa, sb, emitted as nat).0));
            },
            Piece::Line(k) => {
                if emitted >= MAX_OUTPUT_LINES {
                    let ghost prev = out@;
                    extend_str(&mut out, "... (output truncated)\n");
                    assert(emit(all.skip(i as int), ops@, sa, sb, emitted as nat) == ("... (output truncated)\n"@, true));
                    assert(out@ == head + emit(all, ops@, sa, sb, 0).0);
                    assert(emit(all, ops@, sa, sb, 0).1);
                    assert(sa != sb);
                    assert(unified_spec(path_a@, path_b@, sa, sb, ops@, ctx as nat) == head + emit(all, ops@, sa, sb, 0).0);
                    return string_of(&out);
                }
                let ghost prev = out@;
                match ops[k] {
                    Op::Eq(ai, _) => {
                        out.push(' ');
                        extend_str(&mut out, a_lines[ai].as_str());
                        out.push('\n');
                    },
                    Op::Del(ai) => {
                        out.push('-');
                        extend_str(&mut out, a_lines[ai].as_str());
                        out.push('\n');
                        removed += 1;
                    },
                    Op::Ins(bi) => {
                        out.push('+');
                        extend_str(&mut out, b_lines[bi].as_str());
                        out.push('\n');
                        added += 1;
                    },
                }
                assert(out@ =~= prev + op_text(ops@[k as int], sa, sb));
                assert(out@ + emit(all.skip(i + 1), ops@, sa, sb, (emitted + 1) as nat).0 =~= prev + (op_text(ops@[k as int], sa, sb) + emit(all.skip(i + 1), ops@, sa, sb, (emitted + 1) as nat).0));
                emitted += 1;
            },
        }
        i += 1;
    }
    assert(all.skip(i as int) =~= Seq::<Piece>::empty());
    if hunks.len() == 0 {
        extend_str(&mut out, "(files differ but no hunk changes detected - check trailing newline or whitespace)\n");
    } else {
        extend_str(&mut out, "\n(summary: -");
        push_decimal(&mut out, removed as u64);
        extend_str(&mut out, " +");
        push_decimal(&mut out, added as u64);
        extend_str(&mut out, " across ");
        push_decimal(&mut out, hunks.len() as u64);
        extend_str(&mut out, " hunk(s))\n");
    }
    string_of(&out)
}

proof fn lemma_pieces_bounds(hs: Seq<(nat, nat)>, h: nat, len: nat)
    requires
        len <= usize::MAX,
        forall|x: int| 0 <= x < hs.len() ==> (#[trigger] hs[x]).0 <= hs[x].1 && hs[x].1 <= len,
    ensures
        forall|x: int| 0 <= x < pieces_from(hs, h).len() ==> match #[trigger] pieces_from(hs, h)[x] {
            Piece::Line(k) => k < len,
            Piece::Header(f, t) => f <= t <= len,
        },
    decreases hs.len() - h,
{
    if h < hs.len() {
        lemma_pieces_bounds(hs, h + 1, len);
        let (f, t) = hs[h as int];
        let lines = Seq::new((t - f) as nat, |k: int| Piece::Line((f + k) as usize));
        let ps = pieces_from(hs, h);
        assert(ps =~= seq![Piece::Header(f as usize, t as usize)] + lines + pieces_from(hs, h + 1));
        assert forall|x: int| 0 <= x < ps.len() implies match #[trigger] ps[x] {
            Piece::Line(k) => k < len,
            Piece::Header(f2, t2) => f2 <= t2 <= len,
        } by {
            if x == 0 {
            } else if x < 1 + lines.len() {
                assert(ps[x] == lines[x - 1]);
            } else {
                assert(ps[x] == pieces_from(hs, h + 1)[x - 1 - lines.len()]);
            }
        }
    }
}

/// The unified diff of two line lists, as the `diff` tool prints it: the
/// edit script `diff_script` (a longest-common-subsequence script, see
/// `lcs_diff`) grouped into hunks with `ctx` lines of context, at most
/// `MAX_OUTPUT_LINES` body lines, and a summary.
pub fn unified_diff(path_a: &str, path_b: &str, a_lines: &[String], b_lines: &[String], ctx: usize) -> (r: String)
    requires
        a_lines@.len() + b_lines@.len() + 2 * ctx + 1 <= usize::MAX,
    ensures
        r@ == unified_spec(
            path_a@,
            path_b@,
            sviews(a_lines@),
            sviews(b_lines@),
            diff_script(sviews(a_lines@), sviews(b_lines@)),
            ctx as nat,
        ),
        is_edit_script(diff_script(sviews(a_lines@), sviews(b_lines@)), sviews(a_lines@), sviews(b_lines@)),
        eq_count(diff_script(sviews(a_lines@), sviews(b_lines@))) == lcs(sviews(a_lines@), sviews(b_lines@)),
{
    let ops = lcs_diff(a_lines, b_lines);
    proof {
        lemma_walk_bounds(ops@, sviews(a_lines@), sviews(b_lines@), 0, 0);
    }
    render_unified(path_a, path_b, a_lines, b_lines, &ops, ctx)
}

/// `ch` is strictly increasing with every element below `len`.
#[verifier::opaque]
pub open spec fn sorted_below(ch: Seq<nat>, len: nat) -> bool {
    &&& forall|t: int, u: int| #![auto] 0 <= t < u < ch.len() ==> ch[t] < ch[u]
    &&& forall|t: int| #![trigger ch[t]] 0 <= t < ch.len() ==> ch[t] < len
}

/// The distance from change `t` to the next one.
pub open spec fn step_gap(ch: Seq<nat>, t: int) -> int {
    ch[t + 1] - ch[t]
}

proof fn lemma_run_end_props(ch: Seq<nat>, i: nat, gap: nat)
    requires
        i < ch.len(),
    ensures
        run_end(ch, i, gap) + 1 < ch.len() ==> ch[run_end(ch, i, gap) + 1int] - ch[run_end(ch, i, gap) as int] > gap,
        forall|t: int| i <= t < run_end(ch, i, gap) ==> #[trigger] step_gap(ch, t) <= gap,
    decreases ch.len() - i,
{
    if i + 1 < ch.len() && ch[i + 1 as int] - ch[i as int] <= gap {
        lemma_run_end_props(ch, i + 1, gap);
    }
}

proof fn lemma_sorted_le(ch: Seq<nat>, len: nat, t: int, u: int)
    requires
        sorted_below(ch, len),
        0 <= t <= u < ch.len(),
    ensures
        ch[t] <= ch[u],
        ch[u] < len,
        t < u ==> ch[t] < ch[u],
{
    reveal(sorted_below);
}

/// The first hunk from change `i` and the hunks after it.
proof fn lemma_hunks_from_unfold(ch: Seq<nat>, i: nat, ctx: nat, len: nat)
    requires
        i < ch.len(),
    ensures
        ({
            let e = run_end(ch, i, 2 * ctx + 1);
            let from: nat = if ch[i as int] >= ctx {
                (ch[i as int] - ctx) as nat
            } else {
                0
            };
            let to: nat = if ch[e as int] + ctx + 1 <= len {
                (ch[e as int] + ctx + 1) as nat
            } else {
                len
            };
            &&& i <= e < ch.len()
            &&& e + 1 < ch.len() ==> ch[e + 1int] - ch[e as int] > 2 * ctx + 1
            &&& hunks_from(ch, i, ctx, len) == seq![(from, to)] + hunks_from(ch, e + 1, ctx, len)
        }),
{
    lemma_run_end(ch, i, 2 * ctx + 1);
    lemma_run_end_props(ch, i, 2 * ctx + 1);
}

proof fn lemma_hunks_shape(ch: Seq<nat>, i: nat, ctx: nat, len: nat)
    requires
        sorted_below(ch, len),
        i <= ch.len(),
    ensures
        ({
            let h = hunks_from(ch, i, ctx, len);
            &&& forall|k: int| #![trigger h[k]] 0 <= k < h.len() ==> h[k].0 < h[k].1 <= len
            &&& forall|k: int| #![trigger h[k]] 0 <= k < h.len() && i < ch.len() ==> h[k].0 + ctx >= ch[i as int]
            &&& forall|k1: int, k2: int| #![trigger h[k1], h[k2]] 0 <= k1 < k2 < h.len() ==> h[k1].1 < h[k2].0
        }),
    decreases ch.len() - i,
{
    if i < ch.len() {
        lemma_hunks_from_unfold(ch, i, ctx, len);
        let e = run_end(ch, i, 2 * ctx + 1);
        lemma_hunks_shape(ch, e + 1, ctx, len);
        lemma_sorted_le(ch, len, i as int, e as int);
        let rest = hunks_from(ch, e + 1, ctx, len);
        let h = hunks_from(ch, i, ctx, len);
        if e + 1 < ch.len() {
            lemma_sorted_le(ch, len, i as int, e + 1int);
        }
        assert forall|k: int| #![trigger h[k]] 0 <= k < h.len() implies h[k].0 < h[k].1 <= len by {
            if k > 0 {
                assert(h[k] == rest[k - 1]);
            }
        }
        assert forall|k: int| #![trigger h[k]] 0 <= k < h.len() && i < ch.len() implies h[k].0 + ctx >= ch[i as int] by {
            if k > 0 {
                assert(h[k] == rest[k - 1]);
            }
        }
        assert forall|k1: int, k2: int| #![trigger h[k1], h[k2]] 0 <= k1 < k2 < h.len() implies h[k1].1 < h[k2].0 by {
            assert(h[k2] == rest[k2 - 1]);
            if k1 > 0 {
                assert(h[k1] == rest[k1 - 1]);
            } else {
                assert(rest[k2 - 1].0 + ctx >= ch[e + 1int]);
            }
        }
    }
}

#[verifier::rlimit(40)]
proof fn lemma_hunks_cover(ch: Seq<nat>, i: nat, ctx: nat, len: nat)
    requires
        sorted_below(ch, len),
        i <= ch.len(),
    ensures
        ({
            let h = hunks_from(ch, i, ctx, len);
            &&& forall|t: int| #![trigger ch[t]] i <= t < ch.len() ==> exists|k: int| #![trigger h[k]] 0 <= k < h.len() && h[k].0 <= ch[t] < h[k].1
            &&& forall|t: int| #![trigger ch[t]]
                i <= t && t + 1 < ch.len() && ch[t + 1] - ch[t] <= 2 * ctx + 1 ==> exists|k: int| #![trigger h[k]]
                    0 <= k < h.len() && h[k].0 <= ch[t] && ch[t + 1] < h[k].1
        }),
    decreases ch.len() - i,
{
    if i < ch.len() {
        lemma_hunks_from_unfold(ch, i, ctx, len);
        let e = run_end(ch, i, 2 * ctx + 1);
        lemma_hunks_cover(ch, e + 1, ctx, len);
        let rest = hunks_from(ch, e + 1, ctx, len);
        let h = hunks_from(ch, i, ctx, len);
        lemma_sorted_le(ch, len, i as int, e as int);
        assert forall|t: int| #![trigger ch[t]] i <= t < ch.len() implies exists|k: int| #![trigger h[k]] 0 <= k < h.len() && h[k].0 <= ch[t] < h[k].1 by {
            if t <= e {
                lemma_sorted_le(ch, len, t, e as int);
                lemma_sorted_le(ch, len, i as int, t);
                assert(h[0].0 <= ch[t] < h[0].1);
            } else {
                let k = choose|k: int| #![trigger rest[k]] 0 <= k < rest.len() && rest[k].0 <= ch[t] < rest[k].1;
                assert(h[k + 1] == rest[k]);
            }
        }
        assert forall|t: int| #![trigger ch[t]]
            i <= t && t + 1 < ch.len() && ch[t + 1] - ch[t] <= 2 * ctx + 1 implies exists|k: int| #![trigger h[k]]
            0 <= k < h.len() && h[k].0 <= ch[t] && ch[t + 1] < h[k].1 by {
            if t < e {
                lemma_sorted_le(ch, len, t + 1, e as int);
                lemma_sorted_le(ch, len, i as int, t);
                assert(h[0].0 <= ch[t] && ch[t + 1] < h[0].1);
            } else if t == e {
                assert(false);
            } else {
                let k = choose|k: int| #![trigger rest[k]] 0 <= k < rest.len() && rest[k].0 <= ch[t] && ch[t + 1] < rest[k].1;
                assert(h[k + 1] == rest[k]);
            }
        }
    }
}

proof fn lemma_changed_upto_props(ops: Seq<Op>, n: int)
    requires
        0 <= n <= ops.len(),
    ensures
        sorted_below(changed_upto(ops, n), n as nat),
        forall|t: int| 0 <= t < changed_upto(ops, n).len() ==> is_change(ops[#[trigger] changed_upto(ops, n)[t] as int]),
        forall|a: int| #![trigger ops[a]] 0 <= a < n && is_change(ops[a]) ==> exists|t: int| #![auto] 0 <= t < changed_upto(ops, n).len() && changed_upto(ops, n)[t] == a,
    decreases n,
{
    reveal(sorted_below);
    if n > 0 {
        lemma_changed_upto_props(ops, n - 1);
        let p = changed_upto(ops, n - 1);
        let c = changed_upto(ops, n);
        assert forall|a: int| #![trigger ops[a]] 0 <= a < n && is_change(ops[a]) implies exists|t: int| #![auto] 0 <= t < c.len() && c[t] == a by {
            if a < n - 1 {
                let t = choose|t: int| #![trigger p[t]] 0 <= t < p.len() && p[t] == a;
                assert(c[t] == p[t]);
            } else {
                assert(c[p.len() as int] == a);
            }
        }
        assert forall|t: int| 0 <= t < c.len() implies is_change(ops[#[trigger] c[t] as int]) by {
            if t < p.len() {
                assert(c[t] == p[t]);
            }
        }
    }
}

/// The hunks of an edit script are ordered and pairwise disjoint (each
/// ends before the next begins), lie within the script, show every change,
/// and two changes separated only by at most `2 * ctx` unchanged ops share
/// one hunk.
#[verifier::rlimit(40)]
pub proof fn lemma_hunks_law(ops: Seq<Op>, ctx: nat)
    ensures
        ({
            let h = hunks_from(changed_upto(ops, ops.len() as int), 0, ctx, ops.len());
            &&& forall|k: int| #![trigger h[k]] 0 <= k < h.len() ==> h[k].0 < h[k].1 <= ops.len()
            &&& forall|k1: int, k2: int| #![trigger h[k1], h[k2]] 0 <= k1 < k2 < h.len() ==> h[k1].1 <= h[k2].0
            &&& forall|a: int| #![trigger ops[a]] 0 <= a < ops.len() && is_change(ops[a]) ==> exists|k: int| #![trigger h[k]] 0 <= k < h.len() && h[k].0 <= a < h[k].1
            &&& forall|a: int, b: int| #![trigger ops[a], ops[b]]
                0 <= a < b < ops.len() && is_change(ops[a]) && is_change(ops[b]) && b - a <= 2 * ctx + 1 && (forall|m: int|
                    a < m < b ==> !is_change(#[trigger] ops[m])) ==> exists|k: int| #![trigger h[k]] 0 <= k < h.len() && h[k].0 <= a && b < h[k].1
        }),
{
    let n = ops.len() as int;
    let ch = changed_upto(ops, n);
    lemma_changed_upto_props(ops, n);
    lemma_hunks_shape(ch, 0, ctx, ops.len());
    lemma_hunks_cover(ch, 0, ctx, ops.len());
    let h = hunks_from(ch, 0, ctx, ops.len());
    assert forall|a: int| #![trigger ops[a]] 0 <= a < ops.len() && is_change(ops[a]) implies exists|k: int| #![trigger h[k]] 0 <= k < h.len() && h[k].0 <= a < h[k].1 by {
        let t = choose|t: int| #![trigger ch[t]] 0 <= t < ch.len() && ch[t] == a;
        assert(exists|k: int| #![trigger h[k]] 0 <= k < h.len() && h[k].0 <= ch[t] < h[k].1);
    }
    assert forall|a: int, b: int| #![trigger ops[a], ops[b]]
        0 <= a < b < ops.len() && is_change(ops[a]) && is_change(ops[b]) && b - a <= 2 * ctx + 1 && (forall|m: int|
            a < m < b ==> !is_change(#[trigger] ops[m])) implies exists|k: int| #![trigger h[k]] 0 <= k < h.len() && h[k].0 <= a && b < h[k].1 by {
        let t = choose|t: int| #![trigger ch[t]] 0 <= t < ch.len() && ch[t] == a;
        let u = choose|u: int| #![trigger ch[u]] 0 <= u < ch.len() && ch[u] == b;
        assert(t < u) by {
            if u <= t {
                if u < t {
                    lemma_sorted_le(ch, ops.len(), u, t);
                }
            }
        }
        if u > t + 1 {
            lemma_sorted_le(ch, ops.len(), t, t + 1);
            lemma_sorted_le(ch, ops.len(), t + 1, u);
            assert(is_change(ops[ch[t + 1] as int]));
            assert(!is_change(ops[ch[t + 1] as int]));
        }
        assert(u == t + 1);
        assert(exists|k: int| #![trigger h[k]] 0 <= k < h.len() && h[k].0 <= ch[t] && ch[t + 1] < h[k].1);
    }
}

/// Where each hunk from change `i` on begins and ends, and which changes
/// it keeps apart.
#[verifier::rlimit(40)]
proof fn lemma_hunk_edges(ch: Seq<nat>, i: nat, ctx: nat, len: nat)
    requires
        sorted_below(ch, len),
        i <= ch.len(),
    ensures
        ({
            let h = hunks_from(ch, i, ctx, len);
            &&& forall|k: int| #![trigger h[k]] 0 <= k < h.len() ==> exists|t: int| #![trigger ch[t]]
                i <= t < ch.len() && h[k].0 == (if ch[t] >= ctx { ch[t] - ctx } else { 0int }) && (t == i || ch[t] - ch[t - 1] > 2 * ctx + 1)
            &&& forall|k: int| #![trigger h[k]] 0 <= k < h.len() ==> exists|t: int| #![trigger ch[t]]
                i <= t < ch.len() && h[k].1 == (if ch[t] + ctx + 1 <= len { ch[t] + ctx + 1 } else { len }) && (t + 1 == ch.len() || ch[t + 1] - ch[t] > 2 * ctx + 1)
            &&& forall|t: int, k: int| #![trigger step_gap(ch, t), h[k]]
                i <= t && t + 1 < ch.len() && step_gap(ch, t) > 2 * ctx + 1 && 0 <= k < h.len() ==> !(h[k].0 <= ch[t] && ch[t + 1] < h[k].1)
        }),
    decreases ch.len() - i,
{
    if i < ch.len() {
        let gap = 2 * ctx + 1;
        lemma_hunks_from_unfold(ch, i, ctx, len);
        lemma_run_end_props(ch, i, gap);
        let e = run_end(ch, i, gap);
        lemma_hunk_edges(ch, e + 1, ctx, len);
        lemma_hunks_shape(ch, e + 1, ctx, len);
        let rest = hunks_from(ch, e + 1, ctx, len);
        let h = hunks_from(ch, i, ctx, len);
        assert forall|k: int| #![trigger h[k]] 0 <= k < h.len() implies exists|t: int| #![trigger ch[t]]
            i <= t < ch.len() && h[k].0 == (if ch[t] >= ctx { ch[t] - ctx } else { 0int }) && (t == i || ch[t] - ch[t - 1] > 2 * ctx + 1) by {
            if k == 0 {
                assert(ch[i as int] == ch[i as int]);
            } else {
                assert(h[k] == rest[k - 1]);
                let t = choose|t: int| #![trigger ch[t]]
                    e + 1 <= t < ch.len() && rest[k - 1].0 == (if ch[t] >= ctx { ch[t] - ctx } else { 0int }) && (t == e + 1 || ch[t] - ch[t - 1] > 2 * ctx + 1);
                assert(ch[t] == ch[t]);
            }
        }
        assert forall|k: int| #![trigger h[k]] 0 <= k < h.len() implies exists|t: int| #![trigger ch[t]]
            i <= t < ch.len() && h[k].1 == (if ch[t] + ctx + 1 <= len { ch[t] + ctx + 1 } else { len }) && (t + 1 == ch.len() || ch[t + 1] - ch[t] > 2 * ctx + 1) by {
            if k == 0 {
                assert(ch[e as int] == ch[e as int]);
            } else {
                assert(h[k] == rest[k - 1]);
                let t = choose|t: int| #![trigger ch[t]]
                    e + 1 <= t < ch.len() && rest[k - 1].1 == (if ch[t] + ctx + 1 <= len { ch[t] + ctx + 1 } else { len }) && (t + 1 == ch.len() || ch[t + 1] - ch[t] > 2 * ctx + 1);
                assert(ch[t] == ch[t]);
            }
        }
        assert forall|t: int, k: int| #![trigger step_gap(ch, t), h[k]]
            i <= t && t + 1 < ch.len() && step_gap(ch, t) > 2 * ctx + 1 && 0 <= k < h.len() implies !(h[k].0 <= ch[t] && ch[t + 1] < h[k].1) by {
            if t < e {
                assert(step_gap(ch, t) <= gap);
            } else if t == e {
                if k == 0 {
                } else {
                    assert(h[k] == rest[k - 1]);
                    assert(rest[k - 1].0 + ctx >= ch[e + 1int]);
                }
            } else {
                if k == 0 {
                    lemma_sorted_le(ch, len, e as int, t);
                } else {
                    assert(h[k] == rest[k - 1]);
                    assert(step_gap(ch, t) == step_gap(ch, t));
                }
            }
        }
    }
}

/// The hunks `group_into_hunks` forms for the script `ops`.
pub open spec fn script_hunks(ops: Seq<Op>, ctx: nat) -> Seq<(nat, nat)> {
    hunks_from(changed_upto(ops, ops.len() as int), 0, ctx, ops.len())
}

/// `from` lies `ctx` ops before a change `c` (or at op 0 when `c < ctx`),
/// and no op from `from` up to `c` changes anything.
pub open spec fn opens_before_change(ops: Seq<Op>, ctx: nat, from: int) -> bool {
    exists|c: int| #![trigger ops[c]]
        0 <= c < ops.len() && is_change(ops[c]) && from == (if c >= ctx { c - ctx } else { 0int }) && (forall|m: int|
            from <= m < c ==> !is_change(#[trigger] ops[m]))
}

/// `to` lies `ctx + 1` ops after a change `c` (or at the end of the
/// script), and no op after `c` up to `to` changes anything.
pub open spec fn closes_after_change(ops: Seq<Op>, ctx: nat, to: int) -> bool {
    exists|c: int| #![trigger ops[c]]
        0 <= c < ops.len() && is_change(ops[c]) && to == (if c + ctx + 1 <= ops.len() { c + ctx + 1 } else { ops.len() as int })
            && (forall|m: int| c < m < to ==> !is_change(#[trigger] ops[m]))
}

/// Each hunk begins `ctx` ops before its first change (or at op 0) and
/// ends `ctx` ops after its last change (or at the end of the script), with
/// no change in the context it adds; two changes more than `2 * ctx`
/// unchanged ops apart never share a hunk.
#[verifier::rlimit(60)]
pub proof fn lemma_hunk_edges_law(ops: Seq<Op>, ctx: nat)
    ensures
        forall|k: int| #![trigger script_hunks(ops, ctx)[k]]
            0 <= k < script_hunks(ops, ctx).len() ==> opens_before_change(ops, ctx, script_hunks(ops, ctx)[k].0 as int)
                && closes_after_change(ops, ctx, script_hunks(ops, ctx)[k].1 as int),
        forall|a: int, b: int, k: int| #![trigger ops[a], ops[b], script_hunks(ops, ctx)[k]]
            0 <= a < b < ops.len() && is_change(ops[a]) && is_change(ops[b]) && b - a > 2 * ctx + 1 && (forall|m: int|
                a < m < b ==> !is_change(#[trigger] ops[m])) && 0 <= k < script_hunks(ops, ctx).len() ==> !(
            script_hunks(ops, ctx)[k].0 <= a && b < script_hunks(ops, ctx)[k].1),
{
    let n = ops.len() as int;
    let len = ops.len();
    let ch = changed_upto(ops, n);
    lemma_changed_upto_props(ops, n);
    lemma_hunk_edges(ch, 0, ctx, len);
    let h = script_hunks(ops, ctx);
    assert(h == hunks_from(ch, 0, ctx, len));
    assert forall|k: int| #![trigger h[k]] 0 <= k < h.len() implies opens_before_change(ops, ctx, h[k].0 as int) by {
        let t = choose|t: int| #![trigger ch[t]]
            0 <= t < ch.len() && h[k].0 == (if ch[t] >= ctx { ch[t] - ctx } else { 0int }) && (t == 0 || ch[t] - ch[t - 1] > 2 * ctx + 1);
        let c = ch[t] as int;
        let from = h[k].0 as int;
        lemma_sorted_le(ch, len, t, t);
        assert(is_change(ops[c]));
        assert forall|m: int| from <= m < c implies !is_change(#[trigger] ops[m]) by {
            if is_change(ops[m]) {
                let u = choose|u: int| #![trigger ch[u]] 0 <= u < ch.len() && ch[u] == m;
                if u >= t {
                    lemma_sorted_le(ch, len, t, u);
                } else {
                    lemma_sorted_le(ch, len, u, t - 1);
                    lemma_sorted_le(ch, len, t - 1, t);
                }
            }
        }
    }
    assert forall|k: int| #![trigger h[k]] 0 <= k < h.len() implies closes_after_change(ops, ctx, h[k].1 as int) by {
        let t = choose|t: int| #![trigger ch[t]]
            0 <= t < ch.len() && h[k].1 == (if ch[t] + ctx + 1 <= len { ch[t] + ctx + 1 } else { len }) && (t + 1 == ch.len() || ch[t + 1] - ch[t] > 2 * ctx + 1);
        let c = ch[t] as int;
        let to = h[k].1 as int;
        lemma_sorted_le(ch, len, t, t);
        assert(is_change(ops[c]));
        assert forall|m: int| c < m < to implies !is_change(#[trigger] ops[m]) by {
            if is_change(ops[m]) && 0 <= m < ops.len() {
                let u = choose|u: int| #![trigger ch[u]] 0 <= u < ch.len() && ch[u] == m;
                if u <= t {
                    lemma_sorted_le(ch, len, u, t);
                } else {
                    lemma_sorted_le(ch, len, t + 1, u);
                    lemma_sorted_le(ch, len, t, t + 1);
                }
            }
        }
    }
    assert forall|a: int, b: int, k: int| #![trigger ops[a], ops[b], h[k]]
        0 <= a < b < ops.len() && is_change(ops[a]) && is_change(ops[b]) && b - a > 2 * ctx + 1 && (forall|m: int|
            a < m < b ==> !is_change(#[trigger] ops[m])) && 0 <= k < h.len() implies !(h[k].0 <= a && b < h[k].1) by {
        let t = choose|t: int| #![trigger ch[t]] 0 <= t < ch.len() && ch[t] == a;
        let u = choose|u: int| #![trigger ch[u]] 0 <= u < ch.len() && ch[u] == b;
        if u <= t {
            lemma_sorted_le(ch, len, u, t);
        }
        if u > t + 1 {
            lemma_sorted_le(ch, len, t, t + 1);
            lemma_sorted_le(ch, len, t + 1, u);
            assert(is_change(ops[ch[t + 1] as int]));
        }
        assert(u == t + 1);
        assert(step_gap(ch, t) > 2 * ctx + 1);
    }
}

} // verus!
