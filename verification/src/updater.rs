//! Release-version comparison, platform naming and the update notice of
//! the self-updater.

use vstd::prelude::*;
use std::cmp::Ordering;
use crate::theme::{Theme, dim, accent, warn, accent_spec, warn_spec, RESET};
use crate::text::{chars_of, extend_str, string_of};

verus! {

/// `s` without its leading `v`s (`trim_start_matches('v')`).
pub open spec fn strip_vs(s: Seq<char>) -> Seq<char>
    decreases s.len(),
{
    if s.len() > 0 && s[0] == 'v' {
        strip_vs(s.drop_first())
    } else {
        s
    }
}

/// The pieces of `s` between dots after `cur`, as `split('.')` yields them
/// (always at least one piece).
pub open spec fn dot_pieces(s: Seq<char>, cur: Seq<char>) -> Seq<Seq<char>>
    decreases s.len(),
{
    if s.len() == 0 {
        seq![cur]
    } else if s[0] == '.' {
        seq![cur] + dot_pieces(s.drop_first(), Seq::empty())
    } else {
        dot_pieces(s.drop_first(), cur.push(s[0]))
    }
}

/// Value of the decimal digits `d`.
pub open spec fn digits_value(d: Seq<char>) -> nat
    decreases d.len(),
{
    if d.len() == 0 {
        0
    } else {
        digits_value(d.drop_last()) * 10 + ((d.last() as u32) - ('0' as u32)) as nat
    }
}

/// All characters are ASCII digits.
pub open spec fn all_digits(d: Seq<char>) -> bool {
    forall|i: int| 0 <= i < d.len() ==> '0' <= #[trigger] d[i] && d[i] <= '9'
}

/// The digits of a piece after its optional leading `+`.
pub open spec fn piece_digits(piece: Seq<char>) -> Seq<char> {
    if piece.len() > 0 && piece[0] == '+' {
        piece.drop_first()
    } else {
        piece
    }
}

/// `piece.parse::<u32>()` succeeds: an optional `+` and then at least one
/// digit, with a value that fits.
pub open spec fn component_ok(piece: Seq<char>) -> bool {
    let d = piece_digits(piece);
    d.len() > 0 && all_digits(d) && digits_value(d) <= u32::MAX
}

/// What `piece.parse::<u32>()` gives, with 0 for a piece it rejects.
pub open spec fn parse_u32_or_zero(piece: Seq<char>) -> u32 {
    if component_ok(piece) {
        digits_value(piece_digits(piece)) as u32
    } else {
        0
    }
}

/// Every component of a version text parses as a number.
pub open spec fn parts_ok(s: Seq<char>) -> bool {
    let pieces = dot_pieces(strip_vs(s), Seq::empty());
    forall|i: int| 0 <= i < pieces.len() ==> component_ok(#[trigger] pieces[i])
}

/// Lexicographic comparison of two texts by character (the order `str`
/// compares in): -1, 0 or 1.
pub open spec fn char_order(a: Seq<char>, b: Seq<char>) -> int
    decreases a.len(),
{
    if a.len() == 0 && b.len() == 0 {
        0
    } else if a.len() == 0 {
        -1
    } else if b.len() == 0 {
        1
    } else if (a[0] as u32) < (b[0] as u32) {
        -1
    } else if (a[0] as u32) > (b[0] as u32) {
        1
    } else {
        char_order(a.drop_first(), b.drop_first())
    }
}

/// Swapping the texts negates their lexicographic order.
pub proof fn lemma_char_order_flip(a: Seq<char>, b: Seq<char>)
    ensures
        char_order(a, b) == -char_order(b, a),
    decreases a.len(),
{
    if a.len() > 0 && b.len() > 0 && (a[0] as u32) == (b[0] as u32) {
        lemma_char_order_flip(a.drop_first(), b.drop_first());
    }
}

/// The lexicographic order is transitive.
pub proof fn lemma_char_order_trans(a: Seq<char>, b: Seq<char>, c: Seq<char>)
    requires
        char_order(a, b) <= 0,
        char_order(b, c) <= 0,
    ensures
        char_order(a, c) <= 0,
    decreases a.len(),
{
    if a.len() > 0 && b.len() > 0 && c.len() > 0 && (a[0] as u32) == (b[0] as u32) && (b[0] as u32)
        == (c[0] as u32) {
        lemma_char_order_trans(a.drop_first(), b.drop_first(), c.drop_first());
    }
}

/// How two version texts compare: by their numeric components when every
/// component of both parses, else lexically.
pub open spec fn version_order(a: Seq<char>, b: Seq<char>) -> int {
    if parts_ok(a) && parts_ok(b) {
        lex_order(version_parts(a), version_parts(b))
    } else {
        char_order(a, b)
    }
}

/// The numeric components of a version text like "v0.1.2".
pub open spec fn version_parts(s: Seq<char>) -> Seq<u32> {
    dot_pieces(strip_vs(s), Seq::empty()).map_values(|p: Seq<char>| parse_u32_or_zero(p))
}

/// Lexicographic comparison of two component lists: -1, 0 or 1.
pub open spec fn lex_order(a: Seq<u32>, b: Seq<u32>) -> int
    decreases a.len(),
{
    if a.len() == 0 && b.len() == 0 {
        0
    } else if a.len() == 0 {
        -1
    } else if b.len() == 0 {
        1
    } else if a[0] < b[0] {
        -1
    } else if a[0] > b[0] {
        1
    } else {
        lex_order(a.drop_first(), b.drop_first())
    }
}

fn digit_value(c: char) -> (r: u32)
    requires
        '0' <= c && c <= '9',
    ensures
        r == (c as u32) - ('0' as u32),
        r < 10,
{
    (c as u32) - ('0' as u32)
}

/// Parses one version component: its value (0 when it is not a `u32`)
/// and whether it parsed.
fn parse_component(p: &[char]) -> (r: (u32, bool))
    ensures
        r.0 == parse_u32_or_zero(p@),
        r.1 == component_ok(p@),
{
    let start: usize = if p.len() > 0 && p[0] == '+' {
        1
    } else {
        0
    };
    let ghost d = p@.skip(start as int);
    assert(d =~= if p@.len() > 0 && p@[0] == '+' {
        p@.drop_first()
    } else {
        p@
    });
    if start >= p.len() {
        return (0, false);
    }
    let mut v: u64 = 0;
    let mut i: usize = start;
    assert(p@.subrange(start as int, start as int) =~= Seq::<char>::empty());
    while i < p.len()
        invariant
            start <= i <= p@.len(),
            d == p@.skip(start as int),
            d == piece_digits(p@),
            d.len() > 0,
            parse_u32_or_zero(p@) == (if d.len() > 0 && all_digits(d) && digits_value(d) <= u32::MAX {
                digits_value(d) as u32
            } else {
                0
            }),
            all_digits(p@.subrange(start as int, i as int)),
            v == digits_value(p@.subrange(start as int, i as int)),
            v <= u32::MAX,
        decreases p@.len() - i,
    {
        let c = p[i];
        if !('0' <= c && c <= '9') {
            assert(d[i - start] == c);
            assert(!all_digits(d));
            return (0, false);
        }
        let dv = digit_value(c);
        assert(p@.subrange(start as int, i + 1).drop_last() =~= p@.subrange(start as int, i as int));
        if v > (u32::MAX as u64 - dv as u64) / 10 {
            proof {
                let k = (i - start) as nat;
                assert(d.take(k as int) =~= p@.subrange(start as int, i as int));
                assert(d.take(k + 1 as int) =~= p@.subrange(start as int, i + 1));
                assert(digits_value(d.take(k + 1 as int)) == v * 10 + dv);
                assert(v * 10 + dv > u32::MAX) by (nonlinear_arith)
                    requires
                        v > (u32::MAX - dv) / 10,
                        dv < 10,
                ;
                lemma_digits_prefix_grows(d, k);
            }
            return (0, false);
        }
        v = v * 10 + dv as u64;
        i += 1;
    }
    assert(p@.subrange(start as int, i as int) =~= d);
    (v as u32, true)
}

/// Reading more digits never lowers the value.
pub proof fn lemma_digits_prefix_grows(d: Seq<char>, k: nat)
    requires
        k < d.len(),
        all_digits(d.take(k as int)),
    ensures
        all_digits(d) ==> digits_value(d) >= digits_value(d.take(k + 1 as int)),
    decreases d.len() - k,
{
    if all_digits(d) {
        lemma_digits_mono(d, k + 1);
    }
}

/// A digit string is worth at least any of its prefixes.
pub proof fn lemma_digits_mono(d: Seq<char>, k: nat)
    requires
        k <= d.len(),
        all_digits(d),
    ensures
        digits_value(d) >= digits_value(d.take(k as int)),
    decreases d.len() - k,
{
    if k < d.len() {
        lemma_digits_mono(d, k + 1);
        assert(d.take(k + 1 as int).drop_last() =~= d.take(k as int));
        assert(d.take(k + 1 as int).last() == d[k as int]);
        assert(digits_value(d.take(k + 1 as int)) >= digits_value(d.take(k as int))) by (nonlinear_arith)
            requires
                digits_value(d.take(k + 1 as int)) == digits_value(d.take(k as int)) * 10 + ((d[k as int] as u32) - ('0' as u32)) as nat,
                '0' <= d[k as int],
        ;
    } else {
        assert(d.take(k as int) =~= d);
    }
}

/// Splits `s` at dots (`split('.')`).
fn split_dots(s: &[char]) -> (r: Vec<Vec<char>>)
    ensures
        r@.map_values(|v: Vec<char>| v@) == dot_pieces(s@, Seq::empty()),
{
    let mut out: Vec<Vec<char>> = Vec::new();
    let mut cur: Vec<char> = Vec::new();
    let mut i: usize = 0;
    assert(s@.skip(0) =~= s@);
    assert(cur@ =~= Seq::<char>::empty());
    assert(out@.map_values(|v: Vec<char>| v@) =~= Seq::<Seq<char>>::empty());
    while i < s.len()
        invariant
            i <= s.len(),
            out@.map_values(|v: Vec<char>| v@) + dot_pieces(s@.skip(i as int), cur@) == dot_pieces(s@, Seq::empty()),
        decreases s.len() - i,
    {
        assert(s@.skip(i as int).drop_first() =~= s@.skip(i + 1));
        if s[i] == '.' {
            let ghost prev = out@.map_values(|v: Vec<char>| v@);
            let ghost c = cur@;
            out.push(cur);
            assert(out@.map_values(|v: Vec<char>| v@) =~= prev + seq![c]);
            assert(out@.map_values(|v: Vec<char>| v@) + dot_pieces(s@.skip(i + 1), Seq::empty()) =~= prev + (seq![c] + dot_pieces(s@.skip(i + 1), Seq::empty())));
            cur = Vec::new();
            assert(cur@ =~= Seq::<char>::empty());
        } else {
            cur.push(s[i]);
        }
        i += 1;
    }
    assert(s@.skip(i as int) =~= Seq::<char>::empty());
    let ghost prev = out@.map_values(|v: Vec<char>| v@);
    let ghost c = cur@;
    out.push(cur);
    assert(out@.map_values(|v: Vec<char>| v@) =~= prev + seq![c]);
    out
}

/// The numeric components of a version text, and whether all parsed.
fn parse_version(v: &str) -> (r: (Vec<u32>, bool))
    ensures
        r.0@ == version_parts(v@),
        r.1 == parts_ok(v@),
{
    let c = chars_of(v);
    let mut k: usize = 0;
    assert(c@.skip(0) =~= c@);
    while k < c.len() && c[k] == 'v'
        invariant
            k <= c@.len(),
            strip_vs(c@) == strip_vs(c@.skip(k as int)),
        decreases c@.len() - k,
    {
        assert(c@.skip(k as int).drop_first() =~= c@.skip(k + 1));
        k += 1;
    }
    let mut rest: Vec<char> = Vec::new();
    let mut j: usize = k;
    while j < c.len()
        invariant
            k <= j <= c@.len(),
            rest@ == c@.subrange(k as int, j as int),
        decreases c@.len() - j,
    {
        rest.push(c[j]);
        j += 1;
    }
    assert(rest@ =~= c@.skip(k as int));
    assert(strip_vs(c@) == rest@);
    let pieces = split_dots(&rest);
    let ghost pv = pieces@.map_values(|v: Vec<char>| v@);
    let mut out: Vec<u32> = Vec::new();
    let mut ok = true;
    let mut i: usize = 0;
    while i < pieces.len()
        invariant
            i <= pieces@.len(),
            pv == pieces@.map_values(|v: Vec<char>| v@),
            out@.len() == i,
            forall|t: int| 0 <= t < i ==> out@[t] == parse_u32_or_zero(#[trigger] pv[t]),
            ok == (forall|t: int| 0 <= t < i ==> component_ok(#[trigger] pv[t])),
        decreases pieces@.len() - i,
    {
        let (n, good) = parse_component(&pieces[i]);
        assert(pv[i as int] == pieces@[i as int]@);
        out.push(n);
        ok = ok && good;
        i += 1;
    }
    assert(out@ =~= pv.map_values(|p: Seq<char>| parse_u32_or_zero(p)));
    (out, ok)
}

/// Lexicographic comparison of two texts by character.
pub(crate) fn char_compare(a: &[char], b: &[char]) -> (r: i8)
    ensures
        r as int == char_order(a@, b@),
{
    let mut i: usize = 0;
    assert(a@.skip(0) =~= a@);
    assert(b@.skip(0) =~= b@);
    while i < a.len() && i < b.len()
        invariant
            i <= a@.len(),
            i <= b@.len(),
            char_order(a@, b@) == char_order(a@.skip(i as int), b@.skip(i as int)),
        decreases a@.len() - i,
    {
        assert(a@.skip(i as int).drop_first() =~= a@.skip(i + 1));
        assert(b@.skip(i as int).drop_first() =~= b@.skip(i + 1));
        if (a[i] as u32) < (b[i] as u32) {
            return -1;
        }
        if (a[i] as u32) > (b[i] as u32) {
            return 1;
        }
        i += 1;
    }
    if i < a.len() {
        1
    } else if i < b.len() {
        -1
    } else {
        0
    }
}

/// Lexicographic comparison of component lists.
fn lex_compare(a: &Vec<u32>, b: &Vec<u32>) -> (r: i8)
    ensures
        r as int == lex_order(a@, b@),
{
    let mut i: usize = 0;
    assert(a@.skip(0) =~= a@);
    assert(b@.skip(0) =~= b@);
    while i < a.len() && i < b.len()
        invariant
            i <= a@.len(),
            i <= b@.len(),
            a@.take(i as int) == b@.take(i as int),
            lex_order(a@, b@) == lex_order(a@.skip(i as int), b@.skip(i as int)),
        decreases a@.len() - i,
    {
        assert(a@.skip(i as int).drop_first() =~= a@.skip(i + 1));
        assert(b@.skip(i as int).drop_first() =~= b@.skip(i + 1));
        if a[i] < b[i] {
            return -1;
        }
        if a[i] > b[i] {
            return 1;
        }
        assert(a@.take(i + 1) =~= a@.take(i as int).push(a@[i as int]));
        assert(b@.take(i + 1) =~= b@.take(i as int).push(b@[i as int]));
        i += 1;
    }
    if i < a.len() {
        1
    } else if i < b.len() {
        -1
    } else {
        0
    }
}

/// How a component order reads as an `Ordering`.
pub open spec fn order_of(o: int) -> Ordering {
    if o < 0 {
        Ordering::Less
    } else if o > 0 {
        Ordering::Greater
    } else {
        Ordering::Equal
    }
}

/// Compares two versions shaped like "v0.1.2" or "0.1.2" by their numeric
/// components, in order; when a component of either does not parse as a
/// number, the two texts are compared lexically instead.
pub fn cmp_version(a: &str, b: &str) -> (r: Ordering)
    ensures
        r == order_of(version_order(a@, b@)),
{
    let (pa, oka) = parse_version(a);
    let (pb, okb) = parse_version(b);
    let o = if oka && okb {
        lex_compare(&pa, &pb)
    } else {
        char_compare(&chars_of(a), &chars_of(b))
    };
    if o < 0 {
        Ordering::Less
    } else if o > 0 {
        Ordering::Greater
    } else {
        Ordering::Equal
    }
}

/// The release platform names for an OS and CPU architecture (as Rust
/// names them): macOS and Linux on arm64 and x86_64.
pub open spec fn platform_spec(os: Seq<char>, arch: Seq<char>) -> Option<(Seq<char>, Seq<char>)> {
    let o = if os == "macos"@ {
        Some("darwin"@)
    } else if os == "linux"@ {
        Some("linux"@)
    } else {
        None
    };
    let a = if arch == "aarch64"@ {
        Some("arm64"@)
    } else if arch == "x86_64"@ {
        Some("x86_64"@)
    } else {
        None
    };
    match (o, a) {
        (Some(x), Some(y)) => Some((x, y)),
        _ => None,
    }
}

/// The release platform for the target `os` and `arch`; `None` when no
/// release is built for it.
pub fn detect_platform(os: &str, arch: &str) -> (r: Option<(&'static str, &'static str)>)
    ensures
        match r {
            Some(p) => platform_spec(os@, arch@) == Some((p.0@, p.1@)),
            None => platform_spec(os@, arch@) is None,
        },
{
    let oc = chars_of(os);
    let ac = chars_of(arch);
    let o = if crate::text::chars_eq_str(&oc, "macos") {
        "darwin"
    } else if crate::text::chars_eq_str(&oc, "linux") {
        "linux"
    } else {
        return None;
    };
    let a = if crate::text::chars_eq_str(&ac, "aarch64") {
        "arm64"
    } else if crate::text::chars_eq_str(&ac, "x86_64") {
        "x86_64"
    } else {
        return None;
    };
    Some((o, a))
}

/// The one-line notice that a newer release exists.
pub open spec fn notice_spec(t: Theme, latest: Seq<char>, current: Seq<char>) -> Seq<char> {
    let d = "\x1b[2m"@;
    let a = accent_spec(t);
    d + "─ update available: "@ + a + latest + d + " (currently on "@ + a + current + d + ") ─ run "@
        + warn_spec(t) + "hip --update"@ + d + " to install ─"@ + RESET@
}

/// Formats the update notice in theme `t`.
pub fn format_notice(t: Theme, latest: &str, current: &str) -> (r: String)
    ensures
        r@ == notice_spec(t, latest@, current@),
{
    let d = dim(t);
    let a = accent(t);
    let w = warn(t);
    let mut v = chars_of(d);
    extend_str(&mut v, "─ update available: ");
    extend_str(&mut v, a);
    extend_str(&mut v, latest);
    extend_str(&mut v, d);
    extend_str(&mut v, " (currently on ");
    extend_str(&mut v, a);
    extend_str(&mut v, current);
    extend_str(&mut v, d);
    extend_str(&mut v, ") ─ run ");
    extend_str(&mut v, w);
    extend_str(&mut v, "hip --update");
    extend_str(&mut v, d);
    extend_str(&mut v, " to install ─");
    extend_str(&mut v, RESET);
    string_of(&v)
}

/// Component lists compare by their first differing component, whatever
/// their lengths; a list that is a proper prefix of the other is smaller;
/// equal lists are equal.
pub proof fn lemma_lex_order_first_difference(a: Seq<u32>, b: Seq<u32>, i: int)
    ensures
        0 <= i < a.len() && i < b.len() && a.take(i) == b.take(i) && a[i] > b[i] ==> lex_order(a, b) == 1,
        0 <= i < a.len() && i < b.len() && a.take(i) == b.take(i) && a[i] < b[i] ==> lex_order(a, b) == -1,
        a.len() < b.len() && b.take(a.len() as int) == a ==> lex_order(a, b) == -1,
        b.len() < a.len() && a.take(b.len() as int) == b ==> lex_order(a, b) == 1,
        a == b ==> lex_order(a, b) == 0,
    decreases a.len(),
{
    if a.len() > 0 && b.len() > 0 {
        lemma_lex_order_first_difference(a.drop_first(), b.drop_first(), i - 1);
        if 0 < i < a.len() && i < b.len() && a.take(i) == b.take(i) {
            assert(a.take(i)[0] == b.take(i)[0]);
            assert(a.drop_first().take(i - 1) =~= a.take(i).drop_first());
            assert(b.drop_first().take(i - 1) =~= b.take(i).drop_first());
        }
        if a.len() < b.len() && b.take(a.len() as int) == a {
            assert(b.take(a.len() as int)[0] == b[0]);
            assert(b.drop_first().take(a.drop_first().len() as int) =~= a.drop_first());
        }
        if b.len() < a.len() && a.take(b.len() as int) == b {
            assert(a.take(b.len() as int)[0] == a[0]);
            assert(a.drop_first().take(b.drop_first().len() as int) =~= b.drop_first());
        }
    } else if a.len() == 0 && b.len() > 0 {
    }
}

/// For versions whose components all parse, `cmp_version` is decided by
/// the first differing component, whatever the component counts; a
/// version is older than one it is a proper prefix of.
pub proof fn lemma_version_order_numeric(a: Seq<char>, b: Seq<char>, i: int)
    requires
        parts_ok(a),
        parts_ok(b),
    ensures
        ({
            let pa = version_parts(a);
            let pb = version_parts(b);
            &&& (0 <= i < pa.len() && i < pb.len() && pa.take(i) == pb.take(i) && pa[i] > pb[i] ==> version_order(a, b) == 1)
            &&& (0 <= i < pa.len() && i < pb.len() && pa.take(i) == pb.take(i) && pa[i] < pb[i] ==> version_order(a, b) == -1)
            &&& (pa.len() < pb.len() && pb.take(pa.len() as int) == pa ==> version_order(a, b) == -1)
            &&& (pa == pb ==> version_order(a, b) == 0)
        }),
{
    lemma_lex_order_first_difference(version_parts(a), version_parts(b), i);
}

/// Texts compare by their first differing character (by code point); a
/// text that is a proper prefix of the other is smaller; equal texts are
/// equal. This is the order `cmp_version` falls back to.
pub proof fn lemma_char_order_first_difference(a: Seq<char>, b: Seq<char>, i: int)
    ensures
        0 <= i < a.len() && i < b.len() && a.take(i) == b.take(i) && (a[i] as u32) > (b[i] as u32) ==> char_order(a, b) == 1,
        0 <= i < a.len() && i < b.len() && a.take(i) == b.take(i) && (a[i] as u32) < (b[i] as u32) ==> char_order(a, b) == -1,
        a.len() < b.len() && b.take(a.len() as int) == a ==> char_order(a, b) == -1,
        b.len() < a.len() && a.take(b.len() as int) == b ==> char_order(a, b) == 1,
        a == b ==> char_order(a, b) == 0,
    decreases a.len(),
{
    if a.len() > 0 && b.len() > 0 {
        lemma_char_order_first_difference(a.drop_first(), b.drop_first(), i - 1);
        if 0 < i < a.len() && i < b.len() && a.take(i) == b.take(i) {
            assert(a.take(i)[0] == b.take(i)[0]);
            assert(a.drop_first().take(i - 1) =~= a.take(i).drop_first());
            assert(b.drop_first().take(i - 1) =~= b.take(i).drop_first());
        }
        if a.len() < b.len() && b.take(a.len() as int) == a {
            assert(b.take(a.len() as int)[0] == b[0]);
            assert(b.drop_first().take(a.drop_first().len() as int) =~= a.drop_first());
        }
        if b.len() < a.len() && a.take(b.len() as int) == b {
            assert(a.take(b.len() as int)[0] == a[0]);
            assert(a.drop_first().take(b.drop_first().len() as int) =~= b.drop_first());
        }
    }
}

} // verus!
