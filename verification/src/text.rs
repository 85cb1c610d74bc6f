//! Character-level text primitives shared by the tools.
//!
//! Strings are handled as sequences of Unicode scalar values (`Seq<char>`);
//! all positions in this module count characters, not bytes.

use vstd::prelude::*;

verus! {

// ---------------------------------------------------------------------------
// Conversions
// ---------------------------------------------------------------------------

/// Appends one character to a string (`String::push`).
#[verifier::external_body]
pub(crate) fn push_char(s: &mut String, c: char)
    ensures
        final(s)@ == old(s)@.push(c),
{
    s.push(c);
}

/// The characters of a string slice, in order.
pub fn chars_of(s: &str) -> (r: Vec<char>)
    ensures
        r@ == s@,
{
    let mut r: Vec<char> = Vec::new();
    for c in it: s.chars()
        invariant
            r@ == it.seq().take(it.index() as int),
    {
        r.push(c);
    }
    r
}

/// Builds a string from a character sequence.
pub fn string_of(v: &[char]) -> (r: String)
    ensures
        r@ == v@,
{
    let mut r = String::new();
    let mut i: usize = 0;
    while i < v.len()
        invariant
            i <= v.len(),
            r@ == v@.take(i as int),
        decreases v.len() - i,
    {
        push_char(&mut r, v[i]);
        i += 1;
        assert(r@ =~= v@.take(i as int));
    }
    r
}

/// Whether a character sequence spells exactly the string `b`.
pub fn chars_eq_str(a: &[char], b: &str) -> (r: bool)
    ensures
        r == (a@ == b@),
{
    let bc = chars_of(b);
    chars_eq(a, &bc)
}

/// Appends all of `src` to `dst`.
pub fn extend_chars(dst: &mut Vec<char>, src: &[char])
    ensures
        final(dst)@ == old(dst)@ + src@,
{
    let mut i: usize = 0;
    while i < src.len()
        invariant
            i <= src.len(),
            dst@ == old(dst)@ + src@.take(i as int),
        decreases src.len() - i,
    {
        dst.push(src[i]);
        i += 1;
        assert(dst@ =~= old(dst)@ + src@.take(i as int));
    }
    assert(src@.take(src@.len() as int) =~= src@);
}

/// Appends the characters of a string slice to `dst`.
pub fn extend_str(dst: &mut Vec<char>, src: &str)
    ensures
        final(dst)@ == old(dst)@ + src@,
{
    let v = chars_of(src);
    extend_chars(dst, &v);
}

/// A copy of `v[from..to]`.
pub fn slice_to_vec(v: &[char], from: usize, to: usize) -> (r: Vec<char>)
    requires
        from <= to <= v.len(),
    ensures
        r@ == v@.subrange(from as int, to as int),
{
    let mut r: Vec<char> = Vec::new();
    let mut i = from;
    while i < to
        invariant
            from <= i <= to <= v.len(),
            r@ == v@.subrange(from as int, i as int),
        decreases to - i,
    {
        r.push(v[i]);
        i += 1;
        assert(r@ =~= v@.subrange(from as int, i as int));
    }
    r
}

/// Element-wise equality of two character sequences.
pub fn chars_eq(a: &[char], b: &[char]) -> (r: bool)
    ensures
        r == (a@ == b@),
{
    if a.len() != b.len() {
        return false;
    }
    let mut i: usize = 0;
    while i < a.len()
        invariant
            a.len() == b.len(),
            i <= a.len(),
            forall|k: int| 0 <= k < i ==> a@[k] == b@[k],
        decreases a.len() - i,
    {
        if a[i] != b[i] {
            return false;
        }
        i += 1;
    }
    assert(a@ =~= b@);
    true
}

// ---------------------------------------------------------------------------
// Substring search
// ---------------------------------------------------------------------------

/// `n` occurs in `h` starting at character position `i`.
pub open spec fn matches_at(h: Seq<char>, n: Seq<char>, i: int) -> bool {
    0 <= i && i + n.len() <= h.len() && h.subrange(i, i + n.len()) == n
}

/// `n` occurs somewhere in `h`.
pub open spec fn contains_seq(h: Seq<char>, n: Seq<char>) -> bool {
    exists|i: int| matches_at(h, n, i)
}

/// Whether `n` occurs in `h` at position `i`.
pub fn match_at(h: &[char], n: &[char], i: usize) -> (r: bool)
    ensures
        r == matches_at(h@, n@, i as int),
{
    if i > h.len() || n.len() > h.len() - i {
        return false;
    }
    let mut k: usize = 0;
    while k < n.len()
        invariant
            i + n.len() <= h.len(),
            k <= n.len(),
            forall|j: int| 0 <= j < k ==> h@[i + j] == n@[j],
        decreases n.len() - k,
    {
        if h[i + k] != n[k] {
            assert(h@.subrange(i as int, i + n.len())[k as int] != n@[k as int]);
            return false;
        }
        k += 1;
    }
    assert(h@.subrange(i as int, i + n.len()) =~= n@);
    true
}

/// The first position at or after `from` where `n` occurs in `h`.
pub fn find_from(h: &[char], n: &[char], from: usize) -> (r: Option<usize>)
    ensures
        match r {
            Some(k) => from <= k && matches_at(h@, n@, k as int) && forall|j: int|
                from <= j < k ==> !matches_at(h@, n@, j),
            None => forall|j: int| from <= j ==> !matches_at(h@, n@, j),
        },
{
    let mut i = from;
    while i <= h.len()
        invariant
            from <= i,
            forall|j: int| from <= j < i ==> !matches_at(h@, n@, j),
        decreases h.len() + 1 - i,
    {
        if match_at(h, n, i) {
            return Some(i);
        }
        if i == h.len() {
            return None;
        }
        i += 1;
    }
    None
}

/// Whether `n` occurs in `h`.
pub fn contains_chars(h: &[char], n: &[char]) -> (r: bool)
    ensures
        r == contains_seq(h@, n@),
{
    match find_from(h, n, 0) {
        Some(k) => true,
        None => false,
    }
}

/// Whether the character `c` occurs in `h`.
pub fn has_char(h: &[char], c: char) -> (r: bool)
    ensures
        r == h@.contains(c),
{
    let mut i: usize = 0;
    while i < h.len()
        invariant
            i <= h.len(),
            forall|j: int| 0 <= j < i ==> h@[j] != c,
        decreases h.len() - i,
    {
        if h[i] == c {
            return true;
        }
        i += 1;
    }
    false
}

/// Number of occurrences of `c` in `s`.
pub open spec fn count_char(s: Seq<char>, c: char) -> nat
    decreases s.len(),
{
    if s.len() == 0 {
        0
    } else {
        count_char(s.drop_last(), c) + if s.last() == c {
            1nat
        } else {
            0nat
        }
    }
}

/// Counts the occurrences of `c` in `s`.
pub fn count_char_exec(s: &[char], c: char) -> (r: usize)
    ensures
        r == count_char(s@, c),
{
    let mut n: usize = 0;
    let mut i: usize = 0;
    while i < s.len()
        invariant
            i <= s.len(),
            n == count_char(s@.take(i as int), c),
            n <= i,
        decreases s.len() - i,
    {
        assert(s@.take(i + 1).drop_last() =~= s@.take(i as int));
        if s[i] == c {
            n += 1;
        }
        i += 1;
    }
    assert(s@.take(s.len() as int) =~= s@);
    n
}

/// Non-overlapping, left-to-right occurrences of `p` in `h[i..]`
/// (`str::matches(..).count()`); `p` must be non-empty.
pub open spec fn count_from(h: Seq<char>, p: Seq<char>, i: nat) -> nat
    decreases h.len() - i,
{
    if i >= h.len() || p.len() == 0 {
        0
    } else if matches_at(h, p, i as int) {
        1 + count_from(h, p, (i + p.len()) as nat)
    } else {
        count_from(h, p, i + 1)
    }
}

/// Counts the non-overlapping occurrences of `p` in `h`.
pub fn count_matches(h: &[char], p: &[char]) -> (r: usize)
    requires
        p.len() > 0,
    ensures
        r == count_from(h@, p@, 0),
{
    let mut i: usize = 0;
    let mut n: usize = 0;
    while i < h.len()
        invariant
            i <= h.len(),
            p.len() > 0,
            n + count_from(h@, p@, i as nat) == count_from(h@, p@, 0),
            n <= i,
        decreases h.len() - i,
    {
        if match_at(h, p, i) {
            n += 1;
            i += p.len();
        } else {
            i += 1;
        }
    }
    n
}

/// `str::replace` semantics from position `i`: every non-overlapping,
/// left-to-right occurrence of `from` in `h[i..]` becomes `to`.
pub open spec fn replace_from(h: Seq<char>, from: Seq<char>, to: Seq<char>, i: nat) -> Seq<char>
    decreases h.len() - i,
{
    if i >= h.len() {
        Seq::empty()
    } else if from.len() > 0 && matches_at(h, from, i as int) {
        to + replace_from(h, from, to, (i + from.len()) as nat)
    } else {
        seq![h[i as int]] + replace_from(h, from, to, i + 1)
    }
}

/// `str::replacen(.., 1)` semantics from position `i`: only the first
/// occurrence of `from` in `h[i..]` becomes `to`.
pub open spec fn replace_first_from(h: Seq<char>, from: Seq<char>, to: Seq<char>, i: nat) -> Seq<
    char,
>
    decreases h.len() - i,
{
    if i >= h.len() {
        Seq::empty()
    } else if from.len() > 0 && matches_at(h, from, i as int) {
        to + h.skip((i + from.len()) as int)
    } else {
        seq![h[i as int]] + replace_first_from(h, from, to, i + 1)
    }
}

/// Replaces every non-overlapping occurrence of `from` by `to`.
pub fn replace_all(h: &[char], from: &[char], to: &[char]) -> (r: Vec<char>)
    requires
        from.len() > 0,
    ensures
        r@ == replace_from(h@, from@, to@, 0),
{
    let mut out: Vec<char> = Vec::new();
    let mut i: usize = 0;
    while i < h.len()
        invariant
            i <= h.len(),
            from.len() > 0,
            out@ + replace_from(h@, from@, to@, i as nat) == replace_from(h@, from@, to@, 0),
        decreases h.len() - i,
    {
        if match_at(h, from, i) {
            let ghost prev = out@;
            extend_chars(&mut out, to);
            assert(prev + (to@ + replace_from(h@, from@, to@, (i + from.len()) as nat)) =~= out@
                + replace_from(h@, from@, to@, (i + from.len()) as nat));
            i += from.len();
        } else {
            let ghost prev = out@;
            out.push(h[i]);
            assert(prev + (seq![h@[i as int]] + replace_from(h@, from@, to@, (i + 1) as nat))
                =~= out@ + replace_from(h@, from@, to@, (i + 1) as nat));
            i += 1;
        }
    }
    assert(out@ =~= replace_from(h@, from@, to@, 0));
    out
}

/// Replaces the first occurrence of `from` by `to`.
pub fn replace_first(h: &[char], from: &[char], to: &[char]) -> (r: Vec<char>)
    requires
        from.len() > 0,
    ensures
        r@ == replace_first_from(h@, from@, to@, 0),
{
    let mut out: Vec<char> = Vec::new();
    let mut i: usize = 0;
    while i < h.len()
        invariant
            i <= h.len(),
            from.len() > 0,
            out@ + replace_first_from(h@, from@, to@, i as nat) == replace_first_from(
                h@,
                from@,
                to@,
                0,
            ),
        decreases h.len() - i,
    {
        if match_at(h, from, i) {
            let ghost prev = out@;
            extend_chars(&mut out, to);
            let rest = slice_to_vec(h, i + from.len(), h.len());
            extend_chars(&mut out, &rest);
            assert(h@.skip(i + from.len()) =~= rest@);
            assert(prev + (to@ + h@.skip(i + from.len())) =~= out@);
            return out;
        } else {
            let ghost prev = out@;
            out.push(h[i]);
            assert(prev + (seq![h@[i as int]] + replace_first_from(h@, from@, to@, (i + 1) as nat))
                =~= out@ + replace_first_from(h@, from@, to@, (i + 1) as nat));
            i += 1;
        }
    }
    assert(out@ =~= replace_first_from(h@, from@, to@, 0));
    out
}

// ---------------------------------------------------------------------------
// Lines (`str::lines`)
// ---------------------------------------------------------------------------

/// A line with one trailing carriage return removed, if present.
pub open spec fn strip_cr(line: Seq<char>) -> Seq<char> {
    if line.len() > 0 && line.last() == '\r' {
        line.drop_last()
    } else {
        line
    }
}

/// `str::lines` of `s`, given the pending, unterminated line `cur`: lines end
/// at `\n` (a `\r` right before it is dropped); a final line without `\n`
/// counts only when it is non-empty.
pub open spec fn lines_acc(s: Seq<char>, cur: Seq<char>) -> Seq<Seq<char>>
    decreases s.len(),
{
    if s.len() == 0 {
        if cur.len() == 0 {
            Seq::empty()
        } else {
            seq![strip_cr(cur)]
        }
    } else if s[0] == '\n' {
        seq![strip_cr(cur)] + lines_acc(s.drop_first(), Seq::empty())
    } else {
        lines_acc(s.drop_first(), cur.push(s[0]))
    }
}

/// The lines of `s`, exactly as `str::lines` yields them.
pub open spec fn lines_of(s: Seq<char>) -> Seq<Seq<char>> {
    lines_acc(s, Seq::empty())
}

/// A non-empty text has at least one line.
pub proof fn lemma_lines_nonempty(s: Seq<char>, cur: Seq<char>)
    requires
        s.len() > 0 || cur.len() > 0,
    ensures
        lines_acc(s, cur).len() > 0,
    decreases s.len(),
{
    if s.len() > 0 && s[0] != '\n' {
        lemma_lines_nonempty(s.drop_first(), cur.push(s[0]));
    }
}

/// A text has at most as many lines as characters.
pub proof fn lemma_lines_len(s: Seq<char>, cur: Seq<char>)
    ensures
        lines_acc(s, cur).len() <= s.len() + if cur.len() > 0 { 1int } else { 0int },
    decreases s.len(),
{
    if s.len() > 0 {
        if s[0] == '\n' {
            lemma_lines_len(s.drop_first(), Seq::empty());
        } else {
            lemma_lines_len(s.drop_first(), cur.push(s[0]));
        }
    }
}

/// The views of a vector of character vectors.
pub open spec fn views(v: Seq<Vec<char>>) -> Seq<Seq<char>> {
    v.map_values(|x: Vec<char>| x@)
}

/// Removes one trailing `\r`.
pub fn strip_cr_exec(line: &mut Vec<char>)
    ensures
        final(line)@ == strip_cr(old(line)@),
{
    if line.len() > 0 && line[line.len() - 1] == '\r' {
        line.pop();
    }
}

/// Splits `s` into lines with the semantics of `str::lines`.
pub fn split_lines(s: &[char]) -> (r: Vec<Vec<char>>)
    ensures
        views(r@) == lines_of(s@),
{
    let mut out: Vec<Vec<char>> = Vec::new();
    let mut cur: Vec<char> = Vec::new();
    let mut i: usize = 0;
    assert(views(out@) =~= Seq::<Seq<char>>::empty());
    assert(s@.skip(0) =~= s@);
    assert(cur@ =~= Seq::<char>::empty());
    while i < s.len()
        invariant
            i <= s.len(),
            views(out@) + lines_acc(s@.skip(i as int), cur@) == lines_of(s@),
        decreases s.len() - i,
    {
        assert(s@.skip(i as int).drop_first() =~= s@.skip(i + 1));
        if s[i] == '\n' {
            let mut line = cur;
            strip_cr_exec(&mut line);
            let ghost prev = views(out@);
            out.push(line);
            assert(views(out@) =~= prev + seq![strip_cr(cur@)]);
            cur = Vec::new();
        } else {
            cur.push(s[i]);
        }
        i += 1;
    }
    assert(s@.skip(i as int) =~= Seq::<char>::empty());
    if cur.len() > 0 {
        let mut line = cur;
        strip_cr_exec(&mut line);
        let ghost prev = views(out@);
        out.push(line);
        assert(views(out@) =~= prev + seq![strip_cr(cur@)]);
    } else {
        assert(views(out@) =~= views(out@) + Seq::<Seq<char>>::empty());
    }
    out
}

/// Splits a string slice into lines with the semantics of `str::lines`.
pub fn lines_of_str(s: &str) -> (r: Vec<Vec<char>>)
    ensures
        views(r@) == lines_of(s@),
{
    let c = chars_of(s);
    split_lines(&c)
}

/// The words of `s` after `cur`: maximal runs of non-white-space characters.
pub open spec fn words_acc(s: Seq<char>, cur: Seq<char>) -> Seq<Seq<char>>
    decreases s.len(),
{
    if s.len() == 0 {
        if cur.len() == 0 {
            Seq::empty()
        } else {
            seq![cur]
        }
    } else if is_ws(s[0]) {
        if cur.len() == 0 {
            words_acc(s.drop_first(), Seq::empty())
        } else {
            seq![cur] + words_acc(s.drop_first(), Seq::empty())
        }
    } else {
        words_acc(s.drop_first(), cur.push(s[0]))
    }
}

/// The words of `s`, as `str::split_whitespace` yields them.
pub open spec fn words(s: Seq<char>) -> Seq<Seq<char>> {
    words_acc(s, Seq::empty())
}

/// Splits `s` at white space (`str::split_whitespace`).
pub fn split_words(s: &[char]) -> (r: Vec<Vec<char>>)
    ensures
        views(r@) == words(s@),
{
    let mut out: Vec<Vec<char>> = Vec::new();
    let mut cur: Vec<char> = Vec::new();
    let mut i: usize = 0;
    assert(views(out@) =~= Seq::<Seq<char>>::empty());
    assert(s@.skip(0) =~= s@);
    assert(cur@ =~= Seq::<char>::empty());
    while i < s.len()
        invariant
            i <= s.len(),
            views(out@) + words_acc(s@.skip(i as int), cur@) == words(s@),
        decreases s.len() - i,
    {
        assert(s@.skip(i as int).drop_first() =~= s@.skip(i + 1));
        if is_ws_exec(s[i]) {
            if cur.len() > 0 {
                let ghost prev = views(out@);
                let ghost c = cur@;
                out.push(cur);
                assert(views(out@) =~= prev + seq![c]);
                assert(views(out@) + words_acc(s@.skip(i + 1), Seq::empty()) =~= prev + (seq![c]
                    + words_acc(s@.skip(i + 1), Seq::empty())));
                cur = Vec::new();
            } else {
                cur = Vec::new();
            }
            assert(cur@ =~= Seq::<char>::empty());
        } else {
            cur.push(s[i]);
        }
        i += 1;
    }
    assert(s@.skip(i as int) =~= Seq::<char>::empty());
    if cur.len() > 0 {
        let ghost prev = views(out@);
        let ghost c = cur@;
        out.push(cur);
        assert(views(out@) =~= prev + seq![c]);
    } else {
        assert(views(out@) =~= views(out@) + Seq::<Seq<char>>::empty());
    }
    out
}

/// Splits a string slice at white space (`str::split_whitespace`).
pub fn words_of_str(s: &str) -> (r: Vec<Vec<char>>)
    ensures
        views(r@) == words(s@),
{
    let c = chars_of(s);
    split_words(&c)
}

// ---------------------------------------------------------------------------
// Numbers
// ---------------------------------------------------------------------------

/// The ASCII digit for `d < 10`.
pub open spec fn digit_char(d: nat) -> char {
    if d == 0 {
        '0'
    } else if d == 1 {
        '1'
    } else if d == 2 {
        '2'
    } else if d == 3 {
        '3'
    } else if d == 4 {
        '4'
    } else if d == 5 {
        '5'
    } else if d == 6 {
        '6'
    } else if d == 7 {
        '7'
    } else if d == 8 {
        '8'
    } else {
        '9'
    }
}

/// Decimal notation of `n` without leading zeros (`"0"` for zero).
pub open spec fn decimal(n: nat) -> Seq<char>
    decreases n,
{
    if n < 10 {
        seq![digit_char(n)]
    } else {
        decimal(n / 10).push(digit_char(n % 10))
    }
}

fn digit_exec(d: u64) -> (c: char)
    requires
        d < 10,
    ensures
        c == digit_char(d as nat),
{
    if d == 0 {
        '0'
    } else if d == 1 {
        '1'
    } else if d == 2 {
        '2'
    } else if d == 3 {
        '3'
    } else if d == 4 {
        '4'
    } else if d == 5 {
        '5'
    } else if d == 6 {
        '6'
    } else if d == 7 {
        '7'
    } else if d == 8 {
        '8'
    } else {
        '9'
    }
}

/// Decimal notation of `n` (like `n.to_string()`).
pub fn decimal_chars(n: u64) -> (r: Vec<char>)
    ensures
        r@ == decimal(n as nat),
    decreases n,
{
    if n < 10 {
        let mut v: Vec<char> = Vec::new();
        v.push(digit_exec(n));
        v
    } else {
        let mut v = decimal_chars(n / 10);
        v.push(digit_exec(n % 10));
        v
    }
}

/// Appends the decimal notation of `n` to `dst`.
pub fn push_decimal(dst: &mut Vec<char>, n: u64)
    ensures
        final(dst)@ == old(dst)@ + decimal(n as nat),
{
    let d = decimal_chars(n);
    extend_chars(dst, &d);
}

/// `n` spaces.
pub open spec fn spaces(n: nat) -> Seq<char> {
    Seq::new(n, |i: int| ' ')
}

/// `s` right-aligned in a field of `width` characters (`{:>width}`).
pub open spec fn pad_left(s: Seq<char>, width: nat) -> Seq<char> {
    if s.len() >= width {
        s
    } else {
        spaces((width - s.len()) as nat) + s
    }
}

/// `s` left-aligned in a field of `width` characters (`{:<width}`).
pub open spec fn pad_right(s: Seq<char>, width: nat) -> Seq<char> {
    if s.len() >= width {
        s
    } else {
        s + spaces((width - s.len()) as nat)
    }
}

/// Appends `s` right-aligned in a field of `width` characters.
pub fn push_padded_left(dst: &mut Vec<char>, s: &[char], width: usize)
    ensures
        final(dst)@ == old(dst)@ + pad_left(s@, width as nat),
{
    let mut k = s.len();
    while k < width
        invariant
            s.len() <= k <= width || (k == s.len() && k >= width),
            dst@ == old(dst)@ + spaces((k - s.len()) as nat),
        decreases width - k,
    {
        dst.push(' ');
        k += 1;
        assert(dst@ =~= old(dst)@ + spaces((k - s.len()) as nat));
    }
    extend_chars(dst, s);
    if s.len() >= width {
        assert(spaces(0) =~= Seq::<char>::empty());
        assert(dst@ =~= old(dst)@ + pad_left(s@, width as nat));
    } else {
        assert(dst@ =~= old(dst)@ + pad_left(s@, width as nat));
    }
}

/// Appends `s` left-aligned in a field of `width` characters.
pub fn push_padded_right(dst: &mut Vec<char>, s: &[char], width: usize)
    ensures
        final(dst)@ == old(dst)@ + pad_right(s@, width as nat),
{
    extend_chars(dst, s);
    let ghost mid = dst@;
    let mut k = s.len();
    while k < width
        invariant
            s.len() <= k <= width || (k == s.len() && k >= width),
            dst@ == mid + spaces((k - s.len()) as nat),
        decreases width - k,
    {
        dst.push(' ');
        k += 1;
        assert(dst@ =~= mid + spaces((k - s.len()) as nat));
    }
    assert(dst@ =~= old(dst)@ + pad_right(s@, width as nat));
}

/// The first `n` characters of `s` (`s.chars().take(n)`).
pub fn take_chars(s: &[char], n: usize) -> (r: Vec<char>)
    ensures
        r@ == s@.take(if n < s.len() {
            n as int
        } else {
            s.len() as int
        }),
{
    let end = if n < s.len() {
        n
    } else {
        s.len()
    };
    let r = slice_to_vec(s, 0, end);
    assert(s@.subrange(0, end as int) =~= s@.take(end as int));
    r
}


// ---------------------------------------------------------------------------
// Whitespace and trimming
// ---------------------------------------------------------------------------

/// Unicode `White_Space` (the set `char::is_whitespace` accepts).
pub open spec fn is_ws(c: char) -> bool {
    ('\u{9}' <= c && c <= '\u{D}') || c == ' ' || c == '\u{85}' || c == '\u{A0}' || c
        == '\u{1680}' || ('\u{2000}' <= c && c <= '\u{200A}') || c == '\u{2028}' || c
        == '\u{2029}' || c == '\u{202F}' || c == '\u{205F}' || c == '\u{3000}'
}

/// Whether `c` is Unicode white space.
pub fn is_ws_exec(c: char) -> (r: bool)
    ensures
        r == is_ws(c),
{
    ('\u{9}' <= c && c <= '\u{D}') || c == ' ' || c == '\u{85}' || c == '\u{A0}' || c
        == '\u{1680}' || ('\u{2000}' <= c && c <= '\u{200A}') || c == '\u{2028}' || c
        == '\u{2029}' || c == '\u{202F}' || c == '\u{205F}' || c == '\u{3000}'
}

/// `s` without trailing white space (`str::trim_end`).
pub open spec fn trim_end(s: Seq<char>) -> Seq<char>
    decreases s.len(),
{
    if s.len() > 0 && is_ws(s.last()) {
        trim_end(s.drop_last())
    } else {
        s
    }
}

/// `s` without leading white space (`str::trim_start`).
pub open spec fn trim_start(s: Seq<char>) -> Seq<char>
    decreases s.len(),
{
    if s.len() > 0 && is_ws(s[0]) {
        trim_start(s.drop_first())
    } else {
        s
    }
}

/// `s` without leading and trailing white space (`str::trim`).
pub open spec fn trim(s: Seq<char>) -> Seq<char> {
    trim_start(trim_end(s))
}

/// Index one past the last non-white-space character of `s[..k]`.
proof fn lemma_trim_end_take(s: Seq<char>, k: int)
    requires
        0 <= k <= s.len(),
        forall|j: int| k <= j < s.len() ==> is_ws(s[j]),
    ensures
        trim_end(s) == trim_end(s.take(k)),
    decreases s.len() - k,
{
    if k < s.len() {
        assert(s.drop_last().take(k) =~= s.take(k));
        lemma_trim_end_take(s.drop_last(), k);
    } else {
        assert(s.take(k) =~= s);
    }
}

proof fn lemma_trim_start_skip(s: Seq<char>, k: int)
    requires
        0 <= k <= s.len(),
        forall|j: int| 0 <= j < k ==> is_ws(s[j]),
    ensures
        trim_start(s) == trim_start(s.skip(k)),
    decreases k,
{
    if k > 0 {
        assert(s.drop_first().skip(k - 1) =~= s.skip(k));
        lemma_trim_start_skip(s.drop_first(), k - 1);
    } else {
        assert(s.skip(0) =~= s);
    }
}

/// `s` without trailing white space.
pub fn trim_end_chars(s: &[char]) -> (r: Vec<char>)
    ensures
        r@ == trim_end(s@),
{
    let mut k = s.len();
    while k > 0 && is_ws_exec(s[k - 1])
        invariant
            k <= s.len(),
            forall|j: int| k <= j < s.len() ==> is_ws(s@[j]),
        decreases k,
    {
        k -= 1;
    }
    proof {
        lemma_trim_end_take(s@, k as int);
    }
    let r = slice_to_vec(s, 0, k);
    assert(r@ =~= s@.take(k as int));
    r
}

/// `s` without leading white space.
pub fn trim_start_chars(s: &[char]) -> (r: Vec<char>)
    ensures
        r@ == trim_start(s@),
{
    let mut k: usize = 0;
    while k < s.len() && is_ws_exec(s[k])
        invariant
            k <= s.len(),
            forall|j: int| 0 <= j < k ==> is_ws(s@[j]),
        decreases s.len() - k,
    {
        k += 1;
    }
    proof {
        lemma_trim_start_skip(s@, k as int);
    }
    let r = slice_to_vec(s, k, s.len());
    assert(r@ =~= s@.skip(k as int));
    r
}

/// `s` without leading and trailing white space.
pub fn trim_chars(s: &[char]) -> (r: Vec<char>)
    ensures
        r@ == trim(s@),
{
    let e = trim_end_chars(s);
    trim_start_chars(&e)
}

// ---------------------------------------------------------------------------
// UTF-8 length
// ---------------------------------------------------------------------------

/// Number of bytes of `c` in UTF-8.
pub open spec fn utf8_width(c: char) -> nat {
    if (c as u32) < 0x80 {
        1
    } else if (c as u32) < 0x800 {
        2
    } else if (c as u32) < 0x10000 {
        3
    } else {
        4
    }
}

/// Number of bytes of `s` in UTF-8 (`str::len`).
pub open spec fn utf8_len(s: Seq<char>) -> nat
    decreases s.len(),
{
    if s.len() == 0 {
        0
    } else {
        utf8_len(s.drop_last()) + utf8_width(s.last())
    }
}

proof fn lemma_utf8_len_prefix(s: Seq<char>, k: int)
    requires
        0 <= k <= s.len(),
    ensures
        utf8_len(s.take(k)) <= utf8_len(s),
    decreases s.len() - k,
{
    if k < s.len() {
        lemma_utf8_len_prefix(s, k + 1);
        assert(s.take(k + 1).drop_last() =~= s.take(k));
    } else {
        assert(s.take(k) =~= s);
    }
}

/// UTF-8 length of `s` (`str::len`), as a `u64`.
pub fn utf8_len_u64(s: &[char]) -> (r: u64)
    requires
        utf8_len(s@) <= u64::MAX,
    ensures
        r == utf8_len(s@),
{
    let mut n: u64 = 0;
    let mut i: usize = 0;
    while i < s.len()
        invariant
            i <= s.len(),
            n == utf8_len(s@.take(i as int)),
            utf8_len(s@) <= u64::MAX,
        decreases s.len() - i,
    {
        assert(s@.take(i + 1).drop_last() =~= s@.take(i as int));
        proof {
            lemma_utf8_len_prefix(s@, i + 1);
        }
        let c = s[i];
        let w: u64 = if (c as u32) < 0x80 {
            1
        } else if (c as u32) < 0x800 {
            2
        } else if (c as u32) < 0x10000 {
            3
        } else {
            4
        };
        n = n + w;
        i += 1;
    }
    assert(s@.take(s.len() as int) =~= s@);
    n
}

/// UTF-8 length of `s`, saturated at `cap` (enough to compare against it).
pub fn utf8_len_capped(s: &[char], cap: usize) -> (r: usize)
    ensures
        r == if utf8_len(s@) < cap {
            utf8_len(s@)
        } else {
            cap as nat
        },
{
    let mut n: usize = 0;
    let mut i: usize = 0;
    while i < s.len()
        invariant
            i <= s.len(),
            n == if utf8_len(s@.take(i as int)) < cap {
                utf8_len(s@.take(i as int))
            } else {
                cap as nat
            },
        decreases s.len() - i,
    {
        assert(s@.take(i + 1).drop_last() =~= s@.take(i as int));
        let c = s[i];
        let w: usize = if (c as u32) < 0x80 {
            1
        } else if (c as u32) < 0x800 {
            2
        } else if (c as u32) < 0x10000 {
            3
        } else {
            4
        };
        if n < cap {
            if cap - n <= w {
                n = cap;
            } else {
                n = n + w;
            }
        }
        i += 1;
    }
    assert(s@.take(s.len() as int) =~= s@);
    n
}


// ---------------------------------------------------------------------------
// Line positions
// ---------------------------------------------------------------------------

/// End of a line's content that starts at `ls` and is terminated at `i`
/// (a `\n` or the end of the text): a `\r` right before `i` is not content.
pub open spec fn content_end(s: Seq<char>, ls: nat, i: nat) -> nat {
    if i > ls && s[i - 1] == '\r' {
        (i - 1) as nat
    } else {
        i
    }
}

/// The `(start, end)` character ranges of the lines of `s[i..]`, the
/// current line having started at `ls`; same lines as `lines_acc`.
pub open spec fn spans_acc(s: Seq<char>, i: nat, ls: nat) -> Seq<(nat, nat)>
    decreases s.len() - i,
{
    if i >= s.len() {
        if ls < s.len() {
            seq![(ls, content_end(s, ls, s.len()))]
        } else {
            Seq::empty()
        }
    } else if s[i as int] == '\n' {
        seq![(ls, content_end(s, ls, i))] + spans_acc(s, i + 1, i + 1)
    } else {
        spans_acc(s, i + 1, ls)
    }
}

/// The character range of every line of `s`, in the order of `lines_of`.
pub open spec fn line_spans(s: Seq<char>) -> Seq<(nat, nat)> {
    spans_acc(s, 0, 0)
}

/// The text of each range.
pub open spec fn span_texts(s: Seq<char>, sp: Seq<(nat, nat)>) -> Seq<Seq<char>> {
    sp.map_values(|p: (nat, nat)| s.subrange(p.0 as int, p.1 as int))
}

/// Ranges are ordered, within `[lo, s.len()]`, and do not overlap.
pub open spec fn spans_ordered(s: Seq<char>, sp: Seq<(nat, nat)>, lo: nat) -> bool {
    &&& forall|k: int| 0 <= k < sp.len() ==> lo <= #[trigger] sp[k].0 <= sp[k].1 <= s.len()
    &&& forall|a: int, b: int| 0 <= a < b < sp.len() ==> #[trigger] sp[a].1 < #[trigger] sp[b].0
}

proof fn lemma_spans_acc(s: Seq<char>, i: nat, ls: nat)
    requires
        ls <= i <= s.len(),
    ensures
        lines_acc(s.skip(i as int), s.subrange(ls as int, i as int)) == span_texts(
            s,
            spans_acc(s, i, ls),
        ),
        spans_ordered(s, spans_acc(s, i, ls), ls),
        forall|k: int| 1 <= k < spans_acc(s, i, ls).len() ==> spans_acc(s, i, ls)[k].0 > i,
    decreases s.len() - i,
{
    let cur = s.subrange(ls as int, i as int);
    if i >= s.len() {
        assert(s.skip(i as int) =~= Seq::<char>::empty());
        if ls < s.len() {
            assert(strip_cr(cur) =~= s.subrange(ls as int, content_end(s, ls, s.len()) as int));
            assert(span_texts(s, spans_acc(s, i, ls)) =~= seq![strip_cr(cur)]);
        } else {
            assert(span_texts(s, spans_acc(s, i, ls)) =~= Seq::<Seq<char>>::empty());
        }
    } else if s[i as int] == '\n' {
        lemma_spans_acc(s, i + 1, i + 1);
        assert(s.skip(i as int).drop_first() =~= s.skip((i + 1) as int));
        assert(s.subrange((i + 1) as int, (i + 1) as int) =~= Seq::<char>::empty());
        assert(strip_cr(cur) =~= s.subrange(ls as int, content_end(s, ls, i) as int));
        let rest = spans_acc(s, i + 1, i + 1);
        assert(span_texts(s, spans_acc(s, i, ls)) =~= seq![strip_cr(cur)] + span_texts(s, rest));
    } else {
        lemma_spans_acc(s, i + 1, ls);
        assert(s.skip(i as int).drop_first() =~= s.skip((i + 1) as int));
        assert(cur.push(s[i as int]) =~= s.subrange(ls as int, (i + 1) as int));
    }
}

/// The lines of `s` are exactly the texts of its line ranges, which are
/// ordered and disjoint.
pub proof fn lemma_line_spans(s: Seq<char>)
    ensures
        lines_of(s) == span_texts(s, line_spans(s)),
        spans_ordered(s, line_spans(s), 0),
{
    lemma_spans_acc(s, 0, 0);
    assert(s.skip(0) =~= s);
    assert(s.subrange(0, 0) =~= Seq::<char>::empty());
}

/// Line ranges as natural numbers.
pub open spec fn nat_pairs(v: Seq<(usize, usize)>) -> Seq<(nat, nat)> {
    v.map_values(|p: (usize, usize)| (p.0 as nat, p.1 as nat))
}

/// The character range `(start, end)` of every line of `s`.
pub fn line_spans_exec(s: &[char]) -> (r: Vec<(usize, usize)>)
    ensures
        nat_pairs(r@) == line_spans(s@),
{
    let mut out: Vec<(usize, usize)> = Vec::new();
    let mut ls: usize = 0;
    let mut i: usize = 0;
    assert(nat_pairs(out@) =~= Seq::<(nat, nat)>::empty());
    while i < s.len()
        invariant
            ls <= i <= s.len(),
            nat_pairs(out@) + spans_acc(s@, i as nat, ls as nat) == line_spans(s@),
        decreases s.len() - i,
    {
        if s[i] == '\n' {
            let e = if i > ls && s[i - 1] == '\r' {
                i - 1
            } else {
                i
            };
            let ghost prev = nat_pairs(out@);
            out.push((ls, e));
            assert(nat_pairs(out@) =~= prev + seq![(ls as nat, e as nat)]);
            ls = i + 1;
        }
        i += 1;
    }
    if ls < s.len() {
        let e = if s.len() > ls && s[s.len() - 1] == '\r' {
            s.len() - 1
        } else {
            s.len()
        };
        let ghost prev = nat_pairs(out@);
        out.push((ls, e));
        assert(nat_pairs(out@) =~= prev + seq![(ls as nat, e as nat)]);
    } else {
        assert(nat_pairs(out@) =~= nat_pairs(out@) + Seq::<(nat, nat)>::empty());
    }
    out
}

} // verus!
