//! The escape sequences of the sticky bottom status bar: the bottom row of
//! the terminal is reserved for a metrics line, painted in place while the
//! output above it scrolls.

use vstd::prelude::*;
use crate::text::{chars_of, extend_str, push_decimal, string_of, decimal};

verus! {

/// What painting `left` on reserved row `h` writes: save the cursor, go to
/// the row, clear it, write `left`; then, when `right` is not empty and
/// both fit with two columns to spare, write `right` so that it ends in
/// the last of the `cols` columns; then restore the cursor.
pub open spec fn paint_spec(h: u16, cols: u16, left: Seq<char>, left_visible: nat, right: Seq<char>, right_visible: nat) -> Seq<char> {
    "\x1b7\x1b["@ + decimal(h as nat) + ";1H\x1b[2K"@ + left + (if right.len() > 0 && left_visible
        + right_visible + 2 < cols {
        let start: nat = if cols >= right_visible {
            (cols - right_visible) as nat
        } else {
            0
        };
        "\x1b["@ + decimal(h as nat) + ";"@ + decimal(start + 1) + "H"@ + right
    } else {
        Seq::empty()
    }) + "\x1b8"@
}

/// The bytes that paint `left` and a right-aligned `right` on the reserved
/// row `h` of a `cols`-wide terminal; `None` when no row is reserved.
pub fn paint_bottom_with_right(h: u16, cols: u16, left: &str, left_visible: usize, right: &str, right_visible: usize) -> (r: Option<String>)
    requires
        left_visible + right_visible + 2 <= usize::MAX,
    ensures
        h == 0 ==> r is None,
        h != 0 ==> r is Some && r->0@ == paint_spec(h, cols, left@, left_visible as nat, right@, right_visible as nat),
{
    if h == 0 {
        return None;
    }
    let mut v = chars_of("\x1b7\x1b[");
    push_decimal(&mut v, h as u64);
    extend_str(&mut v, ";1H\x1b[2K");
    extend_str(&mut v, left);
    let cols_n = cols as usize;
    if !right.is_empty() && left_visible + right_visible + 2 < cols_n {
        let start = if cols_n >= right_visible {
            cols_n - right_visible
        } else {
            0
        };
        extend_str(&mut v, "\x1b[");
        push_decimal(&mut v, h as u64);
        extend_str(&mut v, ";");
        push_decimal(&mut v, start as u64 + 1);
        extend_str(&mut v, "H");
        extend_str(&mut v, right);
    }
    extend_str(&mut v, "\x1b8");
    Some(string_of(&v))
}

/// The bytes that paint `raw` on the reserved row `h`; `None` when no row
/// is reserved.
pub fn paint_bottom(h: u16, cols: u16, raw: &str, visible_len: usize) -> (r: Option<String>)
    requires
        visible_len + 2 <= usize::MAX,
    ensures
        h == 0 ==> r is None,
        h != 0 ==> r is Some && r->0@ == paint_spec(h, cols, raw@, visible_len as nat, Seq::empty(), 0),
{
    let r = paint_bottom_with_right(h, cols, raw, visible_len, "", 0);
    proof {
        reveal_strlit("");
    }
    r
}

} // verus!
