//! The startup logo: a six-row block-letter wordmark with a violet to
//! lavender gradient, and a small iris-flower glyph to its left whose rows
//! are colored by role.

use vstd::prelude::*;
use crate::theme::{Theme, dim, accent, RESET, accent_spec};
use crate::text::{chars_of, chars_eq_str, extend_str, string_of};

verus! {

/// The block-letter rows, top to bottom.
pub open spec fn block_spec() -> Seq<Seq<char>> {
    seq![
        "██╗██████╗ ██╗███████╗     ██████╗ ██████╗ ██████╗ ███████╗"@,
        "██║██╔══██╗██║██╔════╝    ██╔════╝██╔═══██╗██╔══██╗██╔════╝"@,
        "██║██████╔╝██║███████╗    ██║     ██║   ██║██║  ██║█████╗  "@,
        "██║██╔══██╗██║╚════██║    ██║     ██║   ██║██║  ██║██╔══╝  "@,
        "██║██║  ██║██║███████║    ╚██████╗╚██████╔╝██████╔╝███████╗"@,
        "╚═╝╚═╝  ╚═╝╚═╝╚══════╝     ╚═════╝ ╚═════╝ ╚═════╝ ╚══════╝"@,
    ]
}

/// The block-letter rows, top to bottom.
pub fn block_rows() -> (r: Vec<&'static str>)
    ensures
        r@.map_values(|s: &str| s@) == block_spec(),
{
    let r = vec![
        "██╗██████╗ ██╗███████╗     ██████╗ ██████╗ ██████╗ ███████╗",
        "██║██╔══██╗██║██╔════╝    ██╔════╝██╔═══██╗██╔══██╗██╔════╝",
        "██║██████╔╝██║███████╗    ██║     ██║   ██║██║  ██║█████╗  ",
        "██║██╔══██╗██║╚════██║    ██║     ██║   ██║██║  ██║██╔══╝  ",
        "██║██║  ██║██║███████║    ╚██████╗╚██████╔╝██████╔╝███████╗",
        "╚═╝╚═╝  ╚═╝╚═╝╚══════╝     ╚═════╝ ╚═════╝ ╚═════╝ ╚══════╝",
    ];
    assert(r@.map_values(|s: &str| s@) =~= block_spec());
    r
}

/// The flower rows with the role that colors each, top to bottom.
pub open spec fn flower_spec() -> Seq<(Seq<char>, Seq<char>)> {
    seq![
        (" ╲▎│▎╱ "@, "lavender"@),
        (" ▎▎│▎▎ "@, "violet_top"@),
        ("─◆─◆─◆─"@, "gold"@),
        (" ╱▎│▎╲ "@, "violet_bot"@),
        ("   │   "@, "stem"@),
        ("  ─┴─  "@, "stem_dim"@),
    ]
}

/// The flower rows with the role that colors each, top to bottom.
pub fn flower_rows() -> (r: Vec<(&'static str, &'static str)>)
    ensures
        r@.map_values(|p: (&str, &str)| (p.0@, p.1@)) == flower_spec(),
{
    let r = vec![
        (" ╲▎│▎╱ ", "lavender"),
        (" ▎▎│▎▎ ", "violet_top"),
        ("─◆─◆─◆─", "gold"),
        (" ╱▎│▎╲ ", "violet_bot"),
        ("   │   ", "stem"),
        ("  ─┴─  ", "stem_dim"),
    ];
    assert(r@.map_values(|p: (&str, &str)| (p.0@, p.1@)) =~= flower_spec());
    r
}

/// The gradient stops of the block letters: deep violet at the top to
/// lavender at the bottom.
pub open spec fn gradient_spec() -> Seq<Seq<char>> {
    seq![
        "\x1b[38;5;54m"@,
        "\x1b[38;5;91m"@,
        "\x1b[38;5;135m"@,
        "\x1b[38;5;141m"@,
        "\x1b[38;5;177m"@,
        "\x1b[38;5;183m"@,
    ]
}

/// The gradient stops of the block letters.
pub fn iris_gradient() -> (r: Vec<&'static str>)
    ensures
        r@.map_values(|s: &str| s@) == gradient_spec(),
{
    let r = vec![
        "\x1b[38;5;54m",
        "\x1b[38;5;91m",
        "\x1b[38;5;135m",
        "\x1b[38;5;141m",
        "\x1b[38;5;177m",
        "\x1b[38;5;183m",
    ];
    assert(r@.map_values(|s: &str| s@) =~= gradient_spec());
    r
}

/// The color of a flower role; empty for an unknown role.
pub open spec fn role_ansi_spec(role: Seq<char>) -> Seq<char> {
    if role == "lavender"@ {
        "\x1b[38;5;183m"@
    } else if role == "violet_top"@ {
        "\x1b[38;5;141m"@
    } else if role == "violet_bot"@ {
        "\x1b[38;5;91m"@
    } else if role == "gold"@ {
        "\x1b[38;5;220m"@
    } else if role == "stem"@ {
        "\x1b[38;5;108m"@
    } else if role == "stem_dim"@ {
        "\x1b[2;38;5;108m"@
    } else {
        ""@
    }
}

/// The color of a flower role.
pub fn role_to_ansi(role: &str) -> (r: &'static str)
    ensures
        r@ == role_ansi_spec(role@),
{
    let c = chars_of(role);
    if chars_eq_str(&c, "lavender") {
        "\x1b[38;5;183m"
    } else if chars_eq_str(&c, "violet_top") {
        "\x1b[38;5;141m"
    } else if chars_eq_str(&c, "violet_bot") {
        "\x1b[38;5;91m"
    } else if chars_eq_str(&c, "gold") {
        "\x1b[38;5;220m"
    } else if chars_eq_str(&c, "stem") {
        "\x1b[38;5;108m"
    } else if chars_eq_str(&c, "stem_dim") {
        "\x1b[2;38;5;108m"
    } else {
        ""
    }
}

/// Row `i` of the logo: the colored flower row, then the colored block row.
pub open spec fn logo_row(i: int) -> Seq<char> {
    "    "@ + role_ansi_spec(flower_spec()[i].1) + flower_spec()[i].0 + RESET@ + "    "@
        + gradient_spec()[i] + block_spec()[i] + RESET@
}

/// The tagline under the logo.
pub open spec fn tagline_spec(t: Theme) -> Seq<char> {
    "                  "@ + "\x1b[2m"@ + "─ a lean coding agent · "@ + accent_spec(t) + "MTPLX"@
        + "\x1b[2m"@ + " · qwen3.6-27b ─"@ + RESET@
}

/// The lines the logo prints, blank lines included.
pub open spec fn logo_spec(t: Theme) -> Seq<Seq<char>> {
    seq![Seq::empty()] + Seq::new(6, |i: int| logo_row(i)) + seq![Seq::empty(), tagline_spec(t), Seq::empty()]
}

/// The lines of the logo in theme `t`, to be printed one per line.
pub fn logo_lines(t: Theme) -> (r: Vec<String>)
    ensures
        r@.map_values(|s: String| s@) == logo_spec(t),
{
    let block = block_rows();
    let flower = flower_rows();
    let grad = iris_gradient();
    let mut out: Vec<String> = Vec::new();
    out.push(String::new());
    assert(out@.map_values(|s: String| s@) =~= seq![Seq::<char>::empty()] + Seq::new(0, |k: int| logo_row(k)));
    assert(block_spec().len() == 6);
    assert(flower_spec().len() == 6);
    assert(gradient_spec().len() == 6);
    assert(grad@.len() == grad@.map_values(|s: &str| s@).len());
    assert(block@.len() == block@.map_values(|s: &str| s@).len());
    assert(flower@.len() == flower@.map_values(|p: (&str, &str)| (p.0@, p.1@)).len());
    let mut i: usize = 0;
    while i < 6
        invariant
            i <= 6,
            block@.len() == 6,
            flower@.len() == 6,
            grad@.len() == 6,
            block@.map_values(|s: &str| s@) == block_spec(),
            flower@.map_values(|p: (&str, &str)| (p.0@, p.1@)) == flower_spec(),
            grad@.map_values(|s: &str| s@) == gradient_spec(),
            out@.map_values(|s: String| s@) == seq![Seq::<char>::empty()] + Seq::new(i as nat, |k: int| logo_row(k)),
        decreases 6 - i,
    {
        assert(block@.map_values(|s: &str| s@)[i as int] == block@[i as int]@);
        assert(flower@.map_values(|p: (&str, &str)| (p.0@, p.1@))[i as int] == (flower@[i as int].0@, flower@[i as int].1@));
        assert(grad@.map_values(|s: &str| s@)[i as int] == grad@[i as int]@);
        let mut v = chars_of("    ");
        extend_str(&mut v, role_to_ansi(flower[i].1));
        extend_str(&mut v, flower[i].0);
        extend_str(&mut v, RESET);
        extend_str(&mut v, "    ");
        extend_str(&mut v, grad[i]);
        extend_str(&mut v, block[i]);
        extend_str(&mut v, RESET);
        let line = string_of(&v);
        assert(line@ == logo_row(i as int));
        let ghost prev = out@.map_values(|s: String| s@);
        out.push(line);
        assert(out@.map_values(|s: String| s@) =~= prev.push(logo_row(i as int)));
        i += 1;
        assert(out@.map_values(|s: String| s@) =~= seq![Seq::<char>::empty()] + Seq::new(i as nat, |k: int| logo_row(k)));
    }
    out.push(String::new());
    let mut tag = chars_of("                  ");
    extend_str(&mut tag, dim(t));
    extend_str(&mut tag, "─ a lean coding agent · ");
    extend_str(&mut tag, accent(t));
    extend_str(&mut tag, "MTPLX");
    extend_str(&mut tag, dim(t));
    extend_str(&mut tag, " · qwen3.6-27b ─");
    extend_str(&mut tag, RESET);
    out.push(string_of(&tag));
    out.push(String::new());
    assert(out@.map_values(|s: String| s@) =~= logo_spec(t));
    out
}

} // verus!
