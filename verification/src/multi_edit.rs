//! Several edits of one file applied in turn to its content: each edit
//! sees the text the previous ones left, and either all apply or none is
//! kept.

use vstd::prelude::*;
use crate::edit::{apply_edit_in_memory, edit_applied, edit_error_view, edit_failure, error_text, EditError};
use crate::text::{chars_of, decimal, extend_str, push_decimal, string_of};

verus! {

/// One edit of a batch.
#[derive(Debug, Clone)]
pub struct Edit {
    pub old_string: String,
    pub new_string: String,
    pub replace_all: bool,
}

/// The edits as the contracts see them.
pub open spec fn edit_views(e: Seq<Edit>) -> Seq<(Seq<char>, Seq<char>, bool)> {
    e.map_values(|x: Edit| (x.old_string@, x.new_string@, x.replace_all))
}

/// One edit of `t`, as `edit_applied` gives it.
#[verifier::opaque]
pub open spec fn step(t: Seq<char>, e: (Seq<char>, Seq<char>, bool)) -> Option<(Seq<char>, nat)> {
    edit_applied(t, e.0, e.1, e.2)
}

/// Why one edit of `t` fails, as `edit_failure` gives it.
#[verifier::opaque]
pub open spec fn step_failure(t: Seq<char>, e: (Seq<char>, Seq<char>, bool)) -> (bool, Seq<char>, nat, Seq<nat>) {
    edit_failure(t, e.0, e.1, e.2)
}

/// The text after the first `i` edits (a failing edit changes nothing).
pub open spec fn text_after(orig: Seq<char>, ed: Seq<(Seq<char>, Seq<char>, bool)>, i: nat) -> Seq<char>
    decreases i,
{
    if i == 0 {
        orig
    } else {
        let t = text_after(orig, ed, (i - 1) as nat);
        match step(t, ed[i - 1]) {
            Some((u, _)) => u,
            None => t,
        }
    }
}

/// The replacements the first `i` edits made.
pub open spec fn replacements_after(orig: Seq<char>, ed: Seq<(Seq<char>, Seq<char>, bool)>, i: nat) -> nat
    decreases i,
{
    if i == 0 {
        0
    } else {
        let t = text_after(orig, ed, (i - 1) as nat);
        match step(t, ed[i - 1]) {
            Some((_, n)) => replacements_after(orig, ed, (i - 1) as nat) + n,
            None => replacements_after(orig, ed, (i - 1) as nat),
        }
    }
}

/// Edit `k` applies to the text the edits before it left.
pub open spec fn applies_at(orig: Seq<char>, ed: Seq<(Seq<char>, Seq<char>, bool)>, k: nat) -> bool {
    step(text_after(orig, ed, k), ed[k as int]) is Some
}

/// The first `i` edits all apply.
pub open spec fn all_apply(orig: Seq<char>, ed: Seq<(Seq<char>, Seq<char>, bool)>, i: nat) -> bool {
    forall|k: nat| k < i ==> #[trigger] applies_at(orig, ed, k)
}

/// What a batch needs of the machine: while the edits apply, each text
/// they leave is shorter than `usize::MAX` characters and the replacement
/// count fits in `usize`.
pub open spec fn batch_fits(orig: Seq<char>, ed: Seq<(Seq<char>, Seq<char>, bool)>) -> bool {
    forall|k: nat|
        k <= ed.len() && all_apply(orig, ed, k) ==> #[trigger] text_after(orig, ed, k).len() < usize::MAX
            && replacements_after(orig, ed, k) <= usize::MAX
}

/// Why a batch of edits was not applied.
#[derive(Debug)]
pub enum MultiEditError {
    /// The batch is empty.
    NoEdits,
    /// Edit number `index` (from 0) did not apply.
    Failed { index: usize, error: EditError },
    /// The edits applied but left the text as it was.
    NoOp,
}

/// Applies `edits` in turn to `original`: the final text and the total
/// number of replacements, or the first edit that failed. Nothing of a
/// failed batch is kept.
pub fn apply_edits_in_memory(original: &str, edits: &[Edit]) -> (r: Result<(String, usize), MultiEditError>)
    requires
        batch_fits(original@, edit_views(edits@)),
    ensures
        edits@.len() == 0 ==> r matches Err(MultiEditError::NoEdits),
        edits@.len() > 0 ==> ({
            let o = original@;
            let ed = edit_views(edits@);
            let n = edits@.len();
            match r {
                Ok((s, total)) => all_apply(o, ed, n) && s@ == text_after(o, ed, n) && s@ != o && total
                    == replacements_after(o, ed, n),
                Err(MultiEditError::Failed { index, error }) => index < n && all_apply(o, ed, index as nat)
                    && !applies_at(o, ed, index as nat) && edit_error_view(error) == step_failure(
                    text_after(o, ed, index as nat),
                    ed[index as int],
                ),
                Err(MultiEditError::NoOp) => all_apply(o, ed, n) && text_after(o, ed, n) == o,
                Err(MultiEditError::NoEdits) => false,
            }
        }),
{
    if edits.len() == 0 {
        return Err(MultiEditError::NoEdits);
    }
    let ghost o = original@;
    let ghost ed = edit_views(edits@);
    let mut buf = original.to_owned();
    let mut total: usize = 0;
    let mut i: usize = 0;
    while i < edits.len()
        invariant
            i <= edits@.len(),
            o == original@,
            ed == edit_views(edits@),
            batch_fits(o, ed),
            buf@ == text_after(o, ed, i as nat),
            total == replacements_after(o, ed, i as nat),
            all_apply(o, ed, i as nat),
        decreases edits@.len() - i,
    {
        assert(text_after(o, ed, i as nat).len() < usize::MAX);
        let e = &edits[i];
        assert(ed[i as int] == (e.old_string@, e.new_string@, e.replace_all));
        match apply_edit_in_memory(buf.as_str(), e.old_string.as_str(), e.new_string.as_str(), e.replace_all) {
            Ok((next, n)) => {
                assert(step(buf@, ed[i as int]) == Some((next@, n as nat))) by {
                    reveal(step);
                }
                assert(applies_at(o, ed, i as nat));
                assert(all_apply(o, ed, (i + 1) as nat)) by {
                    assert forall|k: nat| k < (i + 1) as nat implies #[trigger] applies_at(o, ed, k) by {
                        if k < i {
                            assert(applies_at(o, ed, k));
                        }
                    }
                }
                assert(text_after(o, ed, (i + 1) as nat) == next@);
                assert(replacements_after(o, ed, (i + 1) as nat) == total + n);
                assert(text_after(o, ed, (i + 1) as nat).len() < usize::MAX && replacements_after(o, ed, (i + 1) as nat) <= usize::MAX);
                buf = next;
                total = total + n;
            },
            Err(err) => {
                assert(step(buf@, ed[i as int]) is None && edit_error_view(err) == step_failure(buf@, ed[i as int])) by {
                    reveal(step);
                    reveal(step_failure);
                }
                return Err(MultiEditError::Failed { index: i, error: err });
            },
        }
        i += 1;
    }
    if crate::text::chars_eq(&chars_of(buf.as_str()), &chars_of(original)) {
        return Err(MultiEditError::NoOp);
    }
    Ok((buf, total))
}

/// "s" after a count other than one.
pub open spec fn plural(n: nat) -> Seq<char> {
    if n == 1 {
        Seq::empty()
    } else {
        "s"@
    }
}

fn push_plural(v: &mut Vec<char>, n: usize)
    ensures
        final(v)@ == old(v)@ + plural(n as nat),
{
    if n != 1 {
        extend_str(v, "s");
    }
    assert(n == 1 ==> old(v)@ + plural(n as nat) =~= old(v)@);
}

/// The text of a batch error.
pub open spec fn multi_error_text(e: MultiEditError) -> Seq<char> {
    match e {
        MultiEditError::NoEdits => "multi_edit: edits array is empty"@,
        MultiEditError::Failed { index, error } => "multi_edit: edit["@ + decimal(index as nat) + "] failed: "@
            + error_text(edit_error_view(error)),
        MultiEditError::NoOp => "multi_edit: no-op - applied edits produced identical content"@,
    }
}

impl MultiEditError {
    /// The error as the multi-edit tool reports it.
    pub fn message(&self) -> (r: String)
        ensures
            r@ == multi_error_text(*self),
    {
        match self {
            MultiEditError::NoEdits => "multi_edit: edits array is empty".to_owned(),
            MultiEditError::Failed { index, error } => {
                let mut v = chars_of("multi_edit: edit[");
                push_decimal(&mut v, *index as u64);
                extend_str(&mut v, "] failed: ");
                let m = error.message();
                extend_str(&mut v, m.as_str());
                string_of(&v)
            },
            MultiEditError::NoOp => "multi_edit: no-op - applied edits produced identical content".to_owned(),
        }
    }
}

/// The multi-edit tool's report of an applied batch (in a dry run, of the
/// batch it would apply, with the final size).
pub open spec fn multi_report_spec(path: Seq<char>, edits: nat, total: nat, dry_run: bool, final_bytes: nat) -> Seq<char> {
    if dry_run {
        "(dry_run) would multi_edit "@ + path + " ("@ + decimal(edits) + " edit"@ + plural(edits) + ", "@ + decimal(total)
            + " total replacement"@ + plural(total) + ", final size "@ + decimal(final_bytes) + " bytes)\n"@
    } else {
        "multi_edited "@ + path + " ("@ + decimal(edits) + " edit"@ + plural(edits) + ", "@ + decimal(total)
            + " total replacement"@ + plural(total) + ")\n"@
    }
}

/// Reports a batch of `edits` edits with `total` replacements on the file
/// at `path`, whose new content has `final_bytes` bytes.
pub fn multi_edit_report(path: &str, edits: usize, total: usize, dry_run: bool, final_bytes: u64) -> (r: String)
    ensures
        r@ == multi_report_spec(path@, edits as nat, total as nat, dry_run, final_bytes as nat),
{
    let mut v = if dry_run {
        chars_of("(dry_run) would multi_edit ")
    } else {
        chars_of("multi_edited ")
    };
    extend_str(&mut v, path);
    extend_str(&mut v, " (");
    push_decimal(&mut v, edits as u64);
    extend_str(&mut v, " edit");
    push_plural(&mut v, edits);
    extend_str(&mut v, ", ");
    push_decimal(&mut v, total as u64);
    extend_str(&mut v, " total replacement");
    push_plural(&mut v, total);
    if dry_run {
        extend_str(&mut v, ", final size ");
        push_decimal(&mut v, final_bytes);
        extend_str(&mut v, " bytes)\n");
    } else {
        extend_str(&mut v, ")\n");
    }
    string_of(&v)
}

} // verus!
