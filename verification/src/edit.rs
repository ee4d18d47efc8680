//! Edit engine: line-indexed edits and sequential search/replace patches
//! build one candidate text; the validator is the commit gate, so a stored
//! document only ever changes to a text that validates.

use vstd::prelude::*;
use crate::bytes::{
    is_ws, all_ws, match_at, is_ws_byte, subrange_vec, push_all, copy_bytes,
    lemma_vec_push_deep_view, lemma_vec_remove_deep_view, lemma_vec_insert_deep_view, has_match_at,
};
use crate::diag::{DiagS, Diagnostic};
use crate::assemble::{split_lines, split_into_lines};
use crate::validate::{validation_errors, validation_warnings, validate};

verus! {

/// Number of non-overlapping occurrences of `pat` in `text` at or after
/// `i`, scanning left to right.
pub open spec fn count_occ_at(text: Seq<u8>, pat: Seq<u8>, i: int) -> nat
    decreases text.len() - i,
{
    if pat.len() == 0 || i < 0 || i + pat.len() > text.len() {
        0
    } else if match_at(text, i, pat) {
        1 + count_occ_at(text, pat, i + pat.len())
    } else {
        count_occ_at(text, pat, i + 1)
    }
}

/// Number of non-overlapping occurrences of `pat` in `text`.
pub open spec fn count_occ(text: Seq<u8>, pat: Seq<u8>) -> nat {
    count_occ_at(text, pat, 0)
}

/// Index of the first occurrence of `pat` at or after `i`
/// (`text.len()` when none).
pub open spec fn find_occ_at(text: Seq<u8>, pat: Seq<u8>, i: int) -> int
    decreases text.len() - i,
{
    if pat.len() == 0 || i < 0 || i + pat.len() > text.len() {
        text.len() as int
    } else if match_at(text, i, pat) {
        i
    } else {
        find_occ_at(text, pat, i + 1)
    }
}

/// `text` with the first occurrence of `pat` replaced by `rep`.
pub open spec fn replace_first(text: Seq<u8>, pat: Seq<u8>, rep: Seq<u8>) -> Seq<u8> {
    let j = find_occ_at(text, pat, 0);
    if j >= text.len() {
        text
    } else {
        text.take(j) + rep + text.skip(j + pat.len())
    }
}

pub proof fn lemma_find_occ_at_match(text: Seq<u8>, pat: Seq<u8>, i: int)
    requires
        0 <= i,
    ensures
        find_occ_at(text, pat, i) < text.len() ==> match_at(
            text,
            find_occ_at(text, pat, i),
            pat,
        ),
    decreases text.len() - i,
{
    if !(pat.len() == 0 || i < 0 || i + pat.len() > text.len()) {
        if !match_at(text, i, pat) {
            lemma_find_occ_at_match(text, pat, i + 1);
        }
    }
}

/// A positive count means the first occurrence is a real position.
pub proof fn lemma_count_pos_find(text: Seq<u8>, pat: Seq<u8>, i: int)
    requires
        0 <= i,
    ensures
        count_occ_at(text, pat, i) > 0 ==> find_occ_at(text, pat, i) < text.len(),
    decreases text.len() - i,
{
    if !(pat.len() == 0 || i < 0 || i + pat.len() > text.len()) {
        if !match_at(text, i, pat) {
            lemma_count_pos_find(text, pat, i + 1);
        }
    }
}

pub proof fn lemma_count_occ_at_bound(text: Seq<u8>, pat: Seq<u8>, i: int)
    requires
        0 <= i,
    ensures
        count_occ_at(text, pat, i) <= text.len() - i || count_occ_at(text, pat, i) == 0,
    decreases text.len() - i,
{
    if !(pat.len() == 0 || i < 0 || i + pat.len() > text.len()) {
        if match_at(text, i, pat) {
            lemma_count_occ_at_bound(text, pat, i + pat.len());
        } else {
            lemma_count_occ_at_bound(text, pat, i + 1);
        }
    }
}

/// Why an edit call failed. All indices are 1-based.
pub enum EditErrS {
    /// A line number outside `1..=count`.
    OutOfRange { given: int, count: int },
    /// The `old_string` of the patch at `index` occurs nowhere in the text
    /// as it stands when that patch applies.
    NotFound { index: int },
    /// The `old_string` of the patch at `index` occurs `count` times; it
    /// must occur exactly once.
    Ambiguous { index: int, count: int },
    /// An empty `old_string` anywhere but as the very first patch against
    /// an empty document.
    EmptyOld { index: int },
    /// The candidate text validated with blocking errors: the whole call is
    /// rejected and the stored text is unchanged.
    Rejected { errors: Seq<DiagS> },
}

/// Why an edit call failed. All indices are 1-based.
#[derive(Debug)]
pub enum EditError {
    OutOfRange { given: usize, count: usize },
    NotFound { index: usize },
    Ambiguous { index: usize, count: usize },
    EmptyOld { index: usize },
    Rejected { errors: Vec<Diagnostic> },
}

impl View for EditError {
    type V = EditErrS;

    open spec fn view(&self) -> EditErrS {
        match self {
            EditError::OutOfRange { given, count } => EditErrS::OutOfRange {
                given: *given as int,
                count: *count as int,
            },
            EditError::NotFound { index } => EditErrS::NotFound { index: *index as int },
            EditError::Ambiguous { index, count } => EditErrS::Ambiguous {
                index: *index as int,
                count: *count as int,
            },
            EditError::EmptyOld { index } => EditErrS::EmptyOld { index: *index as int },
            EditError::Rejected { errors } => EditErrS::Rejected { errors: errors.deep_view() },
        }
    }
}

/// One search/replace operation: `old_string` must occur exactly once in
/// the text at the moment the operation applies; an empty `new_string`
/// deletes the matched span.
pub struct PatchOpS {
    pub old_string: Seq<u8>,
    pub new_string: Seq<u8>,
}

/// One search/replace operation of a patch batch.
pub struct PatchOp {
    pub old_string: Vec<u8>,
    pub new_string: Vec<u8>,
}

impl View for PatchOp {
    type V = PatchOpS;

    open spec fn view(&self) -> PatchOpS {
        PatchOpS { old_string: self.old_string@, new_string: self.new_string@ }
    }
}

impl DeepView for PatchOp {
    type V = PatchOpS;

    open spec fn deep_view(&self) -> PatchOpS {
        self@
    }
}

/// Apply the patch with 1-based index `idx` to the evolving text. An empty
/// `old_string` bootstraps an empty document, and only as the first patch;
/// otherwise the `old_string` must occur exactly once right now.
pub open spec fn apply_one_patch(t: Seq<u8>, op: PatchOpS, idx: int) -> Result<Seq<u8>, EditErrS> {
    if t.len() == 0 && op.old_string.len() == 0 {
        if idx == 1 {
            Ok(op.new_string)
        } else {
            Err(EditErrS::EmptyOld { index: idx })
        }
    } else if t.len() == 0 {
        Err(EditErrS::NotFound { index: idx })
    } else if op.old_string.len() == 0 {
        Err(EditErrS::EmptyOld { index: idx })
    } else {
        let c = count_occ(t, op.old_string);
        if c == 0 {
            Err(EditErrS::NotFound { index: idx })
        } else if c > 1 {
            Err(EditErrS::Ambiguous { index: idx, count: c as int })
        } else {
            Ok(replace_first(t, op.old_string, op.new_string))
        }
    }
}

/// Apply the first `k` patches in order, each seeing the result of the
/// previous one; the first failure aborts the batch.
pub open spec fn apply_patches_upto(text0: Seq<u8>, ops: Seq<PatchOpS>, k: int) -> Result<
    Seq<u8>,
    EditErrS,
>
    decreases k,
{
    if k <= 0 {
        Ok(text0)
    } else {
        match apply_patches_upto(text0, ops, k - 1) {
            Err(e) => Err(e),
            Ok(t) => apply_one_patch(t, ops[k - 1], k),
        }
    }
}

/// Length of `t` once trailing line terminators are dropped.
pub open spec fn nl_trim_len(t: Seq<u8>) -> int
    decreases t.len(),
{
    if t.len() > 0 && t.last() == 10 {
        nl_trim_len(t.drop_last())
    } else {
        t.len() as int
    }
}

pub proof fn lemma_nl_trim_len_unique(t: Seq<u8>, m: int)
    requires
        0 <= m <= t.len(),
        forall|i: int| m <= i < t.len() ==> #[trigger] t[i] == 10,
        m > 0 ==> t[m - 1] != 10,
    ensures
        nl_trim_len(t) == m,
    decreases t.len(),
{
    if t.len() > 0 && t.last() == 10 {
        assert(m < t.len());
        let d = t.drop_last();
        assert forall|i: int| m <= i < d.len() implies #[trigger] d[i] == 10 by {
            assert(d[i] == t[i]);
        }
        if m > 0 {
            assert(d[m - 1] == t[m - 1]);
        }
        lemma_nl_trim_len_unique(d, m);
    } else {
        assert(m == t.len());
    }
}

/// Normalize a candidate so it ends with exactly one line terminator,
/// unless it is empty.
pub open spec fn normalize(t: Seq<u8>) -> Seq<u8> {
    if nl_trim_len(t) == 0 {
        Seq::empty()
    } else {
        t.take(nl_trim_len(t)).push(10)
    }
}

/// Join lines with a single line terminator between them.
pub open spec fn join_lines(lines: Seq<Seq<u8>>) -> Seq<u8>
    decreases lines.len(),
{
    if lines.len() == 0 {
        Seq::empty()
    } else if lines.len() == 1 {
        lines[0]
    } else {
        join_lines(lines.drop_last()) + seq![10u8] + lines.last()
    }
}

/// One line-indexed edit. Line numbers are 1-based against the current
/// line sequence.
pub enum LineEditS {
    Replace { line: int, text: Seq<u8> },
    InsertAfter { line: int, text: Seq<u8> },
    Delete { line: int },
    Append { text: Seq<u8> },
}

/// One line-indexed edit. Line numbers are 1-based against the current
/// line sequence.
pub enum LineEdit {
    Replace { line: usize, text: Vec<u8> },
    InsertAfter { line: usize, text: Vec<u8> },
    Delete { line: usize },
    Append { text: Vec<u8> },
}

impl View for LineEdit {
    type V = LineEditS;

    open spec fn view(&self) -> LineEditS {
        match self {
            LineEdit::Replace { line, text } => LineEditS::Replace {
                line: *line as int,
                text: text@,
            },
            LineEdit::InsertAfter { line, text } => LineEditS::InsertAfter {
                line: *line as int,
                text: text@,
            },
            LineEdit::Delete { line } => LineEditS::Delete { line: *line as int },
            LineEdit::Append { text } => LineEditS::Append { text: text@ },
        }
    }
}

/// Candidate text of one line-indexed edit: apply to the line sequence,
/// rejoin, normalize. `append` first adds a blank-line separator when the
/// document is non-empty and does not already end in a blank line.
pub open spec fn line_edit_candidate(text: Seq<u8>, op: LineEditS) -> Result<Seq<u8>, EditErrS> {
    let lines = split_lines(text);
    match op {
        LineEditS::Replace { line, text: t } => {
            if 1 <= line && line <= lines.len() {
                Ok(normalize(join_lines(lines.update(line - 1, t))))
            } else {
                Err(EditErrS::OutOfRange { given: line, count: lines.len() as int })
            }
        },
        LineEditS::InsertAfter { line, text: t } => {
            if 1 <= line && line <= lines.len() {
                Ok(normalize(join_lines(lines.insert(line, t))))
            } else {
                Err(EditErrS::OutOfRange { given: line, count: lines.len() as int })
            }
        },
        LineEditS::Delete { line } => {
            if 1 <= line && line <= lines.len() {
                Ok(normalize(join_lines(lines.remove(line - 1))))
            } else {
                Err(EditErrS::OutOfRange { given: line, count: lines.len() as int })
            }
        },
        LineEditS::Append { text: t } => {
            if lines.len() > 0 && !all_ws(lines.last()) {
                Ok(normalize(join_lines(lines.push(Seq::empty()).push(t))))
            } else {
                Ok(normalize(join_lines(lines.push(t))))
            }
        },
    }
}

/// Candidate text of a whole patch batch: the patches in order, then
/// normalization.
pub open spec fn patch_candidate(text: Seq<u8>, ops: Seq<PatchOpS>) -> Result<Seq<u8>, EditErrS> {
    match apply_patches_upto(text, ops, ops.len() as int) {
        Err(e) => Err(e),
        Ok(t) => Ok(normalize(t)),
    }
}

/// The commit gate: a candidate that validates without blocking errors
/// replaces the stored text and returns the warnings; anything else leaves
/// the stored text byte-for-byte unchanged.
pub open spec fn gated(old_text: Seq<u8>, cand: Result<Seq<u8>, EditErrS>) -> (
    Seq<u8>,
    Result<Seq<DiagS>, EditErrS>,
) {
    match cand {
        Err(e) => (old_text, Err(e)),
        Ok(t) => {
            if validation_errors(t).len() == 0 {
                (t, Ok(validation_warnings(t)))
            } else {
                (old_text, Err(EditErrS::Rejected { errors: validation_errors(t) }))
            }
        },
    }
}

/// Count the non-overlapping occurrences of `pat` and find the first.
fn count_and_find(t: &[u8], pat: &[u8]) -> (r: (usize, usize))
    requires
        pat@.len() > 0,
    ensures
        r.0 as nat == count_occ(t@, pat@),
        r.1 as int == find_occ_at(t@, pat@, 0),
{
    proof {
        lemma_count_occ_at_bound(t@, pat@, 0);
    }
    let mut i: usize = 0;
    let mut count: usize = 0;
    let mut first: usize = t.len();
    while i < t.len() && pat.len() <= t.len() - i
        invariant
            i <= t@.len(),
            pat@.len() > 0,
            count + count_occ_at(t@, pat@, i as int) == count_occ(t@, pat@),
            count <= t@.len(),
            count > 0 ==> first as int == find_occ_at(t@, pat@, 0) && first < t@.len(),
            count == 0 ==> first == t@.len() && find_occ_at(t@, pat@, 0) == find_occ_at(
                t@,
                pat@,
                i as int,
            ),
        decreases t@.len() - i,
    {
        if has_match_at(t, i, pat) {
            if count == 0 {
                first = i;
            }
            proof {
                lemma_count_occ_at_bound(t@, pat@, 0);
                lemma_count_occ_at_bound(t@, pat@, i + pat@.len());
            }
            count = count + 1;
            i = i + pat.len();
        } else {
            i = i + 1;
        }
    }
    proof {
        assert(count_occ_at(t@, pat@, i as int) == 0);
        if count == 0 {
            assert(find_occ_at(t@, pat@, i as int) == t@.len());
        }
    }
    (count, first)
}

/// `t` with its span `[j, j + plen)` replaced by `rep`.
fn splice(t: &[u8], j: usize, plen: usize, rep: &[u8]) -> (r: Vec<u8>)
    requires
        j + plen <= t@.len(),
    ensures
        r@ == t@.take(j as int) + rep@ + t@.skip(j + plen),
{
    let n = t.len();
    let mut r = subrange_vec(t, 0, j);
    proof {
        assert(t@.subrange(0, j as int) =~= t@.take(j as int));
    }
    push_all(&mut r, rep);
    let tail = subrange_vec(t, j + plen, n);
    proof {
        assert(t@.subrange(j + plen, t@.len() as int) =~= t@.skip(j + plen));
    }
    push_all(&mut r, tail.as_slice());
    r
}

/// Apply the patch with 1-based index `idx` to the evolving text.
fn apply_one_patch_exec(t: Vec<u8>, op: &PatchOp, idx: usize) -> (r: Result<Vec<u8>, EditError>)
    requires
        idx >= 1,
    ensures
        match r {
            Ok(v) => apply_one_patch(t@, op@, idx as int) == Ok::<Seq<u8>, EditErrS>(v@),
            Err(e) => apply_one_patch(t@, op@, idx as int) == Err::<Seq<u8>, EditErrS>(e@),
        },
{
    if t.len() == 0 && op.old_string.len() == 0 {
        if idx == 1 {
            return Ok(copy_bytes(op.new_string.as_slice()));
        } else {
            return Err(EditError::EmptyOld { index: idx });
        }
    }
    if t.len() == 0 {
        return Err(EditError::NotFound { index: idx });
    }
    if op.old_string.len() == 0 {
        return Err(EditError::EmptyOld { index: idx });
    }
    let (count, first) = count_and_find(t.as_slice(), op.old_string.as_slice());
    if count == 0 {
        return Err(EditError::NotFound { index: idx });
    }
    if count > 1 {
        return Err(EditError::Ambiguous { index: idx, count });
    }
    proof {
        lemma_count_pos_find(t@, op.old_string@, 0);
        lemma_find_occ_at_match(t@, op.old_string@, 0);
        assert(match_at(t@, first as int, op.old_string@));
        assert(first + op.old_string@.len() <= t@.len());
    }
    let r = splice(t.as_slice(), first, op.old_string.len(), op.new_string.as_slice());
    Ok(r)
}

/// A failed patch fails the whole batch.
proof fn lemma_patches_err_propagates(text0: Seq<u8>, ops: Seq<PatchOpS>, k: int, n: int)
    requires
        0 <= k <= n,
        apply_patches_upto(text0, ops, k) is Err,
    ensures
        apply_patches_upto(text0, ops, n) == apply_patches_upto(text0, ops, k),
    decreases n - k,
{
    if k < n {
        lemma_patches_err_propagates(text0, ops, k + 1, n);
    }
}

/// Normalize a candidate so it ends with exactly one line terminator,
/// unless it is empty.
fn normalize_exec(t: Vec<u8>) -> (r: Vec<u8>)
    ensures
        r@ == normalize(t@),
{
    let mut e: usize = t.len();
    while e > 0 && t[e - 1] == 10
        invariant
            e <= t@.len(),
            forall|k: int| e <= k < t@.len() ==> #[trigger] t@[k] == 10,
        decreases e,
    {
        e = e - 1;
    }
    proof {
        lemma_nl_trim_len_unique(t@, e as int);
    }
    if e == 0 {
        let r: Vec<u8> = Vec::new();
        proof {
            assert(r@ =~= normalize(t@));
        }
        return r;
    }
    let mut r = subrange_vec(t.as_slice(), 0, e);
    r.push(10);
    proof {
        assert(t@.subrange(0, e as int) =~= t@.take(e as int));
    }
    r
}

/// Join lines with a single line terminator between them.
fn join_lines_exec(lines: &Vec<Vec<u8>>) -> (r: Vec<u8>)
    ensures
        r@ == join_lines(lines.deep_view()),
{
    let ghost lv = lines.deep_view();
    let mut r: Vec<u8> = Vec::new();
    proof {
        assert(r@ =~= join_lines(lv.take(0)));
    }
    let mut k: usize = 0;
    while k < lines.len()
        invariant
            k <= lines@.len(),
            lv == lines.deep_view(),
            r@ == join_lines(lv.take(k as int)),
        decreases lines@.len() - k,
    {
        if k > 0 {
            r.push(10);
        }
        push_all(&mut r, lines[k].as_slice());
        proof {
            assert(lv[k as int] == lines@[k as int].deep_view());
            assert(lines@[k as int].deep_view() =~= lines@[k as int]@);
            let pre = lv.take(k + 1);
            assert(pre.drop_last() =~= lv.take(k as int));
            assert(pre.last() == lv[k as int]);
            if k == 0 {
                assert(join_lines(pre) == pre[0]);
                assert(r@ =~= join_lines(pre));
            } else {
                assert(join_lines(pre) == join_lines(lv.take(k as int)) + seq![10u8] + lv[
                    k as int
                ]);
                assert(r@ =~= join_lines(pre));
            }
        }
        k = k + 1;
    }
    proof {
        assert(lv.take(k as int) =~= lv);
    }
    r
}

/// Whether a line is all whitespace.
fn is_blank_line(l: &[u8]) -> (r: bool)
    ensures
        r == all_ws(l@),
{
    let mut k: usize = 0;
    while k < l.len()
        invariant
            k <= l@.len(),
            forall|i: int| 0 <= i < k ==> is_ws(#[trigger] l@[i]),
        decreases l@.len() - k,
    {
        if !is_ws_byte(l[k]) {
            proof {
                assert(!is_ws(l@[k as int]));
            }
            return false;
        }
        k = k + 1;
    }
    true
}

/// Candidate text of one line-indexed edit against `text`.
pub fn apply_line_edit_text(text: &[u8], op: LineEdit) -> (r: Result<Vec<u8>, EditError>)
    ensures
        match r {
            Ok(v) => line_edit_candidate(text@, op@) == Ok::<Seq<u8>, EditErrS>(v@),
            Err(e) => line_edit_candidate(text@, op@) == Err::<Seq<u8>, EditErrS>(e@),
        },
{
    let mut lines = split_into_lines(text);
    let ghost lv = lines.deep_view();
    match op {
        LineEdit::Replace { line, text: t } => {
            if 1 <= line && line <= lines.len() {
                let ghost tv = t@;
                let ghost before = lines;
                lines.remove(line - 1);
                let ghost mid = lines;
                lines.insert(line - 1, t);
                proof {
                    lemma_vec_remove_deep_view(before, mid, line - 1);
                    lemma_vec_insert_deep_view(mid, lines, line - 1, lines@[line - 1]);
                    assert(lines@[line - 1].deep_view() =~= tv);
                    assert(lines.deep_view() =~= lv.update(line - 1, tv));
                }
                Ok(normalize_exec(join_lines_exec(&lines)))
            } else {
                Err(EditError::OutOfRange { given: line, count: lines.len() })
            }
        },
        LineEdit::InsertAfter { line, text: t } => {
            if 1 <= line && line <= lines.len() {
                let ghost tv = t@;
                let ghost before = lines;
                lines.insert(line, t);
                proof {
                    lemma_vec_insert_deep_view(before, lines, line as int, lines@[line as int]);
                    assert(lines@[line as int].deep_view() =~= tv);
                }
                Ok(normalize_exec(join_lines_exec(&lines)))
            } else {
                Err(EditError::OutOfRange { given: line, count: lines.len() })
            }
        },
        LineEdit::Delete { line } => {
            if 1 <= line && line <= lines.len() {
                let ghost before = lines;
                lines.remove(line - 1);
                proof {
                    lemma_vec_remove_deep_view(before, lines, line - 1);
                }
                Ok(normalize_exec(join_lines_exec(&lines)))
            } else {
                Err(EditError::OutOfRange { given: line, count: lines.len() })
            }
        },
        LineEdit::Append { text: t } => {
            let ghost tv = t@;
            let needs_sep: bool = if lines.len() == 0 {
                false
            } else {
                !is_blank_line(lines[lines.len() - 1].as_slice())
            };
            proof {
                if lines@.len() > 0 {
                    assert(lv.last() == lines@[lines@.len() - 1].deep_view());
                    assert(lines@[lines@.len() - 1].deep_view() =~= lines@[lines@.len() - 1]@);
                }
            }
            if needs_sep {
                let ghost before = lines;
                lines.push(Vec::new());
                proof {
                    lemma_vec_push_deep_view(before, lines, lines@[lines@.len() - 1]);
                    assert(lines@[lines@.len() - 1].deep_view() =~= Seq::<u8>::empty());
                }
            }
            let ghost mid = lines;
            lines.push(t);
            proof {
                lemma_vec_push_deep_view(mid, lines, lines@[lines@.len() - 1]);
                assert(lines@[lines@.len() - 1].deep_view() =~= tv);
            }
            Ok(normalize_exec(join_lines_exec(&lines)))
        },
    }
}

/// Candidate text of a whole patch batch against `text`.
pub fn apply_patches_text(text: &[u8], ops: &Vec<PatchOp>) -> (r: Result<Vec<u8>, EditError>)
    ensures
        match r {
            Ok(v) => patch_candidate(text@, ops.deep_view()) == Ok::<Seq<u8>, EditErrS>(v@),
            Err(e) => patch_candidate(text@, ops.deep_view()) == Err::<Seq<u8>, EditErrS>(e@),
        },
{
    let ghost opsv = ops.deep_view();
    let mut t = copy_bytes(text);
    let mut k: usize = 0;
    while k < ops.len()
        invariant
            k <= ops@.len(),
            opsv == ops.deep_view(),
            apply_patches_upto(text@, opsv, k as int) == Ok::<Seq<u8>, EditErrS>(t@),
        decreases ops@.len() - k,
    {
        proof {
            assert(opsv[k as int] == ops@[k as int].deep_view());
        }
        match apply_one_patch_exec(t, &ops[k], k + 1) {
            Ok(v) => {
                t = v;
            },
            Err(e) => {
                proof {
                    assert(apply_patches_upto(text@, opsv, k + 1) == Err::<Seq<u8>, EditErrS>(e@));
                    lemma_patches_err_propagates(text@, opsv, k + 1, opsv.len() as int);
                }
                return Err(e);
            },
        }
        k = k + 1;
    }
    Ok(normalize_exec(t))
}

/// The stored document a collaborator edits: its whole text. Every change
/// passes the commit gate, so a stored text only ever moves to one that
/// validates without blocking errors.
pub struct DocumentStore {
    pub text: Vec<u8>,
}

impl DocumentStore {
    /// A store holding `text`.
    pub fn from_text(text: Vec<u8>) -> (s: DocumentStore)
        ensures
            s.text@ == text@,
    {
        DocumentStore { text }
    }

    /// Commit `cand` if it validates; otherwise keep the stored text.
    fn commit(&mut self, cand: Vec<u8>) -> (r: Result<Vec<Diagnostic>, EditError>)
        ensures
            ({
                let g = gated(old(self).text@, Ok(cand@));
                final(self).text@ == g.0 && (match r {
                    Ok(w) => g.1 == Ok::<Seq<DiagS>, EditErrS>(w.deep_view()),
                    Err(e) => g.1 == Err::<Seq<DiagS>, EditErrS>(e@),
                })
            }),
    {
        let vr = validate(cand.as_slice());
        if vr.errors.len() == 0 {
            self.text = cand;
            Ok(vr.warnings)
        } else {
            Err(EditError::Rejected { errors: vr.errors })
        }
    }

    /// Apply one line-indexed edit, all-or-nothing: on success the stored
    /// text becomes the validated candidate and the warnings are returned;
    /// on any error the stored text is byte-for-byte unchanged.
    pub fn apply_line_edit(&mut self, op: LineEdit) -> (r: Result<Vec<Diagnostic>, EditError>)
        ensures
            ({
                let g = gated(old(self).text@, line_edit_candidate(old(self).text@, op@));
                final(self).text@ == g.0 && (match r {
                    Ok(w) => g.1 == Ok::<Seq<DiagS>, EditErrS>(w.deep_view()),
                    Err(e) => g.1 == Err::<Seq<DiagS>, EditErrS>(e@),
                })
            }),
    {
        match apply_line_edit_text(self.text.as_slice(), op) {
            Ok(cand) => self.commit(cand),
            Err(e) => Err(e),
        }
    }

    /// Apply a patch batch, all-or-nothing: the patches apply sequentially
    /// to the evolving candidate, each `old_string` judged against the text
    /// as it stands at that moment; on success the stored text becomes the
    /// validated candidate and the warnings are returned; on any error the
    /// stored text is byte-for-byte unchanged.
    pub fn apply_patch(&mut self, ops: &Vec<PatchOp>) -> (r: Result<Vec<Diagnostic>, EditError>)
        ensures
            ({
                let g = gated(old(self).text@, patch_candidate(old(self).text@, ops.deep_view()));
                final(self).text@ == g.0 && (match r {
                    Ok(w) => g.1 == Ok::<Seq<DiagS>, EditErrS>(w.deep_view()),
                    Err(e) => g.1 == Err::<Seq<DiagS>, EditErrS>(e@),
                })
            }),
    {
        match apply_patches_text(self.text.as_slice(), ops) {
            Ok(cand) => self.commit(cand),
            Err(e) => Err(e),
        }
    }
}

} // verus!
