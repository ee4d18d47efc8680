//! Inline claim grammar: the residual text of a claim line is split on
//! top-level `|` (condition), `@` (source) and `&` (reference) delimiters,
//! while a bracketed `[<= ...]` region is atomic; the first segment carries
//! the claim text or a relation, suffix-fused modifiers, and an optional
//! trailing supersession marker.

use vstd::prelude::*;
use crate::bytes::{is_ws, trim, is_ws_byte, trim_range, subrange_vec, lemma_vec_push_deep_view};

verus! {

/// `|`, `@` or `&` at top level splits segments.
pub open spec fn is_delim(b: u8) -> bool {
    b == 124 || b == 64 || b == 38
}

/// A suffix-fused modifier byte: `^ v ! ? *`.
pub open spec fn is_mod_byte(b: u8) -> bool {
    b == 94 || b == 118 || b == 33 || b == 63 || b == 42
}

/// ASCII letter or digit.
pub open spec fn is_alnum(b: u8) -> bool {
    (48 <= b && b <= 57) || (65 <= b && b <= 90) || (97 <= b && b <= 122)
}

/// A `[<=` marker starts an atomic bracketed region at `i`.
pub open spec fn marker_at(s: Seq<u8>, i: int) -> bool {
    0 <= i && i + 3 <= s.len() && s[i] == 91 && s[i + 1] == 60 && s[i + 2] == 61
}

/// Position of the next top-level delimiter at or after `i` (`s.len()` when
/// none). `in_br` says whether `i` lies inside a bracketed region, which
/// runs to the next `]`.
pub open spec fn next_delim_from(s: Seq<u8>, i: int, in_br: bool) -> int
    decreases s.len() - i, 1int,
{
    if i >= s.len() {
        s.len() as int
    } else if in_br {
        next_delim_from(s, i + 1, s[i] != 93)
    } else if is_delim(s[i]) {
        i
    } else if marker_at(s, i) {
        next_delim_from(s, i + 1, true)
    } else {
        next_delim_from(s, i + 1, false)
    }
}

pub proof fn lemma_next_delim_ge(s: Seq<u8>, i: int, in_br: bool)
    ensures
        i <= next_delim_from(s, i, in_br) || s.len() < i,
        next_delim_from(s, i, in_br) <= s.len(),
    decreases s.len() - i,
{
    if i >= s.len() {
    } else if in_br {
        lemma_next_delim_ge(s, i + 1, s[i] != 93);
    } else if is_delim(s[i]) {
    } else if marker_at(s, i) {
        lemma_next_delim_ge(s, i + 1, true);
    } else {
        lemma_next_delim_ge(s, i + 1, false);
    }
}

/// Split `s[i..]` into segments at top-level delimiters: the segments in
/// order, and the delimiter byte that opened each segment after the first.
pub open spec fn split_body_from(s: Seq<u8>, i: int) -> (Seq<Seq<u8>>, Seq<u8>)
    decreases s.len() - i,
    via split_body_from_dec
{
    let j = next_delim_from(s, i, false);
    if j >= s.len() || j < i {
        (seq![s.subrange(i, s.len() as int)], Seq::empty())
    } else {
        let r = split_body_from(s, j + 1);
        (seq![s.subrange(i, j)] + r.0, seq![s[j]] + r.1)
    }
}

#[via_fn]
proof fn split_body_from_dec(s: Seq<u8>, i: int) {
    lemma_next_delim_ge(s, i, false);
}

/// Every split yields one more segment than delimiters, and at least one.
pub proof fn lemma_split_body_len(s: Seq<u8>, i: int)
    requires
        0 <= i <= s.len(),
    ensures
        split_body_from(s, i).0.len() == split_body_from(s, i).1.len() + 1,
        split_body_from(s, i).0.len() >= 1,
    decreases s.len() - i,
{
    lemma_next_delim_ge(s, i, false);
    let j = next_delim_from(s, i, false);
    if !(j >= s.len() || j < i) {
        lemma_split_body_len(s, j + 1);
    }
}

/// Rank of a delimiter in the fixed segment order
/// text, conditions (`|`), sources (`@`), references (`&`).
pub open spec fn delim_rank(b: u8) -> int {
    if b == 124 {
        1
    } else if b == 64 {
        2
    } else {
        3
    }
}

/// The delimiters appear in nondecreasing rank order.
pub open spec fn order_ok(dl: Seq<u8>) -> bool {
    forall|k: int| 0 <= k < dl.len() - 1 ==> delim_rank(dl[k]) <= delim_rank(#[trigger] dl[k + 1])
}

/// Rightmost `[<=` marker at or before `i` (`-1` when none).
pub open spec fn sup_marker_from(s: Seq<u8>, i: int) -> int
    decreases i + 1,
{
    if i < 0 {
        -1
    } else if marker_at(s, i) {
        i
    } else {
        sup_marker_from(s, i - 1)
    }
}

/// Start of the trailing supersession marker of a trimmed first segment:
/// the rightmost `[<=` when the segment ends with `]`, else `-1`.
pub open spec fn sup_marker(t: Seq<u8>) -> int {
    if t.len() >= 4 && t.last() == 93 {
        sup_marker_from(t, t.len() - 4)
    } else {
        -1
    }
}

/// End of the whitespace-delimited token starting at `i`.
pub open spec fn token_end(s: Seq<u8>, i: int) -> int
    decreases s.len() - i,
{
    if i >= s.len() || i < 0 {
        i
    } else if is_ws(s[i]) {
        i
    } else {
        token_end(s, i + 1)
    }
}

pub proof fn lemma_token_end_ge(s: Seq<u8>, i: int)
    requires
        0 <= i <= s.len(),
    ensures
        i <= token_end(s, i) <= s.len(),
        i < s.len() && !is_ws(s[i]) ==> i < token_end(s, i),
    decreases s.len() - i,
{
    if i < s.len() && !is_ws(s[i]) {
        lemma_token_end_ge(s, i + 1);
    }
}

/// The eight relation operator tokens: `=> <= <> >< ~ = vs //`.
pub open spec fn is_op(t: Seq<u8>) -> bool {
    t == seq![61u8, 62u8] || t == seq![60u8, 61u8] || t == seq![60u8, 62u8] || t == seq![
        62u8,
        60u8,
    ] || t == seq![126u8] || t == seq![61u8] || t == seq![118u8, 115u8] || t == seq![47u8, 47u8]
}

/// Leftmost standalone operator token of `s` at or after `i`:
/// its start and end, or `None`.
pub open spec fn find_op_from(s: Seq<u8>, i: int) -> Option<(int, int)>
    decreases s.len() - i,
    via find_op_from_dec
{
    if i >= s.len() || i < 0 {
        None
    } else if is_ws(s[i]) {
        find_op_from(s, i + 1)
    } else {
        let e = token_end(s, i);
        if is_op(s.subrange(i, e)) {
            Some((i, e))
        } else {
            find_op_from(s, e)
        }
    }
}

#[via_fn]
proof fn find_op_from_dec(s: Seq<u8>, i: int) {
    if 0 <= i < s.len() && !is_ws(s[i]) {
        lemma_token_end_ge(s, i);
    }
}

/// The set of modifiers a claim carries.
#[derive(PartialEq, Eq, Structural, Clone, Copy, Debug)]
pub struct Modifiers {
    /// `^`: increasing, trending up.
    pub increasing: bool,
    /// `v`: decreasing, trending down.
    pub decreasing: bool,
    /// `!`: strong, emphatic.
    pub strong: bool,
    /// `?`: uncertain, contested.
    pub uncertain: bool,
    /// `*`: notable, flagged.
    pub notable: bool,
}

/// No modifiers.
pub open spec fn mods_none() -> Modifiers {
    Modifiers {
        increasing: false,
        decreasing: false,
        strong: false,
        uncertain: false,
        notable: false,
    }
}

/// `m` with the modifier written `b` set.
pub open spec fn with_mod(m: Modifiers, b: u8) -> Modifiers {
    Modifiers {
        increasing: m.increasing || b == 94,
        decreasing: m.decreasing || b == 118,
        strong: m.strong || b == 33,
        uncertain: m.uncertain || b == 63,
        notable: m.notable || b == 42,
    }
}

/// Strip stacked suffix-fused modifiers from the end of a trimmed segment:
/// the remaining text, the modifier set, and whether a trailing `v` fused to
/// a letter or digit forced a recoverable guess.
pub open spec fn strip_mods(base: Seq<u8>) -> (Seq<u8>, Modifiers, bool)
    decreases base.len(),
{
    if base.len() >= 2 && is_mod_byte(base.last()) && !is_ws(base[base.len() - 2]) {
        let r = strip_mods(base.drop_last());
        (
            r.0,
            with_mod(r.1, base.last()),
            r.2 || (base.last() == 118 && is_alnum(base[base.len() - 2])),
        )
    } else {
        (base, mods_none(), false)
    }
}

/// First occurrence of byte `b` in `s` at or after `i` (`s.len()` when none).
pub open spec fn find_byte_from(s: Seq<u8>, i: int, b: u8) -> int
    decreases s.len() - i,
{
    if i >= s.len() || i < 0 {
        s.len() as int
    } else if s[i] == b {
        i
    } else {
        find_byte_from(s, i + 1, b)
    }
}

pub proof fn lemma_find_byte_from_bounds(s: Seq<u8>, i: int, b: u8)
    requires
        0 <= i <= s.len(),
    ensures
        i <= find_byte_from(s, i, b) <= s.len(),
        find_byte_from(s, i, b) < s.len() ==> s[find_byte_from(s, i, b)] == b,
    decreases s.len() - i,
{
    if i < s.len() && s[i] != b {
        lemma_find_byte_from_bounds(s, i + 1, b);
    }
}

/// Mathematical model of a reference: a concept name and a facet name.
pub struct RefS {
    pub concept: Seq<u8>,
    pub facet: Seq<u8>,
}

/// A reference segment parses as `identifier.identifier`, split at the
/// first dot, both sides trimmed and nonempty.
pub open spec fn parse_ref(t: Seq<u8>) -> Option<RefS> {
    let dot = find_byte_from(t, 0, 46);
    if dot >= t.len() {
        None
    } else {
        let c = trim(t.take(dot));
        let f = trim(t.skip(dot + 1));
        if c.len() == 0 || f.len() == 0 {
            None
        } else {
            Some(RefS { concept: c, facet: f })
        }
    }
}

/// Mathematical model of a parsed relation.
pub struct RelationS {
    pub op: Seq<u8>,
    pub left: Seq<u8>,
    pub right: Seq<u8>,
}

/// Mathematical model of a claim's first segment: free text or a relation.
pub enum ContentS {
    Text(Seq<u8>),
    Relation(RelationS),
}

/// Conditions, sources, references and bad reference segments collected
/// from the segments after the first, in order.
pub struct CollectS {
    pub conditions: Seq<Seq<u8>>,
    pub sources: Seq<Seq<u8>>,
    pub references: Seq<RefS>,
    pub bad_refs: Seq<Seq<u8>>,
}

pub open spec fn collect_none() -> CollectS {
    CollectS {
        conditions: Seq::empty(),
        sources: Seq::empty(),
        references: Seq::empty(),
        bad_refs: Seq::empty(),
    }
}

/// Collect segments `1..k`, each tagged by the delimiter that opened it.
pub open spec fn collect_items(segs: Seq<Seq<u8>>, dl: Seq<u8>, k: int) -> CollectS
    decreases k,
{
    if k <= 1 {
        collect_none()
    } else {
        let c = collect_items(segs, dl, k - 1);
        let t = trim(segs[k - 1]);
        let d = dl[k - 2];
        if d == 124 {
            CollectS {
                conditions: c.conditions.push(t),
                sources: c.sources,
                references: c.references,
                bad_refs: c.bad_refs,
            }
        } else if d == 64 {
            CollectS {
                conditions: c.conditions,
                sources: c.sources.push(t),
                references: c.references,
                bad_refs: c.bad_refs,
            }
        } else {
            match parse_ref(t) {
                Some(r) => CollectS {
                    conditions: c.conditions,
                    sources: c.sources,
                    references: c.references.push(r),
                    bad_refs: c.bad_refs,
                },
                None => CollectS {
                    conditions: c.conditions,
                    sources: c.sources,
                    references: c.references,
                    bad_refs: c.bad_refs.push(t),
                },
            }
        }
    }
}

/// Mathematical model of a fully parsed claim body.
pub struct InlineS {
    /// False exactly when the segment order is violated: the whole body is
    /// a malformed-inline-syntax error.
    pub ok: bool,
    pub content: ContentS,
    pub conditions: Seq<Seq<u8>>,
    pub sources: Seq<Seq<u8>>,
    pub references: Seq<RefS>,
    pub modifiers: Modifiers,
    pub supersedes: Option<Seq<u8>>,
    /// Trimmed reference segments that are not `identifier.identifier`,
    /// each a malformed-reference error.
    pub bad_refs: Seq<Seq<u8>>,
    /// The text segment is empty: an advisory warning.
    pub empty_text: bool,
    /// A trailing `v` fused to a letter or digit was read as a modifier:
    /// an advisory warning.
    pub ambiguous: bool,
}

pub open spec fn inline_failed() -> InlineS {
    InlineS {
        ok: false,
        content: ContentS::Text(Seq::empty()),
        conditions: Seq::empty(),
        sources: Seq::empty(),
        references: Seq::empty(),
        modifiers: mods_none(),
        supersedes: None,
        bad_refs: Seq::empty(),
        empty_text: false,
        ambiguous: false,
    }
}

/// Full parse of a claim body: split into segments, check the segment
/// order, take a trailing supersession marker off the first segment, detect
/// a relation, strip modifiers, and collect conditions, sources and
/// references.
pub open spec fn parse_claim_spec(body: Seq<u8>) -> InlineS {
    let sd = split_body_from(body, 0);
    let segs = sd.0;
    let dl = sd.1;
    if !order_ok(dl) {
        inline_failed()
    } else {
        let t0 = trim(segs[0]);
        let m = sup_marker(t0);
        let sup: Option<Seq<u8>> = if m >= 0 {
            Some(trim(t0.subrange(m + 3, t0.len() - 1)))
        } else {
            None
        };
        let tx = if m >= 0 {
            trim(t0.take(m))
        } else {
            t0
        };
        let c = collect_items(segs, dl, segs.len() as int);
        match find_op_from(tx, 0) {
            Some(be) => {
                let r = strip_mods(trim(tx.skip(be.1)));
                InlineS {
                    ok: true,
                    content: ContentS::Relation(
                        RelationS {
                            op: tx.subrange(be.0, be.1),
                            left: trim(tx.take(be.0)),
                            right: r.0,
                        },
                    ),
                    conditions: c.conditions,
                    sources: c.sources,
                    references: c.references,
                    modifiers: r.1,
                    supersedes: sup,
                    bad_refs: c.bad_refs,
                    empty_text: false,
                    ambiguous: r.2,
                }
            },
            None => {
                let r = strip_mods(tx);
                InlineS {
                    ok: true,
                    content: ContentS::Text(r.0),
                    conditions: c.conditions,
                    sources: c.sources,
                    references: c.references,
                    modifiers: r.1,
                    supersedes: sup,
                    bad_refs: c.bad_refs,
                    empty_text: r.0.len() == 0,
                    ambiguous: r.2,
                }
            },
        }
    }
}

/// A parsed relation: a two-argument operator between two terms.
pub struct Relation {
    pub op: Vec<u8>,
    pub left: Vec<u8>,
    pub right: Vec<u8>,
}

impl View for Relation {
    type V = RelationS;

    open spec fn view(&self) -> RelationS {
        RelationS { op: self.op@, left: self.left@, right: self.right@ }
    }
}

/// First segment of a claim: free text or a relation.
pub enum ClaimContent {
    Text(Vec<u8>),
    Relation(Relation),
}

impl View for ClaimContent {
    type V = ContentS;

    open spec fn view(&self) -> ContentS {
        match self {
            ClaimContent::Text(t) => ContentS::Text(t@),
            ClaimContent::Relation(r) => ContentS::Relation(r@),
        }
    }
}

/// A reference to another concept's facet, by name.
pub struct ClaimRef {
    pub concept: Vec<u8>,
    pub facet: Vec<u8>,
}

impl View for ClaimRef {
    type V = RefS;

    open spec fn view(&self) -> RefS {
        RefS { concept: self.concept@, facet: self.facet@ }
    }
}

impl DeepView for ClaimRef {
    type V = RefS;

    open spec fn deep_view(&self) -> RefS {
        self@
    }
}

/// Outcome of parsing one claim body.
pub struct InlineOutcome {
    pub ok: bool,
    pub content: ClaimContent,
    pub conditions: Vec<Vec<u8>>,
    pub sources: Vec<Vec<u8>>,
    pub references: Vec<ClaimRef>,
    pub modifiers: Modifiers,
    pub supersedes: Option<Vec<u8>>,
    pub bad_refs: Vec<Vec<u8>>,
    pub empty_text: bool,
    pub ambiguous: bool,
}

impl View for InlineOutcome {
    type V = InlineS;

    open spec fn view(&self) -> InlineS {
        InlineS {
            ok: self.ok,
            content: self.content@,
            conditions: self.conditions.deep_view(),
            sources: self.sources.deep_view(),
            references: self.references.deep_view(),
            modifiers: self.modifiers,
            supersedes: match self.supersedes {
                Some(s) => Some(s@),
                None => None,
            },
            bad_refs: self.bad_refs.deep_view(),
            empty_text: self.empty_text,
            ambiguous: self.ambiguous,
        }
    }
}

/// Whether `b` is a modifier byte.
fn is_mod_byte_exec(b: u8) -> (r: bool)
    ensures
        r == is_mod_byte(b),
{
    b == 94 || b == 118 || b == 33 || b == 63 || b == 42
}

/// Whether `b` is an ASCII letter or digit.
fn is_alnum_byte(b: u8) -> (r: bool)
    ensures
        r == is_alnum(b),
{
    (48 <= b && b <= 57) || (65 <= b && b <= 90) || (97 <= b && b <= 122)
}

/// Position of the next top-level delimiter at or after `i`.
fn scan_next_delim(s: &[u8], i: usize) -> (j: usize)
    requires
        i <= s@.len(),
    ensures
        j as int == next_delim_from(s@, i as int, false),
        i <= j <= s@.len(),
{
    proof {
        lemma_next_delim_ge(s@, i as int, false);
    }
    let mut j: usize = i;
    let mut br: bool = false;
    while j < s.len()
        invariant
            i <= j <= s@.len(),
            next_delim_from(s@, i as int, false) == next_delim_from(s@, j as int, br),
        decreases s@.len() - j,
    {
        let b = s[j];
        if br {
            br = b != 93;
            j = j + 1;
        } else if b == 124 || b == 64 || b == 38 {
            proof {
                lemma_next_delim_ge(s@, i as int, false);
            }
            return j;
        } else if b == 91 && s.len() - j > 3 && s[j + 1] == 60 && s[j + 2] == 61 {
            br = true;
            j = j + 1;
        } else {
            proof {
                assert(!marker_at(s@, j as int) || next_delim_from(s@, j as int, false)
                    == next_delim_from(s@, j + 1, true));
            }
            br = if b == 91 && s.len() - j == 3 {
                s[j + 1] == 60 && s[j + 2] == 61
            } else {
                false
            };
            j = j + 1;
        }
    }
    j
}

/// Split a claim body into its raw segments and delimiters.
fn split_segments(body: &[u8]) -> (r: (Vec<Vec<u8>>, Vec<u8>))
    ensures
        r.0.deep_view() == split_body_from(body@, 0).0,
        r.1@ == split_body_from(body@, 0).1,
        r.0@.len() == r.1@.len() + 1,
{
    proof {
        lemma_split_body_len(body@, 0);
    }
    let mut segs: Vec<Vec<u8>> = Vec::new();
    let mut dl: Vec<u8> = Vec::new();
    let mut start: usize = 0;
    let mut fin: bool = false;
    while !fin
        invariant
            start <= body@.len(),
            !fin ==> split_body_from(body@, 0).0 == segs.deep_view() + split_body_from(
                body@,
                start as int,
            ).0,
            !fin ==> split_body_from(body@, 0).1 == dl@ + split_body_from(body@, start as int).1,
            fin ==> split_body_from(body@, 0).0 == segs.deep_view(),
            fin ==> split_body_from(body@, 0).1 == dl@,
            segs@.len() == dl@.len() + if fin {
                1int
            } else {
                0int
            },
        decreases body@.len() - start + if fin {
            0int
        } else {
            1int
        },
    {
        let ghost segs_prev = segs;
        let ghost dl_prev = dl@;
        let ghost tail = split_body_from(body@, start as int);
        let j = scan_next_delim(body, start);
        let seg = subrange_vec(body, start, j);
        let ghost segv = seg@;
        segs.push(seg);
        proof {
            lemma_vec_push_deep_view(segs_prev, segs, segs@[segs@.len() - 1]);
            assert(segs@[segs@.len() - 1].deep_view() =~= segv);
        }
        if j < body.len() {
            dl.push(body[j]);
            start = j + 1;
            proof {
                let rest = split_body_from(body@, start as int);
                assert(tail.0 == seq![segv] + rest.0);
                assert(tail.1 == seq![body@[j as int]] + rest.1);
                assert(segs.deep_view() =~= segs_prev.deep_view().push(segv));
                assert(segs.deep_view() + rest.0 =~= segs_prev.deep_view() + tail.0);
                assert(dl@ + rest.1 =~= dl_prev + tail.1);
            }
        } else {
            fin = true;
            proof {
                assert(tail.0 == seq![segv]);
                assert(tail.1 =~= Seq::<u8>::empty());
                assert(segs.deep_view() =~= segs_prev.deep_view() + tail.0);
                assert(dl@ =~= dl_prev + tail.1);
            }
        }
    }
    (segs, dl)
}

/// Rank of a delimiter for the order check.
fn delim_rank_exec(b: u8) -> (r: usize)
    ensures
        r as int == delim_rank(b),
{
    if b == 124 {
        1
    } else if b == 64 {
        2
    } else {
        3
    }
}

/// Whether the delimiters respect the fixed segment order.
fn check_order(dl: &Vec<u8>) -> (r: bool)
    ensures
        r == order_ok(dl@),
{
    if dl.len() == 0 {
        return true;
    }
    let mut k: usize = 0;
    while k < dl.len() - 1
        invariant
            dl@.len() >= 1,
            k <= dl@.len(),
            forall|q: int| 0 <= q < k ==> delim_rank(dl@[q]) <= delim_rank(#[trigger] dl@[q + 1]),
        decreases dl@.len() - k,
    {
        if delim_rank_exec(dl[k]) > delim_rank_exec(dl[k + 1]) {
            return false;
        }
        k = k + 1;
    }
    true
}

/// Start of a trailing supersession marker, when the segment has one.
fn find_sup_marker(t: &[u8]) -> (r: Option<usize>)
    ensures
        match r {
            Some(m) => sup_marker(t@) == m as int,
            None => sup_marker(t@) == -1,
        },
{
    if t.len() < 4 || t[t.len() - 1] != 93 {
        return None;
    }
    let mut m: usize = t.len() - 4;
    loop
        invariant
            m <= t@.len() - 4,
            t@.len() >= 4,
            t@.last() == 93,
            sup_marker_from(t@, t@.len() - 4) == sup_marker_from(t@, m as int),
        decreases m,
    {
        if t[m] == 91 && t[m + 1] == 60 && t[m + 2] == 61 {
            return Some(m);
        }
        if m == 0 {
            proof {
                assert(sup_marker_from(t@, -1) == -1);
            }
            return None;
        }
        m = m - 1;
    }
}

/// End of the token starting at `i`.
fn scan_token_end(s: &[u8], i: usize) -> (e: usize)
    requires
        i <= s@.len(),
    ensures
        e as int == token_end(s@, i as int),
        i <= e <= s@.len(),
{
    let mut e: usize = i;
    while e < s.len() && !is_ws_byte(s[e])
        invariant
            i <= e <= s@.len(),
            token_end(s@, i as int) == token_end(s@, e as int),
        decreases s@.len() - e,
    {
        e = e + 1;
    }
    e
}

/// Whether `t` is one of the eight operator tokens.
fn is_op_token(t: &[u8]) -> (r: bool)
    ensures
        r == is_op(t@),
{
    if t.len() == 1 {
        let b = t[0];
        let r = b == 126 || b == 61;
        proof {
            if b == 126 {
                assert(t@ =~= seq![126u8]);
            }
            if b == 61 {
                assert(t@ =~= seq![61u8]);
            }
        }
        r
    } else if t.len() == 2 {
        let a = t[0];
        let b = t[1];
        let r = (a == 61 && b == 62) || (a == 60 && b == 61) || (a == 60 && b == 62) || (a == 62
            && b == 60) || (a == 118 && b == 115) || (a == 47 && b == 47);
        proof {
            if a == 61 && b == 62 {
                assert(t@ =~= seq![61u8, 62u8]);
            }
            if a == 60 && b == 61 {
                assert(t@ =~= seq![60u8, 61u8]);
            }
            if a == 60 && b == 62 {
                assert(t@ =~= seq![60u8, 62u8]);
            }
            if a == 62 && b == 60 {
                assert(t@ =~= seq![62u8, 60u8]);
            }
            if a == 118 && b == 115 {
                assert(t@ =~= seq![118u8, 115u8]);
            }
            if a == 47 && b == 47 {
                assert(t@ =~= seq![47u8, 47u8]);
            }
        }
        r
    } else {
        false
    }
}

/// Leftmost standalone operator token of `tx`.
fn find_op(tx: &[u8]) -> (r: Option<(usize, usize)>)
    ensures
        match r {
            Some(be) => find_op_from(tx@, 0) == Some((be.0 as int, be.1 as int)) && be.0 <= be.1
                <= tx@.len(),
            None => find_op_from(tx@, 0) is None,
        },
{
    let mut i: usize = 0;
    while i < tx.len()
        invariant
            i <= tx@.len(),
            find_op_from(tx@, 0) == find_op_from(tx@, i as int),
        decreases tx@.len() - i,
    {
        if is_ws_byte(tx[i]) {
            i = i + 1;
        } else {
            let e = scan_token_end(tx, i);
            proof {
                lemma_token_end_ge(tx@, i as int);
            }
            let tok = subrange_vec(tx, i, e);
            if is_op_token(tok.as_slice()) {
                return Some((i, e));
            }
            i = e;
        }
    }
    None
}

/// Set the modifier written `b`.
fn apply_mod(m: Modifiers, b: u8) -> (r: Modifiers)
    ensures
        r == with_mod(m, b),
{
    Modifiers {
        increasing: m.increasing || b == 94,
        decreasing: m.decreasing || b == 118,
        strong: m.strong || b == 33,
        uncertain: m.uncertain || b == 63,
        notable: m.notable || b == 42,
    }
}

/// Fieldwise union of two modifier sets.
spec fn mods_or(a: Modifiers, b: Modifiers) -> Modifiers {
    Modifiers {
        increasing: a.increasing || b.increasing,
        decreasing: a.decreasing || b.decreasing,
        strong: a.strong || b.strong,
        uncertain: a.uncertain || b.uncertain,
        notable: a.notable || b.notable,
    }
}

/// Strip stacked suffix-fused modifiers from the end of `base`.
fn strip_mods_exec(base: &[u8]) -> (r: (Vec<u8>, Modifiers, bool))
    ensures
        r.0@ == strip_mods(base@).0,
        r.1 == strip_mods(base@).1,
        r.2 == strip_mods(base@).2,
{
    let mut e: usize = base.len();
    let mut m = Modifiers {
        increasing: false,
        decreasing: false,
        strong: false,
        uncertain: false,
        notable: false,
    };
    let mut warn: bool = false;
    proof {
        assert(base@.take(e as int) =~= base@);
        assert(m == mods_none());
    }
    while e >= 2 && is_mod_byte_exec(base[e - 1]) && !is_ws_byte(base[e - 2])
        invariant
            e <= base@.len(),
            strip_mods(base@).0 == strip_mods(base@.take(e as int)).0,
            strip_mods(base@).1 == mods_or(strip_mods(base@.take(e as int)).1, m),
            strip_mods(base@).2 == (strip_mods(base@.take(e as int)).2 || warn),
        decreases e,
    {
        let ghost pre = base@.take(e as int);
        proof {
            assert(pre.last() == base@[e - 1]);
            assert(pre[pre.len() - 2] == base@[e - 2]);
            assert(pre.drop_last() =~= base@.take(e - 1));
        }
        let b = base[e - 1];
        warn = warn || (b == 118 && is_alnum_byte(base[e - 2]));
        m = apply_mod(m, b);
        e = e - 1;
    }
    proof {
        let pre = base@.take(e as int);
        if e >= 2 {
            assert(pre.last() == base@[e - 1]);
            assert(pre[pre.len() - 2] == base@[e - 2]);
        }
        assert(strip_mods(pre).0 == pre);
        assert(strip_mods(pre).1 == mods_none());
        assert(strip_mods(pre).2 == false);
    }
    let text = subrange_vec(base, 0, e);
    proof {
        assert(base@.subrange(0, e as int) =~= base@.take(e as int));
    }
    (text, m, warn)
}

/// First occurrence of `b` in `s` at or after `i`.
pub fn find_byte_at(s: &[u8], i: usize, b: u8) -> (r: usize)
    requires
        i <= s@.len(),
    ensures
        r as int == find_byte_from(s@, i as int, b),
        i <= r <= s@.len(),
{
    let mut k: usize = i;
    while k < s.len()
        invariant
            i <= k <= s@.len(),
            find_byte_from(s@, i as int, b) == find_byte_from(s@, k as int, b),
        decreases s@.len() - k,
    {
        if s[k] == b {
            return k;
        }
        k = k + 1;
    }
    k
}

/// Parse one reference segment as `identifier.identifier`.
fn parse_ref_exec(t: &[u8]) -> (r: Option<ClaimRef>)
    ensures
        match r {
            Some(cr) => parse_ref(t@) == Some(cr@),
            None => parse_ref(t@) is None,
        },
{
    let dot = find_byte_at(t, 0, 46);
    if dot >= t.len() {
        return None;
    }
    let c = trim_range(t, 0, dot);
    let f = trim_range(t, dot + 1, t.len());
    proof {
        assert(t@.subrange(0, dot as int) =~= t@.take(dot as int));
        assert(t@.subrange(dot + 1, t@.len() as int) =~= t@.skip(dot + 1));
    }
    if c.len() == 0 || f.len() == 0 {
        return None;
    }
    Some(ClaimRef { concept: c, facet: f })
}

/// Parse a claim body against the inline grammar.
pub fn parse_claim_body(body: &[u8]) -> (r: InlineOutcome)
    ensures
        r@ == parse_claim_spec(body@),
{
    let ghost specr = parse_claim_spec(body@);
    let (segs, dl) = split_segments(body);
    if !check_order(&dl) {
        let r = InlineOutcome {
            ok: false,
            content: ClaimContent::Text(Vec::new()),
            conditions: Vec::new(),
            sources: Vec::new(),
            references: Vec::new(),
            modifiers: Modifiers {
                increasing: false,
                decreasing: false,
                strong: false,
                uncertain: false,
                notable: false,
            },
            supersedes: None,
            bad_refs: Vec::new(),
            empty_text: false,
            ambiguous: false,
        };
        proof {
            assert(r.conditions.deep_view() =~= Seq::<Seq<u8>>::empty());
            assert(r.sources.deep_view() =~= Seq::<Seq<u8>>::empty());
            assert(r.references.deep_view() =~= Seq::<RefS>::empty());
            assert(r.bad_refs.deep_view() =~= Seq::<Seq<u8>>::empty());
            assert(r@.content == ContentS::Text(Seq::<u8>::empty()));
        }
        return r;
    }
    let seg0 = &segs[0];
    proof {
        assert(segs.deep_view()[0] == segs@[0]@);
    }
    let t0 = trim_range(seg0.as_slice(), 0, seg0.len());
    proof {
        assert(seg0@.subrange(0, seg0@.len() as int) =~= seg0@);
    }
    let (sup, tx): (Option<Vec<u8>>, Vec<u8>) = match find_sup_marker(t0.as_slice()) {
        Some(m) => {
            proof {
                lemma_sup_marker_props(t0@);
                assert(t0@.len() >= 4);
                assert(m + 4 <= t0@.len());
            }
            let sv = trim_range(t0.as_slice(), m + 3, t0.len() - 1);
            let txv = trim_range(t0.as_slice(), 0, m);
            proof {
                assert(t0@.subrange(0, m as int) =~= t0@.take(m as int));
            }
            (Some(sv), txv)
        },
        None => (None, t0),
    };
    let (content, modifiers, ambiguous, empty_text): (ClaimContent, Modifiers, bool, bool) =
        match find_op(tx.as_slice()) {
        Some((b, e)) => {
            let right_raw = trim_range(tx.as_slice(), e, tx.len());
            proof {
                assert(tx@.subrange(e as int, tx@.len() as int) =~= tx@.skip(e as int));
            }
            let (rt, mods, warn) = strip_mods_exec(right_raw.as_slice());
            let op = subrange_vec(tx.as_slice(), b, e);
            let left = trim_range(tx.as_slice(), 0, b);
            proof {
                assert(tx@.subrange(0, b as int) =~= tx@.take(b as int));
            }
            (ClaimContent::Relation(Relation { op, left, right: rt }), mods, warn, false)
        },
        None => {
            let (t, mods, warn) = strip_mods_exec(tx.as_slice());
            let empty = t.len() == 0;
            (ClaimContent::Text(t), mods, warn, empty)
        },
    };
    let mut conditions: Vec<Vec<u8>> = Vec::new();
    let mut sources: Vec<Vec<u8>> = Vec::new();
    let mut references: Vec<ClaimRef> = Vec::new();
    let mut bad_refs: Vec<Vec<u8>> = Vec::new();
    let ghost sv = segs.deep_view();
    let ghost dv = dl@;
    proof {
        assert(conditions.deep_view() =~= Seq::<Seq<u8>>::empty());
        assert(sources.deep_view() =~= Seq::<Seq<u8>>::empty());
        assert(references.deep_view() =~= Seq::<RefS>::empty());
        assert(bad_refs.deep_view() =~= Seq::<Seq<u8>>::empty());
    }
    let mut k: usize = 1;
    while k < segs.len()
        invariant
            1 <= k <= segs@.len(),
            segs@.len() == dl@.len() + 1,
            sv == segs.deep_view(),
            dv == dl@,
            conditions.deep_view() == collect_items(sv, dv, k as int).conditions,
            sources.deep_view() == collect_items(sv, dv, k as int).sources,
            references.deep_view() == collect_items(sv, dv, k as int).references,
            bad_refs.deep_view() == collect_items(sv, dv, k as int).bad_refs,
        decreases segs@.len() - k,
    {
        let seg = &segs[k];
        proof {
            assert(sv[k as int] == segs@[k as int].deep_view());
            assert(segs@[k as int].deep_view() =~= segs@[k as int]@);
        }
        let t = trim_range(seg.as_slice(), 0, seg.len());
        proof {
            assert(seg@.subrange(0, seg@.len() as int) =~= seg@);
        }
        let ghost tg = t@;
        proof {
            assert(tg == trim(sv[k as int]));
        }
        let d = dl[k - 1];
        if d == 124 {
            let ghost prev = conditions;
            conditions.push(t);
            proof {
                lemma_vec_push_deep_view(prev, conditions, conditions@[conditions@.len() - 1]);
                assert(conditions@[conditions@.len() - 1].deep_view() =~= tg);
                assert(conditions.deep_view() == prev.deep_view().push(tg));
            }
        } else if d == 64 {
            let ghost prev = sources;
            sources.push(t);
            proof {
                lemma_vec_push_deep_view(prev, sources, sources@[sources@.len() - 1]);
                assert(sources@[sources@.len() - 1].deep_view() =~= tg);
                assert(sources.deep_view() == prev.deep_view().push(tg));
            }
        } else {
            match parse_ref_exec(t.as_slice()) {
                Some(cr) => {
                    let ghost crv = cr@;
                    let ghost prev = references;
                    references.push(cr);
                    proof {
                        lemma_vec_push_deep_view(
                            prev,
                            references,
                            references@[references@.len() - 1],
                        );
                        assert(references@[references@.len() - 1].deep_view() == crv);
                        assert(references.deep_view() == prev.deep_view().push(crv));
                    }
                },
                None => {
                    let ghost prev = bad_refs;
                    bad_refs.push(t);
                    proof {
                        lemma_vec_push_deep_view(prev, bad_refs, bad_refs@[bad_refs@.len() - 1]);
                        assert(bad_refs@[bad_refs@.len() - 1].deep_view() =~= tg);
                        assert(bad_refs.deep_view() == prev.deep_view().push(tg));
                    }
                },
            }
        }
        k = k + 1;
    }
    InlineOutcome {
        ok: true,
        content,
        conditions,
        sources,
        references,
        modifiers,
        supersedes: sup,
        bad_refs,
        empty_text,
        ambiguous,
    }
}

/// A found supersession marker sits before the closing bracket.
pub proof fn lemma_sup_marker_props(t: Seq<u8>)
    ensures
        sup_marker(t) >= 0 ==> marker_at(t, sup_marker(t)) && t.len() >= 4 && sup_marker(t)
            <= t.len() - 4,
{
    if t.len() >= 4 && t.last() == 93 {
        lemma_sup_marker_from_props(t, t.len() - 4);
    }
}

proof fn lemma_sup_marker_from_props(t: Seq<u8>, i: int)
    requires
        i <= t.len() - 4,
    ensures
        sup_marker_from(t, i) >= 0 ==> marker_at(t, sup_marker_from(t, i)) && sup_marker_from(t, i)
            <= i,
    decreases i + 1,
{
    if i >= 0 && !marker_at(t, i) {
        lemma_sup_marker_from_props(t, i - 1);
    }
}

} // verus!
