//! The longest-common-subsequence engine: computing an edit distance and a
//! common subsequence of two strings, and merging the two strings against
//! that common subsequence into an ordered list of Same / Add / Rem segments.

use vstd::prelude::*;
use vstd::string::{StrSliceExecFns, StringExecFns};
use crate::SplitType;
use crate::tokenize::{
    char_tokens, join_tokens, join_with, lcs_tokens, lemma_join_char_tokens,
    lemma_join_smart_tokens, lemma_join_split_on, merge_split, merge_tokens, sep_of, strsplit,
    MAX_TEXT_LEN,
};

verus! {

/// One segment of a computed difference: text common to both inputs, text
/// only in the edited input, or text only in the original input.
#[derive(Debug, Clone, PartialEq)]
pub enum Difference {
    Same(String),
    Add(String),
    Rem(String),
}

/// The mathematical value of a segment: its tag and its text.
pub enum SegView {
    Same(Seq<char>),
    Add(Seq<char>),
    Rem(Seq<char>),
}

impl View for Difference {
    type V = SegView;

    open spec fn view(&self) -> SegView {
        match self {
            Difference::Same(s) => SegView::Same(s@),
            Difference::Add(s) => SegView::Add(s@),
            Difference::Rem(s) => SegView::Rem(s@),
        }
    }
}

impl DeepView for Difference {
    type V = SegView;

    open spec fn deep_view(&self) -> SegView {
        self.view()
    }
}

// ---------------------------------------------------------------------------
// Subsequences of token lists.
// ---------------------------------------------------------------------------

/// Whether `xs` occurs inside `ys` in order (not necessarily contiguously).
pub open spec fn is_subseq(xs: Seq<Seq<char>>, ys: Seq<Seq<char>>) -> bool
    decreases xs.len() + ys.len(),
{
    if xs.len() == 0 {
        true
    } else if ys.len() == 0 {
        false
    } else if xs[0] == ys[0] {
        is_subseq(xs.drop_first(), ys.drop_first())
    } else {
        is_subseq(xs, ys.drop_first())
    }
}

/// A subsequence never outgrows the sequence it sits in.
pub proof fn lemma_subseq_len(xs: Seq<Seq<char>>, ys: Seq<Seq<char>>)
    requires
        is_subseq(xs, ys),
    ensures
        xs.len() <= ys.len(),
    decreases xs.len() + ys.len(),
{
    if xs.len() == 0 {
    } else if xs[0] == ys[0] {
        lemma_subseq_len(xs.drop_first(), ys.drop_first());
    } else {
        lemma_subseq_len(xs, ys.drop_first());
    }
}

/// Dropping the head of a subsequence keeps it a subsequence.
pub proof fn lemma_subseq_drop_left(xs: Seq<Seq<char>>, ys: Seq<Seq<char>>)
    requires
        is_subseq(xs, ys),
        xs.len() > 0,
    ensures
        is_subseq(xs.drop_first(), ys),
    decreases xs.len() + ys.len(), 0int,
{
    if ys.len() == 0 {
    } else if xs[0] == ys[0] {
        lemma_subseq_widen_right(xs.drop_first(), ys.drop_first(), ys[0]);
        assert(seq![ys[0]].add(ys.drop_first()) =~~= ys);
    } else {
        lemma_subseq_drop_left(xs, ys.drop_first());
        lemma_subseq_widen_right(xs.drop_first(), ys.drop_first(), ys[0]);
        assert(seq![ys[0]].add(ys.drop_first()) =~~= ys);
    }
}

/// Prepending to the enclosing sequence keeps a subsequence a subsequence.
pub proof fn lemma_subseq_widen_right(xs: Seq<Seq<char>>, ys: Seq<Seq<char>>, e: Seq<char>)
    requires
        is_subseq(xs, ys),
    ensures
        is_subseq(xs, seq![e].add(ys)),
    decreases xs.len() + ys.len(), 1int,
{
    let w = seq![e].add(ys);
    assert(w.drop_first() =~~= ys);
    if xs.len() == 0 {
    } else if xs[0] == e {
        if xs.len() > 0 {
            lemma_subseq_drop_left(xs, ys);
        }
    } else {
    }
}

/// Every element of a subsequence occurs in the enclosing sequence.
pub proof fn lemma_subseq_contains(xs: Seq<Seq<char>>, ys: Seq<Seq<char>>)
    requires
        is_subseq(xs, ys),
    ensures
        forall|k: int| 0 <= k < xs.len() ==> ys.contains(#[trigger] xs[k]),
    decreases xs.len() + ys.len(),
{
    if xs.len() == 0 {
    } else if xs[0] == ys[0] {
        lemma_subseq_contains(xs.drop_first(), ys.drop_first());
        assert forall|k: int| 0 <= k < xs.len() implies ys.contains(#[trigger] xs[k]) by {
            if k == 0 {
                assert(ys[0] == xs[0]);
            } else {
                assert(ys.drop_first().contains(xs.drop_first()[k - 1]));
                let w = choose|w: int|
                    0 <= w < ys.drop_first().len() && ys.drop_first()[w] == xs.drop_first()[k - 1];
                assert(ys[w + 1] == xs[k]);
            }
        }
    } else {
        lemma_subseq_contains(xs, ys.drop_first());
        assert forall|k: int| 0 <= k < xs.len() implies ys.contains(#[trigger] xs[k]) by {
            assert(ys.drop_first().contains(xs[k]));
            let w = choose|w: int| 0 <= w < ys.drop_first().len() && ys.drop_first()[w] == xs[k];
            assert(ys[w + 1] == xs[k]);
        }
    }
}

// ---------------------------------------------------------------------------
// The run model of `merge`.
// ---------------------------------------------------------------------------

/// The tag of one run of tokens in a merge.
pub enum RunKind {
    Same,
    Add,
    Rem,
}

/// One maximal run of tokens that the merge emits as a single segment.
pub struct Run {
    pub kind: RunKind,
    pub toks: Seq<Seq<char>>,
}

/// The length of the maximal prefix on which the original, edited and common
/// token cursors all agree.
pub open spec fn same_run(l: Seq<Seq<char>>, r: Seq<Seq<char>>, c: Seq<Seq<char>>) -> int
    decreases l.len(),
{
    if l.len() > 0 && r.len() > 0 && c.len() > 0 && l[0] == c[0] && r[0] == c[0] {
        1 + same_run(l.drop_first(), r.drop_first(), c.drop_first())
    } else {
        0
    }
}

/// The length of the maximal prefix of `l` whose tokens differ from the
/// current common token (all of `l` once the common cursor is exhausted).
pub open spec fn rem_run(l: Seq<Seq<char>>, c: Seq<Seq<char>>) -> int
    decreases l.len(),
{
    if l.len() > 0 && (c.len() == 0 || l[0] != c[0]) {
        1 + rem_run(l.drop_first(), c)
    } else {
        0
    }
}

/// The ordered runs that merging `l` (original tokens) and `r` (edited
/// tokens) against the common tokens `c` produces: repeatedly a maximal Same
/// run, then a maximal Rem run of `l`, then a maximal Add run of `r`, until
/// both `l` and `r` are exhausted. When no run makes progress — possible only
/// if `c` is not a common subsequence of `l` and `r` — one common token is
/// dropped so that the walk always terminates.
pub open spec fn merge_runs(l: Seq<Seq<char>>, r: Seq<Seq<char>>, c: Seq<Seq<char>>) -> Seq<Run>
    decreases l.len() + r.len() + c.len(),
    via merge_runs_decreases
{
    if l.len() == 0 && r.len() == 0 {
        Seq::<Run>::empty()
    } else {
        let n = same_run(l, r, c);
        let l1 = l.skip(n);
        let r1 = r.skip(n);
        let c1 = c.skip(n);
        let m = rem_run(l1, c1);
        let l2 = l1.skip(m);
        let k = rem_run(r1, c1);
        let r2 = r1.skip(k);
        let same_part: Seq<Run> = if n > 0 {
            seq![Run { kind: RunKind::Same, toks: l.take(n) }]
        } else {
            Seq::<Run>::empty()
        };
        let rem_part: Seq<Run> = if m > 0 {
            seq![Run { kind: RunKind::Rem, toks: l1.take(m) }]
        } else {
            Seq::<Run>::empty()
        };
        let add_part: Seq<Run> = if k > 0 {
            seq![Run { kind: RunKind::Add, toks: r1.take(k) }]
        } else {
            Seq::<Run>::empty()
        };
        if n + m + k > 0 {
            same_part.add(rem_part).add(add_part).add(merge_runs(l2, r2, c1))
        } else if c1.len() > 0 {
            merge_runs(l2, r2, c1.drop_first())
        } else {
            Seq::<Run>::empty()
        }
    }
}

/// A Same run never outruns any of the three cursors.
pub proof fn lemma_same_run_bounds(l: Seq<Seq<char>>, r: Seq<Seq<char>>, c: Seq<Seq<char>>)
    ensures
        0 <= same_run(l, r, c),
        same_run(l, r, c) <= l.len(),
        same_run(l, r, c) <= r.len(),
        same_run(l, r, c) <= c.len(),
    decreases l.len(),
{
    if l.len() > 0 && r.len() > 0 && c.len() > 0 && l[0] == c[0] && r[0] == c[0] {
        lemma_same_run_bounds(l.drop_first(), r.drop_first(), c.drop_first());
    }
}

/// A Rem or Add run never outruns its own cursor.
pub proof fn lemma_rem_run_bounds(l: Seq<Seq<char>>, c: Seq<Seq<char>>)
    ensures
        0 <= rem_run(l, c),
        rem_run(l, c) <= l.len(),
    decreases l.len(),
{
    if l.len() > 0 && (c.len() == 0 || l[0] != c[0]) {
        lemma_rem_run_bounds(l.drop_first(), c);
    }
}

#[via_fn]
proof fn merge_runs_decreases(l: Seq<Seq<char>>, r: Seq<Seq<char>>, c: Seq<Seq<char>>) {
    lemma_same_run_bounds(l, r, c);
    let n = same_run(l, r, c);
    lemma_rem_run_bounds(l.skip(n), c.skip(n));
    lemma_rem_run_bounds(r.skip(n), c.skip(n));
}

/// The segments that a run list renders to: each run joined with the
/// separator, a Same run being dropped when its joined text is empty.
pub open spec fn runs_to_segs(runs: Seq<Run>, sep: Seq<char>) -> Seq<SegView>
    decreases runs.len(),
{
    if runs.len() == 0 {
        Seq::<SegView>::empty()
    } else {
        let head = runs[0];
        let rest = runs_to_segs(runs.drop_first(), sep);
        match head.kind {
            RunKind::Same => {
                if join_tokens(head.toks, sep).len() > 0 {
                    seq![SegView::Same(join_tokens(head.toks, sep))].add(rest)
                } else {
                    rest
                }
            },
            RunKind::Rem => seq![SegView::Rem(join_tokens(head.toks, sep))].add(rest),
            RunKind::Add => seq![SegView::Add(join_tokens(head.toks, sep))].add(rest),
        }
    }
}

/// Rendering distributes over concatenation of run lists.
pub proof fn lemma_runs_to_segs_add(r1: Seq<Run>, r2: Seq<Run>, sep: Seq<char>)
    ensures
        runs_to_segs(r1.add(r2), sep) == runs_to_segs(r1, sep).add(runs_to_segs(r2, sep)),
    decreases r1.len(),
{
    if r1.len() == 0 {
        assert(r1.add(r2) =~~= r2);
        assert(runs_to_segs(r1, sep).add(runs_to_segs(r2, sep)) =~~= runs_to_segs(r2, sep));
    } else {
        lemma_runs_to_segs_add(r1.drop_first(), r2, sep);
        assert(r1.add(r2).drop_first() =~~= r1.drop_first().add(r2));
        assert(r1.add(r2)[0] == r1[0]);
        match r1[0].kind {
            RunKind::Same => {
                if join_tokens(r1[0].toks, sep).len() > 0 {
                    assert(runs_to_segs(r1.add(r2), sep) =~~=
                        runs_to_segs(r1, sep).add(runs_to_segs(r2, sep)));
                } else {
                    assert(runs_to_segs(r1.add(r2), sep) =~~=
                        runs_to_segs(r1, sep).add(runs_to_segs(r2, sep)));
                }
            },
            RunKind::Rem => {
                assert(runs_to_segs(r1.add(r2), sep) =~~=
                    runs_to_segs(r1, sep).add(runs_to_segs(r2, sep)));
            },
            RunKind::Add => {
                assert(runs_to_segs(r1.add(r2), sep) =~~=
                    runs_to_segs(r1, sep).add(runs_to_segs(r2, sep)));
            },
        }
    }
}

/// The segments that `merge` produces for the given inputs and granularity.
pub open spec fn merge_segs(orig: Seq<char>, edit: Seq<char>, common: Seq<char>, t: SplitType)
    -> Seq<SegView> {
    runs_to_segs(
        merge_runs(merge_tokens(orig, t), merge_tokens(edit, t), merge_tokens(common, t)),
        sep_of(t),
    )
}


// ---------------------------------------------------------------------------
// The longest-common-subsequence computation.
// ---------------------------------------------------------------------------

/// Whether the two token lists share no token at all.
pub open spec fn no_shared(l: Seq<Seq<char>>, r: Seq<Seq<char>>) -> bool {
    forall|k: int| 0 <= k < l.len() ==> !r.contains(#[trigger] l[k])
}

/// A subsequence of a suffix is a subsequence of the whole.
pub proof fn lemma_subseq_widen_prefix(xs: Seq<Seq<char>>, ys: Seq<Seq<char>>, p: int)
    requires
        0 <= p <= ys.len(),
        is_subseq(xs, ys.subrange(p, ys.len() as int)),
    ensures
        is_subseq(xs, ys),
    decreases p,
{
    if p == 0 {
        assert(ys.subrange(0, ys.len() as int) =~~= ys);
    } else {
        lemma_subseq_widen_right(xs, ys.subrange(p, ys.len() as int), ys[p - 1]);
        assert(seq![ys[p - 1]].add(ys.subrange(p, ys.len() as int))
            =~~= ys.subrange(p - 1, ys.len() as int));
        lemma_subseq_widen_prefix(xs, ys, p - 1);
    }
}

/// The length of a longest common subsequence of the two token lists, by
/// the standard recurrence on last elements.
pub open spec fn lcs_len(l: Seq<Seq<char>>, r: Seq<Seq<char>>) -> int
    decreases l.len() + r.len(),
{
    if l.len() == 0 || r.len() == 0 {
        0
    } else if l.last() == r.last() {
        1 + lcs_len(l.drop_last(), r.drop_last())
    } else {
        let d1 = lcs_len(l.drop_last(), r);
        let d2 = lcs_len(l, r.drop_last());
        if d1 >= d2 {
            d1
        } else {
            d2
        }
    }
}

/// A subsequence length is at least zero and at most either list's length.
pub proof fn lemma_lcs_len_bounds(l: Seq<Seq<char>>, r: Seq<Seq<char>>)
    ensures
        0 <= lcs_len(l, r),
        lcs_len(l, r) <= l.len(),
        lcs_len(l, r) <= r.len(),
    decreases l.len() + r.len(),
{
    if l.len() == 0 || r.len() == 0 {
    } else if l.last() == r.last() {
        lemma_lcs_len_bounds(l.drop_last(), r.drop_last());
    } else {
        lemma_lcs_len_bounds(l.drop_last(), r);
        lemma_lcs_len_bounds(l, r.drop_last());
    }
}

/// Appending to the enclosing sequence keeps a subsequence a subsequence.
pub proof fn lemma_subseq_push(xs: Seq<Seq<char>>, ys: Seq<Seq<char>>, e: Seq<char>)
    requires
        is_subseq(xs, ys),
    ensures
        is_subseq(xs, ys.push(e)),
    decreases xs.len() + ys.len(),
{
    if xs.len() == 0 {
        assert(is_subseq(xs, ys.push(e)));
    } else if ys.len() == 0 {
        lemma_subseq_len(xs, ys);
    } else {
        assert(ys.push(e)[0] == ys[0]);
        assert(ys.push(e).drop_first() =~~= ys.drop_first().push(e));
        if xs[0] == ys[0] {
            lemma_subseq_push(xs.drop_first(), ys.drop_first(), e);
        } else {
            lemma_subseq_push(xs, ys.drop_first(), e);
        }
    }
}

/// A common token list that avoids the host's last element embeds in the
/// host less that element.
pub proof fn lemma_subseq_drop_last_differ(xs: Seq<Seq<char>>, ys: Seq<Seq<char>>)
    requires
        is_subseq(xs, ys),
        ys.len() > 0,
        xs.len() == 0 || xs.last() != ys.last(),
    ensures
        is_subseq(xs, ys.drop_last()),
    decreases xs.len() + ys.len(),
{
    if xs.len() == 0 {
    } else if ys.len() == 1 {
        if xs[0] == ys[0] {
            lemma_subseq_len(xs.drop_first(), ys.drop_first());
            assert(xs.len() == 1);
            assert(xs.last() == xs[0]);
            assert(false);
        } else {
            lemma_subseq_len(xs, ys.drop_first());
            assert(false);
        }
    } else if xs[0] == ys[0] {
        assert(ys.drop_last()[0] == ys[0]);
        if xs.len() == 1 {
            assert(xs.drop_first() =~~= Seq::<Seq<char>>::empty());
            assert(is_subseq(xs.drop_first(), ys.drop_last().drop_first()));
        } else {
            assert(xs.drop_first().last() == xs.last());
            assert(ys.drop_first().last() == ys.last());
            lemma_subseq_drop_last_differ(xs.drop_first(), ys.drop_first());
            assert(ys.drop_last().drop_first() =~~= ys.drop_first().drop_last());
        }
    } else {
        assert(ys.drop_first().last() == ys.last());
        lemma_subseq_drop_last_differ(xs, ys.drop_first());
        lemma_subseq_widen_right(xs, ys.drop_first().drop_last(), ys[0]);
        assert(seq![ys[0]].add(ys.drop_first().drop_last()) =~~= ys.drop_last());
    }
}

/// Dropping the last element of a subsequence and of its host keeps the
/// embedding.
pub proof fn lemma_subseq_drop_last_both(xs: Seq<Seq<char>>, ys: Seq<Seq<char>>)
    requires
        is_subseq(xs, ys),
        xs.len() > 0,
    ensures
        is_subseq(xs.drop_last(), ys.drop_last()),
    decreases xs.len() + ys.len(),
{
    lemma_subseq_len(xs, ys);
    if xs[0] == ys[0] {
        if xs.len() == 1 {
            assert(xs.drop_last() =~~= Seq::<Seq<char>>::empty());
        } else {
            lemma_subseq_drop_last_both(xs.drop_first(), ys.drop_first());
            lemma_subseq_len(xs.drop_first(), ys.drop_first());
            assert(xs.drop_last()[0] == xs[0]);
            assert(ys.drop_last()[0] == ys[0]);
            assert(xs.drop_last().drop_first() =~~= xs.drop_first().drop_last());
            assert(ys.drop_last().drop_first() =~~= ys.drop_first().drop_last());
        }
    } else {
        lemma_subseq_len(xs, ys.drop_first());
        lemma_subseq_drop_last_both(xs, ys.drop_first());
        lemma_subseq_widen_right(xs.drop_last(), ys.drop_first().drop_last(), ys[0]);
        assert(seq![ys[0]].add(ys.drop_first().drop_last()) =~~= ys.drop_last());
    }
}

/// Shrinking the original side never grows the subsequence length.
pub proof fn lemma_lcs_len_drop_l(l: Seq<Seq<char>>, r: Seq<Seq<char>>)
    requires
        l.len() > 0,
    ensures
        lcs_len(l.drop_last(), r) <= lcs_len(l, r),
    decreases l.len() + r.len(),
{
    let lp = l.drop_last();
    if r.len() == 0 {
    } else if lp.len() == 0 {
        lemma_lcs_len_bounds(l, r);
    } else if l.last() == r.last() {
        lemma_lcs_len_step_r(lp, r);
    } else {
    }
}

/// Dropping one edited token lowers the subsequence length by at most one.
pub proof fn lemma_lcs_len_step_r(l: Seq<Seq<char>>, r: Seq<Seq<char>>)
    requires
        r.len() > 0,
    ensures
        lcs_len(l, r) <= 1 + lcs_len(l, r.drop_last()),
    decreases l.len() + r.len(),
{
    let rp = r.drop_last();
    if l.len() == 0 {
        lemma_lcs_len_bounds(l, rp);
    } else if l.last() == r.last() {
        lemma_lcs_len_drop_l(l, rp);
    } else {
        lemma_lcs_len_bounds(l, rp);
        lemma_lcs_len_step_r(l.drop_last(), r);
        lemma_lcs_len_drop_l(l, rp);
    }
}

/// No common subsequence is longer than `lcs_len`: the recurrence really
/// computes a maximum.
pub proof fn lemma_lcs_len_upper(cs: Seq<Seq<char>>, l: Seq<Seq<char>>, r: Seq<Seq<char>>)
    requires
        is_subseq(cs, l),
        is_subseq(cs, r),
    ensures
        cs.len() <= lcs_len(l, r),
    decreases l.len() + r.len(),
{
    if l.len() == 0 || r.len() == 0 {
        lemma_subseq_len(cs, l);
        lemma_subseq_len(cs, r);
    } else if l.last() == r.last() {
        if cs.len() > 0 && cs.last() == l.last() {
            lemma_subseq_drop_last_both(cs, l);
            lemma_subseq_drop_last_both(cs, r);
            lemma_lcs_len_upper(cs.drop_last(), l.drop_last(), r.drop_last());
        } else if cs.len() == 0 {
            lemma_lcs_len_bounds(l.drop_last(), r.drop_last());
        } else {
            lemma_subseq_drop_last_differ(cs, l);
            lemma_lcs_len_upper(cs, l.drop_last(), r);
            lemma_lcs_len_step_r(l.drop_last(), r);
        }
    } else {
        if cs.len() == 0 {
            lemma_lcs_len_bounds(l, r);
        } else if cs.last() != l.last() {
            lemma_subseq_drop_last_differ(cs, l);
            lemma_lcs_len_upper(cs, l.drop_last(), r);
        } else {
            lemma_subseq_drop_last_differ(cs, r);
            lemma_lcs_len_upper(cs, l, r.drop_last());
        }
    }
}

/// The subsequence length of the first `x + 1` original and `y + 1` edited
/// tokens.
pub open spec fn lcs_cell(a: Seq<Seq<char>>, b: Seq<Seq<char>>, x: int, y: int) -> int {
    lcs_len(a.take(x + 1), b.take(y + 1))
}

/// The row-major position of cell `(x, y)` in a table of width `m`.
pub open spec fn cell_at(x: int, y: int, m: int) -> int {
    x * m + y
}

/// What `lcs` promises: the common string is a longest common subsequence of
/// the two token lists — no common subsequence of them is longer — joined
/// with the granularity's separator, and the distance counts the tokens of
/// both sides that are not part of it. Equal token lists give back all their
/// tokens with distance zero; token lists that share nothing give an empty
/// common string and the full distance.
pub open spec fn lcs_post(orig: Seq<char>, edit: Seq<char>, t: SplitType, dist: int, common: Seq<char>) -> bool {
    let lt = lcs_tokens(orig, t);
    let rt = lcs_tokens(edit, t);
    let sep = sep_of(t);
    &&& exists|cs: Seq<Seq<char>>| {
        &&& #[trigger] is_subseq(cs, lt)
        &&& is_subseq(cs, rt)
        &&& common == join_tokens(cs, sep)
        &&& dist == lt.len() + rt.len() - 2 * cs.len()
        &&& forall|cs2: Seq<Seq<char>>|
            #[trigger] is_subseq(cs2, lt) && is_subseq(cs2, rt) ==> cs2.len() <= cs.len()
    }
    &&& (lt == rt ==> common == join_tokens(lt, sep) && dist == 0)
    &&& (no_shared(lt, rt) ==> common.len() == 0 && dist == lt.len() + rt.len())
}

/// Whether two strings hold the same characters.
pub(crate) fn string_eq(x: &String, y: &String) -> (r: bool)
    ensures
        r == (x@ == y@),
{
    x.eq(y)
}

/// The strings in reverse order.
fn reverse_strings(v: &Vec<String>) -> (r: Vec<String>)
    ensures
        r.deep_view() == v.deep_view().reverse(),
{
    let n = v.len();
    let mut r: Vec<String> = Vec::new();
    let mut k: usize = 0;
    while k < n
        invariant
            n == v.len(),
            0 <= k <= n,
            r.deep_view() == v.deep_view().subrange(n - k, n as int).reverse(),
        decreases n - k,
    {
        let ghost old_dv = r.deep_view();
        r.push(v[n - 1 - k].clone());
        proof {
            assert(r.deep_view() =~~= old_dv.push(v.deep_view()[n - 1 - k]));
            assert(v.deep_view().subrange(n - k - 1, n as int)
                =~~= seq![v.deep_view()[n - 1 - k]].add(v.deep_view().subrange(n - k, n as int)));
            assert(v.deep_view().subrange(n - k - 1, n as int).reverse()
                =~~= v.deep_view().subrange(n - k, n as int).reverse().push(v.deep_view()[n - 1 - k]));
        }
        k += 1;
    }
    proof {
        assert(v.deep_view().subrange(0, n as int) =~~= v.deep_view());
    }
    r
}

/// Computes the edit distance between `orig` and `edit` at granularity
/// `split`, together with a longest common subsequence of their tokens,
/// rendered as one string.
pub fn lcs(orig: &str, edit: &str, split: &SplitType) -> (r: (i32, String))
    requires
        orig@.len() <= MAX_TEXT_LEN as int,
        edit@.len() <= MAX_TEXT_LEN as int,
    ensures
        lcs_post(orig@, edit@, *split, r.0 as int, r.1@),
{
    proof {
        crate::tokenize::lemma_lcs_tokens_len(orig@, *split);
        crate::tokenize::lemma_lcs_tokens_len(edit@, *split);
    }
    let a = strsplit(orig, split);
    let b = strsplit(edit, split);
    let ghost adv = a.deep_view();
    let ghost bdv = b.deep_view();
    let n = a.len();
    let m = b.len();
    proof {
        assert(adv.len() == n && bdv.len() == m);
        assert(n * m <= (MAX_TEXT_LEN as int + 1) * (MAX_TEXT_LEN as int + 1)) by (nonlinear_arith)
            requires n <= MAX_TEXT_LEN as int + 1 && m <= MAX_TEXT_LEN as int + 1 && n >= 0 && m >= 0;
    }

    // Dynamic-programming table of subsequence lengths, row-major, built in
    // write order. Cell (i, j) holds the subsequence length of the first
    // i + 1 tokens of `a` and the first j + 1 tokens of `b`.
    let mut idx: Vec<usize> = Vec::new();
    let mut i: usize = 0;
    while i < n
        invariant
            n == a.len() && m == b.len(),
            adv == a.deep_view() && bdv == b.deep_view(),
            n <= MAX_TEXT_LEN + 1 && m <= MAX_TEXT_LEN + 1,
            n * m <= (MAX_TEXT_LEN as int + 1) * (MAX_TEXT_LEN as int + 1),
            0 <= i <= n,
            idx.len() == i * m,
            forall|p: int| 0 <= p < i * m ==> idx@[p] <= i,
            forall|x: int, y: int|
                0 <= x < i && 0 <= y < m ==> #[trigger] idx@[cell_at(x, y, m as int)]
                    == lcs_cell(adv, bdv, x, y),
        decreases n - i,
    {
        let mut j: usize = 0;
        proof {
            assert(i * m + m == (i + 1) * m) by (nonlinear_arith);
            assert(i * m <= n * m && (i + 1) * m <= n * m) by (nonlinear_arith)
                requires 0 <= i < n && 0 <= m;
        }
        while j < m
            invariant
                n == a.len() && m == b.len(),
                adv == a.deep_view() && bdv == b.deep_view(),
                0 <= i < n,
                0 <= j <= m,
                i * m + m == (i + 1) * m,
                (i + 1) * m <= n * m,
                n * m <= (MAX_TEXT_LEN as int + 1) * (MAX_TEXT_LEN as int + 1),
                n <= MAX_TEXT_LEN + 1 && m <= MAX_TEXT_LEN + 1,
                idx.len() == i * m + j,
                forall|p: int| 0 <= p < i * m ==> idx@[p] <= i,
                forall|p: int| i * m <= p < i * m + j ==> idx@[p] <= i + 1,
                forall|x: int, y: int|
                    0 <= x < i && 0 <= y < m ==> #[trigger] idx@[cell_at(x, y, m as int)]
                        == lcs_cell(adv, bdv, x, y),
                forall|y: int|
                    0 <= y < j ==> #[trigger] idx@[cell_at(i as int, y, m as int)] == lcs_cell(
                        adv,
                        bdv,
                        i as int,
                        y,
                    ),
            decreases m - j,
        {
            let eq = string_eq(&a[i], &b[j]);
            proof {
                assert(adv[i as int] == a@[i as int]@);
                assert(bdv[j as int] == b@[j as int]@);
            }
            let v: usize;
            if eq {
                if i == 0 || j == 0 {
                    v = 1;
                } else {
                    proof {
                        assert((i - 1) * m + j - 1 < i * m) by (nonlinear_arith)
                            requires 0 < i && 0 < j <= m;
                        assert(cell_at(i - 1, j - 1, m as int) == (i - 1) * m + j - 1);
                        assert(idx@[cell_at(i - 1, j - 1, m as int)] == lcs_cell(
                            adv,
                            bdv,
                            i - 1,
                            j - 1,
                        ));
                        lemma_lcs_len_bounds(adv.take(i as int), bdv.take(j as int));
                    }
                    v = idx[(i - 1) * m + j - 1] + 1;
                }
            } else if i == 0 {
                if j == 0 {
                    v = 0;
                } else {
                    proof {
                        assert(cell_at(0, j - 1, m as int) == i * m + j - 1);
                    }
                    v = idx[i * m + j - 1];
                }
            } else if j == 0 {
                proof {
                    assert((i - 1) * m + j < i * m) by (nonlinear_arith)
                        requires 0 < i && 0 <= j < m;
                    assert(cell_at(i - 1, 0, m as int) == (i - 1) * m);
                }
                v = idx[(i - 1) * m + j];
            } else {
                proof {
                    assert((i - 1) * m + j < i * m) by (nonlinear_arith)
                        requires 0 < i && 0 <= j < m;
                    assert(cell_at(i - 1, j as int, m as int) == (i - 1) * m + j);
                    assert(cell_at(i as int, j - 1, m as int) == i * m + j - 1);
                }
                let x1 = idx[i * m + j - 1];
                let x2 = idx[(i - 1) * m + j];
                v = if x1 > x2 {
                    x1
                } else {
                    x2
                };
            }
            proof {
                let big_a = adv.take(i + 1);
                let big_b = bdv.take(j + 1);
                assert(big_a.len() > 0 && big_b.len() > 0);
                assert(big_a.last() == adv[i as int]);
                assert(big_b.last() == bdv[j as int]);
                assert(big_a.drop_last() =~~= adv.take(i as int));
                assert(big_b.drop_last() =~~= bdv.take(j as int));
                if adv[i as int] == bdv[j as int] {
                    if i == 0 {
                        assert(adv.take(0int) =~~= Seq::<Seq<char>>::empty());
                        assert(lcs_len(adv.take(0int), bdv.take(j as int)) == 0);
                        assert(lcs_len(big_a, big_b) == 1);
                        assert(v == 1);
                    } else if j == 0 {
                        assert(bdv.take(0int) =~~= Seq::<Seq<char>>::empty());
                        assert(lcs_len(adv.take(i as int), bdv.take(0int)) == 0);
                        assert(lcs_len(big_a, big_b) == 1);
                        assert(v == 1);
                    } else {
                        assert(idx@[cell_at(i - 1, j - 1, m as int)] == lcs_cell(
                            adv,
                            bdv,
                            i - 1,
                            j - 1,
                        ));
                        assert(adv.take(i - 1 + 1) =~~= adv.take(i as int));
                        assert(bdv.take(j - 1 + 1) =~~= bdv.take(j as int));
                        assert(lcs_len(big_a, big_b) == 1 + lcs_cell(adv, bdv, i - 1, j - 1));
                        assert(v as int == 1 + lcs_cell(adv, bdv, i - 1, j - 1));
                    }
                } else {
                    if i == 0 && j == 0 {
                        assert(adv.take(0int) =~~= Seq::<Seq<char>>::empty());
                        assert(bdv.take(0int) =~~= Seq::<Seq<char>>::empty());
                        assert(lcs_len(adv.take(0int), big_b) == 0);
                        assert(lcs_len(big_a, bdv.take(0int)) == 0);
                    } else if i == 0 {
                        assert(adv.take(0int) =~~= Seq::<Seq<char>>::empty());
                        assert(idx@[cell_at(0, j - 1, m as int)] == lcs_cell(adv, bdv, 0, j - 1));
                        lemma_lcs_len_bounds(big_a, bdv.take(j as int));
                        assert(bdv.take(j - 1 + 1) =~~= bdv.take(j as int));
                        assert(lcs_len(adv.take(0int), big_b) == 0);
                        assert(lcs_len(big_a, big_b) == lcs_cell(adv, bdv, 0, j - 1));
                        assert(v as int == lcs_cell(adv, bdv, 0, j - 1));
                    } else if j == 0 {
                        assert(bdv.take(0int) =~~= Seq::<Seq<char>>::empty());
                        assert(idx@[cell_at(i - 1, 0, m as int)] == lcs_cell(adv, bdv, i - 1, 0));
                        lemma_lcs_len_bounds(adv.take(i as int), big_b);
                        assert(adv.take(i - 1 + 1) =~~= adv.take(i as int));
                        assert(lcs_len(big_a, bdv.take(0int)) == 0);
                        assert(lcs_len(big_a, big_b) == lcs_cell(adv, bdv, i - 1, 0));
                        assert(v as int == lcs_cell(adv, bdv, i - 1, 0));
                    } else {
                        assert(idx@[cell_at(i - 1, j as int, m as int)] == lcs_cell(
                            adv,
                            bdv,
                            i - 1,
                            j as int,
                        ));
                        assert(idx@[cell_at(i as int, j - 1, m as int)] == lcs_cell(
                            adv,
                            bdv,
                            i as int,
                            j - 1,
                        ));
                        assert(adv.take(i - 1 + 1) =~~= adv.take(i as int));
                        assert(bdv.take(j - 1 + 1) =~~= bdv.take(j as int));
                        assert(lcs_len(big_a, big_b) == (if lcs_cell(adv, bdv, i - 1, j as int)
                            >= lcs_cell(adv, bdv, i as int, j - 1) {
                            lcs_cell(adv, bdv, i - 1, j as int)
                        } else {
                            lcs_cell(adv, bdv, i as int, j - 1)
                        }));
                    }
                }
                assert(v as int == lcs_cell(adv, bdv, i as int, j as int));
            }
            let ghost old_idx = idx@;
            idx.push(v);
            proof {
                assert(cell_at(i as int, j as int, m as int) == i * m + j);
                assert(idx@[cell_at(i as int, j as int, m as int)] == v);
                assert forall|x: int, y: int|
                    0 <= x < i && 0 <= y < m implies #[trigger] idx@[cell_at(x, y, m as int)]
                    == lcs_cell(adv, bdv, x, y) by {
                    assert(cell_at(x, y, m as int) < i * m) by (nonlinear_arith)
                        requires 0 <= x < i && 0 <= y < m;
                    assert(idx@[cell_at(x, y, m as int)] == old_idx[cell_at(x, y, m as int)]);
                }
                assert forall|y: int|
                    0 <= y < j + 1 implies #[trigger] idx@[cell_at(i as int, y, m as int)]
                    == lcs_cell(adv, bdv, i as int, y) by {
                    if y < j {
                        assert(idx@[cell_at(i as int, y, m as int)] == old_idx[cell_at(
                            i as int,
                            y,
                            m as int,
                        )]);
                    }
                }
            }
            j += 1;
        }
        proof {
            assert forall|x: int, y: int|
                0 <= x < i + 1 && 0 <= y < m implies #[trigger] idx@[cell_at(x, y, m as int)]
                == lcs_cell(adv, bdv, x, y) by {}
        }
        i += 1;
    }

    // Backtrack from the bottom-right corner, collecting matched tokens in
    // reverse order; ties prefer consuming `edit`.
    let mut ii: isize = (n as isize) - 1;
    let mut jj: isize = (m as isize) - 1;
    let mut rev: Vec<String> = Vec::new();
    let ghost mut cs: Seq<Seq<char>> = Seq::<Seq<char>>::empty();
    proof {
        assert(cs =~~= adv.subrange(n as int, n as int));
        assert(cs =~~= bdv.subrange(m as int, m as int));
        assert(rev.deep_view() =~~= cs.reverse());
        assert(adv.take((n as int - 1) + 1) =~~= adv);
        assert(bdv.take((m as int - 1) + 1) =~~= bdv);
    }
    while ii >= 0 && jj >= 0
        invariant
            n == a.len() && m == b.len(),
            adv == a.deep_view() && bdv == b.deep_view(),
            n <= MAX_TEXT_LEN + 1 && m <= MAX_TEXT_LEN + 1,
            -1 <= ii < n as int,
            -1 <= jj < m as int,
            idx.len() == n * m,
            forall|x: int, y: int|
                0 <= x < n && 0 <= y < m ==> #[trigger] idx@[cell_at(x, y, m as int)] == lcs_cell(
                    adv,
                    bdv,
                    x,
                    y,
                ),
            is_subseq(cs, adv.subrange(ii + 1, n as int)),
            is_subseq(cs, bdv.subrange(jj + 1, m as int)),
            rev.deep_view() == cs.reverse(),
            cs.len() + lcs_cell(adv, bdv, ii as int, jj as int) == lcs_len(adv, bdv),
            adv == bdv ==> ii == jj && cs == adv.subrange(ii + 1, n as int),
        decreases ii + jj + 2,
    {
        let ui = ii as usize;
        let uj = jj as usize;
        let ghost big_a = adv.take(ii + 1);
        let ghost big_b = bdv.take(jj + 1);
        proof {
            assert(big_a.len() > 0 && big_b.len() > 0);
            assert(big_a.last() == adv[ii as int]);
            assert(big_b.last() == bdv[jj as int]);
            assert(big_a.drop_last() =~~= adv.take(ii as int));
            assert(big_b.drop_last() =~~= bdv.take(jj as int));
            assert(adv[ii as int] == a@[ii as int]@);
            assert(bdv[jj as int] == b@[jj as int]@);
        }
        if string_eq(&a[ui], &b[uj]) {
            let ghost old_cs = cs;
            let ghost old_rev = rev.deep_view();
            rev.push(a[ui].clone());
            proof {
                cs = seq![adv[ii as int]].add(old_cs);
                assert(rev.deep_view() =~~= old_rev.push(adv[ii as int]));
                assert(cs.reverse() =~~= old_cs.reverse().push(adv[ii as int]));
                let asub = adv.subrange(ii as int, n as int);
                let bsub = bdv.subrange(jj as int, m as int);
                assert(asub =~~= seq![adv[ii as int]].add(adv.subrange(ii + 1, n as int)));
                assert(bsub =~~= seq![bdv[jj as int]].add(bdv.subrange(jj + 1, m as int)));
                assert(cs.len() > 0 && asub.len() > 0);
                assert(cs[0] == adv[ii as int]);
                assert(asub[0] == adv[ii as int]);
                assert(cs.drop_first() =~~= old_cs);
                assert(asub.drop_first() =~~= adv.subrange(ii + 1, n as int));
                assert(is_subseq(cs.drop_first(), asub.drop_first()));
                assert(is_subseq(cs, asub));
                assert(adv[ii as int] == bdv[jj as int]);
                assert(bsub[0] == cs[0]);
                assert(bsub.drop_first() =~~= bdv.subrange(jj + 1, m as int));
                assert(is_subseq(cs.drop_first(), bsub.drop_first()));
                assert(is_subseq(cs, bsub));
                assert(rev.deep_view() =~~= cs.reverse());
                if adv == bdv {
                    assert(cs =~~= adv.subrange(ii as int, n as int));
                }
                // The matched cell is one more than its diagonal neighbour.
                assert(lcs_len(big_a, big_b) == 1 + lcs_len(adv.take(ii as int), bdv.take(jj as int)));
            }
            ii -= 1;
            jj -= 1;
        } else if jj == 0 && ii == 0 {
            proof {
                if adv == bdv {
                    assert(adv[0] == bdv[0]);
                    assert(false);
                }
                lemma_subseq_widen_prefix(cs, adv, ii + 1);
                lemma_subseq_widen_prefix(cs, bdv, jj + 1);
                assert(adv.subrange(0, n as int) =~~= adv);
                assert(bdv.subrange(0, m as int) =~~= bdv);
                assert(adv.take(0int) =~~= Seq::<Seq<char>>::empty());
                assert(bdv.take(0int) =~~= Seq::<Seq<char>>::empty());
                assert(lcs_len(adv.take(0int), big_b) == 0);
                assert(lcs_len(big_a, bdv.take(0int)) == 0);
                assert(lcs_len(big_a, big_b) == 0);
            }
            ii = -1;
            jj = -1;
        } else if ii == 0 {
            proof {
                if adv == bdv {
                    assert(adv[ii as int] == bdv[jj as int]);
                    assert(false);
                }
                lemma_subseq_widen_right(cs, bdv.subrange(jj + 1, m as int), bdv[jj as int]);
                assert(seq![bdv[jj as int]].add(bdv.subrange(jj + 1, m as int))
                    =~~= bdv.subrange(jj as int, m as int));
                assert(adv.take(0int) =~~= Seq::<Seq<char>>::empty());
                lemma_lcs_len_bounds(big_a, bdv.take(jj as int));
                assert(lcs_len(adv.take(0int), big_b) == 0);
                assert(bdv.take(jj as int - 1 + 1) =~~= bdv.take(jj as int));
                assert(lcs_len(big_a, big_b) == lcs_cell(adv, bdv, 0, jj - 1));
            }
            jj -= 1;
        } else if jj == 0 {
            proof {
                if adv == bdv {
                    assert(adv[ii as int] == bdv[jj as int]);
                    assert(false);
                }
                lemma_subseq_widen_right(cs, adv.subrange(ii + 1, n as int), adv[ii as int]);
                assert(seq![adv[ii as int]].add(adv.subrange(ii + 1, n as int))
                    =~~= adv.subrange(ii as int, n as int));
                assert(bdv.take(0int) =~~= Seq::<Seq<char>>::empty());
                lemma_lcs_len_bounds(adv.take(ii as int), big_b);
                assert(lcs_len(big_a, bdv.take(0int)) == 0);
                assert(adv.take(ii as int - 1 + 1) =~~= adv.take(ii as int));
                assert(lcs_len(big_a, big_b) == lcs_cell(adv, bdv, ii - 1, 0));
            }
            ii -= 1;
        } else {
            proof {
                assert(ui * m >= 1 * m) by (nonlinear_arith)
                    requires 1 <= ui && 0 <= m;
                assert(ui * m + uj - 1 < n * m) by (nonlinear_arith)
                    requires 0 < ui < n && 0 < uj < m && 0 <= m;
                assert((ui - 1) * m + uj < n * m) by (nonlinear_arith)
                    requires 0 < ui < n && 0 <= uj < m && 0 <= m;
                assert(cell_at(ii as int, jj as int - 1, m as int) == ui * m + uj - 1);
                assert(cell_at(ii as int - 1, jj as int, m as int) == (ui - 1) * m + uj);
                assert(idx@[cell_at(ii as int, jj as int - 1, m as int)] == lcs_cell(
                    adv,
                    bdv,
                    ii as int,
                    jj as int - 1,
                ));
                assert(idx@[cell_at(ii as int - 1, jj as int, m as int)] == lcs_cell(
                    adv,
                    bdv,
                    ii as int - 1,
                    jj as int,
                ));
            }
            let t1 = idx[ui * m + uj - 1];
            let t2 = idx[(ui - 1) * m + uj];
            proof {
                if adv == bdv {
                    assert(adv[ii as int] == bdv[jj as int]);
                    assert(false);
                }
                assert(lcs_len(big_a, big_b) == (if t1 as int >= t2 as int {
                    t1 as int
                } else {
                    t2 as int
                }));
            }
            if t1 >= t2 {
                proof {
                    lemma_subseq_widen_right(cs, bdv.subrange(jj + 1, m as int), bdv[jj as int]);
                    assert(seq![bdv[jj as int]].add(bdv.subrange(jj + 1, m as int))
                        =~~= bdv.subrange(jj as int, m as int));
                }
                jj -= 1;
            } else {
                proof {
                    lemma_subseq_widen_right(cs, adv.subrange(ii + 1, n as int), adv[ii as int]);
                    assert(seq![adv[ii as int]].add(adv.subrange(ii + 1, n as int))
                        =~~= adv.subrange(ii as int, n as int));
                }
                ii -= 1;
            }
        }
    }
    proof {
        lemma_subseq_widen_prefix(cs, adv, ii + 1);
        lemma_subseq_widen_prefix(cs, bdv, jj + 1);
        if adv == bdv {
            assert(cs =~~= adv);
        }
        lemma_subseq_len(cs, adv);
        lemma_subseq_len(cs, bdv);
        if ii < 0 {
            assert(adv.take(ii as int + 1) =~~= Seq::<Seq<char>>::empty());
        } else {
            assert(bdv.take(jj as int + 1) =~~= Seq::<Seq<char>>::empty());
            assert(lcs_len(adv.take(ii as int + 1), bdv.take(jj as int + 1)) == 0);
        }
        assert(cs.len() == lcs_len(adv, bdv));
    }
    let toks = reverse_strings(&rev);
    proof {
        assert(toks.deep_view() =~~= cs);
    }
    let sep_str: &str = if let SplitType::Word = split {
        " "
    } else {
        ""
    };
    proof {
        reveal_strlit(" ");
        reveal_strlit("");
        assert(" "@ =~= seq![' ']);
        assert(""@ =~= Seq::<char>::empty());
        assert(sep_str@ == sep_of(*split));
    }
    let common = join_with(&toks, sep_str);
    let l = toks.len();
    let dist_u: usize = n + m - 2 * l;
    let dist: i32 = dist_u as i32;
    proof {
        let lt = lcs_tokens(orig@, *split);
        let rt = lcs_tokens(edit@, *split);
        assert(lt == adv && rt == bdv);
        assert forall|cs2: Seq<Seq<char>>|
            #[trigger] is_subseq(cs2, lt) && is_subseq(cs2, rt) implies cs2.len() <= cs.len() by {
            lemma_lcs_len_upper(cs2, lt, rt);
        }
        assert(is_subseq(cs, lt) && is_subseq(cs, rt)
            && common@ == join_tokens(cs, sep_of(*split))
            && dist as int == lt.len() + rt.len() - 2 * cs.len());
        if no_shared(lt, rt) {
            if cs.len() > 0 {
                lemma_subseq_contains(cs, lt);
                lemma_subseq_contains(cs, rt);
                assert(lt.contains(cs[0]));
                let w = choose|w: int| 0 <= w < lt.len() && lt[w] == cs[0];
                assert(rt.contains(lt[w]));
                assert(false);
            }
            assert(cs.len() == 0);
            assert(common@ == join_tokens(Seq::<Seq<char>>::empty(), sep_of(*split)));
        }
    }
    (dist, common)
}


// ---------------------------------------------------------------------------
// The merge of two strings against a common subsequence.
// ---------------------------------------------------------------------------


/// The segment a Same run renders to: nothing when the run is empty or its
/// joined text is empty.
pub open spec fn same_seg(toks: Seq<Seq<char>>, sep: Seq<char>) -> Seq<SegView> {
    if toks.len() > 0 && join_tokens(toks, sep).len() > 0 {
        seq![SegView::Same(join_tokens(toks, sep))]
    } else {
        Seq::<SegView>::empty()
    }
}

/// The segment a Rem run renders to: nothing when the run is empty.
pub open spec fn rem_seg(toks: Seq<Seq<char>>, sep: Seq<char>) -> Seq<SegView> {
    if toks.len() > 0 {
        seq![SegView::Rem(join_tokens(toks, sep))]
    } else {
        Seq::<SegView>::empty()
    }
}

/// The segment an Add run renders to: nothing when the run is empty.
pub open spec fn add_seg(toks: Seq<Seq<char>>, sep: Seq<char>) -> Seq<SegView> {
    if toks.len() > 0 {
        seq![SegView::Add(join_tokens(toks, sep))]
    } else {
        Seq::<SegView>::empty()
    }
}

/// One step of the merge walk, at the level of rendered segments: while
/// tokens remain, the segments are those of the three maximal runs followed
/// by the segments of the rest; when no run makes progress, a common token
/// must remain and is dropped.
pub proof fn lemma_merge_runs_unfold(
    l: Seq<Seq<char>>,
    r: Seq<Seq<char>>,
    c: Seq<Seq<char>>,
    sep: Seq<char>,
)
    requires
        l.len() > 0 || r.len() > 0,
    ensures
        ({
            let n = same_run(l, r, c);
            let l1 = l.skip(n);
            let r1 = r.skip(n);
            let c1 = c.skip(n);
            let m = rem_run(l1, c1);
            let k = rem_run(r1, c1);
            let l2 = l1.skip(m);
            let r2 = r1.skip(k);
            &&& (n + m + k > 0 ==> runs_to_segs(merge_runs(l, r, c), sep) == same_seg(
                l.take(n),
                sep,
            ).add(rem_seg(l1.take(m), sep)).add(add_seg(r1.take(k), sep)).add(
                runs_to_segs(merge_runs(l2, r2, c1), sep),
            ))
            &&& (n + m + k == 0 ==> c1.len() > 0 && runs_to_segs(merge_runs(l, r, c), sep)
                == runs_to_segs(merge_runs(l2, r2, c1.drop_first()), sep))
        }),
{
    lemma_same_run_bounds(l, r, c);
    let n = same_run(l, r, c);
    let l1 = l.skip(n);
    let r1 = r.skip(n);
    let c1 = c.skip(n);
    lemma_rem_run_bounds(l1, c1);
    lemma_rem_run_bounds(r1, c1);
    let m = rem_run(l1, c1);
    let k = rem_run(r1, c1);
    let l2 = l1.skip(m);
    let r2 = r1.skip(k);
    let same_part: Seq<Run> = if n > 0 {
        seq![Run { kind: RunKind::Same, toks: l.take(n) }]
    } else {
        Seq::<Run>::empty()
    };
    let rem_part: Seq<Run> = if m > 0 {
        seq![Run { kind: RunKind::Rem, toks: l1.take(m) }]
    } else {
        Seq::<Run>::empty()
    };
    let add_part: Seq<Run> = if k > 0 {
        seq![Run { kind: RunKind::Add, toks: r1.take(k) }]
    } else {
        Seq::<Run>::empty()
    };
    assert(runs_to_segs(Seq::<Run>::empty(), sep) =~~= Seq::<SegView>::empty());
    if n + m + k > 0 {
        assert(merge_runs(l, r, c) == same_part.add(rem_part).add(add_part).add(
            merge_runs(l2, r2, c1),
        ));
        lemma_runs_to_segs_add(same_part.add(rem_part).add(add_part), merge_runs(l2, r2, c1), sep);
        lemma_runs_to_segs_add(same_part.add(rem_part), add_part, sep);
        lemma_runs_to_segs_add(same_part, rem_part, sep);
        if n > 0 {
            assert(same_part.drop_first() =~~= Seq::<Run>::empty());
            assert(runs_to_segs(same_part.drop_first(), sep) == runs_to_segs(
                Seq::<Run>::empty(),
                sep,
            ));
            assert(same_part[0] == Run { kind: RunKind::Same, toks: l.take(n) });
            assert(l.take(n).len() > 0);
            assert(runs_to_segs(same_part, sep) =~~= same_seg(l.take(n), sep));
        } else {
            assert(l.take(0) =~~= Seq::<Seq<char>>::empty());
            assert(runs_to_segs(same_part, sep) =~~= same_seg(l.take(n), sep));
        }
        if m > 0 {
            assert(rem_part.drop_first() =~~= Seq::<Run>::empty());
            assert(runs_to_segs(rem_part.drop_first(), sep) == runs_to_segs(
                Seq::<Run>::empty(),
                sep,
            ));
            assert(rem_part[0] == Run { kind: RunKind::Rem, toks: l1.take(m) });
            assert(runs_to_segs(rem_part, sep) =~~= rem_seg(l1.take(m), sep));
        } else {
            assert(l1.take(0) =~~= Seq::<Seq<char>>::empty());
            assert(runs_to_segs(rem_part, sep) =~~= rem_seg(l1.take(m), sep));
        }
        if k > 0 {
            assert(add_part.drop_first() =~~= Seq::<Run>::empty());
            assert(runs_to_segs(add_part.drop_first(), sep) == runs_to_segs(
                Seq::<Run>::empty(),
                sep,
            ));
            assert(add_part[0] == Run { kind: RunKind::Add, toks: r1.take(k) });
            assert(runs_to_segs(add_part, sep) =~~= add_seg(r1.take(k), sep));
        } else {
            assert(r1.take(0) =~~= Seq::<Seq<char>>::empty());
            assert(runs_to_segs(add_part, sep) =~~= add_seg(r1.take(k), sep));
        }
    } else {
        if l1.len() > 0 {
            lemma_rem_run_bounds(l1.drop_first(), c1);
            assert(c1.len() > 0);
        } else {
            assert(r1.len() > 0);
            lemma_rem_run_bounds(r1.drop_first(), c1);
            assert(c1.len() > 0);
        }
        assert(l2 =~~= l1);
        assert(r2 =~~= r1);
        assert(merge_runs(l, r, c) == merge_runs(l2, r2, c1.drop_first()));
    }
}

/// Collects the maximal run of tokens of `src` from `start` that differ from
/// the current common token `cvec[ic]` (all remaining tokens once the common
/// cursor is exhausted).
fn collect_rem_run(src: &Vec<String>, cvec: &Vec<String>, start: usize, ic: usize) -> (out: (
    Vec<String>,
    usize,
))
    requires
        start <= src.len(),
        ic <= cvec.len(),
    ensures
        out.1 as int == start + rem_run(
            src.deep_view().skip(start as int),
            cvec.deep_view().skip(ic as int),
        ),
        start <= out.1 <= src.len(),
        out.0.deep_view() == src.deep_view().subrange(start as int, out.1 as int),
{
    let ghost sdv = src.deep_view();
    let ghost cskip = cvec.deep_view().skip(ic as int);
    let mut i = start;
    let mut v: Vec<String> = Vec::new();
    proof {
        assert(v.deep_view() =~~= sdv.subrange(start as int, start as int));
    }
    while i < src.len() && (ic >= cvec.len() || !string_eq(&src[i], &cvec[ic]))
        invariant
            start <= i <= src.len(),
            ic <= cvec.len(),
            sdv == src.deep_view(),
            cskip == cvec.deep_view().skip(ic as int),
            v.deep_view() == sdv.subrange(start as int, i as int),
            rem_run(sdv.skip(start as int), cskip) == (i - start) + rem_run(
                sdv.skip(i as int),
                cskip,
            ),
        decreases src.len() - i,
    {
        let ghost old_dv = v.deep_view();
        v.push(src[i].clone());
        proof {
            let cur = sdv.skip(i as int);
            assert(cur.len() > 0 && cur[0] == sdv[i as int]);
            if ic < cvec.len() {
                assert(cskip[0] == cvec.deep_view()[ic as int]);
            }
            assert(rem_run(cur, cskip) == 1 + rem_run(cur.drop_first(), cskip));
            assert(cur.drop_first() =~~= sdv.skip(i + 1));
            assert(v.deep_view() =~~= old_dv.push(sdv[i as int]));
            assert(v.deep_view() =~~= sdv.subrange(start as int, i + 1));
        }
        i += 1;
    }
    proof {
        let cur = sdv.skip(i as int);
        if i < src.len() {
            assert(cur[0] == sdv[i as int]);
            assert(cskip.len() > 0 && cskip[0] == cvec.deep_view()[ic as int]);
        }
        assert(rem_run(cur, cskip) == 0);
    }
    (v, i)
}

/// Merges the changes of `edit` against `orig`, given the common string that
/// `lcs` computed for them, into an ordered list of Same / Rem / Add
/// segments, walking the three token lists in lockstep.
#[verifier::rlimit(100)]
#[verifier::spinoff_prover]
pub fn merge(orig: &str, edit: &str, common: &str, split: &SplitType) -> (ret: Vec<Difference>)
    ensures
        ret.deep_view() == merge_segs(orig@, edit@, common@, *split),
{
    let l = merge_split(orig, split);
    let r = merge_split(edit, split);
    let c = merge_split(common, split);
    let ghost ldv = l.deep_view();
    let ghost rdv = r.deep_view();
    let ghost cdv = c.deep_view();
    let sep_str: &str = if let SplitType::Word = split {
        " "
    } else {
        ""
    };
    proof {
        reveal_strlit(" ");
        reveal_strlit("");
        assert(" "@ =~= seq![' ']);
        assert(""@ =~= Seq::<char>::empty());
        assert(sep_str@ == sep_of(*split));
    }
    let ghost sep = sep_of(*split);
    let ghost target = runs_to_segs(merge_runs(ldv, rdv, cdv), sep);
    let mut ret: Vec<Difference> = Vec::new();
    let mut il: usize = 0;
    let mut ir: usize = 0;
    let mut ic: usize = 0;
    proof {
        assert(ldv.skip(0) =~~= ldv);
        assert(rdv.skip(0) =~~= rdv);
        assert(cdv.skip(0) =~~= cdv);
        assert(ret.deep_view() =~~= Seq::<SegView>::empty());
        assert(target == ret.deep_view().add(
            runs_to_segs(merge_runs(ldv.skip(0), rdv.skip(0), cdv.skip(0)), sep),
        ));
    }
    while il < l.len() || ir < r.len()
        invariant
            ldv == l.deep_view() && rdv == r.deep_view() && cdv == c.deep_view(),
            sep == sep_of(*split) && sep_str@ == sep,
            target == runs_to_segs(merge_runs(ldv, rdv, cdv), sep),
            0 <= il <= l.len(),
            0 <= ir <= r.len(),
            0 <= ic <= c.len(),
            target == ret.deep_view().add(
                runs_to_segs(
                    merge_runs(ldv.skip(il as int), rdv.skip(ir as int), cdv.skip(ic as int)),
                    sep,
                ),
            ),
        decreases (l.len() - il) + (r.len() - ir) + (c.len() - ic),
    {
        let start_il = il;
        let start_ir = ir;
        let ghost il0 = il as int;
        let ghost ir0 = ir as int;
        let ghost ic0 = ic as int;
        let ghost big_l = ldv.skip(il0);
        let ghost big_r = rdv.skip(ir0);
        let ghost big_c = cdv.skip(ic0);
        let ghost ret0 = ret.deep_view();

        // Maximal run where all three cursors agree.
        let mut same: Vec<String> = Vec::new();
        proof {
            assert(same.deep_view() =~~= ldv.subrange(il0, il0));
        }
        while il < l.len() && ir < r.len() && ic < c.len() && string_eq(&l[il], &c[ic])
            && string_eq(&r[ir], &c[ic])
            invariant
                ldv == l.deep_view() && rdv == r.deep_view() && cdv == c.deep_view(),
                0 <= il0 <= il <= l.len(),
                0 <= ir0 <= ir <= r.len(),
                0 <= ic0 <= ic <= c.len(),
                il - il0 == ir - ir0 && il - il0 == ic - ic0,
                big_l == ldv.skip(il0) && big_r == rdv.skip(ir0) && big_c == cdv.skip(ic0),
                same.deep_view() == ldv.subrange(il0, il as int),
                same_run(big_l, big_r, big_c) == (il - il0) + same_run(
                    ldv.skip(il as int),
                    rdv.skip(ir as int),
                    cdv.skip(ic as int),
                ),
            decreases l.len() - il,
        {
            let ghost old_dv = same.deep_view();
            same.push(l[il].clone());
            proof {
                let cl = ldv.skip(il as int);
                let cr = rdv.skip(ir as int);
                let cc = cdv.skip(ic as int);
                assert(cl[0] == ldv[il as int]);
                assert(cr[0] == rdv[ir as int]);
                assert(cc[0] == cdv[ic as int]);
                assert(same_run(cl, cr, cc) == 1 + same_run(
                    cl.drop_first(),
                    cr.drop_first(),
                    cc.drop_first(),
                ));
                assert(cl.drop_first() =~~= ldv.skip(il + 1));
                assert(cr.drop_first() =~~= rdv.skip(ir + 1));
                assert(cc.drop_first() =~~= cdv.skip(ic + 1));
                assert(same.deep_view() =~~= old_dv.push(ldv[il as int]));
                assert(same.deep_view() =~~= ldv.subrange(il0, il + 1));
            }
            il += 1;
            ir += 1;
            ic += 1;
        }
        proof {
            let cl = ldv.skip(il as int);
            let cr = rdv.skip(ir as int);
            let cc = cdv.skip(ic as int);
            if il < l.len() {
                assert(cl[0] == ldv[il as int]);
            }
            if ir < r.len() {
                assert(cr[0] == rdv[ir as int]);
            }
            if ic < c.len() {
                assert(cc[0] == cdv[ic as int]);
            }
            assert(same_run(cl, cr, cc) == 0);
        }
        let ghost il1 = il as int;
        let ghost ic1 = ic as int;
        let ghost run_n = il1 - il0;
        if same.len() > 0 {
            let joined = join_with(&same, sep_str);
            if !joined.as_str().is_empty() {
                let ghost before = ret.deep_view();
                ret.push(Difference::Same(joined));
                proof {
                    assert(ret.deep_view() =~~= before.push(
                        SegView::Same(join_tokens(ldv.subrange(il0, il1), sep)),
                    ));
                }
            }
        }

        // Maximal run of original tokens that differ from the common token.
        let (rem, nil) = collect_rem_run(&l, &c, il, ic);
        let ghost il2 = nil as int;
        let ghost run_m = il2 - il1;
        il = nil;
        if rem.len() > 0 {
            let joined = join_with(&rem, sep_str);
            let ghost before = ret.deep_view();
            ret.push(Difference::Rem(joined));
            proof {
                assert(ret.deep_view() =~~= before.push(
                    SegView::Rem(join_tokens(ldv.subrange(il1, il2), sep)),
                ));
            }
        }

        // Maximal run of edited tokens that differ from the common token.
        let (addv, nir) = collect_rem_run(&r, &c, ir, ic);
        let ghost ir2 = nir as int;
        let ghost run_k = ir2 - ir0 - run_n;
        ir = nir;
        if addv.len() > 0 {
            let joined = join_with(&addv, sep_str);
            let ghost before = ret.deep_view();
            ret.push(Difference::Add(joined));
            proof {
                assert(ret.deep_view() =~~= before.push(
                    SegView::Add(join_tokens(rdv.subrange(ir0 + run_n, ir2), sep)),
                ));
            }
        }

        proof {
            lemma_merge_runs_unfold(big_l, big_r, big_c, sep);
            let n = same_run(big_l, big_r, big_c);
            assert(n == run_n);
            let l1 = big_l.skip(n);
            let r1 = big_r.skip(n);
            let c1 = big_c.skip(n);
            assert(l1 =~~= ldv.skip(il1));
            assert(r1 =~~= rdv.skip(ir0 + run_n));
            assert(c1 =~~= cdv.skip(ic1));
            let m_run = rem_run(l1, c1);
            assert(m_run == run_m);
            let k_run = rem_run(r1, c1);
            assert(k_run == run_k);
            assert(l1.skip(m_run) =~~= ldv.skip(il2));
            assert(r1.skip(k_run) =~~= rdv.skip(ir2));
            assert(big_l.take(n) =~~= ldv.subrange(il0, il1));
            assert(l1.take(m_run) =~~= ldv.subrange(il1, il2));
            assert(r1.take(k_run) =~~= rdv.subrange(ir0 + run_n, ir2));
            if n + m_run + k_run > 0 {
                assert(ret.deep_view() =~~= ret0.add(same_seg(big_l.take(n), sep)).add(
                    rem_seg(l1.take(m_run), sep),
                ).add(add_seg(r1.take(k_run), sep)));
                assert(target == ret.deep_view().add(
                    runs_to_segs(merge_runs(ldv.skip(il2), rdv.skip(ir2), cdv.skip(ic1)), sep),
                ));
            }
        }
        if il == start_il && ir == start_ir {
            // No run made progress: the common cursor is not aligned with
            // either side, so drop one common token and continue.
            proof {
                assert(run_n == 0 && run_m == 0 && run_k == 0);
                let n = same_run(big_l, big_r, big_c);
                let c1 = big_c.skip(n);
                assert(c1.len() > 0);
                assert(c1 =~~= cdv.skip(ic as int));
                assert(ic < c.len());
                assert(big_l.skip(n).skip(0) =~~= ldv.skip(il as int));
                assert(big_r.skip(n).skip(0) =~~= rdv.skip(ir as int));
                assert(c1.drop_first() =~~= cdv.skip(ic + 1));
                assert(runs_to_segs(merge_runs(big_l, big_r, big_c), sep) == runs_to_segs(
                    merge_runs(ldv.skip(il as int), rdv.skip(ir as int), cdv.skip(ic + 1)),
                    sep,
                ));
            }
            ic += 1;
        }
    }
    proof {
        assert(ldv.skip(il as int) =~~= Seq::<Seq<char>>::empty());
        assert(rdv.skip(ir as int) =~~= Seq::<Seq<char>>::empty());
        assert(merge_runs(
            ldv.skip(il as int),
            rdv.skip(ir as int),
            cdv.skip(ic as int),
        ) == Seq::<Run>::empty());
        assert(ret.deep_view() =~~= ret.deep_view().add(Seq::<SegView>::empty()));
        assert(ret.deep_view() == target);
    }
    ret
}


// ---------------------------------------------------------------------------
// The changeset: distance and segments together.
// ---------------------------------------------------------------------------

/// What `Changeset::new` and `diff` promise: there is a common string,
/// satisfying everything `lcs` promises of it, against which the segments
/// are the merge of the two inputs.
pub open spec fn changeset_post(
    orig: Seq<char>,
    edit: Seq<char>,
    t: SplitType,
    dist: int,
    segs: Seq<SegView>,
) -> bool {
    &&& exists|common: Seq<char>| {
        &&& #[trigger] lcs_post(orig, edit, t, dist, common)
        &&& segs == merge_segs(orig, edit, common, t)
    }
    &&& (orig == edit && orig.len() > 0 && (t == SplitType::Line
        ==> crate::tokenize::sep_free(orig, '\n')) ==> segs == seq![SegView::Same(orig)]
        && dist == 0)
}

/// The distance and segments of one comparison of two strings.
pub struct Changeset {
    pub diffs: Vec<Difference>,
    pub split: SplitType,
    pub distance: i32,
}

impl Changeset {
    /// Compares `orig` and `edit` at granularity `split`.
    pub fn new(orig: &str, edit: &str, split: &SplitType) -> (r: Changeset)
        requires
            orig@.len() <= MAX_TEXT_LEN as int,
            edit@.len() <= MAX_TEXT_LEN as int,
        ensures
            r.split == *split,
            changeset_post(orig@, edit@, *split, r.distance as int, r.diffs.deep_view()),
    {
        let (dist, common) = lcs(orig, edit, split);
        let diffs = merge(orig, edit, common.as_str(), split);
        proof {
            if orig@ == edit@ && orig@.len() > 0 && (*split == SplitType::Line
                ==> crate::tokenize::sep_free(orig@, '\n')) {
                lemma_identical_single_same(orig@, *split);
                assert(common@ == orig@);
            }
        }
        Changeset { diffs, split: *split, distance: dist }
    }
}

/// Compares `orig` and `edit` at granularity `split`, returning the distance
/// and the ordered segments.
pub fn diff(orig: &str, edit: &str, split: &SplitType) -> (r: (i32, Vec<Difference>))
    requires
        orig@.len() <= MAX_TEXT_LEN as int,
        edit@.len() <= MAX_TEXT_LEN as int,
    ensures
        changeset_post(orig@, edit@, *split, r.0 as int, r.1.deep_view()),
{
    let ch = Changeset::new(orig, edit, split);
    (ch.distance, ch.diffs)
}

// ---------------------------------------------------------------------------
// Laws of the engine.
// ---------------------------------------------------------------------------

/// Joining with the empty separator concatenates.
pub proof fn lemma_join_empty_concat(ts1: Seq<Seq<char>>, ts2: Seq<Seq<char>>)
    ensures
        join_tokens(ts1.add(ts2), Seq::<char>::empty()) == join_tokens(
            ts1,
            Seq::<char>::empty(),
        ).add(join_tokens(ts2, Seq::<char>::empty())),
    decreases ts1.len(),
{
    let sep = Seq::<char>::empty();
    if ts1.len() == 0 {
        assert(ts1.add(ts2) =~~= ts2);
        assert(join_tokens(ts1, sep).add(join_tokens(ts2, sep)) =~= join_tokens(ts2, sep));
    } else if ts1.len() == 1 && ts2.len() == 0 {
        assert(ts1.add(ts2) =~~= ts1);
        assert(join_tokens(ts1, sep).add(join_tokens(ts2, sep)) =~= join_tokens(ts1, sep));
    } else {
        lemma_join_empty_concat(ts1.drop_first(), ts2);
        assert(ts1.add(ts2).drop_first() =~~= ts1.drop_first().add(ts2));
        assert(ts1.add(ts2)[0] == ts1[0]);
        assert(ts1.add(ts2).len() > 1);
        assert(join_tokens(ts1.add(ts2), sep) == ts1[0].add(sep).add(
            join_tokens(ts1.drop_first().add(ts2), sep),
        ));
        if ts1.len() == 1 {
            assert(ts1.drop_first() =~~= Seq::<Seq<char>>::empty());
            assert(join_tokens(ts1.drop_first(), sep) =~= Seq::<char>::empty());
            assert(ts1[0].add(sep).add(join_tokens(ts2, sep)) =~= join_tokens(ts1, sep).add(
                join_tokens(ts2, sep),
            ));
        } else {
            assert(join_tokens(ts1, sep) == ts1[0].add(sep).add(
                join_tokens(ts1.drop_first(), sep),
            ));
            assert(ts1[0].add(sep).add(
                join_tokens(ts1.drop_first(), sep).add(join_tokens(ts2, sep)),
            ) =~= join_tokens(ts1, sep).add(join_tokens(ts2, sep)));
        }
    }
}

/// On three identical cursors the whole list is one Same run.
pub proof fn lemma_same_run_all(ts: Seq<Seq<char>>)
    ensures
        same_run(ts, ts, ts) == ts.len(),
    decreases ts.len(),
{
    if ts.len() > 0 {
        lemma_same_run_all(ts.drop_first());
    }
}

/// Merging a token list against itself yields a single Same run of the
/// whole list.
pub proof fn lemma_merge_runs_identical(ts: Seq<Seq<char>>)
    ensures
        ts.len() == 0 ==> merge_runs(ts, ts, ts) == Seq::<Run>::empty(),
        ts.len() > 0 ==> merge_runs(ts, ts, ts) == seq![Run { kind: RunKind::Same, toks: ts }],
{
    if ts.len() > 0 {
        lemma_same_run_all(ts);
        let n = same_run(ts, ts, ts);
        let l1 = ts.skip(n);
        assert(l1 =~~= Seq::<Seq<char>>::empty());
        assert(rem_run(l1, l1) == 0);
        assert(l1.skip(0) =~~= l1);
        assert(merge_runs(l1, l1, l1) == Seq::<Run>::empty());
        assert(merge_runs(l1.skip(0), l1.skip(0), l1) == Seq::<Run>::empty());
        let same_part = seq![Run { kind: RunKind::Same, toks: ts.take(n) }];
        assert(merge_runs(ts, ts, ts) == same_part.add(Seq::<Run>::empty()).add(
            Seq::<Run>::empty(),
        ).add(merge_runs(l1.skip(0), l1.skip(0), l1)));
        assert(ts.take(n) =~~= ts);
        assert(same_part.add(Seq::<Run>::empty()).add(Seq::<Run>::empty()).add(
            merge_runs(l1.skip(0), l1.skip(0), l1),
        ) =~~= seq![Run { kind: RunKind::Same, toks: ts }]);
    }
}

/// Identical inputs produce exactly one Same segment holding the whole
/// string: the common string that `lcs` reports for a string against itself
/// is the string, and merging the string against itself over it yields one
/// Same segment. One granularity carries a proviso: line tokens are
/// re-joined without their separator, so the string must hold a single
/// line.
pub proof fn lemma_identical_single_same(s: Seq<char>, t: SplitType)
    requires
        s.len() > 0,
        t == SplitType::Line ==> crate::tokenize::sep_free(s, '\n'),
    ensures
        join_tokens(lcs_tokens(s, t), sep_of(t)) == s,
        merge_segs(s, s, s, t) == seq![SegView::Same(s)],
{
    match t {
        SplitType::Character => {
            lemma_join_char_tokens(s);
        },
        SplitType::Word => {
            lemma_join_split_on(s, ' ');
        },
        SplitType::Line => {
            crate::tokenize::lemma_split_all_clean(s, '\n');
            assert(lcs_tokens(s, t) == seq![s]);
            assert(join_tokens(seq![s], sep_of(t)) == s);
        },
        SplitType::SmartWord => {
            lemma_join_smart_tokens(s);
        },
    }
    let mt = merge_tokens(s, t);
    let sep = sep_of(t);
    // The merged tokens joined give back the string.
    match t {
        SplitType::Character => {
            let edge = seq![Seq::<char>::empty()];
            lemma_join_empty_concat(edge, char_tokens(s).push(Seq::<char>::empty()));
            lemma_join_empty_concat(char_tokens(s), edge);
            assert(char_tokens(s).push(Seq::<char>::empty()) =~~= char_tokens(s).add(edge));
            assert(edge.add(char_tokens(s).push(Seq::<char>::empty())) =~~= mt);
            assert(join_tokens(edge, Seq::<char>::empty()) =~= Seq::<char>::empty());
            lemma_join_char_tokens(s);
            assert(join_tokens(mt, sep) =~= s);
        },
        SplitType::Word => {
            lemma_join_split_on(s, ' ');
            assert(join_tokens(mt, sep) == s);
        },
        SplitType::Line => {
            crate::tokenize::lemma_split_all_clean(s, '\n');
            assert(mt == seq![s]);
            assert(join_tokens(mt, sep) == s);
        },
        SplitType::SmartWord => {
            lemma_join_smart_tokens(s);
            assert(join_tokens(mt, sep) == s);
        },
    }
    assert(mt.len() > 0);
    lemma_merge_runs_identical(mt);
    let runs = merge_runs(mt, mt, mt);
    assert(runs == seq![Run { kind: RunKind::Same, toks: mt }]);
    assert(runs.drop_first() =~~= Seq::<Run>::empty());
    assert(runs_to_segs(runs.drop_first(), sep) == runs_to_segs(Seq::<Run>::empty(), sep));
    assert(runs_to_segs(Seq::<Run>::empty(), sep) =~~= Seq::<SegView>::empty());
    assert(runs[0] == Run { kind: RunKind::Same, toks: mt });
    assert(join_tokens(mt, sep).len() > 0);
    assert(runs_to_segs(runs, sep) =~~= seq![SegView::Same(s)]);
}

/// The original-side token stream of a run list: the tokens of its Same and
/// Rem runs, in order.
pub open spec fn orig_tokens_of(runs: Seq<Run>) -> Seq<Seq<char>>
    decreases runs.len(),
{
    if runs.len() == 0 {
        Seq::<Seq<char>>::empty()
    } else {
        let rest = orig_tokens_of(runs.drop_first());
        match runs[0].kind {
            RunKind::Same => runs[0].toks.add(rest),
            RunKind::Rem => runs[0].toks.add(rest),
            RunKind::Add => rest,
        }
    }
}

/// The edited-side token stream of a run list: the tokens of its Same and
/// Add runs, in order.
pub open spec fn edit_tokens_of(runs: Seq<Run>) -> Seq<Seq<char>>
    decreases runs.len(),
{
    if runs.len() == 0 {
        Seq::<Seq<char>>::empty()
    } else {
        let rest = edit_tokens_of(runs.drop_first());
        match runs[0].kind {
            RunKind::Same => runs[0].toks.add(rest),
            RunKind::Add => runs[0].toks.add(rest),
            RunKind::Rem => rest,
        }
    }
}

proof fn lemma_orig_tokens_add(r1: Seq<Run>, r2: Seq<Run>)
    ensures
        orig_tokens_of(r1.add(r2)) == orig_tokens_of(r1).add(orig_tokens_of(r2)),
        edit_tokens_of(r1.add(r2)) == edit_tokens_of(r1).add(edit_tokens_of(r2)),
    decreases r1.len(),
{
    if r1.len() == 0 {
        assert(r1.add(r2) =~~= r2);
        assert(orig_tokens_of(r1).add(orig_tokens_of(r2)) =~~= orig_tokens_of(r2));
        assert(edit_tokens_of(r1).add(edit_tokens_of(r2)) =~~= edit_tokens_of(r2));
    } else {
        lemma_orig_tokens_add(r1.drop_first(), r2);
        assert(r1.add(r2).drop_first() =~~= r1.drop_first().add(r2));
        assert(r1.add(r2)[0] == r1[0]);
        assert(orig_tokens_of(r1.add(r2)) =~~= orig_tokens_of(r1).add(orig_tokens_of(r2)));
        assert(edit_tokens_of(r1.add(r2)) =~~= edit_tokens_of(r1).add(edit_tokens_of(r2)));
    }
}

/// Along a Same run all three cursors read the same tokens, and the common
/// cursor stays a subsequence of both others.
proof fn lemma_same_run_props(l: Seq<Seq<char>>, r: Seq<Seq<char>>, c: Seq<Seq<char>>)
    requires
        is_subseq(c, l),
        is_subseq(c, r),
    ensures
        ({
            let n = same_run(l, r, c);
            &&& l.take(n) == c.take(n)
            &&& r.take(n) == c.take(n)
            &&& is_subseq(c.skip(n), l.skip(n))
            &&& is_subseq(c.skip(n), r.skip(n))
        }),
    decreases l.len(),
{
    lemma_same_run_bounds(l, r, c);
    let n = same_run(l, r, c);
    if l.len() > 0 && r.len() > 0 && c.len() > 0 && l[0] == c[0] && r[0] == c[0] {
        assert(is_subseq(c.drop_first(), l.drop_first()));
        assert(is_subseq(c.drop_first(), r.drop_first()));
        lemma_same_run_props(l.drop_first(), r.drop_first(), c.drop_first());
        lemma_same_run_bounds(l.drop_first(), r.drop_first(), c.drop_first());
        let n1 = same_run(l.drop_first(), r.drop_first(), c.drop_first());
        assert(n == 1 + n1);
        assert(l.take(n) =~~= seq![l[0]].add(l.drop_first().take(n1)));
        assert(c.take(n) =~~= seq![c[0]].add(c.drop_first().take(n1)));
        assert(r.take(n) =~~= seq![r[0]].add(r.drop_first().take(n1)));
        assert(l.skip(n) =~~= l.drop_first().skip(n1));
        assert(r.skip(n) =~~= r.drop_first().skip(n1));
        assert(c.skip(n) =~~= c.drop_first().skip(n1));
    } else {
        assert(n == 0);
        assert(l.take(0) =~~= c.take(0));
        assert(r.take(0) =~~= c.take(0));
        assert(l.skip(0) =~~= l);
        assert(r.skip(0) =~~= r);
        assert(c.skip(0) =~~= c);
    }
}

/// Across a Rem or Add run the common cursor skips no token it still owes.
proof fn lemma_rem_run_subseq(l: Seq<Seq<char>>, c: Seq<Seq<char>>)
    requires
        is_subseq(c, l),
    ensures
        is_subseq(c, l.skip(rem_run(l, c))),
    decreases l.len(),
{
    lemma_rem_run_bounds(l, c);
    let m = rem_run(l, c);
    if l.len() > 0 && (c.len() == 0 || l[0] != c[0]) {
        assert(is_subseq(c, l.drop_first()));
        lemma_rem_run_subseq(l.drop_first(), c);
        lemma_rem_run_bounds(l.drop_first(), c);
        assert(l.skip(m) =~~= l.drop_first().skip(m - 1));
    } else {
        assert(l.skip(0) =~~= l);
    }
}

/// Round trip: when the common tokens are a common subsequence of both sides
/// — as `lcs` guarantees of its result — walking the merge's runs and
/// keeping the Same and Rem runs reproduces the original token stream, and
/// keeping the Same and Add runs reproduces the edited token stream.
pub proof fn lemma_merge_round_trip(l: Seq<Seq<char>>, r: Seq<Seq<char>>, c: Seq<Seq<char>>)
    requires
        is_subseq(c, l),
        is_subseq(c, r),
    ensures
        orig_tokens_of(merge_runs(l, r, c)) == l,
        edit_tokens_of(merge_runs(l, r, c)) == r,
    decreases l.len() + r.len() + c.len(),
{
    if l.len() == 0 && r.len() == 0 {
        assert(merge_runs(l, r, c) == Seq::<Run>::empty());
        assert(l =~~= Seq::<Seq<char>>::empty());
        assert(r =~~= Seq::<Seq<char>>::empty());
    } else {
        lemma_same_run_bounds(l, r, c);
        lemma_same_run_props(l, r, c);
        let n = same_run(l, r, c);
        let l1 = l.skip(n);
        let r1 = r.skip(n);
        let c1 = c.skip(n);
        lemma_rem_run_bounds(l1, c1);
        lemma_rem_run_bounds(r1, c1);
        lemma_rem_run_subseq(l1, c1);
        lemma_rem_run_subseq(r1, c1);
        let m = rem_run(l1, c1);
        let k = rem_run(r1, c1);
        let l2 = l1.skip(m);
        let r2 = r1.skip(k);
        // The walk always makes progress on a true common subsequence.
        if n + m + k == 0 {
            assert(l1 =~~= l);
            assert(r1 =~~= r);
            assert(c1 =~~= c);
            if l.len() > 0 {
                lemma_rem_run_bounds(l.drop_first(), c);
                assert(rem_run(l, c) == 0);
                assert(c.len() > 0 && l[0] == c[0]);
                if r.len() == 0 {
                    lemma_subseq_len(c, r);
                    assert(false);
                } else {
                    lemma_rem_run_bounds(r.drop_first(), c);
                    assert(rem_run(r, c) == 0);
                    assert(r[0] == c[0]);
                    lemma_same_run_bounds(l.drop_first(), r.drop_first(), c.drop_first());
                    assert(same_run(l, r, c) > 0);
                    assert(false);
                }
            } else {
                lemma_subseq_len(c, l);
                assert(c.len() == 0);
                assert(r.len() > 0);
                lemma_rem_run_bounds(r.drop_first(), c);
                assert(rem_run(r, c) > 0);
                assert(false);
            }
        }
        lemma_merge_round_trip(l2, r2, c1);
        let same_part: Seq<Run> = if n > 0 {
            seq![Run { kind: RunKind::Same, toks: l.take(n) }]
        } else {
            Seq::<Run>::empty()
        };
        let rem_part: Seq<Run> = if m > 0 {
            seq![Run { kind: RunKind::Rem, toks: l1.take(m) }]
        } else {
            Seq::<Run>::empty()
        };
        let add_part: Seq<Run> = if k > 0 {
            seq![Run { kind: RunKind::Add, toks: r1.take(k) }]
        } else {
            Seq::<Run>::empty()
        };
        let rest = merge_runs(l2, r2, c1);
        assert(merge_runs(l, r, c) == same_part.add(rem_part).add(add_part).add(rest));
        lemma_orig_tokens_add(same_part.add(rem_part).add(add_part), rest);
        lemma_orig_tokens_add(same_part.add(rem_part), add_part);
        lemma_orig_tokens_add(same_part, rem_part);
        assert(orig_tokens_of(same_part) =~~= l.take(n)) by {
            if n > 0 {
                assert(same_part.drop_first() =~~= Seq::<Run>::empty());
                assert(orig_tokens_of(same_part.drop_first()) == orig_tokens_of(
                    Seq::<Run>::empty(),
                ));
            } else {
                assert(l.take(0) =~~= Seq::<Seq<char>>::empty());
            }
        }
        assert(edit_tokens_of(same_part) =~~= r.take(n)) by {
            if n > 0 {
                assert(same_part.drop_first() =~~= Seq::<Run>::empty());
                assert(edit_tokens_of(same_part.drop_first()) == edit_tokens_of(
                    Seq::<Run>::empty(),
                ));
                assert(l.take(n) == r.take(n));
            } else {
                assert(r.take(0) =~~= Seq::<Seq<char>>::empty());
            }
        }
        assert(orig_tokens_of(rem_part) =~~= l1.take(m) && edit_tokens_of(rem_part)
            =~~= Seq::<Seq<char>>::empty()) by {
            if m > 0 {
                assert(rem_part.drop_first() =~~= Seq::<Run>::empty());
                assert(orig_tokens_of(rem_part.drop_first()) == orig_tokens_of(
                    Seq::<Run>::empty(),
                ));
                assert(edit_tokens_of(rem_part.drop_first()) == edit_tokens_of(
                    Seq::<Run>::empty(),
                ));
            } else {
                assert(l1.take(0) =~~= Seq::<Seq<char>>::empty());
            }
        }
        assert(edit_tokens_of(add_part) =~~= r1.take(k) && orig_tokens_of(add_part)
            =~~= Seq::<Seq<char>>::empty()) by {
            if k > 0 {
                assert(add_part.drop_first() =~~= Seq::<Run>::empty());
                assert(orig_tokens_of(add_part.drop_first()) == orig_tokens_of(
                    Seq::<Run>::empty(),
                ));
                assert(edit_tokens_of(add_part.drop_first()) == edit_tokens_of(
                    Seq::<Run>::empty(),
                ));
            } else {
                assert(r1.take(0) =~~= Seq::<Seq<char>>::empty());
            }
        }
        assert(orig_tokens_of(merge_runs(l, r, c)) =~~= l.take(n).add(l1.take(m)).add(l2));
        assert(l.take(n).add(l1.take(m)).add(l2) =~~= l);
        assert(edit_tokens_of(merge_runs(l, r, c)) =~~= r.take(n).add(r1.take(k)).add(r2));
        assert(r.take(n).add(r1.take(k)).add(r2) =~~= r);
    }
}

} // verus!
