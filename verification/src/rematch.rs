//! The alignment engine: pairing the elements of two sequences by repeatedly
//! matching the globally closest pair under a normalized edit distance and
//! splitting the remainder around it.

use vstd::prelude::*;
use vstd::string::StrSliceExecFns;
use vstd::arithmetic::div_mod::{lemma_fundamental_div_mod, lemma_fundamental_div_mod_converse, lemma_mod_bound};
use crate::tokenize::{trim, trim_spec, MAX_TEXT_LEN};

verus! {

// ---------------------------------------------------------------------------
// Levenshtein distance.
// ---------------------------------------------------------------------------

/// The smaller of two values.
pub open spec fn min2(x: int, y: int) -> int {
    if x < y {
        x
    } else {
        y
    }
}

/// The edit distance between two character sequences: the least number of
/// single-character insertions, deletions and substitutions turning one into
/// the other.
pub open spec fn lev(a: Seq<char>, b: Seq<char>) -> int
    decreases a.len() + b.len(),
{
    if a.len() == 0 {
        b.len() as int
    } else if b.len() == 0 {
        a.len() as int
    } else if a.last() == b.last() {
        lev(a.drop_last(), b.drop_last())
    } else {
        1 + min2(
            lev(a.drop_last(), b.drop_last()),
            min2(lev(a, b.drop_last()), lev(a.drop_last(), b)),
        )
    }
}

/// The edit distance never exceeds the longer input.
pub proof fn lemma_lev_le_max(a: Seq<char>, b: Seq<char>)
    ensures
        0 <= lev(a, b),
        lev(a, b) <= a.len() || lev(a, b) <= b.len(),
        lev(a, b) <= a.len() + b.len(),
    decreases a.len() + b.len(),
{
    if a.len() == 0 || b.len() == 0 {
    } else if a.last() == b.last() {
        lemma_lev_le_max(a.drop_last(), b.drop_last());
    } else {
        lemma_lev_le_max(a.drop_last(), b.drop_last());
        lemma_lev_le_max(a, b.drop_last());
        lemma_lev_le_max(a.drop_last(), b);
    }
}

fn min3(x: usize, y: usize, z: usize) -> (r: usize)
    ensures
        r as int == min2(x as int, min2(y as int, z as int)),
{
    let xy = if x < y {
        x
    } else {
        y
    };
    if xy < z {
        xy
    } else {
        z
    }
}

/// The characters of `s` as a vector.
fn chars_vec(s: &str) -> (r: Vec<char>)
    ensures
        r@ == s@,
{
    let n = s.unicode_len();
    let mut r: Vec<char> = Vec::new();
    let mut i: usize = 0;
    while i < n
        invariant
            n == s@.len(),
            0 <= i <= n,
            r@ == s@.take(i as int),
        decreases n - i,
    {
        r.push(s.get_char(i));
        proof {
            assert(r@ =~= s@.take(i + 1));
        }
        i += 1;
    }
    proof {
        assert(s@.take(n as int) =~= s@);
    }
    r
}

/// Computes the edit distance between `a` and `b` by the usual
/// dynamic-programming recurrence, one row at a time.
pub fn levenshtein(a: &str, b: &str) -> (r: usize)
    requires
        a@.len() <= MAX_TEXT_LEN as int,
        b@.len() <= MAX_TEXT_LEN as int,
    ensures
        r as int == lev(a@, b@),
{
    let av = chars_vec(a);
    let bv = chars_vec(b);
    let alen = av.len();
    let blen = bv.len();
    // Row 0: distance of each prefix of `a` to the empty string.
    let mut prev: Vec<usize> = Vec::new();
    let mut j: usize = 0;
    while j <= alen
        invariant
            alen == a@.len(),
            0 <= j <= alen + 1,
            alen <= MAX_TEXT_LEN as int,
            prev@.len() == j,
            forall|p: int| 0 <= p < j ==> prev@[p] == lev(a@.take(p), Seq::<char>::empty()),
        decreases alen + 1 - j,
    {
        prev.push(j);
        proof {
            assert(a@.take(j as int).len() == j);
            assert(lev(a@.take(j as int), Seq::<char>::empty()) == j);
        }
        j += 1;
    }
    let mut i: usize = 1;
    while i <= blen
        invariant
            alen == a@.len() && blen == b@.len() && av@ == a@ && bv@ == b@,
            alen <= MAX_TEXT_LEN as int && blen <= MAX_TEXT_LEN as int,
            1 <= i <= blen + 1,
            prev@.len() == alen + 1,
            forall|p: int| 0 <= p <= alen ==> prev@[p] == lev(a@.take(p), b@.take(i - 1)),
        decreases blen + 1 - i,
    {
        let mut cur: Vec<usize> = Vec::new();
        cur.push(i);
        proof {
            assert(b@.take(i as int).len() == i);
            assert(lev(a@.take(0), b@.take(i as int)) == i);
            assert(a@.take(0) =~= Seq::<char>::empty());
        }
        let mut k: usize = 1;
        while k <= alen
            invariant
                alen == a@.len() && blen == b@.len() && av@ == a@ && bv@ == b@,
                alen <= MAX_TEXT_LEN as int && blen <= MAX_TEXT_LEN as int,
                1 <= i <= blen,
                1 <= k <= alen + 1,
                prev@.len() == alen + 1,
                forall|p: int| 0 <= p <= alen ==> prev@[p] == lev(a@.take(p), b@.take(i - 1)),
                cur@.len() == k,
                forall|p: int| 0 <= p < k ==> cur@[p] == lev(a@.take(p), b@.take(i as int)),
            decreases alen + 1 - k,
        {
            let ghost ap = a@.take(k as int);
            let ghost bp = b@.take(i as int);
            proof {
                assert(ap.len() == k && bp.len() == i);
                assert(ap.last() == a@[k - 1]);
                assert(bp.last() == b@[i - 1]);
                assert(ap.drop_last() =~= a@.take(k - 1));
                assert(bp.drop_last() =~= b@.take(i - 1));
                lemma_lev_le_max(ap.drop_last(), bp.drop_last());
                lemma_lev_le_max(ap, bp.drop_last());
                lemma_lev_le_max(ap.drop_last(), bp);
            }
            let v: usize;
            if av[k - 1] == bv[i - 1] {
                v = prev[k - 1];
            } else {
                v = 1 + min3(prev[k - 1], cur[k - 1], prev[k]);
            }
            cur.push(v);
            proof {
                assert(cur@[k as int] == lev(ap, bp));
            }
            k += 1;
        }
        prev = cur;
        i += 1;
    }
    let r = prev[alen];
    proof {
        assert(a@.take(alen as int) =~= a@);
        if blen == 0 {
            assert(b@.take(0) =~= b@);
        } else {
            assert(b@.take(blen as int) =~= b@);
        }
    }
    r
}

// ---------------------------------------------------------------------------
// Normalized distance, as an exact rational.
// ---------------------------------------------------------------------------

/// A normalized distance: the edit distance of the two trimmed strings over
/// the sum of their lengths, kept as an exact numerator / denominator pair.
/// A zero denominator (two all-whitespace strings) compares as no distance
/// at all: such a pair is never preferred.
#[derive(Clone, Copy, PartialEq, Eq, Structural, Debug)]
pub struct Dist {
    pub num: u64,
    pub den: u64,
}

/// The numerator of the normalized distance of `x` and `y`.
pub open spec fn dist_num(x: Seq<char>, y: Seq<char>) -> int {
    lev(trim_spec(x), trim_spec(y))
}

/// The denominator of the normalized distance of `x` and `y`.
pub open spec fn dist_den(x: Seq<char>, y: Seq<char>) -> int {
    trim_spec(x).len() + trim_spec(y).len() as int
}

/// The normalized edit distance between `x` and `y`: the edit distance of
/// the trimmed strings divided by the sum of their lengths, as an exact
/// rational.
pub fn distance(x: &str, y: &str) -> (r: Dist)
    requires
        x@.len() <= MAX_TEXT_LEN as int,
        y@.len() <= MAX_TEXT_LEN as int,
    ensures
        r.num as int == dist_num(x@, y@),
        r.den as int == dist_den(x@, y@),
        r.num <= MAX_TEXT_LEN as u64,
        r.den <= 2 * MAX_TEXT_LEN as u64,
{
    let xt = trim(x);
    let yt = trim(y);
    let l = levenshtein(xt, yt);
    proof {
        lemma_lev_le_max(trim_spec(x@), trim_spec(y@));
    }
    Dist { num: l as u64, den: (xt.unicode_len() + yt.unicode_len()) as u64 }
}

/// Whether a candidate distance beats the best seen so far: a candidate with
/// a zero denominator never does, any other always beats "nothing yet", and
/// otherwise the exact rationals are compared.
pub open spec fn beats(cn: int, cd: int, best: Option<(int, int)>) -> bool {
    cd > 0 && match best {
        Option::None => true,
        Option::Some((bn, bd)) => cn * bd < bn * cd,
    }
}


// ---------------------------------------------------------------------------
// Best-match scan.
// ---------------------------------------------------------------------------

/// Whether every key is short enough for the distance engine.
pub open spec fn keys_short(ks: Seq<Seq<char>>) -> bool {
    forall|k: int| 0 <= k < ks.len() ==> (#[trigger] ks[k]).len() <= MAX_TEXT_LEN as int
}

/// The distance of the pair an index pair picks, if any.
pub open spec fn dist_of(o: Option<(int, int)>, a: Seq<Seq<char>>, b: Seq<Seq<char>>) -> Option<
    (int, int),
> {
    match o {
        Option::None => Option::None,
        Option::Some((i, j)) => Option::Some((dist_num(a[i], b[j]), dist_den(a[i], b[j]))),
    }
}

/// The best pair among the first `k` pairs of `a` and `b` in row-major
/// order: the first pair that no earlier pair strictly beats, pairs with a
/// zero denominator never taken.
pub open spec fn best_upto(a: Seq<Seq<char>>, b: Seq<Seq<char>>, k: int) -> Option<(int, int)>
    decreases k,
{
    if k <= 0 || b.len() == 0 {
        Option::<(int, int)>::None
    } else {
        let prev = best_upto(a, b, k - 1);
        let i = (k - 1) / b.len() as int;
        let j = (k - 1) % b.len() as int;
        if beats(dist_num(a[i], b[j]), dist_den(a[i], b[j]), dist_of(prev, a, b)) {
            Option::Some((i, j))
        } else {
            prev
        }
    }
}

/// The globally best pair of `a` and `b`, if any pair compares at all.
pub open spec fn best_pair(a: Seq<Seq<char>>, b: Seq<Seq<char>>) -> Option<(int, int)> {
    best_upto(a, b, (a.len() * b.len()) as int)
}

/// Any best pair lies inside both sequences and has a positive denominator.
pub proof fn lemma_best_upto_range(a: Seq<Seq<char>>, b: Seq<Seq<char>>, k: int)
    requires
        k <= a.len() * b.len(),
    ensures
        best_upto(a, b, k) matches Option::Some(p) ==> 0 <= p.0 < a.len() && 0 <= p.1 < b.len()
            && dist_den(a[p.0], b[p.1]) > 0,
    decreases k,
{
    if k <= 0 || b.len() == 0 {
    } else {
        lemma_best_upto_range(a, b, k - 1);
        let m = b.len() as int;
        let i = (k - 1) / m;
        let j = (k - 1) % m;
        lemma_mod_bound(k - 1, m);
        lemma_fundamental_div_mod(k - 1, m);
        assert(k - 1 == m * i + j);
        assert(i >= 0) by (nonlinear_arith)
            requires m > 0 && m * i + j == k - 1 && 0 <= j < m && k - 1 >= 0;
        assert(i < a.len()) by (nonlinear_arith)
            requires m > 0 && m * i + j == k - 1 && 0 <= j < m && k <= a.len() * m;
    }
}

/// One alignment result: a range of the first sequence paired with a range
/// of the second.
pub struct GroupView {
    pub a_lo: int,
    pub a_hi: int,
    pub b_lo: int,
    pub b_hi: int,
}

/// The recursive alignment of `a` against `b`, reported in absolute
/// positions `aoff` / `boff`: while a best pair exists and at least three
/// elements remain, the best pair becomes a matched singleton group, and the
/// elements before and after it are aligned recursively; otherwise the two
/// remainders form one unresolved group.
pub open spec fn align_rec(a: Seq<Seq<char>>, b: Seq<Seq<char>>, aoff: int, boff: int) -> Seq<
    GroupView,
>
    decreases a.len() + b.len(),
    via align_rec_decreases
{
    let best = best_pair(a, b);
    if best is None || a.len() + b.len() < 3 {
        seq![
            GroupView {
                a_lo: aoff,
                a_hi: aoff + a.len(),
                b_lo: boff,
                b_hi: boff + b.len(),
            },
        ]
    } else {
        let bi = best.unwrap().0;
        let bj = best.unwrap().1;
        let left = if bi > 0 || bj > 0 {
            align_rec(a.take(bi), b.take(bj), aoff, boff)
        } else {
            Seq::<GroupView>::empty()
        };
        let right = if a.len() > bi + 1 || b.len() > bj + 1 {
            align_rec(a.skip(bi + 1), b.skip(bj + 1), aoff + bi + 1, boff + bj + 1)
        } else {
            Seq::<GroupView>::empty()
        };
        left.add(
            seq![
                GroupView {
                    a_lo: aoff + bi,
                    a_hi: aoff + bi + 1,
                    b_lo: boff + bj,
                    b_hi: boff + bj + 1,
                },
            ],
        ).add(right)
    }
}

#[via_fn]
proof fn align_rec_decreases(a: Seq<Seq<char>>, b: Seq<Seq<char>>, aoff: int, boff: int) {
    lemma_best_upto_range(a, b, (a.len() * b.len()) as int);
}

/// Two non-empty sequences of fewer than three elements together align as a
/// single unresolved group, with no recursion.
pub proof fn lemma_align_small(a: Seq<Seq<char>>, b: Seq<Seq<char>>, aoff: int, boff: int)
    requires
        a.len() + b.len() < 3,
    ensures
        align_rec(a, b, aoff, boff) == seq![
            GroupView {
                a_lo: aoff,
                a_hi: aoff + a.len(),
                b_lo: boff,
                b_hi: boff + b.len(),
            },
        ],
{
}

/// The alignment is deterministic: any two results of aligning the same two
/// key sequences are the same, because `matches` pins its result to
/// `align_rec`, a function of the inputs alone.
pub proof fn lemma_align_deterministic(
    a: Seq<Seq<char>>,
    b: Seq<Seq<char>>,
    r1: Seq<GroupView>,
    r2: Seq<GroupView>,
)
    requires
        r1 == align_rec(a, b, 0, 0),
        r2 == align_rec(a, b, 0, 0),
    ensures
        r1 == r2,
{
}

// ---------------------------------------------------------------------------
// Executable alignment.
// ---------------------------------------------------------------------------

/// One match found by the scan: indices into both sequences and the
/// distance that won.
pub struct Match {
    pub index_a: usize,
    pub index_b: usize,
    pub score: Dist,
}

/// The index pair of a found match, if one was found.
pub open spec fn match_of(r: Option<Match>) -> Option<(int, int)> {
    match r {
        Option::None => Option::None,
        Option::Some(mt) => Option::Some((mt.index_a as int, mt.index_b as int)),
    }
}

/// The index pair shifted by the window offsets.
pub open spec fn shift_pair(o: Option<(int, int)>, da: int, db: int) -> Option<(int, int)> {
    match o {
        Option::None => Option::None,
        Option::Some((i, j)) => Option::Some((i + da, j + db)),
    }
}

/// Scans every pair inside the two windows and keeps the first strictly
/// best one.
fn find_best_match(
    a: &Vec<String>,
    b: &Vec<String>,
    alo: usize,
    ahi: usize,
    blo: usize,
    bhi: usize,
) -> (r: Option<Match>)
    requires
        alo <= ahi <= a.len(),
        blo <= bhi <= b.len(),
        keys_short(a.deep_view()),
        keys_short(b.deep_view()),
    ensures
        match_of(r) == shift_pair(
            best_pair(
                a.deep_view().subrange(alo as int, ahi as int),
                b.deep_view().subrange(blo as int, bhi as int),
            ),
            alo as int,
            blo as int,
        ),
        r matches Some(mt) ==> alo <= mt.index_a < ahi && blo <= mt.index_b < bhi,
{
    let ghost suba = a.deep_view().subrange(alo as int, ahi as int);
    let ghost subb = b.deep_view().subrange(blo as int, bhi as int);
    let ghost n = suba.len() as int;
    let ghost m = subb.len() as int;
    let mut best: Option<Match> = Option::None;
    let mut i = alo;
    while i < ahi
        invariant
            alo <= ahi <= a.len(),
            blo <= bhi <= b.len(),
            alo <= i <= ahi,
            keys_short(a.deep_view()),
            keys_short(b.deep_view()),
            suba == a.deep_view().subrange(alo as int, ahi as int),
            subb == b.deep_view().subrange(blo as int, bhi as int),
            n == suba.len() as int && m == subb.len() as int,
            match_of(best) == shift_pair(best_upto(suba, subb, (i - alo) * m), alo as int, blo as int),
            best matches Some(mt) ==> alo <= mt.index_a < ahi && blo <= mt.index_b < bhi
                && mt.score.num as int == dist_num(suba[mt.index_a - alo], subb[mt.index_b - blo])
                && mt.score.den as int == dist_den(suba[mt.index_a - alo], subb[mt.index_b - blo])
                && mt.score.den > 0 && mt.score.num <= MAX_TEXT_LEN as u64 && mt.score.den <= 2
                * MAX_TEXT_LEN as u64,
        decreases ahi - i,
    {
        let mut j = blo;
        proof {
            assert((i - alo) * m + 0 == (i - alo) * m);
        }
        while j < bhi
            invariant
                alo <= ahi <= a.len(),
                blo <= bhi <= b.len(),
                alo <= i < ahi,
                blo <= j <= bhi,
                keys_short(a.deep_view()),
                keys_short(b.deep_view()),
                suba == a.deep_view().subrange(alo as int, ahi as int),
                subb == b.deep_view().subrange(blo as int, bhi as int),
                n == suba.len() as int && m == subb.len() as int,
                match_of(best) == shift_pair(
                    best_upto(suba, subb, (i - alo) * m + (j - blo)),
                    alo as int,
                    blo as int,
                ),
                best matches Some(mt) ==> alo <= mt.index_a < ahi && blo <= mt.index_b < bhi
                    && mt.score.num as int == dist_num(
                    suba[mt.index_a - alo],
                    subb[mt.index_b - blo],
                ) && mt.score.den as int == dist_den(
                    suba[mt.index_a - alo],
                    subb[mt.index_b - blo],
                ) && mt.score.den > 0 && mt.score.num <= MAX_TEXT_LEN as u64 && mt.score.den <= 2
                    * MAX_TEXT_LEN as u64,
            decreases bhi - j,
        {
            let ghost k = (i - alo) * m + (j - blo);
            proof {
                assert(suba[i - alo] == a.deep_view()[i as int]);
                assert(subb[j - blo] == b.deep_view()[j as int]);
                assert(a.deep_view()[i as int].len() <= MAX_TEXT_LEN as int);
                assert(b.deep_view()[j as int].len() <= MAX_TEXT_LEN as int);
            }
            let d = distance(a[i].as_str(), b[j].as_str());
            let take: bool;
            match &best {
                Option::None => {
                    take = d.den > 0;
                },
                Option::Some(mt) => {
                    proof {
                        assert(mt.score.num <= MAX_TEXT_LEN as u64 && mt.score.den <= 2
                            * MAX_TEXT_LEN as u64);
                        assert((d.num as int) * (mt.score.den as int) <= 0x7FFF * 0xFFFE)
                            by (nonlinear_arith)
                            requires d.num as int <= 0x7FFF && mt.score.den as int <= 0xFFFE;
                        assert((mt.score.num as int) * (d.den as int) <= 0x7FFF * 0xFFFE)
                            by (nonlinear_arith)
                            requires mt.score.num as int <= 0x7FFF && d.den as int <= 0xFFFE;
                    }
                    take = d.den > 0 && d.num * mt.score.den < mt.score.num * d.den;
                },
            }
            proof {
                assert(0 <= j - blo < m);
                assert(k + 1 >= 1 && m > 0);
                lemma_fundamental_div_mod_converse(k, m, i - alo, j - blo);
                assert(k / m == i - alo && k % m == j - blo);
                assert(take == beats(
                    dist_num(suba[i - alo], subb[j - blo]),
                    dist_den(suba[i - alo], subb[j - blo]),
                    dist_of(best_upto(suba, subb, k), suba, subb),
                ));
            }
            if take {
                best = Option::Some(Match { index_a: i, index_b: j, score: d });
            }
            proof {
                assert(match_of(best) == shift_pair(
                    best_upto(suba, subb, k + 1),
                    alo as int,
                    blo as int,
                ));
            }
            j += 1;
        }
        proof {
            assert((i - alo) * m + (bhi - blo) == (i + 1 - alo) * m) by (nonlinear_arith)
                requires m == bhi - blo;
        }
        i += 1;
    }
    proof {
        assert((ahi - alo) * m == n * m) by (nonlinear_arith)
            requires n == ahi - alo;
    }
    best
}

/// One alignment group: a range of the first sequence paired with a range of
/// the second, in absolute indices; `a_lo == a_hi` stands for an empty side.
#[derive(Clone, Copy, PartialEq, Eq, Structural, Debug)]
pub struct MatchGroup {
    pub a_lo: usize,
    pub a_hi: usize,
    pub b_lo: usize,
    pub b_hi: usize,
}

impl View for MatchGroup {
    type V = GroupView;

    open spec fn view(&self) -> GroupView {
        GroupView {
            a_lo: self.a_lo as int,
            a_hi: self.a_hi as int,
            b_lo: self.b_lo as int,
            b_hi: self.b_hi as int,
        }
    }
}

impl DeepView for MatchGroup {
    type V = GroupView;

    open spec fn deep_view(&self) -> GroupView {
        self.view()
    }
}

/// Aligns the window `a[alo..ahi]` against `b[blo..bhi]`, appending the
/// groups to `out`.
#[verifier::rlimit(100)]
#[verifier::spinoff_prover]
fn align_range(
    a: &Vec<String>,
    b: &Vec<String>,
    alo: usize,
    ahi: usize,
    blo: usize,
    bhi: usize,
    out: &mut Vec<MatchGroup>,
)
    requires
        alo <= ahi <= a.len(),
        blo <= bhi <= b.len(),
        keys_short(a.deep_view()),
        keys_short(b.deep_view()),
    ensures
        final(out).deep_view() == old(out).deep_view().add(
            align_rec(
                a.deep_view().subrange(alo as int, ahi as int),
                b.deep_view().subrange(blo as int, bhi as int),
                alo as int,
                blo as int,
            ),
        ),
    decreases (ahi - alo) + (bhi - blo),
{
    let ghost suba = a.deep_view().subrange(alo as int, ahi as int);
    let ghost subb = b.deep_view().subrange(blo as int, bhi as int);
    let best = find_best_match(a, b, alo, ahi, blo, bhi);
    proof {
        lemma_best_upto_range(suba, subb, (suba.len() * subb.len()) as int);
    }
    match best {
        Option::None => {
            let ghost before = out.deep_view();
            out.push(MatchGroup { a_lo: alo, a_hi: ahi, b_lo: blo, b_hi: bhi });
            proof {
                assert(out.deep_view() =~~= before.add(align_rec(suba, subb, alo as int, blo as int)));
            }
        },
        Option::Some(mt) => {
            if ahi - alo < 3 && bhi - blo < 3 && (ahi - alo) + (bhi - blo) < 3 {
                let ghost before = out.deep_view();
                out.push(MatchGroup { a_lo: alo, a_hi: ahi, b_lo: blo, b_hi: bhi });
                proof {
                    assert(out.deep_view() =~~= before.add(
                        align_rec(suba, subb, alo as int, blo as int),
                    ));
                }
            } else {
                let i = mt.index_a;
                let j = mt.index_b;
                let ghost bi = i - alo;
                let ghost bj = j - blo;
                proof {
                    assert(suba.take(bi) =~~= a.deep_view().subrange(alo as int, i as int));
                    assert(subb.take(bj) =~~= b.deep_view().subrange(blo as int, j as int));
                    assert(suba.skip(bi + 1) =~~= a.deep_view().subrange(i + 1, ahi as int));
                    assert(subb.skip(bj + 1) =~~= b.deep_view().subrange(j + 1, bhi as int));
                }
                let ghost before = out.deep_view();
                if i > alo || j > blo {
                    align_range(a, b, alo, i, blo, j, out);
                }
                let ghost after_left = out.deep_view();
                out.push(MatchGroup { a_lo: i, a_hi: i + 1, b_lo: j, b_hi: j + 1 });
                let ghost after_mid = out.deep_view();
                if ahi > i + 1 || bhi > j + 1 {
                    align_range(a, b, i + 1, ahi, j + 1, bhi, out);
                }
                proof {
                    let left = if bi > 0 || bj > 0 {
                        align_rec(suba.take(bi), subb.take(bj), alo as int, blo as int)
                    } else {
                        Seq::<GroupView>::empty()
                    };
                    let right = if suba.len() > bi + 1 || subb.len() > bj + 1 {
                        align_rec(
                            suba.skip(bi + 1),
                            subb.skip(bj + 1),
                            alo + bi + 1,
                            blo + bj + 1,
                        )
                    } else {
                        Seq::<GroupView>::empty()
                    };
                    assert(after_left =~~= before.add(left));
                    let mid = GroupView {
                        a_lo: i as int,
                        a_hi: i + 1,
                        b_lo: j as int,
                        b_hi: j + 1,
                    };
                    assert(after_mid =~~= after_left.push(mid));
                    assert(out.deep_view() =~~= after_mid.add(right));
                    assert(align_rec(suba, subb, alo as int, blo as int) == left.add(
                        seq![mid],
                    ).add(right));
                    assert(out.deep_view() =~~= before.add(
                        align_rec(suba, subb, alo as int, blo as int),
                    ));
                }
            }
        },
    }
}

/// The alignment engine. It pairs two sequences by their comparison keys:
/// the strings handed to `matches`.
pub struct Rematcher {}

impl Rematcher {
    /// A fresh alignment engine.
    pub fn new() -> (r: Rematcher) {
        Rematcher {  }
    }

    /// Aligns the two key sequences, returning ordered groups of index
    /// ranges: each group pairs a run of `a` with a run of `b`.
    pub fn matches(&self, a: &Vec<String>, b: &Vec<String>) -> (r: Vec<MatchGroup>)
        requires
            keys_short(a.deep_view()),
            keys_short(b.deep_view()),
        ensures
            r.deep_view() == align_rec(a.deep_view(), b.deep_view(), 0, 0),
    {
        let mut out: Vec<MatchGroup> = Vec::new();
        align_range(a, b, 0, a.len(), 0, b.len(), &mut out);
        proof {
            assert(a.deep_view().subrange(0, a.len() as int) =~~= a.deep_view());
            assert(b.deep_view().subrange(0, b.len() as int) =~~= b.deep_view());
            assert(out.deep_view() =~~= align_rec(a.deep_view(), b.deep_view(), 0, 0));
        }
        out
    }
}


/// Every group of an alignment stays inside the two windows.
pub proof fn lemma_align_in_range(a: Seq<Seq<char>>, b: Seq<Seq<char>>, aoff: int, boff: int)
    ensures
        forall|t: int| 0 <= t < align_rec(a, b, aoff, boff).len() ==> {
            let g = #[trigger] align_rec(a, b, aoff, boff)[t];
            &&& aoff <= g.a_lo <= g.a_hi <= aoff + a.len()
            &&& boff <= g.b_lo <= g.b_hi <= boff + b.len()
        },
    decreases a.len() + b.len(),
{
    let best = best_pair(a, b);
    lemma_best_upto_range(a, b, (a.len() * b.len()) as int);
    if best is None || a.len() + b.len() < 3 {
    } else {
        let bi = best.unwrap().0;
        let bj = best.unwrap().1;
        let left = if bi > 0 || bj > 0 {
            align_rec(a.take(bi), b.take(bj), aoff, boff)
        } else {
            Seq::<GroupView>::empty()
        };
        let right = if a.len() > bi + 1 || b.len() > bj + 1 {
            align_rec(a.skip(bi + 1), b.skip(bj + 1), aoff + bi + 1, boff + bj + 1)
        } else {
            Seq::<GroupView>::empty()
        };
        if bi > 0 || bj > 0 {
            lemma_align_in_range(a.take(bi), b.take(bj), aoff, boff);
        }
        if a.len() > bi + 1 || b.len() > bj + 1 {
            lemma_align_in_range(a.skip(bi + 1), b.skip(bj + 1), aoff + bi + 1, boff + bj + 1);
        }
        let whole = align_rec(a, b, aoff, boff);
        let mid = GroupView {
            a_lo: aoff + bi,
            a_hi: aoff + bi + 1,
            b_lo: boff + bj,
            b_hi: boff + bj + 1,
        };
        assert(whole == left.add(seq![mid]).add(right));
        assert forall|t: int| 0 <= t < whole.len() implies {
            let g = #[trigger] whole[t];
            &&& aoff <= g.a_lo <= g.a_hi <= aoff + a.len()
            &&& boff <= g.b_lo <= g.b_hi <= boff + b.len()
        } by {
            if t < left.len() {
                assert(whole[t] == left[t]);
            } else if t == left.len() {
                assert(whole[t] == mid);
            } else {
                assert(whole[t] == right[t - left.len() - 1]);
            }
        }
    }
}

} // verus!
