//! Tokenization: splitting a string into the comparison units that the
//! longest-common-subsequence engine works on.
//!
//! Four granularities exist: one token per character, words separated by a
//! single literal space, lines separated by `'\n'`, and a "smart word" mode
//! that groups alphanumeric runs and space runs while keeping every other
//! character as a token of its own.

use vstd::prelude::*;
use vstd::string::{StrSliceExecFns, StringExecFns};
use crate::SplitType;

verus! {

/// Longest text length the distance engines accept; keeps every internal
/// count, table index and distance comfortably inside the machine integer
/// types whatever the pointer width.
pub const MAX_TEXT_LEN: usize = 0x7FFF;

/// Whether `char::is_alphanumeric` holds of `c`; the Unicode table itself is
/// not restated here.
pub uninterp spec fn is_alnum(c: char) -> bool;

/// Whether `char::is_whitespace` holds of `c`.
pub uninterp spec fn is_white(c: char) -> bool;

/// Relies on char::is_alphanumeric: the result depends on the character alone.
#[verifier::external_body]
pub fn is_alnum_char(c: char) -> (r: bool)
    ensures
        r == is_alnum(c),
{
    c.is_alphanumeric()
}

/// Relies on char::is_whitespace: the result depends on the character alone.
#[verifier::external_body]
pub fn is_white_char(c: char) -> (r: bool)
    ensures
        r == is_white(c),
{
    c.is_whitespace()
}

/// The pieces of `s` between occurrences of the separator `sep`.
/// Mirrors `str::split` with a one-character pattern: the result always has
/// at least one piece, and none of the pieces contains `sep`.
pub open spec fn split_on(s: Seq<char>, sep: char) -> Seq<Seq<char>>
    decreases s.len(),
{
    if s.len() == 0 {
        seq![Seq::<char>::empty()]
    } else if s[0] == sep {
        seq![Seq::<char>::empty()].add(split_on(s.drop_first(), sep))
    } else {
        let rest = split_on(s.drop_first(), sep);
        seq![seq![s[0]].add(rest[0])].add(rest.drop_first())
    }
}

/// One token per character of `s`.
pub open spec fn char_tokens(s: Seq<char>) -> Seq<Seq<char>>
    decreases s.len(),
{
    if s.len() == 0 {
        Seq::<Seq<char>>::empty()
    } else {
        seq![seq![s[0]]].add(char_tokens(s.drop_first()))
    }
}

/// The tokens joined back into one string with `sep` between them.
pub open spec fn join_tokens(ts: Seq<Seq<char>>, sep: Seq<char>) -> Seq<char>
    decreases ts.len(),
{
    if ts.len() == 0 {
        Seq::<char>::empty()
    } else if ts.len() == 1 {
        ts[0]
    } else {
        ts[0].add(sep).add(join_tokens(ts.drop_first(), sep))
    }
}

/// The separator that re-joins tokens of granularity `t`: a single space for
/// word tokens, nothing otherwise.
pub open spec fn sep_of(t: SplitType) -> Seq<char> {
    if t == SplitType::Word {
        seq![' ']
    } else {
        Seq::<char>::empty()
    }
}

/// The classifier state the smart-word scanner enters on reading `c` while in
/// `state`: 1 for alphanumeric runs, 2 for space runs, and a fresh state for
/// each further character of a non-alphanumeric, non-space run, so such
/// characters never group.
pub open spec fn smart_class(c: char, state: int) -> int {
    if is_alnum(c) {
        1
    } else if c == ' ' {
        2
    } else if state < 3 {
        3
    } else {
        state + 1
    }
}

/// The smart-word scan of `s` from position `i`, carrying the classifier
/// state and the token accumulated so far; the pending token is always
/// emitted at the end, so the scan of an empty string yields one empty token.
pub open spec fn smart_rec(s: Seq<char>, i: int, state: int, cur: Seq<char>) -> Seq<Seq<char>>
    decreases s.len() - i,
{
    if i < 0 || i >= s.len() {
        seq![cur]
    } else {
        let ns = smart_class(s[i], state);
        if state != ns {
            if state > 0 {
                seq![cur].add(smart_rec(s, i + 1, ns, seq![s[i]]))
            } else {
                smart_rec(s, i + 1, ns, seq![s[i]])
            }
        } else {
            smart_rec(s, i + 1, state, cur.push(s[i]))
        }
    }
}

/// The smart-word tokens of `s`.
pub open spec fn smart_tokens(s: Seq<char>) -> Seq<Seq<char>> {
    smart_rec(s, 0, 0, Seq::<char>::empty())
}

/// `s` with its leading whitespace removed.
pub open spec fn trim_start_spec(s: Seq<char>) -> Seq<char>
    decreases s.len(),
{
    if s.len() > 0 && is_white(s[0]) {
        trim_start_spec(s.drop_first())
    } else {
        s
    }
}

/// `s` with its trailing whitespace removed.
pub open spec fn trim_end_spec(s: Seq<char>) -> Seq<char>
    decreases s.len(),
{
    if s.len() > 0 && is_white(s.last()) {
        trim_end_spec(s.drop_last())
    } else {
        s
    }
}

/// `s` with leading and trailing whitespace removed.
pub open spec fn trim_spec(s: Seq<char>) -> Seq<char> {
    trim_end_spec(trim_start_spec(s))
}

/// The token list the subsequence engine compares at granularity `t`:
/// characters, space-separated pieces, lines, or smart words.
pub open spec fn lcs_tokens(s: Seq<char>, t: SplitType) -> Seq<Seq<char>> {
    match t {
        SplitType::Character => char_tokens(s),
        SplitType::Word => split_on(s, ' '),
        SplitType::Line => split_on(s, '\n'),
        SplitType::SmartWord => smart_tokens(s),
    }
}

/// The token list the segment builder walks at granularity `t`. It differs
/// from `lcs_tokens` in its edge cases: character tokens keep an empty piece
/// at each edge, and an empty string yields no word, line or smart-word
/// token.
pub open spec fn merge_tokens(s: Seq<char>, t: SplitType) -> Seq<Seq<char>> {
    match t {
        SplitType::Character => {
            if s.len() == 0 {
                seq![Seq::<char>::empty()]
            } else {
                seq![Seq::<char>::empty()].add(char_tokens(s)).push(Seq::<char>::empty())
            }
        },
        SplitType::Word => {
            if s.len() == 0 {
                Seq::<Seq<char>>::empty()
            } else {
                split_on(s, ' ')
            }
        },
        SplitType::Line => {
            if s.len() == 0 {
                Seq::<Seq<char>>::empty()
            } else {
                split_on(s, '\n')
            }
        },
        SplitType::SmartWord => {
            if s.len() == 0 {
                Seq::<Seq<char>>::empty()
            } else {
                smart_tokens(s)
            }
        },
    }
}

// ---------------------------------------------------------------------------
// Facts about the spec-level tokenizers.
// ---------------------------------------------------------------------------

/// A string without the separator splits into itself as the only piece.
pub proof fn lemma_split_all_clean(t: Seq<char>, sep: char)
    requires
        forall|k: int| 0 <= k < t.len() ==> t[k] != sep,
    ensures
        split_on(t, sep) == seq![t],
    decreases t.len(),
{
    if t.len() == 0 {
        assert(split_on(t, sep) =~~= seq![t]);
    } else {
        lemma_split_all_clean(t.drop_first(), sep);
        assert(seq![t[0]].add(t.drop_first()) =~= t);
        assert(split_on(t, sep) =~~= seq![t]);
    }
}

/// Splitting at the first separator occurrence: the head piece is everything
/// before it, and the remaining pieces are the split of everything after it.
pub proof fn lemma_split_head(t: Seq<char>, sep: char, m: int)
    requires
        0 <= m < t.len(),
        t[m] == sep,
        forall|k: int| 0 <= k < m ==> t[k] != sep,
    ensures
        split_on(t, sep) == seq![t.take(m)].add(
            split_on(t.subrange(m + 1, t.len() as int), sep),
        ),
    decreases m,
{
    if m == 0 {
        assert(t.take(0) =~= Seq::<char>::empty());
        assert(t.subrange(1, t.len() as int) =~= t.drop_first());
        assert(split_on(t, sep) =~~= seq![t.take(m)].add(
            split_on(t.subrange(m + 1, t.len() as int), sep),
        ));
    } else {
        let d = t.drop_first();
        lemma_split_head(d, sep, m - 1);
        assert(d.take(m - 1) =~= t.take(m).drop_first());
        assert(d.subrange(m, d.len() as int) =~= t.subrange(m + 1, t.len() as int));
        let rest = split_on(d, sep);
        assert(rest[0] == d.take(m - 1));
        assert(seq![t[0]].add(rest[0]) =~= t.take(m));
        assert(rest.drop_first() == split_on(t.subrange(m + 1, t.len() as int), sep));
        assert(split_on(t, sep) =~~= seq![t.take(m)].add(
            split_on(t.subrange(m + 1, t.len() as int), sep),
        ));
    }
}

/// Whether `t` avoids the character `sep` everywhere.
pub open spec fn sep_free(t: Seq<char>, sep: char) -> bool {
    forall|k: int| 0 <= k < t.len() ==> t[k] != sep
}

/// No piece of a split contains the separator.
pub proof fn lemma_split_no_sep(t: Seq<char>, sep: char)
    ensures
        forall|p: int| 0 <= p < split_on(t, sep).len()
            ==> sep_free(#[trigger] split_on(t, sep)[p], sep),
    decreases t.len(),
{
    if t.len() == 0 {
    } else {
        lemma_split_no_sep(t.drop_first(), sep);
        let rest = split_on(t.drop_first(), sep);
        if t[0] != sep {
            assert(forall|p: int| 0 <= p < rest.len() ==> sep_free(#[trigger] rest[p], sep));
            assert(sep_free(seq![t[0]].add(rest[0]), sep));
            assert(forall|p: int| 1 <= p < split_on(t, sep).len()
                ==> split_on(t, sep)[p] == rest[p]);
        }
    }
}

/// Appending a token to a non-trivial list extends the join by a separator
/// and the token.
pub proof fn lemma_join_push(ts: Seq<Seq<char>>, sep: Seq<char>, x: Seq<char>)
    ensures
        ts.len() == 0 ==> join_tokens(ts.push(x), sep) == x,
        ts.len() > 0 ==> join_tokens(ts.push(x), sep) == join_tokens(ts, sep).add(sep).add(x),
    decreases ts.len(),
{
    if ts.len() == 0 {
        assert(ts.push(x)[0] == x);
    } else if ts.len() == 1 {
        assert(ts.push(x).drop_first() =~~= seq![x]);
        assert(ts.push(x)[0] == ts[0]);
        assert(seq![x].len() == 1 && seq![x][0] == x);
        assert(join_tokens(seq![x], sep) == x);
        assert(join_tokens(ts.push(x), sep) == ts[0].add(sep).add(x));
        assert(join_tokens(ts, sep) == ts[0]);
    } else {
        lemma_join_push(ts.drop_first(), sep, x);
        assert(ts.push(x).drop_first() =~~= ts.drop_first().push(x));
        assert(ts.push(x)[0] == ts[0]);
        assert(join_tokens(ts, sep).add(sep).add(x) =~=
            ts[0].add(sep).add(join_tokens(ts.drop_first(), sep).add(sep).add(x)));
    }
}

/// Joining the pieces of a split with the separator restores the string.
pub proof fn lemma_join_split_on(s: Seq<char>, sep: char)
    ensures
        join_tokens(split_on(s, sep), seq![sep]) == s,
    decreases s.len(),
{
    if s.len() == 0 {
    } else if s[0] == sep {
        lemma_join_split_on(s.drop_first(), sep);
        let rest = split_on(s.drop_first(), sep);
        assert(seq![Seq::<char>::empty()].add(rest).drop_first() =~~= rest);
        assert(join_tokens(split_on(s, sep), seq![sep]) =~=
            Seq::<char>::empty().add(seq![sep]).add(join_tokens(rest, seq![sep])));
        assert(Seq::<char>::empty().add(seq![sep]).add(s.drop_first()) =~= s);
    } else {
        lemma_join_split_on(s.drop_first(), sep);
        let rest = split_on(s.drop_first(), sep);
        let r2 = seq![seq![s[0]].add(rest[0])].add(rest.drop_first());
        if rest.len() == 1 {
            assert(r2.len() == 1);
            assert(join_tokens(r2, seq![sep]) == seq![s[0]].add(rest[0]));
            assert(join_tokens(rest, seq![sep]) == rest[0]);
            assert(seq![s[0]].add(rest[0]) =~= s);
        } else {
            assert(r2.drop_first() =~~= rest.drop_first());
            assert(join_tokens(r2, seq![sep]) ==
                seq![s[0]].add(rest[0]).add(seq![sep]).add(join_tokens(rest.drop_first(), seq![sep])));
            assert(join_tokens(rest, seq![sep]) ==
                rest[0].add(seq![sep]).add(join_tokens(rest.drop_first(), seq![sep])));
            assert(seq![s[0]].add(rest[0]).add(seq![sep]).add(join_tokens(rest.drop_first(), seq![sep]))
                =~= seq![s[0]].add(rest[0].add(seq![sep]).add(join_tokens(rest.drop_first(), seq![sep]))));
            assert(seq![s[0]].add(s.drop_first()) =~= s);
        }
    }
}

/// Joining with an empty separator concatenates; for character tokens this
/// restores the string.
pub proof fn lemma_join_char_tokens(s: Seq<char>)
    ensures
        join_tokens(char_tokens(s), Seq::<char>::empty()) == s,
    decreases s.len(),
{
    if s.len() == 0 {
        assert(join_tokens(char_tokens(s), Seq::<char>::empty()) =~= s);
    } else {
        lemma_join_char_tokens(s.drop_first());
        let ct = char_tokens(s);
        assert(ct[0] == seq![s[0]]);
        if s.len() == 1 {
            assert(ct.len() == 1);
            assert(seq![s[0]] =~= s);
        } else {
            assert(ct.drop_first() =~~= char_tokens(s.drop_first()));
            assert(seq![s[0]].add(Seq::<char>::empty()).add(s.drop_first()) =~= s);
        }
    }
}

/// Extending a string by one character appends one singleton token.
pub proof fn lemma_char_tokens_push(s: Seq<char>, c: char)
    ensures
        char_tokens(s.push(c)) == char_tokens(s).push(seq![c]),
    decreases s.len(),
{
    if s.len() == 0 {
        assert(s.push(c).drop_first() =~= Seq::<char>::empty());
        assert(s.push(c)[0] == c);
        assert(char_tokens(s.push(c).drop_first()) =~~= Seq::<Seq<char>>::empty());
        assert(char_tokens(s.push(c)) =~~= char_tokens(s).push(seq![c]));
    } else {
        lemma_char_tokens_push(s.drop_first(), c);
        assert(s.push(c).drop_first() =~= s.drop_first().push(c));
        assert(s.push(c)[0] == s[0]);
        assert(char_tokens(s.push(c)) ==
            seq![seq![s[0]]].add(char_tokens(s.drop_first()).push(seq![c])));
        assert(seq![seq![s[0]]].add(char_tokens(s.drop_first()).push(seq![c]))
            =~~= char_tokens(s).push(seq![c]));
    }
}

/// The concatenation of the smart-word tokens from position `i` onward is the
/// pending token followed by the rest of the string.
pub proof fn lemma_join_smart_rec(s: Seq<char>, i: int, state: int, cur: Seq<char>)
    requires
        0 <= i <= s.len(),
        state <= 0 ==> cur.len() == 0,
    ensures
        join_tokens(smart_rec(s, i, state, cur), Seq::<char>::empty())
            == cur.add(s.subrange(i, s.len() as int)),
    decreases s.len() - i,
{
    if i >= s.len() {
        assert(cur.add(s.subrange(i, s.len() as int)) =~= cur);
    } else {
        let ns = smart_class(s[i], state);
        if state != ns {
            lemma_join_smart_rec(s, i + 1, ns, seq![s[i]]);
            if state > 0 {
                let rest = smart_rec(s, i + 1, ns, seq![s[i]]);
                let whole = seq![cur].add(rest);
                if rest.len() == 0 {
                    assert(false) by {
                        lemma_smart_rec_nonempty(s, i + 1, ns, seq![s[i]]);
                    }
                } else {
                    assert(whole.drop_first() =~~= rest);
                    assert(whole[0] == cur);
                    assert(join_tokens(whole, Seq::<char>::empty()) ==
                        cur.add(Seq::<char>::empty()).add(join_tokens(rest, Seq::<char>::empty())));
                    assert(seq![s[i]].add(s.subrange(i + 1, s.len() as int)) =~= s.subrange(i, s.len() as int));
                    assert(cur.add(Seq::<char>::empty()).add(seq![s[i]].add(s.subrange(i + 1, s.len() as int)))
                        =~= cur.add(s.subrange(i, s.len() as int)));
                }
            } else {
                assert(cur =~= Seq::<char>::empty());
                assert(cur.add(s.subrange(i, s.len() as int)) =~=
                    seq![s[i]].add(s.subrange(i + 1, s.len() as int)));
            }
        } else {
            lemma_join_smart_rec(s, i + 1, state, cur.push(s[i]));
            assert(cur.push(s[i]).add(s.subrange(i + 1, s.len() as int))
                =~= cur.add(s.subrange(i, s.len() as int)));
        }
    }
}

/// A smart-word scan always yields at least one token.
pub proof fn lemma_smart_rec_nonempty(s: Seq<char>, i: int, state: int, cur: Seq<char>)
    ensures
        smart_rec(s, i, state, cur).len() > 0,
    decreases s.len() - i,
{
    if i < 0 || i >= s.len() {
    } else {
        let ns = smart_class(s[i], state);
        if state != ns {
            lemma_smart_rec_nonempty(s, i + 1, ns, seq![s[i]]);
        } else {
            lemma_smart_rec_nonempty(s, i + 1, state, cur.push(s[i]));
        }
    }
}

/// The concatenation of a string's smart-word tokens is the string itself.
pub proof fn lemma_join_smart_tokens(s: Seq<char>)
    ensures
        join_tokens(smart_tokens(s), Seq::<char>::empty()) == s,
{
    lemma_join_smart_rec(s, 0, 0, Seq::<char>::empty());
    assert(s.subrange(0, s.len() as int) =~= s);
}


/// The start-trim of `s` is its suffix from the first non-whitespace position.
proof fn lemma_trim_start_idx(s: Seq<char>, lo: int)
    requires
        0 <= lo <= s.len(),
        forall|k: int| 0 <= k < lo ==> is_white(s[k]),
        lo == s.len() || !is_white(s[lo]),
    ensures
        trim_start_spec(s) == s.subrange(lo, s.len() as int),
    decreases lo,
{
    if lo == 0 {
        assert(s.subrange(0, s.len() as int) =~= s);
    } else {
        let d = s.drop_first();
        lemma_trim_start_idx(d, lo - 1);
        assert(d.subrange(lo - 1, d.len() as int) =~= s.subrange(lo, s.len() as int));
    }
}

/// The end-trim of `s` is its prefix up to the last non-whitespace position.
proof fn lemma_trim_end_idx(s: Seq<char>, hi: int)
    requires
        0 <= hi <= s.len(),
        forall|k: int| hi <= k < s.len() ==> is_white(s[k]),
        hi == 0 || !is_white(s[hi - 1]),
    ensures
        trim_end_spec(s) == s.take(hi),
    decreases s.len(),
{
    if hi == s.len() {
        assert(s.take(hi) =~= s);
        if s.len() > 0 {
            assert(!is_white(s.last()));
        }
    } else {
        assert(is_white(s.last()));
        lemma_trim_end_idx(s.drop_last(), hi);
        assert(s.drop_last().take(hi) =~= s.take(hi));
    }
}

// ---------------------------------------------------------------------------
// Executable tokenizers.
// ---------------------------------------------------------------------------

/// Splits `s` at every occurrence of the character `sep`.
pub(crate) fn split_on_exec(s: &str, sep: char) -> (r: Vec<String>)
    ensures
        r.deep_view() == split_on(s@, sep),
{
    let n = s.unicode_len();
    let mut r: Vec<String> = Vec::new();
    proof {
        assert(s@.subrange(0, n as int) =~= s@);
        assert(r.deep_view() =~~= Seq::<Seq<char>>::empty());
        assert(r.deep_view().add(split_on(s@, sep)) =~~= split_on(s@, sep));
    }
    let mut start: usize = 0;
    let mut i: usize = 0;
    while i < n
        invariant
            n == s@.len(),
            0 <= start <= i <= n,
            forall|k: int| start <= k < i ==> s@[k] != sep,
            split_on(s@, sep) == r.deep_view().add(
                split_on(s@.subrange(start as int, n as int), sep),
            ),
        decreases n - i,
    {
        if s.get_char(i) == sep {
            let piece = s.substring_char(start, i).to_owned();
            proof {
                let tail = s@.subrange(start as int, n as int);
                lemma_split_head(tail, sep, i - start);
                assert(tail.take(i - start) =~= s@.subrange(start as int, i as int));
                assert(tail.subrange(i - start + 1, tail.len() as int)
                    =~= s@.subrange(i + 1, n as int));
                assert(piece@ == s@.subrange(start as int, i as int));
                assert(r.deep_view().push(piece@).add(
                    split_on(s@.subrange(i + 1, n as int), sep),
                ) =~~= r.deep_view().add(split_on(s@.subrange(start as int, n as int), sep)));
            }
            let ghost old_dv = r.deep_view();
            r.push(piece);
            proof {
                assert(r.deep_view() =~~= old_dv.push(s@.subrange(start as int, i as int)));
            }
            start = i + 1;
        }
        i += 1;
    }
    let last_piece = s.substring_char(start, n).to_owned();
    proof {
        let tail = s@.subrange(start as int, n as int);
        lemma_split_all_clean(tail, sep);
    }
    let ghost old_dv = r.deep_view();
    r.push(last_piece);
    proof {
        let tail = s@.subrange(start as int, n as int);
        assert(r.deep_view() =~~= old_dv.push(tail));
        assert(old_dv.push(tail) =~~= old_dv.add(seq![tail]));
        assert(r.deep_view() == split_on(s@, sep));
    }
    r
}

/// One token per character of `s`.
fn chars_split(s: &str) -> (r: Vec<String>)
    ensures
        r.deep_view() == char_tokens(s@),
{
    let n = s.unicode_len();
    let mut r: Vec<String> = Vec::new();
    let mut i: usize = 0;
    while i < n
        invariant
            n == s@.len(),
            0 <= i <= n,
            r.deep_view() == char_tokens(s@.take(i as int)),
        decreases n - i,
    {
        let piece = s.substring_char(i, i + 1).to_owned();
        let ghost old_dv = r.deep_view();
        r.push(piece);
        proof {
            assert(s@.take(i as int).push(s@[i as int]) =~= s@.take(i + 1));
            lemma_char_tokens_push(s@.take(i as int), s@[i as int]);
            assert(s@.subrange(i as int, i + 1) =~= seq![s@[i as int]]);
            assert(r.deep_view() =~~= old_dv.push(seq![s@[i as int]]));
        }
        i += 1;
    }
    proof {
        assert(s@.take(n as int) =~= s@);
    }
    r
}

/// The smart-word tokens of `s`: alphanumeric runs and space runs grouped,
/// every other character on its own.
pub fn smartsplit(s: &str) -> (r: Vec<String>)
    ensures
        r.deep_view() == smart_tokens(s@),
{
    let n = s.unicode_len();
    let mut r: Vec<String> = Vec::new();
    proof {
        assert(s@.subrange(0, 0) =~= Seq::<char>::empty());
        assert(r.deep_view() =~~= Seq::<Seq<char>>::empty());
        assert(r.deep_view().add(smart_rec(s@, 0, 0, Seq::<char>::empty()))
            =~~= smart_tokens(s@));
    }
    let mut last: usize = 0;
    let mut state: u128 = 0;
    let mut i: usize = 0;
    while i < n
        invariant
            n == s@.len(),
            0 <= last <= i <= n,
            state <= 3 + i,
            smart_tokens(s@) == r.deep_view().add(
                smart_rec(s@, i as int, state as int, s@.subrange(last as int, i as int)),
            ),
        decreases n - i,
    {
        let ghost old_cur = s@.subrange(last as int, i as int);
        let ghost old_state = state as int;
        let c = s.get_char(i);
        let ns: u128 = if is_alnum_char(c) {
            1
        } else if c == ' ' {
            2
        } else if state < 3 {
            3
        } else {
            state + 1
        };
        proof {
            assert(ns as int == smart_class(s@[i as int], old_state));
        }
        if state != ns {
            if state > 0 {
                let piece = s.substring_char(last, i).to_owned();
                let ghost old_dv = r.deep_view();
                r.push(piece);
                proof {
                    let tail = smart_rec(s@, i + 1, ns as int, seq![s@[i as int]]);
                    assert(smart_rec(s@, i as int, old_state, old_cur)
                        == seq![old_cur].add(tail));
                    assert(r.deep_view() =~~= old_dv.push(old_cur));
                    assert(old_dv.push(old_cur).add(tail)
                        =~~= old_dv.add(seq![old_cur].add(tail)));
                }
            } else {
                proof {
                    assert(smart_rec(s@, i as int, old_state, old_cur)
                        == smart_rec(s@, i + 1, ns as int, seq![s@[i as int]]));
                }
            }
            last = i;
            proof {
                assert(s@.subrange(i as int, i + 1) =~= seq![s@[i as int]]);
            }
        } else {
            proof {
                assert(smart_rec(s@, i as int, old_state, old_cur)
                    == smart_rec(s@, i + 1, old_state, old_cur.push(s@[i as int])));
                assert(s@.subrange(last as int, i + 1) =~= old_cur.push(s@[i as int]));
            }
        }
        state = ns;
        i += 1;
    }
    let piece = s.substring_char(last, n).to_owned();
    let ghost old_dv = r.deep_view();
    r.push(piece);
    proof {
        assert(r.deep_view() =~~= old_dv.push(s@.subrange(last as int, n as int)));
        assert(r.deep_view() =~~= old_dv.add(seq![s@.subrange(last as int, n as int)]));
    }
    r
}

/// `s` without its leading and trailing whitespace.
pub fn trim(s: &str) -> (r: &str)
    ensures
        r@ == trim_spec(s@),
        r@.len() <= s@.len(),
{
    let n = s.unicode_len();
    let mut lo: usize = 0;
    while lo < n && is_white_char(s.get_char(lo))
        invariant
            n == s@.len(),
            0 <= lo <= n,
            forall|k: int| 0 <= k < lo ==> is_white(s@[k]),
        decreases n - lo,
    {
        lo += 1;
    }
    let mut hi: usize = n;
    while hi > lo && is_white_char(s.get_char(hi - 1))
        invariant
            n == s@.len(),
            lo <= hi <= n,
            forall|k: int| hi <= k < n ==> is_white(s@[k]),
        decreases hi,
    {
        hi -= 1;
    }
    let r = s.substring_char(lo, hi);
    proof {
        lemma_trim_start_idx(s@, lo as int);
        let u = s@.subrange(lo as int, n as int);
        lemma_trim_end_idx(u, hi - lo);
        assert(u.take(hi - lo) =~= s@.subrange(lo as int, hi as int));
    }
    r
}

/// The token list the subsequence engine compares at granularity `split`.
pub fn strsplit(s: &str, split: &SplitType) -> (r: Vec<String>)
    ensures
        r.deep_view() == lcs_tokens(s@, *split),
{
    match split {
        SplitType::Character => chars_split(s),
        SplitType::Word => split_on_exec(s, ' '),
        SplitType::Line => split_on_exec(s, '\n'),
        SplitType::SmartWord => smartsplit(s),
    }
}

/// The token list the segment builder walks at granularity `split`.
pub fn merge_split(s: &str, split: &SplitType) -> (r: Vec<String>)
    ensures
        r.deep_view() == merge_tokens(s@, *split),
{
    let empty = s.unicode_len() == 0;
    match split {
        SplitType::Character => {
            if empty {
                let mut r: Vec<String> = Vec::new();
                r.push(String::new());
                proof {
                    assert(r.deep_view() =~~= merge_tokens(s@, SplitType::Character));
                }
                r
            } else {
                let mut r: Vec<String> = Vec::new();
                r.push(String::new());
                let ghost dv1 = r.deep_view();
                let mut mid = chars_split(s);
                let ghost mid_dv = mid.deep_view();
                r.append(&mut mid);
                let ghost dv2 = r.deep_view();
                r.push(String::new());
                proof {
                    assert(dv1 =~~= seq![Seq::<char>::empty()]);
                    assert(dv2 =~~= dv1.add(mid_dv));
                    assert(r.deep_view() =~~= dv2.push(Seq::<char>::empty()));
                    assert(r.deep_view() =~~= merge_tokens(s@, SplitType::Character));
                }
                r
            }
        },
        SplitType::Word => {
            if empty {
                let r: Vec<String> = Vec::new();
                proof {
                    assert(r.deep_view() =~~= merge_tokens(s@, SplitType::Word));
                }
                r
            } else {
                split_on_exec(s, ' ')
            }
        },
        SplitType::Line => {
            if empty {
                let r: Vec<String> = Vec::new();
                proof {
                    assert(r.deep_view() =~~= merge_tokens(s@, SplitType::Line));
                }
                r
            } else {
                split_on_exec(s, '\n')
            }
        },
        SplitType::SmartWord => {
            if empty {
                let r: Vec<String> = Vec::new();
                proof {
                    assert(r.deep_view() =~~= merge_tokens(s@, SplitType::SmartWord));
                }
                r
            } else {
                smartsplit(s)
            }
        },
    }
}

/// The tokens joined into one string with `sep` between them.
pub fn join_with(ts: &Vec<String>, sep: &str) -> (r: String)
    ensures
        r@ == join_tokens(ts.deep_view(), sep@),
{
    let mut r = String::new();
    let n = ts.len();
    let mut i: usize = 0;
    while i < n
        invariant
            n == ts.len(),
            0 <= i <= n,
            r@ == join_tokens(ts.deep_view().take(i as int), sep@),
        decreases n - i,
    {
        if i > 0 {
            r.append(sep);
        }
        r.append(ts[i].as_str());
        proof {
            let prefix = ts.deep_view().take(i as int);
            lemma_join_push(prefix, sep@, ts.deep_view()[i as int]);
            assert(prefix.push(ts.deep_view()[i as int]) =~~= ts.deep_view().take(i + 1));
        }
        i += 1;
    }
    proof {
        assert(ts.deep_view().take(n as int) =~~= ts.deep_view());
    }
    r
}


/// There is exactly one character token per character.
pub proof fn lemma_char_tokens_len(s: Seq<char>)
    ensures
        char_tokens(s).len() == s.len(),
    decreases s.len(),
{
    if s.len() > 0 {
        lemma_char_tokens_len(s.drop_first());
    }
}

/// A split yields at most one piece per character plus one.
pub proof fn lemma_split_on_len(s: Seq<char>, sep: char)
    ensures
        1 <= split_on(s, sep).len() <= s.len() + 1,
    decreases s.len(),
{
    if s.len() > 0 {
        lemma_split_on_len(s.drop_first(), sep);
    }
}

/// A smart-word scan yields at most one token per remaining character plus one.
pub proof fn lemma_smart_rec_len(s: Seq<char>, i: int, state: int, cur: Seq<char>)
    requires
        0 <= i <= s.len(),
    ensures
        1 <= smart_rec(s, i, state, cur).len() <= s.len() - i + 1,
    decreases s.len() - i,
{
    if i < s.len() {
        let ns = smart_class(s[i], state);
        if state != ns {
            lemma_smart_rec_len(s, i + 1, ns, seq![s[i]]);
        } else {
            lemma_smart_rec_len(s, i + 1, state, cur.push(s[i]));
        }
    }
}

/// Bound on how many tokens the subsequence engine sees.
pub proof fn lemma_lcs_tokens_len(s: Seq<char>, t: SplitType)
    ensures
        lcs_tokens(s, t).len() <= s.len() + 1,
{
    match t {
        SplitType::Character => lemma_char_tokens_len(s),
        SplitType::Word => lemma_split_on_len(s, ' '),
        SplitType::Line => lemma_split_on_len(s, '\n'),
        SplitType::SmartWord => {
            lemma_smart_rec_len(s, 0, 0, Seq::<char>::empty());
        },
    }
}

} // verus!

