//! The diff parser: a line-oriented state machine that recognizes git's many
//! header variants and rebuilds the File / Block / Line model from raw diff
//! text.

use vstd::prelude::*;
use vstd::string::{StrSliceExecFns, StringExecFns};

verus! {

/// The role of one content line within a hunk.
#[derive(Clone, Copy, Debug, PartialEq, Eq, Structural)]
pub enum LineType {
    Inserts,
    Deletes,
    Context,
    InsertChanges,
    DeleteChanges,
}

/// One line of hunk content, with its raw text (prefix included) and its
/// running line numbers on each side.
#[derive(Clone, Debug)]
pub struct Line {
    pub content: String,
    pub line_type: Option<LineType>,
    pub old_number: Option<usize>,
    pub new_number: Option<usize>,
}

impl Line {
    /// A fresh line holding `line`, not yet classified or numbered.
    pub fn new(line: String) -> (r: Line)
        ensures
            r.content == line,
            r.line_type is None,
            r.old_number is None,
            r.new_number is None,
    {
        Line { content: line, line_type: Option::None, old_number: Option::None, new_number: Option::None }
    }
}

/// One hunk: its raw header line and its content lines in order.
#[derive(Clone, Debug)]
pub struct Block {
    pub lines: Vec<Line>,
    pub header: Option<String>,
}

impl Block {
    /// A fresh hunk with no header and no lines.
    pub fn new() -> (r: Block)
        ensures
            r.lines@.len() == 0,
            r.header is None,
    {
        Block { lines: Vec::new(), header: Option::None }
    }
}

/// One changed file of the diff, with all the metadata the headers carry.
#[derive(Clone, Debug)]
pub struct File {
    pub old_name: Option<String>,
    pub new_name: Option<String>,
    pub is_combined: bool,
    pub is_git_diff: bool,
    pub language: Option<String>,
    pub blocks: Vec<Block>,
    pub added_lines: usize,
    pub deleted_lines: usize,
    pub mode: Option<String>,
    pub old_mode: Option<Vec<String>>,
    pub new_mode: Option<String>,
    pub new_file_mode: Option<String>,
    pub deleted_file_mode: Option<String>,
    pub is_deleted: bool,
    pub is_new: bool,
    pub is_copy: bool,
    pub is_rename: bool,
    pub is_binary: bool,
    pub unchanged_percentage: Option<usize>,
    pub changed_percentage: Option<usize>,
    pub checksum_before: Option<Vec<String>>,
    pub checksum_after: Option<String>,
}

impl File {
    /// A fresh file record with every field at its default.
    pub fn new() -> (r: File)
        ensures
            r.old_name is None && r.new_name is None && !r.is_combined && !r.is_git_diff,
            r.language is None && r.blocks@.len() == 0 && r.added_lines == 0 && r.deleted_lines == 0,
            r.mode is None && r.old_mode is None && r.new_mode is None,
            r.new_file_mode is None && r.deleted_file_mode is None,
            !r.is_deleted && !r.is_new && !r.is_copy && !r.is_rename && !r.is_binary,
            r.unchanged_percentage is None && r.changed_percentage is None,
            r.checksum_before is None && r.checksum_after is None,
    {
        File {
            old_name: Option::None,
            new_name: Option::None,
            is_combined: false,
            is_git_diff: false,
            language: Option::None,
            blocks: Vec::new(),
            added_lines: 0,
            deleted_lines: 0,
            mode: Option::None,
            old_mode: Option::None,
            new_mode: Option::None,
            new_file_mode: Option::None,
            deleted_file_mode: Option::None,
            is_deleted: false,
            is_new: false,
            is_copy: false,
            is_rename: false,
            is_binary: false,
            unchanged_percentage: Option::None,
            changed_percentage: Option::None,
            checksum_before: Option::None,
            checksum_after: Option::None,
        }
    }
}

// ---------------------------------------------------------------------------
// The mathematical model of the parsed structures.
// ---------------------------------------------------------------------------

/// The mathematical value of one parsed line.
#[verifier::ext_equal]
pub struct LineModel {
    pub content: Seq<char>,
    pub line_type: Option<LineType>,
    pub old_number: Option<usize>,
    pub new_number: Option<usize>,
}

impl View for Line {
    type V = LineModel;

    open spec fn view(&self) -> LineModel {
        LineModel {
            content: self.content@,
            line_type: self.line_type,
            old_number: self.old_number,
            new_number: self.new_number,
        }
    }
}

impl DeepView for Line {
    type V = LineModel;

    open spec fn deep_view(&self) -> LineModel {
        self.view()
    }
}

/// The mathematical value of one hunk.
#[verifier::ext_equal]
pub struct BlockModel {
    pub lines: Seq<LineModel>,
    pub header: Option<Seq<char>>,
}

/// The view of an optional string.
pub open spec fn opt_str(o: Option<String>) -> Option<Seq<char>> {
    match o {
        Option::Some(s) => Option::Some(s@),
        Option::None => Option::None,
    }
}

/// The view of an optional string list.
pub open spec fn opt_strs(o: Option<Vec<String>>) -> Option<Seq<Seq<char>>> {
    match o {
        Option::Some(v) => Option::Some(v.deep_view()),
        Option::None => Option::None,
    }
}

impl View for Block {
    type V = BlockModel;

    open spec fn view(&self) -> BlockModel {
        BlockModel { lines: self.lines.deep_view(), header: opt_str(self.header) }
    }
}

impl DeepView for Block {
    type V = BlockModel;

    open spec fn deep_view(&self) -> BlockModel {
        self.view()
    }
}

/// The mathematical value of one parsed file.
#[verifier::ext_equal]
pub struct FileModel {
    pub old_name: Option<Seq<char>>,
    pub new_name: Option<Seq<char>>,
    pub is_combined: bool,
    pub is_git_diff: bool,
    pub language: Option<Seq<char>>,
    pub blocks: Seq<BlockModel>,
    pub added_lines: usize,
    pub deleted_lines: usize,
    pub mode: Option<Seq<char>>,
    pub old_mode: Option<Seq<Seq<char>>>,
    pub new_mode: Option<Seq<char>>,
    pub new_file_mode: Option<Seq<char>>,
    pub deleted_file_mode: Option<Seq<char>>,
    pub is_deleted: bool,
    pub is_new: bool,
    pub is_copy: bool,
    pub is_rename: bool,
    pub is_binary: bool,
    pub unchanged_percentage: Option<usize>,
    pub changed_percentage: Option<usize>,
    pub checksum_before: Option<Seq<Seq<char>>>,
    pub checksum_after: Option<Seq<char>>,
}

impl View for File {
    type V = FileModel;

    open spec fn view(&self) -> FileModel {
        FileModel {
            old_name: opt_str(self.old_name),
            new_name: opt_str(self.new_name),
            is_combined: self.is_combined,
            is_git_diff: self.is_git_diff,
            language: opt_str(self.language),
            blocks: self.blocks.deep_view(),
            added_lines: self.added_lines,
            deleted_lines: self.deleted_lines,
            mode: opt_str(self.mode),
            old_mode: opt_strs(self.old_mode),
            new_mode: opt_str(self.new_mode),
            new_file_mode: opt_str(self.new_file_mode),
            deleted_file_mode: opt_str(self.deleted_file_mode),
            is_deleted: self.is_deleted,
            is_new: self.is_new,
            is_copy: self.is_copy,
            is_rename: self.is_rename,
            is_binary: self.is_binary,
            unchanged_percentage: self.unchanged_percentage,
            changed_percentage: self.changed_percentage,
            checksum_before: opt_strs(self.checksum_before),
            checksum_after: opt_str(self.checksum_after),
        }
    }
}

impl DeepView for File {
    type V = FileModel;

    open spec fn deep_view(&self) -> FileModel {
        self.view()
    }
}

/// A fresh file model, every field at its default.
pub open spec fn fresh_file_model() -> FileModel {
    FileModel {
        old_name: Option::None,
        new_name: Option::None,
        is_combined: false,
        is_git_diff: false,
        language: Option::None,
        blocks: Seq::<BlockModel>::empty(),
        added_lines: 0,
        deleted_lines: 0,
        mode: Option::None,
        old_mode: Option::None,
        new_mode: Option::None,
        new_file_mode: Option::None,
        deleted_file_mode: Option::None,
        is_deleted: false,
        is_new: false,
        is_copy: false,
        is_rename: false,
        is_binary: false,
        unchanged_percentage: Option::None,
        changed_percentage: Option::None,
        checksum_before: Option::None,
        checksum_after: Option::None,
    }
}

// ---------------------------------------------------------------------------
// Well-formedness of the parsed model.
// ---------------------------------------------------------------------------

/// How many lines of the given type the list holds.
pub open spec fn count_type(ls: Seq<Line>, t: LineType) -> int
    decreases ls.len(),
{
    if ls.len() == 0 {
        0
    } else {
        (if ls[0].line_type == Option::Some(t) {
            1int
        } else {
            0int
        }) + count_type(ls.drop_first(), t)
    }
}

/// How many lines of the given type the blocks hold together.
pub open spec fn blocks_count_type(bs: Seq<Block>, t: LineType) -> int
    decreases bs.len(),
{
    if bs.len() == 0 {
        0
    } else {
        count_type(bs[0].lines@, t) + blocks_count_type(bs.drop_first(), t)
    }
}

/// How many lines the blocks hold together.
pub open spec fn blocks_total(bs: Seq<Block>) -> int
    decreases bs.len(),
{
    if bs.len() == 0 {
        0
    } else {
        bs[0].lines@.len() + blocks_total(bs.drop_first())
    }
}

/// Line numbers never decrease along a block, on either side.
pub open spec fn lines_monotone(ls: Seq<Line>) -> bool {
    &&& forall|i: int, j: int|
        0 <= i < j < ls.len() && (#[trigger] ls[i]).old_number is Some && (#[trigger] ls[j]).old_number is Some ==> ls[i].old_number->0 <= ls[j].old_number->0
    &&& forall|i: int, j: int|
        0 <= i < j < ls.len() && (#[trigger] ls[i]).new_number is Some && (#[trigger] ls[j]).new_number is Some ==> ls[i].new_number->0 <= ls[j].new_number->0
}

/// Every line number of the block stays at or below the running counters.
pub open spec fn lines_bounded(ls: Seq<Line>, on: int, nn: int) -> bool {
    &&& forall|i: int|
        0 <= i < ls.len() && (#[trigger] ls[i]).old_number is Some ==> ls[i].old_number->0 <= on
    &&& forall|i: int|
        0 <= i < ls.len() && (#[trigger] ls[i]).new_number is Some ==> ls[i].new_number->0 <= nn
}

/// A finished file of the parser's output: it has a resolved new name, its
/// added and deleted counts agree with its lines, and every block's line
/// numbers are monotone.
pub open spec fn file_wf(f: File) -> bool {
    &&& f.new_name is Some
    &&& f.added_lines as int == blocks_count_type(f.blocks@, LineType::Inserts)
    &&& f.deleted_lines as int == blocks_count_type(f.blocks@, LineType::Deletes)
    &&& forall|k: int| 0 <= k < f.blocks@.len() ==> lines_monotone((#[trigger] f.blocks@[k]).lines@)
}

/// A count of one line type never exceeds the number of lines.
pub proof fn lemma_count_le_len(ls: Seq<Line>, t: LineType)
    ensures
        0 <= count_type(ls, t) <= ls.len(),
    decreases ls.len(),
{
    if ls.len() > 0 {
        lemma_count_le_len(ls.drop_first(), t);
    }
}

/// A count over blocks never exceeds the blocks' total line count.
pub proof fn lemma_blocks_count_le_total(bs: Seq<Block>, t: LineType)
    ensures
        0 <= blocks_count_type(bs, t) <= blocks_total(bs),
        0 <= blocks_total(bs),
    decreases bs.len(),
{
    if bs.len() > 0 {
        lemma_count_le_len(bs[0].lines@, t);
        lemma_blocks_count_le_total(bs.drop_first(), t);
    }
}

/// Appending a line extends the counts in the evident way.
pub proof fn lemma_count_push(ls: Seq<Line>, l: Line, t: LineType)
    ensures
        count_type(ls.push(l), t) == count_type(ls, t) + (if l.line_type == Option::Some(t) {
            1int
        } else {
            0int
        }),
    decreases ls.len(),
{
    if ls.len() == 0 {
        assert(ls.push(l).drop_first() =~= Seq::<Line>::empty());
        assert(ls.push(l)[0] == l);
        assert(count_type(ls.push(l).drop_first(), t) == count_type(Seq::<Line>::empty(), t));
        assert(count_type(Seq::<Line>::empty(), t) == 0);
    } else {
        lemma_count_push(ls.drop_first(), l, t);
        assert(ls.push(l).drop_first() =~= ls.drop_first().push(l));
        assert(ls.push(l)[0] == ls[0]);
    }
}

/// Appending a block extends the block counts in the evident way.
pub proof fn lemma_blocks_push(bs: Seq<Block>, b: Block, t: LineType)
    ensures
        blocks_count_type(bs.push(b), t) == blocks_count_type(bs, t) + count_type(b.lines@, t),
        blocks_total(bs.push(b)) == blocks_total(bs) + b.lines@.len(),
    decreases bs.len(),
{
    if bs.len() == 0 {
        assert(bs.push(b).drop_first() =~= Seq::<Block>::empty());
        assert(bs.push(b)[0] == b);
        assert(blocks_count_type(bs.push(b).drop_first(), t) == blocks_count_type(
            Seq::<Block>::empty(),
            t,
        ));
        assert(blocks_count_type(Seq::<Block>::empty(), t) == 0);
        assert(blocks_total(bs.push(b).drop_first()) == blocks_total(Seq::<Block>::empty()));
        assert(blocks_total(Seq::<Block>::empty()) == 0);
    } else {
        lemma_blocks_push(bs.drop_first(), b, t);
        assert(bs.push(b).drop_first() =~= bs.drop_first().push(b));
        assert(bs.push(b)[0] == bs[0]);
    }
}


// ---------------------------------------------------------------------------
// String helpers.
// ---------------------------------------------------------------------------

/// Whether `p` is a prefix of `s`.
pub open spec fn has_prefix(s: Seq<char>, p: Seq<char>) -> bool {
    p.len() <= s.len() && s.subrange(0, p.len() as int) == p
}

/// Whether `p` is a suffix of `s`.
pub open spec fn has_suffix(s: Seq<char>, p: Seq<char>) -> bool {
    p.len() <= s.len() && s.subrange(s.len() - p.len(), s.len() as int) == p
}

/// Whether `s` starts with `p`.
pub(crate) fn starts_with_lit(s: &str, p: &str) -> (r: bool)
    ensures
        r == has_prefix(s@, p@),
{
    let sn = s.unicode_len();
    let pn = p.unicode_len();
    if pn > sn {
        proof {
            assert(!has_prefix(s@, p@));
        }
        return false;
    }
    let mut i: usize = 0;
    while i < pn
        invariant
            sn == s@.len() && pn == p@.len() && pn <= sn,
            0 <= i <= pn,
            forall|k: int| 0 <= k < i ==> s@[k] == p@[k],
        decreases pn - i,
    {
        if s.get_char(i) != p.get_char(i) {
            proof {
                assert(s@.subrange(0, pn as int)[i as int] != p@[i as int]);
            }
            return false;
        }
        i += 1;
    }
    proof {
        assert(s@.subrange(0, pn as int) =~= p@);
    }
    true
}

/// Whether `s` ends with `p`.
pub(crate) fn ends_with_lit(s: &str, p: &str) -> (r: bool)
    ensures
        r == has_suffix(s@, p@),
{
    let sn = s.unicode_len();
    let pn = p.unicode_len();
    if pn > sn {
        proof {
            assert(!has_suffix(s@, p@));
        }
        return false;
    }
    let mut i: usize = 0;
    while i < pn
        invariant
            sn == s@.len() && pn == p@.len() && pn <= sn,
            0 <= i <= pn,
            forall|k: int| 0 <= k < i ==> s@[sn - pn + k] == p@[k],
        decreases pn - i,
    {
        if s.get_char(sn - pn + i) != p.get_char(i) {
            proof {
                assert(s@.subrange(sn - pn, sn as int)[i as int] != p@[i as int]);
            }
            return false;
        }
        i += 1;
    }
    proof {
        assert(s@.subrange(sn - pn, sn as int) =~= p@);
    }
    true
}

/// Whether a decimal digit.
pub open spec fn is_digit(c: char) -> bool {
    '0' <= c && c <= '9'
}

/// The numeric value of a run of digits.
pub open spec fn num_val(s: Seq<char>) -> int
    decreases s.len(),
{
    if s.len() == 0 {
        0
    } else {
        num_val(s.drop_last()) * 10 + (s.last() as int - '0' as int)
    }
}

/// Whether every character of `s` is a digit.
pub open spec fn all_digits(s: Seq<char>) -> bool {
    forall|k: int| 0 <= k < s.len() ==> is_digit(#[trigger] s[k])
}

/// A digit run's value never shrinks as the run grows.
proof fn lemma_num_val_grows(s: Seq<char>, k: int)
    requires
        0 <= k <= s.len(),
        all_digits(s),
    ensures
        0 <= num_val(s.take(k)) <= num_val(s),
    decreases s.len() - k,
{
    if k == s.len() {
        assert(s.take(k) =~= s);
        lemma_num_val_nonneg(s);
    } else {
        lemma_num_val_grows(s, k + 1);
        lemma_num_val_nonneg(s.take(k));
        assert(s.take(k + 1).drop_last() =~= s.take(k));
        assert(s.take(k + 1).last() == s[k]);
        assert(is_digit(s[k]));
    }
}

proof fn lemma_num_val_nonneg(s: Seq<char>)
    requires
        all_digits(s),
    ensures
        num_val(s) >= 0,
    decreases s.len(),
{
    if s.len() > 0 {
        assert(all_digits(s.drop_last())) by {
            assert(forall|k: int| 0 <= k < s.len() - 1 ==> s.drop_last()[k] == s[k]);
        }
        lemma_num_val_nonneg(s.drop_last());
        assert(is_digit(s.last()));
    }
}

/// The first position at or after `from` where the digits stop.
pub(crate) fn digit_run_end(s: &str, from: usize) -> (r: usize)
    requires
        from <= s@.len(),
    ensures
        from <= r <= s@.len(),
        forall|k: int| from <= k < r ==> is_digit(#[trigger] s@[k]),
        r < s@.len() ==> !is_digit(s@[r as int]),
{
    let n = s.unicode_len();
    let mut i = from;
    while i < n
        invariant
            n == s@.len(),
            from <= i <= n,
            forall|k: int| from <= k < i ==> is_digit(#[trigger] s@[k]),
        decreases n - i,
    {
        let c = s.get_char(i);
        if !(c >= '0' && c <= '9') {
            return i;
        }
        i += 1;
    }
    i
}

/// The numeric value of the digits `s[from..to]`, or nothing when the value
/// does not fit the accepted range.
pub(crate) fn parse_num(s: &str, from: usize, to: usize) -> (r: Option<usize>)
    requires
        from <= to <= s@.len(),
        forall|k: int| from <= k < to ==> is_digit(#[trigger] s@[k]),
    ensures
        r matches Some(v) ==> v as int == num_val(s@.subrange(from as int, to as int)) && v
            <= 0xFFFF_FFFFusize,
        r is None ==> num_val(s@.subrange(from as int, to as int)) > 0xFFFF_FFFF,
{
    let ghost digits = s@.subrange(from as int, to as int);
    proof {
        assert(all_digits(digits));
    }
    let mut v: u64 = 0;
    let mut i = from;
    while i < to
        invariant
            from <= i <= to <= s@.len(),
            forall|k: int| from <= k < to ==> is_digit(#[trigger] s@[k]),
            digits == s@.subrange(from as int, to as int),
            all_digits(digits),
            v as int == num_val(digits.take(i - from)),
            v <= 0xFFFF_FFFFu64,
        decreases to - i,
    {
        let c = s.get_char(i);
        let d: u64 = (c as u32 as u64) - ('0' as u32 as u64);
        proof {
            assert(is_digit(s@[i as int]));
            assert(digits[i - from] == s@[i as int]);
            assert(d as int == s@[i as int] as int - '0' as int);
            assert(d <= 9);
        }
        let nv: u64 = v * 10 + d;
        if nv > 0xFFFF_FFFFu64 {
            proof {
                assert(digits.take(i - from + 1).drop_last() =~= digits.take(i - from));
                assert(digits.take(i - from + 1).last() == digits[i - from]);
                assert(num_val(digits.take(i - from + 1)) == nv as int);
                lemma_num_val_grows(digits, i - from + 1);
            }
            return Option::None;
        }
        v = nv;
        proof {
            assert(digits.take(i - from + 1).drop_last() =~= digits.take(i - from));
            assert(digits.take(i - from + 1).last() == digits[i - from]);
        }
        i += 1;
    }
    proof {
        assert(digits.take(to - from) =~= digits);
    }
    Option::Some(v as usize)
}


// ---------------------------------------------------------------------------
// The pattern table: one recognizer per header form.
// ---------------------------------------------------------------------------

/// Whether `p` occurs in `s` at position `i`.
pub open spec fn occurs_at(s: Seq<char>, p: Seq<char>, i: int) -> bool {
    0 <= i && i + p.len() <= s.len() && s.subrange(i, i + p.len()) == p
}

/// Whether `p` occurs anywhere in `s`.
pub open spec fn contains_seq(s: Seq<char>, p: Seq<char>) -> bool {
    exists|i: int| occurs_at(s, p, i)
}

/// Whether a lowercase hash character (digit or lowercase letter).
pub open spec fn is_hash_char(c: char) -> bool {
    is_digit(c) || ('a' <= c && c <= 'z')
}

/// Whether a whitespace character as the header patterns accept it.
pub open spec fn is_pat_ws(c: char) -> bool {
    c == ' ' || c == '\t' || c == '\n' || c == '\r' || c == '\u{b}' || c == '\u{c}'
}

/// The end of the digit run starting at `i`.
pub open spec fn sdigit_end(s: Seq<char>, i: int) -> int
    decreases s.len() - i,
{
    if 0 <= i && i < s.len() && is_digit(s[i]) {
        sdigit_end(s, i + 1)
    } else {
        i
    }
}

/// The end of the hash-character run starting at `i`.
pub open spec fn shash_end(s: Seq<char>, i: int) -> int
    decreases s.len() - i,
{
    if 0 <= i && i < s.len() && is_hash_char(s[i]) {
        shash_end(s, i + 1)
    } else {
        i
    }
}

/// The end of the whitespace run starting at `i`.
pub open spec fn sws_end(s: Seq<char>, i: int) -> int
    decreases s.len() - i,
{
    if 0 <= i && i < s.len() && is_pat_ws(s[i]) {
        sws_end(s, i + 1)
    } else {
        i
    }
}

/// A run scan only moves forward and stays inside the string.
proof fn lemma_sdigit_end_bounds(s: Seq<char>, i: int)
    requires
        0 <= i <= s.len(),
    ensures
        i <= sdigit_end(s, i) <= s.len(),
        forall|k: int| i <= k < sdigit_end(s, i) ==> is_digit(#[trigger] s[k]),
        sdigit_end(s, i) < s.len() ==> !is_digit(s[sdigit_end(s, i)]),
    decreases s.len() - i,
{
    if i < s.len() && is_digit(s[i]) {
        lemma_sdigit_end_bounds(s, i + 1);
    }
}

/// The capture of a pattern `p` followed by exactly six digits: those six
/// digits.
pub open spec fn prefix_digits6(s: Seq<char>, p: Seq<char>) -> Option<Seq<char>> {
    if has_prefix(s, p) && s.len() >= p.len() + 6 && (forall|k: int|
        p.len() <= k < p.len() as int + 6 ==> is_digit(#[trigger] s[k])) {
        Option::Some(s.subrange(p.len() as int, p.len() as int + 6))
    } else {
        Option::None
    }
}

/// The capture of a pattern `p` followed by the rest of the line: the rest,
/// less one leading quote.
pub open spec fn name_after(s: Seq<char>, p: Seq<char>) -> Option<Seq<char>> {
    if has_prefix(s, p) && s.len() > p.len() {
        let rest = s.skip(p.len() as int);
        if rest.len() >= 2 && rest[0] == '"' {
            Option::Some(rest.drop_first())
        } else {
            Option::Some(rest)
        }
    } else {
        Option::None
    }
}

/// The percentage captured by a pattern `p` followed by digits and `%`.
pub open spec fn percent_after(s: Seq<char>, p: Seq<char>) -> Option<int> {
    if has_prefix(s, p) {
        let e = sdigit_end(s, p.len() as int);
        if e > p.len() && e < s.len() && s[e] == '%' {
            Option::Some(num_val(s.subrange(p.len() as int, e)))
        } else {
            Option::None
        }
    } else {
        Option::None
    }
}

/// Recognizes a pattern followed by exactly six digits at the line start.
fn match_prefix_digits6(line: &str, pat: &str) -> (r: Option<String>)
    ensures
        match prefix_digits6(line@, pat@) {
            Option::None => r is None,
            Option::Some(cap) => r matches Some(m) && m@ == cap,
        },
{
    if !starts_with_lit(line, pat) {
        return Option::None;
    }
    let pl = pat.unicode_len();
    let n = line.unicode_len();
    if n - pl < 6 {
        return Option::None;
    }
    let e = digit_run_end(line, pl);
    if e - pl < 6 {
        proof {
            if e < line@.len() {
                assert(!is_digit(line@[e as int]));
            }
        }
        return Option::None;
    }
    Option::Some(line.substring_char(pl, pl + 6).to_owned())
}

/// Recognizes a pattern followed by a (possibly quoted) file name.
fn match_name_after(line: &str, pat: &str) -> (r: Option<String>)
    ensures
        match name_after(line@, pat@) {
            Option::None => r is None,
            Option::Some(cap) => r matches Some(m) && m@ == cap,
        },
{
    if !starts_with_lit(line, pat) {
        return Option::None;
    }
    let pl = pat.unicode_len();
    let n = line.unicode_len();
    if n <= pl {
        return Option::None;
    }
    let first = line.get_char(pl);
    if n - pl >= 2 && first == '"' {
        proof {
            assert(line@.skip(pl as int)[0] == '"');
            assert(line@.skip(pl as int).drop_first() =~= line@.subrange(pl + 1, n as int));
        }
        Option::Some(line.substring_char(pl + 1, n).to_owned())
    } else {
        proof {
            assert(line@.skip(pl as int) =~= line@.subrange(pl as int, n as int));
            if line@.skip(pl as int).len() >= 2 {
                assert(line@.skip(pl as int)[0] == line@[pl as int]);
            }
        }
        Option::Some(line.substring_char(pl, n).to_owned())
    }
}

/// Recognizes a pattern followed by a percentage.
fn match_percent_after(line: &str, pat: &str) -> (r: Option<usize>)
    ensures
        match percent_after(line@, pat@) {
            Option::None => r is None,
            Option::Some(v) => if v <= 0xFFFF_FFFF {
                r matches Some(u) && u as int == v
            } else {
                r is None
            },
        },
{
    if !starts_with_lit(line, pat) {
        return Option::None;
    }
    let pl = pat.unicode_len();
    let e = digit_run_end(line, pl);
    proof {
        lemma_sdigit_end_bounds(line@, pl as int);
        assert(e as int == sdigit_end(line@, pl as int)) by {
            let se = sdigit_end(line@, pl as int);
            if se < e {
                assert(is_digit(line@[se as int]));
            }
            if e < se {
                assert(is_digit(line@[e as int]));
            }
        }
    }
    if e == pl {
        return Option::None;
    }
    let n = line.unicode_len();
    if e >= n || line.get_char(e) != '%' {
        return Option::None;
    }
    parse_num(line, pl, e)
}


// ---------------------------------------------------------------------------
// Hunk headers.
// ---------------------------------------------------------------------------

/// The two starting offsets of a single-parent hunk header
/// `@@ -old[,n] +new[,n] @@ …`, if the line has that shape.
pub open spec fn hunk1_spec(s: Seq<char>) -> Option<(int, int)> {
    if s.len() >= 4 && s[0] == '@' && s[1] == '@' && s[2] == ' ' && s[3] == '-' {
        let e1 = sdigit_end(s, 4);
        if e1 == 4 {
            Option::None
        } else {
            let c1 = if e1 < s.len() && s[e1] == ',' && sdigit_end(s, e1 + 1) > e1 + 1 {
                sdigit_end(s, e1 + 1)
            } else {
                e1
            };
            if c1 + 1 < s.len() && s[c1] == ' ' && s[c1 + 1] == '+' {
                let p2 = c1 + 2;
                let e2 = sdigit_end(s, p2);
                if e2 == p2 {
                    Option::None
                } else {
                    let c2 = if e2 < s.len() && s[e2] == ',' && sdigit_end(s, e2 + 1) > e2 + 1 {
                        sdigit_end(s, e2 + 1)
                    } else {
                        e2
                    };
                    if c2 + 2 < s.len() && s[c2] == ' ' && s[c2 + 1] == '@' && s[c2 + 2] == '@' {
                        Option::Some((num_val(s.subrange(4, e1)), num_val(s.subrange(p2, e2))))
                    } else {
                        Option::None
                    }
                }
            } else {
                Option::None
            }
        }
    } else {
        Option::None
    }
}

/// The three starting offsets of a combined hunk header
/// `@@@ -old1[,n] -old2[,n] +new[,n] @@@ …`, if the line has that shape.
pub open spec fn hunk2_spec(s: Seq<char>) -> Option<(int, int, int)> {
    if s.len() >= 5 && s[0] == '@' && s[1] == '@' && s[2] == '@' && s[3] == ' ' && s[4] == '-' {
        let e1 = sdigit_end(s, 5);
        if e1 == 5 {
            Option::None
        } else {
            let c1 = if e1 < s.len() && s[e1] == ',' && sdigit_end(s, e1 + 1) > e1 + 1 {
                sdigit_end(s, e1 + 1)
            } else {
                e1
            };
            if c1 + 1 < s.len() && s[c1] == ' ' && s[c1 + 1] == '-' {
                let p2 = c1 + 2;
                let e2 = sdigit_end(s, p2);
                if e2 == p2 {
                    Option::None
                } else {
                    let c2 = if e2 < s.len() && s[e2] == ',' && sdigit_end(s, e2 + 1) > e2 + 1 {
                        sdigit_end(s, e2 + 1)
                    } else {
                        e2
                    };
                    if c2 + 1 < s.len() && s[c2] == ' ' && s[c2 + 1] == '+' {
                        let p3 = c2 + 2;
                        let e3 = sdigit_end(s, p3);
                        if e3 == p3 {
                            Option::None
                        } else {
                            let c3 = if e3 < s.len() && s[e3] == ',' && sdigit_end(s, e3 + 1) > e3
                                + 1 {
                                sdigit_end(s, e3 + 1)
                            } else {
                                e3
                            };
                            if c3 + 3 < s.len() && s[c3] == ' ' && s[c3 + 1] == '@' && s[c3 + 2]
                                == '@' && s[c3 + 3] == '@' {
                                Option::Some(
                                    (
                                        num_val(s.subrange(5, e1)),
                                        num_val(s.subrange(p2, e2)),
                                        num_val(s.subrange(p3, e3)),
                                    ),
                                )
                            } else {
                                Option::None
                            }
                        }
                    } else {
                        Option::None
                    }
                }
            } else {
                Option::None
            }
        }
    } else {
        Option::None
    }
}

/// The end of the digit run starting at `from`, as `sdigit_end` gives it.
fn digit_end_exec(line: &str, from: usize) -> (r: usize)
    requires
        from <= line@.len(),
    ensures
        r as int == sdigit_end(line@, from as int),
        from <= r <= line@.len(),
        forall|k: int| from <= k < r ==> is_digit(#[trigger] line@[k]),
{
    let e = digit_run_end(line, from);
    proof {
        lemma_sdigit_end_bounds(line@, from as int);
        let se = sdigit_end(line@, from as int);
        if se < e {
            assert(is_digit(line@[se as int]));
        }
        if e < se {
            assert(is_digit(line@[e as int]));
        }
    }
    e
}

/// Parses a single-parent hunk header, within the accepted number range.
pub(crate) fn parse_hunk1(line: &str) -> (r: Option<(usize, usize)>)
    ensures
        match hunk1_spec(line@) {
            Option::None => r is None,
            Option::Some((a, b)) => if a <= 0xFFFF_FFFF && b <= 0xFFFF_FFFF {
                r matches Some(p) && p.0 as int == a && p.1 as int == b
            } else {
                r is None
            },
        },
{
    let n = line.unicode_len();
    if n < 4 || line.get_char(0) != '@' || line.get_char(1) != '@' || line.get_char(2) != ' '
        || line.get_char(3) != '-' {
        return Option::None;
    }
    let e1 = digit_end_exec(line, 4);
    if e1 == 4 {
        return Option::None;
    }
    let c1 = if e1 < n && line.get_char(e1) == ',' {
        let t = digit_end_exec(line, e1 + 1);
        if t > e1 + 1 {
            t
        } else {
            e1
        }
    } else {
        e1
    };
    if !(c1 < n && c1 + 1 < n && line.get_char(c1) == ' ' && line.get_char(c1 + 1) == '+') {
        return Option::None;
    }
    let p2 = c1 + 2;
    let e2 = digit_end_exec(line, p2);
    if e2 == p2 {
        return Option::None;
    }
    let c2 = if e2 < n && line.get_char(e2) == ',' {
        let t = digit_end_exec(line, e2 + 1);
        if t > e2 + 1 {
            t
        } else {
            e2
        }
    } else {
        e2
    };
    if !(c2 < n && c2 + 1 < n && c2 + 2 < n && line.get_char(c2) == ' ' && line.get_char(c2 + 1) == '@' && line.get_char(
        c2 + 2,
    ) == '@') {
        return Option::None;
    }
    let v1 = parse_num(line, 4, e1);
    let v2 = parse_num(line, p2, e2);
    match (v1, v2) {
        (Option::Some(a), Option::Some(b)) => Option::Some((a, b)),
        _ => Option::None,
    }
}

/// Parses a combined hunk header, within the accepted number range.
#[verifier::rlimit(50)]
pub(crate) fn parse_hunk2(line: &str) -> (r: Option<(usize, usize, usize)>)
    ensures
        match hunk2_spec(line@) {
            Option::None => r is None,
            Option::Some((a, b, c)) => if a <= 0xFFFF_FFFF && b <= 0xFFFF_FFFF && c
                <= 0xFFFF_FFFF {
                r matches Some(p) && p.0 as int == a && p.1 as int == b && p.2 as int == c
            } else {
                r is None
            },
        },
{
    let n = line.unicode_len();
    if n < 5 || line.get_char(0) != '@' || line.get_char(1) != '@' || line.get_char(2) != '@'
        || line.get_char(3) != ' ' || line.get_char(4) != '-' {
        return Option::None;
    }
    let e1 = digit_end_exec(line, 5);
    if e1 == 5 {
        return Option::None;
    }
    let c1 = if e1 < n && line.get_char(e1) == ',' {
        let t = digit_end_exec(line, e1 + 1);
        if t > e1 + 1 {
            t
        } else {
            e1
        }
    } else {
        e1
    };
    if !(c1 < n && c1 + 1 < n && line.get_char(c1) == ' ' && line.get_char(c1 + 1) == '-') {
        return Option::None;
    }
    let p2 = c1 + 2;
    let e2 = digit_end_exec(line, p2);
    if e2 == p2 {
        return Option::None;
    }
    let c2 = if e2 < n && line.get_char(e2) == ',' {
        let t = digit_end_exec(line, e2 + 1);
        if t > e2 + 1 {
            t
        } else {
            e2
        }
    } else {
        e2
    };
    if !(c2 < n && c2 + 1 < n && line.get_char(c2) == ' ' && line.get_char(c2 + 1) == '+') {
        return Option::None;
    }
    let p3 = c2 + 2;
    let e3 = digit_end_exec(line, p3);
    if e3 == p3 {
        return Option::None;
    }
    let c3 = if e3 < n && line.get_char(e3) == ',' {
        let t = digit_end_exec(line, e3 + 1);
        if t > e3 + 1 {
            t
        } else {
            e3
        }
    } else {
        e3
    };
    if !(c3 < n && c3 + 1 < n && c3 + 2 < n && c3 + 3 < n && line.get_char(c3) == ' ' && line.get_char(c3 + 1) == '@' && line.get_char(
        c3 + 2,
    ) == '@' && line.get_char(c3 + 3) == '@') {
        return Option::None;
    }
    let v1 = parse_num(line, 5, e1);
    let v2 = parse_num(line, p2, e2);
    let v3 = parse_num(line, p3, e3);
    match (v1, v2, v3) {
        (Option::Some(a), Option::Some(b), Option::Some(c)) => Option::Some((a, b, c)),
        _ => Option::None,
    }
}


// ---------------------------------------------------------------------------
// Index, mode and binary-marker patterns.
// ---------------------------------------------------------------------------

/// The end of the hash run starting at `from`, as `shash_end` gives it.
fn hash_end_exec(line: &str, from: usize) -> (r: usize)
    requires
        from <= line@.len(),
    ensures
        r as int == shash_end(line@, from as int),
        from <= r <= line@.len(),
    decreases line@.len() - from,
{
    let n = line.unicode_len();
    let mut i = from;
    while i < n
        invariant
            n == line@.len(),
            from <= i <= n,
            shash_end(line@, from as int) == shash_end(line@, i as int),
        decreases n - i,
    {
        let c = line.get_char(i);
        if !((c >= '0' && c <= '9') || (c >= 'a' && c <= 'z')) {
            return i;
        }
        i += 1;
    }
    i
}

/// The end of the whitespace run starting at `from`, as `sws_end` gives it.
fn ws_end_exec(line: &str, from: usize) -> (r: usize)
    requires
        from <= line@.len(),
    ensures
        r as int == sws_end(line@, from as int),
        from <= r <= line@.len(),
    decreases line@.len() - from,
{
    let n = line.unicode_len();
    let mut i = from;
    while i < n
        invariant
            n == line@.len(),
            from <= i <= n,
            sws_end(line@, from as int) == sws_end(line@, i as int),
        decreases n - i,
    {
        let c = line.get_char(i);
        if !(c == ' ' || c == '\t' || c == '\n' || c == '\r' || c == '\u{b}' || c == '\u{c}') {
            return i;
        }
        i += 1;
    }
    i
}

/// The captures of `index before..after [mode]`: the two blob hashes and the
/// optional six-digit mode.
pub open spec fn index_spec(s: Seq<char>, p: Seq<char>) -> Option<
    (Seq<char>, Seq<char>, Option<Seq<char>>),
> {
    if has_prefix(s, p) {
        let e1 = shash_end(s, p.len() as int);
        if e1 > p.len() && e1 + 1 < s.len() && s[e1] == '.' && s[e1 + 1] == '.' {
            let b2 = e1 + 2;
            let e2 = shash_end(s, b2);
            if e2 > b2 {
                let w = sws_end(s, e2);
                let mode = if w + 6 <= s.len() && (forall|k: int|
                    w <= k < w + 6 ==> is_digit(#[trigger] s[k])) && w > e2 {
                    Option::Some(s.subrange(w, w + 6))
                } else {
                    Option::None
                };
                Option::Some((s.subrange(p.len() as int, e1), s.subrange(b2, e2), mode))
            } else {
                Option::None
            }
        } else {
            Option::None
        }
    } else {
        Option::None
    }
}

/// Recognizes a single-parent blob index line.
fn match_index(line: &str, pat: &str) -> (r: Option<(String, String, Option<String>)>)
    ensures
        match index_spec(line@, pat@) {
            Option::None => r is None,
            Option::Some((h1, h2, om)) => r matches Some(t) && t.0@ == h1 && t.1@ == h2
                && (match om {
                Option::None => t.2 is None,
                Option::Some(m) => t.2 matches Some(ms) && ms@ == m,
            }),
        },
{
    if !starts_with_lit(line, pat) {
        return Option::None;
    }
    let pl = pat.unicode_len();
    let n = line.unicode_len();
    let e1 = hash_end_exec(line, pl);
    if !(e1 > pl && e1 < n && e1 + 1 < n && line.get_char(e1) == '.' && line.get_char(e1 + 1)
        == '.') {
        return Option::None;
    }
    let b2 = e1 + 2;
    let e2 = hash_end_exec(line, b2);
    if e2 <= b2 {
        return Option::None;
    }
    let w = ws_end_exec(line, e2);
    let de = digit_run_end(line, w);
    let mode: Option<String> = if w > e2 && de - w >= 6 {
        proof {
            assert(forall|k: int| w <= k < w + 6 ==> is_digit(#[trigger] line@[k]));
        }
        Option::Some(line.substring_char(w, w + 6).to_owned())
    } else {
        proof {
            if w + 6 <= line@.len() && (forall|k: int|
                w <= k < w + 6 ==> is_digit(#[trigger] line@[k])) && w > e2 {
                assert(is_digit(line@[de as int]));
            }
        }
        Option::None
    };
    Option::Some((
        line.substring_char(pl, e1).to_owned(),
        line.substring_char(b2, e2).to_owned(),
        mode,
    ))
}

/// The captures of `index h1,h2..h3` (combined diff): the three blob hashes.
pub open spec fn combined_index_spec(s: Seq<char>, p: Seq<char>) -> Option<
    (Seq<char>, Seq<char>, Seq<char>),
> {
    if has_prefix(s, p) {
        let e1 = shash_end(s, p.len() as int);
        if e1 > p.len() && e1 < s.len() && s[e1] == ',' {
            let b2 = e1 + 1;
            let e2 = shash_end(s, b2);
            if e2 > b2 && e2 + 1 < s.len() && s[e2] == '.' && s[e2 + 1] == '.' {
                let b3 = e2 + 2;
                let e3 = shash_end(s, b3);
                if e3 > b3 {
                    Option::Some(
                        (s.subrange(p.len() as int, e1), s.subrange(b2, e2), s.subrange(b3, e3)),
                    )
                } else {
                    Option::None
                }
            } else {
                Option::None
            }
        } else {
            Option::None
        }
    } else {
        Option::None
    }
}

/// Recognizes a combined blob index line.
fn match_combined_index(line: &str, pat: &str) -> (r: Option<(String, String, String)>)
    ensures
        match combined_index_spec(line@, pat@) {
            Option::None => r is None,
            Option::Some((h1, h2, h3)) => r matches Some(t) && t.0@ == h1 && t.1@ == h2 && t.2@
                == h3,
        },
{
    if !starts_with_lit(line, pat) {
        return Option::None;
    }
    let pl = pat.unicode_len();
    let n = line.unicode_len();
    let e1 = hash_end_exec(line, pl);
    if !(e1 > pl && e1 < n && line.get_char(e1) == ',') {
        return Option::None;
    }
    let b2 = e1 + 1;
    let e2 = hash_end_exec(line, b2);
    if !(e2 > b2 && e2 < n && e2 + 1 < n && line.get_char(e2) == '.' && line.get_char(e2 + 1)
        == '.') {
        return Option::None;
    }
    let b3 = e2 + 2;
    let e3 = hash_end_exec(line, b3);
    if e3 <= b3 {
        return Option::None;
    }
    Option::Some((
        line.substring_char(pl, e1).to_owned(),
        line.substring_char(b2, e2).to_owned(),
        line.substring_char(b3, e3).to_owned(),
    ))
}

/// The captures of `mode m1,m2..m3` (combined diff): three six-digit modes.
pub open spec fn combined_mode_spec(s: Seq<char>, p: Seq<char>) -> Option<
    (Seq<char>, Seq<char>, Seq<char>),
> {
    let pl = p.len() as int;
    if has_prefix(s, p) && pl + 14 <= s.len() && (forall|k: int|
        pl <= k < pl + 6 ==> is_digit(#[trigger] s[k])) && s[pl + 6] == ',' && (forall|k: int|
        pl + 7 <= k < pl + 13 ==> is_digit(#[trigger] s[k])) && pl + 16 <= s.len() && s[pl + 13]
        == '.' && s[pl + 14] == '.' && (forall|k: int|
        pl + 15 <= k < pl + 21 ==> is_digit(#[trigger] s[k])) && pl + 21 <= s.len() {
        Option::Some(
            (
                s.subrange(pl, pl + 6),
                s.subrange(pl + 7, pl + 13),
                s.subrange(pl + 15, pl + 21),
            ),
        )
    } else {
        Option::None
    }
}

/// Recognizes a combined mode line.
fn match_combined_mode(line: &str, pat: &str) -> (r: Option<(String, String, String)>)
    ensures
        match combined_mode_spec(line@, pat@) {
            Option::None => r is None,
            Option::Some((m1, m2, m3)) => r matches Some(t) && t.0@ == m1 && t.1@ == m2 && t.2@
                == m3,
        },
{
    if !starts_with_lit(line, pat) {
        return Option::None;
    }
    let pl = pat.unicode_len();
    let n = line.unicode_len();
    if n < pl || n - pl < 21 {
        return Option::None;
    }
    let e1 = digit_run_end(line, pl);
    if e1 < pl + 6 {
        return Option::None;
    }
    if line.get_char(pl + 6) != ',' {
        return Option::None;
    }
    let e2 = digit_run_end(line, pl + 7);
    if e2 < pl + 13 {
        return Option::None;
    }
    if line.get_char(pl + 13) != '.' || line.get_char(pl + 14) != '.' {
        return Option::None;
    }
    let e3 = digit_run_end(line, pl + 15);
    if e3 < pl + 21 {
        return Option::None;
    }
    Option::Some((
        line.substring_char(pl, pl + 6).to_owned(),
        line.substring_char(pl + 7, pl + 13).to_owned(),
        line.substring_char(pl + 15, pl + 21).to_owned(),
    ))
}


// ---------------------------------------------------------------------------
// Binary markers and file names.
// ---------------------------------------------------------------------------

/// Whether `p` occurs in `s` at or after position `i`.
pub open spec fn occurs_from(s: Seq<char>, p: Seq<char>, i: int) -> bool {
    exists|k: int| i <= k && occurs_at(s, p, k)
}

/// Tests one position for an occurrence of `p`.
fn occurs_check(s: &str, p: &str, i: usize) -> (r: bool)
    requires
        i + p@.len() <= s@.len(),
    ensures
        r == occurs_at(s@, p@, i as int),
{
    let sn = s.unicode_len();
    let pn = p.unicode_len();
    let mut k: usize = 0;
    while k < pn
        invariant
            sn == s@.len() && pn == p@.len(),
            i + pn <= s@.len(),
            0 <= k <= pn,
            forall|q: int| 0 <= q < k ==> s@[i + q] == p@[q],
        decreases pn - k,
    {
        if s.get_char(i + k) != p.get_char(k) {
            proof {
                assert(s@.subrange(i as int, i + pn)[k as int] != p@[k as int]);
            }
            return false;
        }
        k += 1;
    }
    proof {
        assert(s@.subrange(i as int, i + pn) =~= p@);
    }
    true
}

/// The first occurrence of `p` in `s`, if any.
pub(crate) fn find_first(s: &str, p: &str) -> (r: Option<usize>)
    ensures
        r matches Some(i) ==> occurs_at(s@, p@, i as int) && forall|k: int|
            0 <= k < i ==> !occurs_at(s@, p@, k),
        r is None ==> forall|k: int| !occurs_at(s@, p@, k),
{
    let sn = s.unicode_len();
    let pn = p.unicode_len();
    if pn > sn {
        proof {
            assert(forall|k: int| occurs_at(s@, p@, k) ==> k + pn <= sn);
        }
        return Option::None;
    }
    if pn == 0 {
        proof {
            assert(s@.subrange(0, 0) =~= p@);
        }
        return Option::Some(0);
    }
    let mut i: usize = 0;
    while i <= sn - pn
        invariant
            sn == s@.len() && pn == p@.len() && pn <= sn && 1 <= pn,
            0 <= i <= sn - pn + 1,
            forall|k: int| 0 <= k < i ==> !occurs_at(s@, p@, k),
        decreases sn - pn + 1 - i,
    {
        if occurs_check(s, p, i) {
            return Option::Some(i);
        }
        i += 1;
    }
    proof {
        assert(forall|k: int| occurs_at(s@, p@, k) ==> 0 <= k <= sn - pn);
    }
    Option::None
}

/// The last occurrence of `p` within `s[lo..hi]`, as an offset into that
/// window.
fn find_last_in(s: &str, p: &str, lo: usize, hi: usize) -> (r: Option<usize>)
    requires
        lo <= hi <= s@.len(),
    ensures
        r matches Some(i) ==> occurs_at(s@.subrange(lo as int, hi as int), p@, i as int)
            && forall|k: int| k > i ==> !occurs_at(s@.subrange(lo as int, hi as int), p@, k),
        r is None ==> forall|k: int| !occurs_at(s@.subrange(lo as int, hi as int), p@, k),
{
    let ghost win = s@.subrange(lo as int, hi as int);
    let pn = p.unicode_len();
    let wn = hi - lo;
    if pn > wn {
        proof {
            assert(forall|k: int| occurs_at(win, p@, k) ==> k + pn <= wn);
        }
        return Option::None;
    }
    if pn == 0 {
        proof {
            assert(win.subrange(wn as int, wn as int) =~= p@);
            assert(occurs_at(win, p@, wn as int));
            assert(forall|k: int| k > wn ==> !occurs_at(win, p@, k));
        }
        return Option::Some(wn);
    }
    let mut best: Option<usize> = Option::None;
    let mut i: usize = 0;
    while i <= wn - pn
        invariant
            lo <= hi <= s@.len(),
            win == s@.subrange(lo as int, hi as int),
            pn == p@.len() && wn == hi - lo && pn <= wn && 1 <= pn,
            0 <= i <= wn - pn + 1,
            best matches Some(b) ==> b < i && occurs_at(win, p@, b as int) && forall|k: int|
                b < k < i ==> !occurs_at(win, p@, k),
            best is None ==> forall|k: int| 0 <= k < i ==> !occurs_at(win, p@, k),
        decreases wn - pn + 1 - i,
    {
        proof {
            assert(lo + i + pn <= s@.len());
        }
        let hit = occurs_check(s, p, lo + i);
        proof {
            assert(forall|q: int| 0 <= q < pn ==> #[trigger] win[i + q] == s@[lo + i + q]);
            assert(win.subrange(i as int, i + pn) =~= s@.subrange(lo + i, lo + i + pn));
            assert(hit == occurs_at(win, p@, i as int));
        }
        if hit {
            best = Option::Some(i);
        }
        i += 1;
    }
    proof {
        assert(forall|k: int| occurs_at(win, p@, k) ==> 0 <= k <= wn - pn);
    }
    best
}

/// The captures of `Binary files A and B differ`: the two names, split at
/// the last ` and ` between the prefix and the ` differ` suffix.
pub open spec fn binary_files_spec(
    s: Seq<char>,
    pre: Seq<char>,
    mid: Seq<char>,
    suf: Seq<char>,
) -> Option<(Seq<char>, Seq<char>)> {
    if has_prefix(s, pre) && has_suffix(s, suf) && s.len() >= pre.len() + suf.len() {
        let w = s.subrange(pre.len() as int, s.len() - suf.len());
        if exists|k: int| occurs_at(w, mid, k) {
            let i = choose|i: int| occurs_at(w, mid, i) && forall|k: int|
                k > i ==> !occurs_at(w, mid, k);
            if occurs_at(w, mid, i) && forall|k: int| k > i ==> !occurs_at(w, mid, k) {
                Option::Some((w.take(i), w.skip(i + mid.len())))
            } else {
                Option::None
            }
        } else {
            Option::None
        }
    } else {
        Option::None
    }
}

/// Recognizes a `Binary files … and … differ` marker line.
fn match_binary_files(line: &str, pre: &str, mid: &str, suf: &str) -> (r: Option<(String, String)>)
    ensures
        match binary_files_spec(line@, pre@, mid@, suf@) {
            Option::None => r is None,
            Option::Some((c1, c2)) => r matches Some(t) && t.0@ == c1 && t.1@ == c2,
        },
{
    if !starts_with_lit(line, pre) {
        return Option::None;
    }
    if !ends_with_lit(line, suf) {
        return Option::None;
    }
    let n = line.unicode_len();
    let pl = pre.unicode_len();
    let sl = suf.unicode_len();
    if n < pl || n - pl < sl {
        return Option::None;
    }
    let ghost w = line@.subrange(pl as int, n - sl);
    let last = find_last_in(line, mid, pl, n - sl);
    match last {
        Option::None => {
            proof {
                if binary_files_spec(line@, pre@, mid@, suf@) is Some {
                    let i = choose|i: int| occurs_at(w, mid@, i) && forall|k: int|
                        k > i ==> !occurs_at(w, mid@, k);
                    assert(exists|k: int| occurs_at(w, mid@, k));
                    let k0 = choose|k: int| occurs_at(w, mid@, k);
                    assert(false);
                }
            }
            Option::None
        },
        Option::Some(i) => {
            let ml = mid.unicode_len();
            proof {
                assert(occurs_at(w, mid@, i as int));
                let si = choose|si: int| occurs_at(w, mid@, si) && forall|k: int|
                    k > si ==> !occurs_at(w, mid@, k);
                assert(occurs_at(w, mid@, si) && forall|k: int| k > si ==> !occurs_at(w, mid@, k));
                assert(!(si < i as int));
                assert(!((i as int) < si));
                assert(si == i as int);
                assert(w.take(i as int) =~= line@.subrange(pl as int, pl + i));
                assert(w.skip(i + ml) =~= line@.subrange(pl + i + ml, n - sl));
            }
            Option::Some((
                line.substring_char(pl, pl + i).to_owned(),
                line.substring_char(pl + i + ml, n - sl).to_owned(),
            ))
        },
    }
}


// ---------------------------------------------------------------------------
// File names.
// ---------------------------------------------------------------------------

/// One optional quote stripped from each end (never both halves of a
/// two-character string).
pub open spec fn unquote_spec(s: Seq<char>) -> Seq<char> {
    let t1 = if s.len() >= 2 && s[0] == '"' {
        s.drop_first()
    } else {
        s
    };
    if t1.len() >= 2 && t1.last() == '"' {
        t1.drop_last()
    } else {
        t1
    }
}

/// The index of the first tab at or after `i`, or the length.
pub open spec fn first_tab(s: Seq<char>, i: int) -> int
    decreases s.len() - i,
{
    if 0 <= i && i < s.len() && s[i] != '\t' {
        first_tab(s, i + 1)
    } else {
        i
    }
}

/// The name truncated at its first tab: trailing timestamps arrive
/// tab-separated on old- and new-file header lines.
pub open spec fn strip_tab_spec(s: Seq<char>) -> Seq<char> {
    s.take(first_tab(s, 0))
}

/// The known repository prefixes stripped from a diff path: the first of
/// `a/ b/ i/ w/ c/ o/` that occurs anywhere in the name costs the name its
/// first two characters; failing those, a caller-supplied prefix.
pub open spec fn strip_prefix_spec(s: Seq<char>, extra: Option<Seq<char>>) -> Seq<char> {
    if contains_seq(s, seq!['a', '/']) || contains_seq(s, seq!['b', '/']) || contains_seq(
        s,
        seq!['i', '/'],
    ) || contains_seq(s, seq!['w', '/']) || contains_seq(s, seq!['c', '/']) || contains_seq(
        s,
        seq!['o', '/'],
    ) {
        s.skip(2)
    } else {
        match extra {
            Option::Some(e) => if contains_seq(s, e) {
                s.skip(e.len() as int)
            } else {
                s
            },
            Option::None => s,
        }
    }
}

/// The file name a header line carries: the text after the optional marker
/// prefix, unquoted, with any repository prefix and tab-separated timestamp
/// removed.
pub open spec fn filename_spec(
    line_prefix: Option<Seq<char>>,
    s: Seq<char>,
    extra: Option<Seq<char>>,
) -> Option<Seq<char>> {
    let cap = match line_prefix {
        Option::Some(p) => if has_prefix(s, p) && s.len() > p.len() {
            Option::Some(unquote_spec(s.skip(p.len() as int)))
        } else {
            Option::None
        },
        Option::None => if s.len() > 0 {
            Option::Some(unquote_spec(s))
        } else {
            Option::None
        },
    };
    match cap {
        Option::None => Option::None,
        Option::Some(c) => Option::Some(strip_tab_spec(strip_prefix_spec(c, extra))),
    }
}

/// Extracts the window `s[lo..hi]` with one optional quote stripped from
/// each end.
fn unquote_range(s: &str, lo: usize, hi: usize) -> (r: (usize, usize))
    requires
        lo <= hi <= s@.len(),
    ensures
        lo <= r.0 <= r.1 <= hi,
        s@.subrange(r.0 as int, r.1 as int) == unquote_spec(s@.subrange(lo as int, hi as int)),
{
    let ghost w = s@.subrange(lo as int, hi as int);
    let mut a = lo;
    let mut b = hi;
    if hi - lo >= 2 && s.get_char(lo) == '"' {
        a = lo + 1;
        proof {
            assert(w[0] == '"');
            assert(w.drop_first() =~= s@.subrange(lo + 1, hi as int));
        }
    } else {
        proof {
            assert(hi - lo >= 2 ==> w[0] == s@[lo as int]);
        }
    }
    let ghost t1 = s@.subrange(a as int, b as int);
    if b - a >= 2 && s.get_char(b - 1) == '"' {
        b = b - 1;
        proof {
            assert(t1.last() == '"');
            assert(t1.drop_last() =~= s@.subrange(a as int, b as int));
        }
    } else {
        proof {
            assert(b - a >= 2 ==> t1.last() == s@[b - 1]);
        }
    }
    (a, b)
}

/// The name a header line carries, per `filename_spec`.
#[verifier::rlimit(50)]
pub(crate) fn get_filename(line_prefix: Option<&str>, line: &str, extra_prefix: Option<&str>) -> (r:
    Option<String>)
    ensures
        ({
            let lp = match line_prefix {
                Option::Some(p) => Option::Some(p@),
                Option::None => Option::<Seq<char>>::None,
            };
            let ep = match extra_prefix {
                Option::Some(p) => Option::Some(p@),
                Option::None => Option::<Seq<char>>::None,
            };
            match filename_spec(lp, line@, ep) {
                Option::None => r is None,
                Option::Some(c) => r matches Some(m) && m@ == c,
            }
        }),
{
    let n = line.unicode_len();
    let start: usize;
    match line_prefix {
        Option::Some(p) => {
            if !starts_with_lit(line, p) {
                return Option::None;
            }
            let pl = p.unicode_len();
            if n <= pl {
                return Option::None;
            }
            start = pl;
        },
        Option::None => {
            if n == 0 {
                return Option::None;
            }
            start = 0;
        },
    }
    proof {
        if start > 0 {
            assert(line@.skip(start as int) =~= line@.subrange(start as int, n as int));
        } else {
            assert(line@ =~= line@.subrange(0, n as int));
        }
    }
    let (mut a, mut b) = unquote_range(line, start, n);
    let ghost cap = line@.subrange(a as int, b as int);
    // Repository prefix.
    let sub = line.substring_char(a, b);
    proof {
        reveal_strlit("a/");
        reveal_strlit("b/");
        reveal_strlit("i/");
        reveal_strlit("w/");
        reveal_strlit("c/");
        reveal_strlit("o/");
        assert("a/"@ =~= seq!['a', '/']);
        assert("b/"@ =~= seq!['b', '/']);
        assert("i/"@ =~= seq!['i', '/']);
        assert("w/"@ =~= seq!['w', '/']);
        assert("c/"@ =~= seq!['c', '/']);
        assert("o/"@ =~= seq!['o', '/']);
    }
    let known = find_first(sub, "a/").is_some() || find_first(sub, "b/").is_some()
        || find_first(sub, "i/").is_some() || find_first(sub, "w/").is_some()
        || find_first(sub, "c/").is_some() || find_first(sub, "o/").is_some();
    let ghost ep = match extra_prefix {
        Option::Some(p) => Option::Some(p@),
        Option::None => Option::<Seq<char>>::None,
    };
    let ghost stripped = strip_prefix_spec(cap, ep);
    if known {
        a = a + 2;
        proof {
            assert(cap.skip(2) =~= line@.subrange(a as int, b as int));
        }
    } else {
        match extra_prefix {
            Option::Some(e) => {
                let el = e.unicode_len();
                if find_first(sub, e).is_some() {
                    proof {
                        let k0 = choose|k: int| occurs_at(cap, e@, k);
                        assert(el <= b - a);
                    }
                    a = a + el;
                    proof {
                        assert(cap.skip(el as int) =~= line@.subrange(a as int, b as int));
                    }
                }
            },
            Option::None => {},
        }
    }
    let ghost pre_tab = line@.subrange(a as int, b as int);
    proof {
        assert(pre_tab == stripped);
    }
    // Tab-separated timestamp.
    let t = tab_end(line, a, b);
    proof {
        assert(pre_tab.take(t - a) =~= line@.subrange(a as int, t as int));
    }
    Option::Some(line.substring_char(a, t).to_owned())
}

/// The position of the first tab in `s[lo..hi]`, or `hi`.
fn tab_end(s: &str, lo: usize, hi: usize) -> (r: usize)
    requires
        lo <= hi <= s@.len(),
    ensures
        lo <= r <= hi,
        r - lo == first_tab(s@.subrange(lo as int, hi as int), 0),
{
    let ghost w = s@.subrange(lo as int, hi as int);
    let mut t = lo;
    while t < hi && s.get_char(t) != '\t'
        invariant
            lo <= t <= hi <= s@.len(),
            w == s@.subrange(lo as int, hi as int),
            first_tab(w, 0) == first_tab(w, t - lo),
        decreases hi - t,
    {
        proof {
            assert(w[t - lo] == s@[t as int]);
        }
        t += 1;
    }
    proof {
        if t < hi {
            assert(w[t - lo] == s@[t as int]);
        }
        assert(first_tab(w, t - lo) == t - lo);
    }
    t
}

/// The file name of an old-file header line (`--- name`).
pub(crate) fn get_src_filename(line: &str, prefix: Option<&str>) -> (r: Option<String>)
    ensures
        ({
            let ep = match prefix {
                Option::Some(p) => Option::Some(p@),
                Option::None => Option::<Seq<char>>::None,
            };
            match filename_spec(Option::Some("--- "@), line@, ep) {
                Option::None => r is None,
                Option::Some(c) => r matches Some(m) && m@ == c,
            }
        }),
{
    get_filename(Option::Some("--- "), line, prefix)
}

/// The file name of a new-file header line (`+++ name`).
pub(crate) fn get_dst_filename(line: &str, prefix: Option<&str>) -> (r: Option<String>)
    ensures
        ({
            let ep = match prefix {
                Option::Some(p) => Option::Some(p@),
                Option::None => Option::<Seq<char>>::None,
            };
            match filename_spec(Option::Some("+++ "@), line@, ep) {
                Option::None => r is None,
                Option::Some(c) => r matches Some(m) && m@ == c,
            }
        }),
{
    get_filename(Option::Some("+++ "), line, prefix)
}

/// The extension after the final dot of the file name, or the language
/// already detected when the name has none.
pub open spec fn extension_spec(name: Seq<char>, language: Option<Seq<char>>) -> Option<Seq<char>> {
    let parts = crate::tokenize::split_on(name, '.');
    if parts.len() > 1 {
        Option::Some(parts.last())
    } else {
        language
    }
}

/// Detects the language from the final dot-suffix of `filename`.
pub(crate) fn get_extension(filename: &str, language: Option<&str>) -> (r: Option<String>)
    ensures
        ({
            let lang = match language {
                Option::Some(l) => Option::Some(l@),
                Option::None => Option::<Seq<char>>::None,
            };
            match extension_spec(filename@, lang) {
                Option::None => r is None,
                Option::Some(c) => r matches Some(m) && m@ == c,
            }
        }),
{
    let parts = crate::tokenize::split_on_exec(filename, '.');
    proof {
        crate::tokenize::lemma_split_on_len(filename@, '.');
        assert(parts.deep_view().last() == parts.deep_view()[parts.deep_view().len() - 1]);
    }
    if parts.len() > 1 {
        let last = parts[parts.len() - 1].clone();
        proof {
            assert(last@ == parts.deep_view()[parts.deep_view().len() - 1]);
        }
        Option::Some(last)
    } else {
        match language {
            Option::Some(l) => Option::Some(l.to_owned()),
            Option::None => Option::None,
        }
    }
}

// ---------------------------------------------------------------------------
// Hunk-header lookahead.
// ---------------------------------------------------------------------------

/// Whether, scanning from `idx` while at least three lines follow, an
/// old-file / new-file / hunk-header triple appears before any `diff` line
/// boundary would matter; mirrors the ambiguity scan of rename and copy
/// headers.
pub open spec fn exist_hunk_spec(line: Seq<char>, lines: Seq<Seq<char>>, idx: int) -> bool
    decreases lines.len() - idx,
{
    if 0 <= idx && idx + 3 < lines.len() {
        if has_prefix(line, seq!['d', 'i', 'f', 'f']) {
            false
        } else if has_prefix(lines[idx], seq!['-', '-', '-', ' ']) && has_prefix(
            lines[idx + 1],
            seq!['+', '+', '+', ' '],
        ) && has_prefix(lines[idx + 2], seq!['@', '@']) {
            true
        } else {
            exist_hunk_spec(line, lines, idx + 1)
        }
    } else {
        false
    }
}

/// Scans forward for an old-file / new-file / hunk-header triple.
pub(crate) fn exist_hunk_header(line: &str, lines: &Vec<String>, index: usize) -> (r: bool)
    ensures
        r == exist_hunk_spec(line@, lines.deep_view(), index as int),
{
    proof {
        reveal_strlit("diff");
        reveal_strlit("--- ");
        reveal_strlit("+++ ");
        reveal_strlit("@@");
        assert("diff"@ =~= seq!['d', 'i', 'f', 'f']);
        assert("--- "@ =~= seq!['-', '-', '-', ' ']);
        assert("+++ "@ =~= seq!['+', '+', '+', ' ']);
        assert("@@"@ =~= seq!['@', '@']);
    }
    let n = lines.len();
    let mut idx = index;
    while idx < n && n - idx > 3
        invariant
            n == lines.len(),
            index <= idx,
            exist_hunk_spec(line@, lines.deep_view(), index as int) == exist_hunk_spec(
                line@,
                lines.deep_view(),
                idx as int,
            ),
        decreases n - idx,
    {
        proof {
            reveal_strlit("diff");
            reveal_strlit("--- ");
            reveal_strlit("+++ ");
            reveal_strlit("@@");
            assert("diff"@ =~= seq!['d', 'i', 'f', 'f']);
            assert("--- "@ =~= seq!['-', '-', '-', ' ']);
            assert("+++ "@ =~= seq!['+', '+', '+', ' ']);
            assert("@@"@ =~= seq!['@', '@']);
            assert(lines.deep_view().len() == n as int);
        }
        if starts_with_lit(line, "diff") {
            proof {
                assert(!exist_hunk_spec(line@, lines.deep_view(), idx as int));
            }
            return false;
        }
        if starts_with_lit(lines[idx].as_str(), "--- ") && starts_with_lit(
            lines[idx + 1].as_str(),
            "+++ ",
        ) && starts_with_lit(lines[idx + 2].as_str(), "@@") {
            proof {
                assert(lines.deep_view()[idx as int] == lines@[idx as int]@);
                assert(lines.deep_view()[idx + 1] == lines@[idx + 1]@);
                assert(lines.deep_view()[idx + 2] == lines@[idx + 2]@);
                assert(exist_hunk_spec(line@, lines.deep_view(), idx as int));
            }
            return true;
        }
        proof {
            assert(lines.deep_view()[idx as int] == lines@[idx as int]@);
            assert(lines.deep_view()[idx + 1] == lines@[idx + 1]@);
            assert(lines.deep_view()[idx + 2] == lines@[idx + 2]@);
        }
        idx += 1;
    }
    proof {
        assert(lines.deep_view().len() == n as int);
        assert(!exist_hunk_spec(line@, lines.deep_view(), idx as int));
    }
    false
}


// ---------------------------------------------------------------------------
// The parser state.
// ---------------------------------------------------------------------------

/// The lines of the pending block, if one is open.
pub open spec fn opt_block_count(ob: Option<Block>, t: LineType) -> int {
    match ob {
        Option::Some(b) => count_type(b.lines@, t),
        Option::None => 0,
    }
}

/// The number of lines of the pending block, if one is open.
pub open spec fn opt_block_total(ob: Option<Block>) -> int {
    match ob {
        Option::Some(b) => b.lines@.len() as int,
        Option::None => 0,
    }
}

/// The accumulating state of one parse: finished files, the file and block
/// being built, the running line counters and the path hints of the current
/// `diff --git` header.
pub struct ParseState {
    pub files: Vec<File>,
    pub current_file: Option<File>,
    pub current_block: Option<Block>,
    pub old_line: Option<usize>,
    pub old_line_2: Option<usize>,
    pub new_line: Option<usize>,
    pub possible_old_name: Option<String>,
    pub possible_new_name: Option<String>,
}

/// The invariant the state keeps: finished files are well formed, the
/// pending file's counts agree with its lines (pending block included), and
/// the pending block's line numbers are monotone and bounded by the running
/// counters.
pub open spec fn st_inv(st: ParseState) -> bool {
    &&& forall|k: int| 0 <= k < st.files@.len() ==> file_wf(#[trigger] st.files@[k])
    &&& match st.current_file {
        Option::Some(f) => {
            &&& f.added_lines as int == blocks_count_type(f.blocks@, LineType::Inserts)
                + opt_block_count(st.current_block, LineType::Inserts)
            &&& f.deleted_lines as int == blocks_count_type(f.blocks@, LineType::Deletes)
                + opt_block_count(st.current_block, LineType::Deletes)
            &&& forall|k: int|
                0 <= k < f.blocks@.len() ==> lines_monotone((#[trigger] f.blocks@[k]).lines@)
        },
        Option::None => true,
    }
    &&& match st.current_block {
        Option::Some(b) => {
            &&& st.old_line is Some
            &&& st.new_line is Some
            &&& lines_monotone(b.lines@)
            &&& (st.old_line matches Option::Some(on) && st.new_line matches Option::Some(nn)
                ==> lines_bounded(b.lines@, on as int, nn as int))
        },
        Option::None => true,
    }
}

/// How many lines the pending file and block hold: the driver keeps this
/// below the number of input lines walked so far.
pub open spec fn st_total(st: ParseState) -> int {
    (match st.current_file {
        Option::Some(f) => blocks_total(f.blocks@),
        Option::None => 0,
    }) + opt_block_total(st.current_block)
}

/// The mathematical value of a parse state.
#[verifier::ext_equal]
pub struct StateModel {
    pub files: Seq<FileModel>,
    pub current_file: Option<FileModel>,
    pub current_block: Option<BlockModel>,
    pub old_line: Option<usize>,
    pub old_line_2: Option<usize>,
    pub new_line: Option<usize>,
    pub possible_old_name: Option<Seq<char>>,
    pub possible_new_name: Option<Seq<char>>,
}

impl View for ParseState {
    type V = StateModel;

    open spec fn view(&self) -> StateModel {
        StateModel {
            files: self.files.deep_view(),
            current_file: match self.current_file {
                Option::Some(f) => Option::Some(f@),
                Option::None => Option::None,
            },
            current_block: match self.current_block {
                Option::Some(b) => Option::Some(b@),
                Option::None => Option::None,
            },
            old_line: self.old_line,
            old_line_2: self.old_line_2,
            new_line: self.new_line,
            possible_old_name: opt_str(self.possible_old_name),
            possible_new_name: opt_str(self.possible_new_name),
        }
    }
}

/// The empty parse state.
pub open spec fn init_state() -> StateModel {
    StateModel {
        files: Seq::<FileModel>::empty(),
        current_file: Option::None,
        current_block: Option::None,
        old_line: Option::None,
        old_line_2: Option::None,
        new_line: Option::None,
        possible_old_name: Option::None,
        possible_new_name: Option::None,
    }
}

// ---------------------------------------------------------------------------
// The functional meaning of each parser step.
// ---------------------------------------------------------------------------

/// What `save_block` does: the pending block, if any, moves to the end of
/// the pending file's blocks; with no pending file it is dropped.
pub open spec fn step_save_block(st: StateModel) -> StateModel {
    match st.current_block {
        Option::None => StateModel { current_block: Option::None, ..st },
        Option::Some(b) => match st.current_file {
            Option::Some(f) => StateModel {
                current_block: Option::None,
                current_file: Option::Some(FileModel { blocks: f.blocks.push(b), ..f }),
                ..st
            },
            Option::None => StateModel { current_block: Option::None, ..st },
        },
    }
}

/// What `save_file` does: missing names fall back to the header path hints,
/// and the pending file joins the finished files exactly when a new name is
/// resolved; the hints are cleared either way.
pub open spec fn step_save_file(st: StateModel) -> StateModel {
    match st.current_file {
        Option::None => StateModel {
            current_file: Option::None,
            possible_old_name: Option::None,
            possible_new_name: Option::None,
            ..st
        },
        Option::Some(f0) => {
            let f1 = if f0.old_name is None {
                FileModel { old_name: st.possible_old_name, ..f0 }
            } else {
                f0
            };
            let f2 = if f1.new_name is None {
                FileModel { new_name: st.possible_new_name, ..f1 }
            } else {
                f1
            };
            let nf = if f2.new_name is Some {
                st.files.push(f2)
            } else {
                st.files
            };
            StateModel {
                files: nf,
                current_file: Option::None,
                possible_old_name: Option::None,
                possible_new_name: Option::None,
                ..st
            }
        },
    }
}

/// What `start_file` does: the pending block and file are finished, then a
/// fresh file record opens.
pub open spec fn step_start_file(st: StateModel) -> StateModel {
    let st1 = step_save_file(step_save_block(st));
    StateModel { current_file: Option::Some(fresh_file_model()), ..st1 }
}

/// What `set_git_diff` does: the pending file, if any, is marked as coming
/// from a `diff --git` header.
pub open spec fn step_set_git_diff(st: StateModel) -> StateModel {
    match st.current_file {
        Option::Some(f) => StateModel {
            current_file: Option::Some(FileModel { is_git_diff: true, ..f }),
            ..st
        },
        Option::None => st,
    }
}

/// The pending file with its combined flag set, when one is pending.
pub open spec fn set_combined(st: StateModel, b: bool) -> StateModel {
    match st.current_file {
        Option::Some(f) => StateModel {
            current_file: Option::Some(FileModel { is_combined: b, ..f }),
            ..st
        },
        Option::None => st,
    }
}

/// What `start_block` does: the pending block is finished; the header line
/// sets the counters (and the combined flag) when it parses as a
/// single-parent or combined hunk header within the accepted range, and
/// defaults both counters to zero otherwise; a fresh block opens with the
/// line as its header.
pub open spec fn step_start_block(st: StateModel, line: Seq<char>) -> StateModel {
    let st1 = step_save_block(st);
    let st2 = if hunk1_spec(line) matches Option::Some(p) && p.0 <= 0xFFFF_FFFF && p.1
        <= 0xFFFF_FFFF {
        let p = hunk1_spec(line)->0;
        StateModel {
            old_line: Option::Some(p.0 as usize),
            new_line: Option::Some(p.1 as usize),
            ..set_combined(st1, false)
        }
    } else if hunk2_spec(line) matches Option::Some(p) && p.0 <= 0xFFFF_FFFF && p.1 <= 0xFFFF_FFFF
        && p.2 <= 0xFFFF_FFFF {
        let p = hunk2_spec(line)->0;
        StateModel {
            old_line: Option::Some(p.0 as usize),
            old_line_2: Option::Some(p.1 as usize),
            new_line: Option::Some(p.2 as usize),
            ..set_combined(st1, true)
        }
    } else {
        StateModel {
            old_line: Option::Some(0),
            new_line: Option::Some(0),
            ..set_combined(st1, false)
        }
    };
    StateModel {
        current_block: Option::Some(
            BlockModel { lines: Seq::<LineModel>::empty(), header: Option::Some(line) },
        ),
        ..st2
    }
}

/// The next counter value, held at the top of the range.
pub open spec fn spec_sat_inc(x: usize) -> usize {
    if x < usize::MAX {
        (x + 1) as usize
    } else {
        x
    }
}

/// What `create_line` does: with a pending file and block, the line joins
/// the block classified by its prefix — the add prefix (`+`, or `++` for a
/// combined file) makes an insert numbered on the new side, the delete
/// prefix makes a delete numbered on the old side, anything else is context
/// numbered on both — and the matching counters and counts advance; with no
/// pending file nothing changes.
pub open spec fn step_create_line(st: StateModel, line: Seq<char>) -> StateModel {
    match st.current_file {
        Option::None => st,
        Option::Some(file) => {
            let addp: Seq<char> = if !file.is_combined {
                "+"@
            } else {
                "++"@
            };
            let delp: Seq<char> = if !file.is_combined {
                "-"@
            } else {
                "--"@
            };
            let block = match st.current_block {
                Option::Some(b) => b,
                Option::None => BlockModel { lines: Seq::<LineModel>::empty(), header: Option::None },
            };
            let on = match st.old_line {
                Option::Some(v) => v,
                Option::None => 0,
            };
            let nn = match st.new_line {
                Option::Some(v) => v,
                Option::None => 0,
            };
            if has_prefix(line, addp) {
                let l = LineModel {
                    content: line,
                    line_type: Option::Some(LineType::Inserts),
                    old_number: Option::None,
                    new_number: Option::Some(nn),
                };
                StateModel {
                    current_file: Option::Some(
                        FileModel { added_lines: (file.added_lines + 1) as usize, ..file },
                    ),
                    current_block: Option::Some(BlockModel { lines: block.lines.push(l), ..block }),
                    new_line: Option::Some(spec_sat_inc(nn)),
                    ..st
                }
            } else if has_prefix(line, delp) {
                let l = LineModel {
                    content: line,
                    line_type: Option::Some(LineType::Deletes),
                    old_number: Option::Some(on),
                    new_number: Option::None,
                };
                StateModel {
                    current_file: Option::Some(
                        FileModel { deleted_lines: (file.deleted_lines + 1) as usize, ..file },
                    ),
                    current_block: Option::Some(BlockModel { lines: block.lines.push(l), ..block }),
                    old_line: Option::Some(spec_sat_inc(on)),
                    ..st
                }
            } else {
                let l = LineModel {
                    content: line,
                    line_type: Option::Some(LineType::Context),
                    old_number: Option::Some(on),
                    new_number: Option::Some(nn),
                };
                StateModel {
                    current_file: Option::Some(file),
                    current_block: Option::Some(BlockModel { lines: block.lines.push(l), ..block }),
                    old_line: Option::Some(spec_sat_inc(on)),
                    new_line: Option::Some(spec_sat_inc(nn)),
                    ..st
                }
            }
        },
    }
}

/// What `set_old_name` does: the pending file's old name is set from the
/// old-file header line (cleared when the line does not parse), and the
/// language follows the new name's extension when a name was found.
pub open spec fn step_set_old_name(st: StateModel, line: Seq<char>) -> StateModel {
    match st.current_file {
        Option::None => st,
        Option::Some(f) => {
            let nm = filename_spec(Option::Some("--- "@), line, Option::<Seq<char>>::None);
            let lang = match nm {
                Option::Some(n) => extension_spec(n, f.language),
                Option::None => f.language,
            };
            StateModel {
                current_file: Option::Some(FileModel { old_name: nm, language: lang, ..f }),
                ..st
            }
        },
    }
}

/// What `set_new_name` does: as `step_set_old_name`, for the new-file header.
pub open spec fn step_set_new_name(st: StateModel, line: Seq<char>) -> StateModel {
    match st.current_file {
        Option::None => st,
        Option::Some(f) => {
            let nm = filename_spec(Option::Some("+++ "@), line, Option::<Seq<char>>::None);
            let lang = match nm {
                Option::Some(n) => extension_spec(n, f.language),
                Option::None => f.language,
            };
            StateModel {
                current_file: Option::Some(FileModel { new_name: nm, language: lang, ..f }),
                ..st
            }
        },
    }
}

/// The state with `f` as its pending file.
pub open spec fn upd_file(st: StateModel, f: FileModel) -> StateModel {
    StateModel { current_file: Option::Some(f), ..st }
}

/// What `apply_metadata` does: the header patterns are tried in their
/// priority order, and the first that matches updates the pending file's
/// fields; the binary-marker patterns also start a synthetic block. A
/// percentage out of the accepted range falls through to the next pattern.
pub open spec fn step_apply_metadata(st: StateModel, line: Seq<char>, hunk_ahead: bool)
    -> StateModel {
    let cf = st.current_file;
    if prefix_digits6(line, "old mode "@) matches Option::Some(m) {
        let m = prefix_digits6(line, "old mode "@)->0;
        match cf {
            Option::Some(f) => upd_file(st, FileModel { old_mode: Option::Some(seq![m]), ..f }),
            Option::None => st,
        }
    } else if prefix_digits6(line, "new mode "@) matches Option::Some(m) {
        let m = prefix_digits6(line, "new mode "@)->0;
        match cf {
            Option::Some(f) => upd_file(st, FileModel { new_mode: Option::Some(m), ..f }),
            Option::None => st,
        }
    } else if prefix_digits6(line, "deleted file mode "@) matches Option::Some(m) {
        let m = prefix_digits6(line, "deleted file mode "@)->0;
        match cf {
            Option::Some(f) => upd_file(
                st,
                FileModel { deleted_file_mode: Option::Some(m), is_deleted: true, ..f },
            ),
            Option::None => st,
        }
    } else if prefix_digits6(line, "new file mode "@) matches Option::Some(m) {
        let m = prefix_digits6(line, "new file mode "@)->0;
        match cf {
            Option::Some(f) => upd_file(
                st,
                FileModel { new_file_mode: Option::Some(m), is_new: true, ..f },
            ),
            Option::None => st,
        }
    } else if name_after(line, "copy from "@) matches Option::Some(m) {
        let m = name_after(line, "copy from "@)->0;
        match cf {
            Option::Some(f) => upd_file(
                st,
                FileModel {
                    old_name: if hunk_ahead {
                        Option::Some(m)
                    } else {
                        f.old_name
                    },
                    is_copy: true,
                    ..f
                },
            ),
            Option::None => st,
        }
    } else if name_after(line, "copy to "@) matches Option::Some(m) {
        let m = name_after(line, "copy to "@)->0;
        match cf {
            Option::Some(f) => upd_file(
                st,
                FileModel {
                    new_name: if hunk_ahead {
                        Option::Some(m)
                    } else {
                        f.new_name
                    },
                    is_copy: true,
                    ..f
                },
            ),
            Option::None => st,
        }
    } else if name_after(line, "rename from "@) matches Option::Some(m) {
        let m = name_after(line, "rename from "@)->0;
        match cf {
            Option::Some(f) => upd_file(
                st,
                FileModel {
                    old_name: if hunk_ahead {
                        Option::Some(m)
                    } else {
                        f.old_name
                    },
                    is_rename: true,
                    ..f
                },
            ),
            Option::None => st,
        }
    } else if name_after(line, "rename to "@) matches Option::Some(m) {
        let m = name_after(line, "rename to "@)->0;
        match cf {
            Option::Some(f) => upd_file(
                st,
                FileModel {
                    new_name: if hunk_ahead {
                        Option::Some(m)
                    } else {
                        f.new_name
                    },
                    is_rename: true,
                    ..f
                },
            ),
            Option::None => st,
        }
    } else if binary_files_spec(line, "Binary files "@, " and "@, " differ"@) matches Option::Some(
        c,
    ) {
        let c = binary_files_spec(line, "Binary files "@, " and "@, " differ"@)->0;
        let st1 = match cf {
            Option::Some(f) => upd_file(
                st,
                FileModel {
                    is_binary: true,
                    old_name: filename_spec(Option::None, c.0, Option::<Seq<char>>::None),
                    new_name: filename_spec(Option::None, c.1, Option::<Seq<char>>::None),
                    ..f
                },
            ),
            Option::None => st,
        };
        step_start_block(st1, "Binary file"@)
    } else if has_prefix(line, "GIT binary patch"@) {
        let st1 = match cf {
            Option::Some(f) => upd_file(st, FileModel { is_binary: true, ..f }),
            Option::None => st,
        };
        step_start_block(st1, line)
    } else if percent_after(line, "similarity index "@) matches Option::Some(v) && v
        <= 0xFFFF_FFFF {
        let v = percent_after(line, "similarity index "@)->0;
        match cf {
            Option::Some(f) => upd_file(
                st,
                FileModel { unchanged_percentage: Option::Some(v as usize), ..f },
            ),
            Option::None => st,
        }
    } else if percent_after(line, "dissimilarity index "@) matches Option::Some(v) && v
        <= 0xFFFF_FFFF {
        let v = percent_after(line, "dissimilarity index "@)->0;
        match cf {
            Option::Some(f) => upd_file(
                st,
                FileModel { changed_percentage: Option::Some(v as usize), ..f },
            ),
            Option::None => st,
        }
    } else if index_spec(line, "index "@) matches Option::Some(c) {
        let c = index_spec(line, "index "@)->0;
        match cf {
            Option::Some(f) => upd_file(
                st,
                FileModel {
                    checksum_before: Option::Some(seq![c.0]),
                    checksum_after: Option::Some(c.1),
                    mode: match c.2 {
                        Option::Some(m) => Option::Some(m),
                        Option::None => f.mode,
                    },
                    ..f
                },
            ),
            Option::None => st,
        }
    } else if combined_index_spec(line, "index "@) matches Option::Some(c) {
        let c = combined_index_spec(line, "index "@)->0;
        match cf {
            Option::Some(f) => upd_file(
                st,
                FileModel {
                    checksum_before: Option::Some(seq![c.0, c.1]),
                    checksum_after: Option::Some(c.2),
                    ..f
                },
            ),
            Option::None => st,
        }
    } else if combined_mode_spec(line, "mode "@) matches Option::Some(c) {
        let c = combined_mode_spec(line, "mode "@)->0;
        match cf {
            Option::Some(f) => upd_file(
                st,
                FileModel {
                    old_mode: Option::Some(seq![c.0, c.1]),
                    new_mode: Option::Some(c.2),
                    ..f
                },
            ),
            Option::None => st,
        }
    } else {
        st
    }
}

/// The last position of `c` in `s`, if any.
pub open spec fn last_index_of(s: Seq<char>, c: char) -> Option<int>
    decreases s.len(),
{
    if s.len() == 0 {
        Option::None
    } else if s.last() == c {
        Option::Some(s.len() - 1)
    } else {
        last_index_of(s.drop_last(), c)
    }
}

/// `last_index_of` finds the last occurrence and nothing past it.
pub proof fn lemma_last_index_of(s: Seq<char>, c: char)
    ensures
        last_index_of(s, c) matches Option::Some(i) ==> 0 <= i < s.len() && s[i] == c
            && forall|k: int| i < k < s.len() ==> s[k] != c,
        last_index_of(s, c) is None ==> forall|k: int| 0 <= k < s.len() ==> s[k] != c,
    decreases s.len(),
{
    if s.len() > 0 && s.last() != c {
        lemma_last_index_of(s.drop_last(), c);
        assert(forall|k: int| 0 <= k < s.len() - 1 ==> s.drop_last()[k] == s[k]);
    }
}

/// What the `diff` branch of the driver does: a fresh file opens; when the
/// line is a `diff --git` header whose tail splits at its last space into
/// two nonempty halves, those halves become the path hints; and the file is
/// marked as a git diff.
pub open spec fn step_git_header(st: StateModel, line: Seq<char>) -> StateModel {
    let st1 = step_start_file(st);
    let st2 = if has_prefix(line, "diff --git "@) {
        match last_index_of(line.skip(11), ' ') {
            Option::Some(rel) => {
                let mid = 11 + rel;
                if mid > 11 && mid + 1 < line.len() {
                    StateModel {
                        possible_old_name: filename_spec(
                            Option::None,
                            line.subrange(11, mid),
                            Option::<Seq<char>>::None,
                        ),
                        possible_new_name: filename_spec(
                            Option::None,
                            line.subrange(mid + 1, line.len() as int),
                            Option::<Seq<char>>::None,
                        ),
                        ..st1
                    }
                } else {
                    st1
                }
            },
            Option::None => st1,
        }
    } else {
        st1
    };
    step_set_git_diff(st2)
}

/// What one driver iteration does with line `i`: empty and `*` lines are
/// skipped; a `diff` line starts a file; otherwise a missing file — or a
/// non-git old-file / new-file / hunk triple — starts one, then the line is
/// handled as a name header, a hunk header, hunk content, or metadata, in
/// that order, exactly as the driver's conditions read.
pub open spec fn step_line(st: StateModel, lines: Seq<Seq<char>>, i: int) -> StateModel {
    let line = lines[i];
    let n = lines.len() as int;
    if line.len() == 0 || has_prefix(line, "*"@) {
        st
    } else if has_prefix(line, "diff"@) {
        step_git_header(st, line)
    } else {
        let st1 = if st.current_file is None || (!(st.current_file->0.is_git_diff) && has_prefix(
            line,
            "--- "@,
        ) && n - i > 2 && has_prefix(lines[i + 1], "+++ "@) && has_prefix(lines[i + 2], "@@"@)) {
            step_start_file(st)
        } else {
            st
        };
        let prev_old = i > 0 && has_prefix(lines[i - 1], "--- "@);
        let next_new = n - i > 1 && has_prefix(lines[i + 1], "+++ "@);
        let name_pair = (has_prefix(line, "--- "@) && next_new) || (has_prefix(line, "+++ "@)
            && prev_old);
        if name_pair && (st1.current_file matches Option::Some(f) && f.old_name is None)
            && has_prefix(line, "--- "@) {
            step_set_old_name(st1, line)
        } else if name_pair && (st1.current_file matches Option::Some(f) && f.new_name is None)
            && has_prefix(line, "+++ "@) {
            step_set_new_name(st1, line)
        } else if (st1.current_file is Some && has_prefix(line, "@@"@)) || ((st1.current_file
            matches Option::Some(f) && f.is_git_diff && f.old_name is Some && f.new_name is Some)
            && st1.current_block is None) {
            step_start_block(st1, line)
        } else if st1.current_block is Some && (has_prefix(line, "+"@) || has_prefix(line, "-"@)
            || has_prefix(line, " "@)) {
            step_create_line(st1, line)
        } else {
            step_apply_metadata(st1, line, exist_hunk_spec(line, lines, i))
        }
    }
}

/// The parse state after the first `i` lines.
pub open spec fn walk_lines(lines: Seq<Seq<char>>, i: int) -> StateModel
    decreases i,
{
    if i <= 0 {
        init_state()
    } else {
        step_line(walk_lines(lines, i - 1), lines, i - 1)
    }
}

/// The files that parsing a whole diff text yields: the input is cleaned of
/// no-newline markers, its newlines normalized, and split at newlines; the
/// state machine walks the lines; and whatever is still pending is finished.
pub open spec fn parse_spec(diff: Seq<char>) -> Seq<FileModel> {
    let cleaned = fix_newlines(remove_marker(diff, "\\ No newline at end of file"@));
    let lines = crate::tokenize::split_on(cleaned, '\n');
    let st = walk_lines(lines, lines.len() as int);
    step_save_file(step_save_block(st)).files
}

impl ParseState {
    /// A fresh, empty parse state.
    pub fn new() -> (st: ParseState)
        ensures
            st_inv(st),
            st_total(st) == 0,
            st.files@.len() == 0,
            st.current_file is None,
            st.current_block is None,
            st@ == init_state(),
    {
        let st = ParseState {
            files: Vec::new(),
            current_file: Option::None,
            current_block: Option::None,
            old_line: Option::None,
            old_line_2: Option::None,
            new_line: Option::None,
            possible_old_name: Option::None,
            possible_new_name: Option::None,
        };
        proof {
            assert(st@ =~~= init_state());
        }
        st
    }

    /// Attaches the pending block, if any, to the pending file; with no
    /// pending file the block is discarded.
    pub fn save_block(&mut self)
        requires
            st_inv(*old(self)),
        ensures
            st_inv(*final(self)),
            final(self).current_block is None,
            st_total(*final(self)) <= st_total(*old(self)),
            final(self).files == old(self).files,
            final(self).current_file is Some <==> old(self).current_file is Some,
            final(self).possible_old_name == old(self).possible_old_name,
            final(self).possible_new_name == old(self).possible_new_name,
            final(self)@ == step_save_block(old(self)@),
    {
        let b = self.current_block.take();
        match b {
            Option::Some(block) => {
                let f = self.current_file.take();
                match f {
                    Option::Some(mut file) => {
                        proof {
                            lemma_blocks_push(file.blocks@, block, LineType::Inserts);
                            lemma_blocks_push(file.blocks@, block, LineType::Deletes);
                        }
                        let ghost fm = file@;
                        let ghost bm = block@;
                        file.blocks.push(block);
                        proof {
                            assert(file.blocks.deep_view() =~~= fm.blocks.push(bm));
                            assert(file@ =~~= FileModel { blocks: fm.blocks.push(bm), ..fm });
                        }
                        self.current_file = Option::Some(file);
                        proof {
                            assert(self@ =~~= step_save_block(old(self)@));
                        }
                    },
                    Option::None => {
                        proof {
                            assert(self@ =~~= step_save_block(old(self)@));
                        }
                    },
                }
            },
            Option::None => {
                proof {
                    assert(self@ =~~= step_save_block(old(self)@));
                }
            },
        }
    }

    /// Finishes the pending file: falls back to the header path hints for
    /// missing names, and keeps the file only when a new name is resolved.
    pub fn save_file(&mut self)
        requires
            st_inv(*old(self)),
            old(self).current_block is None,
        ensures
            st_inv(*final(self)),
            final(self).current_file is None,
            final(self).current_block is None,
            st_total(*final(self)) <= st_total(*old(self)),
            final(self).possible_old_name is None,
            final(self).possible_new_name is None,
            old(self).files@.len() <= final(self).files@.len(),
            old(self).current_file is None ==> final(self).files == old(self).files,
            final(self)@ == step_save_file(old(self)@),
    {
        let f = self.current_file.take();
        match f {
            Option::Some(mut file) => {
                proof {
                    lemma_blocks_count_le_total(file.blocks@, LineType::Inserts);
                }
                if file.old_name.is_none() {
                    file.old_name = self.possible_old_name.take();
                }
                if file.new_name.is_none() {
                    file.new_name = self.possible_new_name.take();
                }
                proof {
                    let f0 = old(self)@.current_file->0;
                    let f1 = if f0.old_name is None {
                        FileModel { old_name: old(self)@.possible_old_name, ..f0 }
                    } else {
                        f0
                    };
                    let f2 = if f1.new_name is None {
                        FileModel { new_name: old(self)@.possible_new_name, ..f1 }
                    } else {
                        f1
                    };
                    assert(file@ =~~= f2);
                }
                if file.new_name.is_some() {
                    let ghost before = self.files@;
                    let ghost before_dv = self.files.deep_view();
                    let ghost fm = file@;
                    self.files.push(file);
                    proof {
                        assert(forall|k: int|
                            0 <= k < before.len() ==> self.files@[k] == before[k]);
                        assert(self.files.deep_view() =~~= before_dv.push(fm));
                    }
                }
            },
            Option::None => {},
        }
        self.possible_old_name = Option::None;
        self.possible_new_name = Option::None;
        proof {
            assert(self@ =~~= step_save_file(old(self)@));
        }
    }

    /// Closes whatever is pending and opens a fresh file record.
    pub fn start_file(&mut self)
        requires
            st_inv(*old(self)),
        ensures
            st_inv(*final(self)),
            final(self).current_block is None,
            st_total(*final(self)) <= st_total(*old(self)),
            final(self).current_file matches Option::Some(f) && !f.is_git_diff
                && f.old_name is None && f.new_name is None && f.blocks@.len() == 0
                && f.added_lines == 0 && f.deleted_lines == 0,
            final(self)@ == step_start_file(old(self)@),
    {
        self.save_block();
        self.save_file();
        self.current_file = Option::Some(File::new());
        proof {
            assert(self.current_file->0@ =~~= fresh_file_model());
            assert(self@ =~~= step_start_file(old(self)@));
        }
    }

    /// Marks the pending file as coming from a `diff --git` header.
    pub fn set_git_diff(&mut self)
        requires
            st_inv(*old(self)),
        ensures
            st_inv(*final(self)),
            st_total(*final(self)) == st_total(*old(self)),
            final(self).current_block == old(self).current_block,
            final(self).files == old(self).files,
            final(self).current_file is Some <==> old(self).current_file is Some,
            final(self).current_file matches Option::Some(f) ==> f.is_git_diff,
            final(self)@ == step_set_git_diff(old(self)@),
    {
        let f = self.current_file.take();
        match f {
            Option::Some(mut file) => {
                file.is_git_diff = true;
                self.current_file = Option::Some(file);
            },
            Option::None => {},
        }
        proof {
            assert(self@ =~~= step_set_git_diff(old(self)@));
        }
    }

    /// Closes the pending block and opens a new one for the given hunk
    /// header line: its starting offsets set the line counters, an
    /// unparseable header defaults them to zero.
    pub fn start_block(&mut self, line: &str)
        requires
            st_inv(*old(self)),
        ensures
            st_inv(*final(self)),
            st_total(*final(self)) <= st_total(*old(self)),
            final(self).files == old(self).files,
            final(self).current_file is Some <==> old(self).current_file is Some,
            final(self).current_block matches Option::Some(b) && (b.lines@.len() == 0
                && (b.header matches Option::Some(h) && h@ == line@)),
            final(self).old_line is Some && final(self).new_line is Some,
            ({
                match hunk1_spec(line@) {
                    Option::Some((a, b)) => a <= 0xFFFF_FFFF && b <= 0xFFFF_FFFF
                        ==> (final(self).old_line matches Option::Some(ov) && ov as int == a)
                            && (final(self).new_line matches Option::Some(nv) && nv as int == b),
                    Option::None => true,
                }
            }),
            final(self)@ == step_start_block(old(self)@, line@),
    {
        self.save_block();
        let r1 = parse_hunk1(line);
        match r1 {
            Option::Some((a, b)) => {
                let f = self.current_file.take();
                match f {
                    Option::Some(mut file) => {
                        file.is_combined = false;
                        self.current_file = Option::Some(file);
                    },
                    Option::None => {},
                }
                self.old_line = Option::Some(a);
                self.new_line = Option::Some(b);
            },
            Option::None => {
                let r2 = parse_hunk2(line);
                match r2 {
                    Option::Some((a, b, c)) => {
                        let f = self.current_file.take();
                        match f {
                            Option::Some(mut file) => {
                                file.is_combined = true;
                                self.current_file = Option::Some(file);
                            },
                            Option::None => {},
                        }
                        self.old_line = Option::Some(a);
                        self.old_line_2 = Option::Some(b);
                        self.new_line = Option::Some(c);
                    },
                    Option::None => {
                        // An unrecognized header starts both sides at zero.
                        let f = self.current_file.take();
                        match f {
                            Option::Some(mut file) => {
                                file.is_combined = false;
                                self.current_file = Option::Some(file);
                            },
                            Option::None => {},
                        }
                        self.old_line = Option::Some(0);
                        self.new_line = Option::Some(0);
                    },
                }
            },
        }
        let mut block = Block::new();
        block.header = Option::Some(line.to_owned());
        self.current_block = Option::Some(block);
        proof {
            assert(block@ =~~= BlockModel {
                lines: Seq::<LineModel>::empty(),
                header: Option::Some(line@),
            });
            assert(self@ =~~= step_start_block(old(self)@, line@));
        }
    }

    /// Appends one content line to the pending block, classifying it by its
    /// prefix and numbering it from the running counters; without a pending
    /// file the line is dropped.
    pub fn create_line(&mut self, line: &str)
        requires
            st_inv(*old(self)),
            old(self).current_block is Some,
            st_total(*old(self)) < usize::MAX as int,
        ensures
            st_inv(*final(self)),
            st_total(*final(self)) <= st_total(*old(self)) + 1,
            final(self).files == old(self).files,
            final(self)@ == step_create_line(old(self)@, line@),
    {
        let has_file = self.current_file.is_some();
        if !has_file {
            return;
        }
        let f = self.current_file.take();
        let mut file = match f {
            Option::Some(file) => file,
            Option::None => {
                proof {
                    assert(false);
                }
                File::new()
            },
        };
        let add_prefix: &str = if !file.is_combined {
            "+"
        } else {
            "++"
        };
        let del_prefix: &str = if !file.is_combined {
            "-"
        } else {
            "--"
        };
        let mut l = Line::new(line.to_owned());
        let ghost old_count = st_total(*old(self));
        let b = self.current_block.take();
        let mut block = match b {
            Option::Some(block) => block,
            Option::None => {
                proof {
                    assert(false);
                }
                Block::new()
            },
        };
        let on = match self.old_line {
            Option::Some(v) => v,
            Option::None => {
                proof {
                    assert(false);
                }
                0
            },
        };
        let nn = match self.new_line {
            Option::Some(v) => v,
            Option::None => {
                proof {
                    assert(false);
                }
                0
            },
        };
        proof {
            lemma_count_le_len(block.lines@, LineType::Inserts);
            lemma_count_le_len(block.lines@, LineType::Deletes);
            lemma_blocks_count_le_total(file.blocks@, LineType::Inserts);
            lemma_blocks_count_le_total(file.blocks@, LineType::Deletes);
        }
        if starts_with_lit(line, add_prefix) {
            file.added_lines = file.added_lines + 1;
            l.line_type = Option::Some(LineType::Inserts);
            l.old_number = Option::None;
            l.new_number = Option::Some(nn);
            self.new_line = Option::Some(sat_inc(nn));
        } else if starts_with_lit(line, del_prefix) {
            file.deleted_lines = file.deleted_lines + 1;
            l.line_type = Option::Some(LineType::Deletes);
            l.old_number = Option::Some(on);
            self.old_line = Option::Some(sat_inc(on));
            l.new_number = Option::None;
        } else {
            l.line_type = Option::Some(LineType::Context);
            l.old_number = Option::Some(on);
            self.old_line = Option::Some(sat_inc(on));
            l.new_number = Option::Some(nn);
            self.new_line = Option::Some(sat_inc(nn));
        }
        proof {
            lemma_count_push(block.lines@, l, LineType::Inserts);
            lemma_count_push(block.lines@, l, LineType::Deletes);
            lemma_count_le_len(block.lines@, LineType::Inserts);
            lemma_count_le_len(block.lines@, LineType::Deletes);
            lemma_blocks_count_le_total(file.blocks@, LineType::Inserts);
            lemma_blocks_count_le_total(file.blocks@, LineType::Deletes);
        }
        let ghost pre = block.lines@;
        let ghost lg = l;
        block.lines.push(l);
        proof {
            let nl = pre.push(lg);
            assert(block.lines@ == nl);
            let fo: int = match self.old_line {
                Option::Some(v) => v as int,
                Option::None => 0,
            };
            let fnn: int = match self.new_line {
                Option::Some(v) => v as int,
                Option::None => 0,
            };
            assert(on as int <= fo && nn as int <= fnn);
            assert(lg.old_number matches Option::Some(a) ==> a as int == on as int);
            assert(lg.new_number matches Option::Some(a) ==> a as int == nn as int);
            assert(old(self).current_block matches Option::Some(b0) && b0.lines@ == pre);
            assert(old(self).old_line matches Option::Some(v) && v == on);
            assert(old(self).new_line matches Option::Some(v) && v == nn);
            assert(lines_bounded(pre, on as int, nn as int));
            assert(lines_monotone(pre));
            assert forall|i: int, j: int|
                0 <= i < j < nl.len() && (#[trigger] nl[i]).old_number is Some && (#[trigger] nl[j]).old_number is Some implies nl[i].old_number->0 <= nl[j].old_number->0 by {
                if j < pre.len() {
                    assert(nl[i] == pre[i] && nl[j] == pre[j]);
                } else {
                    assert(nl[j] == lg && nl[i] == pre[i]);
                }
            }
            assert forall|i: int, j: int|
                0 <= i < j < nl.len() && (#[trigger] nl[i]).new_number is Some && (#[trigger] nl[j]).new_number is Some implies nl[i].new_number->0 <= nl[j].new_number->0 by {
                if j < pre.len() {
                    assert(nl[i] == pre[i] && nl[j] == pre[j]);
                } else {
                    assert(nl[j] == lg && nl[i] == pre[i]);
                }
            }
            assert forall|i: int|
                0 <= i < nl.len() && (#[trigger] nl[i]).old_number is Some implies nl[i].old_number->0 <= fo by {
                if i < pre.len() {
                    assert(nl[i] == pre[i]);
                } else {
                    assert(nl[i] == lg);
                }
            }
            assert forall|i: int|
                0 <= i < nl.len() && (#[trigger] nl[i]).new_number is Some implies nl[i].new_number->0 <= fnn by {
                if i < pre.len() {
                    assert(nl[i] == pre[i]);
                } else {
                    assert(nl[i] == lg);
                }
            }
            assert(lines_monotone(nl));
            assert(lines_bounded(nl, fo, fnn));
        }
        self.current_block = Option::Some(block);
        self.current_file = Option::Some(file);
        proof {
            let om = old(self)@;
            let fm0 = om.current_file->0;
            let bm0 = match om.current_block {
                Option::Some(b) => b,
                Option::None => BlockModel { lines: Seq::<LineModel>::empty(), header: Option::None },
            };
            assert(block.lines.deep_view() =~~= bm0.lines.push(lg@));
            assert(block@ =~~= BlockModel { lines: bm0.lines.push(lg@), ..bm0 });
            assert(self@ =~~= step_create_line(om, line@));
        }
    }
}

/// The next counter value, held at the top of the range rather than
/// wrapping.
fn sat_inc(x: usize) -> (r: usize)
    ensures
        x < usize::MAX ==> r == x + 1,
        x == usize::MAX ==> r == x,
        x <= r,
{
    if x < usize::MAX {
        x + 1
    } else {
        x
    }
}


// ---------------------------------------------------------------------------
// Metadata lines and name headers.
// ---------------------------------------------------------------------------

impl ParseState {
    /// Sets the pending file's old name (and language) from an old-file
    /// header line.
    pub fn set_old_name(&mut self, line: &str)
        requires
            st_inv(*old(self)),
        ensures
            st_inv(*final(self)),
            st_total(*final(self)) == st_total(*old(self)),
            final(self).files == old(self).files,
            final(self).current_block == old(self).current_block,
            final(self)@ == step_set_old_name(old(self)@, line@),
    {
        let f = self.current_file.take();
        match f {
            Option::Some(mut file) => {
                file.old_name = get_src_filename(line, Option::None);
                let mut new_lang: Option<String> = Option::None;
                let mut has = false;
                match &file.old_name {
                    Option::Some(nm) => {
                        let lang: Option<&str> = match &file.language {
                            Option::Some(l) => Option::Some(l.as_str()),
                            Option::None => Option::None,
                        };
                        new_lang = get_extension(nm.as_str(), lang);
                        has = true;
                    },
                    Option::None => {},
                }
                if has {
                    file.language = new_lang;
                }
                self.current_file = Option::Some(file);
            },
            Option::None => {},
        }
        proof {
            assert(self@ =~~= step_set_old_name(old(self)@, line@));
        }
    }

    /// Sets the pending file's new name (and language) from a new-file
    /// header line.
    pub fn set_new_name(&mut self, line: &str)
        requires
            st_inv(*old(self)),
        ensures
            st_inv(*final(self)),
            st_total(*final(self)) == st_total(*old(self)),
            final(self).files == old(self).files,
            final(self).current_block == old(self).current_block,
            final(self)@ == step_set_new_name(old(self)@, line@),
    {
        let f = self.current_file.take();
        match f {
            Option::Some(mut file) => {
                file.new_name = get_dst_filename(line, Option::None);
                let mut new_lang: Option<String> = Option::None;
                let mut has = false;
                match &file.new_name {
                    Option::Some(nm) => {
                        let lang: Option<&str> = match &file.language {
                            Option::Some(l) => Option::Some(l.as_str()),
                            Option::None => Option::None,
                        };
                        new_lang = get_extension(nm.as_str(), lang);
                        has = true;
                    },
                    Option::None => {},
                }
                if has {
                    file.language = new_lang;
                }
                self.current_file = Option::Some(file);
            },
            Option::None => {},
        }
        proof {
            assert(self@ =~~= step_set_new_name(old(self)@, line@));
        }
    }

    /// Applies one metadata line to the pending file, trying the header
    /// patterns in their priority order; `hunk_ahead` tells whether an
    /// old-file / new-file / hunk-header triple follows, which decides
    /// whether rename and copy headers may override the names.
    #[verifier::rlimit(100)]
    #[verifier::spinoff_prover]
    pub fn apply_metadata(&mut self, line: &str, hunk_ahead: bool)
        requires
            st_inv(*old(self)),
        ensures
            st_inv(*final(self)),
            st_total(*final(self)) <= st_total(*old(self)),
            final(self).files == old(self).files,
            final(self)@ == step_apply_metadata(old(self)@, line@, hunk_ahead),
    {
        if let Option::Some(m) = match_prefix_digits6(line, "old mode ") {
            let f = self.current_file.take();
            if let Option::Some(mut file) = f {
                let mut v: Vec<String> = Vec::new();
                v.push(m);
                proof {
                    assert(v.deep_view() =~~= seq![m@]);
                }
                file.old_mode = Option::Some(v);
                self.current_file = Option::Some(file);
            }
            proof {
                assert(self@ =~~= step_apply_metadata(old(self)@, line@, hunk_ahead));
            }
        } else if let Option::Some(m) = match_prefix_digits6(line, "new mode ") {
            let f = self.current_file.take();
            if let Option::Some(mut file) = f {
                file.new_mode = Option::Some(m);
                self.current_file = Option::Some(file);
            }
            proof {
                assert(self@ =~~= step_apply_metadata(old(self)@, line@, hunk_ahead));
            }
        } else if let Option::Some(m) = match_prefix_digits6(line, "deleted file mode ") {
            let f = self.current_file.take();
            if let Option::Some(mut file) = f {
                file.deleted_file_mode = Option::Some(m);
                file.is_deleted = true;
                self.current_file = Option::Some(file);
            }
            proof {
                assert(self@ =~~= step_apply_metadata(old(self)@, line@, hunk_ahead));
            }
        } else if let Option::Some(m) = match_prefix_digits6(line, "new file mode ") {
            let f = self.current_file.take();
            if let Option::Some(mut file) = f {
                file.new_file_mode = Option::Some(m);
                file.is_new = true;
                self.current_file = Option::Some(file);
            }
            proof {
                assert(self@ =~~= step_apply_metadata(old(self)@, line@, hunk_ahead));
            }
        } else if let Option::Some(m) = match_name_after(line, "copy from ") {
            let f = self.current_file.take();
            if let Option::Some(mut file) = f {
                if hunk_ahead {
                    file.old_name = Option::Some(m);
                }
                file.is_copy = true;
                self.current_file = Option::Some(file);
            }
            proof {
                assert(self@ =~~= step_apply_metadata(old(self)@, line@, hunk_ahead));
            }
        } else if let Option::Some(m) = match_name_after(line, "copy to ") {
            let f = self.current_file.take();
            if let Option::Some(mut file) = f {
                if hunk_ahead {
                    file.new_name = Option::Some(m);
                }
                file.is_copy = true;
                self.current_file = Option::Some(file);
            }
            proof {
                assert(self@ =~~= step_apply_metadata(old(self)@, line@, hunk_ahead));
            }
        } else if let Option::Some(m) = match_name_after(line, "rename from ") {
            let f = self.current_file.take();
            if let Option::Some(mut file) = f {
                if hunk_ahead {
                    file.old_name = Option::Some(m);
                }
                file.is_rename = true;
                self.current_file = Option::Some(file);
            }
            proof {
                assert(self@ =~~= step_apply_metadata(old(self)@, line@, hunk_ahead));
            }
        } else if let Option::Some(m) = match_name_after(line, "rename to ") {
            let f = self.current_file.take();
            if let Option::Some(mut file) = f {
                if hunk_ahead {
                    file.new_name = Option::Some(m);
                }
                file.is_rename = true;
                self.current_file = Option::Some(file);
            }
            proof {
                assert(self@ =~~= step_apply_metadata(old(self)@, line@, hunk_ahead));
            }
        } else if let Option::Some((c1, c2)) = match_binary_files(
            line,
            "Binary files ",
            " and ",
            " differ",
        ) {
            let f = self.current_file.take();
            if let Option::Some(mut file) = f {
                file.is_binary = true;
                file.old_name = get_filename(Option::None, c1.as_str(), Option::None);
                file.new_name = get_filename(Option::None, c2.as_str(), Option::None);
                self.current_file = Option::Some(file);
            }
            proof {
                let om = old(self)@;
                let bs = binary_files_spec(line@, "Binary files "@, " and "@, " differ"@);
                let bc = bs->0;
                let st1 = match om.current_file {
                    Option::Some(fm) => upd_file(
                        om,
                        FileModel {
                            is_binary: true,
                            old_name: filename_spec(
                                Option::None,
                                bc.0,
                                Option::<Seq<char>>::None,
                            ),
                            new_name: filename_spec(
                                Option::None,
                                bc.1,
                                Option::<Seq<char>>::None,
                            ),
                            ..fm
                        },
                    ),
                    Option::None => om,
                };
                assert(self@ =~~= st1);
            }
            self.start_block("Binary file");
            proof {
                assert(self@ =~~= step_apply_metadata(old(self)@, line@, hunk_ahead));
            }
        } else if starts_with_lit(line, "GIT binary patch") {
            let f = self.current_file.take();
            if let Option::Some(mut file) = f {
                file.is_binary = true;
                self.current_file = Option::Some(file);
            }
            proof {
                let om = old(self)@;
                let st1 = match om.current_file {
                    Option::Some(fm) => upd_file(om, FileModel { is_binary: true, ..fm }),
                    Option::None => om,
                };
                assert(self@ =~~= st1);
            }
            self.start_block(line);
            proof {
                assert(self@ =~~= step_apply_metadata(old(self)@, line@, hunk_ahead));
            }
        } else if let Option::Some(v) = match_percent_after(line, "similarity index ") {
            let f = self.current_file.take();
            if let Option::Some(mut file) = f {
                file.unchanged_percentage = Option::Some(v);
                self.current_file = Option::Some(file);
            }
            proof {
                assert(self@ =~~= step_apply_metadata(old(self)@, line@, hunk_ahead));
            }
        } else if let Option::Some(v) = match_percent_after(line, "dissimilarity index ") {
            let f = self.current_file.take();
            if let Option::Some(mut file) = f {
                file.changed_percentage = Option::Some(v);
                self.current_file = Option::Some(file);
            }
            proof {
                assert(self@ =~~= step_apply_metadata(old(self)@, line@, hunk_ahead));
            }
        } else if let Option::Some((h1, h2, om)) = match_index(line, "index ") {
            let f = self.current_file.take();
            if let Option::Some(mut file) = f {
                let ghost h1m = h1@;
                let mut v: Vec<String> = Vec::new();
                v.push(h1);
                proof {
                    assert(v.deep_view() =~~= seq![h1m]);
                }
                file.checksum_before = Option::Some(v);
                file.checksum_after = Option::Some(h2);
                if let Option::Some(m) = om {
                    file.mode = Option::Some(m);
                }
                self.current_file = Option::Some(file);
            }
            proof {
                assert(self@ =~~= step_apply_metadata(old(self)@, line@, hunk_ahead));
            }
        } else if let Option::Some((h1, h2, h3)) = match_combined_index(line, "index ") {
            let f = self.current_file.take();
            if let Option::Some(mut file) = f {
                let ghost h1m = h1@;
                let ghost h2m = h2@;
                let mut v: Vec<String> = Vec::new();
                v.push(h1);
                v.push(h2);
                proof {
                    assert(v.deep_view() =~~= seq![h1m, h2m]);
                }
                file.checksum_before = Option::Some(v);
                file.checksum_after = Option::Some(h3);
                self.current_file = Option::Some(file);
            }
            proof {
                assert(self@ =~~= step_apply_metadata(old(self)@, line@, hunk_ahead));
            }
        } else if let Option::Some((m1, m2, m3)) = match_combined_mode(line, "mode ") {
            let f = self.current_file.take();
            if let Option::Some(mut file) = f {
                let ghost m1m = m1@;
                let ghost m2m = m2@;
                let mut v: Vec<String> = Vec::new();
                v.push(m1);
                v.push(m2);
                proof {
                    assert(v.deep_view() =~~= seq![m1m, m2m]);
                }
                file.old_mode = Option::Some(v);
                file.new_mode = Option::Some(m3);
                self.current_file = Option::Some(file);
            }

            proof {
                assert(self@ =~~= step_apply_metadata(old(self)@, line@, hunk_ahead));
            }
        } else {
            proof {
                assert(self@ =~~= step_apply_metadata(old(self)@, line@, hunk_ahead));
            }
        }
    }
}

// ---------------------------------------------------------------------------
// Input normalization and the parse driver.
// ---------------------------------------------------------------------------

/// `s` with every occurrence of `m` removed.
pub open spec fn remove_marker(s: Seq<char>, m: Seq<char>) -> Seq<char>
    decreases s.len(),
{
    if s.len() == 0 {
        s
    } else if m.len() > 0 && has_prefix(s, m) {
        remove_marker(s.skip(m.len() as int), m)
    } else {
        seq![s[0]].add(remove_marker(s.drop_first(), m))
    }
}

/// `s` with `\r\n` pairs and lone `\r` replaced by `\n`.
pub open spec fn fix_newlines(s: Seq<char>) -> Seq<char>
    decreases s.len(),
{
    if s.len() == 0 {
        s
    } else if s[0] == '\r' {
        if s.len() >= 2 && s[1] == '\n' {
            seq!['\n'].add(fix_newlines(s.skip(2)))
        } else {
            seq!['\n'].add(fix_newlines(s.drop_first()))
        }
    } else {
        seq![s[0]].add(fix_newlines(s.drop_first()))
    }
}

/// Removes every occurrence of `pat` from `s`.
fn remove_all(s: &str, pat: &str) -> (r: String)
    requires
        pat@.len() > 0,
    ensures
        r@ == remove_marker(s@, pat@),
{
    let n = s.unicode_len();
    let pl = pat.unicode_len();
    let mut r = String::new();
    proof {
        assert(s@.skip(0) =~= s@);
        assert(r@.add(remove_marker(s@, pat@)) =~= remove_marker(s@, pat@));
    }
    let mut i: usize = 0;
    while i < n
        invariant
            n == s@.len() && pl == pat@.len() && pl > 0,
            0 <= i <= n,
            remove_marker(s@, pat@) == r@.add(remove_marker(s@.skip(i as int), pat@)),
        decreases n - i,
    {
        let ghost suf = s@.skip(i as int);
        if pl <= n - i && occurs_check(s, pat, i) {
            proof {
                assert(suf.subrange(0, pl as int) =~= s@.subrange(i as int, i + pl));
                assert(has_prefix(suf, pat@));
                assert(suf.skip(pl as int) =~= s@.skip(i + pl));
            }
            i = i + pl;
        } else {
            proof {
                if i + pl <= n {
                    assert(suf.subrange(0, pl as int) =~= s@.subrange(i as int, i + pl));
                }
                assert(!has_prefix(suf, pat@));
                assert(suf[0] == s@[i as int]);
                assert(suf.drop_first() =~= s@.skip(i + 1));
            }
            let piece = s.substring_char(i, i + 1);
            r.append(piece);
            i += 1;
        }
    }
    proof {
        assert(s@.skip(n as int) =~= Seq::<char>::empty());
        assert(remove_marker(Seq::<char>::empty(), pat@) =~= Seq::<char>::empty());
    }
    r
}

/// Rewrites Windows and bare carriage returns to newlines.
fn normalize_newlines(s: &str) -> (r: String)
    ensures
        r@ == fix_newlines(s@),
{
    let n = s.unicode_len();
    let mut r = String::new();
    proof {
        assert(s@.skip(0) =~= s@);
        assert(r@.add(fix_newlines(s@)) =~= fix_newlines(s@));
    }
    let mut i: usize = 0;
    while i < n
        invariant
            n == s@.len(),
            0 <= i <= n,
            fix_newlines(s@) == r@.add(fix_newlines(s@.skip(i as int))),
        decreases n - i,
    {
        let ghost suf = s@.skip(i as int);
        let c = s.get_char(i);
        proof {
            assert(suf[0] == s@[i as int]);
        }
        if c == '\r' {
            r.append("\n");
            proof {
                reveal_strlit("\n");
                assert("\n"@ =~= seq!['\n']);
            }
            if i + 1 < n && s.get_char(i + 1) == '\n' {
                proof {
                    assert(suf.len() >= 2 && suf[1] == '\n');
                    assert(suf.skip(2) =~= s@.skip(i + 2));
                }
                i += 2;
            } else {
                proof {
                    if i + 1 < n {
                        assert(suf[1] == s@[i + 1]);
                    }
                    assert(suf.drop_first() =~= s@.skip(i + 1));
                }
                i += 1;
            }
        } else {
            let piece = s.substring_char(i, i + 1);
            r.append(piece);
            proof {
                assert(suf.drop_first() =~= s@.skip(i + 1));
            }
            i += 1;
        }
    }
    proof {
        assert(s@.skip(n as int) =~= Seq::<char>::empty());
    }
    r
}

/// The diff parser.
#[derive(Debug)]
pub struct DiffParser {}

impl DiffParser {
    /// A fresh parser.
    pub fn new() -> (r: DiffParser) {
        DiffParser {  }
    }

    /// Parses a whole diff text into its files: the result is exactly what
    /// `parse_spec` gives for the input text. Every file of the result is
    /// also well formed: it has a resolved new name, its added and deleted
    /// counts agree with its lines, and its blocks' line numbers are
    /// monotone.
    #[verifier::rlimit(100)]
    pub fn parse_diff(&mut self, diff: &str) -> (r: Vec<File>)
        ensures
            r.deep_view() == parse_spec(diff@),
            forall|k: int| 0 <= k < r@.len() ==> file_wf(#[trigger] r@[k]),
            diff@.len() == 0 ==> r@.len() == 0,
    {
        proof {
            reveal_strlit("\\ No newline at end of file");
        }
        let cleaned = remove_all(diff, "\\ No newline at end of file");
        let cleaned = normalize_newlines(cleaned.as_str());
        let diff_lines = crate::tokenize::split_on_exec(cleaned.as_str(), '\n');
        let ghost ldv = diff_lines.deep_view();
        proof {
            if diff@.len() == 0 {
                assert(cleaned@ =~= Seq::<char>::empty());
                assert(diff_lines.deep_view() =~~= seq![Seq::<char>::empty()]);
            }
        }
        let n = diff_lines.len();
        let mut st = ParseState::new();
        let mut i: usize = 0;
        while i < n
            invariant
                n == diff_lines.len(),
                ldv == diff_lines.deep_view(),
                0 <= i <= n,
                st_inv(st),
                st_total(st) <= i,
                st@ == walk_lines(ldv, i as int),
                diff@.len() == 0 ==> st.files@.len() == 0 && st.current_file is None
                    && diff_lines.deep_view() == seq![Seq::<char>::empty()],
            decreases n - i,
        {
            let ghost prev = st@;
            proof {
                assert(walk_lines(ldv, i + 1) == step_line(prev, ldv, i as int));
            }
            let line = diff_lines[i].as_str();
            proof {
                assert(line@ == diff_lines.deep_view()[i as int]);
            }
            if line.is_empty() || starts_with_lit(line, "*") {
                proof {
                    assert(st@ == step_line(prev, ldv, i as int));
                }
                i += 1;
                continue;
            }
            proof {
                assert(diff@.len() > 0);
            }
            // A git diff header always starts a new file.
            if starts_with_lit(line, "diff") {
                st.start_file();
                let ghost st1v = st@;
                if starts_with_lit(line, "diff --git ") {
                    let ln = line.unicode_len();
                    proof {
                        reveal_strlit("diff --git ");
                        reveal_strlit(" ");
                        assert(line@.len() >= 11);
                    }
                    let ghost win = line@.subrange(11, ln as int);
                    let sp = find_last_in(line, " ", 11, ln);
                    proof {
                        assert(win =~= line@.skip(11));
                        assert(" "@ =~= seq![' ']);
                        lemma_last_index_of(win, ' ');
                        assert(forall|k: int|
                            0 <= k < win.len() && win[k] == ' '
                                ==> occurs_at(win, " "@, k)) by {
                            assert forall|k: int|
                                0 <= k < win.len() && win[k] == ' ' implies occurs_at(
                                win,
                                " "@,
                                k,
                            ) by {
                                assert(win.subrange(k, k + 1) =~= " "@);
                            }
                        }
                        assert(forall|k: int|
                            occurs_at(win, " "@, k) ==> 0 <= k < win.len() && win[k] == ' ')
                            by {
                            assert forall|k: int| occurs_at(win, " "@, k) implies 0 <= k
                                < win.len() && win[k] == ' ' by {
                                assert(win.subrange(k, k + 1)[0] == win[k]);
                            }
                        }
                    }
                    if let Option::Some(rel) = sp {
                        proof {
                            assert(occurs_at(line@.subrange(11, ln as int), " "@, rel as int));
                            assert(rel + 1 <= ln - 11);
                            assert(last_index_of(win, ' ') == Option::Some(rel as int)) by {
                                match last_index_of(win, ' ') {
                                    Option::Some(li) => {
                                        if li < rel as int {
                                            assert(win[rel as int] == ' ');
                                        }
                                        if li > rel as int {
                                            assert(occurs_at(win, " "@, li));
                                        }
                                    },
                                    Option::None => {
                                        assert(win[rel as int] == ' ');
                                    },
                                }
                            }
                        }
                        let mid = 11 + rel;
                        if mid > 11 && mid + 1 < ln {
                            let c1 = line.substring_char(11, mid);
                            let c2 = line.substring_char(mid + 1, ln);
                            st.possible_old_name = get_filename(Option::None, c1, Option::None);
                            st.possible_new_name = get_filename(Option::None, c2, Option::None);
                            proof {
                                assert(c1@ == line@.subrange(11, mid as int));
                                assert(c2@ == line@.subrange(mid + 1, ln as int));
                                assert(st@ =~~= StateModel {
                                    possible_old_name: filename_spec(
                                        Option::None,
                                        line@.subrange(11, mid as int),
                                        Option::<Seq<char>>::None,
                                    ),
                                    possible_new_name: filename_spec(
                                        Option::None,
                                        line@.subrange(mid + 1, line@.len() as int),
                                        Option::<Seq<char>>::None,
                                    ),
                                    ..st1v
                                });
                            }
                        }
                    } else {
                        proof {
                            assert(last_index_of(win, ' ') is None) by {
                                match last_index_of(win, ' ') {
                                    Option::Some(li) => {
                                        assert(occurs_at(win, " "@, li));
                                    },
                                    Option::None => {},
                                }
                            }
                        }
                    }
                }
                st.set_git_diff();
                proof {
                    assert(st@ == step_git_header(prev, line@));
                    assert(st@ == step_line(prev, ldv, i as int));
                }
                i += 1;
                continue;
            }
            let has_file = st.current_file.is_some();
            let is_git = match &st.current_file {
                Option::Some(f) => f.is_git_diff,
                Option::None => false,
            };
            proof {
                if i + 1 < n {
                    assert(ldv[i + 1] == diff_lines@[i + 1]@);
                }
                if i + 2 < n {
                    assert(ldv[i + 2] == diff_lines@[i + 2]@);
                }
                if i > 0 {
                    assert(ldv[i - 1] == diff_lines@[i - 1]@);
                }
            }
            // A concatenated unified diff starts a new file at an
            // old-file / new-file / hunk-header triple.
            if !has_file || (!is_git && starts_with_lit(line, "--- ") && n - i > 2
                && starts_with_lit(diff_lines[i + 1].as_str(), "+++ ") && starts_with_lit(
                diff_lines[i + 2].as_str(),
                "@@",
            )) {
                st.start_file();
            }
            let ghost st1v = st@;
            proof {
                assert(st1v == (if prev.current_file is None || (!(
                prev.current_file->0.is_git_diff) && has_prefix(line@, "--- "@) && n as int
                    - i > 2 && has_prefix(ldv[i + 1], "+++ "@) && has_prefix(
                    ldv[i + 2],
                    "@@"@,
                )) {
                    step_start_file(prev)
                } else {
                    prev
                }));
            }
            // Old-file / new-file header pairs set the names.
            let prev_old = i > 0 && starts_with_lit(diff_lines[i - 1].as_str(), "--- ");
            let next_new = n - i > 1 && starts_with_lit(diff_lines[i + 1].as_str(), "+++ ");
            if (starts_with_lit(line, "--- ") && next_new) || (starts_with_lit(line, "+++ ")
                && prev_old) {
                let file_present = st.current_file.is_some();
                let old_unset = match &st.current_file {
                    Option::Some(f) => f.old_name.is_none(),
                    Option::None => false,
                };
                let new_unset = match &st.current_file {
                    Option::Some(f) => f.new_name.is_none(),
                    Option::None => false,
                };
                if file_present && old_unset && starts_with_lit(line, "--- ") {
                    st.set_old_name(line);
                    proof {
                        assert(st@ == step_line(prev, ldv, i as int));
                    }
                    i += 1;
                    continue;
                }
                if file_present && new_unset && starts_with_lit(line, "+++ ") {
                    st.set_new_name(line);
                    proof {
                        assert(st@ == step_line(prev, ldv, i as int));
                    }
                    i += 1;
                    continue;
                }
            }
            // A hunk header — or the implicit first hunk of a fully
            // resolved git header — starts a block.
            let has_file2 = st.current_file.is_some();
            let implicit = match &st.current_file {
                Option::Some(f) => f.is_git_diff && f.old_name.is_some() && f.new_name.is_some(),
                Option::None => false,
            };
            if (has_file2 && starts_with_lit(line, "@@")) || (implicit
                && st.current_block.is_none()) {
                st.start_block(line);
                proof {
                    assert(st@ == step_line(prev, ldv, i as int));
                }
                i += 1;
                continue;
            }
            // Content lines join the open block.
            if st.current_block.is_some() && (starts_with_lit(line, "+") || starts_with_lit(
                line,
                "-",
            ) || starts_with_lit(line, " ")) {
                st.create_line(line);
                proof {
                    assert(st@ == step_line(prev, ldv, i as int));
                }
                i += 1;
                continue;
            }
            // Everything else is matched against the metadata patterns.
            let ahead = exist_hunk_header(line, &diff_lines, i);
            st.apply_metadata(line, ahead);
            proof {
                assert(st@ == step_line(prev, ldv, i as int));
            }
            i += 1;
        }
        st.save_block();
        st.save_file();
        proof {
            let cl = fix_newlines(remove_marker(diff@, "\\ No newline at end of file"@));
            assert(ldv == crate::tokenize::split_on(cl, '\n'));
            assert(st@.files == parse_spec(diff@));
        }
        let ParseState { files, .. } = st;
        files
    }
}

} // verus!
