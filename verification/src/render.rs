//! Presentation-side helpers around the parsed model: display names, line
//! classification, prefix separation, and the inline highlighter that marks
//! the changed sub-spans of a paired line.

use vstd::prelude::*;
use vstd::string::{StrSliceExecFns, StringExecFns};
use crate::SplitType;
use crate::difference::{Changeset, Difference, SegView};
use crate::parser::{contains_seq, File, Line, LineType};
use crate::rematch::{MatchGroup, Rematcher};
use crate::tokenize::{join_tokens, MAX_TEXT_LEN};

verus! {

/// The configuration the core consumes: the line-matching mode, the word
/// match threshold in thousandths, the ceiling on pairwise comparisons, the
/// longest line still highlighted inline, and whether the diff is combined
/// (two-character prefixes).
#[derive(Clone, Debug)]
pub struct Diff2HtmlConfig {
    pub matching: String,
    pub match_words_threshold_millis: u32,
    pub matching_max_comparisons: usize,
    pub max_line_length_highlight: usize,
    pub is_combined: bool,
}

impl Default for Diff2HtmlConfig {
    /// The default configuration: no line matching, threshold 0.25, at most
    /// 2500 comparisons, lines up to 10000 characters highlighted, plain
    /// diffs.
    fn default() -> (r: Diff2HtmlConfig)
        ensures
            r.matching@ == "none"@,
            r.match_words_threshold_millis == 250,
            r.matching_max_comparisons == 2500,
            r.max_line_length_highlight == 10000,
            !r.is_combined,
    {
        Diff2HtmlConfig {
            matching: "none".to_owned(),
            match_words_threshold_millis: 250,
            matching_max_comparisons: 2500,
            max_line_length_highlight: 10000,
            is_combined: false,
        }
    }
}

/// A hunk line split into its control prefix and its content.
pub struct SeparatedLine<'a> {
    pub prefix: &'a str,
    pub line: &'a str,
}

/// Splits a hunk line into its one- or two-character control prefix and the
/// rest; an empty line yields two empty parts.
pub fn separate_prefix<'a>(is_combined: bool, line: &'a str) -> (r: SeparatedLine<'a>)
    ensures
        line@.len() == 0 ==> r.prefix@.len() == 0 && r.line@.len() == 0,
        line@.len() > 0 ==> {
            let w: int = if is_combined {
                2
            } else {
                1
            };
            let k: int = if w <= line@.len() {
                w
            } else {
                line@.len() as int
            };
            r.prefix@ == line@.take(k) && r.line@ == line@.skip(k)
        },
{
    let n = line.unicode_len();
    if n == 0 {
        SeparatedLine { prefix: line.substring_char(0, 0), line: line.substring_char(0, 0) }
    } else {
        let w: usize = if is_combined {
            2
        } else {
            1
        };
        let k = if w <= n {
            w
        } else {
            n
        };
        SeparatedLine { prefix: line.substring_char(0, k), line: line.substring_char(k, n) }
    }
}

/// The kind of change a file record represents, as the summary and header
/// presentation classify it.
#[derive(Clone, Copy, PartialEq, Eq, Structural, Debug)]
pub enum FileChangeKind {
    Changed,
    Renamed,
    Added,
    Deleted,
}

/// How a file is classified: renames and copies first, then additions and
/// deletions, and differing names count as a rename.
pub open spec fn file_change_kind(f: File) -> FileChangeKind {
    if f.is_rename {
        FileChangeKind::Renamed
    } else if f.is_copy {
        FileChangeKind::Renamed
    } else if f.is_new {
        FileChangeKind::Added
    } else if f.is_deleted {
        FileChangeKind::Deleted
    } else if !opt_string_eq(f.new_name, f.old_name) {
        FileChangeKind::Renamed
    } else {
        FileChangeKind::Changed
    }
}

/// Whether two optional strings hold the same text.
pub open spec fn opt_string_eq(a: Option<String>, b: Option<String>) -> bool {
    match (a, b) {
        (Option::Some(x), Option::Some(y)) => x@ == y@,
        (Option::None, Option::None) => true,
        _ => false,
    }
}

fn opt_name_eq(a: &Option<String>, b: &Option<String>) -> (r: bool)
    ensures
        r == opt_string_eq(*a, *b),
{
    match (a, b) {
        (Option::Some(x), Option::Some(y)) => x.eq(y),
        (Option::None, Option::None) => true,
        _ => false,
    }
}

/// The icon a file entry shows, by its change kind.
pub fn get_file_type_icon(file: &File) -> (r: FileChangeKind)
    ensures
        r == file_change_kind(*file),
{
    if file.is_rename {
        FileChangeKind::Renamed
    } else if file.is_copy {
        FileChangeKind::Renamed
    } else if file.is_new {
        FileChangeKind::Added
    } else if file.is_deleted {
        FileChangeKind::Deleted
    } else if !opt_name_eq(&file.new_name, &file.old_name) {
        FileChangeKind::Renamed
    } else {
        FileChangeKind::Changed
    }
}

/// The tag a file header shows, by its change kind.
pub fn get_line_type_tag(file: &File) -> (r: FileChangeKind)
    ensures
        r == file_change_kind(*file),
{
    get_file_type_icon(file)
}

/// The style class of one line type.
pub fn get_line_type_class(line_type: &LineType) -> (r: &'static str)
    ensures
        match *line_type {
            LineType::Inserts => r@ == "d2h-ins"@,
            LineType::Deletes => r@ == "d2h-del"@,
            LineType::InsertChanges => r@ == "d2h-ins d2h-change"@,
            LineType::DeleteChanges => r@ == "d2h-del d2h-change"@,
            LineType::Context => r@ == "d2h-cntx"@,
        },
{
    match line_type {
        LineType::Inserts => "d2h-ins",
        LineType::Deletes => "d2h-del",
        LineType::InsertChanges => "d2h-ins d2h-change",
        LineType::DeleteChanges => "d2h-del d2h-change",
        LineType::Context => "d2h-cntx",
    }
}

/// The two rendered columns of a side-by-side view.
#[derive(Debug)]
pub struct SideBySideFile {
    pub left: String,
    pub right: String,
}

impl SideBySideFile {
    /// Two empty columns.
    pub fn new() -> (r: SideBySideFile)
        ensures
            r.left@.len() == 0,
            r.right@.len() == 0,
    {
        SideBySideFile { left: String::new(), right: String::new() }
    }
}


// ---------------------------------------------------------------------------
// Display names.
// ---------------------------------------------------------------------------

/// Backslashes unified to forward slashes.
pub open spec fn unify_path_spec(s: Seq<char>) -> Seq<char> {
    s.map_values(|c: char| if c == '\\' { '/' } else { c })
}

/// Whether a path names the null device.
pub open spec fn is_dev_null_spec(s: Seq<char>) -> bool {
    contains_seq(s, seq!['d', 'e', 'v', '/', 'n', 'u', 'l', 'l'])
}

/// The length of the common component prefix, stopping short of the last
/// component of either side.
pub open spec fn cpref(co: Seq<Seq<char>>, cn: Seq<Seq<char>>, q: int) -> int
    decreases co.len() - q,
{
    if 0 <= q && q < co.len() - 1 && q < cn.len() - 1 && co[q] == cn[q] {
        cpref(co, cn, q + 1)
    } else {
        q
    }
}

/// Where the common component suffix scan stops, walking both component
/// lists from the end while they agree and stay beyond the common prefix.
pub open spec fn suf_stop(co: Seq<Seq<char>>, cn: Seq<Seq<char>>, i: int, j: int, k: int) -> (
    int,
    int,
)
    decreases j + 1,
{
    if j > i && k > i && 0 <= j < co.len() && 0 <= k < cn.len() && co[j] == cn[k] {
        suf_stop(co, cn, i, j - 1, k - 1)
    } else {
        (j, k)
    }
}

/// The display name of a pair of unified paths.
pub open spec fn diff_name_of(o: Option<Seq<char>>, n: Option<Seq<char>>) -> Seq<char> {
    let slash = seq!['/'];
    let arrow = seq![' ', '\u{2192}', ' '];
    match (o, n) {
        (Option::Some(of), Option::Some(nf)) => {
            if of != nf && !is_dev_null_spec(of) && !is_dev_null_spec(nf) {
                let co = crate::tokenize::split_on(of, '/');
                let cn = crate::tokenize::split_on(nf, '/');
                let i = cpref(co, cn, 0);
                let jk = suf_stop(co, cn, i, co.len() - 1, cn.len() - 1);
                let fp = join_tokens(co.subrange(0, i), slash);
                let fs = join_tokens(cn.subrange(jk.1 + 1, cn.len() as int), slash);
                let orem = join_tokens(co.subrange(i, jk.0 + 1), slash);
                let nrem = join_tokens(cn.subrange(i, jk.1 + 1), slash);
                let braced = seq!['{'].add(orem).add(arrow).add(nrem).add(seq!['}']);
                if fp.len() != 0 && fs.len() != 0 {
                    fp.add(slash).add(braced).add(slash).add(fs)
                } else if fp.len() != 0 {
                    fp.add(slash).add(braced)
                } else if fs.len() != 0 {
                    braced.add(slash).add(fs)
                } else {
                    of.add(arrow).add(nf)
                }
            } else if !is_dev_null_spec(nf) {
                nf
            } else {
                of
            }
        },
        (Option::Some(of), Option::None) => of,
        (Option::None, Option::Some(nf)) => {
            if !is_dev_null_spec(nf) {
                nf
            } else {
                seq!['u', 'k', 'n', 'o', 'w', 'n', '/', 'f', 'i', 'l', 'e', '/', 'p', 'a', 't', 'h']
            }
        },
        (Option::None, Option::None) => seq![
            'u', 'k', 'n', 'o', 'w', 'n', '/', 'f', 'i', 'l', 'e', '/', 'p', 'a', 't', 'h',
        ],
    }
}

/// The display name of a file record: its unified old and new paths merged,
/// common path components factored out around a `{old → new}` core.
pub open spec fn diff_name_spec(f: File) -> Seq<char> {
    let o = match f.old_name {
        Option::Some(s) => Option::Some(unify_path_spec(s@)),
        Option::None => Option::<Seq<char>>::None,
    };
    let n = match f.new_name {
        Option::Some(s) => Option::Some(unify_path_spec(s@)),
        Option::None => Option::<Seq<char>>::None,
    };
    diff_name_of(o, n)
}

/// Replaces backslashes with forward slashes.
pub(crate) fn unify_path_str(path: &str) -> (r: String)
    ensures
        r@ == unify_path_spec(path@),
{
    let n = path.unicode_len();
    let mut r = String::new();
    let mut i: usize = 0;
    while i < n
        invariant
            n == path@.len(),
            0 <= i <= n,
            r@ == unify_path_spec(path@).take(i as int),
        decreases n - i,
    {
        let c = path.get_char(i);
        if c == '\\' {
            r.append("/");
            proof {
                reveal_strlit("/");
                assert("/"@ =~= seq!['/']);
                assert(r@ =~= unify_path_spec(path@).take(i + 1));
            }
        } else {
            let piece = path.substring_char(i, i + 1);
            r.append(piece);
            proof {
                assert(r@ =~= unify_path_spec(path@).take(i + 1));
            }
        }
        i += 1;
    }
    proof {
        assert(unify_path_spec(path@).take(n as int) =~= unify_path_spec(path@));
    }
    r
}

/// Whether the name points at the null device.
pub(crate) fn is_dev_null_name(name: &str) -> (r: bool)
    ensures
        r == is_dev_null_spec(name@),
{
    proof {
        reveal_strlit("dev/null");
        assert("dev/null"@ =~= seq!['d', 'e', 'v', '/', 'n', 'u', 'l', 'l']);
    }
    crate::parser::find_first(name, "dev/null").is_some()
}

fn subvec(v: &Vec<String>, lo: usize, hi: usize) -> (r: Vec<String>)
    requires
        lo <= hi <= v.len(),
    ensures
        r.deep_view() == v.deep_view().subrange(lo as int, hi as int),
{
    let mut r: Vec<String> = Vec::new();
    let mut i = lo;
    while i < hi
        invariant
            lo <= i <= hi <= v.len(),
            r.deep_view() == v.deep_view().subrange(lo as int, i as int),
        decreases hi - i,
    {
        let ghost before = r.deep_view();
        r.push(v[i].clone());
        proof {
            assert(r.deep_view() =~~= before.push(v.deep_view()[i as int]));
            assert(r.deep_view() =~~= v.deep_view().subrange(lo as int, i + 1));
        }
        i += 1;
    }
    r
}

/// The display name of a file: the merged form of its two paths.
#[verifier::rlimit(60)]
pub fn get_diff_name(file: &File) -> (r: String)
    ensures
        r@ == diff_name_spec(*file),
{
    let old_filename: Option<String> = match &file.old_name {
        Option::Some(s) => Option::Some(unify_path_str(s.as_str())),
        Option::None => Option::None,
    };
    let new_filename: Option<String> = match &file.new_name {
        Option::Some(s) => Option::Some(unify_path_str(s.as_str())),
        Option::None => Option::None,
    };
    proof {
        reveal_strlit("/");
        reveal_strlit("{");
        reveal_strlit("}");
        reveal_strlit(" \u{2192} ");
        reveal_strlit("uknown/file/path");
        assert("/"@ =~= seq!['/']);
        assert("{"@ =~= seq!['{']);
        assert("}"@ =~= seq!['}']);
        assert(" \u{2192} "@ =~= seq![' ', '\u{2192}', ' ']);
        assert("uknown/file/path"@ =~= seq![
            'u', 'k', 'n', 'o', 'w', 'n', '/', 'f', 'i', 'l', 'e', '/', 'p', 'a', 't', 'h',
        ]);
    }
    match (old_filename, new_filename) {
        (Option::Some(of), Option::Some(nf)) => {
            let names_differ = !of.eq(&nf);
            let old_real = !is_dev_null_name(of.as_str());
            let new_real = !is_dev_null_name(nf.as_str());
            if names_differ && old_real && new_real {
                let co = crate::tokenize::split_on_exec(of.as_str(), '/');
                let cn = crate::tokenize::split_on_exec(nf.as_str(), '/');
                let ghost cog = co.deep_view();
                let ghost cng = cn.deep_view();
                proof {
                    crate::tokenize::lemma_split_on_len(of@, '/');
                    crate::tokenize::lemma_split_on_len(nf@, '/');
                }
                let j0 = co.len() - 1;
                let k0 = cn.len() - 1;
                let mut i: usize = 0;
                while i < j0 && i < k0 && crate::difference::string_eq(&co[i], &cn[i])
                    invariant
                        cog == co.deep_view() && cng == cn.deep_view(),
                        j0 == co.len() - 1 && k0 == cn.len() - 1,
                        co.len() >= 1 && cn.len() >= 1,
                        0 <= i <= j0 || 0 <= i <= k0,
                        0 <= i && i <= co.len() - 1 && i <= cn.len() - 1,
                        cpref(cog, cng, 0) == cpref(cog, cng, i as int),
                    decreases j0 - i,
                {
                    i += 1;
                }
                proof {
                    assert(cpref(cog, cng, i as int) == i as int);
                }
                let mut j = j0;
                let mut k = k0;
                while j > i && k > i && crate::difference::string_eq(&co[j], &cn[k])
                    invariant
                        cog == co.deep_view() && cng == cn.deep_view(),
                        0 <= i <= j < co.len(),
                        0 <= i <= k < cn.len(),
                        suf_stop(cog, cng, i as int, j0 as int, k0 as int) == suf_stop(
                            cog,
                            cng,
                            i as int,
                            j as int,
                            k as int,
                        ),
                    decreases j,
                {
                    j -= 1;
                    k -= 1;
                }
                proof {
                    assert(suf_stop(cog, cng, i as int, j as int, k as int) == (j as int, k as int));
                }
                let prefix_parts = subvec(&co, 0, i);
                let suffix_parts = subvec(&cn, k + 1, cn.len());
                let orem_parts = subvec(&co, i, j + 1);
                let nrem_parts = subvec(&cn, i, k + 1);
                let fp = crate::tokenize::join_with(&prefix_parts, "/");
                let fs = crate::tokenize::join_with(&suffix_parts, "/");
                let orem = crate::tokenize::join_with(&orem_parts, "/");
                let nrem = crate::tokenize::join_with(&nrem_parts, "/");
                let mut braced = String::new();
                braced.append("{");
                braced.append(orem.as_str());
                braced.append(" \u{2192} ");
                braced.append(nrem.as_str());
                braced.append("}");
                if !fp.as_str().is_empty() && !fs.as_str().is_empty() {
                    let mut out = fp;
                    out.append("/");
                    out.append(braced.as_str());
                    out.append("/");
                    out.append(fs.as_str());
                    out
                } else if !fp.as_str().is_empty() {
                    let mut out = fp;
                    out.append("/");
                    out.append(braced.as_str());
                    out
                } else if !fs.as_str().is_empty() {
                    let mut out = braced;
                    out.append("/");
                    out.append(fs.as_str());
                    out
                } else {
                    let mut out = of;
                    out.append(" \u{2192} ");
                    out.append(nf.as_str());
                    out
                }
            } else if new_real {
                nf
            } else {
                of
            }
        },
        (Option::Some(of), Option::None) => of,
        (Option::None, Option::Some(nf)) => {
            if !is_dev_null_name(nf.as_str()) {
                nf
            } else {
                "uknown/file/path".to_owned()
            }
        },
        (Option::None, Option::None) => "uknown/file/path".to_owned(),
    }
}


// ---------------------------------------------------------------------------
// File anchors.
// ---------------------------------------------------------------------------

/// The checksum that anchors a file section in the page; the algorithm is
/// portable, so the value depends on the name alone.
pub uninterp spec fn seahash_of(s: Seq<char>) -> u64;

/// Relies on seahash::hash: a portable, stable checksum of the UTF-8 bytes,
/// a function of its input alone.
#[verifier::external_body]
fn seahash_str(s: &str) -> (r: u64)
    ensures
        r == seahash_of(s@),
{
    seahash::hash(s.as_bytes())
}

/// The character of one decimal digit.
pub open spec fn digit_char(d: int) -> char {
    if d == 0 {
        '0'
    } else if d == 1 {
        '1'
    } else if d == 2 {
        '2'
    } else if d == 3 {
        '3'
    } else if d == 4 {
        '4'
    } else if d == 5 {
        '5'
    } else if d == 6 {
        '6'
    } else if d == 7 {
        '7'
    } else if d == 8 {
        '8'
    } else {
        '9'
    }
}

/// The decimal rendering of a nonnegative number.
pub open spec fn dec_str(n: int) -> Seq<char>
    decreases n,
{
    if n < 10 {
        seq![digit_char(n)]
    } else {
        dec_str(n / 10).push(digit_char(n % 10))
    }
}

fn digit_lit(d: u64) -> (r: &'static str)
    requires
        d < 10,
    ensures
        r@ == seq![digit_char(d as int)],
{
    proof {
        reveal_strlit("0");
        reveal_strlit("1");
        reveal_strlit("2");
        reveal_strlit("3");
        reveal_strlit("4");
        reveal_strlit("5");
        reveal_strlit("6");
        reveal_strlit("7");
        reveal_strlit("8");
        reveal_strlit("9");
        assert("0"@ =~= seq!['0']);
        assert("1"@ =~= seq!['1']);
        assert("2"@ =~= seq!['2']);
        assert("3"@ =~= seq!['3']);
        assert("4"@ =~= seq!['4']);
        assert("5"@ =~= seq!['5']);
        assert("6"@ =~= seq!['6']);
        assert("7"@ =~= seq!['7']);
        assert("8"@ =~= seq!['8']);
        assert("9"@ =~= seq!['9']);
    }
    if d == 0 {
        "0"
    } else if d == 1 {
        "1"
    } else if d == 2 {
        "2"
    } else if d == 3 {
        "3"
    } else if d == 4 {
        "4"
    } else if d == 5 {
        "5"
    } else if d == 6 {
        "6"
    } else if d == 7 {
        "7"
    } else if d == 8 {
        "8"
    } else {
        "9"
    }
}

fn u64_to_dec(x: u64) -> (r: String)
    ensures
        r@ == dec_str(x as int),
    decreases x,
{
    if x < 10 {
        digit_lit(x).to_owned()
    } else {
        let mut s = u64_to_dec(x / 10);
        let d = digit_lit(x % 10);
        s.append(d);
        proof {
            assert(s@ =~= dec_str(x as int));
        }
        s
    }
}

/// The page anchor of a file section: `d2h-` followed by the decimal
/// checksum of the file's display name.
pub fn get_html_id(file: &File) -> (r: String)
    ensures
        r@ == seq!['d', '2', 'h', '-'].add(dec_str(seahash_of(diff_name_spec(*file)) as int)),
{
    let name = get_diff_name(file);
    let h = seahash_str(name.as_str());
    let mut r = "d2h-".to_owned();
    proof {
        reveal_strlit("d2h-");
        assert("d2h-"@ =~= seq!['d', '2', 'h', '-']);
    }
    let digits = u64_to_dec(h);
    r.append(digits.as_str());
    r
}

// ---------------------------------------------------------------------------
// Escaping.
// ---------------------------------------------------------------------------

/// The entity replacement of one character: the six HTML-special characters
/// become entities, everything else stands.
pub open spec fn escape_char(c: char) -> Seq<char> {
    if c == '"' {
        seq!['&', 'q', 'u', 'o', 't', ';']
    } else if c == '&' {
        seq!['&', 'a', 'm', 'p', ';']
    } else if c == '\'' {
        seq!['&', '#', 'x', '2', '7', ';']
    } else if c == '/' {
        seq!['&', '#', 'x', '2', 'f', ';']
    } else if c == '<' {
        seq!['&', 'l', 't', ';']
    } else if c == '>' {
        seq!['&', 'g', 't', ';']
    } else {
        seq![c]
    }
}

/// A string with every character replaced by its entity form.
pub open spec fn escape_seq(s: Seq<char>) -> Seq<char>
    decreases s.len(),
{
    if s.len() == 0 {
        s
    } else {
        escape_char(s[0]).add(escape_seq(s.drop_first()))
    }
}

/// Relies on v_htmlescape::escape_string: it rewrites exactly the characters
/// `" & ' / < >` into their entities and forwards every other character.
#[verifier::external_body]
fn escape_html(s: &str) -> (r: String)
    ensures
        r@ == escape_seq(s@),
{
    let mut out = String::new();
    v_htmlescape::escape_string(s, &mut out);
    out
}

/// Whether two string slices hold the same characters.
fn str_eq_lit(a: &str, b: &str) -> (r: bool)
    ensures
        r == (a@ == b@),
{
    let an = a.unicode_len();
    let bn = b.unicode_len();
    if an != bn {
        return false;
    }
    let mut i: usize = 0;
    while i < an
        invariant
            an == a@.len() && bn == b@.len() && an == bn,
            0 <= i <= an,
            forall|k: int| 0 <= k < i ==> a@[k] == b@[k],
        decreases an - i,
    {
        if a.get_char(i) != b.get_char(i) {
            return false;
        }
        i += 1;
    }
    proof {
        assert(a@ =~= b@);
    }
    true
}

// ---------------------------------------------------------------------------
// Matchers and their keys.
// ---------------------------------------------------------------------------

/// The matcher that pairs removed and inserted lines; compare them by the
/// keys `line_match_keys` derives (the content with its control prefix
/// stripped).
pub fn get_line_matcher() -> (r: Rematcher) {
    Rematcher::new()
}

/// The matcher that pairs removed and added segments within one line;
/// compare them by the keys `difference_match_keys` derives (the segment
/// texts).
pub fn get_difference_matcher() -> (r: Rematcher) {
    Rematcher::new()
}

/// The comparison key of a line: its content without the first character.
pub open spec fn line_key(l: Line) -> Seq<char> {
    if l.content@.len() > 0 {
        l.content@.skip(1)
    } else {
        l.content@
    }
}

/// The comparison keys of a run of lines.
pub fn line_match_keys(lines: &Vec<Line>) -> (r: Vec<String>)
    ensures
        r.deep_view().len() == lines@.len(),
        forall|k: int| 0 <= k < lines@.len() ==> r.deep_view()[k] == line_key(#[trigger] lines@[k]),
{
    let mut r: Vec<String> = Vec::new();
    let mut i: usize = 0;
    while i < lines.len()
        invariant
            0 <= i <= lines@.len(),
            r.deep_view().len() == i,
            forall|k: int| 0 <= k < i ==> r.deep_view()[k] == line_key(#[trigger] lines@[k]),
        decreases lines@.len() - i,
    {
        let c = lines[i].content.as_str();
        let n = c.unicode_len();
        let key = if n > 0 {
            c.substring_char(1, n).to_owned()
        } else {
            c.to_owned()
        };
        let ghost before = r.deep_view();
        proof {
            assert(key@ == line_key(lines@[i as int]));
        }
        r.push(key);
        proof {
            assert(r.deep_view() =~~= before.push(line_key(lines@[i as int])));
        }
        i += 1;
    }
    r
}

/// The text a segment carries.
pub open spec fn seg_text(s: SegView) -> Seq<char> {
    match s {
        SegView::Same(t) => t,
        SegView::Add(t) => t,
        SegView::Rem(t) => t,
    }
}

/// The comparison keys of a run of segments: their texts.
pub fn difference_match_keys(diffs: &Vec<Difference>) -> (r: Vec<String>)
    ensures
        r.deep_view().len() == diffs@.len(),
        forall|k: int| 0 <= k < diffs@.len() ==> r.deep_view()[k] == seg_text(
            (#[trigger] diffs@[k])@,
        ),
{
    let mut r: Vec<String> = Vec::new();
    let mut i: usize = 0;
    while i < diffs.len()
        invariant
            0 <= i <= diffs@.len(),
            r.deep_view().len() == i,
            forall|k: int| 0 <= k < i ==> r.deep_view()[k] == seg_text((#[trigger] diffs@[k])@),
        decreases diffs@.len() - i,
    {
        let key = match &diffs[i] {
            Difference::Same(s) => s.clone(),
            Difference::Add(s) => s.clone(),
            Difference::Rem(s) => s.clone(),
        };
        let ghost before = r.deep_view();
        r.push(key);
        proof {
            assert(r.deep_view() =~~= before.push(seg_text(diffs@[i as int]@)));
        }
        i += 1;
    }
    r
}

// ---------------------------------------------------------------------------
// Pairing a changed block of lines.
// ---------------------------------------------------------------------------

/// Whether a changed block may be aligned: the matching mode allows it, the
/// number of pairwise comparisons stays below the ceiling, and every key is
/// short enough for the distance engine.
pub open spec fn may_align(
    matching: Seq<char>,
    max_comparisons: int,
    olen: int,
    nlen: int,
    keys_ok: bool,
) -> bool {
    olen * nlen < max_comparisons && matching != seq!['n', 'o', 'n', 'e'] && keys_ok
}

/// Decides how a run of removed lines is paired with a run of inserted
/// lines: within the comparison ceiling and with matching enabled, the
/// alignment engine groups them and the lines are marked as changed pairs;
/// otherwise one unresolved group pairs them positionally.
pub fn pair_changed_lines(config: &Diff2HtmlConfig, old_lines: &Vec<Line>, new_lines: &Vec<Line>)
    -> (r: (Vec<MatchGroup>, LineType, LineType))
    ensures
        ({
            let okeys = Seq::new(old_lines@.len(), |k: int| line_key(old_lines@[k]));
            let nkeys = Seq::new(new_lines@.len(), |k: int| line_key(new_lines@[k]));
            let keys_ok = crate::rematch::keys_short(okeys) && crate::rematch::keys_short(nkeys);
            if may_align(
                config.matching@,
                config.matching_max_comparisons as int,
                old_lines@.len() as int,
                new_lines@.len() as int,
                keys_ok,
            ) {
                r.0.deep_view() == crate::rematch::align_rec(okeys, nkeys, 0, 0)
                    && r.1 == LineType::InsertChanges && r.2 == LineType::DeleteChanges
            } else {
                r.0.deep_view() == seq![
                    crate::rematch::GroupView {
                        a_lo: 0,
                        a_hi: old_lines@.len() as int,
                        b_lo: 0,
                        b_hi: new_lines@.len() as int,
                    },
                ] && r.1 == LineType::Inserts && r.2 == LineType::Deletes
            }
        }),
{
    proof {
        reveal_strlit("none");
        assert("none"@ =~= seq!['n', 'o', 'n', 'e']);
    }
    let okeys = line_match_keys(old_lines);
    let nkeys = line_match_keys(new_lines);
    proof {
        assert(okeys.deep_view() =~~= Seq::new(old_lines@.len(), |k: int| line_key(old_lines@[k])));
        assert(nkeys.deep_view() =~~= Seq::new(new_lines@.len(), |k: int| line_key(new_lines@[k])));
    }
    let keys_ok = all_keys_short(&okeys) && all_keys_short(&nkeys);
    let comparisons = check_comparisons(old_lines.len(), new_lines.len(), config.matching_max_comparisons);
    let matching_on = !str_eq_lit(config.matching.as_str(), "none");
    if comparisons && matching_on && keys_ok {
        let matcher = get_line_matcher();
        let groups = matcher.matches(&okeys, &nkeys);
        (groups, LineType::InsertChanges, LineType::DeleteChanges)
    } else {
        let mut groups: Vec<MatchGroup> = Vec::new();
        groups.push(MatchGroup { a_lo: 0, a_hi: old_lines.len(), b_lo: 0, b_hi: new_lines.len() });
        proof {
            assert(groups.deep_view() =~~= seq![
                crate::rematch::GroupView {
                    a_lo: 0,
                    a_hi: old_lines@.len() as int,
                    b_lo: 0,
                    b_hi: new_lines@.len() as int,
                },
            ]);
        }
        (groups, LineType::Inserts, LineType::Deletes)
    }
}

/// Whether every key is short enough for the distance engine.
fn all_keys_short(v: &Vec<String>) -> (r: bool)
    ensures
        r == crate::rematch::keys_short(v.deep_view()),
{
    let mut i: usize = 0;
    while i < v.len()
        invariant
            0 <= i <= v.len(),
            forall|k: int| 0 <= k < i ==> (#[trigger] v.deep_view()[k]).len() <= MAX_TEXT_LEN as int,
        decreases v.len() - i,
    {
        let l = v[i].as_str().unicode_len();
        proof {
            assert(v.deep_view()[i as int] == v@[i as int]@);
        }
        if l > MAX_TEXT_LEN {
            proof {
                assert((v.deep_view()[i as int]).len() > MAX_TEXT_LEN as int);
                assert(!crate::rematch::keys_short(v.deep_view()));
            }
            return false;
        }
        i += 1;
    }
    true
}

/// Whether `a * b` stays below the ceiling, without overflowing.
fn check_comparisons(a: usize, b: usize, ceiling: usize) -> (r: bool)
    ensures
        r == ((a as int) * (b as int) < ceiling as int),
{
    if a == 0 || b == 0 {
        proof {
            assert(a as int * b as int == 0) by (nonlinear_arith)
                requires a == 0 || b == 0;
        }
        return 0 < ceiling;
    }
    if a > ceiling || b > ceiling {
        proof {
            assert(a as int * b as int >= ceiling as int) by (nonlinear_arith)
                requires (a as int > ceiling as int || b as int > ceiling as int) && a >= 1 && b
                    >= 1;
        }
        return false;
    }
    proof {
        assert((a as int) * (b as int) <= 0xFFFF_FFFF_FFFF_FFFF * 0xFFFF_FFFF_FFFF_FFFF)
            by (nonlinear_arith)
            requires a as int <= 0xFFFF_FFFF_FFFF_FFFF && b as int <= 0xFFFF_FFFF_FFFF_FFFF
                && a as int >= 0 && b as int >= 0;
    }
    let p = a as u128 * b as u128;
    p < ceiling as u128
}


// ---------------------------------------------------------------------------
// Inline highlighting.
// ---------------------------------------------------------------------------

/// The texts of the Add segments, in order.
pub open spec fn add_texts(segs: Seq<SegView>) -> Seq<Seq<char>>
    decreases segs.len(),
{
    if segs.len() == 0 {
        Seq::<Seq<char>>::empty()
    } else {
        (match segs[0] {
            SegView::Add(t) => seq![t],
            _ => Seq::<Seq<char>>::empty(),
        }).add(add_texts(segs.drop_first()))
    }
}

/// The texts of the Rem segments, in order.
pub open spec fn rem_texts(segs: Seq<SegView>) -> Seq<Seq<char>>
    decreases segs.len(),
{
    if segs.len() == 0 {
        Seq::<Seq<char>>::empty()
    } else {
        (match segs[0] {
            SegView::Rem(t) => seq![t],
            _ => Seq::<Seq<char>>::empty(),
        }).add(rem_texts(segs.drop_first()))
    }
}

/// Whether the normalized distance of the two texts lies below the
/// threshold given in thousandths.
pub open spec fn below_threshold(x: Seq<char>, y: Seq<char>, thr: int) -> bool {
    crate::rematch::dist_num(x, y) * 1000 < thr * crate::rematch::dist_den(x, y)
}

/// The segments marked as changed words: for every aligned group that pairs
/// exactly one added with one removed segment within the threshold, both
/// segments.
pub open spec fn changed_from_groups(
    groups: Seq<crate::rematch::GroupView>,
    adds: Seq<Seq<char>>,
    rems: Seq<Seq<char>>,
    thr: int,
) -> Seq<SegView>
    decreases groups.len(),
{
    if groups.len() == 0 {
        Seq::<SegView>::empty()
    } else {
        let g = groups[0];
        (if g.a_hi - g.a_lo == 1 && g.b_hi - g.b_lo == 1 && below_threshold(
            adds[g.a_lo],
            rems[g.b_lo],
            thr,
        ) {
            seq![SegView::Add(adds[g.a_lo]), SegView::Rem(rems[g.b_lo])]
        } else {
            Seq::<SegView>::empty()
        }).add(changed_from_groups(groups.drop_first(), adds, rems, thr))
    }
}

/// The markup of one changed-side segment: the tag, the change class when
/// the segment is a changed word, and the escaped text.
pub open spec fn seg_markup(tag: Seq<char>, text: Seq<char>, changed: bool) -> Seq<char> {
    let cls: Seq<char> = if changed {
        seq![
            ' ', 'c', 'l', 'a', 's', 's', '=', '"', 'd', '2', 'h', '-', 'c', 'h', 'a', 'n', 'g',
            'e', '"',
        ]
    } else {
        Seq::<char>::empty()
    };
    seq!['<'].add(tag).add(cls).add(seq!['>']).add(escape_seq(text)).add(seq!['<', '/']).add(
        tag,
    ).add(seq!['>'])
}

/// The rendered pieces of one side: Same segments escaped on both sides,
/// Rem segments marked up on the delete side, Add segments on the insert
/// side.
pub open spec fn side_pieces(segs: Seq<SegView>, changed: Seq<SegView>, del_side: bool) -> Seq<
    Seq<char>,
>
    decreases segs.len(),
{
    if segs.len() == 0 {
        Seq::<Seq<char>>::empty()
    } else {
        (match segs[0] {
            SegView::Same(t) => seq![escape_seq(t)],
            SegView::Rem(t) => if del_side {
                seq![seg_markup(seq!['d', 'e', 'l'], t, changed.contains(segs[0]))]
            } else {
                Seq::<Seq<char>>::empty()
            },
            SegView::Add(t) => if !del_side {
                seq![seg_markup(seq!['i', 'n', 's'], t, changed.contains(segs[0]))]
            } else {
                Seq::<Seq<char>>::empty()
            },
        }).add(side_pieces(segs.drop_first(), changed, del_side))
    }
}

/// The granularity the highlighter compares at: characters in `chars` mode,
/// space-separated words otherwise.
pub open spec fn highlight_split(matching: Seq<char>) -> SplitType {
    if matching != seq!['c', 'h', 'a', 'r', 's'] {
        SplitType::Word
    } else {
        SplitType::Character
    }
}

/// The separator the rendered pieces are joined with: one space in `words`
/// mode, nothing otherwise.
pub open spec fn highlight_sep(matching: Seq<char>) -> Seq<char> {
    if matching == seq!['w', 'o', 'r', 'd', 's'] {
        seq![' ']
    } else {
        Seq::<char>::empty()
    }
}

proof fn lemma_texts_take_push(segs: Seq<SegView>, i: int)
    requires
        0 <= i < segs.len(),
    ensures
        add_texts(segs.take(i + 1)) == add_texts(segs.take(i)).add(
            match segs[i] {
                SegView::Add(t) => seq![t],
                _ => Seq::<Seq<char>>::empty(),
            },
        ),
        rem_texts(segs.take(i + 1)) == rem_texts(segs.take(i)).add(
            match segs[i] {
                SegView::Rem(t) => seq![t],
                _ => Seq::<Seq<char>>::empty(),
            },
        ),
    decreases i,
{
    if i == 0 {
        assert(segs.take(1).drop_first() =~~= Seq::<SegView>::empty());
        assert(segs.take(1)[0] == segs[0]);
        assert(segs.take(0) =~~= Seq::<SegView>::empty());
        assert(add_texts(segs.take(1)) =~~= add_texts(segs.take(0)).add(
            match segs[0] {
                SegView::Add(t) => seq![t],
                _ => Seq::<Seq<char>>::empty(),
            },
        ));
        assert(rem_texts(segs.take(1)) =~~= rem_texts(segs.take(0)).add(
            match segs[0] {
                SegView::Rem(t) => seq![t],
                _ => Seq::<Seq<char>>::empty(),
            },
        ));
    } else {
        lemma_texts_take_push(segs.drop_first(), i - 1);
        assert(segs.take(i + 1).drop_first() =~~= segs.drop_first().take(i));
        assert(segs.take(i).drop_first() =~~= segs.drop_first().take(i - 1));
        assert(segs.take(i + 1)[0] == segs[0]);
        assert(segs.take(i)[0] == segs[0]);
        assert(segs.drop_first()[i - 1] == segs[i]);
        assert(add_texts(segs.take(i + 1)) =~~= add_texts(segs.take(i)).add(
            match segs[i] {
                SegView::Add(t) => seq![t],
                _ => Seq::<Seq<char>>::empty(),
            },
        ));
        assert(rem_texts(segs.take(i + 1)) =~~= rem_texts(segs.take(i)).add(
            match segs[i] {
                SegView::Rem(t) => seq![t],
                _ => Seq::<Seq<char>>::empty(),
            },
        ));
    }
}

proof fn lemma_changed_take_push(
    groups: Seq<crate::rematch::GroupView>,
    adds: Seq<Seq<char>>,
    rems: Seq<Seq<char>>,
    thr: int,
    i: int,
)
    requires
        0 <= i < groups.len(),
    ensures
        changed_from_groups(groups.take(i + 1), adds, rems, thr) == changed_from_groups(
            groups.take(i),
            adds,
            rems,
            thr,
        ).add(
            ({
                let g = groups[i];
                if g.a_hi - g.a_lo == 1 && g.b_hi - g.b_lo == 1 && below_threshold(
                    adds[g.a_lo],
                    rems[g.b_lo],
                    thr,
                ) {
                    seq![SegView::Add(adds[g.a_lo]), SegView::Rem(rems[g.b_lo])]
                } else {
                    Seq::<SegView>::empty()
                }
            }),
        ),
    decreases i,
{
    if i == 0 {
        assert(groups.take(1).drop_first() =~~= Seq::<crate::rematch::GroupView>::empty());
        assert(groups.take(1)[0] == groups[0]);
        assert(groups.take(0) =~~= Seq::<crate::rematch::GroupView>::empty());
        assert(changed_from_groups(groups.take(1), adds, rems, thr) =~~= changed_from_groups(
            groups.take(0),
            adds,
            rems,
            thr,
        ).add(
            ({
                let g = groups[0];
                if g.a_hi - g.a_lo == 1 && g.b_hi - g.b_lo == 1 && below_threshold(
                    adds[g.a_lo],
                    rems[g.b_lo],
                    thr,
                ) {
                    seq![SegView::Add(adds[g.a_lo]), SegView::Rem(rems[g.b_lo])]
                } else {
                    Seq::<SegView>::empty()
                }
            }),
        ));
    } else {
        lemma_changed_take_push(groups.drop_first(), adds, rems, thr, i - 1);
        assert(groups.take(i + 1).drop_first() =~~= groups.drop_first().take(i));
        assert(groups.take(i).drop_first() =~~= groups.drop_first().take(i - 1));
        assert(groups.take(i + 1)[0] == groups[0]);
        assert(groups.take(i)[0] == groups[0]);
        assert(groups.drop_first()[i - 1] == groups[i]);
        assert(changed_from_groups(groups.take(i + 1), adds, rems, thr) =~~= changed_from_groups(
            groups.take(i),
            adds,
            rems,
            thr,
        ).add(
            ({
                let g = groups[i];
                if g.a_hi - g.a_lo == 1 && g.b_hi - g.b_lo == 1 && below_threshold(
                    adds[g.a_lo],
                    rems[g.b_lo],
                    thr,
                ) {
                    seq![SegView::Add(adds[g.a_lo]), SegView::Rem(rems[g.b_lo])]
                } else {
                    Seq::<SegView>::empty()
                }
            }),
        ));
    }
}

proof fn lemma_side_take_push(segs: Seq<SegView>, changed: Seq<SegView>, del_side: bool, i: int)
    requires
        0 <= i < segs.len(),
    ensures
        side_pieces(segs.take(i + 1), changed, del_side) == side_pieces(
            segs.take(i),
            changed,
            del_side,
        ).add(
            match segs[i] {
                SegView::Same(t) => seq![escape_seq(t)],
                SegView::Rem(t) => if del_side {
                    seq![seg_markup(seq!['d', 'e', 'l'], t, changed.contains(segs[i]))]
                } else {
                    Seq::<Seq<char>>::empty()
                },
                SegView::Add(t) => if !del_side {
                    seq![seg_markup(seq!['i', 'n', 's'], t, changed.contains(segs[i]))]
                } else {
                    Seq::<Seq<char>>::empty()
                },
            },
        ),
    decreases i,
{
    if i == 0 {
        assert(segs.take(1).drop_first() =~~= Seq::<SegView>::empty());
        assert(segs.take(1)[0] == segs[0]);
        assert(segs.take(0) =~~= Seq::<SegView>::empty());
        assert(side_pieces(segs.take(1), changed, del_side) =~~= side_pieces(
            segs.take(0),
            changed,
            del_side,
        ).add(
            match segs[0] {
                SegView::Same(t) => seq![escape_seq(t)],
                SegView::Rem(t) => if del_side {
                    seq![seg_markup(seq!['d', 'e', 'l'], t, changed.contains(segs[0]))]
                } else {
                    Seq::<Seq<char>>::empty()
                },
                SegView::Add(t) => if !del_side {
                    seq![seg_markup(seq!['i', 'n', 's'], t, changed.contains(segs[0]))]
                } else {
                    Seq::<Seq<char>>::empty()
                },
            },
        ));
    } else {
        lemma_side_take_push(segs.drop_first(), changed, del_side, i - 1);
        assert(segs.take(i + 1).drop_first() =~~= segs.drop_first().take(i));
        assert(segs.take(i).drop_first() =~~= segs.drop_first().take(i - 1));
        assert(segs.take(i + 1)[0] == segs[0]);
        assert(segs.take(i)[0] == segs[0]);
        assert(segs.drop_first()[i - 1] == segs[i]);
        assert(side_pieces(segs.take(i + 1), changed, del_side) =~~= side_pieces(
            segs.take(i),
            changed,
            del_side,
        ).add(
            match segs[i] {
                SegView::Same(t) => seq![escape_seq(t)],
                SegView::Rem(t) => if del_side {
                    seq![seg_markup(seq!['d', 'e', 'l'], t, changed.contains(segs[i]))]
                } else {
                    Seq::<Seq<char>>::empty()
                },
                SegView::Add(t) => if !del_side {
                    seq![seg_markup(seq!['i', 'n', 's'], t, changed.contains(segs[i]))]
                } else {
                    Seq::<Seq<char>>::empty()
                },
            },
        ));
    }
}

/// Whether two segments are equal.
fn diff_eq(a: &Difference, b: &Difference) -> (r: bool)
    ensures
        r == (a@ == b@),
{
    match (a, b) {
        (Difference::Same(x), Difference::Same(y)) => x.eq(y),
        (Difference::Add(x), Difference::Add(y)) => x.eq(y),
        (Difference::Rem(x), Difference::Rem(y)) => x.eq(y),
        _ => false,
    }
}

/// Whether the list of changed segments holds this segment.
fn contains_diff(changed: &Vec<Difference>, d: &Difference) -> (r: bool)
    ensures
        r == changed.deep_view().contains(d@),
{
    let mut i: usize = 0;
    while i < changed.len()
        invariant
            0 <= i <= changed@.len(),
            forall|k: int| 0 <= k < i ==> changed.deep_view()[k] != d@,
        decreases changed@.len() - i,
    {
        if diff_eq(&changed[i], d) {
            proof {
                assert(changed.deep_view()[i as int] == d@);
            }
            return true;
        }
        proof {
            assert(changed.deep_view()[i as int] == changed@[i as int]@);
        }
        i += 1;
    }
    proof {
        if changed.deep_view().contains(d@) {
            let w = choose|w: int| 0 <= w < changed.deep_view().len() && changed.deep_view()[w]
                == d@;
            assert(false);
        }
    }
    false
}

/// One highlighted line: its control prefix and its rendered content.
pub struct HighlightedLine<'a> {
    pub prefix: &'a str,
    pub line: String,
}

/// A highlighted pair of lines: the removed side and the inserted side.
pub struct Highlighted<'a> {
    pub first: HighlightedLine<'a>,
    pub second: HighlightedLine<'a>,
}


/// What `diff_highlight` promises of the rendered pair, beyond the split-off
/// prefixes: over-long lines pass through unchanged; otherwise the two lines
/// are the rendering of some changeset of the unprefixed contents, with
/// changed words marked when word matching is on; and identical contents
/// render as their plain escaped text on both sides.
pub open spec fn highlight_post(
    cfg: Diff2HtmlConfig,
    u1: Seq<char>,
    u2: Seq<char>,
    line1: Seq<char>,
    line2: Seq<char>,
) -> bool {
    let too_long = u1.len() > cfg.max_line_length_highlight || u2.len()
        > cfg.max_line_length_highlight || u1.len() > MAX_TEXT_LEN || u2.len() > MAX_TEXT_LEN;
    let split = highlight_split(cfg.matching@);
    let sep = highlight_sep(cfg.matching@);
    &&& (too_long ==> line1 == u1 && line2 == u2)
    &&& (!too_long ==> exists|segs: Seq<SegView>, dist: int| {
        &&& #[trigger] crate::difference::changeset_post(u1, u2, split, dist, segs)
        &&& ({
            let adds = add_texts(segs);
            let rems = rem_texts(segs);
            let words_on = cfg.matching@ == seq!['w', 'o', 'r', 'd', 's']
                && crate::rematch::keys_short(adds) && crate::rematch::keys_short(rems);
            let changed = if words_on {
                changed_from_groups(
                    crate::rematch::align_rec(adds, rems, 0, 0),
                    adds,
                    rems,
                    cfg.match_words_threshold_millis as int,
                )
            } else {
                Seq::<SegView>::empty()
            };
            &&& line1 == join_tokens(side_pieces(segs, changed, true), sep)
            &&& line2 == join_tokens(side_pieces(segs, changed, false), sep)
        })
    })
    &&& (!too_long && u1 == u2 ==> line1 == escape_seq(u1) && line2 == escape_seq(u1))
}

/// Renders the changed sub-spans of a paired pair of hunk lines: the two
/// contents are compared word- or character-wise, aligned added and removed
/// words within the threshold are marked as changes, and each side is
/// rendered with its removed or added spans tagged.
#[verifier::rlimit(100)]
#[verifier::spinoff_prover]
pub fn diff_highlight<'a>(
    config: &Diff2HtmlConfig,
    diff_line1: &'a str,
    diff_line2: &'a str,
) -> (r: Highlighted<'a>)
    requires
        diff_line1@.len() >= (if config.is_combined { 2int } else { 1int }),
        diff_line2@.len() >= (if config.is_combined { 2int } else { 1int }),
    ensures
        ({
            let psize: int = if config.is_combined { 2 } else { 1 };
            &&& r.first.prefix@ == diff_line1@.take(psize)
            &&& r.second.prefix@ == diff_line2@.take(psize)
            &&& highlight_post(
                *config,
                diff_line1@.skip(psize),
                diff_line2@.skip(psize),
                r.first.line@,
                r.second.line@,
            )
        }),
{
    proof {
        reveal_strlit("chars");
        reveal_strlit("words");
        assert("chars"@ =~= seq!['c', 'h', 'a', 'r', 's']);
        assert("words"@ =~= seq!['w', 'o', 'r', 'd', 's']);
    }
    let psize: usize = if config.is_combined {
        2
    } else {
        1
    };
    let n1 = diff_line1.unicode_len();
    let n2 = diff_line2.unicode_len();
    let line_prefix1 = diff_line1.substring_char(0, psize);
    let line_prefix2 = diff_line2.substring_char(0, psize);
    let unprefixed_line1 = diff_line1.substring_char(psize, n1);
    let unprefixed_line2 = diff_line2.substring_char(psize, n2);
    let ghost u1 = diff_line1@.skip(psize as int);
    let ghost u2 = diff_line2@.skip(psize as int);
    proof {
        assert(unprefixed_line1@ =~= u1);
        assert(unprefixed_line2@ =~= u2);
    }
    let ul1 = n1 - psize;
    let ul2 = n2 - psize;
    if ul1 > config.max_line_length_highlight || ul2 > config.max_line_length_highlight || ul1
        > MAX_TEXT_LEN || ul2 > MAX_TEXT_LEN {
        return Highlighted {
            first: HighlightedLine { prefix: line_prefix1, line: unprefixed_line1.to_owned() },
            second: HighlightedLine { prefix: line_prefix2, line: unprefixed_line2.to_owned() },
        };
    }
    let split: SplitType = if !str_eq_lit(config.matching.as_str(), "chars") {
        SplitType::Word
    } else {
        SplitType::Character
    };
    let ch = Changeset::new(unprefixed_line1, unprefixed_line2, &split);
    let diffs = ch.diffs;
    let ghost segs = diffs.deep_view();
    let ghost dist = ch.distance as int;

    // Changed words: aligned one-to-one pairs of added and removed segments
    // within the threshold.
    let mut add_texts_v: Vec<String> = Vec::new();
    let mut rem_texts_v: Vec<String> = Vec::new();
    let mut i: usize = 0;
    while i < diffs.len()
        invariant
            segs == diffs.deep_view(),
            0 <= i <= diffs@.len(),
            add_texts_v.deep_view() == add_texts(segs.take(i as int)),
            rem_texts_v.deep_view() == rem_texts(segs.take(i as int)),
        decreases diffs@.len() - i,
    {
        proof {
            lemma_texts_take_push(segs, i as int);
            assert(segs[i as int] == diffs@[i as int]@);
        }
        match &diffs[i] {
            Difference::Add(s) => {
                let ghost before = add_texts_v.deep_view();
                add_texts_v.push(s.clone());
                proof {
                    assert(add_texts_v.deep_view() =~~= before.push(s@));
                    assert(add_texts_v.deep_view() =~~= add_texts(segs.take(i + 1)));
                    assert(rem_texts_v.deep_view() =~~= rem_texts(segs.take(i + 1)));
                }
            },
            Difference::Rem(s) => {
                let ghost before = rem_texts_v.deep_view();
                rem_texts_v.push(s.clone());
                proof {
                    assert(rem_texts_v.deep_view() =~~= before.push(s@));
                    assert(add_texts_v.deep_view() =~~= add_texts(segs.take(i + 1)));
                    assert(rem_texts_v.deep_view() =~~= rem_texts(segs.take(i + 1)));
                }
            },
            Difference::Same(s) => {
                proof {
                    assert(add_texts_v.deep_view() =~~= add_texts(segs.take(i + 1)));
                    assert(rem_texts_v.deep_view() =~~= rem_texts(segs.take(i + 1)));
                }
            },
        }
        i += 1;
    }
    proof {
        assert(segs.take(segs.len() as int) =~~= segs);
    }
    let ghost adds = add_texts(segs);
    let ghost rems = rem_texts(segs);

    let mut changed: Vec<Difference> = Vec::new();
    let words_mode = str_eq_lit(config.matching.as_str(), "words");
    let keys_fit = all_keys_short(&add_texts_v) && all_keys_short(&rem_texts_v);
    let ghost words_on = config.matching@ == seq!['w', 'o', 'r', 'd', 's']
        && crate::rematch::keys_short(adds) && crate::rematch::keys_short(rems);
    if words_mode && keys_fit {
        let matcher = get_difference_matcher();
        let groups = matcher.matches(&add_texts_v, &rem_texts_v);
        let ghost groups_g = crate::rematch::align_rec(adds, rems, 0, 0);
        proof {
            crate::rematch::lemma_align_in_range(adds, rems, 0, 0);
        }
        let thr = config.match_words_threshold_millis;
        let mut gi: usize = 0;
        while gi < groups.len()
            invariant
                groups.deep_view() == groups_g,
                groups_g == crate::rematch::align_rec(adds, rems, 0, 0),
                adds == add_texts_v.deep_view(),
                rems == rem_texts_v.deep_view(),
                crate::rematch::keys_short(adds) && crate::rematch::keys_short(rems),
                forall|t: int| 0 <= t < groups_g.len() ==> {
                    let g = #[trigger] groups_g[t];
                    0 <= g.a_lo <= g.a_hi <= adds.len() && 0 <= g.b_lo <= g.b_hi <= rems.len()
                },
                0 <= gi <= groups@.len(),
                thr == config.match_words_threshold_millis,
                changed.deep_view() == changed_from_groups(
                    groups_g.take(gi as int),
                    adds,
                    rems,
                    thr as int,
                ),
            decreases groups@.len() - gi,
        {
            proof {
                lemma_changed_take_push(groups_g, adds, rems, thr as int, gi as int);
                assert(groups_g[gi as int] == groups@[gi as int]@);
            }
            let ga_lo = groups[gi].a_lo;
            let ga_hi = groups[gi].a_hi;
            let gb_lo = groups[gi].b_lo;
            let gb_hi = groups[gi].b_hi;
            if ga_hi - ga_lo == 1 && gb_hi - gb_lo == 1 {
                proof {
                    assert(ga_lo < adds.len() && gb_lo < rems.len());
                    assert(add_texts_v.deep_view()[ga_lo as int].len() <= MAX_TEXT_LEN as int);
                    assert(rem_texts_v.deep_view()[gb_lo as int].len() <= MAX_TEXT_LEN as int);
                }
                let d = crate::rematch::distance(
                    add_texts_v[ga_lo].as_str(),
                    rem_texts_v[gb_lo].as_str(),
                );
                proof {
                    assert((d.num as int) * 1000 <= 0x7FFF * 1000) by (nonlinear_arith)
                        requires d.num as int <= 0x7FFF;
                    assert((thr as int) * (d.den as int) <= 0xFFFF_FFFF * 0xFFFE)
                        by (nonlinear_arith)
                        requires thr as int <= 0xFFFF_FFFF && d.den as int <= 0xFFFE;
                }
                if (d.num as u64) * 1000 < (thr as u64) * d.den {
                    let ghost before = changed.deep_view();
                    changed.push(Difference::Add(add_texts_v[ga_lo].clone()));
                    changed.push(Difference::Rem(rem_texts_v[gb_lo].clone()));
                    proof {
                        assert(changed.deep_view() =~~= before.push(
                            SegView::Add(adds[ga_lo as int]),
                        ).push(SegView::Rem(rems[gb_lo as int])));
                        assert(changed.deep_view() =~~= changed_from_groups(
                            groups_g.take(gi + 1),
                            adds,
                            rems,
                            thr as int,
                        ));
                    }
                } else {
                    proof {
                        assert(changed.deep_view() =~~= changed_from_groups(
                            groups_g.take(gi + 1),
                            adds,
                            rems,
                            thr as int,
                        ));
                    }
                }
            } else {
                proof {
                    assert(changed.deep_view() =~~= changed_from_groups(
                        groups_g.take(gi + 1),
                        adds,
                        rems,
                        thr as int,
                    ));
                }
            }
            gi += 1;
        }
        proof {
            assert(groups_g.take(groups_g.len() as int) =~~= groups_g);
        }
    }
    let ghost changed_g: Seq<SegView> = if words_on {
        changed_from_groups(
            crate::rematch::align_rec(adds, rems, 0, 0),
            adds,
            rems,
            config.match_words_threshold_millis as int,
        )
    } else {
        Seq::<SegView>::empty()
    };
    proof {
        assert(changed.deep_view() == changed_g);
    }

    // Render both sides.
    let mut del_pieces: Vec<String> = Vec::new();
    let mut ins_pieces: Vec<String> = Vec::new();
    let mut k: usize = 0;
    while k < diffs.len()
        invariant
            segs == diffs.deep_view(),
            changed_g == changed.deep_view(),
            0 <= k <= diffs@.len(),
            del_pieces.deep_view() == side_pieces(segs.take(k as int), changed_g, true),
            ins_pieces.deep_view() == side_pieces(segs.take(k as int), changed_g, false),
        decreases diffs@.len() - k,
    {
        proof {
            lemma_side_take_push(segs, changed_g, true, k as int);
            lemma_side_take_push(segs, changed_g, false, k as int);
            assert(segs[k as int] == diffs@[k as int]@);
        }
        match &diffs[k] {
            Difference::Same(s) => {
                let e = escape_html(s.as_str());
                let ghost bd = del_pieces.deep_view();
                let ghost bi = ins_pieces.deep_view();
                del_pieces.push(e.clone());
                ins_pieces.push(e);
                proof {
                    assert(del_pieces.deep_view() =~~= bd.push(escape_seq(s@)));
                    assert(ins_pieces.deep_view() =~~= bi.push(escape_seq(s@)));
                    assert(del_pieces.deep_view() =~~= side_pieces(segs.take(k + 1), changed_g, true));
                    assert(ins_pieces.deep_view() =~~= side_pieces(segs.take(k + 1), changed_g, false));
                }
            },
            Difference::Rem(s) => {
                let is_changed = contains_diff(&changed, &diffs[k]);
                let mut m = "<del".to_owned();
                if is_changed {
                    m.append(" class=\"d2h-change\"");
                }
                m.append(">");
                let e = escape_html(s.as_str());
                m.append(e.as_str());
                m.append("</del>");
                proof {
                    reveal_strlit("<del");
                    reveal_strlit(" class=\"d2h-change\"");
                    reveal_strlit(">");
                    reveal_strlit("</del>");
                    assert("<del"@ =~= seq!['<', 'd', 'e', 'l']);
                    assert(" class=\"d2h-change\""@ =~= seq![
                        ' ', 'c', 'l', 'a', 's', 's', '=', '"', 'd', '2', 'h', '-', 'c', 'h',
                        'a', 'n', 'g', 'e', '"',
                    ]);
                    assert(">"@ =~= seq!['>']);
                    assert("</del>"@ =~= seq!['<', '/', 'd', 'e', 'l', '>']);
                    assert(m@ =~= seg_markup(seq!['d', 'e', 'l'], s@, changed_g.contains(segs[k as int])));
                }
                let ghost bd = del_pieces.deep_view();
                del_pieces.push(m);
                proof {
                    assert(del_pieces.deep_view() =~~= bd.push(
                        seg_markup(seq!['d', 'e', 'l'], s@, changed_g.contains(segs[k as int])),
                    ));
                    assert(del_pieces.deep_view() =~~= side_pieces(segs.take(k + 1), changed_g, true));
                    assert(ins_pieces.deep_view() =~~= side_pieces(segs.take(k + 1), changed_g, false));
                }
            },
            Difference::Add(s) => {
                let is_changed = contains_diff(&changed, &diffs[k]);
                let mut m = "<ins".to_owned();
                if is_changed {
                    m.append(" class=\"d2h-change\"");
                }
                m.append(">");
                let e = escape_html(s.as_str());
                m.append(e.as_str());
                m.append("</ins>");
                proof {
                    reveal_strlit("<ins");
                    reveal_strlit(" class=\"d2h-change\"");
                    reveal_strlit(">");
                    reveal_strlit("</ins>");
                    assert("<ins"@ =~= seq!['<', 'i', 'n', 's']);
                    assert(" class=\"d2h-change\""@ =~= seq![
                        ' ', 'c', 'l', 'a', 's', 's', '=', '"', 'd', '2', 'h', '-', 'c', 'h',
                        'a', 'n', 'g', 'e', '"',
                    ]);
                    assert(">"@ =~= seq!['>']);
                    assert("</ins>"@ =~= seq!['<', '/', 'i', 'n', 's', '>']);
                    assert(m@ =~= seg_markup(seq!['i', 'n', 's'], s@, changed_g.contains(segs[k as int])));
                }
                let ghost bi = ins_pieces.deep_view();
                ins_pieces.push(m);
                proof {
                    assert(ins_pieces.deep_view() =~~= bi.push(
                        seg_markup(seq!['i', 'n', 's'], s@, changed_g.contains(segs[k as int])),
                    ));
                    assert(del_pieces.deep_view() =~~= side_pieces(segs.take(k + 1), changed_g, true));
                    assert(ins_pieces.deep_view() =~~= side_pieces(segs.take(k + 1), changed_g, false));
                }
            },
        }
        k += 1;
    }
    proof {
        assert(segs.take(segs.len() as int) =~~= segs);
    }
    let sep: &str = if words_mode {
        " "
    } else {
        ""
    };
    proof {
        reveal_strlit(" ");
        reveal_strlit("");
        assert(" "@ =~= seq![' ']);
        assert(""@ =~= Seq::<char>::empty());
        assert(sep@ == highlight_sep(config.matching@));
    }
    let delete_line = crate::tokenize::join_with(&del_pieces, sep);
    let insert_line = crate::tokenize::join_with(&ins_pieces, sep);
    proof {
        // Identical contents render as plain escaped text on both sides.
        if u1 == u2 {
            if u1.len() > 0 {
                assert(segs == seq![SegView::Same(u1)]);
                assert(segs.drop_first() =~~= Seq::<SegView>::empty());
                assert(segs[0] == SegView::Same(u1));
                assert(side_pieces(segs.drop_first(), changed_g, true) == side_pieces(
                    Seq::<SegView>::empty(),
                    changed_g,
                    true,
                ));
                assert(side_pieces(segs.drop_first(), changed_g, false) == side_pieces(
                    Seq::<SegView>::empty(),
                    changed_g,
                    false,
                ));
                assert(side_pieces(Seq::<SegView>::empty(), changed_g, true)
                    =~~= Seq::<Seq<char>>::empty());
                assert(side_pieces(Seq::<SegView>::empty(), changed_g, false)
                    =~~= Seq::<Seq<char>>::empty());
                assert(side_pieces(segs, changed_g, true) =~~= seq![escape_seq(u1)]);
                assert(side_pieces(segs, changed_g, false) =~~= seq![escape_seq(u1)]);
                assert(join_tokens(seq![escape_seq(u1)], sep@) == escape_seq(u1));
            } else {
                lemma_identical_empty_segs(u1, u2, highlight_split(config.matching@), dist, segs);
                assert(segs =~~= Seq::<SegView>::empty());
                assert(side_pieces(segs, changed_g, true) =~~= Seq::<Seq<char>>::empty());
                assert(join_tokens(Seq::<Seq<char>>::empty(), sep@) =~= Seq::<char>::empty());
                assert(escape_seq(u1) =~= Seq::<char>::empty());
            }
        }
    }
    Highlighted {
        first: HighlightedLine { prefix: line_prefix1, line: delete_line },
        second: HighlightedLine { prefix: line_prefix2, line: insert_line },
    }
}

/// Comparing an empty string with itself yields no segments at all.
proof fn lemma_identical_empty_segs(
    u1: Seq<char>,
    u2: Seq<char>,
    t: SplitType,
    dist: int,
    segs: Seq<SegView>,
)
    requires
        u1.len() == 0,
        u2 == u1,
        t == SplitType::Word || t == SplitType::Character,
        crate::difference::changeset_post(u1, u2, t, dist, segs),
    ensures
        segs == Seq::<SegView>::empty(),
{
    let common = choose|common: Seq<char>| {
        &&& #[trigger] crate::difference::lcs_post(u1, u2, t, dist, common)
        &&& segs == crate::difference::merge_segs(u1, u2, common, t)
    };
    let lt = crate::tokenize::lcs_tokens(u1, t);
    assert(common == join_tokens(lt, crate::tokenize::sep_of(t)));
    if t == SplitType::Word {
        assert(lt == crate::tokenize::split_on(u1, ' '));
        assert(lt =~~= seq![Seq::<char>::empty()]);
        assert(common =~= Seq::<char>::empty());
        let mt = crate::tokenize::merge_tokens(u1, t);
        assert(mt =~~= Seq::<Seq<char>>::empty());
        assert(crate::difference::merge_runs(mt, mt, mt)
            =~~= Seq::<crate::difference::Run>::empty());
        assert(segs =~~= Seq::<SegView>::empty());
    } else {
        assert(lt == crate::tokenize::char_tokens(u1));
        assert(lt =~~= Seq::<Seq<char>>::empty());
        assert(common =~= Seq::<char>::empty());
        let mt = crate::tokenize::merge_tokens(u1, t);
        assert(mt =~~= seq![Seq::<char>::empty()]);
        crate::difference::lemma_merge_runs_identical(mt);
        let runs = crate::difference::merge_runs(mt, mt, mt);
        assert(runs == seq![
            crate::difference::Run { kind: crate::difference::RunKind::Same, toks: mt },
        ]);
        assert(join_tokens(mt, crate::tokenize::sep_of(t)).len() == 0);
        assert(runs.drop_first() =~~= Seq::<crate::difference::Run>::empty());
        assert(crate::difference::runs_to_segs(runs.drop_first(), crate::tokenize::sep_of(t))
            == crate::difference::runs_to_segs(
            Seq::<crate::difference::Run>::empty(),
            crate::tokenize::sep_of(t),
        ));
        assert(segs =~~= Seq::<SegView>::empty());
    }
}

} // verus!
