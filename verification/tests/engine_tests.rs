use diff2html::difference::{diff, lcs, merge, Changeset, Difference};
use diff2html::rematch::{distance, levenshtein, Rematcher};
use diff2html::tokenize::{merge_split, smartsplit, strsplit, trim};
use diff2html::SplitType;

#[test]
fn strsplit_characters() {
    let toks = strsplit("ab", &SplitType::Character);
    assert_eq!(toks, vec!["a".to_owned(), "b".to_owned()]);
    let empty = strsplit("", &SplitType::Character);
    assert_eq!(empty.len(), 0);
}

#[test]
fn strsplit_words_keeps_empty_pieces() {
    let toks = strsplit("a  b", &SplitType::Word);
    assert_eq!(toks, vec!["a".to_owned(), "".to_owned(), "b".to_owned()]);
    let empty = strsplit("", &SplitType::Word);
    assert_eq!(empty, vec!["".to_owned()]);
}

#[test]
fn strsplit_lines() {
    let toks = strsplit("x\ny", &SplitType::Line);
    assert_eq!(toks, vec!["x".to_owned(), "y".to_owned()]);
}

#[test]
fn smartsplit_groups_words_and_spaces() {
    let toks = smartsplit("foo  bar!!");
    assert_eq!(
        toks,
        vec![
            "foo".to_owned(),
            "  ".to_owned(),
            "bar".to_owned(),
            "!".to_owned(),
            "!".to_owned()
        ]
    );
}

#[test]
fn smartsplit_empty_yields_one_empty_token() {
    assert_eq!(smartsplit(""), vec!["".to_owned()]);
}

#[test]
fn trim_strips_outer_whitespace() {
    assert_eq!(trim("  a b \t"), "a b");
    assert_eq!(trim("   "), "");
}

#[test]
fn merge_split_character_edges() {
    let toks = merge_split("ab", &SplitType::Character);
    assert_eq!(
        toks,
        vec!["".to_owned(), "a".to_owned(), "b".to_owned(), "".to_owned()]
    );
    let empty = merge_split("", &SplitType::Character);
    assert_eq!(empty, vec!["".to_owned()]);
    let empty_word = merge_split("", &SplitType::Word);
    assert_eq!(empty_word.len(), 0);
}

#[test]
fn identical_inputs_one_same_segment() {
    let (dist, diffs) = diff("a b c", "a b c", &SplitType::Word);
    assert_eq!(dist, 0);
    assert_eq!(diffs, vec![Difference::Same("a b c".to_owned())]);

    let (dist2, diffs2) = diff("abc", "abc", &SplitType::Character);
    assert_eq!(dist2, 0);
    assert_eq!(diffs2, vec![Difference::Same("abc".to_owned())]);
}

#[test]
fn disjoint_inputs_full_distance_empty_common() {
    let (d, common) = lcs("abc", "xyz", &SplitType::Character);
    assert_eq!(d, 6);
    assert_eq!(common, "");
    let segs = merge("abc", "xyz", &common, &SplitType::Character);
    assert_eq!(
        segs,
        vec![
            Difference::Rem("abc".to_owned()),
            Difference::Add("xyz".to_owned())
        ]
    );
}

#[test]
fn merge_round_trip_word_tokens() {
    let (_, common) = lcs("a b c", "a x c", &SplitType::Word);
    assert_eq!(common, "a c");
    let segs = merge("a b c", "a x c", &common, &SplitType::Word);
    assert_eq!(
        segs,
        vec![
            Difference::Same("a".to_owned()),
            Difference::Rem("b".to_owned()),
            Difference::Add("x".to_owned()),
            Difference::Same("c".to_owned())
        ]
    );
    // Same + Rem tokens rebuild the original side; Same + Add the edited.
    let mut orig_tokens: Vec<String> = Vec::new();
    let mut edit_tokens: Vec<String> = Vec::new();
    for s in segs.iter() {
        match s {
            Difference::Same(t) => {
                orig_tokens.push(t.clone());
                edit_tokens.push(t.clone());
            }
            Difference::Rem(t) => orig_tokens.push(t.clone()),
            Difference::Add(t) => edit_tokens.push(t.clone()),
        }
    }
    assert_eq!(orig_tokens.join(" "), "a b c");
    assert_eq!(edit_tokens.join(" "), "a x c");
}

#[test]
fn changeset_smart_word() {
    let ch = Changeset::new("ab!", "ab?", &SplitType::SmartWord);
    assert_eq!(ch.distance, 2);
    assert_eq!(
        ch.diffs,
        vec![
            Difference::Same("ab".to_owned()),
            Difference::Rem("!".to_owned()),
            Difference::Add("?".to_owned())
        ]
    );
}

#[test]
fn levenshtein_classic() {
    assert_eq!(levenshtein("kitten", "sitting"), 3);
    assert_eq!(levenshtein("", "abc"), 3);
    assert_eq!(levenshtein("abc", ""), 3);
    assert_eq!(levenshtein("same", "same"), 0);
}

#[test]
fn distance_trims_and_normalizes() {
    let d = distance("kitten", "sitting");
    assert_eq!(d.num, 3);
    assert_eq!(d.den, 13);
    let t = distance(" a ", "a");
    assert_eq!(t.num, 0);
    assert_eq!(t.den, 2);
}

#[test]
fn align_small_inputs_single_unresolved_pair() {
    let m = Rematcher::new();
    let a = vec!["x".to_owned()];
    let b = vec!["y".to_owned()];
    let groups = m.matches(&a, &b);
    assert_eq!(groups.len(), 1);
    assert_eq!(groups[0].a_lo, 0);
    assert_eq!(groups[0].a_hi, 1);
    assert_eq!(groups[0].b_lo, 0);
    assert_eq!(groups[0].b_hi, 1);
}

#[test]
fn align_deterministic() {
    let m = Rematcher::new();
    let a = vec!["abc".to_owned(), "zzz".to_owned(), "abd".to_owned()];
    let b = vec!["abd".to_owned(), "qqq".to_owned()];
    let g1 = m.matches(&a, &b);
    let g2 = m.matches(&a, &b);
    assert_eq!(g1, g2);
}

#[test]
fn align_splits_around_best_pair() {
    let m = Rematcher::new();
    let a = vec!["abc".to_owned(), "zzz".to_owned()];
    let b = vec!["abd".to_owned()];
    let groups = m.matches(&a, &b);
    assert_eq!(groups.len(), 2);
    // The best pair is (abc, abd); the remainder trails as an unresolved
    // group with an empty right side.
    assert_eq!((groups[0].a_lo, groups[0].a_hi), (0, 1));
    assert_eq!((groups[0].b_lo, groups[0].b_hi), (0, 1));
    assert_eq!((groups[1].a_lo, groups[1].a_hi), (1, 2));
    assert_eq!((groups[1].b_lo, groups[1].b_hi), (1, 1));
}

#[test]
fn lcs_is_longest_common_subsequence() {
    // A shorter common subsequence ("q") exists; the engine must find the
    // longest one and report the minimal distance.
    let (d, common) = lcs("p q x q", "p q", &SplitType::Word);
    assert_eq!(common, "p q");
    assert_eq!(d, 2);
}

#[test]
fn smart_word_identity_keeps_outer_whitespace() {
    let (d, diffs) = diff(" a ", " a ", &SplitType::SmartWord);
    assert_eq!(d, 0);
    assert_eq!(diffs, vec![Difference::Same(" a ".to_owned())]);
}
