use rstempel::edit::{apply, length_pp_str};
use rstempel::multitrie::{MultiTrie, MultiTrie2};
use rstempel::stemmer::{Outcome, Stemmer, Table};
use rstempel::trie::{Cell, Row, Trie};

fn cell(refr: Option<u32>, cmd: Option<u32>) -> Cell {
    Cell { refr, cmd, cnt: if cmd.is_some() { 1 } else { 0 }, skip: 0 }
}

fn row(entries: Vec<(char, Cell)>) -> Row {
    let mut chars = Vec::new();
    let mut cells = Vec::new();
    for (c, x) in entries {
        chars.push(c);
        cells.push(x);
    }
    Row { chars, cells, uniform_count: 0, uniform_skip: 0 }
}

/// A backward trie that answers every key ending in `last` with `cmd`.
fn suffix_trie(last: char, cmd: &str) -> Trie {
    Trie {
        rows: vec![row(vec![(last, cell(None, Some(0)))])],
        cmds: vec![cmd.to_string()],
        root: 0,
        forward: false,
    }
}

fn multi(tries: Vec<Trie>) -> Stemmer {
    Stemmer::new(
        "-M".to_string(),
        Table::Multi(MultiTrie2 { t: MultiTrie { tries, forward: false, by: 1 } }),
    )
}

fn single(t: Trie) -> Stemmer {
    Stemmer::new("-".to_string(), Table::Single(t))
}

fn text(s: &Stemmer, w: &str) -> String {
    s.stem(w).text(w)
}

#[test]
fn test_lookup_multi2() {
    let m = MultiTrie2 {
        t: MultiTrie {
            tries: vec![suffix_trie('n', "Ia"), suffix_trie('n', "-e")],
            forward: false,
            by: 1,
        },
    };
    let cmd = m.get_last_on_path("Abadan").unwrap();
    assert_eq!(cmd, "Ia-e");
}

#[test]
fn short_words_are_unchanged() {
    let s = single(suffix_trie('c', "Da"));
    assert!(matches!(s.stem("abc"), Outcome::Unchanged));
    assert!(matches!(s.stem(""), Outcome::Unchanged));
    assert!(matches!(s.stem("żółc"), Outcome::Stemmed(_)));
    assert_eq!(text(&s, "żółc"), "żół");
}

#[test]
fn dead_walk_is_unchanged() {
    let s = single(suffix_trie('a', "Da"));
    assert!(matches!(s.stem("qxzt"), Outcome::Unchanged));
    assert_eq!(text(&s, "qxzt"), "qxzt");
}

#[test]
fn first_trie_sentinel_is_unchanged() {
    let s = multi(vec![suffix_trie('y', "*"), suffix_trie('y', "Da")]);
    assert!(matches!(s.stem("domy"), Outcome::Unchanged));
}

#[test]
fn later_trie_sentinel_is_unchanged() {
    let s = multi(vec![suffix_trie('y', "Da"), suffix_trie('y', "*")]);
    assert!(matches!(s.stem("domy"), Outcome::Unchanged));
}

#[test]
fn skip_after_skip_is_unchanged() {
    // After "-a" the key is "dom", which the second trie answers with "-a".
    let s = multi(vec![suffix_trie('y', "-a"), suffix_trie('m', "-a")]);
    assert_eq!(s.table_command("domy"), None);
    assert!(matches!(s.stem("domy"), Outcome::Unchanged));
    let d = multi(vec![suffix_trie('y', "Da"), suffix_trie('y', "Da")]);
    assert!(matches!(d.stem("domy"), Outcome::Unchanged));
}

#[test]
fn composed_commands_apply_in_order() {
    // "Da" removes the final 'y'; the key is unchanged, so the second trie
    // is asked about "domy" too and "Rk" replaces the new last character.
    let s = multi(vec![suffix_trie('y', "Da"), suffix_trie('y', "Rk")]);
    assert_eq!(text(&s, "domy"), "dok");
}

#[test]
fn skip_rewrites_the_key() {
    // The first trie skips two characters ("-b"): the second trie is then
    // asked about "kot" of "kotek", whose last character is 't'.
    let s = multi(vec![suffix_trie('k', "-b"), suffix_trie('t', "Da")]);
    assert_eq!(s.table_command("kotek"), Some("-bDa".to_string()));
}

#[test]
fn skip_that_exhausts_the_key_declines() {
    let s = multi(vec![suffix_trie('k', "-d"), suffix_trie('t', "Da")]);
    assert_eq!(s.table_command("kotk"), None);
    assert!(matches!(s.stem("kotk"), Outcome::Unchanged));
}

#[test]
fn multitrie_keeps_partial_result_at_sentinel() {
    let m = MultiTrie { tries: vec![suffix_trie('y', "Da"), suffix_trie('y', "*")], forward: false, by: 1 };
    assert_eq!(m.get_last_on_path("domy"), Some("Da".to_string()));
    let none = MultiTrie { tries: vec![suffix_trie('y', "Da"), suffix_trie('x', "Da")], forward: false, by: 1 };
    assert_eq!(none.get_last_on_path("domy"), None);
}

#[test]
fn stem_is_repeatable() {
    let s = multi(vec![suffix_trie('y', "Da"), suffix_trie('y', "Rk")]);
    let a = text(&s, "domy");
    let b = text(&s, "domy");
    assert_eq!(a, b);
}

#[test]
fn stem_leaves_table_bytes_alone() {
    let s = multi(vec![suffix_trie('y', "Da"), suffix_trie('y', "Rk")]);
    let before = s.serialize().unwrap();
    let _ = s.stem("domy");
    let _ = s.stem("kotek");
    assert_eq!(s.serialize().unwrap(), before);
}

#[test]
fn apply_edits_from_the_tail() {
    assert_eq!(apply("kotek", "Da"), Some("kote".to_string()));
    assert_eq!(apply("kotek", "Db"), Some("kot".to_string()));
    assert_eq!(apply("kotek", "Rx"), Some("kotex".to_string()));
    assert_eq!(apply("kot", "Ia"), Some("kota".to_string()));
    // '-a' moves back by one, then the step back after every pair.
    assert_eq!(apply("kotek", "-aRx"), Some("koxek".to_string()));
    assert_eq!(apply("kotek", ""), Some("kotek".to_string()));
    assert_eq!(apply("Abadan", "Ia-e"), Some("Abadana".to_string()));
}

#[test]
fn apply_declines_outside_the_word() {
    assert_eq!(apply("", "Da"), None);
    assert_eq!(apply("ab", "Dc"), None);
    assert_eq!(apply("ab", "-bRx"), None);
    assert_eq!(apply("ab", "Db"), None);
    assert_eq!(apply("ab", "Xa"), None);
    assert_eq!(apply("ab", "DA"), None);
}

#[test]
fn length_pp_counts_skips_deletions_and_replacements() {
    assert_eq!(length_pp_str("-e"), 5);
    assert_eq!(length_pp_str("Da"), 1);
    assert_eq!(length_pp_str("Rx"), 1);
    assert_eq!(length_pp_str("Ix"), 0);
    assert_eq!(length_pp_str("-bDcRxIy"), 2 + 3 + 1);
}

#[test]
fn get_last_on_path_takes_the_latest_command() {
    // Forward trie: 'a' carries "Da", 'b' carries nothing, 'c' carries "Rx".
    let t = Trie {
        rows: vec![
            row(vec![('a', cell(Some(1), Some(0)))]),
            row(vec![('b', cell(Some(2), None))]),
            row(vec![('c', cell(None, Some(1)))]),
        ],
        cmds: vec!["Da".to_string(), "Rx".to_string()],
        root: 0,
        forward: true,
    };
    assert_eq!(t.get_last_on_path("abc"), Some("Rx".to_string()));
    assert_eq!(t.get_last_on_path("abd"), Some("Da".to_string()));
    assert_eq!(t.get_last_on_path("x"), None);
    assert_eq!(t.get_fully("abc"), Some("Rx".to_string()));
    assert_eq!(t.get_fully("ab"), None);
}
