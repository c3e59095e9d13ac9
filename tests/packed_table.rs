use rstempel::generate::RustGenerator;
use rstempel::multitrie::{MultiTrie, MultiTrie2};
use rstempel::packed::{Command, CommandSlice};
use rstempel::stemmer::{Stem, Stemmer, Table};
use rstempel::trie::{Cell, Row, Trie};

fn suffix_trie(last: char, cmd: &str) -> Trie {
    Trie {
        rows: vec![Row {
            chars: vec![last],
            cells: vec![Cell { refr: None, cmd: Some(0), cnt: 1, skip: 0 }],
            uniform_count: 0,
            uniform_skip: 0,
        }],
        cmds: vec![cmd.to_string()],
        root: 0,
        forward: false,
    }
}

fn two_level_trie() -> Trie {
    // "...ek" -> "Db" (through 'k' then 'e'), "...k" -> "Da", "...y" -> "*".
    Trie {
        rows: vec![
            Row {
                chars: vec!['k', 'y'],
                cells: vec![
                    Cell { refr: Some(1), cmd: Some(0), cnt: 1, skip: 0 },
                    Cell { refr: None, cmd: Some(2), cnt: 1, skip: 0 },
                ],
                uniform_count: 0,
                uniform_skip: 0,
            },
            Row {
                chars: vec!['e'],
                cells: vec![Cell { refr: None, cmd: Some(1), cnt: 1, skip: 0 }],
                uniform_count: 0,
                uniform_skip: 0,
            },
        ],
        cmds: vec!["Da".to_string(), "Db".to_string(), "*".to_string()],
        root: 0,
        forward: false,
    }
}

/// A backward trie that answers every key ending in one of `lasts` with `cmd`.
fn suffixes_trie(lasts: &[char], cmd: &str) -> Trie {
    Trie {
        rows: vec![Row {
            chars: lasts.to_vec(),
            cells: lasts.iter().map(|_| Cell { refr: None, cmd: Some(0), cnt: 1, skip: 0 }).collect(),
            uniform_count: 0,
            uniform_skip: 0,
        }],
        cmds: vec![cmd.to_string()],
        root: 0,
        forward: false,
    }
}

fn sample_multi() -> MultiTrie2 {
    MultiTrie2 {
        t: MultiTrie {
            tries: vec![two_level_trie(), suffix_trie('k', "-bRx"), suffixes_trie(&['a', 'k', 'z'], "Ia")],
            forward: false,
            by: 1,
        },
    }
}

#[test]
fn parse_reads_pairs() {
    assert_eq!(Command::parse('-', 'c'), Some(Command::Skip { chars: 3 }));
    assert_eq!(Command::parse('D', 'a'), Some(Command::Delete { chars: 1 }));
    assert_eq!(Command::parse('R', 'ż'), Some(Command::Replace { char: 'ż' }));
    assert_eq!(Command::parse('I', 'y'), Some(Command::Insert { char: 'y' }));
    assert_eq!(Command::parse('X', 'a'), None);
    assert_eq!(Command::parse('-', 'A'), None);
}

#[test]
fn command_slices_pack_start_and_length() {
    let s = CommandSlice::new(5, 3);
    assert_eq!(s.start_index(), 5);
    assert_eq!(s.len(), 3);
    assert!(!s.is_eom());
    assert_eq!(s.0, (5 << 4) | 3);
    assert!(CommandSlice::new_eom().is_eom());
    let pool = vec![
        Command::Skip { chars: 1 },
        Command::Delete { chars: 2 },
        Command::Replace { char: 'x' },
    ];
    assert_eq!(CommandSlice::new(1, 2).lookup(&pool), &pool[1..3]);
}

#[test]
fn packed_stems_like_the_loaded_table() {
    let m = sample_multi();
    let reference = Stemmer::new("-M".to_string(), Table::Multi(m.clone()));
    let packed = RustGenerator::convert_java_multitrie(&m).unwrap().into_stemmer();
    assert_eq!(reference.table_command("zakotek"), Some("Db-bRxIa".to_string()));
    assert_eq!(reference.table_command("kotak"), Some("Da-bRxIa".to_string()));
    assert_eq!(reference.table_command("kotek"), None);
    for w in ["kotek", "kotak", "domy", "koto", "abc", "", "pies", "ekek", "zakotek", "zzzzkotak"] {
        assert_eq!(packed.stem(w).text(w), reference.stem(w).text(w), "word {}", w);
    }
    assert_eq!(packed.stem("zakotek").text("zakotek"), "zaxkot");
    assert_eq!(packed.stem("kotak").text("kotak"), "axota");
}

#[test]
fn packed_pool_holds_each_command_once_per_string() {
    let g = RustGenerator::convert_java_multitrie(&sample_multi()).unwrap();
    // "Da", "Db", "-bRx" (two commands) and "Ia"; the sentinel takes none.
    assert_eq!(g.commands.len(), 5);
    assert_eq!(g.tries.len(), 3);
    assert_eq!(g.tries[0].rows[0].cells[0].refr, 2);
    assert_eq!(g.tries[0].rows[0].cells[1].cmds, u32::MAX);
}

#[test]
fn conversion_refuses_what_does_not_fit() {
    let mut m = sample_multi();
    m.t.tries[0].root = 1;
    assert!(RustGenerator::convert_java_multitrie(&m).is_none());
    let long = "Da".repeat(16);
    let m = MultiTrie2 { t: MultiTrie { tries: vec![suffix_trie('k', &long)], forward: false, by: 1 } };
    assert!(RustGenerator::convert_java_multitrie(&m).is_none());
    let m = MultiTrie2 { t: MultiTrie { tries: vec![suffix_trie('k', "")], forward: false, by: 1 } };
    assert!(RustGenerator::convert_java_multitrie(&m).is_none());
}

fn stem_with<S: Stem>(s: &S, w: &str) -> String {
    s.stem(w).text(w)
}

#[test]
fn both_stemmers_serve_the_stem_trait() {
    let m = sample_multi();
    let reference = Stemmer::new("-M".to_string(), Table::Multi(m.clone()));
    let packed = RustGenerator::convert_java_multitrie(&m).unwrap().into_stemmer();
    assert_eq!(stem_with(&reference, "zakotek"), stem_with(&packed, "zakotek"));
    assert_eq!(stem_with(&reference, "zakotek"), "zaxkot");
}

#[test]
fn packed_rows_find_cells_by_character() {
    let g = RustGenerator::convert_java_multitrie(&sample_multi()).unwrap();
    let root = &g.tries[0].rows[0];
    assert_eq!(root.get('k').map(|c| c.refr), Some(2));
    assert!(root.get('a').is_none());
}
