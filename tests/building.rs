use rstempel::stemmer::{Stemmer, Table};
use rstempel::trie::{optimize, Cell, Row, Trie};

fn cell(refr: Option<u32>, cmd: Option<u32>, skip: u32) -> Cell {
    Cell { refr, cmd, cnt: 0, skip }
}

#[test]
fn add_makes_the_trie_answer() {
    let mut t = Trie::new(false);
    t.add("kotek", "Db");
    t.add("domy", "Da");
    t.add("psy", "Da");
    assert_eq!(t.cmds, vec!["Db".to_string(), "Da".to_string()]);
    assert_eq!(t.get_last_on_path("kotek"), Some("Db".to_string()));
    assert_eq!(t.get_last_on_path("domy"), Some("Da".to_string()));
    assert_eq!(t.get_last_on_path("psy"), Some("Da".to_string()));
    assert_eq!(t.get_last_on_path("kotka"), None);
    let s = Stemmer::new("-".to_string(), Table::Single(optimize(t)));
    assert_eq!(s.stem("kotek").text("kotek"), "kot");
    assert_eq!(s.stem("domy").text("domy"), "dom");
}

#[test]
fn add_with_empty_key_or_command_changes_nothing() {
    let mut t = Trie::new(true);
    t.add("", "Da");
    t.add("abc", "");
    assert_eq!(t.rows.len(), 1);
    assert_eq!(t.cmds.len(), 0);
}

#[test]
fn set_cmd_and_set_ref_keep_characters_sorted() {
    let mut r = Row::new();
    r.set_cmd('m', Some(4));
    r.set_ref('c', Some(2));
    r.set_cmd('c', Some(1));
    r.set_ref('x', None);
    assert_eq!(r.chars, vec!['c', 'm', 'x']);
    assert_eq!(r.get_cmd('c'), Some(1));
    assert_eq!(r.get_ref('c'), Some(2));
    assert_eq!(r.get_cnt('c'), Some(1));
    assert_eq!(r.get_cnt('x'), Some(0));
    assert_eq!(r.get_cmd('q'), None);
    assert_eq!(r.num_used_cells(), 2);
    assert_eq!(r.num_referenced_cells(), 1);
    assert_eq!(r.num_patch_commands(), 2);
    assert!(r.try_get('m').unwrap().is_used());
    assert!(!r.try_get('x').unwrap().is_used());
    let copy = Row::from_row_cells(&r);
    assert_eq!(copy.chars, r.chars);
}

#[test]
fn uniform_cmds_finds_a_shared_command() {
    let same = Row {
        chars: vec!['a', 'b', 'c'],
        cells: vec![cell(None, Some(3), 1), cell(None, None, 0), cell(None, Some(3), 2)],
        uniform_count: 0,
        uniform_skip: 0,
    };
    assert_eq!(same.uniform_cmds(false), Some(3));
    assert_eq!(same.uniform_cmds(true), None);
    let mixed = Row {
        chars: vec!['a', 'b'],
        cells: vec![cell(None, Some(3), 0), cell(None, Some(4), 0)],
        uniform_count: 0,
        uniform_skip: 0,
    };
    assert_eq!(mixed.uniform_cmds(false), None);
    let leads = Row {
        chars: vec!['a'],
        cells: vec![cell(Some(0), Some(3), 0)],
        uniform_count: 0,
        uniform_skip: 0,
    };
    assert_eq!(leads.uniform_cmds(false), None);
    assert_eq!(Row::new().uniform_cmds(false), None);
}

#[test]
fn trie_counts_add_up_over_rows() {
    let mut t = Trie::new(false);
    t.add("ab", "Da");
    t.add("cb", "Db");
    // Root: 'b' leads on; next row: 'a' and 'c' carry commands.
    assert_eq!(t.num_used_cells(), 3);
    assert_eq!(t.num_referenced_cells(), 1);
    assert_eq!(t.num_patch_commands(), 2);
    assert!(t.row(1).is_some());
    assert!(t.row(7).is_none());
    assert_eq!(t.node(0, 'b').unwrap().refr, Some(1));
}

#[test]
fn get_fully_skips_key_characters() {
    // 'a' discards one more key character, then leads to row 1.
    let t = Trie {
        rows: vec![
            Row { chars: vec!['a'], cells: vec![cell(Some(1), None, 1)], uniform_count: 0, uniform_skip: 0 },
            Row { chars: vec!['c'], cells: vec![cell(None, Some(0), 0)], uniform_count: 0, uniform_skip: 0 },
        ],
        cmds: vec!["Da".to_string()],
        root: 0,
        forward: true,
    };
    assert_eq!(t.get_fully("axc"), Some("Da".to_string()));
    assert_eq!(t.get_fully("ax"), None);
    assert_eq!(t.get_fully("a"), None);
    assert_eq!(t.get_fully(""), None);
}

#[test]
fn built_tables_round_trip() {
    let mut t = Trie::new(false);
    t.add("kotek", "Db");
    t.add("kotka", "Rk");
    t.add("żółw", "Da");
    let s = Stemmer::new("-".to_string(), Table::Single(t));
    let bytes = s.serialize().unwrap();
    let loaded = Stemmer::load(&bytes).unwrap();
    assert_eq!(loaded.serialize().unwrap(), bytes);
    assert_eq!(loaded.stem("kotka").text("kotka"), "kotkk");
    assert_eq!(loaded.stem("żółw").text("żółw"), "żół");
}
