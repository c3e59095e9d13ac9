use rstempel::data::{DataError, DataInput, DataOutput};
use rstempel::multitrie::{MultiTrie, MultiTrie2};
use rstempel::stemmer::{Stemmer, Table};
use rstempel::trie::{Cell, Row, Trie};

fn sample_trie(forward: bool) -> Trie {
    Trie {
        rows: vec![
            Row {
                chars: vec!['a', 'ż'],
                cells: vec![
                    Cell { refr: Some(1), cmd: None, cnt: 0, skip: 0 },
                    Cell { refr: None, cmd: Some(0), cnt: 1, skip: 0 },
                ],
                uniform_count: 0,
                uniform_skip: 0,
            },
            Row {
                chars: vec!['b'],
                cells: vec![Cell { refr: None, cmd: Some(1), cnt: 1, skip: 2 }],
                uniform_count: 0,
                uniform_skip: 0,
            },
        ],
        cmds: vec!["Da".to_string(), "*".to_string()],
        root: 0,
        forward,
    }
}

#[test]
fn test_load_tries() {
    let s = Stemmer::new(
        "-M".to_string(),
        Table::Multi(MultiTrie2 {
            t: MultiTrie { tries: vec![sample_trie(false), sample_trie(true)], forward: false, by: -7 },
        }),
    );
    let bytes = s.serialize().unwrap();
    let loaded = Stemmer::load(&bytes).unwrap();
    assert!(loaded.method.contains('M'));
    match &loaded.table {
        Table::Multi(m) => {
            assert_eq!(m.t.tries.len(), 2);
            assert_eq!(m.t.by, -7);
        }
        Table::Single(_) => panic!("expected a multi-trie"),
    }
    assert_eq!(loaded.serialize().unwrap(), bytes);
}

#[test]
fn single_trie_round_trip() {
    let s = Stemmer::new("-".to_string(), Table::Single(sample_trie(false)));
    let bytes = s.serialize().unwrap();
    let loaded = Stemmer::load(&bytes).unwrap();
    assert!(matches!(loaded.table, Table::Single(_)));
    assert_eq!(loaded.serialize().unwrap(), bytes);
}

#[test]
fn table_layout_is_big_endian() {
    let t = Trie {
        rows: vec![Row {
            chars: vec!['x'],
            cells: vec![Cell { refr: None, cmd: Some(0), cnt: 1, skip: 0 }],
            uniform_count: 0,
            uniform_skip: 0,
        }],
        cmds: vec!["Da".to_string()],
        root: 0,
        forward: false,
    };
    let s = Stemmer::new("-".to_string(), Table::Single(t));
    let bytes = s.serialize().unwrap();
    let expected: Vec<u8> = vec![
        0, 1, b'-', // method
        0, // forward
        0, 0, 0, 0, // root
        0, 0, 0, 1, // one command
        0, 2, b'D', b'a', // "Da"
        0, 0, 0, 1, // one row
        0, 0, 0, 1, // one cell
        0, b'x', // its character
        0, 0, 0, 0, // cmd 0
        0, 0, 0, 1, // cnt 1
        255, 255, 255, 255, // no next row
        0, 0, 0, 0, // skip 0
    ];
    assert_eq!(bytes, expected);
    let reread = Stemmer::load(&expected).unwrap();
    assert_eq!(reread.serialize().unwrap(), expected);
}

#[test]
fn unused_cells_are_not_written() {
    let t = Trie {
        rows: vec![Row {
            chars: vec!['a', 'b'],
            cells: vec![
                Cell { refr: None, cmd: None, cnt: 0, skip: 0 },
                Cell { refr: None, cmd: Some(0), cnt: 1, skip: 0 },
            ],
            uniform_count: 0,
            uniform_skip: 0,
        }],
        cmds: vec!["Da".to_string()],
        root: 0,
        forward: false,
    };
    assert_eq!(t.rows[0].num_used_cells(), 1);
    let s = Stemmer::new("-".to_string(), Table::Single(t));
    let loaded = Stemmer::load(&s.serialize().unwrap()).unwrap();
    match loaded.table {
        Table::Single(t) => assert_eq!(t.rows[0].chars, vec!['b']),
        Table::Multi(_) => panic!("expected a single trie"),
    }
}

#[test]
fn load_rejects_bad_tables() {
    // Truncated.
    assert_eq!(Stemmer::load(&[0, 1]).err(), Some(DataError::InvalidData));
    let s = Stemmer::new("-".to_string(), Table::Single(sample_trie(false)));
    let good = s.serialize().unwrap();
    assert_eq!(Stemmer::load(&good[..good.len() - 1]).err(), Some(DataError::InvalidData));
    // A next-row index outside the arena.
    let mut t = sample_trie(false);
    t.rows[0].cells[0].refr = Some(9);
    let bad = Stemmer::new("-".to_string(), Table::Single(t)).serialize().unwrap();
    assert_eq!(Stemmer::load(&bad).err(), Some(DataError::InvalidData));
    // An unknown command op.
    let mut t = sample_trie(false);
    t.cmds[0] = "Qa".to_string();
    let bad = Stemmer::new("-".to_string(), Table::Single(t)).serialize().unwrap();
    assert_eq!(Stemmer::load(&bad).err(), Some(DataError::InvalidData));
    // Characters of a row out of order.
    let mut t = sample_trie(false);
    t.rows[0].chars = vec!['ż', 'a'];
    let bad = Stemmer::new("-".to_string(), Table::Single(t)).serialize().unwrap();
    assert_eq!(Stemmer::load(&bad).err(), Some(DataError::InvalidData));
}

#[test]
fn integers_read_big_endian() {
    let mut d = DataInput::new(vec![0, 0, 1, 2, 0x80, 0, 0, 0, 255, 255, 255, 255, 255, 255, 255, 254]);
    assert_eq!(d.read_u32(), Ok(258));
    assert_eq!(d.read_u32(), Err(DataError::InvalidData));
    let mut d = DataInput::new(vec![255, 255, 255, 255, 255, 255, 255, 254, 0, 0, 0, 5]);
    assert_eq!(d.read_u32_opt(), Ok(None));
    assert_eq!(d.read_u32_opt(), Err(DataError::InvalidData));
    let mut d = DataInput::new(vec![255, 255, 255, 254, 0, 0, 0, 5]);
    assert_eq!(d.read_i32(), Ok(-2));
    assert_eq!(d.read_usize(), Ok(5));
    let mut d = DataInput::new(vec![7, 0]);
    assert_eq!(d.read_bool(), Ok(true));
    assert_eq!(d.read_bool(), Ok(false));
    assert_eq!(d.read_bool(), Err(DataError::InvalidData));
}

#[test]
fn integers_write_big_endian() {
    let mut o = DataOutput::new();
    assert_eq!(o.write_u32(0x01020304), Ok(()));
    assert_eq!(o.write_u32(0x8000_0000), Err(DataError::InvalidData));
    assert_eq!(o.write_u32_opt(None), Ok(()));
    o.write_i32(-2);
    o.write_bool(true);
    assert_eq!(o.bytes, vec![1, 2, 3, 4, 255, 255, 255, 255, 255, 255, 255, 254, 1]);
}

#[test]
fn chars_are_single_code_units() {
    let mut d = DataInput::new(vec![0x01, 0x7c, 0xd8, 0x00]);
    assert_eq!(d.read_char(), Ok('ż'));
    assert_eq!(d.read_char(), Err(DataError::InvalidData));
    let mut o = DataOutput::new();
    assert_eq!(o.write_char('ż'), Ok(()));
    assert_eq!(o.write_char('\u{10401}'), Err(DataError::InvalidData));
    assert_eq!(o.bytes, vec![0x01, 0x7c]);
}

#[test]
fn strings_use_modified_utf8() {
    let mut o = DataOutput::new();
    assert_eq!(o.write_string("a\0"), Ok(()));
    assert_eq!(o.bytes, vec![0, 3, b'a', 0xc0, 0x80]);
    let mut o = DataOutput::new();
    assert_eq!(o.write_string("\u{10401}"), Ok(()));
    assert_eq!(o.bytes, vec![0, 6, 0xED, 0xA0, 0x81, 0xED, 0xB0, 0x81]);
    let mut d = DataInput::new(o.bytes.clone());
    assert_eq!(d.read_string(), Ok("\u{10401}".to_string()));
    let mut d = DataInput::new(vec![0, 0]);
    assert_eq!(d.read_string(), Ok(String::new()));
    let mut d = DataInput::new(vec![0, 2, 0xc0, 0x81]);
    assert_eq!(d.read_string(), Err(DataError::InvalidData));
    let long = "ż".repeat(40000);
    let mut o = DataOutput::new();
    assert_eq!(o.write_string(&long), Err(DataError::InvalidData));
}

#[test]
fn generic_read_and_write_follow_each_type() {
    let c = Cell { refr: Some(3), cmd: None, cnt: 7, skip: 1 };
    let mut o = DataOutput::new();
    assert_eq!(o.write(&c), Ok(()));
    assert_eq!(o.bytes, vec![255, 255, 255, 255, 0, 0, 0, 7, 0, 0, 0, 3, 0, 0, 0, 1]);
    let mut d = DataInput::new(o.bytes.clone());
    let back: Cell = d.read().unwrap();
    assert_eq!(back.refr, Some(3));
    assert_eq!(back.cmd, None);
    assert_eq!(back.cnt, 7);
    assert_eq!(back.skip, 1);
    assert_eq!(d.pos, 16);
    let t = sample_trie(true);
    let mut o = DataOutput::new();
    assert_eq!(o.write(&t), Ok(()));
    let mut d = DataInput::new(o.bytes.clone());
    let back: Trie = d.read().unwrap();
    assert_eq!(back.cmds, t.cmds);
    assert_eq!(back.rows.len(), 2);
    let bad = Cell { refr: Some(0x8000_0000), cmd: None, cnt: 0, skip: 0 };
    assert_eq!(DataOutput::new().write(&bad), Err(DataError::InvalidData));
}
