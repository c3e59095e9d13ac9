//! A table that the writer produced reads back as the same table.
use vstd::prelude::*;

use crate::data::{
    be16_at, be16_bytes, be32_at, be32_bytes, bits32, bool_bytes, char_bytes, char_fits_u16,
    char_of, is_surrogate, java_cesu8_decode, java_cesu8_encode, parse_bool, parse_char, parse_raw32, parse_string,
    parse_u32, parse_u32_opt, signed32, string_bytes, text_round_trips, u32_opt_bytes, ABSENT,
    I32_MAX,
};
use crate::format::{
    cell_bytes, cell_fits, entries_bytes, multi_bytes, multi_fits, names_multi, opt_fits,
    parse_cell, parse_entries, parse_multi, parse_row, parse_rows, parse_strings, parse_table,
    parse_trie, parse_trie_fields, parse_tries, row_bytes, row_fits, rows_bytes, strings_bytes,
    table_bytes, table_fits, table_texts, trie_bytes, trie_fits, trie_texts, tries_bytes,
    used_count,
};
use crate::multitrie::MultiView;
use crate::stemmer::TableView;
use crate::trie::{Cell, RowView, TrieView};

verus! {

/// `b` holds `x` at position `p`.
pub open spec fn holds_at(b: Seq<u8>, p: int, x: Seq<u8>) -> bool {
    &&& 0 <= p
    &&& p + x.len() <= b.len()
    &&& forall|k: int| 0 <= k < x.len() ==> b[p + k] == #[trigger] x[k]
}

/// Every cell of every row of the trie is used, as the writer leaves them.
pub open spec fn cells_used(t: TrieView) -> bool {
    forall|r: int, i: int|
        0 <= r < t.rows.len() && 0 <= i < t.rows[r].cells.len() ==> #[trigger] t.rows[r].cells[i].used()
}

/// Every cell of the table is used.
pub open spec fn table_cells_used(t: TableView) -> bool {
    match t {
        TableView::Single(x) => cells_used(x),
        TableView::Multi(m) => forall|i: int| 0 <= i < m.tries.len() ==> cells_used(#[trigger] m.tries[i]),
    }
}

/// The method string names the kind of table that follows it.
pub open spec fn method_matches(method: Seq<char>, t: TableView) -> bool {
    names_multi(method) <==> t is Multi
}

proof fn lemma_split(b: Seq<u8>, p: int, x: Seq<u8>, y: Seq<u8>)
    requires
        holds_at(b, p, x + y),
    ensures
        holds_at(b, p, x),
        holds_at(b, p + x.len(), y),
{
    assert forall|k: int| 0 <= k < x.len() implies b[p + k] == #[trigger] x[k] by {
        assert((x + y)[k] == x[k]);
    }
    assert forall|k: int| 0 <= k < y.len() implies b[p + x.len() + k] == #[trigger] y[k] by {
        assert((x + y)[x.len() + k] == y[k]);
    }
}

proof fn lemma_raw32(b: Seq<u8>, p: int, x: u32)
    requires
        holds_at(b, p, be32_bytes(x)),
    ensures
        parse_raw32(b, p) == Some((x, p + 4)),
{
    let e = be32_bytes(x);
    assert(b[p] == e[0] && b[p + 1] == e[1] && b[p + 2] == e[2] && b[p + 3] == e[3]);
    crate::data::lemma_be32_round(x);
    assert(be32_at(b, p) == be32_at(e, 0));
}

proof fn lemma_u32(b: Seq<u8>, p: int, x: u32)
    requires
        holds_at(b, p, be32_bytes(x)),
        x <= I32_MAX,
    ensures
        parse_u32(b, p) == Some((x, p + 4)),
{
    lemma_raw32(b, p, x);
}

proof fn lemma_opt(b: Seq<u8>, p: int, x: Option<u32>)
    requires
        holds_at(b, p, u32_opt_bytes(x)),
        opt_fits(x),
    ensures
        parse_u32_opt(b, p) == Some((x, p + 4)),
{
    match x {
        Some(v) => lemma_raw32(b, p, v),
        None => lemma_raw32(b, p, ABSENT),
    }
}

proof fn lemma_bool(b: Seq<u8>, p: int, x: bool)
    requires
        holds_at(b, p, bool_bytes(x)),
    ensures
        parse_bool(b, p) == Some((x, p + 1)),
{
    assert(b[p] == bool_bytes(x)[0]);
}

proof fn lemma_char(b: Seq<u8>, p: int, c: char)
    requires
        holds_at(b, p, char_bytes(c)),
        char_fits_u16(c),
    ensures
        parse_char(b, p) == Some((c, p + 2)),
{
    let x = c as u32;
    let u = x as u16;
    let e = be16_bytes(u);
    assert(b[p] == e[0] && b[p + 1] == e[1]);
    crate::data::lemma_be16_round(u);
    assert(be16_at(b, p) == be16_at(e, 0));
    assert((u as u32) == x) by (bit_vector)
        requires
            x <= 0xFFFF,
            u == x as u16,
    ;
    vstd::utf8::char_is_scalar(c);
    vstd::utf8::char_u32_cast(c, x);
    assert(!is_surrogate(u));
    assert(char_of(u) == c);
}

proof fn lemma_string(b: Seq<u8>, p: int, s: Seq<char>)
    requires
        holds_at(b, p, string_bytes(s)),
        java_cesu8_encode(s).len() <= 0xFFFF,
        text_round_trips(s),
    ensures
        parse_string(b, p) == Some((s, p + string_bytes(s).len())),
{
    let enc = java_cesu8_encode(s);
    let n = enc.len() as u16;
    lemma_split(b, p, be16_bytes(n), enc);
    let e = be16_bytes(n);
    assert(b[p] == e[0] && b[p + 1] == e[1]);
    crate::data::lemma_be16_round(n);
    assert(be16_at(b, p) == be16_at(e, 0));
    assert(b.subrange(p + 2, p + 2 + enc.len()) =~= enc);
    if enc.len() == 0 {
        assert(s =~= Seq::<char>::empty());
    }
}

proof fn lemma_cell(b: Seq<u8>, p: int, c: Cell)
    requires
        holds_at(b, p, cell_bytes(c)),
        cell_fits(c),
    ensures
        parse_cell(b, p) == Some((c, p + 16)),
{
    let a = u32_opt_bytes(c.cmd);
    let bb = be32_bytes(c.cnt);
    let cc = u32_opt_bytes(c.refr);
    let d = be32_bytes(c.skip);
    lemma_split(b, p, a + bb + cc, d);
    lemma_split(b, p, a + bb, cc);
    lemma_split(b, p, a, bb);
    lemma_opt(b, p, c.cmd);
    lemma_u32(b, p + 4, c.cnt);
    lemma_opt(b, p + 8, c.refr);
    lemma_u32(b, p + 12, c.skip);
}

proof fn lemma_used_count_all(cells: Seq<Cell>, n: int)
    requires
        0 <= n <= cells.len(),
        forall|i: int| 0 <= i < cells.len() ==> #[trigger] cells[i].used(),
    ensures
        used_count(cells, n) == n,
    decreases n,
{
    if n > 0 {
        lemma_used_count_all(cells, n - 1);
    }
}

proof fn lemma_entries(b: Seq<u8>, p: int, r: RowView, n: nat)
    requires
        r.wf(),
        row_fits(r),
        n <= r.cells.len(),
        forall|i: int| 0 <= i < r.cells.len() ==> #[trigger] r.cells[i].used(),
        holds_at(b, p, entries_bytes(r, n as int)),
    ensures
        parse_entries(b, p, n) == Some(
            (
                RowView { chars: r.chars.take(n as int), cells: r.cells.take(n as int) },
                p + entries_bytes(r, n as int).len(),
            ),
        ),
    decreases n,
{
    if n > 0 {
        let m = (n - 1) as nat;
        let head = entries_bytes(r, m as int);
        let ch = r.chars[m as int];
        let cell = r.cells[m as int];
        assert(r.cells[m as int].used());
        assert(entries_bytes(r, n as int) == head + char_bytes(ch) + cell_bytes(cell));
        lemma_split(b, p, head + char_bytes(ch), cell_bytes(cell));
        lemma_split(b, p, head, char_bytes(ch));
        lemma_entries(b, p, r, m);
        lemma_char(b, p + head.len(), ch);
        lemma_cell(b, p + head.len() + 2, cell);
        assert(r.chars.take(m as int).push(ch) =~= r.chars.take(n as int));
        assert(r.cells.take(m as int).push(cell) =~= r.cells.take(n as int));
        if m > 0 {
            assert(r.chars.take(m as int).last() == r.chars[m - 1]);
            assert(r.chars[m - 1] < r.chars[m as int]);
        }
    } else {
        assert(r.chars.take(0) =~= Seq::<char>::empty());
        assert(r.cells.take(0) =~= Seq::<Cell>::empty());
    }
}

proof fn lemma_row(b: Seq<u8>, p: int, r: RowView)
    requires
        r.wf(),
        row_fits(r),
        forall|i: int| 0 <= i < r.cells.len() ==> #[trigger] r.cells[i].used(),
        holds_at(b, p, row_bytes(r)),
    ensures
        parse_row(b, p) == Some((r, p + row_bytes(r).len())),
{
    let n = r.cells.len();
    lemma_used_count_all(r.cells, n as int);
    lemma_split(b, p, be32_bytes(n as u32), entries_bytes(r, n as int));
    lemma_u32(b, p, n as u32);
    lemma_entries(b, p + 4, r, n as nat);
    assert(r.chars.take(n as int) =~= r.chars);
    assert(r.cells.take(n as int) =~= r.cells);
}

proof fn lemma_strings(b: Seq<u8>, p: int, ss: Seq<Seq<char>>, n: nat)
    requires
        n <= ss.len(),
        forall|c: int|
            0 <= c < ss.len() ==> java_cesu8_encode(#[trigger] ss[c]).len() <= 0xFFFF
                && text_round_trips(ss[c]),
        holds_at(b, p, strings_bytes(ss, n as int)),
    ensures
        parse_strings(b, p, n) == Some((ss.take(n as int), p + strings_bytes(ss, n as int).len())),
    decreases n,
{
    if n > 0 {
        let m = (n - 1) as nat;
        lemma_split(b, p, strings_bytes(ss, m as int), string_bytes(ss[m as int]));
        lemma_strings(b, p, ss, m);
        lemma_string(b, p + strings_bytes(ss, m as int).len(), ss[m as int]);
        assert(ss.take(m as int).push(ss[m as int]) =~= ss.take(n as int));
    }
}

proof fn lemma_rows(b: Seq<u8>, p: int, rs: Seq<RowView>, n: nat)
    requires
        n <= rs.len(),
        forall|r: int| 0 <= r < rs.len() ==> #[trigger] rs[r].wf() && row_fits(rs[r]),
        forall|r: int, i: int|
            0 <= r < rs.len() && 0 <= i < rs[r].cells.len() ==> #[trigger] rs[r].cells[i].used(),
        holds_at(b, p, rows_bytes(rs, n as int)),
    ensures
        parse_rows(b, p, n) == Some((rs.take(n as int), p + rows_bytes(rs, n as int).len())),
    decreases n,
{
    if n > 0 {
        let m = (n - 1) as nat;
        lemma_split(b, p, rows_bytes(rs, m as int), row_bytes(rs[m as int]));
        lemma_rows(b, p, rs, m);
        let r = rs[m as int];
        assert(r.wf() && row_fits(r));
        assert forall|i: int| 0 <= i < r.cells.len() implies #[trigger] r.cells[i].used() by {
            assert(rs[m as int].cells[i].used());
        }
        lemma_row(b, p + rows_bytes(rs, m as int).len(), r);
        assert(rs.take(m as int).push(r) =~= rs.take(n as int));
    }
}

proof fn lemma_trie(b: Seq<u8>, p: int, t: TrieView)
    requires
        t.wf(),
        trie_fits(t),
        trie_texts(t),
        cells_used(t),
        holds_at(b, p, trie_bytes(t)),
    ensures
        parse_trie(b, p) == Some((t, p + trie_bytes(t).len())),
{
    let nc = t.cmds.len();
    let nr = t.rows.len();
    let a = bool_bytes(t.forward);
    let r0 = be32_bytes(t.root);
    let c0 = be32_bytes(nc as u32);
    let cs = strings_bytes(t.cmds, nc as int);
    let n0 = be32_bytes(nr as u32);
    let rs = rows_bytes(t.rows, nr as int);
    assert(trie_bytes(t) == a + r0 + c0 + cs + n0 + rs);
    lemma_split(b, p, a + r0 + c0 + cs + n0, rs);
    lemma_split(b, p, a + r0 + c0 + cs, n0);
    lemma_split(b, p, a + r0 + c0, cs);
    lemma_split(b, p, a + r0, c0);
    lemma_split(b, p, a, r0);
    lemma_bool(b, p, t.forward);
    lemma_u32(b, p + 1, t.root);
    lemma_u32(b, p + 5, nc as u32);
    lemma_strings(b, p + 9, t.cmds, nc as nat);
    assert(t.cmds.take(nc as int) =~= t.cmds);
    lemma_u32(b, p + 9 + cs.len(), nr as u32);
    assert forall|r: int| 0 <= r < t.rows.len() implies #[trigger] t.rows[r].wf() && row_fits(
        t.rows[r],
    ) by {}
    lemma_rows(b, p + 13 + cs.len(), t.rows, nr as nat);
    assert(t.rows.take(nr as int) =~= t.rows);
}

proof fn lemma_tries(b: Seq<u8>, p: int, ts: Seq<TrieView>, n: nat)
    requires
        n <= ts.len(),
        forall|i: int|
            0 <= i < ts.len() ==> #[trigger] ts[i].wf() && trie_fits(ts[i]) && trie_texts(ts[i])
                && cells_used(ts[i]),
        holds_at(b, p, tries_bytes(ts, n as int)),
    ensures
        parse_tries(b, p, n) == Some((ts.take(n as int), p + tries_bytes(ts, n as int).len())),
    decreases n,
{
    if n > 0 {
        let m = (n - 1) as nat;
        lemma_split(b, p, tries_bytes(ts, m as int), trie_bytes(ts[m as int]));
        lemma_tries(b, p, ts, m);
        assert(ts[m as int].wf());
        lemma_trie(b, p + tries_bytes(ts, m as int).len(), ts[m as int]);
        assert(ts.take(m as int).push(ts[m as int]) =~= ts.take(n as int));
    }
}

proof fn lemma_multi(b: Seq<u8>, p: int, mv: MultiView)
    requires
        mv.wf(),
        multi_fits(mv),
        forall|i: int| 0 <= i < mv.tries.len() ==> trie_texts(#[trigger] mv.tries[i]),
        forall|i: int| 0 <= i < mv.tries.len() ==> cells_used(#[trigger] mv.tries[i]),
        holds_at(b, p, multi_bytes(mv)),
    ensures
        parse_multi(b, p) == Some((mv, p + multi_bytes(mv).len())),
{
    let n = mv.tries.len();
    let a = bool_bytes(mv.forward);
    let y = be32_bytes(bits32(mv.by));
    let c = be32_bytes(n as u32);
    let ts = tries_bytes(mv.tries, n as int);
    lemma_split(b, p, a + y + c, ts);
    lemma_split(b, p, a + y, c);
    lemma_split(b, p, a, y);
    lemma_bool(b, p, mv.forward);
    lemma_raw32(b, p + 1, bits32(mv.by));
    assert(signed32(bits32(mv.by)) == mv.by as int);
    assert(signed32(bits32(mv.by)) as i32 == mv.by);
    lemma_u32(b, p + 5, n as u32);
    assert forall|i: int| 0 <= i < mv.tries.len() implies #[trigger] mv.tries[i].wf() && trie_fits(
        mv.tries[i],
    ) && trie_texts(mv.tries[i]) && cells_used(mv.tries[i]) by {}
    lemma_tries(b, p + 9, mv.tries, n as nat);
    assert(mv.tries.take(n as int) =~= mv.tries);
}

/// A table that the writer produced loads back as the same method string and
/// table; so loading the writer's bytes and writing them again gives the same
/// bytes. `table_fits` and `table_texts` hold of every table that
/// `Stemmer::serialize` wrote; the writer leaves out unused cells, so a
/// table read from such bytes has none.
pub proof fn lemma_load_round_trip(method: Seq<char>, t: TableView)
    requires
        t.wf(),
        table_fits(method, t),
        table_texts(method, t),
        table_cells_used(t),
        method_matches(method, t),
    ensures
        parse_table(table_bytes(method, t)) == Some((method, t)),
{
    match t {
        TableView::Single(x) => lemma_single_round(method, x),
        TableView::Multi(m) => lemma_multi_round(method, m),
    }
}

proof fn lemma_single_round(method: Seq<char>, x: TrieView)
    requires
        x.wf(),
        trie_fits(x),
        trie_texts(x),
        cells_used(x),
        java_cesu8_encode(method).len() <= 0xFFFF,
        text_round_trips(method),
        !names_multi(method),
    ensures
        parse_table(string_bytes(method) + trie_bytes(x)) == Some((method, TableView::Single(x))),
{
    let sb = string_bytes(method);
    let b = sb + trie_bytes(x);
    lemma_holds_self(b);
    lemma_split(b, 0, sb, trie_bytes(x));
    lemma_string(b, 0, method);
    lemma_trie(b, sb.len() as int, x);
}

proof fn lemma_multi_round(method: Seq<char>, m: MultiView)
    requires
        m.wf(),
        multi_fits(m),
        forall|i: int| 0 <= i < m.tries.len() ==> trie_texts(#[trigger] m.tries[i]),
        forall|i: int| 0 <= i < m.tries.len() ==> cells_used(#[trigger] m.tries[i]),
        java_cesu8_encode(method).len() <= 0xFFFF,
        text_round_trips(method),
        names_multi(method),
    ensures
        parse_table(string_bytes(method) + multi_bytes(m)) == Some((method, TableView::Multi(m))),
{
    let sb = string_bytes(method);
    let b = sb + multi_bytes(m);
    lemma_holds_self(b);
    lemma_split(b, 0, sb, multi_bytes(m));
    lemma_string(b, 0, method);
    lemma_multi(b, sb.len() as int, m);
}

proof fn lemma_holds_self(b: Seq<u8>)
    ensures
        holds_at(b, 0, b),
{
    assert forall|k: int| 0 <= k < b.len() implies b[0 + k] == #[trigger] b[k] by {}
}

/// Reading bytes that the writer produced and writing the result again gives
/// the same bytes: the table read back is the one written, and writing is a
/// function of the table.
pub proof fn lemma_reread_table(b: Seq<u8>, method: Seq<char>, t: TableView)
    requires
        t.wf(),
        table_fits(method, t),
        table_texts(method, t),
        table_cells_used(t),
        method_matches(method, t),
        b == table_bytes(method, t),
    ensures
        parse_table(b) matches Some((m2, t2)) && table_bytes(m2, t2) == b,
{
    lemma_load_round_trip(method, t);
}

/// The bytes of a trie as the writer lays them out read back as that trie,
/// ending at their end; writing it again gives the same bytes.
pub proof fn lemma_reread_trie(t: TrieView)
    requires
        t.wf(),
        trie_fits(t),
        trie_texts(t),
        cells_used(t),
    ensures
        parse_trie(trie_bytes(t), 0) == Some((t, trie_bytes(t).len() as int)),
{
    lemma_holds_self(trie_bytes(t));
    lemma_trie(trie_bytes(t), 0, t);
}

/// The bytes of a row as the writer lays them out read back as that row,
/// ending at their end; writing it again gives the same bytes.
pub proof fn lemma_reread_row(r: RowView)
    requires
        r.wf(),
        row_fits(r),
        forall|i: int| 0 <= i < r.cells.len() ==> #[trigger] r.cells[i].used(),
    ensures
        parse_row(row_bytes(r), 0) == Some((r, row_bytes(r).len() as int)),
{
    lemma_holds_self(row_bytes(r));
    lemma_row(row_bytes(r), 0, r);
}

proof fn lemma_raw32_back(b: Seq<u8>, p: int)
    requires
        parse_raw32(b, p) is Some,
    ensures
        b.subrange(p, p + 4) == be32_bytes(parse_raw32(b, p).unwrap().0),
{
    let (b0, b1, b2, b3) = (b[p], b[p + 1], b[p + 2], b[p + 3]);
    let x = be32_at(b, p);
    assert(x == ((b0 as u32) << 24u32) | ((b1 as u32) << 16u32) | ((b2 as u32) << 8u32) | (b3 as u32));
    assert((x >> 24u32) as u8 == b0 && (x >> 16u32) as u8 == b1 && (x >> 8u32) as u8 == b2 && x as u8
        == b3) by (bit_vector)
        requires
            x == ((b0 as u32) << 24u32) | ((b1 as u32) << 16u32) | ((b2 as u32) << 8u32) | (b3 as u32),
    ;
    assert(b.subrange(p, p + 4) =~= be32_bytes(x));
}

proof fn lemma_char_back(b: Seq<u8>, p: int)
    requires
        parse_char(b, p) is Some,
    ensures
        b.subrange(p, p + 2) == char_bytes(parse_char(b, p).unwrap().0),
        char_fits_u16(parse_char(b, p).unwrap().0),
{
    let (b0, b1) = (b[p], b[p + 1]);
    let u = be16_at(b, p);
    assert(u == ((b0 as u16) << 8u16) | (b1 as u16));
    assert((u >> 8u16) as u8 == b0 && u as u8 == b1) by (bit_vector)
        requires
            u == ((b0 as u16) << 8u16) | (b1 as u16),
    ;
    let c = char_of(u);
    assert(c as u32 == u as u32);
    assert(((u as u32) as u16) == u) by (bit_vector);
    assert(b.subrange(p, p + 2) =~= be16_bytes(u));
}

proof fn lemma_cell_back(b: Seq<u8>, p: int)
    requires
        parse_cell(b, p) is Some,
    ensures
        parse_cell(b, p).unwrap().1 == p + 16,
        b.subrange(p, p + 16) == cell_bytes(parse_cell(b, p).unwrap().0),
        cell_fits(parse_cell(b, p).unwrap().0),
{
    lemma_raw32_back(b, p);
    lemma_raw32_back(b, p + 4);
    lemma_raw32_back(b, p + 8);
    lemma_raw32_back(b, p + 12);
    let c = parse_cell(b, p).unwrap().0;
    assert(b.subrange(p, p + 16) =~= b.subrange(p, p + 4) + b.subrange(p + 4, p + 8) + b.subrange(
        p + 8,
        p + 12,
    ) + b.subrange(p + 12, p + 16));
    assert(b.subrange(p, p + 4) == u32_opt_bytes(c.cmd));
    assert(b.subrange(p + 8, p + 12) == u32_opt_bytes(c.refr));
}

proof fn lemma_entries_back(b: Seq<u8>, p: int, n: nat)
    requires
        0 <= p <= b.len(),
        parse_entries(b, p, n) is Some,
        forall|i: int|
            0 <= i < parse_entries(b, p, n).unwrap().0.cells.len() ==> (#[trigger] parse_entries(
                b,
                p,
                n,
            ).unwrap().0.cells[i]).used(),
    ensures
        parse_entries(b, p, n).unwrap().0.cells.len() == n,
        parse_entries(b, p, n).unwrap().0.chars.len() == n,
        p <= parse_entries(b, p, n).unwrap().1 <= b.len(),
        b.subrange(p, parse_entries(b, p, n).unwrap().1) == entries_bytes(
            parse_entries(b, p, n).unwrap().0,
            n as int,
        ),
        row_fits_entries(parse_entries(b, p, n).unwrap().0),
    decreases n,
{
    let (r, q) = parse_entries(b, p, n).unwrap();
    if n == 0 {
        assert(b.subrange(p, p) =~= Seq::<u8>::empty());
    } else {
        let m = (n - 1) as nat;
        let (r0, q0) = parse_entries(b, p, m).unwrap();
        let (ch, q1) = parse_char(b, q0).unwrap();
        let (cell, q2) = parse_cell(b, q1).unwrap();
        assert(r == RowView { chars: r0.chars.push(ch), cells: r0.cells.push(cell) } && q == q2);
        assert forall|i: int| 0 <= i < r0.cells.len() implies (#[trigger] r0.cells[i]).used() by {
            assert(r.cells[i] == r0.cells[i]);
        }
        lemma_entries_back(b, p, m);
        lemma_char_back(b, q0);
        lemma_cell_back(b, q0 + 2);
        assert(r.cells[m as int].used());
        lemma_entries_bytes_prefix(r0, r, m as int);
        assert(b.subrange(p, q) =~= b.subrange(p, q0) + b.subrange(q0, q0 + 2) + b.subrange(
            q0 + 2,
            q,
        ));
        assert forall|i: int|
            0 <= i < r.cells.len() && #[trigger] r.cells[i].used() implies char_fits_u16(r.chars[i])
                && cell_fits(r.cells[i]) by {
            if i < m {
                assert(r.chars[i] == r0.chars[i] && r.cells[i] == r0.cells[i]);
                assert(r0.cells[i].used());
            }
        }
    }
}

/// The used entries of a row are what the format can hold.
pub open spec fn row_fits_entries(r: RowView) -> bool {
    forall|i: int|
        0 <= i < r.cells.len() && #[trigger] r.cells[i].used() ==> char_fits_u16(r.chars[i])
            && cell_fits(r.cells[i])
}

proof fn lemma_entries_bytes_prefix(r0: RowView, r: RowView, m: int)
    requires
        0 <= m <= r0.cells.len(),
        m <= r0.chars.len(),
        r0.cells.len() <= r.cells.len(),
        r0.chars.len() <= r.chars.len(),
        forall|i: int| 0 <= i < r0.cells.len() ==> r.cells[i] == r0.cells[i],
        forall|i: int| 0 <= i < r0.chars.len() ==> r.chars[i] == r0.chars[i],
    ensures
        entries_bytes(r, m) == entries_bytes(r0, m),
    decreases m,
{
    if m > 0 {
        assert(r.cells[m - 1] == r0.cells[m - 1] && r.chars[m - 1] == r0.chars[m - 1]);
        lemma_entries_bytes_prefix(r0, r, m - 1);
    }
}

/// Bytes that read as a row whose cells are all used are exactly what the
/// writer writes for that row: reading a row and writing it again gives the
/// same bytes.
pub proof fn lemma_row_rewrites_bytes(b: Seq<u8>, p: int)
    requires
        0 <= p,
        parse_row(b, p) is Some,
        forall|i: int|
            0 <= i < parse_row(b, p).unwrap().0.cells.len() ==> (#[trigger] parse_row(
                b,
                p,
            ).unwrap().0.cells[i]).used(),
    ensures
        row_fits(parse_row(b, p).unwrap().0),
        b.subrange(p, parse_row(b, p).unwrap().1) == row_bytes(parse_row(b, p).unwrap().0),
{
    let (n, q1) = parse_u32(b, p).unwrap();
    let (r, q) = parse_row(b, p).unwrap();
    lemma_raw32_back(b, p);
    lemma_entries_back(b, q1, n as nat);
    lemma_used_count_all(r.cells, r.cells.len() as int);
    assert((r.cells.len() as u32) == n);
    assert(b.subrange(p, q) =~= b.subrange(p, q1) + b.subrange(q1, q));
}

/// The text has exactly one modified UTF-8 form, the one the writer gives
/// it, and the empty text has the empty form.
pub open spec fn stored_canonically(s: Seq<char>) -> bool {
    &&& forall|x: Seq<u8>| #[trigger] java_cesu8_decode(x) == Some(s) ==> java_cesu8_encode(s) == x
    &&& (s.len() == 0 ==> java_cesu8_encode(s).len() == 0)
}

proof fn lemma_string_back(b: Seq<u8>, p: int)
    requires
        parse_string(b, p) is Some,
        stored_canonically(parse_string(b, p).unwrap().0),
    ensures
        p + 2 <= parse_string(b, p).unwrap().1 <= b.len(),
        b.subrange(p, parse_string(b, p).unwrap().1) == string_bytes(parse_string(b, p).unwrap().0),
        java_cesu8_encode(parse_string(b, p).unwrap().0).len() <= 0xFFFF,
{
    let (text, q) = parse_string(b, p).unwrap();
    let (b0, b1) = (b[p], b[p + 1]);
    let u = be16_at(b, p);
    assert(u == ((b0 as u16) << 8u16) | (b1 as u16));
    assert((u >> 8u16) as u8 == b0 && u as u8 == b1) by (bit_vector)
        requires
            u == ((b0 as u16) << 8u16) | (b1 as u16),
    ;
    let raw = b.subrange(p + 2, q);
    if u == 0 {
        assert(raw =~= Seq::<u8>::empty());
        assert(java_cesu8_encode(text).len() == 0);
        assert(java_cesu8_encode(text) =~= raw);
    } else {
        assert(java_cesu8_decode(raw) == Some(text));
    }
    assert(java_cesu8_encode(text) == raw);
    assert((java_cesu8_encode(text).len() as u16) == u);
    assert(b.subrange(p, q) =~= be16_bytes(u) + raw);
}

proof fn lemma_strings_back(b: Seq<u8>, p: int, n: nat)
    requires
        0 <= p <= b.len(),
        parse_strings(b, p, n) is Some,
        forall|c: int|
            0 <= c < parse_strings(b, p, n).unwrap().0.len() ==> stored_canonically(
                #[trigger] parse_strings(b, p, n).unwrap().0[c],
            ),
    ensures
        parse_strings(b, p, n).unwrap().0.len() == n,
        p <= parse_strings(b, p, n).unwrap().1 <= b.len(),
        b.subrange(p, parse_strings(b, p, n).unwrap().1) == strings_bytes(
            parse_strings(b, p, n).unwrap().0,
            n as int,
        ),
        forall|c: int|
            0 <= c < n ==> java_cesu8_encode(#[trigger] parse_strings(b, p, n).unwrap().0[c]).len()
                <= 0xFFFF,
    decreases n,
{
    let (ss, q) = parse_strings(b, p, n).unwrap();
    if n == 0 {
        assert(b.subrange(p, p) =~= Seq::<u8>::empty());
    } else {
        let m = (n - 1) as nat;
        let (s0, q0) = parse_strings(b, p, m).unwrap();
        let (x, q1) = parse_string(b, q0).unwrap();
        assert(ss == s0.push(x) && q == q1);
        assert forall|c: int| 0 <= c < s0.len() implies stored_canonically(#[trigger] s0[c]) by {
            assert(ss[c] == s0[c]);
        }
        lemma_strings_back(b, p, m);
        assert(ss[m as int] == x);
        lemma_string_back(b, q0);
        lemma_strings_bytes_prefix(s0, ss, m as int);
        assert(b.subrange(p, q) =~= b.subrange(p, q0) + b.subrange(q0, q));
        assert forall|c: int| 0 <= c < n implies java_cesu8_encode(#[trigger] ss[c]).len() <= 0xFFFF by {
            if c < m {
                assert(ss[c] == s0[c]);
            }
        }
    }
}

proof fn lemma_strings_bytes_prefix(s0: Seq<Seq<char>>, ss: Seq<Seq<char>>, m: int)
    requires
        0 <= m <= s0.len() <= ss.len(),
        forall|i: int| 0 <= i < s0.len() ==> ss[i] == s0[i],
    ensures
        strings_bytes(ss, m) == strings_bytes(s0, m),
    decreases m,
{
    if m > 0 {
        assert(ss[m - 1] == s0[m - 1]);
        lemma_strings_bytes_prefix(s0, ss, m - 1);
    }
}

proof fn lemma_rows_bytes_prefix(r0: Seq<RowView>, rs: Seq<RowView>, m: int)
    requires
        0 <= m <= r0.len() <= rs.len(),
        forall|i: int| 0 <= i < r0.len() ==> rs[i] == r0[i],
    ensures
        rows_bytes(rs, m) == rows_bytes(r0, m),
    decreases m,
{
    if m > 0 {
        assert(rs[m - 1] == r0[m - 1]);
        lemma_rows_bytes_prefix(r0, rs, m - 1);
    }
}

proof fn lemma_rows_back(b: Seq<u8>, p: int, n: nat)
    requires
        0 <= p <= b.len(),
        parse_rows(b, p, n) is Some,
        forall|r: int, i: int|
            0 <= r < parse_rows(b, p, n).unwrap().0.len() && 0 <= i < parse_rows(b, p, n).unwrap().0[r].cells.len()
                ==> (#[trigger] parse_rows(b, p, n).unwrap().0[r].cells[i]).used(),
    ensures
        parse_rows(b, p, n).unwrap().0.len() == n,
        p <= parse_rows(b, p, n).unwrap().1 <= b.len(),
        b.subrange(p, parse_rows(b, p, n).unwrap().1) == rows_bytes(
            parse_rows(b, p, n).unwrap().0,
            n as int,
        ),
        forall|r: int| 0 <= r < n ==> row_fits(#[trigger] parse_rows(b, p, n).unwrap().0[r]),
    decreases n,
{
    let (rs, q) = parse_rows(b, p, n).unwrap();
    if n == 0 {
        assert(b.subrange(p, p) =~= Seq::<u8>::empty());
    } else {
        let m = (n - 1) as nat;
        let (r0, q0) = parse_rows(b, p, m).unwrap();
        let (x, q1) = parse_row(b, q0).unwrap();
        assert(rs == r0.push(x) && q == q1);
        assert forall|r: int, i: int| 0 <= r < r0.len() && 0 <= i < r0[r].cells.len() implies (
        #[trigger] r0[r].cells[i]).used() by {
            assert(rs[r] == r0[r]);
        }
        lemma_rows_back(b, p, m);
        assert(rs[m as int] == x);
        assert forall|i: int| 0 <= i < x.cells.len() implies (#[trigger] x.cells[i]).used() by {
            assert(rs[m as int].cells[i].used());
        }
        lemma_row_rewrites_bytes(b, q0);
        let (k, qk) = parse_u32(b, q0).unwrap();
        lemma_entries_back(b, qk, k as nat);
        lemma_rows_bytes_prefix(r0, rs, m as int);
        assert(b.subrange(p, q) =~= b.subrange(p, q0) + b.subrange(q0, q));
        assert forall|r: int| 0 <= r < n implies row_fits(#[trigger] rs[r]) by {
            if r < m {
                assert(rs[r] == r0[r]);
            }
        }
    }
}

/// Bytes that read as a trie whose direction byte is 0 or 1, whose cells are
/// all used and whose command strings are stored in their one modified UTF-8
/// form are exactly what the writer writes for that trie: reading such a
/// trie and writing it again gives the same bytes.
pub proof fn lemma_trie_rewrites_bytes(b: Seq<u8>, p: int)
    requires
        0 <= p,
        parse_trie(b, p) is Some,
        b[p] <= 1,
        cells_used(parse_trie(b, p).unwrap().0),
        forall|c: int|
            0 <= c < parse_trie(b, p).unwrap().0.cmds.len() ==> stored_canonically(
                #[trigger] parse_trie(b, p).unwrap().0.cmds[c],
            ),
    ensures
        trie_fits(parse_trie(b, p).unwrap().0),
        b.subrange(p, parse_trie(b, p).unwrap().1) == trie_bytes(parse_trie(b, p).unwrap().0),
{
    let (t, q) = parse_trie(b, p).unwrap();
    let (root, p2) = parse_u32(b, p + 1).unwrap();
    let (nc, p3) = parse_u32(b, p2).unwrap();
    let (cmds, p4) = parse_strings(b, p3, nc as nat).unwrap();
    let (nr, p5) = parse_u32(b, p4).unwrap();
    let (rows, p6) = parse_rows(b, p5, nr as nat).unwrap();
    assert(t == TrieView { rows, cmds, root, forward: b[p] != 0 } && q == p6);
    lemma_raw32_back(b, p + 1);
    lemma_raw32_back(b, p2);
    assert forall|c: int| 0 <= c < cmds.len() implies stored_canonically(#[trigger] cmds[c]) by {
        assert(t.cmds[c] == cmds[c]);
    }
    lemma_strings_back(b, p3, nc as nat);
    lemma_raw32_back(b, p4);
    assert forall|r: int, i: int|
        0 <= r < rows.len() && 0 <= i < rows[r].cells.len() implies (#[trigger] rows[r].cells[i]).used() by {
        assert(t.rows[r].cells[i].used());
    }
    lemma_rows_back(b, p5, nr as nat);
    assert(b.subrange(p, p + 1) =~= bool_bytes(t.forward));
    assert((cmds.len() as u32) == nc && (rows.len() as u32) == nr);
    assert(b.subrange(p, q) =~= b.subrange(p, p + 1) + b.subrange(p + 1, p2) + b.subrange(p2, p3)
        + b.subrange(p3, p4) + b.subrange(p4, p5) + b.subrange(p5, q));
}

/// The trie at `p` reads back and writes again to the same bytes: its
/// direction byte is 0 or 1, its cells are all used and its command strings
/// are stored in their one modified UTF-8 form.
pub open spec fn trie_rewritable(b: Seq<u8>, p: int) -> bool {
    &&& 0 <= p
    &&& parse_trie(b, p) is Some
    &&& b[p] <= 1
    &&& cells_used(parse_trie(b, p).unwrap().0)
    &&& forall|c: int|
        0 <= c < parse_trie(b, p).unwrap().0.cmds.len() ==> stored_canonically(
            #[trigger] parse_trie(b, p).unwrap().0.cmds[c],
        )
}

/// Each of the `n` tries at `p` is rewritable.
pub open spec fn tries_rewritable(b: Seq<u8>, p: int, n: nat) -> bool
    decreases n,
{
    if n == 0 {
        true
    } else {
        &&& tries_rewritable(b, p, (n - 1) as nat)
        &&& parse_tries(b, p, (n - 1) as nat) is Some
        &&& trie_rewritable(b, parse_tries(b, p, (n - 1) as nat).unwrap().1)
    }
}

proof fn lemma_tries_bytes_prefix(t0: Seq<TrieView>, ts: Seq<TrieView>, m: int)
    requires
        0 <= m <= t0.len() <= ts.len(),
        forall|i: int| 0 <= i < t0.len() ==> ts[i] == t0[i],
    ensures
        tries_bytes(ts, m) == tries_bytes(t0, m),
    decreases m,
{
    if m > 0 {
        assert(ts[m - 1] == t0[m - 1]);
        lemma_tries_bytes_prefix(t0, ts, m - 1);
    }
}

proof fn lemma_tries_back(b: Seq<u8>, p: int, n: nat)
    requires
        0 <= p <= b.len(),
        parse_tries(b, p, n) is Some,
        tries_rewritable(b, p, n),
    ensures
        parse_tries(b, p, n).unwrap().0.len() == n,
        p <= parse_tries(b, p, n).unwrap().1 <= b.len(),
        b.subrange(p, parse_tries(b, p, n).unwrap().1) == tries_bytes(
            parse_tries(b, p, n).unwrap().0,
            n as int,
        ),
        forall|t: int| 0 <= t < n ==> trie_fits(#[trigger] parse_tries(b, p, n).unwrap().0[t]),
    decreases n,
{
    let (ts, q) = parse_tries(b, p, n).unwrap();
    if n == 0 {
        assert(b.subrange(p, p) =~= Seq::<u8>::empty());
    } else {
        let m = (n - 1) as nat;
        let (t0, q0) = parse_tries(b, p, m).unwrap();
        let (x, q1) = parse_trie(b, q0).unwrap();
        assert(ts == t0.push(x) && q == q1);
        lemma_tries_back(b, p, m);
        lemma_trie_rewrites_bytes(b, q0);
        let (_, q2) = parse_trie_fields(b, q0).unwrap();
        assert(q1 == q2);
        lemma_trie_end(b, q0);
        lemma_tries_bytes_prefix(t0, ts, m as int);
        assert(ts[m as int] == x);
        assert(b.subrange(p, q) =~= b.subrange(p, q0) + b.subrange(q0, q));
        assert forall|t: int| 0 <= t < n implies trie_fits(#[trigger] ts[t]) by {
            if t < m {
                assert(ts[t] == t0[t]);
            }
        }
    }
}

/// A trie that reads ends within the bytes, after its start.
proof fn lemma_trie_end(b: Seq<u8>, p: int)
    requires
        0 <= p,
        parse_trie(b, p) is Some,
    ensures
        p <= parse_trie(b, p).unwrap().1 <= b.len(),
{
    let (root, p2) = parse_u32(b, p + 1).unwrap();
    let (nc, p3) = parse_u32(b, p2).unwrap();
    let (cmds, p4) = parse_strings(b, p3, nc as nat).unwrap();
    let (nr, p5) = parse_u32(b, p4).unwrap();
    lemma_strings_end(b, p3, nc as nat);
    lemma_rows_end(b, p5, nr as nat);
}

proof fn lemma_strings_end(b: Seq<u8>, p: int, n: nat)
    requires
        0 <= p <= b.len(),
        parse_strings(b, p, n) is Some,
    ensures
        p <= parse_strings(b, p, n).unwrap().1 <= b.len(),
    decreases n,
{
    if n > 0 {
        lemma_strings_end(b, p, (n - 1) as nat);
    }
}

proof fn lemma_rows_end(b: Seq<u8>, p: int, n: nat)
    requires
        0 <= p <= b.len(),
        parse_rows(b, p, n) is Some,
    ensures
        p <= parse_rows(b, p, n).unwrap().1 <= b.len(),
    decreases n,
{
    if n > 0 {
        lemma_rows_end(b, p, (n - 1) as nat);
        let q0 = parse_rows(b, p, (n - 1) as nat).unwrap().1;
        let (k, qk) = parse_u32(b, q0).unwrap();
        lemma_entries_end(b, qk, k as nat);
    }
}

proof fn lemma_entries_end(b: Seq<u8>, p: int, n: nat)
    requires
        0 <= p <= b.len(),
        parse_entries(b, p, n) is Some,
    ensures
        p <= parse_entries(b, p, n).unwrap().1 <= b.len(),
    decreases n,
{
    if n > 0 {
        lemma_entries_end(b, p, (n - 1) as nat);
    }
}

/// Bytes that read as a multi-trie whose direction byte is 0 or 1 and whose
/// tries are all rewritable are exactly what the writer writes for it.
pub proof fn lemma_multi_rewrites_bytes(b: Seq<u8>, p: int)
    requires
        0 <= p,
        parse_multi(b, p) is Some,
        b[p] <= 1,
        tries_rewritable(
            b,
            p + 9,
            parse_u32(b, p + 5).unwrap().0 as nat,
        ),
    ensures
        multi_fits(parse_multi(b, p).unwrap().0),
        b.subrange(p, parse_multi(b, p).unwrap().1) == multi_bytes(parse_multi(b, p).unwrap().0),
{
    let (mv, q) = parse_multi(b, p).unwrap();
    let (by, p2) = parse_raw32(b, p + 1).unwrap();
    let (n, p3) = parse_u32(b, p2).unwrap();
    lemma_raw32_back(b, p + 1);
    lemma_raw32_back(b, p2);
    lemma_tries_back(b, p3, n as nat);
    assert(bits32(signed32(by) as i32) == by);
    assert(b.subrange(p, p + 1) =~= bool_bytes(mv.forward));
    assert((mv.tries.len() as u32) == n);
    assert(b.subrange(p, q) =~= b.subrange(p, p + 1) + b.subrange(p + 1, p2) + b.subrange(p2, p3)
        + b.subrange(p3, q));
}

/// Bytes that read as a whole table, with nothing after it, whose method
/// string is stored in its one modified UTF-8 form and whose trie or
/// multi-trie is rewritable, are exactly what the writer writes for that
/// table: reading such a table and writing it again gives the same bytes.
pub proof fn lemma_table_rewrites_bytes(b: Seq<u8>)
    requires
        parse_string(b, 0) is Some,
        stored_canonically(parse_string(b, 0).unwrap().0),
        parse_table(b) is Some,
        ({
            let q = parse_string(b, 0).unwrap().1;
            match parse_table(b).unwrap().1 {
                TableView::Single(_) => trie_rewritable(b, q) && parse_trie(b, q).unwrap().1 == b.len(),
                TableView::Multi(_) => 0 <= q < b.len() && b[q] <= 1 && tries_rewritable(
                    b,
                    q + 9,
                    parse_u32(b, q + 5).unwrap().0 as nat,
                ) && parse_multi(b, q).unwrap().1 == b.len(),
            }
        }),
    ensures
        table_fits(parse_table(b).unwrap().0, parse_table(b).unwrap().1),
        table_bytes(parse_table(b).unwrap().0, parse_table(b).unwrap().1) == b,
{
    let (m, t) = parse_table(b).unwrap();
    let q = parse_string(b, 0).unwrap().1;
    lemma_string_back(b, 0);
    match t {
        TableView::Single(x) => {
            lemma_trie_rewrites_bytes(b, q);
        },
        TableView::Multi(x) => {
            lemma_multi_rewrites_bytes(b, q);
        },
    }
    assert(b =~= b.subrange(0, q) + b.subrange(q, b.len() as int));
}

} // verus!
