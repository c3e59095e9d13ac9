//! The on-disk table format: what each structure's bytes are, and the readers
//! and writers that follow it.
use vstd::prelude::*;

use crate::data::{
    be32_bytes, bits32, bool_bytes, char_bytes, char_fits_u16, java_cesu8_encode, parse_bool,
    parse_char, parse_raw32, parse_string, parse_u32, parse_u32_opt, signed32, string_bytes,
    text_round_trips, u32_opt_bytes, DataError, DataInput, DataOutput, I32_MAX,
};
use crate::edit::{is_sentinel, pairs_valid, valid_cmd, valid_pair, MAX_CMD_LEN};
use crate::multitrie::{MultiTrie, MultiTrie2, MultiView};
use crate::stemmer::{Stemmer, Table, TableView};
use crate::text::chars_of;
use crate::trie::{below, Cell, Row, RowView, Trie, TrieView};

verus! {

/// The cell at `p`: command index, count, next-row index, skip.
pub open spec fn parse_cell(b: Seq<u8>, p: int) -> Option<(Cell, int)> {
    match parse_u32_opt(b, p) {
        None => None,
        Some((cmd, p1)) => match parse_u32(b, p1) {
            None => None,
            Some((cnt, p2)) => match parse_u32_opt(b, p2) {
                None => None,
                Some((refr, p3)) => match parse_u32(b, p3) {
                    None => None,
                    Some((skip, p4)) => Some((Cell { refr, cmd, cnt, skip }, p4)),
                },
            },
        },
    }
}

/// The bytes of a cell.
pub open spec fn cell_bytes(c: Cell) -> Seq<u8> {
    u32_opt_bytes(c.cmd) + be32_bytes(c.cnt) + u32_opt_bytes(c.refr) + be32_bytes(c.skip)
}

/// `n` row entries at `p`, each a character and a cell, the characters
/// strictly ascending.
pub open spec fn parse_entries(b: Seq<u8>, p: int, n: nat) -> Option<(RowView, int)>
    decreases n,
{
    if n == 0 {
        Some((RowView { chars: Seq::empty(), cells: Seq::empty() }, p))
    } else {
        match parse_entries(b, p, (n - 1) as nat) {
            None => None,
            Some((r, q)) => match parse_char(b, q) {
                None => None,
                Some((ch, q1)) => match parse_cell(b, q1) {
                    None => None,
                    Some((cell, q2)) => if r.chars.len() > 0 && ch <= r.chars.last() {
                        None
                    } else {
                        Some((RowView { chars: r.chars.push(ch), cells: r.cells.push(cell) }, q2))
                    },
                },
            },
        }
    }
}

/// The row at `p`: a count, then that many entries.
pub open spec fn parse_row(b: Seq<u8>, p: int) -> Option<(RowView, int)> {
    match parse_u32(b, p) {
        None => None,
        Some((n, q)) => parse_entries(b, q, n as nat),
    }
}

/// The bytes of the used entries among the first `n` of a row.
pub open spec fn entries_bytes(r: RowView, n: int) -> Seq<u8>
    decreases n,
{
    if n <= 0 {
        Seq::empty()
    } else if r.cells[n - 1].used() {
        entries_bytes(r, n - 1) + char_bytes(r.chars[n - 1]) + cell_bytes(r.cells[n - 1])
    } else {
        entries_bytes(r, n - 1)
    }
}

/// The number of used cells among the first `n` of `cells`.
pub open spec fn used_count(cells: Seq<Cell>, n: int) -> int
    decreases n,
{
    if n <= 0 {
        0
    } else {
        used_count(cells, n - 1) + if cells[n - 1].used() {
            1int
        } else {
            0int
        }
    }
}

/// The bytes of a row: the number of used cells, then the used entries in
/// ascending character order.
pub open spec fn row_bytes(r: RowView) -> Seq<u8> {
    be32_bytes(used_count(r.cells, r.cells.len() as int) as u32) + entries_bytes(
        r,
        r.cells.len() as int,
    )
}

/// Once the first `k` entries fail to parse, so do the first `m >= k`.
proof fn lemma_entries_fail(b: Seq<u8>, p: int, k: nat, m: nat)
    requires
        k <= m,
        parse_entries(b, p, k) is None,
    ensures
        parse_entries(b, p, m) is None,
    decreases m,
{
    if m > k {
        lemma_entries_fail(b, p, k, (m - 1) as nat);
    }
}

proof fn lemma_strings_fail(b: Seq<u8>, p: int, k: nat, m: nat)
    requires
        k <= m,
        parse_strings(b, p, k) is None,
    ensures
        parse_strings(b, p, m) is None,
    decreases m,
{
    if m > k {
        lemma_strings_fail(b, p, k, (m - 1) as nat);
    }
}

proof fn lemma_rows_fail(b: Seq<u8>, p: int, k: nat, m: nat)
    requires
        k <= m,
        parse_rows(b, p, k) is None,
    ensures
        parse_rows(b, p, m) is None,
    decreases m,
{
    if m > k {
        lemma_rows_fail(b, p, k, (m - 1) as nat);
    }
}

proof fn lemma_tries_fail(b: Seq<u8>, p: int, k: nat, m: nat)
    requires
        k <= m,
        parse_tries(b, p, k) is None,
    ensures
        parse_tries(b, p, m) is None,
    decreases m,
{
    if m > k {
        lemma_tries_fail(b, p, k, (m - 1) as nat);
    }
}

/// Parsed tries are well formed.
proof fn lemma_tries_wf(b: Seq<u8>, p: int, n: nat)
    ensures
        parse_tries(b, p, n) matches Some((ts, _)) ==> forall|t: int|
            0 <= t < ts.len() ==> #[trigger] ts[t].wf(),
    decreases n,
{
    if n > 0 {
        lemma_tries_wf(b, p, (n - 1) as nat);
    }
}

/// Parsed rows are well formed.
proof fn lemma_rows_wf(b: Seq<u8>, p: int, n: nat)
    ensures
        parse_rows(b, p, n) matches Some((rs, _)) ==> forall|r: int|
            0 <= r < rs.len() ==> #[trigger] rs[r].wf(),
    decreases n,
{
    if n > 0 {
        lemma_rows_wf(b, p, (n - 1) as nat);
        match parse_rows(b, p, (n - 1) as nat) {
            Some((rs, q)) => {
                match parse_row(b, q) {
                    Some((x, _)) => {
                        match parse_u32(b, q) {
                            Some((k, q1)) => lemma_entries_wf(b, q1, k as nat),
                            None => {},
                        }
                    },
                    None => {},
                }
            },
            None => {},
        }
    }
}

/// Parsed entries form a well-formed row.
pub proof fn lemma_entries_wf(b: Seq<u8>, p: int, n: nat)
    ensures
        parse_entries(b, p, n) matches Some((r, _)) ==> r.wf(),
    decreases n,
{
    if n > 0 {
        lemma_entries_wf(b, p, (n - 1) as nat);
    }
}

/// `n` strings at `p`.
pub open spec fn parse_strings(b: Seq<u8>, p: int, n: nat) -> Option<(Seq<Seq<char>>, int)>
    decreases n,
{
    if n == 0 {
        Some((Seq::empty(), p))
    } else {
        match parse_strings(b, p, (n - 1) as nat) {
            None => None,
            Some((ss, q)) => match parse_string(b, q) {
                None => None,
                Some((x, q1)) => Some((ss.push(x), q1)),
            },
        }
    }
}

/// `n` rows at `p`.
pub open spec fn parse_rows(b: Seq<u8>, p: int, n: nat) -> Option<(Seq<RowView>, int)>
    decreases n,
{
    if n == 0 {
        Some((Seq::empty(), p))
    } else {
        match parse_rows(b, p, (n - 1) as nat) {
            None => None,
            Some((rs, q)) => match parse_row(b, q) {
                None => None,
                Some((x, q1)) => Some((rs.push(x), q1)),
            },
        }
    }
}

/// The rest of a trie after its command strings: the rows, after their
/// count.
pub open spec fn trie_after_cmds(
    b: Seq<u8>,
    forward: bool,
    root: u32,
    cmds: Seq<Seq<char>>,
    p: int,
) -> Option<(TrieView, int)> {
    match parse_u32(b, p) {
        None => None,
        Some((nr, p1)) => match parse_rows(b, p1, nr as nat) {
            None => None,
            Some((rows, p2)) => Some((TrieView { rows, cmds, root, forward }, p2)),
        },
    }
}

/// The rest of a trie after its header: `nc` command strings, then the rows.
pub open spec fn trie_after_header(b: Seq<u8>, forward: bool, root: u32, nc: nat, p: int) -> Option<
    (TrieView, int),
> {
    match parse_strings(b, p, nc) {
        None => None,
        Some((cmds, p1)) => trie_after_cmds(b, forward, root, cmds, p1),
    }
}

/// The fields of a trie at `p`: direction, root, the command strings and
/// the rows, each list after its count.
pub open spec fn parse_trie_fields(b: Seq<u8>, p: int) -> Option<(TrieView, int)> {
    match parse_bool(b, p) {
        None => None,
        Some((forward, p1)) => match parse_u32(b, p1) {
            None => None,
            Some((root, p2)) => match parse_u32(b, p2) {
                None => None,
                Some((nc, p3)) => trie_after_header(b, forward, root, nc as nat, p3),
            },
        },
    }
}

/// The trie at `p`, which must be well formed.
pub open spec fn parse_trie(b: Seq<u8>, p: int) -> Option<(TrieView, int)> {
    match parse_trie_fields(b, p) {
        Some((t, q)) => if t.wf() {
            Some((t, q))
        } else {
            None
        },
        None => None,
    }
}

/// `n` tries at `p`.
pub open spec fn parse_tries(b: Seq<u8>, p: int, n: nat) -> Option<(Seq<TrieView>, int)>
    decreases n,
{
    if n == 0 {
        Some((Seq::empty(), p))
    } else {
        match parse_tries(b, p, (n - 1) as nat) {
            None => None,
            Some((ts, q)) => match parse_trie(b, q) {
                None => None,
                Some((x, q1)) => Some((ts.push(x), q1)),
            },
        }
    }
}

/// The multi-trie at `p`: direction, step, then a count and that many tries.
pub open spec fn parse_multi(b: Seq<u8>, p: int) -> Option<(MultiView, int)> {
    match parse_bool(b, p) {
        None => None,
        Some((forward, p1)) => match parse_raw32(b, p1) {
            None => None,
            Some((by, p2)) => match parse_u32(b, p2) {
                None => None,
                Some((n, p3)) => match parse_tries(b, p3, n as nat) {
                    None => None,
                    Some((tries, p4)) => Some(
                        (MultiView { tries, forward, by: signed32(by) as i32 }, p4),
                    ),
                },
            },
        },
    }
}

/// A method string naming a multi-trie holds an `M` or an `m`.
pub open spec fn names_multi(m: Seq<char>) -> bool {
    exists|i: int| 0 <= i < m.len() && (m[i] == 'M' || m[i] == 'm')
}

/// A table: its method string, then a multi-trie if the method names one,
/// else a single trie.
pub open spec fn parse_table(b: Seq<u8>) -> Option<(Seq<char>, TableView)> {
    match parse_string(b, 0) {
        None => None,
        Some((m, q)) => if names_multi(m) {
            match parse_multi(b, q) {
                Some((t, _)) => Some((m, TableView::Multi(t))),
                None => None,
            }
        } else {
            match parse_trie(b, q) {
                Some((t, _)) => Some((m, TableView::Single(t))),
                None => None,
            }
        },
    }
}

/// Whether the method string names a multi-trie.
pub fn is_multi_method(m: &str) -> (r: bool)
    ensures
        r == names_multi(m@),
{
    let cs = chars_of(m);
    let mut i: usize = 0;
    while i < cs.len()
        invariant
            cs@ == m@,
            i <= cs@.len(),
            forall|j: int| 0 <= j < i ==> !(cs@[j] == 'M' || cs@[j] == 'm'),
        decreases cs@.len() - i,
    {
        if cs[i] == 'M' || cs[i] == 'm' {
            return true;
        }
        i = i + 1;
    }
    false
}

/// Whether `c` is a command string that a table may hold.
pub fn is_valid_cmd(c: &str) -> (r: bool)
    ensures
        r == valid_cmd(c@),
{
    let cs = chars_of(c);
    if cs.len() > MAX_CMD_LEN {
        return false;
    }
    if cs.len() == 1 && cs[0] == '*' {
        assert(cs@ =~= seq!['*']);
        return true;
    }
    assert(!is_sentinel(cs@));
    let mut i: usize = 0;
    assert(cs@.subrange(0, cs@.len() as int) == cs@);
    while cs.len() - i >= 2
        invariant
            cs@ == c@,
            i <= cs@.len(),
            pairs_valid(cs@) == pairs_valid(cs@.subrange(i as int, cs@.len() as int)),
        decreases cs@.len() - i,
    {
        assert(cs@.subrange(i as int, cs@.len() as int).subrange(2, cs@.len() - i)
            == cs@.subrange(i + 2, cs@.len() as int));
        let op = cs[i];
        let arg = cs[i + 1];
        let ok = ((op == '-' || op == 'D') && 'a' <= arg && arg <= 'z') || op == 'R' || op == 'I';
        assert(ok == valid_pair(op, arg));
        if !ok {
            return false;
        }
        i = i + 2;
    }
    true
}

/// An optional index that the format can hold.
pub open spec fn opt_fits(x: Option<u32>) -> bool {
    match x {
        Some(v) => v <= I32_MAX,
        None => true,
    }
}

/// A cell whose fields the format can hold.
pub open spec fn cell_fits(c: Cell) -> bool {
    opt_fits(c.cmd) && c.cnt <= I32_MAX && opt_fits(c.refr) && c.skip <= I32_MAX
}

/// A row whose used entries the format can hold.
pub open spec fn row_fits(r: RowView) -> bool {
    &&& used_count(r.cells, r.cells.len() as int) <= I32_MAX
    &&& forall|i: int|
        0 <= i < r.cells.len() && #[trigger] r.cells[i].used() ==> char_fits_u16(r.chars[i])
            && cell_fits(r.cells[i])
}

/// The bytes of the first `n` strings.
pub open spec fn strings_bytes(ss: Seq<Seq<char>>, n: int) -> Seq<u8>
    decreases n,
{
    if n <= 0 {
        Seq::empty()
    } else {
        strings_bytes(ss, n - 1) + string_bytes(ss[n - 1])
    }
}

/// The bytes of the first `n` rows.
pub open spec fn rows_bytes(rs: Seq<RowView>, n: int) -> Seq<u8>
    decreases n,
{
    if n <= 0 {
        Seq::empty()
    } else {
        rows_bytes(rs, n - 1) + row_bytes(rs[n - 1])
    }
}

/// A trie whose fields the format can hold.
pub open spec fn trie_fits(t: TrieView) -> bool {
    &&& t.root <= I32_MAX
    &&& t.cmds.len() <= I32_MAX
    &&& t.rows.len() <= I32_MAX
    &&& forall|c: int| 0 <= c < t.cmds.len() ==> java_cesu8_encode(#[trigger] t.cmds[c]).len() <= 0xFFFF
    &&& forall|r: int| 0 <= r < t.rows.len() ==> row_fits(#[trigger] t.rows[r])
}

/// The bytes of a trie.
pub open spec fn trie_bytes(t: TrieView) -> Seq<u8> {
    bool_bytes(t.forward) + be32_bytes(t.root) + be32_bytes(t.cmds.len() as u32) + strings_bytes(
        t.cmds,
        t.cmds.len() as int,
    ) + be32_bytes(t.rows.len() as u32) + rows_bytes(t.rows, t.rows.len() as int)
}

/// The bytes of the first `n` tries.
pub open spec fn tries_bytes(ts: Seq<TrieView>, n: int) -> Seq<u8>
    decreases n,
{
    if n <= 0 {
        Seq::empty()
    } else {
        tries_bytes(ts, n - 1) + trie_bytes(ts[n - 1])
    }
}

/// A multi-trie whose fields the format can hold.
pub open spec fn multi_fits(m: MultiView) -> bool {
    &&& m.tries.len() <= I32_MAX
    &&& forall|t: int| 0 <= t < m.tries.len() ==> trie_fits(#[trigger] m.tries[t])
}

/// The bytes of a multi-trie.
pub open spec fn multi_bytes(m: MultiView) -> Seq<u8> {
    bool_bytes(m.forward) + be32_bytes(bits32(m.by)) + be32_bytes(m.tries.len() as u32)
        + tries_bytes(m.tries, m.tries.len() as int)
}

/// A table that the format can hold.
pub open spec fn table_fits(method: Seq<char>, t: TableView) -> bool {
    &&& java_cesu8_encode(method).len() <= 0xFFFF
    &&& match t {
        TableView::Single(x) => trie_fits(x),
        TableView::Multi(m) => multi_fits(m),
    }
}

/// Every command string of the trie survives its modified UTF-8 form.
pub open spec fn trie_texts(t: TrieView) -> bool {
    forall|c: int| 0 <= c < t.cmds.len() ==> text_round_trips(#[trigger] t.cmds[c])
}

/// Every text of the table survives its modified UTF-8 form.
pub open spec fn table_texts(method: Seq<char>, t: TableView) -> bool {
    &&& text_round_trips(method)
    &&& match t {
        TableView::Single(x) => trie_texts(x),
        TableView::Multi(m) => forall|i: int| 0 <= i < m.tries.len() ==> trie_texts(#[trigger] m.tries[i]),
    }
}

/// The bytes of a table with its method string.
pub open spec fn table_bytes(method: Seq<char>, t: TableView) -> Seq<u8> {
    string_bytes(method) + match t {
        TableView::Single(x) => trie_bytes(x),
        TableView::Multi(m) => multi_bytes(m),
    }
}

/// A value with a binary form in the table format that can be read.
pub trait JavaDeserialize: Sized {
    /// The bytes at `p` read as `v`, ending at `q`.
    spec fn reads_as(b: Seq<u8>, p: int, v: Self, q: int) -> bool;

    /// The bytes at `p` hold a well-formed value.
    spec fn readable(b: Seq<u8>, p: int) -> bool;

    /// Reads a value at the reader's position.
    fn deserialize(input: &mut DataInput) -> (r: Result<Self, DataError>)
        ensures
            final(input).bytes@ == old(input).bytes@,
            r is Ok <==> Self::readable(old(input).bytes@, old(input).pos as int),
            r matches Ok(v) ==> Self::reads_as(
                old(input).bytes@,
                old(input).pos as int,
                v,
                final(input).pos as int,
            ),
    ;
}

/// A value with a binary form in the table format that can be written.
pub trait JavaSerialize {
    /// The value is well formed.
    spec fn ready(&self) -> bool;

    /// The format can hold the value.
    spec fn fits(&self) -> bool;

    /// The value's bytes.
    spec fn bytes(&self) -> Seq<u8>;

    /// Appends the value's bytes to the writer.
    fn serialize(&self, out: &mut DataOutput) -> (r: Result<(), DataError>)
        requires
            self.ready(),
        ensures
            r is Ok <==> self.fits(),
            r is Ok ==> final(out).bytes@ == old(out).bytes@ + self.bytes(),
    ;
}

impl DataInput {
    /// Reads a value of any type with a binary form.
    pub fn read<T: JavaDeserialize>(&mut self) -> (r: Result<T, DataError>)
        ensures
            final(self).bytes@ == old(self).bytes@,
            r is Ok <==> T::readable(old(self).bytes@, old(self).pos as int),
            r matches Ok(v) ==> T::reads_as(old(self).bytes@, old(self).pos as int, v, final(self).pos as int),
    {
        T::deserialize(self)
    }
}

impl DataOutput {
    /// Writes a value of any type with a binary form.
    pub fn write<T: JavaSerialize>(&mut self, data: &T) -> (r: Result<(), DataError>)
        requires
            data.ready(),
        ensures
            r is Ok <==> data.fits(),
            r is Ok ==> final(self).bytes@ == old(self).bytes@ + data.bytes(),
    {
        data.serialize(self)
    }
}

impl JavaDeserialize for Cell {
    open spec fn reads_as(b: Seq<u8>, p: int, v: Cell, q: int) -> bool {
        parse_cell(b, p) == Some((v, q))
    }

    open spec fn readable(b: Seq<u8>, p: int) -> bool {
        parse_cell(b, p) is Some
    }

    fn deserialize(input: &mut DataInput) -> (r: Result<Cell, DataError>) {
        Cell::deserialize(input)
    }
}

impl JavaSerialize for Cell {
    open spec fn ready(&self) -> bool {
        true
    }

    open spec fn fits(&self) -> bool {
        cell_fits(*self)
    }

    open spec fn bytes(&self) -> Seq<u8> {
        cell_bytes(*self)
    }

    fn serialize(&self, out: &mut DataOutput) -> (r: Result<(), DataError>) {
        Cell::serialize(self, out)
    }
}

impl JavaDeserialize for Row {
    open spec fn reads_as(b: Seq<u8>, p: int, v: Row, q: int) -> bool {
        parse_row(b, p) == Some((v@, q))
    }

    open spec fn readable(b: Seq<u8>, p: int) -> bool {
        parse_row(b, p) is Some
    }

    fn deserialize(input: &mut DataInput) -> (r: Result<Row, DataError>) {
        Row::deserialize(input)
    }
}

impl JavaSerialize for Row {
    open spec fn ready(&self) -> bool {
        self.wf()
    }

    open spec fn fits(&self) -> bool {
        row_fits(self@)
    }

    open spec fn bytes(&self) -> Seq<u8> {
        row_bytes(self@)
    }

    fn serialize(&self, out: &mut DataOutput) -> (r: Result<(), DataError>) {
        Row::serialize(self, out)
    }
}

impl JavaDeserialize for Trie {
    open spec fn reads_as(b: Seq<u8>, p: int, v: Trie, q: int) -> bool {
        parse_trie(b, p) == Some((v@, q))
    }

    open spec fn readable(b: Seq<u8>, p: int) -> bool {
        parse_trie(b, p) is Some
    }

    fn deserialize(input: &mut DataInput) -> (r: Result<Trie, DataError>) {
        Trie::deserialize(input)
    }
}

impl JavaSerialize for Trie {
    open spec fn ready(&self) -> bool {
        self.wf()
    }

    open spec fn fits(&self) -> bool {
        trie_fits(self@)
    }

    open spec fn bytes(&self) -> Seq<u8> {
        trie_bytes(self@)
    }

    fn serialize(&self, out: &mut DataOutput) -> (r: Result<(), DataError>) {
        Trie::serialize(self, out)
    }
}

impl JavaDeserialize for MultiTrie {
    open spec fn reads_as(b: Seq<u8>, p: int, v: MultiTrie, q: int) -> bool {
        parse_multi(b, p) == Some((v@, q))
    }

    open spec fn readable(b: Seq<u8>, p: int) -> bool {
        parse_multi(b, p) is Some
    }

    fn deserialize(input: &mut DataInput) -> (r: Result<MultiTrie, DataError>) {
        MultiTrie::deserialize(input)
    }
}

impl JavaSerialize for MultiTrie {
    open spec fn ready(&self) -> bool {
        self.wf()
    }

    open spec fn fits(&self) -> bool {
        multi_fits(self@)
    }

    open spec fn bytes(&self) -> Seq<u8> {
        multi_bytes(self@)
    }

    fn serialize(&self, out: &mut DataOutput) -> (r: Result<(), DataError>) {
        MultiTrie::serialize(self, out)
    }
}

impl JavaDeserialize for MultiTrie2 {
    open spec fn reads_as(b: Seq<u8>, p: int, v: MultiTrie2, q: int) -> bool {
        parse_multi(b, p) == Some((v@, q))
    }

    open spec fn readable(b: Seq<u8>, p: int) -> bool {
        parse_multi(b, p) is Some
    }

    fn deserialize(input: &mut DataInput) -> (r: Result<MultiTrie2, DataError>) {
        MultiTrie2::deserialize(input)
    }
}

impl JavaSerialize for MultiTrie2 {
    open spec fn ready(&self) -> bool {
        self.wf()
    }

    open spec fn fits(&self) -> bool {
        multi_fits(self@)
    }

    open spec fn bytes(&self) -> Seq<u8> {
        multi_bytes(self@)
    }

    fn serialize(&self, out: &mut DataOutput) -> (r: Result<(), DataError>) {
        MultiTrie2::serialize(self, out)
    }
}

impl Cell {
    /// Writes a cell; one with a field above Java's `int` range is invalid.
    pub fn serialize(&self, out: &mut DataOutput) -> (r: Result<(), DataError>)
        ensures
            r is Ok <==> cell_fits(*self),
            r is Ok ==> final(out).bytes@ == old(out).bytes@ + cell_bytes(*self),
    {
        out.write_u32_opt(self.cmd)?;
        out.write_u32(self.cnt)?;
        out.write_u32_opt(self.refr)?;
        out.write_u32(self.skip)?;
        assert(final(out).bytes@ =~= old(out).bytes@ + cell_bytes(*self));
        Ok(())
    }

    /// Reads a cell.
    pub fn deserialize(input: &mut DataInput) -> (r: Result<Cell, DataError>)
        ensures
            final(input).bytes@ == old(input).bytes@,
            match parse_cell(old(input).bytes@, old(input).pos as int) {
                Some((c, q)) => r == Ok::<Cell, DataError>(c) && final(input).pos == q,
                None => r is Err,
            },
    {
        let cmd = input.read_u32_opt()?;
        let cnt = input.read_u32()?;
        let refr = input.read_u32_opt()?;
        let skip = input.read_u32()?;
        Ok(Cell { refr, cmd, cnt, skip })
    }
}

/// `used_count` counts the used cells.
pub proof fn lemma_used_count_is_count(cells: Seq<Cell>, n: int)
    ensures
        used_count(cells, n) == crate::trie::count_cells(cells, n, |c: Cell| c.used()),
    decreases n,
{
    if n > 0 {
        lemma_used_count_is_count(cells, n - 1);
    }
}

impl Row {
    /// The number of cells in use.
    pub fn num_used_cells(&self) -> (r: usize)
        ensures
            r == used_count(self.cells@, self.cells@.len() as int),
    {
        let mut k: usize = 0;
        let mut i: usize = 0;
        while i < self.cells.len()
            invariant
                i <= self.cells@.len(),
                k <= i,
                k == used_count(self.cells@, i as int),
            decreases self.cells@.len() - i,
        {
            if self.cells[i].is_used() {
                k = k + 1;
            }
            i = i + 1;
        }
        k
    }

    /// Writes the row: the number of used cells, then the used entries in
    /// ascending character order.
    pub fn serialize(&self, out: &mut DataOutput) -> (r: Result<(), DataError>)
        requires
            self.wf(),
        ensures
            r is Ok <==> row_fits(self@),
            r is Ok ==> final(out).bytes@ == old(out).bytes@ + row_bytes(self@),
    {
        let used = self.num_used_cells();
        out.write_usize(used)?;
        let ghost start = out.bytes@;
        let mut i: usize = 0;
        while i < self.cells.len()
            invariant
                self.wf(),
                used == used_count(self.cells@, self.cells@.len() as int),
                used <= I32_MAX,
                start == old(out).bytes@ + be32_bytes(used as u32),
                i <= self.cells@.len(),
                out.bytes@ == start + entries_bytes(self@, i as int),
                forall|j: int|
                    0 <= j < i && #[trigger] self@.cells[j].used() ==> char_fits_u16(self@.chars[j])
                        && cell_fits(self@.cells[j]),
            decreases self.cells@.len() - i,
        {
            let cell = &self.cells[i];
            if cell.is_used() {
                let ghost before = out.bytes@;
                match out.write_char(self.chars[i]) {
                    Ok(()) => {},
                    Err(e) => {
                        assert(self@.cells[i as int].used());
                        return Err(e);
                    },
                }
                match cell.serialize(out) {
                    Ok(()) => {},
                    Err(e) => {
                        assert(self@.cells[i as int].used());
                        return Err(e);
                    },
                }
                assert(out.bytes@ =~= start + entries_bytes(self@, i + 1));
            }
            i = i + 1;
        }
        assert(self@.cells.len() == self.cells@.len());
        Ok(())
    }

    /// Reads a row; its characters must be strictly ascending.
    pub fn deserialize(input: &mut DataInput) -> (r: Result<Row, DataError>)
        ensures
            final(input).bytes@ == old(input).bytes@,
            match parse_row(old(input).bytes@, old(input).pos as int) {
                Some((v, q)) => r matches Ok(row) && row@ == v && row.uniform_count == 0
                    && row.uniform_skip == 0 && final(input).pos == q,
                None => r is Err,
            },
    {
        let n = input.read_usize()?;
        let ghost q0 = input.pos as int;
        let mut row = Row::new();
        let mut i: usize = 0;
        while i < n
            invariant
                input.bytes@ == old(input).bytes@,
                parse_row(old(input).bytes@, old(input).pos as int) == parse_entries(
                    input.bytes@,
                    q0,
                    n as nat,
                ),
                i <= n,
                row.uniform_count == 0,
                row.uniform_skip == 0,
                parse_entries(input.bytes@, q0, i as nat) == Some((row@, input.pos as int)),
            decreases n - i,
        {
            let ghost prev = row@;
            let ghost p = input.pos as int;
            let ch = match input.read_char() {
                Ok(c) => c,
                Err(e) => {
                    proof {
                        lemma_entries_fail(input.bytes@, q0, (i + 1) as nat, n as nat);
                    }
                    return Err(e);
                },
            };
            let cell = match Cell::deserialize(input) {
                Ok(c) => c,
                Err(e) => {
                    proof {
                        lemma_entries_fail(input.bytes@, q0, (i + 1) as nat, n as nat);
                    }
                    return Err(e);
                },
            };
            let len = row.chars.len();
            if len > 0 && ch <= row.chars[len - 1] {
                proof {
                    lemma_entries_fail(input.bytes@, q0, (i + 1) as nat, n as nat);
                }
                return Err(DataError::InvalidData);
            }
            row.chars.push(ch);
            row.cells.push(cell);
            i = i + 1;
            assert(row@ =~= RowView { chars: prev.chars.push(ch), cells: prev.cells.push(cell) });
        }
        Ok(row)
    }
}

impl Trie {
    /// Writes the trie: direction, root, the command strings and the rows,
    /// each list after its count.
    pub fn serialize(&self, out: &mut DataOutput) -> (r: Result<(), DataError>)
        requires
            self.wf(),
        ensures
            r is Ok <==> trie_fits(self@),
            r is Ok ==> final(out).bytes@ == old(out).bytes@ + trie_bytes(self@) && trie_texts(
                self@,
            ),
    {
        let ghost v = self@;
        out.write_bool(self.forward);
        out.write_u32(self.root)?;
        out.write_usize(self.cmds.len())?;
        let ghost start = out.bytes@;
        let mut i: usize = 0;
        while i < self.cmds.len()
            invariant
                v == self@,
                v.cmds.len() == self.cmds@.len(),
                self.cmds@.len() <= I32_MAX,
                v.root <= I32_MAX,
                start == old(out).bytes@ + bool_bytes(v.forward) + be32_bytes(v.root) + be32_bytes(
                    v.cmds.len() as u32,
                ),
                i <= self.cmds@.len(),
                out.bytes@ == start + strings_bytes(v.cmds, i as int),
                forall|c: int|
                    0 <= c < i ==> java_cesu8_encode(#[trigger] v.cmds[c]).len() <= 0xFFFF
                        && text_round_trips(v.cmds[c]),
            decreases self.cmds@.len() - i,
        {
            assert(v.cmds[i as int] == self.cmds@[i as int]@);
            out.write_string(self.cmds[i].as_str())?;
            assert(out.bytes@ =~= start + strings_bytes(v.cmds, i + 1));
            i = i + 1;
        }
        match out.write_usize(self.rows.len()) {
            Ok(()) => {},
            Err(e) => {
                assert(v.rows.len() == self.rows@.len());
                return Err(e);
            },
        }
        let ghost start2 = out.bytes@;
        let mut j: usize = 0;
        while j < self.rows.len()
            invariant
                v == self@,
                v.wf(),
                v.rows.len() == self.rows@.len(),
                v.cmds.len() == self.cmds@.len(),
                self.rows@.len() <= I32_MAX,
                self.cmds@.len() <= I32_MAX,
                v.root <= I32_MAX,
                forall|c: int|
                    0 <= c < v.cmds.len() ==> java_cesu8_encode(#[trigger] v.cmds[c]).len()
                        <= 0xFFFF && text_round_trips(v.cmds[c]),
                start2 == old(out).bytes@ + bool_bytes(v.forward) + be32_bytes(v.root) + be32_bytes(
                    v.cmds.len() as u32,
                ) + strings_bytes(v.cmds, v.cmds.len() as int) + be32_bytes(v.rows.len() as u32),
                j <= self.rows@.len(),
                out.bytes@ == start2 + rows_bytes(v.rows, j as int),
                forall|r: int| 0 <= r < j ==> row_fits(#[trigger] v.rows[r]),
            decreases self.rows@.len() - j,
        {
            assert(v.rows[j as int] == self.rows@[j as int]@);
            assert(v.rows[j as int].wf());
            self.rows[j].serialize(out)?;
            assert(out.bytes@ =~= start2 + rows_bytes(v.rows, j + 1));
            j = j + 1;
        }
        assert(final(out).bytes@ =~= old(out).bytes@ + trie_bytes(v));
        Ok(())
    }

    /// Whether every next-row and command index points into the arena and
    /// the pool, the root is a row, and every command string is valid.
    pub fn check_indices(&self) -> (r: bool)
        requires
            forall|i: int| 0 <= i < self.rows@.len() ==> #[trigger] self.rows@[i]@.wf(),
        ensures
            r == self.wf(),
    {
        let nrows = self.rows.len();
        let ncmds = self.cmds.len();
        let ghost v = self@;
        assert(forall|i: int| 0 <= i < nrows ==> v.rows[i] == #[trigger] self.rows@[i]@);
        assert(forall|i: int| 0 <= i < ncmds ==> v.cmds[i] == #[trigger] self.cmds@[i]@);
        if nrows == 0 || self.root as usize >= nrows {
            return false;
        }
        assert(v.rows.len() == nrows && v.cmds.len() == ncmds);
        let mut c: usize = 0;
        while c < ncmds
            invariant
                v == self@,
                ncmds == self.cmds@.len(),
                c <= ncmds,
                forall|i: int| 0 <= i < ncmds ==> v.cmds[i] == #[trigger] self.cmds@[i]@,
                forall|j: int| 0 <= j < c ==> valid_cmd(#[trigger] v.cmds[j]),
            decreases ncmds - c,
        {
            if !is_valid_cmd(self.cmds[c].as_str()) {
                assert(!valid_cmd(v.cmds[c as int]));
                return false;
            }
            c = c + 1;
        }
        let mut r: usize = 0;
        while r < nrows
            invariant
                v == self@,
                nrows == self.rows@.len(),
                ncmds == self.cmds@.len(),
                v.rows.len() == nrows,
                v.cmds.len() == ncmds,
                r <= nrows,
                forall|i: int| 0 <= i < nrows ==> v.rows[i] == #[trigger] self.rows@[i]@,
                forall|j: int, i: int|
                    0 <= j < r && 0 <= i < v.rows[j].cells.len() ==> below(
                        #[trigger] v.rows[j].cells[i].refr,
                        nrows as int,
                    ),
                forall|j: int, i: int|
                    0 <= j < r && 0 <= i < v.rows[j].cells.len() ==> below(
                        #[trigger] v.rows[j].cells[i].cmd,
                        ncmds as int,
                    ),
            decreases nrows - r,
        {
            let row = &self.rows[r];
            let n = row.cells.len();
            let mut i: usize = 0;
            while i < n
                invariant
                    v == self@,
                    v.rows.len() == nrows,
                    v.cmds.len() == ncmds,
                    r < nrows,
                    row == &self.rows@[r as int],
                    v.rows[r as int] == row@,
                    n == row.cells@.len(),
                    nrows == self.rows@.len(),
                    ncmds == self.cmds@.len(),
                    i <= n,
                    forall|k: int| 0 <= k < i ==> below(#[trigger] row.cells@[k].refr, nrows as int),
                    forall|k: int| 0 <= k < i ==> below(#[trigger] row.cells@[k].cmd, ncmds as int),
                decreases n - i,
            {
                let cell = row.cells[i];
                match cell.refr {
                    Some(x) => {
                        if x as usize >= nrows {
                            assert(r < v.rows.len() && i < v.rows[r as int].cells.len());
                            assert(!below(v.rows[r as int].cells[i as int].refr, nrows as int));
                            return false;
                        }
                    },
                    None => {},
                }
                match cell.cmd {
                    Some(x) => {
                        if x as usize >= ncmds {
                            assert(r < v.rows.len() && i < v.rows[r as int].cells.len());
                            assert(v.cmds.len() == ncmds);
                            assert(!below(v.rows[r as int].cells[i as int].cmd, ncmds as int));
                            return false;
                        }
                    },
                    None => {},
                }
                i = i + 1;
            }
            r = r + 1;
        }
        true
    }

    /// Reads a trie; one whose indices do not point into its arena and pool,
    /// or whose command strings are not valid, is invalid.
    pub fn deserialize(input: &mut DataInput) -> (r: Result<Trie, DataError>)
        ensures
            final(input).bytes@ == old(input).bytes@,
            match parse_trie(old(input).bytes@, old(input).pos as int) {
                Some((v, q)) => r matches Ok(t) && t@ == v && final(input).pos == q,
                None => r is Err,
            },
    {
        let ghost b = input.bytes@;
        let ghost p0 = input.pos as int;
        let forward = input.read_bool()?;
        let root = input.read_u32()?;
        let nc = input.read_usize()?;
        let ghost p3 = input.pos as int;
        assert(parse_trie_fields(b, p0) == trie_after_header(b, forward, root, nc as nat, p3));
        let mut cmds: Vec<String> = Vec::new();
        let mut i: usize = 0;
        while i < nc
            invariant
                input.bytes@ == b,
                b == old(input).bytes@,
                p0 == old(input).pos as int,
                parse_trie_fields(b, p0) == trie_after_header(b, forward, root, nc as nat, p3),
                i <= nc,
                nc <= u32::MAX,
                parse_strings(b, p3, i as nat) == Some(
                    (cmds@.map_values(|c: String| c@), input.pos as int),
                ),
            decreases nc - i,
        {
            let ghost prev = cmds@.map_values(|c: String| c@);
            let x = match input.read_string() {
                Ok(x) => x,
                Err(e) => {
                    proof {
                        lemma_strings_fail(b, p3, (i + 1) as nat, nc as nat);
                    }
                    return Err(e);
                },
            };
            let ghost xv = x@;
            cmds.push(x);
            assert(cmds@.map_values(|c: String| c@) =~= prev.push(xv));
            i = i + 1;
        }
        let ghost cv = cmds@.map_values(|c: String| c@);
        assert(parse_trie_fields(b, p0) == trie_after_cmds(b, forward, root, cv, input.pos as int));
        let nr = match input.read_usize() {
            Ok(n) => n,
            Err(e) => {
                return Err(e);
            },
        };
        let ghost p5 = input.pos as int;
        let mut rows: Vec<Row> = Vec::new();
        let mut j: usize = 0;
        while j < nr
            invariant
                input.bytes@ == b,
                b == old(input).bytes@,
                p0 == old(input).pos as int,
                cv == cmds@.map_values(|c: String| c@),
                parse_trie_fields(b, p0) == (match parse_rows(b, p5, nr as nat) {
                    None => None,
                    Some((rows, p6)) => Some((TrieView { rows, cmds: cv, root, forward }, p6)),
                }),
                j <= nr,
                nr <= u32::MAX,
                parse_rows(b, p5, j as nat) == Some(
                    (rows@.map_values(|r: Row| r@), input.pos as int),
                ),
            decreases nr - j,
        {
            let ghost prev = rows@.map_values(|r: Row| r@);
            let x = match Row::deserialize(input) {
                Ok(x) => x,
                Err(e) => {
                    proof {
                        lemma_rows_fail(b, p5, (j + 1) as nat, nr as nat);
                    }
                    return Err(e);
                },
            };
            let ghost xv = x@;
            rows.push(x);
            assert(rows@.map_values(|r: Row| r@) =~= prev.push(xv));
            j = j + 1;
        }
        let t = Trie { rows, cmds, root, forward };
        proof {
            lemma_rows_wf(b, p5, nr as nat);
            assert(t@.rows == t.rows@.map_values(|r: Row| r@));
            assert forall|k: int| 0 <= k < t.rows@.len() implies #[trigger] t.rows@[k]@.wf() by {
                assert(t@.rows[k] == t.rows@[k]@);
            }
        }
        if !t.check_indices() {
            return Err(DataError::InvalidData);
        }
        Ok(t)
    }
}

impl MultiTrie {
    /// Writes the multi-trie: direction, step, then the count and the tries.
    pub fn serialize(&self, out: &mut DataOutput) -> (r: Result<(), DataError>)
        requires
            self.wf(),
        ensures
            r is Ok <==> multi_fits(self@),
            r is Ok ==> final(out).bytes@ == old(out).bytes@ + multi_bytes(self@) && forall|t: int|
                0 <= t < self@.tries.len() ==> trie_texts(#[trigger] self@.tries[t]),
    {
        let ghost v = self@;
        out.write_bool(self.forward);
        out.write_i32(self.by);
        match out.write_usize(self.tries.len()) {
            Ok(()) => {},
            Err(e) => {
                assert(v.tries.len() == self.tries@.len());
                return Err(e);
            },
        }
        let ghost start = out.bytes@;
        let mut i: usize = 0;
        while i < self.tries.len()
            invariant
                v == self@,
                v.wf(),
                v.tries.len() == self.tries@.len(),
                self.tries@.len() <= I32_MAX,
                start == old(out).bytes@ + bool_bytes(v.forward) + be32_bytes(bits32(v.by))
                    + be32_bytes(v.tries.len() as u32),
                i <= self.tries@.len(),
                out.bytes@ == start + tries_bytes(v.tries, i as int),
                forall|t: int| 0 <= t < i ==> trie_fits(#[trigger] v.tries[t]) && trie_texts(v.tries[t]),
            decreases self.tries@.len() - i,
        {
            assert(v.tries[i as int] == self.tries@[i as int]@);
            assert(v.tries[i as int].wf());
            self.tries[i].serialize(out)?;
            assert(out.bytes@ =~= start + tries_bytes(v.tries, i + 1));
            i = i + 1;
        }
        assert(final(out).bytes@ =~= old(out).bytes@ + multi_bytes(v));
        Ok(())
    }

    /// Reads a multi-trie.
    pub fn deserialize(input: &mut DataInput) -> (r: Result<MultiTrie, DataError>)
        ensures
            final(input).bytes@ == old(input).bytes@,
            match parse_multi(old(input).bytes@, old(input).pos as int) {
                Some((v, q)) => r matches Ok(t) && t@ == v && final(input).pos == q,
                None => r is Err,
            },
    {
        let ghost b = input.bytes@;
        let ghost p0 = input.pos as int;
        let forward = input.read_bool()?;
        let ghost p1 = input.pos as int;
        let by = input.read_i32()?;
        proof {
            let raw = parse_raw32(b, p1).unwrap().0;
            assert(signed32(raw) as i32 == by);
        }
        let n = input.read_usize()?;
        let ghost p3 = input.pos as int;
        let mut tries: Vec<Trie> = Vec::new();
        let mut i: usize = 0;
        while i < n
            invariant
                input.bytes@ == b,
                b == old(input).bytes@,
                p0 == old(input).pos as int,
                parse_multi(b, p0) == (match parse_tries(b, p3, n as nat) {
                    None => None,
                    Some((tries, p4)) => Some((MultiView { tries, forward, by }, p4)),
                }),
                i <= n,
                n <= u32::MAX,
                parse_tries(b, p3, i as nat) == Some(
                    (tries@.map_values(|t: Trie| t@), input.pos as int),
                ),
            decreases n - i,
        {
            let ghost prev = tries@.map_values(|t: Trie| t@);
            let x = match Trie::deserialize(input) {
                Ok(x) => x,
                Err(e) => {
                    proof {
                        lemma_tries_fail(b, p3, (i + 1) as nat, n as nat);
                    }
                    return Err(e);
                },
            };
            let ghost xv = x@;
            tries.push(x);
            assert(tries@.map_values(|t: Trie| t@) =~= prev.push(xv));
            i = i + 1;
        }
        Ok(MultiTrie { tries, forward, by })
    }
}

impl MultiTrie2 {
    /// Reads a multi-trie to be composed with the adjacency rules.
    pub fn deserialize(input: &mut DataInput) -> (r: Result<MultiTrie2, DataError>)
        ensures
            final(input).bytes@ == old(input).bytes@,
            match parse_multi(old(input).bytes@, old(input).pos as int) {
                Some((v, q)) => r matches Ok(t) && t@ == v && final(input).pos == q,
                None => r is Err,
            },
    {
        let t = MultiTrie::deserialize(input)?;
        Ok(MultiTrie2 { t })
    }
}

impl MultiTrie2 {
    /// Writes the underlying multi-trie.
    pub fn serialize(&self, out: &mut DataOutput) -> (r: Result<(), DataError>)
        requires
            self.wf(),
        ensures
            r is Ok <==> multi_fits(self@),
            r is Ok ==> final(out).bytes@ == old(out).bytes@ + multi_bytes(self@) && forall|t: int|
                0 <= t < self@.tries.len() ==> trie_texts(#[trigger] self@.tries[t]),
    {
        self.t.serialize(out)
    }
}

impl Stemmer {
    /// The table in its on-disk form: the method string, then the trie or
    /// multi-trie.
    pub fn serialize(&self) -> (r: Result<Vec<u8>, DataError>)
        requires
            self.wf(),
        ensures
            r is Ok <==> table_fits(self.method@, self.table@),
            r matches Ok(b) ==> b@ == table_bytes(self.method@, self.table@) && table_texts(
                self.method@,
                self.table@,
            ),
    {
        let mut out = DataOutput::new();
        out.write_string(self.method.as_str())?;
        match &self.table {
            Table::Single(t) => t.serialize(&mut out)?,
            Table::Multi(m) => m.serialize(&mut out)?,
        }
        assert(out.bytes@ =~= table_bytes(self.method@, self.table@));
        Ok(out.bytes)
    }

    /// Loads a table: a method string, then a multi-trie if the method holds
    /// an `M` or an `m`, else a single trie.
    pub fn load(bytes: &[u8]) -> (r: Result<Stemmer, DataError>)
        ensures
            match parse_table(bytes@) {
                Some((m, t)) => r matches Ok(s) && s.method@ == m && s.table@ == t && s.wf(),
                None => r is Err,
            },
    {
        let mut input = DataInput::new(vstd::slice::slice_to_vec(bytes));
        let method = input.read_string()?;
        if is_multi_method(method.as_str()) {
            let ghost q = input.pos as int;
            proof {
                if parse_multi(bytes@, q) is Some {
                    let after_by = parse_raw32(bytes@, q + 1).unwrap().1;
                    let (count, first) = parse_u32(bytes@, after_by).unwrap();
                    lemma_tries_wf(bytes@, first, count as nat);
                }
            }
            let m = MultiTrie2::deserialize(&mut input)?;
            Ok(Stemmer { method, table: Table::Multi(m) })
        } else {
            let t = Trie::deserialize(&mut input)?;
            Ok(Stemmer { method, table: Table::Single(t) })
        }
    }
}

} // verus!
