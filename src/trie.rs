//! One character-indexed trie: an arena of rows and a pool of command strings.
use vstd::prelude::*;

use crate::edit::valid_cmd;
use crate::text::chars_of;

verus! {

/// One edge out of a row: an optional next row and an optional command.
#[derive(Clone, Copy, Debug)]
pub struct Cell {
    /// The next row on this way, if any.
    pub refr: Option<u32>,
    /// The command of this cell, as an index into the trie's command pool.
    pub cmd: Option<u32>,
    /// How many commands the subtree held before it was packed.
    pub cnt: u32,
    /// How many key characters this transition discards.
    pub skip: u32,
}

impl Cell {
    pub open spec fn used(&self) -> bool {
        self.refr is Some || self.cmd is Some
    }

    /// A cell is used when it leads on or carries a command.
    pub fn is_used(&self) -> (r: bool)
        ensures
            r == self.used(),
    {
        self.refr.is_some() || self.cmd.is_some()
    }
}

impl Default for Cell {
    fn default() -> (r: Cell)
        ensures
            r == (Cell { refr: None, cmd: None, cnt: 0, skip: 0 }),
    {
        Cell { refr: None, cmd: None, cnt: 0, skip: 0 }
    }
}

/// A node of the trie: a map from characters to cells, kept as two parallel
/// vectors with the characters in strictly ascending order.
#[derive(Clone, Debug)]
pub struct Row {
    pub chars: Vec<char>,
    pub cells: Vec<Cell>,
    /// Book-keeping of the table builder's reduction pass.
    pub uniform_count: u32,
    /// Book-keeping of the table builder's reduction pass.
    pub uniform_skip: u32,
}

/// The characters are strictly ascending.
pub open spec fn ascending(cs: Seq<char>) -> bool {
    forall|i: int, j: int| 0 <= i < j < cs.len() ==> cs[i] < cs[j]
}

/// What a row holds: its characters and, at the same positions, its cells.
pub struct RowView {
    pub chars: Seq<char>,
    pub cells: Seq<Cell>,
}

impl RowView {
    pub open spec fn wf(&self) -> bool {
        &&& self.chars.len() == self.cells.len()
        &&& ascending(self.chars)
    }

    pub open spec fn has(&self, ch: char) -> bool {
        exists|i: int| 0 <= i < self.chars.len() && self.chars[i] == ch
    }

    /// The cell stored at `ch`, if any.
    pub open spec fn cell_of(&self, ch: char) -> Option<Cell> {
        if self.has(ch) {
            Some(self.cells[choose|i: int| 0 <= i < self.chars.len() && self.chars[i] == ch])
        } else {
            None
        }
    }
}

/// The command that all command-carrying cells share, when no cell leads on
/// and at least one carries a command; with `eq_skip`, those cells must also
/// share their skip.
pub open spec fn uniform_spec(cells: Seq<Cell>, eq_skip: bool) -> Option<u32> {
    if (forall|i: int| 0 <= i < cells.len() ==> (#[trigger] cells[i]).refr is None) && (exists|i: int|
        0 <= i < cells.len() && (#[trigger] cells[i]).cmd is Some) && (forall|i: int, j: int|
        0 <= i < cells.len() && 0 <= j < cells.len() && (#[trigger] cells[i]).cmd is Some && (
        #[trigger] cells[j]).cmd is Some ==> cells[i].cmd == cells[j].cmd && (eq_skip
        ==> cells[i].skip == cells[j].skip)) {
        cells[choose|i: int| 0 <= i < cells.len() && (#[trigger] cells[i]).cmd is Some].cmd
    } else {
        None
    }
}

/// The number of cells among the first `n` that satisfy `f`.
pub open spec fn count_cells(cells: Seq<Cell>, n: int, f: spec_fn(Cell) -> bool) -> int
    decreases n,
{
    if n <= 0 {
        0
    } else {
        count_cells(cells, n - 1, f) + if f(cells[n - 1]) {
            1int
        } else {
            0int
        }
    }
}

/// The position of `ch` among the strictly ascending `chars`, by binary
/// search.
pub fn search_sorted(chars: &Vec<char>, ch: char) -> (r: Option<usize>)
    requires
        ascending(chars@),
    ensures
        r matches Some(i) ==> i < chars@.len() && chars@[i as int] == ch,
        r is None ==> forall|i: int| 0 <= i < chars@.len() ==> chars@[i] != ch,
{
    let mut lo: usize = 0;
    let mut hi: usize = chars.len();
    while lo < hi
        invariant
            ascending(chars@),
            lo <= hi <= chars@.len(),
            forall|i: int| 0 <= i < lo ==> chars@[i] < ch,
            forall|i: int| hi <= i < chars@.len() ==> chars@[i] > ch,
        decreases hi - lo,
    {
        let mid = lo + (hi - lo) / 2;
        let c = chars[mid];
        if c == ch {
            return Some(mid);
        } else if c < ch {
            lo = mid + 1;
        } else {
            hi = mid;
        }
    }
    None
}

/// The cell of `r` at `ch`, or an empty cell.
pub open spec fn cell_or_empty(r: RowView, ch: char) -> Cell {
    match r.cell_of(ch) {
        Some(c) => c,
        None => Cell { refr: None, cmd: None, cnt: 0, skip: 0 },
    }
}

/// Every next-row index of the row is below `n`.
pub open spec fn refs_below(r: RowView, n: int) -> bool {
    forall|i: int| 0 <= i < r.cells.len() ==> below(#[trigger] r.cells[i].refr, n)
}

/// Every command index of the row is below `n`.
pub open spec fn cmds_below(r: RowView, n: int) -> bool {
    forall|i: int| 0 <= i < r.cells.len() ==> below(#[trigger] r.cells[i].cmd, n)
}

/// A row `mid` made from `o` by `entry(ch)` at position `i`, then `fin` by
/// replacing the cell at `i`: the other characters keep their cells, and
/// index bounds that hold of `o` and of the new cell hold of `fin`.
proof fn lemma_row_put(o: RowView, mid: RowView, fin: RowView, i: int, ch: char)
    requires
        o.wf(),
        mid.wf(),
        0 <= i < mid.chars.len(),
        i <= o.chars.len(),
        mid.chars[i] == ch,
        fin.chars == mid.chars,
        fin.cells == mid.cells.update(i, fin.cells[i]),
        o.has(ch) ==> mid == o,
        !o.has(ch) ==> mid.chars == o.chars.insert(i, ch) && mid.cells == o.cells.insert(
            i,
            Cell { refr: None, cmd: None, cnt: 0, skip: 0 },
        ),
        mid.cells[i] == cell_or_empty(o, ch),
    ensures
        fin.wf(),
        fin.cell_of(ch) == Some(fin.cells[i]),
        forall|c: char| c != ch ==> #[trigger] fin.cell_of(c) == o.cell_of(c),
        forall|n: int|
            refs_below(o, n) && below(fin.cells[i].refr, n) ==> #[trigger] refs_below(fin, n),
        forall|n: int|
            cmds_below(o, n) && below(fin.cells[i].cmd, n) ==> #[trigger] cmds_below(fin, n),
{
    if !o.has(ch) {
        o.chars.insert_ensures(i, ch);
        o.cells.insert_ensures(i, Cell { refr: None, cmd: None, cnt: 0, skip: 0 });
    }
    lemma_cell_of_at(fin, i);
    assert forall|c: char| c != ch implies #[trigger] fin.cell_of(c) == o.cell_of(c) by {
        if o.has(c) {
            let k = choose|k: int| 0 <= k < o.chars.len() && o.chars[k] == c;
            lemma_cell_of_at(o, k);
            let k2 = if o.has(ch) || k < i {
                k
            } else {
                k + 1
            };
            assert(fin.chars[k2] == c);
            assert(k2 != i);
            assert(fin.cells[k2] == o.cells[k]);
            lemma_cell_of_at(fin, k2);
        } else if fin.has(c) {
            let j = choose|j: int| 0 <= j < fin.chars.len() && fin.chars[j] == c;
            assert(j != i);
            if o.has(ch) {
                assert(o.chars[j] == c);
            } else if j < i {
                assert(o.chars[j] == c);
            } else {
                assert(o.chars[j - 1] == c);
            }
        }
    }
    assert forall|n: int|
        refs_below(o, n) && below(fin.cells[i].refr, n) implies #[trigger] refs_below(fin, n) by {
        assert forall|j: int| 0 <= j < fin.cells.len() implies below(#[trigger] fin.cells[j].refr, n) by {
            if j != i {
                if o.has(ch) || j < i {
                    assert(fin.cells[j] == o.cells[j]);
                } else {
                    assert(fin.cells[j] == o.cells[j - 1]);
                }
            }
        }
    }
    assert forall|n: int|
        cmds_below(o, n) && below(fin.cells[i].cmd, n) implies #[trigger] cmds_below(fin, n) by {
        assert forall|j: int| 0 <= j < fin.cells.len() implies below(#[trigger] fin.cells[j].cmd, n) by {
            if j != i {
                if o.has(ch) || j < i {
                    assert(fin.cells[j] == o.cells[j]);
                } else {
                    assert(fin.cells[j] == o.cells[j - 1]);
                }
            }
        }
    }
}

/// In a well-formed row the cell at a position is the cell of its
/// character.
pub proof fn lemma_cell_of_at(r: RowView, k: int)
    requires
        r.wf(),
        0 <= k < r.chars.len(),
    ensures
        r.cell_of(r.chars[k]) == Some(r.cells[k]),
{
    let ch = r.chars[k];
    let j = choose|j: int| 0 <= j < r.chars.len() && r.chars[j] == ch;
    assert(j == k) by {
        if j < k {
            assert(r.chars[j] < r.chars[k]);
        } else if j > k {
            assert(r.chars[k] < r.chars[j]);
        }
    }
}

impl View for Row {
    type V = RowView;

    open spec fn view(&self) -> RowView {
        RowView { chars: self.chars@, cells: self.cells@ }
    }
}

impl Row {
    pub open spec fn wf(&self) -> bool {
        self@.wf()
    }

    /// An empty row.
    pub fn new() -> (r: Row)
        ensures
            r.wf(),
            r@ == (RowView { chars: Seq::empty(), cells: Seq::empty() }),
            r.uniform_count == 0,
            r.uniform_skip == 0,
    {
        let r = Row { chars: Vec::new(), cells: Vec::new(), uniform_count: 0, uniform_skip: 0 };
        assert(r@.chars =~= Seq::empty());
        assert(r@.cells =~= Seq::empty());
        r
    }

    /// The position of `ch` in the row.
    pub fn find(&self, ch: char) -> (r: Option<usize>)
        requires
            self.wf(),
        ensures
            r matches Some(i) ==> i < self.chars@.len() && self.chars@[i as int] == ch
                && self@.cell_of(ch) == Some(self.cells@[i as int]),
            r is None ==> !self@.has(ch) && self@.cell_of(ch) is None,
    {
        let r = search_sorted(&self.chars, ch);
        proof {
            if let Some(i) = r {
                let k = choose|k: int| 0 <= k < self@.chars.len() && self@.chars[k] == ch;
                assert(k == i as int) by {
                    if k < i {
                        assert(self.chars@[k] < self.chars@[i as int]);
                    } else if k > i {
                        assert(self.chars@[i as int] < self.chars@[k]);
                    }
                }
            }
        }
        r
    }

    /// A copy of the row.
    pub fn duplicate(&self) -> (r: Row)
        ensures
            r@ == self@,
            r.uniform_count == self.uniform_count,
            r.uniform_skip == self.uniform_skip,
    {
        let r = Row {
            chars: self.chars.clone(),
            cells: self.cells.clone(),
            uniform_count: self.uniform_count,
            uniform_skip: self.uniform_skip,
        };
        r
    }

    /// The position of `ch`, inserting an empty cell there, in character
    /// order, if the row has none.
    pub fn entry(&mut self, ch: char) -> (r: usize)
        requires
            old(self).wf(),
        ensures
            final(self).wf(),
            r < final(self).chars@.len(),
            r <= old(self).chars@.len(),
            final(self).chars@[r as int] == ch,
            final(self).uniform_count == old(self).uniform_count,
            final(self).uniform_skip == old(self).uniform_skip,
            final(self).cells@[r as int] == cell_or_empty(old(self)@, ch),
            old(self)@.has(ch) ==> final(self)@ == old(self)@,
            !old(self)@.has(ch) ==> final(self).chars@ == old(self).chars@.insert(r as int, ch)
                && final(self).cells@ == old(self).cells@.insert(
                r as int,
                Cell { refr: None, cmd: None, cnt: 0, skip: 0 },
            ),
    {
        let mut i: usize = 0;
        while i < self.chars.len() && self.chars[i] < ch
            invariant
                self.wf(),
                *self == *old(self),
                i <= self.chars@.len(),
                forall|k: int| 0 <= k < i ==> self.chars@[k] < ch,
            decreases self.chars@.len() - i,
        {
            i = i + 1;
        }
        if i < self.chars.len() && self.chars[i] == ch {
            proof {
                lemma_cell_of_at(self@, i as int);
            }
            return i;
        }
        proof {
            assert forall|k: int| 0 <= k < self.chars@.len() implies self.chars@[k] != ch by {
                if k >= i {
                    assert(self.chars@[i as int] > ch);
                    if k > i {
                        assert(self.chars@[i as int] < self.chars@[k]);
                    }
                }
            }
        }
        let ghost oc = self.chars@;
        self.chars.insert(i, ch);
        self.cells.insert(i, Cell { refr: None, cmd: None, cnt: 0, skip: 0 });
        proof {
            assert forall|a: int, b: int| 0 <= a < b < self.chars@.len() implies self.chars@[a]
                < self.chars@[b] by {
                if a < i && b > i {
                    assert(oc[a] < ch);
                    assert(self.chars@[b] == oc[b - 1]);
                    if b - 1 > i {
                        assert(oc[i as int] < oc[b - 1]);
                    }
                    assert(oc[i as int] > ch || i == oc.len());
                } else if a == i && b > i {
                    assert(self.chars@[b] == oc[b - 1]);
                    assert(oc[i as int] > ch);
                    if b - 1 > i {
                        assert(oc[i as int] < oc[b - 1]);
                    }
                } else if a > i {
                    assert(self.chars@[a] == oc[a - 1] && self.chars@[b] == oc[b - 1]);
                } else if b == i {
                    assert(self.chars@[a] == oc[a]);
                } else {
                    assert(self.chars@[a] == oc[a] && self.chars@[b] == oc[b]);
                }
            }
        }
        i
    }

    /// Sets the command of the cell at `way`, creating the cell if needed;
    /// its count becomes 1 with a command and 0 without. Other cells stay.
    pub fn set_cmd(&mut self, way: char, cmd: Option<u32>)
        requires
            old(self).wf(),
        ensures
            final(self).wf(),
            final(self).uniform_count == old(self).uniform_count,
            final(self).uniform_skip == old(self).uniform_skip,
            final(self)@.cell_of(way) == Some(
                Cell {
                    cmd,
                    cnt: if cmd is Some {
                        1u32
                    } else {
                        0u32
                    },
                    ..cell_or_empty(old(self)@, way)
                },
            ),
            forall|c: char| c != way ==> #[trigger] final(self)@.cell_of(c) == old(self)@.cell_of(c),
            forall|n: int| #[trigger] refs_below(final(self)@, n) <== refs_below(old(self)@, n),
            forall|n: int|
                #[trigger] cmds_below(final(self)@, n) <== cmds_below(old(self)@, n) && below(
                    cmd,
                    n,
                ),
    {
        let ghost o = self@;
        let i = self.entry(way);
        proof {
            lemma_cell_of_at(self@, i as int);
        }
        let ghost mid = self@;
        let mut cell = self.cells[i];
        cell.cmd = cmd;
        cell.cnt = if cmd.is_some() {
            1
        } else {
            0
        };
        self.cells.set(i, cell);
        proof {
            lemma_row_put(o, mid, self@, i as int, way);
        }
    }

    /// Sets the next row of the cell at `way`, creating the cell if needed.
    /// Other cells stay.
    pub fn set_ref(&mut self, way: char, refr: Option<u32>)
        requires
            old(self).wf(),
        ensures
            final(self).wf(),
            final(self).uniform_count == old(self).uniform_count,
            final(self).uniform_skip == old(self).uniform_skip,
            final(self)@.cell_of(way) == Some(Cell { refr, ..cell_or_empty(old(self)@, way) }),
            forall|c: char| c != way ==> #[trigger] final(self)@.cell_of(c) == old(self)@.cell_of(c),
            forall|n: int|
                #[trigger] refs_below(final(self)@, n) <== refs_below(old(self)@, n) && below(
                    refr,
                    n,
                ),
            forall|n: int| #[trigger] cmds_below(final(self)@, n) <== cmds_below(old(self)@, n),
    {
        let ghost o = self@;
        let i = self.entry(way);
        proof {
            lemma_cell_of_at(self@, i as int);
        }
        let ghost mid = self@;
        let mut cell = self.cells[i];
        cell.refr = refr;
        self.cells.set(i, cell);
        proof {
            lemma_row_put(o, mid, self@, i as int, way);
        }
    }

    /// The command shared by all command-carrying cells of the row, if no
    /// cell leads to another row and at least one carries a command; with
    /// `eq_skip`, those cells must also share their skip.
    pub fn uniform_cmds(&self, eq_skip: bool) -> (r: Option<u32>)
        ensures
            r == uniform_spec(self.cells@, eq_skip),
    {
        let ghost cs = self.cells@;
        let mut first: Option<usize> = None;
        let mut i: usize = 0;
        while i < self.cells.len()
            invariant
                cs == self.cells@,
                i <= cs.len(),
                forall|k: int| 0 <= k < i ==> (#[trigger] cs[k]).refr is None,
                first is None ==> forall|k: int| 0 <= k < i ==> (#[trigger] cs[k]).cmd is None,
                first matches Some(f) ==> f < i && cs[f as int].cmd is Some && forall|k: int|
                    0 <= k < i && (#[trigger] cs[k]).cmd is Some ==> cs[k].cmd == cs[f as int].cmd
                        && (eq_skip ==> cs[k].skip == cs[f as int].skip),
            decreases cs.len() - i,
        {
            let cell = &self.cells[i];
            if cell.refr.is_some() {
                assert(!(forall|k: int| 0 <= k < cs.len() ==> (#[trigger] cs[k]).refr is None));
                return None;
            }
            match cell.cmd {
                None => {},
                Some(cmd) => match first {
                    None => {
                        first = Some(i);
                    },
                    Some(f) => {
                        let fc = &self.cells[f];
                        if fc.cmd != Some(cmd) || (eq_skip && fc.skip != cell.skip) {
                            assert(cs[f as int].cmd is Some && cs[i as int].cmd is Some);
                            return None;
                        }
                    },
                },
            }
            i = i + 1;
        }
        match first {
            None => None,
            Some(f) => {
                let ghost k = choose|k: int| 0 <= k < cs.len() && (#[trigger] cs[k]).cmd is Some;
                assert(cs[k].cmd == cs[f as int].cmd);
                self.cells[f].cmd
            },
        }
    }

    /// The number of cells that lead to another row.
    pub fn num_referenced_cells(&self) -> (r: usize)
        ensures
            r == count_cells(self.cells@, self.cells@.len() as int, |c: Cell| c.refr is Some),
    {
        let mut k: usize = 0;
        let mut i: usize = 0;
        while i < self.cells.len()
            invariant
                i <= self.cells@.len(),
                k <= i,
                k == count_cells(self.cells@, i as int, |c: Cell| c.refr is Some),
            decreases self.cells@.len() - i,
        {
            if self.cells[i].refr.is_some() {
                k = k + 1;
            }
            i = i + 1;
        }
        k
    }

    /// The number of cells that carry a command.
    pub fn num_patch_commands(&self) -> (r: usize)
        ensures
            r == count_cells(self.cells@, self.cells@.len() as int, |c: Cell| c.cmd is Some),
    {
        let mut k: usize = 0;
        let mut i: usize = 0;
        while i < self.cells.len()
            invariant
                i <= self.cells@.len(),
                k <= i,
                k == count_cells(self.cells@, i as int, |c: Cell| c.cmd is Some),
            decreases self.cells@.len() - i,
        {
            if self.cells[i].cmd.is_some() {
                k = k + 1;
            }
            i = i + 1;
        }
        k
    }

    /// A row with the cells of `old` and fresh book-keeping.
    pub fn from_row_cells(old: &Row) -> (r: Row)
        ensures
            r@ == old@,
            r.uniform_count == 0,
            r.uniform_skip == 0,
    {
        Row {
            chars: old.chars.clone(),
            cells: old.cells.clone(),
            uniform_count: 0,
            uniform_skip: 0,
        }
    }

    /// The cell stored at `index`, if any.
    pub fn try_get(&self, index: char) -> (r: Option<&Cell>)
        requires
            self.wf(),
        ensures
            r matches Some(c) ==> self@.cell_of(index) == Some(*c),
            r is None ==> self@.cell_of(index) is None,
    {
        match self.find(index) {
            Some(i) => Some(&self.cells[i]),
            None => None,
        }
    }

    /// The command index stored at `way`, if any.
    pub fn get_cmd(&self, way: char) -> (r: Option<u32>)
        requires
            self.wf(),
        ensures
            r == (match self@.cell_of(way) {
                Some(c) => c.cmd,
                None => None,
            }),
    {
        match self.find(way) {
            Some(i) => self.cells[i].cmd,
            None => None,
        }
    }

    /// The next-row index stored at `way`, if any.
    pub fn get_ref(&self, way: char) -> (r: Option<u32>)
        requires
            self.wf(),
        ensures
            r == (match self@.cell_of(way) {
                Some(c) => c.refr,
                None => None,
            }),
    {
        match self.find(way) {
            Some(i) => self.cells[i].refr,
            None => None,
        }
    }

    /// The command count stored at `way`, if there is a cell there.
    pub fn get_cnt(&self, way: char) -> (r: Option<u32>)
        requires
            self.wf(),
        ensures
            r == (match self@.cell_of(way) {
                Some(c) => Some(c.cnt),
                None => None,
            }),
    {
        match self.find(way) {
            Some(i) => Some(self.cells[i].cnt),
            None => None,
        }
    }
}

/// The `i`-th character of `key` in trie direction: first to last when
/// `forward`, last to first otherwise.
pub open spec fn key_char(key: Seq<char>, forward: bool, i: int) -> char {
    if forward {
        key[i]
    } else {
        key[key.len() - 1 - i]
    }
}

/// Something that answers a key with a command string.
pub trait TrieGet {
    /// The structure is well formed.
    spec fn ready(&self) -> bool;

    /// The command string for `key`, if any.
    spec fn answer(&self, key: Seq<char>) -> Option<Seq<char>>;

    /// The command string for the non-empty key `key`.
    fn get_last_on_path(&self, key: &str) -> (r: Option<String>)
        requires
            self.ready(),
            key@.len() > 0,
        ensures
            r matches Some(s) ==> self.answer(key@) == Some(s@),
            r is None ==> self.answer(key@) is None,
    ;
}

impl TrieGet for Trie {
    open spec fn ready(&self) -> bool {
        self.wf()
    }

    open spec fn answer(&self, key: Seq<char>) -> Option<Seq<char>> {
        self@.last_on_path(key)
    }

    fn get_last_on_path(&self, key: &str) -> (r: Option<String>) {
        Trie::get_last_on_path(self, key)
    }
}

/// An optional index that, when present, is below `n`.
pub open spec fn below(o: Option<u32>, n: int) -> bool {
    match o {
        Some(i) => i < n,
        None => true,
    }
}

/// The table builder's reduction pass; tables are used as they are built.
pub fn optimize(orig: Trie) -> (r: Trie)
    ensures
        r == orig,
{
    orig
}

/// A character-indexed trie with command payloads along its edges.
#[derive(Clone, Debug)]
pub struct Trie {
    pub rows: Vec<Row>,
    pub cmds: Vec<String>,
    pub root: u32,
    pub forward: bool,
}

/// What a trie holds: its rows, its command strings, its root row and its
/// direction.
pub struct TrieView {
    pub rows: Seq<RowView>,
    pub cmds: Seq<Seq<char>>,
    pub root: u32,
    pub forward: bool,
}

impl TrieView {
    /// Every row is well formed, every next-row and command index points into
    /// the arena and the pool, and every command string is valid.
    pub open spec fn wf(&self) -> bool {
        &&& self.rows.len() > 0
        &&& self.root < self.rows.len()
        &&& forall|r: int| 0 <= r < self.rows.len() ==> #[trigger] self.rows[r].wf()
        &&& forall|r: int, i: int|
            0 <= r < self.rows.len() && 0 <= i < self.rows[r].cells.len() ==> below(
                #[trigger] self.rows[r].cells[i].refr,
                self.rows.len() as int,
            )
        &&& forall|r: int, i: int|
            0 <= r < self.rows.len() && 0 <= i < self.rows[r].cells.len() ==> below(
                #[trigger] self.rows[r].cells[i].cmd,
                self.cmds.len() as int,
            )
        &&& forall|c: int| 0 <= c < self.cmds.len() ==> valid_cmd(#[trigger] self.cmds[c])
    }

    pub open spec fn cell_at(&self, row: int, ch: char) -> Option<Cell> {
        self.rows[row].cell_of(ch)
    }

    /// The walk of `get_last_on_path` from row `row` at position `i` of the
    /// key, with `best` the last command seen so far.
    pub open spec fn walk(&self, row: int, key: Seq<char>, i: int, best: Option<u32>) -> Option<u32>
        decreases key.len() - i,
    {
        let ch = key_char(key, self.forward, i);
        if i >= key.len() - 1 {
            match self.cell_at(row, ch) {
                Some(c) => if c.cmd is Some {
                    c.cmd
                } else {
                    best
                },
                None => best,
            }
        } else {
            match self.cell_at(row, ch) {
                None => best,
                Some(c) => {
                    let b = if c.cmd is Some {
                        c.cmd
                    } else {
                        best
                    };
                    match c.refr {
                        Some(n) => self.walk(n as int, key, i + 1, b),
                        None => b,
                    }
                },
            }
        }
    }

    /// The exact-match walk of `get_fully` from row `row` at position `i`:
    /// each cell discards `skip` further key characters; the cell that
    /// consumes the last character gives the command, without needing a
    /// further row.
    pub open spec fn fully(&self, row: int, key: Seq<char>, i: int) -> Option<u32>
        decreases key.len() - i,
    {
        if i < 0 || i >= key.len() {
            None
        } else {
            match self.cell_at(row, key_char(key, self.forward, i)) {
                None => None,
                Some(c) => {
                    let j = i + 1 + c.skip;
                    if j > key.len() {
                        None
                    } else if j == key.len() {
                        c.cmd
                    } else {
                        match c.refr {
                            Some(n) => self.fully(n as int, key, j),
                            None => None,
                        }
                    }
                },
            }
        }
    }

    /// The command of an exact match of `key`.
    pub open spec fn fully_on_path(&self, key: Seq<char>) -> Option<Seq<char>> {
        match self.fully(self.root as int, key, 0) {
            Some(n) => Some(self.cmds[n as int]),
            None => None,
        }
    }

    /// The command at the latest transition that carried one on the walk of
    /// `key`; the final character may commit a command without leading on.
    pub open spec fn last_on_path(&self, key: Seq<char>) -> Option<Seq<char>> {
        match self.walk(self.root as int, key, 0, None) {
            Some(n) => Some(self.cmds[n as int]),
            None => None,
        }
    }
}

/// A trie with one more, empty, row is still well formed.
proof fn lemma_trie_push_row(t: TrieView)
    requires
        t.wf(),
    ensures
        (TrieView { rows: t.rows.push(RowView { chars: Seq::empty(), cells: Seq::empty() }), ..t }).wf(),
{
    let u = TrieView { rows: t.rows.push(RowView { chars: Seq::empty(), cells: Seq::empty() }), ..t };
    assert forall|r: int| 0 <= r < u.rows.len() implies #[trigger] u.rows[r].wf() by {
        if r < t.rows.len() {
            assert(u.rows[r] == t.rows[r]);
        }
    }
    assert forall|r: int, i: int| 0 <= r < u.rows.len() && 0 <= i < u.rows[r].cells.len() implies below(
        #[trigger] u.rows[r].cells[i].refr,
        u.rows.len() as int,
    ) by {
        assert(u.rows[r] == t.rows[r]);
        assert(below(t.rows[r].cells[i].refr, t.rows.len() as int));
    }
    assert forall|r: int, i: int| 0 <= r < u.rows.len() && 0 <= i < u.rows[r].cells.len() implies below(
        #[trigger] u.rows[r].cells[i].cmd,
        u.cmds.len() as int,
    ) by {
        assert(u.rows[r] == t.rows[r]);
    }
}

/// A trie with row `node` replaced by a well-formed row whose indices point
/// into it is still well formed.
proof fn lemma_trie_set_row(t: TrieView, node: int, x: RowView)
    requires
        t.wf(),
        0 <= node < t.rows.len(),
        x.wf(),
        refs_below(x, t.rows.len() as int),
        cmds_below(x, t.cmds.len() as int),
    ensures
        (TrieView { rows: t.rows.update(node, x), ..t }).wf(),
{
    let u = TrieView { rows: t.rows.update(node, x), ..t };
    assert forall|r: int| 0 <= r < u.rows.len() implies #[trigger] u.rows[r].wf() by {
        if r != node {
            assert(u.rows[r] == t.rows[r]);
        }
    }
    assert forall|r: int, i: int| 0 <= r < u.rows.len() && 0 <= i < u.rows[r].cells.len() implies below(
        #[trigger] u.rows[r].cells[i].refr,
        u.rows.len() as int,
    ) by {
        if r != node {
            assert(u.rows[r] == t.rows[r]);
        }
    }
    assert forall|r: int, i: int| 0 <= r < u.rows.len() && 0 <= i < u.rows[r].cells.len() implies below(
        #[trigger] u.rows[r].cells[i].cmd,
        u.cmds.len() as int,
    ) by {
        if r != node {
            assert(u.rows[r] == t.rows[r]);
        }
    }
}

/// The rows of a well-formed trie have their indices below the arena and
/// pool sizes, and so below any larger sizes.
proof fn lemma_row_bounds(t: TrieView, node: int, n: int, m: int)
    requires
        t.wf(),
        0 <= node < t.rows.len(),
        t.rows.len() <= n,
        t.cmds.len() <= m,
    ensures
        refs_below(t.rows[node], n),
        cmds_below(t.rows[node], m),
{
    assert forall|i: int| 0 <= i < t.rows[node].cells.len() implies below(
        #[trigger] t.rows[node].cells[i].refr,
        n,
    ) by {
        assert(below(t.rows[node].cells[i].refr, t.rows.len() as int));
    }
    assert forall|i: int| 0 <= i < t.rows[node].cells.len() implies below(
        #[trigger] t.rows[node].cells[i].cmd,
        m,
    ) by {
        assert(below(t.rows[node].cells[i].cmd, t.cmds.len() as int));
    }
}

/// The number of cells satisfying `f` over the first `n` rows.
pub open spec fn rows_count(rows: Seq<RowView>, n: int, f: spec_fn(Cell) -> bool) -> int
    decreases n,
{
    if n <= 0 {
        0
    } else {
        rows_count(rows, n - 1, f) + count_cells(rows[n - 1].cells, rows[n - 1].cells.len() as int, f)
    }
}

/// The number of cells over the first `n` rows.
pub open spec fn rows_cells(rows: Seq<RowView>, n: int) -> int
    decreases n,
{
    if n <= 0 {
        0
    } else {
        rows_cells(rows, n - 1) + rows[n - 1].cells.len()
    }
}

proof fn lemma_count_cells_bound(cells: Seq<Cell>, n: int, f: spec_fn(Cell) -> bool)
    requires
        0 <= n,
    ensures
        0 <= count_cells(cells, n, f) <= n,
    decreases n,
{
    if n > 0 {
        lemma_count_cells_bound(cells, n - 1, f);
    }
}

proof fn lemma_rows_count_bound(rows: Seq<RowView>, n: int, f: spec_fn(Cell) -> bool)
    requires
        0 <= n <= rows.len(),
    ensures
        0 <= rows_count(rows, n, f) <= rows_cells(rows, n),
    decreases n,
{
    if n > 0 {
        lemma_rows_count_bound(rows, n - 1, f);
        lemma_count_cells_bound(rows[n - 1].cells, rows[n - 1].cells.len() as int, f);
    }
}

proof fn lemma_rows_cells_mono(rows: Seq<RowView>, a: int, b: int)
    requires
        0 <= a <= b <= rows.len(),
    ensures
        rows_cells(rows, a) <= rows_cells(rows, b),
    decreases b - a,
{
    if a < b {
        lemma_rows_cells_mono(rows, a, b - 1);
    }
}

/// The cell of row `row` at `ch` leads to row `next`.
pub open spec fn leads_to(t: TrieView, row: int, ch: char, next: int) -> bool {
    &&& t.cell_at(row, ch) is Some
    &&& t.cell_at(row, ch)->0.refr == Some(next as u32)
    &&& next == (next as u32) as int
}

/// A walk along `path`, where each of the key's characters but the last
/// leads to the next row of the path and the last carries command `id`,
/// answers with `id`.
proof fn lemma_walk_path(t: TrieView, key: Seq<char>, path: Seq<int>, i: int, best: Option<u32>, id: u32)
    requires
        0 <= i < key.len(),
        path.len() == key.len(),
        forall|j: int|
            i <= j < key.len() - 1 ==> #[trigger] leads_to(
                t,
                path[j],
                key_char(key, t.forward, j),
                path[j + 1],
            ),
        t.cell_at(path[key.len() - 1], key_char(key, t.forward, key.len() - 1)) is Some,
        t.cell_at(path[key.len() - 1], key_char(key, t.forward, key.len() - 1))->0.cmd == Some(id),
    ensures
        t.walk(path[i], key, i, best) == Some(id),
    decreases key.len() - i,
{
    if i < key.len() - 1 {
        assert(leads_to(t, path[i], key_char(key, t.forward, i), path[i + 1]));
        let c = t.cell_at(path[i], key_char(key, t.forward, i))->0;
        let b = if c.cmd is Some {
            c.cmd
        } else {
            best
        };
        lemma_walk_path(t, key, path, i + 1, b, id);
    }
}

impl View for Trie {
    type V = TrieView;

    open spec fn view(&self) -> TrieView {
        TrieView {
            rows: self.rows@.map_values(|r: Row| r@),
            cmds: self.cmds@.map_values(|c: String| c@),
            root: self.root,
            forward: self.forward,
        }
    }
}

impl Trie {
    pub open spec fn wf(&self) -> bool {
        self@.wf()
    }

    /// An empty trie: one empty root row and no commands.
    pub fn new(forward: bool) -> (r: Trie)
        ensures
            r.wf(),
            r@.rows == seq![RowView { chars: Seq::empty(), cells: Seq::empty() }],
            r@.cmds.len() == 0,
            r.root == 0,
            r.forward == forward,
    {
        let mut rows: Vec<Row> = Vec::new();
        rows.push(Row::new());
        let t = Trie { rows, cmds: Vec::new(), root: 0, forward };
        assert(t@.rows =~= seq![RowView { chars: Seq::empty(), cells: Seq::empty() }]);
        t
    }

    /// Adds `key` with the command `cmd`, creating rows along its path as
    /// needed and adding `cmd` to the pool unless it is there: afterwards
    /// the trie answers `key` with `cmd`. An empty key or command changes
    /// nothing.
    pub fn add(&mut self, key: &str, cmd: &str)
        requires
            old(self).wf(),
            valid_cmd(cmd@),
            old(self).rows@.len() + key@.len() <= u32::MAX,
            old(self).cmds@.len() < u32::MAX,
        ensures
            final(self).wf(),
            final(self).root == old(self).root,
            final(self).forward == old(self).forward,
            key@.len() > 0 && cmd@.len() > 0 ==> final(self)@.last_on_path(key@) == Some(cmd@),
            key@.len() == 0 || cmd@.len() == 0 ==> final(self)@ == old(self)@,
            key@.len() > 0 && cmd@.len() > 0 && old(self)@.cmds.contains(cmd@) ==> final(self)@.cmds
                == old(self)@.cmds,
            key@.len() > 0 && cmd@.len() > 0 && !old(self)@.cmds.contains(cmd@)
                ==> final(self)@.cmds == old(self)@.cmds.push(cmd@),
            old(self)@.rows.len() <= final(self)@.rows.len(),
    {
        let k = chars_of(key);
        let text = cmd.to_owned();
        if k.len() == 0 || chars_of(cmd).len() == 0 {
            return;
        }
        let mut id: usize = 0;
        while id < self.cmds.len() && !(self.cmds[id] == text)
            invariant
                self.wf(),
                *self == *old(self),
                text@ == cmd@,
                id <= self.cmds@.len(),
                forall|j: int| 0 <= j < id ==> self@.cmds[j] != cmd@,
            decreases self.cmds@.len() - id,
        {
            assert(self@.cmds[id as int] == self.cmds@[id as int]@);
            id = id + 1;
        }
        proof {
            if id < self.cmds@.len() {
                assert(self@.cmds[id as int] == self.cmds@[id as int]@);
                assert(old(self)@.cmds.contains(cmd@));
            } else {
                assert(!old(self)@.cmds.contains(cmd@));
            }
        }
        if id == self.cmds.len() {
            id = self.cmds.len();
            self.cmds.push(text);
            proof {
                let t = self@;
                assert(t.cmds =~= old(self)@.cmds.push(cmd@));
                assert forall|c: int| 0 <= c < t.cmds.len() implies valid_cmd(#[trigger] t.cmds[c]) by {
                    if c < old(self)@.cmds.len() {
                        assert(t.cmds[c] == old(self)@.cmds[c]);
                    }
                }
                assert forall|r: int, i: int|
                    0 <= r < t.rows.len() && 0 <= i < t.rows[r].cells.len() implies below(
                    #[trigger] t.rows[r].cells[i].cmd,
                    t.cmds.len() as int,
                ) by {
                    assert(below(old(self)@.rows[r].cells[i].cmd, old(self)@.cmds.len() as int));
                }
            }
        }
        assert(self@.cmds[id as int] == self.cmds@[id as int]@);
        let ghost pool = self@.cmds;
        assert(old(self)@.cmds.contains(cmd@) ==> pool == old(self)@.cmds);
        assert(!old(self)@.cmds.contains(cmd@) ==> pool == old(self)@.cmds.push(cmd@));
        let n = k.len();
        let mut node: usize = self.root as usize;
        let mut i: usize = 0;
        let ghost mut path: Seq<int> = seq![self.root as int];
        while i + 1 < n
            invariant
                self.wf(),
                self.root == old(self).root,
                self.forward == old(self).forward,
                self@.cmds == pool,
                old(self)@.rows.len() <= self@.rows.len(),
                k@ == key@,
                n == k@.len(),
                n > 0,
                i < n,
                id < self.cmds@.len(),
                self@.cmds[id as int] == cmd@,
                self.rows@.len() <= old(self).rows@.len() + i,
                old(self).rows@.len() + key@.len() <= u32::MAX,
                node < self.rows@.len(),
                path.len() == i + 1,
                path[0] == self.root as int,
                path[i as int] == node,
                forall|j: int| 0 <= j <= i ==> 0 <= #[trigger] path[j] < self.rows@.len(),
                forall|j: int|
                    0 <= j < i ==> #[trigger] leads_to(
                        self@,
                        path[j],
                        key_char(key@, self.forward, j),
                        path[j + 1],
                    ),
            decreases n - i,
        {
            let ch = if self.forward {
                k[i]
            } else {
                k[n - 1 - i]
            };
            assert(ch == key_char(key@, self.forward, i as int));
            assert(self@.rows[node as int] == self.rows@[node as int]@);
            assert(self@.rows[node as int].wf());
            match self.rows[node].get_ref(ch) {
                Some(nx) => {
                    proof {
                        let c = self@.cell_at(node as int, ch)->0;
                        assert(self@.rows[node as int].has(ch));
                        let jj = choose|jj: int|
                            0 <= jj < self@.rows[node as int].chars.len() && self@.rows[node as int].chars[jj] == ch;
                        assert(below(self@.rows[node as int].cells[jj].refr, self@.rows.len() as int));
                    }
                    node = nx as usize;
                },
                None => {
                    let ghost t0 = self@;
                    let fresh = self.rows.len();
                    self.rows.push(Row::new());
                    proof {
                        assert(self@.rows =~= t0.rows.push(RowView { chars: Seq::empty(), cells: Seq::empty() }));
                        lemma_trie_push_row(t0);
                    }
                    let ghost t1 = self@;
                    let mut row = self.rows[node].duplicate();
                    assert(row@ == t1.rows[node as int]);
                    proof {
                        lemma_row_bounds(t1, node as int, t1.rows.len() as int, t1.cmds.len() as int);
                    }
                    row.set_ref(ch, Some(fresh as u32));
                    let ghost newrow = row@;
                    self.rows.set(node, row);
                    proof {
                        assert(self@.rows =~= t1.rows.update(node as int, newrow));
                        lemma_trie_set_row(t1, node as int, newrow);
                        assert forall|j: int| 0 <= j < i implies #[trigger] leads_to(
                            self@,
                            path[j],
                            key_char(key@, self.forward, j),
                            path[j + 1],
                        ) by {
                            assert(leads_to(t0, path[j], key_char(key@, self.forward, j), path[j + 1]));
                            assert(t1.rows[path[j]] == t0.rows[path[j]]);
                            if path[j] == node {
                                assert(key_char(key@, self.forward, j) != ch);
                            }
                        }
                    }
                    node = fresh;
                },
            }
            proof {
                path = path.push(node as int);
            }
            i = i + 1;
        }
        let ch = if self.forward {
            k[i]
        } else {
            k[n - 1 - i]
        };
        assert(ch == key_char(key@, self.forward, i as int));
        let ghost t2 = self@;
        let mut row = self.rows[node].duplicate();
        assert(row@ == t2.rows[node as int]);
        proof {
            lemma_row_bounds(t2, node as int, t2.rows.len() as int, t2.cmds.len() as int);
        }
        row.set_cmd(ch, Some(id as u32));
        let ghost newrow = row@;
        self.rows.set(node, row);
        proof {
            assert(self@.rows =~= t2.rows.update(node as int, newrow));
            lemma_trie_set_row(t2, node as int, newrow);
            let t = self@;
            assert forall|j: int| 0 <= j < n - 1 implies #[trigger] leads_to(
                t,
                path[j],
                key_char(key@, t.forward, j),
                path[j + 1],
            ) by {
                assert(leads_to(t2, path[j], key_char(key@, t.forward, j), path[j + 1]));
                if path[j] != node {
                    assert(t.rows[path[j]] == t2.rows[path[j]]);
                }
            }
            assert(t.cell_at(path[n - 1], key_char(key@, t.forward, n - 1)) is Some);
            assert(t.cell_at(path[n - 1], key_char(key@, t.forward, n - 1))->0.cmd == Some(id as u32));
            lemma_walk_path(t, key@, path, 0, None, id as u32);
            assert(t.cmds[id as int] == cmd@);
        }
    }

    /// Counts, over all rows, the cells that satisfy `f`.
    fn count_over_rows(&self, Ghost(f): Ghost<spec_fn(Cell) -> bool>, kind: u8) -> (r: usize)
        requires
            rows_cells(self@.rows, self@.rows.len() as int) <= usize::MAX,
            kind == 0 ==> f == (|c: Cell| c.used()),
            kind == 1 ==> f == (|c: Cell| c.refr is Some),
            kind == 2 ==> f == (|c: Cell| c.cmd is Some),
            kind <= 2,
        ensures
            r == rows_count(self@.rows, self@.rows.len() as int, f),
    {
        let mut total: usize = 0;
        let mut i: usize = 0;
        while i < self.rows.len()
            invariant
                i <= self.rows@.len(),
                self@.rows.len() == self.rows@.len(),
                rows_cells(self@.rows, self@.rows.len() as int) <= usize::MAX,
                kind == 0 ==> f == (|c: Cell| c.used()),
                kind == 1 ==> f == (|c: Cell| c.refr is Some),
                kind == 2 ==> f == (|c: Cell| c.cmd is Some),
                kind <= 2,
                total == rows_count(self@.rows, i as int, f),
            decreases self.rows@.len() - i,
        {
            let row = &self.rows[i];
            assert(self@.rows[i as int] == row@);
            let k = if kind == 0 {
                proof {
                    crate::format::lemma_used_count_is_count(row.cells@, row.cells@.len() as int);
                }
                row.num_used_cells()
            } else if kind == 1 {
                row.num_referenced_cells()
            } else {
                row.num_patch_commands()
            };
            proof {
                lemma_rows_count_bound(self@.rows, i + 1, f);
                lemma_rows_cells_mono(self@.rows, i + 1, self@.rows.len() as int);
            }
            total = total + k;
            i = i + 1;
        }
        total
    }

    /// The number of used cells over all rows.
    pub fn num_used_cells(&self) -> (r: usize)
        requires
            rows_cells(self@.rows, self@.rows.len() as int) <= usize::MAX,
        ensures
            r == rows_count(self@.rows, self@.rows.len() as int, |c: Cell| c.used()),
    {
        self.count_over_rows(Ghost(|c: Cell| c.used()), 0)
    }

    /// The number of cells over all rows that lead to another row.
    pub fn num_referenced_cells(&self) -> (r: usize)
        requires
            rows_cells(self@.rows, self@.rows.len() as int) <= usize::MAX,
        ensures
            r == rows_count(self@.rows, self@.rows.len() as int, |c: Cell| c.refr is Some),
    {
        self.count_over_rows(Ghost(|c: Cell| c.refr is Some), 1)
    }

    /// The number of cells over all rows that carry a command.
    pub fn num_patch_commands(&self) -> (r: usize)
        requires
            rows_cells(self@.rows, self@.rows.len() as int) <= usize::MAX,
        ensures
            r == rows_count(self@.rows, self@.rows.len() as int, |c: Cell| c.cmd is Some),
    {
        self.count_over_rows(Ghost(|c: Cell| c.cmd is Some), 2)
    }

    /// The row at `index`, if there is one.
    pub fn row(&self, index: u32) -> (r: Option<&Row>)
        ensures
            r matches Some(x) ==> index < self.rows@.len() && *x == self.rows@[index as int]
                && x@ == self@.rows[index as int],
            r is None ==> index >= self.rows@.len(),
    {
        if (index as usize) < self.rows.len() {
            Some(&self.rows[index as usize])
        } else {
            None
        }
    }

    /// The cell at character `ch` of row `row_idx`, if there is one.
    pub fn node(&self, row_idx: u32, ch: char) -> (r: Option<&Cell>)
        requires
            self.wf(),
        ensures
            r matches Some(c) ==> row_idx < self.rows@.len() && self@.cell_at(row_idx as int, ch)
                == Some(*c),
            r is None ==> row_idx >= self.rows@.len() || self@.cell_at(row_idx as int, ch) is None,
    {
        match self.row(row_idx) {
            Some(row) => row.try_get(ch),
            None => None,
        }
    }

    /// The command index that `get_last_on_path` finds for the window
    /// `key[lo..hi]`.
    pub fn last_index_on_path(&self, key: &Vec<char>, lo: usize, hi: usize) -> (r: Option<u32>)
        requires
            self.wf(),
            lo < hi <= key@.len(),
        ensures
            r == self@.walk(self.root as int, key@.subrange(lo as int, hi as int), 0, None),
            r matches Some(n) ==> n < self.cmds@.len(),
    {
        let ghost k = key@.subrange(lo as int, hi as int);
        let n = hi - lo;
        let mut now: usize = self.root as usize;
        let mut best: Option<u32> = None;
        let mut i: usize = 0;
        while i + 1 < n
            invariant
                self.wf(),
                lo < hi <= key@.len(),
                n == hi - lo,
                k == key@.subrange(lo as int, hi as int),
                i < n,
                now < self.rows@.len(),
                best matches Some(b) ==> b < self.cmds@.len(),
                self@.walk(self.root as int, k, 0, None) == self@.walk(now as int, k, i as int, best),
            decreases n - i,
        {
            let ch = if self.forward {
                key[lo + i]
            } else {
                key[hi - 1 - i]
            };
            assert(ch == key_char(k, self.forward, i as int));
            let row = &self.rows[now];
            assert(self@.rows[now as int] == row@);
            assert(self@.rows[now as int].wf());
        assert(self.rows@[now as int].wf());
            match row.find(ch) {
                None => {
                    return best;
                },
                Some(j) => {
                    let cell = row.cells[j];
                    assert(self@.rows[now as int].cells[j as int] == cell);
                    if cell.cmd.is_some() {
                        best = cell.cmd;
                    }
                    match cell.refr {
                        Some(next) => {
                            now = next as usize;
                        },
                        None => {
                            return best;
                        },
                    }
                },
            }
            i = i + 1;
        }
        let ch = if self.forward {
            key[lo + i]
        } else {
            key[hi - 1 - i]
        };
        assert(ch == key_char(k, self.forward, i as int));
        let row = &self.rows[now];
        assert(self@.rows[now as int] == row@);
        assert(self@.rows[now as int].wf());
        match row.find(ch) {
            Some(j) => {
                let cell = row.cells[j];
                assert(self@.rows[now as int].cells[j as int] == cell);
                if cell.cmd.is_some() {
                    cell.cmd
                } else {
                    best
                }
            },
            None => best,
        }
    }

    /// The command of an exact match of `key`, where each cell discards its
    /// `skip` further key characters.
    pub fn get_fully(&self, key: &str) -> (r: Option<String>)
        requires
            self.wf(),
        ensures
            r matches Some(s) ==> self@.fully_on_path(key@) == Some(s@),
            r is None ==> self@.fully_on_path(key@) is None,
    {
        let k = chars_of(key);
        let n = k.len();
        let mut now: usize = self.root as usize;
        let mut i: usize = 0;
        if n == 0 {
            return None;
        }
        loop
            invariant
                self.wf(),
                k@ == key@,
                n == k@.len(),
                i < n,
                now < self.rows@.len(),
                self@.fully(self.root as int, key@, 0) == self@.fully(now as int, key@, i as int),
            decreases n - i,
        {
            let ch = if self.forward {
                k[i]
            } else {
                k[n - 1 - i]
            };
            assert(ch == key_char(key@, self.forward, i as int));
            let row = &self.rows[now];
            assert(self@.rows[now as int] == row@);
            assert(self@.rows[now as int].wf());
            let cell = match row.find(ch) {
                None => {
                    return None;
                },
                Some(j) => row.cells[j],
            };
            if cell.skip as usize > n - i - 1 {
                return None;
            }
            let next = i + 1 + cell.skip as usize;
            if next == n {
                match cell.cmd {
                    Some(c) => {
                        assert(self@.cmds[c as int] == self.cmds@[c as int]@);
                        return Some(self.cmds[c as usize].clone());
                    },
                    None => {
                        return None;
                    },
                }
            }
            match cell.refr {
                Some(nx) => {
                    now = nx as usize;
                },
                None => {
                    return None;
                },
            }
            i = next;
        }
    }

    /// The command at the latest transition that carried one on the walk of
    /// `key`, or `None` if the walk dies before any command.
    pub fn get_last_on_path(&self, key: &str) -> (r: Option<String>)
        requires
            self.wf(),
            key@.len() > 0,
        ensures
            r matches Some(s) ==> self@.last_on_path(key@) == Some(s@),
            r is None ==> self@.last_on_path(key@) is None,
    {
        let k = chars_of(key);
        assert(k@.subrange(0, k@.len() as int) == k@);
        match self.last_index_on_path(&k, 0, k.len()) {
            Some(n) => {
                assert(self@.cmds[n as int] == self.cmds@[n as int]@);
                Some(self.cmds[n as usize].clone())
            },
            None => None,
        }
    }
}

} // verus!
